//! The canonical block model.

use vstd::prelude::*;
use crate::bytes::{is_zero, zeros};
use crate::encoding::{block_encoding, encode_block};
use crate::error::{Error, ValidationFailure};
use crate::hashing::{blake3_digest, digest_of};

verus! {

/// Number of seconds a block's timestamp may lie ahead of the validator's clock.
pub const MAX_FUTURE_DRIFT: u64 = 7200;

/// Protocol version that newly constructed blocks carry.
pub const BLOCK_VERSION: u32 = 1;

/// Fixed-size block metadata.
#[derive(Debug, Clone, Copy)]
pub struct BlockHeader {
    /// Protocol version.
    pub version: u32,
    /// Identity of the parent block; all zero for a genesis block.
    pub previous_hash: [u8; 32],
    /// Commitment to the transaction set.
    pub merkle_root: [u8; 32],
    /// Seconds since the epoch, as claimed by the producer.
    pub timestamp: u64,
    /// Proof-of-work target the block has to meet.
    pub target: [u8; 32],
    /// Proof-of-work search variable.
    pub nonce: u64,
}

/// A transfer between two public-key identifiers.
#[derive(Debug, Clone)]
pub struct Transaction {
    pub id: [u8; 32],
    pub sender: [u8; 32],
    pub receiver: [u8; 32],
    pub amount: u64,
    pub fee: u64,
    pub data: Vec<u8>,
    pub signature: [u8; 64],
}

/// What kind of work an intent asks for.
#[derive(Debug, Clone)]
pub enum IntentType {
    Prediction,
    Classification,
    Generation,
    Optimization,
    Custom(String),
}

/// Resources an intent needs; every field has to be non-zero.
#[derive(Debug, Clone, Copy)]
pub struct ProcessingRequirements {
    pub compute_units: u64,
    pub memory_mb: u64,
    pub max_time_ms: u64,
}

/// Optional payload of a block, carried opaquely.
#[derive(Debug, Clone)]
pub struct IntentData {
    pub intent_type: IntentType,
    pub content: String,
    pub requirements: ProcessingRequirements,
    pub proof: Vec<u8>,
}

/// A block: header, ordered transactions and an optional intent.
#[derive(Debug, Clone)]
pub struct Block {
    pub header: BlockHeader,
    pub transactions: Vec<Transaction>,
    pub intent_data: Option<IntentData>,
}

/// What a transaction holds, with its payload as a mathematical sequence.
pub struct TransactionView {
    pub id: [u8; 32],
    pub sender: [u8; 32],
    pub receiver: [u8; 32],
    pub amount: u64,
    pub fee: u64,
    pub data: Seq<u8>,
    pub signature: [u8; 64],
}

/// The kind of an intent, with a custom name as a sequence of characters.
pub enum IntentTypeView {
    Prediction,
    Classification,
    Generation,
    Optimization,
    Custom(Seq<char>),
}

/// What an intent holds, with its text and proof as mathematical sequences.
pub struct IntentDataView {
    pub intent_type: IntentTypeView,
    pub content: Seq<char>,
    pub requirements: ProcessingRequirements,
    pub proof: Seq<u8>,
}

/// What a block holds: the model over which every contract on blocks is stated.
pub struct BlockView {
    pub header: BlockHeader,
    pub transactions: Seq<TransactionView>,
    pub intent_data: Option<IntentDataView>,
}

impl View for Transaction {
    type V = TransactionView;

    open spec fn view(&self) -> TransactionView {
        TransactionView {
            id: self.id,
            sender: self.sender,
            receiver: self.receiver,
            amount: self.amount,
            fee: self.fee,
            data: self.data@,
            signature: self.signature,
        }
    }
}

impl View for IntentType {
    type V = IntentTypeView;

    open spec fn view(&self) -> IntentTypeView {
        match self {
            IntentType::Prediction => IntentTypeView::Prediction,
            IntentType::Classification => IntentTypeView::Classification,
            IntentType::Generation => IntentTypeView::Generation,
            IntentType::Optimization => IntentTypeView::Optimization,
            IntentType::Custom(name) => IntentTypeView::Custom(name@),
        }
    }
}

impl View for IntentData {
    type V = IntentDataView;

    open spec fn view(&self) -> IntentDataView {
        IntentDataView {
            intent_type: self.intent_type@,
            content: self.content@,
            requirements: self.requirements,
            proof: self.proof@,
        }
    }
}

impl View for Block {
    type V = BlockView;

    open spec fn view(&self) -> BlockView {
        BlockView {
            header: self.header,
            transactions: Seq::new(self.transactions@.len(), |i: int| self.transactions@[i]@),
            intent_data: match self.intent_data {
                Some(intent) => Some(intent@),
                None => None,
            },
        }
    }
}

/// The identity of a block: the digest of its canonical encoding.
pub open spec fn block_digest(b: BlockView) -> Seq<u8> {
    blake3_digest(block_encoding(b))
}

/// The first rule: the timestamp lies at most the tolerated drift ahead of `now`.
/// There is no lower bound.
pub open spec fn timestamp_acceptable(timestamp: u64, now: u64) -> bool {
    timestamp <= now + MAX_FUTURE_DRIFT
}

/// The structural rule on a transaction: a non-zero amount and non-zero
/// sender and receiver. Sender and receiver may be the same.
pub open spec fn transaction_well_formed(t: TransactionView) -> bool {
    t.amount != 0 && t.sender@ != zeros(32) && t.receiver@ != zeros(32)
}

/// The structural rule on an intent: every requirement is non-zero.
pub open spec fn intent_well_formed(i: IntentDataView) -> bool {
    i.requirements.compute_units != 0 && i.requirements.memory_mb != 0
        && i.requirements.max_time_ms != 0
}

/// The rules on what a block carries, the timestamp aside.
pub open spec fn contents_well_formed(b: BlockView) -> bool {
    &&& forall|i: int| 0 <= i < b.transactions.len() ==> transaction_well_formed(#[trigger] b.transactions[i])
    &&& b.intent_data matches Some(intent) ==> intent_well_formed(intent)
}

/// A block is valid at time `now` when it meets all three structural rules.
pub open spec fn block_valid(b: BlockView, now: u64) -> bool {
    timestamp_acceptable(b.header.timestamp, now) && contents_well_formed(b)
}

/// The capability to check what the structural rules cannot: a transaction's
/// signature and an intent's proof.
///
/// An implementation decides each question from the values alone, so that a
/// verdict on a block is a function of the block, the time and the verifier.
pub trait Verifier {
    spec fn accepts_signature(&self, tx: TransactionView) -> bool;

    spec fn accepts_proof(&self, intent: IntentDataView) -> bool;

    fn verify_signature(&self, tx: &Transaction) -> (ok: bool)
        ensures
            ok == self.accepts_signature(tx@),
    ;

    fn verify_proof(&self, intent: &IntentData) -> (ok: bool)
        ensures
            ok == self.accepts_proof(intent@),
    ;
}

/// The verifier that accepts every signature and every proof.
#[derive(Debug, Clone, Copy)]
pub struct NoVerification;

impl Verifier for NoVerification {
    open spec fn accepts_signature(&self, tx: TransactionView) -> bool {
        true
    }

    open spec fn accepts_proof(&self, intent: IntentDataView) -> bool {
        true
    }

    fn verify_signature(&self, tx: &Transaction) -> (ok: bool) {
        true
    }

    fn verify_proof(&self, intent: &IntentData) -> (ok: bool) {
        true
    }
}

/// A transaction passes when it is well formed and its signature is accepted.
pub open spec fn transaction_acceptable<V: Verifier>(v: V, t: TransactionView) -> bool {
    transaction_well_formed(t) && v.accepts_signature(t)
}

/// An intent passes when it is well formed and its proof is accepted.
pub open spec fn intent_acceptable<V: Verifier>(v: V, i: IntentDataView) -> bool {
    intent_well_formed(i) && v.accepts_proof(i)
}

/// Every transaction of `txs` before position `n` passes.
pub open spec fn transactions_acceptable<V: Verifier>(
    v: V,
    txs: Seq<TransactionView>,
    n: int,
) -> bool {
    forall|i: int| 0 <= i < n ==> transaction_acceptable(v, #[trigger] txs[i])
}

/// Whether `result` is the verdict on `b` at time `now` under verifier `v`.
///
/// The rules are tried in order and the first one broken is reported: the
/// timestamp, then the transactions from the first to the last, then the
/// intent. Exactly one result is the verdict.
pub open spec fn is_verdict<V: Verifier>(
    b: BlockView,
    now: u64,
    v: V,
    result: Result<(), Error>,
) -> bool {
    let in_time = timestamp_acceptable(b.header.timestamp, now);
    let count = b.transactions.len() as int;
    match result {
        Ok(()) => {
            &&& in_time
            &&& transactions_acceptable(v, b.transactions, count)
            &&& b.intent_data matches Some(intent) ==> intent_acceptable(v, intent)
        },
        Err(Error::ValidationFailed(ValidationFailure::TimestampTooFarAhead)) => !in_time,
        Err(Error::ValidationFailed(ValidationFailure::BadTransaction(index))) => {
            &&& in_time
            &&& index < count
            &&& transactions_acceptable(v, b.transactions, index as int)
            &&& !transaction_acceptable(v, b.transactions[index as int])
        },
        Err(Error::ValidationFailed(ValidationFailure::BadIntent)) => {
            &&& in_time
            &&& transactions_acceptable(v, b.transactions, count)
            &&& b.intent_data matches Some(intent) && !intent_acceptable(v, intent)
        },
        Err(_) => false,
    }
}

impl Block {
    /// Builds a block whose target and nonce are still zero and that carries no intent.
    pub fn new(
        previous_hash: [u8; 32],
        merkle_root: [u8; 32],
        timestamp: u64,
        transactions: Vec<Transaction>,
    ) -> (block: Self)
        ensures
            block.header.version == BLOCK_VERSION,
            block.header.previous_hash == previous_hash,
            block.header.merkle_root == merkle_root,
            block.header.timestamp == timestamp,
            block.header.target@ == Seq::new(32, |i: int| 0u8),
            block.header.nonce == 0,
            block.transactions == transactions,
            block.intent_data is None,
    {
        Block {
            header: BlockHeader {
                version: BLOCK_VERSION,
                previous_hash,
                merkle_root,
                timestamp,
                target: [0u8; 32],
                nonce: 0,
            },
            transactions,
            intent_data: None,
        }
    }

    /// Attaches an intent, replacing any intent the block carried before.
    pub fn with_intent(self, intent_data: IntentData) -> (block: Self)
        ensures
            block.header == self.header,
            block.transactions == self.transactions,
            block.intent_data == Some(intent_data),
    {
        let mut block = self;
        block.intent_data = Some(intent_data);
        block
    }

    /// The block's identity: the BLAKE3 digest of the six header fields, then
    /// of each transaction's encoding in list order, then of the intent's
    /// encoding if the block has one.
    pub fn calculate_hash(&self) -> (hash: [u8; 32])
        ensures
            hash@ == block_digest(self@),
    {
        let bytes = encode_block(self);
        digest_of(&bytes)
    }

    /// Whether a transaction meets the structural rule.
    pub fn validate_transaction(&self, tx: &Transaction) -> (ok: bool)
        ensures
            ok == transaction_well_formed(tx@),
    {
        tx.amount != 0 && !is_zero(tx.sender.as_slice()) && !is_zero(tx.receiver.as_slice())
    }

    /// Whether an intent meets the structural rule.
    pub fn validate_intent(&self, intent: &IntentData) -> (ok: bool)
        ensures
            ok == intent_well_formed(intent@),
    {
        intent.requirements.compute_units != 0 && intent.requirements.memory_mb != 0
            && intent.requirements.max_time_ms != 0
    }

    /// Checks the block at time `now`, asking `verifier` about every
    /// signature and about the intent's proof, and reports the first rule
    /// broken. The block is not changed.
    pub fn check<V: Verifier>(&self, now: u64, verifier: &V) -> (result: Result<(), Error>)
        ensures
            is_verdict(self@, now, *verifier, result),
    {
        if self.header.timestamp > now && self.header.timestamp - now > MAX_FUTURE_DRIFT {
            return Err(Error::ValidationFailed(ValidationFailure::TimestampTooFarAhead));
        }
        let mut i: usize = 0;
        while i < self.transactions.len()
            invariant
                i <= self.transactions.len(),
                self@.transactions.len() == self.transactions.len(),
                timestamp_acceptable(self.header.timestamp, now),
                transactions_acceptable(*verifier, self@.transactions, i as int),
            decreases self.transactions.len() - i,
        {
            let tx = &self.transactions[i];
            assert(self@.transactions[i as int] == tx@);
            if !self.validate_transaction(tx) || !verifier.verify_signature(tx) {
                return Err(Error::ValidationFailed(ValidationFailure::BadTransaction(i)));
            }
            i += 1;
        }
        match &self.intent_data {
            Some(intent) => {
                if !self.validate_intent(intent) || !verifier.verify_proof(intent) {
                    return Err(Error::ValidationFailed(ValidationFailure::BadIntent));
                }
            },
            None => {},
        }
        Ok(())
    }

    /// Whether the block meets the structural rules at time `now`. Signatures
    /// and proofs are not looked at.
    pub fn validate(&self, now: u64) -> (valid: bool)
        ensures
            valid == block_valid(self@, now),
    {
        let verifier = NoVerification;
        let result = self.check(now, &verifier);
        proof {
            lemma_no_verification(self@, now);
        }
        result.is_ok()
    }
}

/// Under the verifier that accepts everything, a block passes exactly when it
/// is structurally valid.
pub proof fn lemma_no_verification(b: BlockView, now: u64)
    ensures
        is_verdict(b, now, NoVerification, Ok(())) <==> block_valid(b, now),
{
}

/// A verdict exists and is unique: of two verdicts on one block, time and
/// verifier, neither differs from the other.
pub proof fn lemma_verdict_unique<V: Verifier>(
    b: BlockView,
    now: u64,
    v: V,
    r1: Result<(), Error>,
    r2: Result<(), Error>,
)
    requires
        is_verdict(b, now, v, r1),
        is_verdict(b, now, v, r2),
    ensures
        r1 == r2,
{
    match (r1, r2) {
        (
            Err(Error::ValidationFailed(ValidationFailure::BadTransaction(i))),
            Err(Error::ValidationFailed(ValidationFailure::BadTransaction(j))),
        ) => {
            if i < j {
                assert(transaction_acceptable(v, b.transactions[i as int]));
            }
            if j < i {
                assert(transaction_acceptable(v, b.transactions[j as int]));
            }
        },
        (Err(Error::ValidationFailed(ValidationFailure::BadTransaction(i))), _) => {
            assert(!transaction_acceptable(v, b.transactions[i as int]));
        },
        (_, Err(Error::ValidationFailed(ValidationFailure::BadTransaction(j)))) => {
            assert(!transaction_acceptable(v, b.transactions[j as int]));
        },
        (Ok(u1), Ok(u2)) => {
            assert(u1 == ());
            assert(u2 == ());
        },
        _ => {},
    }
}

/// No verifier can make a block pass that is not structurally valid.
pub proof fn lemma_verifier_only_restricts<V: Verifier>(b: BlockView, now: u64, v: V)
    requires
        is_verdict(b, now, v, Ok(())),
    ensures
        block_valid(b, now),
{
    assert forall|i: int| 0 <= i < b.transactions.len() implies transaction_well_formed(
        #[trigger] b.transactions[i],
    ) by {
        assert(transaction_acceptable(v, b.transactions[i]));
    }
}

/// The timestamp bound is inclusive: a block stamped exactly the tolerated
/// drift ahead of the clock is valid if its contents are, and a block stamped
/// one second later is not valid whatever it holds.
pub proof fn lemma_timestamp_boundary(b: BlockView, now: u64)
    ensures
        b.header.timestamp == now + MAX_FUTURE_DRIFT ==> (block_valid(b, now)
            <==> contents_well_formed(b)),
        b.header.timestamp == now + MAX_FUTURE_DRIFT + 1 ==> !block_valid(b, now),
{
}

/// A transaction of amount zero is never well formed, whatever else it holds.
pub proof fn lemma_zero_amount_rejected(t: TransactionView)
    requires
        t.amount == 0,
    ensures
        !transaction_well_formed(t),
        forall|b: BlockView, now: u64, i: int|
            0 <= i < b.transactions.len() && b.transactions[i] == t ==> !block_valid(b, now),
{
}

/// Nothing forbids a transfer to oneself: with a non-zero amount and a
/// non-zero address, a transaction whose sender is its receiver is well formed.
pub proof fn lemma_self_transfer_accepted(t: TransactionView)
    requires
        t.amount != 0,
        t.sender == t.receiver,
        t.sender@ != zeros(32),
    ensures
        transaction_well_formed(t),
{
}

/// The digest is a function of what the block holds: two blocks with the
/// same header, transactions and intent have the same identity.
pub proof fn lemma_hash_deterministic(a: Block, b: Block)
    requires
        a@ == b@,
    ensures
        block_digest(a@) == block_digest(b@),
{
}

} // verus!
