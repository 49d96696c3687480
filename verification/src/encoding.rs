//! The canonical byte encoding of blocks, transactions and intents.
//!
//! A block is written as its header, then its transactions in order, then its
//! intent if it has one. Fields are written in declaration order. Integers are
//! fixed width and big endian; every field of variable length is preceded by
//! its length in bytes as a 64-bit integer; a transaction and an intent each
//! start with a byte that says which of the two it is. Nothing else separates
//! the parts, and nothing else is needed: [`lemma_block_encoding_injective`]
//! shows that two blocks with the same encoding hold the same values.

use vstd::prelude::*;
use vstd::utf8::{encode_utf8, encode_utf8_decode_utf8};
use crate::block::{
    Block, BlockHeader, BlockView, IntentData, IntentDataView, IntentType, IntentTypeView,
    ProcessingRequirements, Transaction, TransactionView,
};
use crate::bytes::{
    be_bytes, lemma_be_bytes_len, lemma_be_bytes_value, lemma_pow256_4, lemma_pow256_8, pow256,
    push_all, push_be,
};

verus! {

/// A byte string preceded by its length.
pub open spec fn length_prefixed(s: Seq<u8>) -> Seq<u8> {
    be_bytes(s.len(), 8) + s
}

/// The header's six fields, 116 bytes in all.
pub open spec fn header_encoding(h: BlockHeader) -> Seq<u8> {
    be_bytes(h.version as nat, 4) + h.previous_hash@ + h.merkle_root@ + be_bytes(
        h.timestamp as nat,
        8,
    ) + h.target@ + be_bytes(h.nonce as nat, 8)
}

/// The four header fields that the proof-of-work hash covers: parent, merkle
/// root, timestamp and nonce. Version and target are not among them.
pub open spec fn pow_encoding(h: BlockHeader) -> Seq<u8> {
    h.previous_hash@ + h.merkle_root@ + be_bytes(h.timestamp as nat, 8) + be_bytes(
        h.nonce as nat,
        8,
    )
}

/// The byte with which the encoding of a transaction starts.
pub const TRANSACTION_KIND: u8 = 1;

/// The byte with which the encoding of an intent starts.
pub const INTENT_KIND: u8 = 2;

/// The fields of a transaction, after the kind byte.
pub open spec fn transaction_fields(t: TransactionView) -> Seq<u8> {
    t.id@ + t.sender@ + t.receiver@ + be_bytes(t.amount as nat, 8) + be_bytes(t.fee as nat, 8)
        + length_prefixed(t.data) + t.signature@
}

pub open spec fn transaction_encoding(t: TransactionView) -> Seq<u8> {
    seq![TRANSACTION_KIND] + transaction_fields(t)
}

/// The position of an intent type among the variants.
pub open spec fn intent_type_tag(k: IntentTypeView) -> nat {
    match k {
        IntentTypeView::Prediction => 0,
        IntentTypeView::Classification => 1,
        IntentTypeView::Generation => 2,
        IntentTypeView::Optimization => 3,
        IntentTypeView::Custom(_) => 4,
    }
}

/// The tag of the variant, followed for a custom type by its name in UTF-8.
pub open spec fn intent_type_encoding(k: IntentTypeView) -> Seq<u8> {
    match k {
        IntentTypeView::Custom(name) => be_bytes(4, 4) + length_prefixed(encode_utf8(name)),
        _ => be_bytes(intent_type_tag(k), 4),
    }
}

pub open spec fn requirements_encoding(r: ProcessingRequirements) -> Seq<u8> {
    be_bytes(r.compute_units as nat, 8) + be_bytes(r.memory_mb as nat, 8) + be_bytes(
        r.max_time_ms as nat,
        8,
    )
}

/// The fields of an intent, after the kind byte.
pub open spec fn intent_fields(i: IntentDataView) -> Seq<u8> {
    intent_type_encoding(i.intent_type) + length_prefixed(encode_utf8(i.content))
        + requirements_encoding(i.requirements) + length_prefixed(i.proof)
}

pub open spec fn intent_encoding(i: IntentDataView) -> Seq<u8> {
    seq![INTENT_KIND] + intent_fields(i)
}

/// The encodings of the transactions, one after the other in list order.
pub open spec fn transactions_encoding(txs: Seq<TransactionView>) -> Seq<u8>
    decreases txs.len(),
{
    if txs.len() == 0 {
        Seq::empty()
    } else {
        transactions_encoding(txs.drop_last()) + transaction_encoding(txs.last())
    }
}

/// The intent's encoding if there is an intent, and nothing otherwise.
pub open spec fn optional_intent_encoding(i: Option<IntentDataView>) -> Seq<u8> {
    match i {
        None => Seq::empty(),
        Some(intent) => intent_encoding(intent),
    }
}

/// The bytes that identify a block: the header, each transaction in list
/// order, and the intent if there is one.
pub open spec fn block_encoding(b: BlockView) -> Seq<u8> {
    header_encoding(b.header) + transactions_encoding(b.transactions)
        + optional_intent_encoding(b.intent_data)
}

/// Appends a length-prefixed byte string.
pub fn encode_length_prefixed(out: &mut Vec<u8>, s: &[u8])
    ensures
        final(out)@ == old(out)@ + length_prefixed(s@),
        s@.len() < pow256(8),
{
    let ghost start = out@;
    proof {
        lemma_pow256_8();
    }
    push_be(out, s.len() as u64, 8);
    push_all(out, s);
    assert(out@ =~= start + length_prefixed(s@));
}

/// Appends the encoding of a header.
pub fn encode_header(out: &mut Vec<u8>, h: &BlockHeader)
    ensures
        final(out)@ == old(out)@ + header_encoding(*h),
{
    let ghost start = out@;
    push_be(out, h.version as u64, 4);
    push_all(out, h.previous_hash.as_slice());
    push_all(out, h.merkle_root.as_slice());
    push_be(out, h.timestamp, 8);
    push_all(out, h.target.as_slice());
    push_be(out, h.nonce, 8);
    assert(out@ =~= start + header_encoding(*h));
}

/// The proof-of-work encoding of a header, with `nonce` in the nonce's place.
pub fn encode_pow(h: &BlockHeader, nonce: u64) -> (out: Vec<u8>)
    ensures
        out@ == pow_encoding(BlockHeader { nonce, ..*h }),
{
    let mut out: Vec<u8> = Vec::new();
    push_all(&mut out, h.previous_hash.as_slice());
    push_all(&mut out, h.merkle_root.as_slice());
    push_be(&mut out, h.timestamp, 8);
    push_be(&mut out, nonce, 8);
    assert(out@ =~= pow_encoding(BlockHeader { nonce, ..*h }));
    out
}

/// Appends the encoding of a transaction.
pub fn encode_transaction(out: &mut Vec<u8>, tx: &Transaction)
    ensures
        final(out)@ == old(out)@ + transaction_encoding(tx@),
        transaction_encodable(tx@),
{
    let ghost start = out@;
    out.push(TRANSACTION_KIND);
    push_all(out, tx.id.as_slice());
    push_all(out, tx.sender.as_slice());
    push_all(out, tx.receiver.as_slice());
    push_be(out, tx.amount, 8);
    push_be(out, tx.fee, 8);
    encode_length_prefixed(out, tx.data.as_slice());
    push_all(out, tx.signature.as_slice());
    assert(out@ =~= start + transaction_encoding(tx@));
}

/// Appends the encoding of an intent type.
pub fn encode_intent_type(out: &mut Vec<u8>, kind: &IntentType)
    ensures
        final(out)@ == old(out)@ + intent_type_encoding(kind@),
        kind@ matches IntentTypeView::Custom(name) ==> encode_utf8(name).len() < pow256(8),
{
    let ghost start = out@;
    match kind {
        IntentType::Prediction => {
            push_be(out, 0, 4);
        },
        IntentType::Classification => {
            push_be(out, 1, 4);
        },
        IntentType::Generation => {
            push_be(out, 2, 4);
        },
        IntentType::Optimization => {
            push_be(out, 3, 4);
        },
        IntentType::Custom(name) => {
            push_be(out, 4, 4);
            encode_length_prefixed(out, name.as_str().as_bytes());
        },
    }
    assert(out@ =~= start + intent_type_encoding(kind@));
}

/// Appends the encoding of an intent.
pub fn encode_intent(out: &mut Vec<u8>, intent: &IntentData)
    ensures
        final(out)@ == old(out)@ + intent_encoding(intent@),
        intent_encodable(intent@),
{
    let ghost start = out@;
    out.push(INTENT_KIND);
    encode_intent_type(out, &intent.intent_type);
    encode_length_prefixed(out, intent.content.as_str().as_bytes());
    push_be(out, intent.requirements.compute_units, 8);
    push_be(out, intent.requirements.memory_mb, 8);
    push_be(out, intent.requirements.max_time_ms, 8);
    encode_length_prefixed(out, intent.proof.as_slice());
    assert(out@ =~= start + intent_encoding(intent@));
}

/// The canonical encoding of a block.
pub fn encode_block(block: &Block) -> (out: Vec<u8>)
    ensures
        out@ == block_encoding(block@),
        encodable(block@),
{
    let mut out: Vec<u8> = Vec::new();
    encode_header(&mut out, &block.header);
    let ghost head = out@;
    let ghost txs = block@.transactions;
    let mut i: usize = 0;
    assert(txs.take(0) =~= Seq::<TransactionView>::empty());
    while i < block.transactions.len()
        invariant
            i <= block.transactions.len(),
            txs == block@.transactions,
            txs.len() == block.transactions.len(),
            out@ == head + transactions_encoding(txs.take(i as int)),
            forall|j: int| 0 <= j < i ==> transaction_encodable(#[trigger] txs[j]),
        decreases block.transactions.len() - i,
    {
        encode_transaction(&mut out, &block.transactions[i]);
        proof {
            let next = txs.take(i + 1);
            assert(next.drop_last() =~= txs.take(i as int));
            assert(next.last() == block.transactions@[i as int]@);
        }
        i += 1;
    }
    assert(txs.take(i as int) =~= txs);
    match &block.intent_data {
        None => {},
        Some(intent) => {
            encode_intent(&mut out, intent);
        },
    }
    assert(out@ =~= block_encoding(block@));
    out
}

/// A transaction can be encoded when its payload length fits the 64-bit prefix.
pub open spec fn transaction_encodable(t: TransactionView) -> bool {
    t.data.len() < pow256(8)
}

/// An intent can be encoded when the lengths of its strings and of its proof
/// fit their 64-bit prefixes.
pub open spec fn intent_encodable(i: IntentDataView) -> bool {
    &&& encode_utf8(i.content).len() < pow256(8)
    &&& i.proof.len() < pow256(8)
    &&& i.intent_type matches IntentTypeView::Custom(name) ==> encode_utf8(name).len() < pow256(8)
}

/// A block can be encoded when every length in it fits its prefix. Every
/// block that fits in memory can.
pub open spec fn encodable(b: BlockView) -> bool {
    &&& forall|i: int|
        0 <= i < b.transactions.len() ==> transaction_encodable(#[trigger] b.transactions[i])
    &&& b.intent_data matches Some(intent) ==> intent_encodable(intent)
}

/// Two strings that start with parts of one length and are equal as wholes
/// have equal parts and equal rests.
pub proof fn lemma_split(a1: Seq<u8>, r1: Seq<u8>, a2: Seq<u8>, r2: Seq<u8>)
    requires
        a1.len() == a2.len(),
        a1 + r1 == a2 + r2,
    ensures
        a1 == a2,
        r1 == r2,
{
    assert(a1 =~= (a1 + r1).take(a1.len() as int));
    assert(a2 =~= (a2 + r2).take(a2.len() as int));
    assert(r1 =~= (a1 + r1).skip(a1.len() as int));
    assert(r2 =~= (a2 + r2).skip(a2.len() as int));
}

/// A fixed-width number at the head of a string is read back unambiguously.
pub proof fn lemma_split_number(x: nat, y: nat, width: nat, r1: Seq<u8>, r2: Seq<u8>)
    requires
        x < pow256(width),
        y < pow256(width),
        be_bytes(x, width) + r1 == be_bytes(y, width) + r2,
    ensures
        x == y,
        r1 == r2,
{
    lemma_be_bytes_len(x, width);
    lemma_be_bytes_len(y, width);
    lemma_split(be_bytes(x, width), r1, be_bytes(y, width), r2);
    lemma_be_bytes_value(x, width);
    lemma_be_bytes_value(y, width);
}

/// A length-prefixed string at the head of a string is read back unambiguously.
pub proof fn lemma_split_prefixed(s: Seq<u8>, t: Seq<u8>, r1: Seq<u8>, r2: Seq<u8>)
    requires
        s.len() < pow256(8),
        t.len() < pow256(8),
        length_prefixed(s) + r1 == length_prefixed(t) + r2,
    ensures
        s == t,
        r1 == r2,
{
    assert(length_prefixed(s) + r1 =~= be_bytes(s.len(), 8) + (s + r1));
    assert(length_prefixed(t) + r2 =~= be_bytes(t.len(), 8) + (t + r2));
    lemma_split_number(s.len(), t.len(), 8, s + r1, t + r2);
    lemma_split(s, r1, t, r2);
}

/// A header at the head of a string is read back unambiguously.
pub proof fn lemma_header_prefix(a: BlockHeader, b: BlockHeader, r1: Seq<u8>, r2: Seq<u8>)
    requires
        header_encoding(a) + r1 == header_encoding(b) + r2,
    ensures
        a == b,
        r1 == r2,
{
    lemma_pow256_4();
    lemma_pow256_8();
    let a5 = be_bytes(a.nonce as nat, 8) + r1;
    let a4 = a.target@ + a5;
    let a3 = be_bytes(a.timestamp as nat, 8) + a4;
    let a2 = a.merkle_root@ + a3;
    let a1 = a.previous_hash@ + a2;
    let b5 = be_bytes(b.nonce as nat, 8) + r2;
    let b4 = b.target@ + b5;
    let b3 = be_bytes(b.timestamp as nat, 8) + b4;
    let b2 = b.merkle_root@ + b3;
    let b1 = b.previous_hash@ + b2;
    assert(header_encoding(a) + r1 =~= be_bytes(a.version as nat, 4) + a1);
    assert(header_encoding(b) + r2 =~= be_bytes(b.version as nat, 4) + b1);
    lemma_split_number(a.version as nat, b.version as nat, 4, a1, b1);
    lemma_split(a.previous_hash@, a2, b.previous_hash@, b2);
    lemma_split(a.merkle_root@, a3, b.merkle_root@, b3);
    lemma_split_number(a.timestamp as nat, b.timestamp as nat, 8, a4, b4);
    lemma_split(a.target@, a5, b.target@, b5);
    lemma_split_number(a.nonce as nat, b.nonce as nat, 8, r1, r2);
    assert(a.previous_hash =~= b.previous_hash);
    assert(a.merkle_root =~= b.merkle_root);
    assert(a.target =~= b.target);
}

/// A transaction at the head of a string is read back unambiguously.
pub proof fn lemma_transaction_prefix(
    a: TransactionView,
    b: TransactionView,
    r1: Seq<u8>,
    r2: Seq<u8>,
)
    requires
        transaction_encodable(a),
        transaction_encodable(b),
        transaction_encoding(a) + r1 == transaction_encoding(b) + r2,
    ensures
        a == b,
        r1 == r2,
{
    lemma_pow256_8();
    let a6 = a.signature@ + r1;
    let a5 = length_prefixed(a.data) + a6;
    let a4 = be_bytes(a.fee as nat, 8) + a5;
    let a3 = be_bytes(a.amount as nat, 8) + a4;
    let a2 = a.receiver@ + a3;
    let a1 = a.sender@ + a2;
    let b6 = b.signature@ + r2;
    let b5 = length_prefixed(b.data) + b6;
    let b4 = be_bytes(b.fee as nat, 8) + b5;
    let b3 = be_bytes(b.amount as nat, 8) + b4;
    let b2 = b.receiver@ + b3;
    let b1 = b.sender@ + b2;
    let kind = seq![TRANSACTION_KIND];
    assert(transaction_encoding(a) + r1 =~= kind + (a.id@ + a1));
    assert(transaction_encoding(b) + r2 =~= kind + (b.id@ + b1));
    lemma_split(kind, a.id@ + a1, kind, b.id@ + b1);
    lemma_split(a.id@, a1, b.id@, b1);
    lemma_split(a.sender@, a2, b.sender@, b2);
    lemma_split(a.receiver@, a3, b.receiver@, b3);
    lemma_split_number(a.amount as nat, b.amount as nat, 8, a4, b4);
    lemma_split_number(a.fee as nat, b.fee as nat, 8, a5, b5);
    lemma_split_prefixed(a.data, b.data, a6, b6);
    lemma_split(a.signature@, r1, b.signature@, r2);
    assert(a.id =~= b.id);
    assert(a.sender =~= b.sender);
    assert(a.receiver =~= b.receiver);
    assert(a.signature =~= b.signature);
}

/// An intent type at the head of a string is read back unambiguously.
pub proof fn lemma_intent_type_prefix(
    a: IntentTypeView,
    b: IntentTypeView,
    r1: Seq<u8>,
    r2: Seq<u8>,
)
    requires
        a matches IntentTypeView::Custom(name) ==> encode_utf8(name).len() < pow256(8),
        b matches IntentTypeView::Custom(name) ==> encode_utf8(name).len() < pow256(8),
        intent_type_encoding(a) + r1 == intent_type_encoding(b) + r2,
    ensures
        a == b,
        r1 == r2,
{
    lemma_pow256_4();
    let ra = match a {
        IntentTypeView::Custom(name) => length_prefixed(encode_utf8(name)) + r1,
        _ => r1,
    };
    let rb = match b {
        IntentTypeView::Custom(name) => length_prefixed(encode_utf8(name)) + r2,
        _ => r2,
    };
    assert(intent_type_encoding(a) + r1 =~= be_bytes(intent_type_tag(a), 4) + ra);
    assert(intent_type_encoding(b) + r2 =~= be_bytes(intent_type_tag(b), 4) + rb);
    lemma_split_number(intent_type_tag(a), intent_type_tag(b), 4, ra, rb);
    match (a, b) {
        (IntentTypeView::Custom(n), IntentTypeView::Custom(m)) => {
            lemma_split_prefixed(encode_utf8(n), encode_utf8(m), r1, r2);
            encode_utf8_decode_utf8(n);
            encode_utf8_decode_utf8(m);
        },
        _ => {},
    }
}

/// An intent at the head of a string is read back unambiguously.
pub proof fn lemma_intent_prefix(a: IntentDataView, b: IntentDataView, r1: Seq<u8>, r2: Seq<u8>)
    requires
        intent_encodable(a),
        intent_encodable(b),
        intent_encoding(a) + r1 == intent_encoding(b) + r2,
    ensures
        a == b,
        r1 == r2,
{
    lemma_pow256_8();
    let a5 = length_prefixed(a.proof) + r1;
    let a4 = be_bytes(a.requirements.max_time_ms as nat, 8) + a5;
    let a3 = be_bytes(a.requirements.memory_mb as nat, 8) + a4;
    let a2 = be_bytes(a.requirements.compute_units as nat, 8) + a3;
    let a1 = length_prefixed(encode_utf8(a.content)) + a2;
    let b5 = length_prefixed(b.proof) + r2;
    let b4 = be_bytes(b.requirements.max_time_ms as nat, 8) + b5;
    let b3 = be_bytes(b.requirements.memory_mb as nat, 8) + b4;
    let b2 = be_bytes(b.requirements.compute_units as nat, 8) + b3;
    let b1 = length_prefixed(encode_utf8(b.content)) + b2;
    let kind = seq![INTENT_KIND];
    let a0 = intent_type_encoding(a.intent_type) + a1;
    let b0 = intent_type_encoding(b.intent_type) + b1;
    assert(intent_encoding(a) + r1 =~= kind + a0);
    assert(intent_encoding(b) + r2 =~= kind + b0);
    lemma_split(kind, a0, kind, b0);
    lemma_intent_type_prefix(a.intent_type, b.intent_type, a1, b1);
    lemma_split_prefixed(encode_utf8(a.content), encode_utf8(b.content), a2, b2);
    encode_utf8_decode_utf8(a.content);
    encode_utf8_decode_utf8(b.content);
    lemma_split_number(
        a.requirements.compute_units as nat,
        b.requirements.compute_units as nat,
        8,
        a3,
        b3,
    );
    lemma_split_number(a.requirements.memory_mb as nat, b.requirements.memory_mb as nat, 8, a4, b4);
    lemma_split_number(
        a.requirements.max_time_ms as nat,
        b.requirements.max_time_ms as nat,
        8,
        a5,
        b5,
    );
    lemma_split_prefixed(a.proof, b.proof, r1, r2);
}

/// The encoding of a non-empty list is that of its first transaction
/// followed by that of the others.
pub proof fn lemma_transactions_front(txs: Seq<TransactionView>)
    requires
        txs.len() > 0,
    ensures
        transactions_encoding(txs) == transaction_encoding(txs[0]) + transactions_encoding(
            txs.skip(1),
        ),
    decreases txs.len(),
{
    let init = txs.drop_last();
    let rest = txs.skip(1);
    if txs.len() == 1 {
        assert(init =~= Seq::<TransactionView>::empty());
        assert(rest =~= Seq::<TransactionView>::empty());
        assert(transactions_encoding(txs) =~= transaction_encoding(txs[0])
            + transactions_encoding(rest));
    } else {
        lemma_transactions_front(init);
        assert(init.skip(1) =~= rest.drop_last());
        assert(rest.last() == txs.last());
        assert(transactions_encoding(txs) =~= transaction_encoding(txs[0])
            + transactions_encoding(rest));
    }
}

/// The transactions and the intent of a block are read back unambiguously
/// from what follows the header: a transaction starts with one byte and an
/// intent with another, so where the transactions end is never in doubt.
pub proof fn lemma_contents_injective(
    a: Seq<TransactionView>,
    x: Option<IntentDataView>,
    b: Seq<TransactionView>,
    y: Option<IntentDataView>,
)
    requires
        forall|i: int| 0 <= i < a.len() ==> transaction_encodable(#[trigger] a[i]),
        forall|i: int| 0 <= i < b.len() ==> transaction_encodable(#[trigger] b[i]),
        x matches Some(intent) ==> intent_encodable(intent),
        y matches Some(intent) ==> intent_encodable(intent),
        transactions_encoding(a) + optional_intent_encoding(x) == transactions_encoding(b)
            + optional_intent_encoding(y),
    ensures
        a == b,
        x == y,
    decreases a.len() + b.len(),
{
    let ea = transactions_encoding(a) + optional_intent_encoding(x);
    let eb = transactions_encoding(b) + optional_intent_encoding(y);
    let ta = a.skip(1);
    let tb = b.skip(1);
    let ra = transactions_encoding(ta) + optional_intent_encoding(x);
    let rb = transactions_encoding(tb) + optional_intent_encoding(y);
    // What the whole starts with tells what comes first.
    if a.len() > 0 {
        lemma_transactions_front(a);
        assert(ea =~= transaction_encoding(a[0]) + ra);
        assert(ea[0] == TRANSACTION_KIND);
    } else {
        assert(ea =~= optional_intent_encoding(x));
        assert(x is Some ==> ea[0] == INTENT_KIND);
    }
    if b.len() > 0 {
        lemma_transactions_front(b);
        assert(eb =~= transaction_encoding(b[0]) + rb);
        assert(eb[0] == TRANSACTION_KIND);
    } else {
        assert(eb =~= optional_intent_encoding(y));
        assert(y is Some ==> eb[0] == INTENT_KIND);
    }
    if a.len() > 0 && b.len() > 0 {
        lemma_transaction_prefix(a[0], b[0], ra, rb);
        assert forall|i: int| 0 <= i < ta.len() implies transaction_encodable(#[trigger] ta[i]) by {
            assert(ta[i] == a[i + 1]);
        }
        assert forall|i: int| 0 <= i < tb.len() implies transaction_encodable(#[trigger] tb[i]) by {
            assert(tb[i] == b[i + 1]);
        }
        lemma_contents_injective(ta, x, tb, y);
        assert(a =~= seq![a[0]] + ta);
        assert(b =~= seq![b[0]] + tb);
    } else if a.len() == 0 && b.len() == 0 {
        assert(a =~= b);
        match (x, y) {
            (Some(i), Some(j)) => {
                let e = Seq::<u8>::empty();
                assert(intent_encoding(i) + e =~= intent_encoding(i));
                assert(intent_encoding(j) + e =~= intent_encoding(j));
                lemma_intent_prefix(i, j, e, e);
            },
            (Some(i), None) => {
                assert(ea.len() > 0);
            },
            (None, Some(j)) => {
                assert(eb.len() > 0);
            },
            (None, None) => {},
        }
    } else {
        // One side starts with a transaction, the other with an intent or
        // with nothing at all.
        assert(ea.len() == eb.len());
    }
}

/// The encoding is unambiguous: two blocks with the same encoding hold the
/// same header, the same transactions in the same order, and the same intent.
/// No choice of field values makes one block's bytes read as another's.
pub proof fn lemma_block_encoding_injective(a: BlockView, b: BlockView)
    requires
        encodable(a),
        encodable(b),
        block_encoding(a) == block_encoding(b),
    ensures
        a == b,
{
    let a1 = transactions_encoding(a.transactions) + optional_intent_encoding(a.intent_data);
    let b1 = transactions_encoding(b.transactions) + optional_intent_encoding(b.intent_data);
    assert(block_encoding(a) =~= header_encoding(a.header) + a1);
    assert(block_encoding(b) =~= header_encoding(b.header) + b1);
    lemma_header_prefix(a.header, b.header, a1, b1);
    lemma_contents_injective(a.transactions, a.intent_data, b.transactions, b.intent_data);
}

} // verus!
