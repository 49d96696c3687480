//! Proof of work: targets, difficulty, retargeting and the nonce search.
//!
//! A target is a 256-bit number, written big endian; a hash meets it when, read
//! the same way, it does not exceed it. Difficulty is the ratio of the largest
//! target to the target, kept with 256 fractional bits so that no two targets
//! share a difficulty and the target can be recovered from it exactly.

use vstd::prelude::*;
use vstd::arithmetic::div_mod::{
    lemma_div_is_ordered, lemma_div_is_ordered_by_denominator, lemma_div_multiples_vanish,
    lemma_fundamental_div_mod, lemma_fundamental_div_mod_converse, lemma_multiply_divide_lt,
};
use crate::block::{Block, BlockHeader};
use crate::bytes::{
    be_value, is_zero, lemma_first_difference, lemma_pow256_positive, lemma_value_bound,
    lemma_value_concat, lemma_value_first_difference, lemma_value_ones, lemma_value_prepend,
    lemma_value_zero_iff, lemma_value_zeros, not_above, ones, pow256, zeros,
};
use crate::encoding::{encode_pow, pow_encoding};
use crate::error::Error;
use crate::hashing::{blake3_digest, digest_of};
use crate::wide::{digits_at, lemma_leading_zero, quotient, quotient_small, times_small, to_vec};

verus! {

/// The largest target, `2^256 - 1`: every hash meets it.
pub open spec fn max_target() -> nat {
    (pow256(32) - 1) as nat
}

/// The largest target times `2^256`: the numerator of every difficulty.
pub open spec fn difficulty_numerator() -> nat {
    max_target() * pow256(32)
}

/// The difficulty of target `t`, scaled by `2^256` and rounded down.
pub open spec fn difficulty_of(t: nat) -> nat {
    difficulty_numerator() / t
}

/// The target whose scaled difficulty is `d`, rounded down.
pub open spec fn target_of(d: nat) -> nat {
    difficulty_numerator() / d
}

/// A proof-of-work target: an inclusive upper bound on acceptable hashes.
#[derive(Debug, Clone, Copy, PartialEq, Eq)]
pub struct Target(pub [u8; 32]);

/// A difficulty, as a 512-bit big-endian number: the first 32 bytes hold the
/// whole part of the ratio, the last 32 its fraction.
#[derive(Debug, Clone, Copy, PartialEq, Eq, PartialOrd, Ord)]
pub struct Difficulty(pub [u8; 64]);

impl Target {
    /// The target as a number.
    pub open spec fn value(self) -> nat {
        be_value(self.0@)
    }

    /// The difficulty of this target, or nothing for the all-zero target,
    /// which has none.
    pub fn to_difficulty(&self) -> (difficulty: Option<Difficulty>)
        ensures
            self.value() == 0 <==> difficulty is None,
            difficulty matches Some(d) ==> d.scaled() == difficulty_of(self.value()),
    {
        if is_zero(self.0.as_slice()) {
            return None;
        }
        let numerator = numerator_digits();
        let divisor = to_vec(self.0.as_slice());
        let q = quotient(&numerator, &divisor);
        let digits: [u8; 64] = digits_at(&q, 0);
        assert(digits@ =~= q@);
        Some(Difficulty(digits))
    }
}

impl Difficulty {
    /// The difficulty times `2^256`, as a number.
    pub open spec fn scaled(self) -> nat {
        be_value(self.0@)
    }

    /// Whether this difficulty is strictly greater than `other`.
    pub fn exceeds(&self, other: &Difficulty) -> (greater: bool)
        ensures
            greater == (self.scaled() > other.scaled()),
    {
        !not_above(self.0.as_slice(), other.0.as_slice())
    }
}

/// The digits of [`difficulty_numerator`]: 32 bytes of 0xff, then 32 of zero.
fn numerator_digits() -> (out: Vec<u8>)
    ensures
        out@.len() == 64,
        be_value(out@) == difficulty_numerator(),
{
    let mut out: Vec<u8> = Vec::new();
    let mut i: usize = 0;
    while i < 32
        invariant
            i <= 32,
            out@ == ones(i as nat),
        decreases 32 - i,
    {
        out.push(0xff);
        assert(out@ =~= ones((i + 1) as nat));
        i += 1;
    }
    let mut j: usize = 0;
    while j < 32
        invariant
            j <= 32,
            out@ == ones(32) + zeros(j as nat),
        decreases 32 - j,
    {
        out.push(0);
        assert(out@ =~= ones(32) + zeros((j + 1) as nat));
        j += 1;
    }
    proof {
        lemma_value_concat(ones(32), zeros(32));
        lemma_value_ones(32);
        lemma_value_zeros(32);
    }
    out
}

/// A target fits in 256 bits.
pub proof fn lemma_target_bound(t: Target)
    ensures
        t.value() <= max_target(),
{
    lemma_value_bound(t.0@);
}

/// A smaller target is strictly more difficult: no two targets share a difficulty.
pub proof fn lemma_difficulty_strictly_decreasing(t1: nat, t2: nat)
    requires
        0 < t1 < t2 <= max_target(),
    ensures
        difficulty_of(t1) > difficulty_of(t2),
{
    let n = difficulty_numerator() as int;
    let m = max_target() as int;
    let s = pow256(32) as int;
    let q2 = n / (t2 as int);
    lemma_pow256_positive(32);
    lemma_fundamental_div_mod(n, t2 as int);
    // The quotient by t2 is at least 2^256, which exceeds t1.
    lemma_div_is_ordered_by_denominator(n, t2 as int, m);
    lemma_div_multiples_vanish(s, m);
    assert(m * s == n);
    assert(q2 >= s);
    // So (q2 + 1) * t1 still fits under the numerator.
    assert((q2 + 1) * t1 <= n) by (nonlinear_arith)
        requires
            t2 * q2 <= n,
            t1 + 1 <= t2,
            q2 >= t1,
            t1 > 0,
            q2 >= 0,
    ;
    let q1 = n / (t1 as int);
    lemma_fundamental_div_mod(n, t1 as int);
    assert(q1 >= q2 + 1) by (nonlinear_arith)
        requires
            (q2 + 1) * t1 <= n,
            n == t1 * q1 + n % (t1 as int),
            0 <= n % (t1 as int) < t1,
            t1 > 0,
    ;
}

/// The target is recovered exactly from its difficulty.
pub proof fn lemma_difficulty_round_trip(t: nat)
    requires
        0 < t <= max_target(),
    ensures
        difficulty_of(t) > 0,
        target_of(difficulty_of(t)) == t,
{
    let n = difficulty_numerator() as int;
    let m = max_target() as int;
    let s = pow256(32) as int;
    let d = n / (t as int);
    lemma_pow256_positive(32);
    lemma_fundamental_div_mod(n, t as int);
    lemma_div_is_ordered_by_denominator(n, t as int, m);
    lemma_div_multiples_vanish(s, m);
    assert(m * s == n);
    assert(d >= s);
    let r = n % (t as int);
    assert(0 <= r < t) by {
        vstd::arithmetic::div_mod::lemma_mod_pos_bound(n, t as int);
    }
    assert(n == t * d + r);
    assert(t * d == d * t) by (nonlinear_arith);
    // The remainder is below t, which is below d: it is the remainder by d too.
    lemma_fundamental_div_mod_converse(n, d, t as int, r);
}

/// The ratio of the observed to the expected interval, as a pair of
/// numerator and denominator, held to between a quarter and four.
pub open spec fn clamped_ratio(actual: u64, expected: u64) -> (u64, u64) {
    if actual > 4 * expected {
        (4u64, 1u64)
    } else if 4 * actual < expected {
        (1u64, 4u64)
    } else {
        (actual, expected)
    }
}

/// The scaled difficulty after a retarget: the current one divided by the
/// clamped ratio, rounded down. Blocks that took half the expected time double
/// the difficulty; blocks that took twice the expected time halve it.
pub open spec fn retargeted_difficulty(t: nat, actual: u64, expected: u64) -> nat {
    let (a, e) = clamped_ratio(actual, expected);
    (difficulty_of(t) * e / (a as int)) as nat
}

/// The target after a retarget: the one that belongs to the retargeted
/// difficulty, but no more than the largest target.
pub open spec fn retarget_value(t: nat, actual: u64, expected: u64) -> nat {
    let raw = target_of(retargeted_difficulty(t, actual, expected));
    if raw > max_target() {
        max_target()
    } else {
        raw
    }
}

/// Whether `result` is what a retarget of `current` gives for the two intervals.
///
/// An expected interval of zero is refused. Otherwise the all-zero target is
/// refused, as it has no difficulty, and so is a retarget that would arrive at
/// it. Everything else succeeds with [`retarget_value`].
pub open spec fn is_retarget(
    current: Target,
    actual: u64,
    expected: u64,
    result: Result<Target, Error>,
) -> bool {
    let next = retarget_value(current.value(), actual, expected);
    match result {
        Ok(t) => expected != 0 && current.value() != 0 && next != 0 && t.value() == next,
        Err(Error::DegenerateInterval) => expected == 0,
        Err(Error::RetargetUnderflow) => expected != 0 && (current.value() == 0 || next == 0),
        Err(_) => false,
    }
}

/// Both parts of a clamped ratio are positive, and neither is more than four
/// times the other.
pub proof fn lemma_clamped_ratio(actual: u64, expected: u64)
    requires
        expected > 0,
    ensures
        clamped_ratio(actual, expected).0 >= 1,
        clamped_ratio(actual, expected).1 >= 1,
        clamped_ratio(actual, expected).0 <= 4 * clamped_ratio(actual, expected).1,
        clamped_ratio(actual, expected).1 <= 4 * clamped_ratio(actual, expected).0,
        actual < expected ==> clamped_ratio(actual, expected).0 < clamped_ratio(
            actual,
            expected,
        ).1,
        actual > expected ==> clamped_ratio(actual, expected).0 > clamped_ratio(
            actual,
            expected,
        ).1,
        actual == expected ==> clamped_ratio(actual, expected) == (actual, expected),
{
}

/// Every difficulty is at least `2^256`, the difficulty of the largest target.
pub proof fn lemma_difficulty_floor(t: nat)
    requires
        0 < t <= max_target(),
    ensures
        difficulty_of(t) >= pow256(32),
{
    let n = difficulty_numerator() as int;
    let m = max_target() as int;
    let s = pow256(32) as int;
    lemma_pow256_positive(32);
    lemma_div_is_ordered_by_denominator(n, t as int, m);
    lemma_div_multiples_vanish(s, m);
    assert(m * s == n);
}

/// A retargeted difficulty is never zero.
pub proof fn lemma_retargeted_difficulty_positive(t: nat, actual: u64, expected: u64)
    requires
        0 < t <= max_target(),
        expected > 0,
    ensures
        retargeted_difficulty(t, actual, expected) > 0,
{
    let (e, a) = clamped_ratio(actual, expected);
    let d = difficulty_of(t) as int;
    lemma_clamped_ratio(actual, expected);
    lemma_difficulty_floor(t);
    crate::bytes::lemma_pow256_8();
    crate::bytes::lemma_pow256_monotonic(8, 32);
    assert(d * a >= d) by (nonlinear_arith)
        requires
            a >= 1,
            d >= 0,
    ;
    lemma_div_is_ordered(e as int, d * a, e as int);
    vstd::arithmetic::div_mod::lemma_div_basics(e as int);
}

/// With the observed interval equal to the expected one, the target stays as it is.
pub proof fn lemma_retarget_equal_intervals(t: nat, interval: u64)
    requires
        0 < t <= max_target(),
        interval > 0,
    ensures
        retarget_value(t, interval, interval) == t,
{
    let d = difficulty_of(t) as int;
    lemma_div_multiples_vanish(d, interval as int);
    assert(d * interval == interval * d) by (nonlinear_arith);
    lemma_difficulty_round_trip(t);
}

/// The direction of a retarget, in difficulty. Blocks that came faster than
/// expected bring the difficulty strictly up, blocks that came slower bring
/// it strictly down, and in one step it moves by a factor of four at most.
pub proof fn lemma_retargeted_difficulty_direction(t: nat, actual: u64, expected: u64)
    requires
        0 < t <= max_target(),
        expected > 0,
    ensures
        actual < expected ==> retargeted_difficulty(t, actual, expected) > difficulty_of(t),
        actual > expected ==> retargeted_difficulty(t, actual, expected) < difficulty_of(t),
        retargeted_difficulty(t, actual, expected) <= 4 * difficulty_of(t),
        retargeted_difficulty(t, actual, expected) >= difficulty_of(t) / 4,
{
    let (e, a) = clamped_ratio(actual, expected);
    let d = difficulty_of(t) as int;
    lemma_clamped_ratio(actual, expected);
    lemma_difficulty_floor(t);
    lemma_pow256_positive(32);
    crate::bytes::lemma_pow256_8();
    crate::bytes::lemma_pow256_monotonic(8, 32);
    if actual > expected {
        // d * a <= d * e - d, and d is at least e.
        assert(d * a <= (d - 1) * e) by (nonlinear_arith)
            requires
                a + 1 <= e,
                d >= e,
                e >= 1,
                a >= 0,
        ;
        lemma_div_is_ordered(d * a, (d - 1) * e, e as int);
        lemma_div_multiples_vanish(d - 1, e as int);
        assert((d - 1) * e == e * (d - 1)) by (nonlinear_arith);
    }
    if actual < expected {
        assert((d + 1) * e <= d * a) by (nonlinear_arith)
            requires
                e + 1 <= a,
                d >= e,
                e >= 1,
        ;
        lemma_div_is_ordered((d + 1) * e, d * a, e as int);
        lemma_div_multiples_vanish(d + 1, e as int);
        assert((d + 1) * e == e * (d + 1)) by (nonlinear_arith);
    }
    assert(d * a <= (4 * d) * e) by (nonlinear_arith)
        requires
            a <= 4 * e,
            d >= 0,
    ;
    lemma_div_is_ordered(d * a, (4 * d) * e, e as int);
    lemma_div_multiples_vanish(4 * d, e as int);
    assert((4 * d) * e == e * (4 * d)) by (nonlinear_arith);
    let q = d / 4;
    assert(q * e <= d * a) by (nonlinear_arith)
        requires
            4 * q <= d,
            e <= 4 * a,
            q >= 0,
            a >= 1,
            e >= 1,
    ;
    lemma_div_is_ordered(q * e, d * a, e as int);
    lemma_div_multiples_vanish(q, e as int);
    assert(q * e == e * q) by (nonlinear_arith);
}

/// The direction of a retarget, in targets. Blocks that came faster than
/// expected give a strictly smaller target. Blocks that came slower give a
/// target that is not smaller; it is strictly larger exactly when the current
/// one is not yet the largest and the new difficulty has come down at least
/// to the difficulty of the next larger target.
pub proof fn lemma_retarget_direction(t: nat, actual: u64, expected: u64)
    requires
        0 < t <= max_target(),
        expected > 0,
    ensures
        actual < expected ==> retarget_value(t, actual, expected) < t,
        actual > expected ==> retarget_value(t, actual, expected) >= t,
        actual > expected ==> (retarget_value(t, actual, expected) > t <==> t < max_target()
            && retargeted_difficulty(t, actual, expected) <= difficulty_of(t + 1)),
{
    let n = difficulty_numerator() as int;
    let d = difficulty_of(t) as int;
    let nd = retargeted_difficulty(t, actual, expected) as int;
    let raw = target_of(nd as nat) as int;
    lemma_retargeted_difficulty_positive(t, actual, expected);
    lemma_retargeted_difficulty_direction(t, actual, expected);
    lemma_difficulty_round_trip(t);
    lemma_fundamental_div_mod(n, t as int);
    lemma_fundamental_div_mod(n, nd);
    if actual < expected {
        // n < t * (d + 1) <= t * nd, so n / nd < t.
        assert(n < nd * t) by (nonlinear_arith)
            requires
                n == t * d + n % (t as int),
                n % (t as int) < t,
                nd >= d + 1,
                t > 0,
        ;
        lemma_multiply_divide_lt(n, nd, t as int);
    }
    if actual > expected {
        lemma_div_is_ordered_by_denominator(n, nd, d);
        let next = difficulty_of(t + 1) as int;
        lemma_fundamental_div_mod(n, (t + 1) as int);
        if nd <= next {
            // (t + 1) * nd <= (t + 1) * next <= n, so n / nd >= t + 1.
            assert((t + 1) * nd <= n) by (nonlinear_arith)
                requires
                    n == (t + 1) * next + n % ((t + 1) as int),
                    n % ((t + 1) as int) >= 0,
                    nd <= next,
                    t >= 0,
            ;
            assert(raw >= t + 1) by (nonlinear_arith)
                requires
                    (t + 1) * nd <= n,
                    n == nd * raw + n % nd,
                    n % nd < nd,
                    nd > 0,
            ;
        } else {
            // nd >= next + 1, so (t + 1) * nd > n, so n / nd < t + 1.
            assert(n < nd * (t + 1)) by (nonlinear_arith)
                requires
                    n == (t + 1) * next + n % ((t + 1) as int),
                    n % ((t + 1) as int) < t + 1,
                    nd >= next + 1,
                    t >= 0,
            ;
            lemma_multiply_divide_lt(n, nd, (t + 1) as int);
        }
    }
}

/// Of two fractions with positive denominators, the one that is not smaller
/// has the quotient that is not smaller.
pub proof fn lemma_quotients_ordered(x1: int, y1: int, x2: int, y2: int)
    requires
        0 <= x2,
        0 < y1,
        0 < y2,
        x2 * y1 <= x1 * y2,
    ensures
        x2 / y2 <= x1 / y1,
{
    let q = x2 / y2;
    lemma_fundamental_div_mod(x2, y2);
    assert(q * y1 <= x1) by (nonlinear_arith)
        requires
            x2 == y2 * q + x2 % y2,
            0 <= x2 % y2,
            x2 * y1 <= x1 * y2,
            0 < y1,
            0 < y2,
            0 <= q,
    ;
    lemma_div_is_ordered(q * y1, x1, y1);
    lemma_div_multiples_vanish(q, y1);
    assert(q * y1 == y1 * q) by (nonlinear_arith);
}

/// Clamped ratios are ordered like the observed intervals they come from.
pub proof fn lemma_clamped_ratio_ordered(shorter: u64, longer: u64, expected: u64)
    requires
        expected > 0,
        shorter <= longer,
    ensures
        clamped_ratio(shorter, expected).0 * clamped_ratio(longer, expected).1 <= clamped_ratio(
            longer,
            expected,
        ).0 * clamped_ratio(shorter, expected).1,
{
    if 4 * shorter >= expected && longer <= 4 * expected {
        // Neither interval is clamped.
        assert(shorter * expected <= longer * expected) by (nonlinear_arith)
            requires
                shorter <= longer,
        ;
    }
}

/// A longer observed interval never gives a smaller target.
pub proof fn lemma_retarget_monotonic(t: nat, shorter: u64, longer: u64, expected: u64)
    requires
        0 < t <= max_target(),
        expected > 0,
        shorter <= longer,
    ensures
        retarget_value(t, shorter, expected) <= retarget_value(t, longer, expected),
        retargeted_difficulty(t, shorter, expected) >= retargeted_difficulty(t, longer, expected),
{
    let (a1, e1) = clamped_ratio(shorter, expected);
    let (a2, e2) = clamped_ratio(longer, expected);
    let n = difficulty_numerator() as int;
    let d = difficulty_of(t) as int;
    let nd1 = retargeted_difficulty(t, shorter, expected) as int;
    let nd2 = retargeted_difficulty(t, longer, expected) as int;
    lemma_clamped_ratio(shorter, expected);
    lemma_clamped_ratio(longer, expected);
    lemma_retargeted_difficulty_positive(t, shorter, expected);
    lemma_retargeted_difficulty_positive(t, longer, expected);
    lemma_clamped_ratio_ordered(shorter, longer, expected);
    assert((d * e2) * a1 <= (d * e1) * a2) by (nonlinear_arith)
        requires
            a1 * e2 <= a2 * e1,
            d >= 0,
    ;
    assert(d * e2 >= 0) by (nonlinear_arith)
        requires
            d >= 0,
            e2 >= 0,
    ;
    lemma_quotients_ordered(d * e1, a1 as int, d * e2, a2 as int);
    lemma_div_is_ordered_by_denominator(n, nd2, nd1);
}

/// Retargets `current_target` after blocks that took `actual_time` where
/// `expected_time` was planned.
///
/// The difficulty is divided by the ratio of the observed to the expected
/// interval, held to between a quarter and four, and the target that belongs
/// to the new difficulty is returned: blocks that came too fast raise the
/// difficulty and shrink the target, blocks that came too slowly lower the
/// difficulty and let the target grow. With equal intervals the target is
/// returned as it is. All arithmetic is exact.
pub fn adjust_difficulty(current_target: Target, actual_time: u64, expected_time: u64) -> (result:
    Result<Target, Error>)
    ensures
        is_retarget(current_target, actual_time, expected_time, result),
{
    if expected_time == 0 {
        return Err(Error::DegenerateInterval);
    }
    if is_zero(current_target.0.as_slice()) {
        return Err(Error::RetargetUnderflow);
    }
    let wide_actual: u128 = actual_time as u128;
    let wide_expected: u128 = expected_time as u128;
    let ratio: (u64, u64) = if wide_actual > 4 * wide_expected {
        (4, 1)
    } else if 4 * wide_actual < wide_expected {
        (1, 4)
    } else {
        (actual_time, expected_time)
    };
    let ghost t = current_target.value();
    proof {
        lemma_target_bound(current_target);
        lemma_retargeted_difficulty_positive(t, actual_time, expected_time);
        lemma_clamped_ratio(actual_time, expected_time);
    }
    let numerator = numerator_digits();
    let divisor = to_vec(current_target.0.as_slice());
    let difficulty = quotient(&numerator, &divisor);
    let scaled = times_small(&difficulty, ratio.1);
    let next = quotient_small(&scaled, ratio.0);
    let raw = quotient(&numerator, &next);
    let high: [u8; 32] = digits_at(&raw, 0);
    let low: [u8; 32] = digits_at(&raw, 32);
    proof {
        assert(raw@ =~= high@ + low@);
        lemma_value_concat(high@, low@);
        lemma_value_bound(low@);
        lemma_value_zero_iff(high@);
        lemma_pow256_positive(32);
        assert(be_value(raw@) == target_of(retargeted_difficulty(t, actual_time, expected_time)));
    }
    if !is_zero(high.as_slice()) {
        let top: [u8; 32] = [0xffu8; 32];
        proof {
            let h = be_value(high@);
            let p = pow256(32);
            assert(h * p >= p) by (nonlinear_arith)
                requires
                    h >= 1,
                    p >= 0,
            ;
            assert(top@ =~= ones(32));
            lemma_value_ones(32);
        }
        return Ok(Target(top));
    }
    assert(be_value(high@) * pow256(32) == 0) by (nonlinear_arith)
        requires
            be_value(high@) == 0,
    ;
    if is_zero(low.as_slice()) {
        return Err(Error::RetargetUnderflow);
    }
    Ok(Target(low))
}

/// The proof-of-work digest of a header: the digest of its parent, merkle
/// root, timestamp and nonce. It differs from the block's identity, which
/// covers every field.
pub open spec fn pow_digest(h: BlockHeader) -> Seq<u8> {
    blake3_digest(pow_encoding(h))
}

/// A hash meets a target when, as a 256-bit number, it does not exceed it.
pub open spec fn meets_target(hash: Seq<u8>, target: Target) -> bool {
    be_value(hash) <= target.value()
}

/// Whether `nonce` solves the header for the target.
pub open spec fn solves(h: BlockHeader, nonce: u64, target: Target) -> bool {
    meets_target(pow_digest(BlockHeader { nonce, ..h }), target)
}

/// Whether position `i` holds the first of the candidates that solves the header.
pub open spec fn is_first_solution(
    h: BlockHeader,
    target: Target,
    candidates: Seq<u64>,
    i: int,
) -> bool {
    &&& 0 <= i < candidates.len()
    &&& solves(h, candidates[i], target)
    &&& forall|j: int| 0 <= j < i ==> !solves(h, #[trigger] candidates[j], target)
}

/// The block with its nonce replaced and everything else as it was.
pub open spec fn with_nonce(b: Block, nonce: u64) -> Block {
    Block { header: BlockHeader { nonce, ..b.header }, ..b }
}

/// A solved proof of work.
#[derive(Debug, Clone, Copy)]
pub struct MiningResult {
    /// The nonce that solves the block.
    pub nonce: u64,
    /// The proof-of-work digest of the block under that nonce.
    pub hash: [u8; 32],
}

/// Searches for nonces that meet a fixed target.
#[derive(Debug, Clone, Copy)]
pub struct Miner {
    target: Target,
}

/// Draws a nonce from the thread-local generator, with `rand::random`.
///
/// Nothing is claimed of the value, which differs from call to call.
///
/// The call can panic, in three places that depend on the operating system
/// and on no argument: when a thread first uses the generator and the system
/// cannot provide a seed, when a later reseed from the system fails, and when
/// the handler that reseeds after a fork cannot be registered.
#[verifier::external_body]
fn random_nonce() -> u64 {
    rand::random::<u64>()
}

impl Miner {
    /// The target this miner works against.
    pub closed spec fn spec_target(&self) -> Target {
        self.target
    }

    pub fn new(target: Target) -> (miner: Self)
        ensures
            miner.target() == target,
    {
        Miner { target }
    }

    #[verifier::when_used_as_spec(spec_target)]
    pub fn target(&self) -> (target: Target)
        ensures
            target == self.spec_target(),
    {
        self.target
    }

    /// The proof-of-work digest of the block's header.
    pub fn calculate_hash(&self, block: &Block) -> (hash: [u8; 32])
        ensures
            hash@ == pow_digest(block.header),
    {
        let bytes = encode_pow(&block.header, block.header.nonce);
        digest_of(&bytes)
    }

    /// Whether a hash meets the target. The two are compared byte by byte from
    /// the most significant end; the first byte that differs decides, and a
    /// hash equal to the target meets it.
    pub fn check_hash(&self, hash: &[u8; 32]) -> (ok: bool)
        ensures
            ok == meets_target(hash@, self.target()),
    {
        not_above(hash.as_slice(), self.target.0.as_slice())
    }

    /// One attempt: the result for `nonce` if it solves the block, nothing
    /// otherwise. The block is not changed.
    pub fn try_nonce(&self, block: &Block, nonce: u64) -> (found: Option<MiningResult>)
        ensures
            found is Some <==> solves(block.header, nonce, self.target()),
            found matches Some(m) ==> m.nonce == nonce && m.hash@ == pow_digest(
                BlockHeader { nonce, ..block.header },
            ),
            pow_digest(BlockHeader { nonce, ..block.header }).len() == 32,
    {
        let bytes = encode_pow(&block.header, nonce);
        let hash = digest_of(&bytes);
        if self.check_hash(&hash) {
            Some(MiningResult { nonce, hash })
        } else {
            None
        }
    }

    /// Tries the candidates in order and stops at the first that solves the
    /// block. On success that nonce is written to the block, which is otherwise
    /// left as it was; if no candidate solves it, the search is cancelled and
    /// the block is unchanged.
    pub fn mine_from(&self, block: &mut Block, candidates: &Vec<u64>) -> (result: Result<
        MiningResult,
        Error,
    >)
        ensures
            match result {
                Ok(m) => {
                    &&& exists|i: int|
                        is_first_solution(old(block).header, self.target(), candidates@, i)
                            && candidates@[i] == m.nonce
                    &&& m.hash@ == pow_digest(final(block).header)
                    &&& *final(block) == with_nonce(*old(block), m.nonce)
                },
                Err(e) => {
                    &&& e == Error::MiningCancelled
                    &&& forall|j: int|
                        0 <= j < candidates@.len() ==> !solves(
                            old(block).header,
                            #[trigger] candidates@[j],
                            self.target(),
                        )
                    &&& *final(block) == *old(block)
                },
            },
    {
        let mut i: usize = 0;
        while i < candidates.len()
            invariant
                i <= candidates.len(),
                *block == *old(block),
                forall|j: int|
                    0 <= j < i ==> !solves(block.header, #[trigger] candidates@[j], self.target()),
            decreases candidates.len() - i,
        {
            match self.try_nonce(block, candidates[i]) {
                Some(found) => {
                    assert(is_first_solution(
                        old(block).header,
                        self.target(),
                        candidates@,
                        i as int,
                    ));
                    block.header.nonce = found.nonce;
                    return Ok(found);
                },
                None => {},
            }
            i += 1;
        }
        Err(Error::MiningCancelled)
    }

    /// Draws random nonces until one solves the block or `max_attempts` have
    /// been made. On success the nonce is written to the block, which is
    /// otherwise left as it was; when the attempts run out the search is
    /// cancelled and the block is unchanged.
    ///
    /// Which nonce is found, and whether one is, depends on the draws. Against
    /// the largest target the first draw succeeds.
    pub fn mine(&self, block: &mut Block, max_attempts: u64) -> (result: Result<
        MiningResult,
        Error,
    >)
        ensures
            match result {
                Ok(m) => {
                    &&& solves(old(block).header, m.nonce, self.target())
                    &&& m.hash@ == pow_digest(final(block).header)
                    &&& *final(block) == with_nonce(*old(block), m.nonce)
                },
                Err(e) => e == Error::MiningCancelled && *final(block) == *old(block),
            },
            max_attempts == 0 ==> result is Err,
            max_attempts > 0 && self.target().value() == max_target() ==> result is Ok,
    {
        let mut attempts: u64 = 0;
        while attempts < max_attempts
            invariant
                attempts <= max_attempts,
                *block == *old(block),
                self.target().value() == max_target() ==> attempts == 0,
            decreases max_attempts - attempts,
        {
            let nonce = random_nonce();
            match self.try_nonce(block, nonce) {
                Some(found) => {
                    block.header.nonce = found.nonce;
                    return Ok(found);
                },
                None => {
                    proof {
                        lemma_value_bound(pow_digest(BlockHeader { nonce, ..block.header }));
                    }
                },
            }
            attempts += 1;
        }
        Err(Error::MiningCancelled)
    }
}

/// Meeting a target is a comparison byte by byte from the most significant
/// end: a hash meets the target when it equals it, or when at the first
/// position where the two differ the hash has the smaller byte.
pub proof fn lemma_meets_target_bytewise(hash: Seq<u8>, target: Target)
    requires
        hash.len() == 32,
    ensures
        meets_target(hash, target) <==> (hash == target.0@ || exists|i: int|
            0 <= i < 32 && hash[i] < target.0@[i] && forall|j: int|
                0 <= j < i ==> hash[j] == target.0@[j]),
{
    let t = target.0@;
    if hash != t {
        let i = lemma_first_difference(hash, t, 0);
        if hash[i] < t[i] {
            lemma_value_first_difference(hash, t, i);
        } else {
            lemma_value_first_difference(t, hash, i);
            assert forall|k: int|
                0 <= k < 32 && hash[k] < t[k] && (forall|j: int|
                    0 <= j < k ==> hash[j] == t[j]) implies false by {
                if k < i {
                    assert(hash[k] == t[k]);
                } else if i < k {
                    assert(hash[i] == t[i]);
                }
            }
        }
    }
}

/// Against a target whose leading byte is zero, only hashes whose leading
/// byte is zero succeed.
pub proof fn lemma_leading_zero_byte(hash: Seq<u8>, target: Target)
    requires
        hash.len() == 32,
        target.0@[0] == 0,
        meets_target(hash, target),
    ensures
        hash[0] == 0,
{
    let tail = target.0@.skip(1);
    assert(target.0@ =~= seq![0u8] + tail);
    lemma_value_prepend(0u8, tail);
    lemma_value_bound(tail);
    lemma_leading_zero(hash);
}

/// Every 32-byte hash meets the largest target.
pub proof fn lemma_largest_target_met(hash: Seq<u8>, target: Target)
    requires
        hash.len() == 32,
        target.value() == max_target(),
    ensures
        meets_target(hash, target),
{
    lemma_value_bound(hash);
}

/// The target of 32 bytes of 0xff is the largest target.
pub proof fn lemma_all_ones_is_largest(target: Target)
    requires
        target.0@ == ones(32),
    ensures
        target.value() == max_target(),
{
    lemma_value_ones(32);
}

} // verus!
