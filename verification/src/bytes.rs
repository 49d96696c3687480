//! Byte strings read as natural numbers, most significant byte first.
//!
//! Everything the crate says about 256-bit quantities and about fixed-width
//! integer fields in an encoding is stated over [`be_value`] and [`be_bytes`].

use vstd::prelude::*;

verus! {

/// 256 to the power `n`.
pub open spec fn pow256(n: nat) -> nat
    decreases n,
{
    if n == 0 {
        1
    } else {
        256 * pow256((n - 1) as nat)
    }
}

/// The number that `bytes` denotes, most significant byte first.
pub open spec fn be_value(bytes: Seq<u8>) -> nat
    decreases bytes.len(),
{
    if bytes.len() == 0 {
        0
    } else {
        be_value(bytes.drop_last()) * 256 + bytes.last() as nat
    }
}

/// The `width` least significant base-256 digits of `x`, most significant first.
pub open spec fn be_bytes(x: nat, width: nat) -> Seq<u8>
    decreases width,
{
    if width == 0 {
        Seq::empty()
    } else {
        be_bytes(x / 256, (width - 1) as nat).push((x % 256) as u8)
    }
}

/// A string of `n` zero bytes.
pub open spec fn zeros(n: nat) -> Seq<u8> {
    Seq::new(n, |i: int| 0u8)
}

/// A string of `n` bytes that are all 0xff.
pub open spec fn ones(n: nat) -> Seq<u8> {
    Seq::new(n, |i: int| 0xffu8)
}

pub proof fn lemma_pow256_positive(n: nat)
    ensures
        pow256(n) > 0,
    decreases n,
{
    if n > 0 {
        lemma_pow256_positive((n - 1) as nat);
    }
}

pub proof fn lemma_pow256_monotonic(a: nat, b: nat)
    requires
        a <= b,
    ensures
        pow256(a) <= pow256(b),
    decreases b,
{
    if a < b {
        lemma_pow256_monotonic(a, (b - 1) as nat);
        lemma_pow256_positive((b - 1) as nat);
    }
}

/// Appending a byte shifts the number by one digit and adds the byte.
pub proof fn lemma_value_push(s: Seq<u8>, b: u8)
    ensures
        be_value(s.push(b)) == be_value(s) * 256 + b,
{
    assert(s.push(b).drop_last() =~= s);
}

/// A string of `n` bytes denotes a number below `256^n`.
pub proof fn lemma_value_bound(s: Seq<u8>)
    ensures
        be_value(s) < pow256(s.len()),
    decreases s.len(),
{
    if s.len() > 0 {
        lemma_value_bound(s.drop_last());
    }
}

/// The value of a concatenation, from the values of its two parts.
pub proof fn lemma_value_concat(a: Seq<u8>, b: Seq<u8>)
    ensures
        be_value(a + b) == be_value(a) * pow256(b.len()) + be_value(b),
    decreases b.len(),
{
    if b.len() == 0 {
        assert(a + b =~= a);
        assert(be_value(a) * 1 == be_value(a));
    } else {
        let b0 = b.drop_last();
        assert((a + b).drop_last() =~= a + b0);
        lemma_value_concat(a, b0);
        assert((be_value(a) * pow256(b0.len()) + be_value(b0)) * 256 == be_value(a) * (256
            * pow256(b0.len())) + be_value(b0) * 256) by (nonlinear_arith);
    }
}

/// Prepending a byte adds that byte, weighted by its position.
pub proof fn lemma_value_prepend(b: u8, s: Seq<u8>)
    ensures
        be_value(seq![b] + s) == b * pow256(s.len()) + be_value(s),
{
    lemma_value_concat(seq![b], s);
    assert(seq![b] =~= Seq::<u8>::empty().push(b));
    lemma_value_push(Seq::<u8>::empty(), b);
}

/// A string of zero bytes denotes zero.
pub proof fn lemma_value_zeros(n: nat)
    ensures
        be_value(zeros(n)) == 0,
    decreases n,
{
    if n > 0 {
        assert(zeros(n).drop_last() =~= zeros((n - 1) as nat));
        lemma_value_zeros((n - 1) as nat);
    }
}

/// Only the all-zero string denotes zero.
pub proof fn lemma_value_zero_iff(s: Seq<u8>)
    ensures
        be_value(s) == 0 <==> s == zeros(s.len()),
    decreases s.len(),
{
    if s.len() == 0 {
        assert(s =~= zeros(0));
    } else {
        let s0 = s.drop_last();
        lemma_value_zero_iff(s0);
        if be_value(s) == 0 {
            assert(s =~= zeros(s.len())) by {
                assert forall|i: int| 0 <= i < s.len() implies s[i] == 0u8 by {
                    if i < s.len() - 1 {
                        assert(s[i] == s0[i]);
                        assert(zeros(s0.len())[i] == 0u8);
                    }
                }
            }
        }
        if s == zeros(s.len()) {
            lemma_value_zeros(s.len());
        }
    }
}

/// A string of 0xff bytes denotes the largest number of its width.
pub proof fn lemma_value_ones(n: nat)
    ensures
        be_value(ones(n)) == pow256(n) - 1,
    decreases n,
{
    if n > 0 {
        assert(ones(n).drop_last() =~= ones((n - 1) as nat));
        lemma_value_ones((n - 1) as nat);
    }
}

/// Two strings of one length that agree up to position `i` and differ there
/// are ordered, as numbers, like their bytes at `i`.
pub proof fn lemma_value_first_difference(a: Seq<u8>, b: Seq<u8>, i: int)
    requires
        a.len() == b.len(),
        0 <= i < a.len(),
        forall|j: int| 0 <= j < i ==> a[j] == b[j],
        a[i] < b[i],
    ensures
        be_value(a) < be_value(b),
{
    let k = (a.len() - i - 1) as nat;
    let p = pow256(k);
    let ah = a.take(i + 1);
    let bh = b.take(i + 1);
    let at = a.skip(i + 1);
    let bt = b.skip(i + 1);
    assert(a =~= ah + at);
    assert(b =~= bh + bt);
    lemma_value_concat(ah, at);
    lemma_value_concat(bh, bt);
    assert(ah.drop_last() =~= a.take(i));
    assert(bh.drop_last() =~= b.take(i));
    assert(a.take(i) =~= b.take(i));
    lemma_value_bound(at);
    let x = be_value(ah);
    let y = be_value(bh);
    assert(x + 1 <= y);
    assert((x + 1) * p <= y * p) by (nonlinear_arith)
        requires
            x + 1 <= y,
            p >= 0,
    ;
    assert((x + 1) * p == x * p + p) by (nonlinear_arith);
}

/// Two different strings of one length have a first position at which they differ.
pub proof fn lemma_first_difference(a: Seq<u8>, b: Seq<u8>, from: int) -> (i: int)
    requires
        a.len() == b.len(),
        a != b,
        0 <= from <= a.len(),
        forall|j: int| 0 <= j < from ==> a[j] == b[j],
    ensures
        from <= i < a.len(),
        a[i] != b[i],
        forall|j: int| 0 <= j < i ==> a[j] == b[j],
    decreases a.len() - from,
{
    if from == a.len() {
        assert(a =~= b);
        from
    } else if a[from] != b[from] {
        from
    } else {
        lemma_first_difference(a, b, from + 1)
    }
}

pub proof fn lemma_be_bytes_len(x: nat, width: nat)
    ensures
        be_bytes(x, width).len() == width,
    decreases width,
{
    if width > 0 {
        lemma_be_bytes_len(x / 256, (width - 1) as nat);
    }
}

/// Writing a number that fits and reading it back gives the number.
pub proof fn lemma_be_bytes_value(x: nat, width: nat)
    requires
        x < pow256(width),
    ensures
        be_value(be_bytes(x, width)) == x,
    decreases width,
{
    if width > 0 {
        let rest = be_bytes(x / 256, (width - 1) as nat);
        lemma_be_bytes_value(x / 256, (width - 1) as nat);
        lemma_value_push(rest, (x % 256) as u8);
    }
}

pub proof fn lemma_pow256_4()
    ensures
        pow256(4) == 0x1_0000_0000,
{
    reveal_with_fuel(pow256, 5);
}

pub proof fn lemma_pow256_8()
    ensures
        pow256(8) == 0x1_0000_0000_0000_0000,
{
    reveal_with_fuel(pow256, 9);
}

/// Appends the `width` low base-256 digits of `x` to `out`, most significant first.
pub fn push_be(out: &mut Vec<u8>, x: u64, width: u8)
    ensures
        final(out)@ == old(out)@ + be_bytes(x as nat, width as nat),
    decreases width,
{
    if width > 0 {
        push_be(out, x / 256, width - 1);
        let digit: u8 = (x % 256) as u8;
        out.push(digit);
        assert(out@ =~= old(out)@ + be_bytes(x as nat, width as nat));
    } else {
        assert(out@ =~= old(out)@ + be_bytes(x as nat, 0));
    }
}

/// Appends a copy of `src` to `out`.
pub fn push_all(out: &mut Vec<u8>, src: &[u8])
    ensures
        final(out)@ == old(out)@ + src@,
{
    let mut i: usize = 0;
    while i < src.len()
        invariant
            i <= src.len(),
            out@ == old(out)@ + src@.take(i as int),
        decreases src.len() - i,
    {
        out.push(src[i]);
        assert(src@.take(i + 1) =~= src@.take(i as int).push(src@[i as int]));
        i += 1;
    }
    assert(src@.take(i as int) =~= src@);
}

/// Whether every byte of `bytes` is zero.
pub fn is_zero(bytes: &[u8]) -> (zero: bool)
    ensures
        zero == (be_value(bytes@) == 0),
        zero == (bytes@ == zeros(bytes@.len())),
{
    let mut i: usize = 0;
    while i < bytes.len()
        invariant
            i <= bytes.len(),
            forall|j: int| 0 <= j < i ==> bytes@[j] == 0u8,
        decreases bytes.len() - i,
    {
        if bytes[i] != 0 {
            proof {
                lemma_value_zero_iff(bytes@);
                assert(zeros(bytes@.len())[i as int] == 0u8);
            }
            return false;
        }
        i += 1;
    }
    proof {
        assert(bytes@ =~= zeros(bytes@.len()));
        lemma_value_zero_iff(bytes@);
    }
    true
}

/// Whether `a`, read as a number, does not exceed `b`; both have one length.
///
/// The strings are compared byte by byte from the most significant end: the
/// first position at which they differ decides, and equal strings compare as
/// not exceeding.
pub fn not_above(a: &[u8], b: &[u8]) -> (le: bool)
    requires
        a@.len() == b@.len(),
    ensures
        le == (be_value(a@) <= be_value(b@)),
{
    let mut i: usize = 0;
    while i < a.len()
        invariant
            i <= a.len(),
            a@.len() == b@.len(),
            forall|j: int| 0 <= j < i ==> a@[j] == b@[j],
        decreases a.len() - i,
    {
        if a[i] > b[i] {
            proof {
                lemma_value_first_difference(b@, a@, i as int);
            }
            return false;
        }
        if a[i] < b[i] {
            proof {
                lemma_value_first_difference(a@, b@, i as int);
            }
            return true;
        }
        i += 1;
    }
    assert(a@ =~= b@);
    true
}

} // verus!
