//! Exact arithmetic on unsigned integers of any width, held as big-endian
//! byte strings.
//!
//! Targets are 256-bit numbers and difficulties 512-bit ones; no machine type
//! holds them, and rounding them through a narrower one would change consensus
//! results. The operations here work digit by digit in base 256 and are proved
//! to compute the mathematical result over [`be_value`].

use vstd::prelude::*;
use vstd::arithmetic::div_mod::{lemma_fundamental_div_mod, lemma_fundamental_div_mod_converse};
use crate::bytes::{
    be_value, lemma_be_bytes_len, lemma_be_bytes_value, lemma_pow256_8, lemma_value_bound,
    lemma_value_concat, lemma_value_prepend, lemma_value_push, lemma_value_zeros, not_above,
    pow256, push_all, push_be, zeros,
};

verus! {

/// A number below `256^(n-1)` written with `n` digits starts with a zero digit.
pub proof fn lemma_leading_zero(s: Seq<u8>)
    requires
        s.len() >= 1,
        be_value(s) < pow256((s.len() - 1) as nat),
    ensures
        s[0] == 0,
{
    let p = pow256((s.len() - 1) as nat);
    let d = s[0];
    assert(s =~= seq![d] + s.skip(1));
    lemma_value_prepend(d, s.skip(1));
    if d >= 1 {
        assert(d * p >= p) by (nonlinear_arith)
            requires
                d >= 1,
                p >= 0,
        ;
    }
}

/// A string of `n` zero bytes.
pub fn zero_bytes(n: usize) -> (out: Vec<u8>)
    ensures
        out@ == zeros(n as nat),
{
    let mut out: Vec<u8> = Vec::new();
    let mut i: usize = 0;
    while i < n
        invariant
            i <= n,
            out@ == zeros(i as nat),
        decreases n - i,
    {
        out.push(0);
        assert(out@ =~= zeros((i + 1) as nat));
        i += 1;
    }
    out
}

/// `a - b` in place, for two numbers of one width with `a >= b`.
pub fn subtract(a: &mut Vec<u8>, b: &Vec<u8>)
    requires
        old(a)@.len() == b@.len(),
        be_value(old(a)@) >= be_value(b@),
    ensures
        final(a)@.len() == old(a)@.len(),
        be_value(final(a)@) == be_value(old(a)@) - be_value(b@),
{
    let n = a.len();
    let ghost before = a@;
    let mut borrow: u8 = 0;
    let mut i: usize = n;
    assert(a@.skip(n as int) =~= Seq::<u8>::empty());
    assert(b@.skip(n as int) =~= Seq::<u8>::empty());
    while i > 0
        invariant
            i <= n,
            n == a@.len(),
            n == b@.len(),
            n == before.len(),
            borrow <= 1,
            a@.take(i as int) == before.take(i as int),
            be_value(a@.skip(i as int)) + be_value(b@.skip(i as int)) == be_value(
                before.skip(i as int),
            ) + borrow * pow256((n - i) as nat),
        decreases i,
    {
        let ghost prev = a@;
        let ghost p = pow256((n - i) as nat);
        let k: usize = i - 1;
        assert(a@[k as int] == before[k as int]) by {
            assert(a@.take(i as int)[k as int] == before.take(i as int)[k as int]);
        }
        let x: u16 = a[k] as u16;
        let y: u16 = b[k] as u16 + borrow as u16;
        let next_borrow: u8 = if x < y {
            1
        } else {
            0
        };
        let digit: u8 = if x < y {
            (x + 256 - y) as u8
        } else {
            (x - y) as u8
        };
        a[k] = digit;
        proof {
            assert(a@.skip(k as int) =~= seq![digit] + prev.skip(i as int));
            assert(b@.skip(k as int) =~= seq![b@[k as int]] + b@.skip(i as int));
            assert(before.skip(k as int) =~= seq![before[k as int]] + before.skip(i as int));
            lemma_value_prepend(digit, prev.skip(i as int));
            lemma_value_prepend(b@[k as int], b@.skip(i as int));
            lemma_value_prepend(before[k as int], before.skip(i as int));
            assert(a@.take(k as int) =~= before.take(k as int)) by {
                assert forall|j: int| 0 <= j < k implies a@[j] == before[j] by {
                    assert(prev.take(i as int)[j] == before.take(i as int)[j]);
                }
            }
            let bk = b@[k as int] as int;
            let ok = before[k as int] as int;
            let dg = digit as int;
            let bw = borrow as int;
            let nb = next_borrow as int;
            assert(dg + bk + bw == ok + 256 * nb);
            assert(dg * p + bk * p + bw * p == ok * p + nb * (256 * p)) by (nonlinear_arith)
                requires
                    dg + bk + bw == ok + 256 * nb,
            ;
        }
        borrow = next_borrow;
        i = k;
    }
    proof {
        assert(a@.skip(0) =~= a@);
        assert(b@.skip(0) =~= b@);
        assert(before.skip(0) =~= before);
        lemma_value_bound(a@);
        assert(1 * pow256(n as nat) == pow256(n as nat));
    }
}

/// `r * 256 + digit` in place, for a number whose leading digit is zero.
pub fn shift_in(r: &mut Vec<u8>, digit: u8)
    requires
        old(r)@.len() >= 1,
        old(r)@[0] == 0,
    ensures
        final(r)@.len() == old(r)@.len(),
        be_value(final(r)@) == be_value(old(r)@) * 256 + digit,
{
    let ghost tail = r@.skip(1);
    proof {
        assert(r@ =~= seq![0u8] + tail);
        lemma_value_prepend(0u8, tail);
        lemma_value_push(tail, digit);
    }
    r.remove(0);
    assert(r@ =~= tail);
    r.push(digit);
}

/// The quotient `n / d`, rounded down, written with as many digits as `n`.
///
/// This is long division in base 256: the digits of `n` are brought down one
/// at a time, and each digit of the quotient is found by subtracting the
/// divisor from the running remainder until it no longer fits, which takes at
/// most 255 subtractions.
pub fn quotient(n: &Vec<u8>, d: &Vec<u8>) -> (q: Vec<u8>)
    requires
        be_value(d@) > 0,
        d@.len() < usize::MAX,
    ensures
        q@.len() == n@.len(),
        be_value(q@) == be_value(n@) / be_value(d@),
{
    let ghost dv = be_value(d@);
    // The divisor and the running remainder share one width, a digit more than
    // the divisor needs, so that a shifted remainder always fits.
    let mut divisor: Vec<u8> = Vec::new();
    divisor.push(0);
    push_all(&mut divisor, d.as_slice());
    let width: usize = divisor.len();
    let mut r: Vec<u8> = zero_bytes(width);
    let mut q: Vec<u8> = Vec::new();
    proof {
        assert(divisor@ =~= seq![0u8] + d@);
        lemma_value_prepend(0u8, d@);
        lemma_value_zeros(width as nat);
        lemma_value_bound(d@);
        assert(n@.take(0) =~= Seq::<u8>::empty());
        assert(0 * dv == 0);
    }
    let mut i: usize = 0;
    while i < n.len()
        invariant
            i <= n.len(),
            q@.len() == i,
            width == d@.len() + 1,
            r@.len() == width,
            divisor@.len() == width,
            be_value(divisor@) == dv,
            dv == be_value(d@),
            dv > 0,
            dv < pow256(d@.len()),
            be_value(r@) < dv,
            be_value(n@.take(i as int)) == be_value(q@) * dv + be_value(r@),
        decreases n.len() - i,
    {
        let ghost q_before = be_value(q@);
        proof {
            lemma_leading_zero(r@);
        }
        shift_in(&mut r, n[i]);
        let ghost shifted = be_value(r@);
        let mut digit: u8 = 0;
        while not_above(divisor.as_slice(), r.as_slice())
            invariant
                r@.len() == width,
                divisor@.len() == width,
                be_value(divisor@) == dv,
                dv > 0,
                shifted < 256 * dv,
                shifted == digit * dv + be_value(r@),
            decreases be_value(r@),
        {
            proof {
                let g = digit as int;
                let rv = be_value(r@) as int;
                let w = dv as int;
                assert(g < 255) by (nonlinear_arith)
                    requires
                        g * w + rv < 256 * w,
                        rv >= w,
                        w > 0,
                        0 <= g,
                ;
                assert((g + 1) * w == g * w + w) by (nonlinear_arith);
            }
            subtract(&mut r, &divisor);
            digit = digit + 1;
        }
        proof {
            assert(n@.take(i + 1) =~= n@.take(i as int).push(n@[i as int]));
            lemma_value_push(n@.take(i as int), n@[i as int]);
            lemma_value_push(q@, digit);
            let g = digit as int;
            let qb = q_before as int;
            let w = dv as int;
            assert((qb * 256 + g) * w == (qb * w) * 256 + g * w) by (nonlinear_arith);
        }
        q.push(digit);
        i += 1;
    }
    proof {
        assert(n@.take(i as int) =~= n@);
        lemma_fundamental_div_mod_converse(
            be_value(n@) as int,
            dv as int,
            be_value(q@) as int,
            be_value(r@) as int,
        );
    }
    q
}

/// The product `a * m`, written with eight digits more than `a`.
pub fn times_small(a: &Vec<u8>, m: u64) -> (out: Vec<u8>)
    requires
        a@.len() + 8 <= usize::MAX,
    ensures
        out@.len() == a@.len() + 8,
        be_value(out@) == be_value(a@) * m,
{
    let n = a.len();
    let mut low: Vec<u8> = zero_bytes(n);
    let mut carry: u64 = 0;
    let mut i: usize = n;
    proof {
        assert(low@.skip(n as int) =~= Seq::<u8>::empty());
        assert(a@.skip(n as int) =~= Seq::<u8>::empty());
        assert(0 * m == 0);
    }
    while i > 0
        invariant
            i <= n,
            n == a@.len(),
            n == low@.len(),
            be_value(low@.skip(i as int)) + carry * pow256((n - i) as nat) == be_value(
                a@.skip(i as int),
            ) * m,
        decreases i,
    {
        let ghost prev = low@;
        let ghost p = pow256((n - i) as nat);
        let k: usize = i - 1;
        assert(a@[k as int] * m <= 255 * 0xffff_ffff_ffff_ffff) by (nonlinear_arith)
            requires
                a@[k as int] <= 255,
                m <= 0xffff_ffff_ffff_ffff,
        ;
        let cur: u128 = (a[k] as u128) * (m as u128) + (carry as u128);
        let digit: u8 = (cur % 256) as u8;
        let next_carry: u64 = (cur / 256) as u64;
        low[k] = digit;
        proof {
            assert(low@.skip(k as int) =~= seq![digit] + prev.skip(i as int));
            assert(a@.skip(k as int) =~= seq![a@[k as int]] + a@.skip(i as int));
            lemma_value_prepend(digit, prev.skip(i as int));
            lemma_value_prepend(a@[k as int], a@.skip(i as int));
            let ak = a@[k as int] as int;
            let dg = digit as int;
            let cy = carry as int;
            let nc = next_carry as int;
            let mm = m as int;
            let rest = be_value(a@.skip(i as int)) as int;
            assert(dg + 256 * nc == ak * mm + cy);
            assert(dg * p + nc * (256 * p) - cy * p == (ak * mm) * p) by (nonlinear_arith)
                requires
                    dg + 256 * nc == ak * mm + cy,
            ;
            assert((ak * p + rest) * mm == (ak * mm) * p + rest * mm) by (nonlinear_arith);
        }
        carry = next_carry;
        i = k;
    }
    let mut out: Vec<u8> = Vec::new();
    push_be(&mut out, carry, 8);
    let ghost high = out@;
    push_all(&mut out, low.as_slice());
    proof {
        assert(low@.skip(0) =~= low@);
        assert(a@.skip(0) =~= a@);
        lemma_pow256_8();
        lemma_be_bytes_len(carry as nat, 8);
        lemma_be_bytes_value(carry as nat, 8);
        lemma_value_concat(high, low@);
    }
    out
}

/// The quotient `a / d`, rounded down, written with as many digits as `a`.
pub fn quotient_small(a: &Vec<u8>, d: u64) -> (q: Vec<u8>)
    requires
        d > 0,
    ensures
        q@.len() == a@.len(),
        be_value(q@) == be_value(a@) / (d as nat),
{
    let mut q: Vec<u8> = Vec::new();
    let mut rem: u64 = 0;
    let mut i: usize = 0;
    assert(a@.take(0) =~= Seq::<u8>::empty());
    assert(0 * d == 0);
    while i < a.len()
        invariant
            i <= a.len(),
            q@.len() == i,
            rem < d,
            be_value(a@.take(i as int)) == be_value(q@) * d + rem,
        decreases a.len() - i,
    {
        let cur: u128 = (rem as u128) * 256 + (a[i] as u128);
        let digit_wide: u128 = cur / (d as u128);
        let next_rem: u128 = cur % (d as u128);
        proof {
            lemma_fundamental_div_mod(cur as int, d as int);
            let g = digit_wide as int;
            let w = d as int;
            assert(g < 256) by (nonlinear_arith)
                requires
                    w * g <= cur,
                    cur < 256 * w,
                    w > 0,
            ;
            assert(a@.take(i + 1) =~= a@.take(i as int).push(a@[i as int]));
            lemma_value_push(a@.take(i as int), a@[i as int]);
            lemma_value_push(q@, digit_wide as u8);
            let qb = be_value(q@) as int;
            assert((qb * 256 + g) * w == (qb * w) * 256 + w * g) by (nonlinear_arith);
        }
        q.push(digit_wide as u8);
        rem = next_rem as u64;
        i += 1;
    }
    proof {
        assert(a@.take(i as int) =~= a@);
        lemma_fundamental_div_mod_converse(
            be_value(a@) as int,
            d as int,
            be_value(q@) as int,
            rem as int,
        );
    }
    q
}

/// The `N` digits of `v` that start at position `start`.
pub fn digits_at<const N: usize>(v: &Vec<u8>, start: usize) -> (out: [u8; N])
    requires
        start + N <= v.len(),
    ensures
        out@ == v@.subrange(start as int, start + N),
{
    let mut out: [u8; N] = [0u8; N];
    let mut i: usize = 0;
    while i < N
        invariant
            i <= N,
            start + N <= v.len(),
            out@.len() == N,
            forall|j: int| 0 <= j < i ==> out@[j] == v@[start + j],
        decreases N - i,
    {
        out[i] = v[start + i];
        i += 1;
    }
    assert(out@ =~= v@.subrange(start as int, start + N));
    out
}

/// A copy of `bytes` as a vector.
pub fn to_vec(bytes: &[u8]) -> (out: Vec<u8>)
    ensures
        out@ == bytes@,
{
    let mut out: Vec<u8> = Vec::new();
    push_all(&mut out, bytes);
    assert(out@ =~= bytes@);
    out
}

} // verus!
