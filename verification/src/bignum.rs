//! Fixed-radix big numbers for the decimal conversions of 64-bit floats.
//!
//! Two representations: little-endian vectors of 64-bit limbs (base 2^64),
//! and little-endian vectors of decimal digits (base 10). Both carry their
//! value through `val64`/`val10`, and every operation's contract states the
//! arithmetic it performs on that value.
use vstd::prelude::*;

use vstd::arithmetic::div_mod::lemma_fundamental_div_mod_converse;
use vstd::arithmetic::power2::{lemma2_to64, lemma2_to64_rest, lemma_pow2_adds, lemma_pow2_pos};

verus! {

/// The value of a little-endian base-2^64 limb vector.
pub open spec fn val64(s: Seq<u64>) -> int
    decreases s.len(),
{
    if s.len() == 0 {
        0
    } else {
        s[0] + 0x1_0000_0000_0000_0000 * val64(s.drop_first())
    }
}

/// The value of a little-endian base-10 digit vector.
pub open spec fn val10(s: Seq<u8>) -> int
    decreases s.len(),
{
    if s.len() == 0 {
        0
    } else {
        s[0] + 10 * val10(s.drop_first())
    }
}

pub proof fn lemma_val64_snoc(s: Seq<u64>, d: u64)
    ensures
        val64(s.push(d)) == val64(s) + d * vstd::arithmetic::power2::pow2(64 * s.len()),
    decreases s.len(),
{
    lemma_pow2_pos(64 * s.len());
    if s.len() == 0 {
        assert(s.push(d).drop_first() =~= Seq::<u64>::empty());
        assert(val64(Seq::<u64>::empty()) == 0);
        assert(vstd::arithmetic::power2::pow2(0) == 1) by {
            lemma2_to64();
        }
    } else {
        assert(s.push(d).drop_first() =~= s.drop_first().push(d));
        assert(s.push(d)[0] == s[0]);
        lemma_val64_snoc(s.drop_first(), d);
        lemma_pow2_adds(64, 64 * (s.len() - 1) as nat);
        assert(vstd::arithmetic::power2::pow2(64) == 0x1_0000_0000_0000_0000) by {
            lemma2_to64_rest();
        }
        let p = vstd::arithmetic::power2::pow2(64 * (s.len() - 1) as nat) as int;
        assert(0x1_0000_0000_0000_0000 * (val64(s.drop_first()) + d * p) == 0x1_0000_0000_0000_0000
            * val64(s.drop_first()) + d * (0x1_0000_0000_0000_0000 * p)) by (nonlinear_arith);
    }
}

pub proof fn lemma_val64_bound(s: Seq<u64>)
    ensures
        0 <= val64(s) < vstd::arithmetic::power2::pow2(64 * s.len()),
    decreases s.len(),
{
    if s.len() == 0 {
        lemma2_to64();
    } else {
        lemma_val64_bound(s.drop_first());
        lemma_pow2_adds(64, 64 * (s.len() - 1) as nat);
        assert(vstd::arithmetic::power2::pow2(64) == 0x1_0000_0000_0000_0000) by {
            lemma2_to64_rest();
        }
        let p = vstd::arithmetic::power2::pow2(64 * (s.len() - 1) as nat) as int;
        assert(s[0] + 0x1_0000_0000_0000_0000 * val64(s.drop_first()) < 0x1_0000_0000_0000_0000
            * p) by (nonlinear_arith)
            requires
                0 <= s[0] < 0x1_0000_0000_0000_0000,
                0 <= val64(s.drop_first()) <= p - 1,
                p >= 1,
        ;
    }
}

pub proof fn lemma_val10_snoc(s: Seq<u8>, d: u8)
    ensures
        val10(s.push(d)) == val10(s) + d * pow10n(s.len()),
    decreases s.len(),
{
    lemma_pow10n_pos(s.len());
    if s.len() == 0 {
        assert(s.push(d).drop_first() =~= Seq::<u8>::empty());
        assert(val10(Seq::<u8>::empty()) == 0);
    } else {
        assert(s.push(d).drop_first() =~= s.drop_first().push(d));
        assert(s.push(d)[0] == s[0]);
        lemma_val10_snoc(s.drop_first(), d);
        let p = pow10n((s.len() - 1) as nat);
        assert(10 * (val10(s.drop_first()) + d * p) == 10 * val10(s.drop_first()) + d * (10 * p))
            by (nonlinear_arith);
    }
}

/// Ten to the power `k`.
pub open spec fn pow10n(k: nat) -> int
    decreases k,
{
    if k == 0 {
        1
    } else {
        10 * pow10n((k - 1) as nat)
    }
}

pub proof fn lemma_pow10n_pos(k: nat)
    ensures
        pow10n(k) >= 1,
    decreases k,
{
    if k > 0 {
        lemma_pow10n_pos((k - 1) as nat);
    }
}

pub proof fn lemma_val10_bound(s: Seq<u8>)
    requires
        forall|i: int| 0 <= i < s.len() ==> (#[trigger] s[i]) < 10,
    ensures
        0 <= val10(s) < pow10n(s.len()),
    decreases s.len(),
{
    if s.len() > 0 {
        lemma_val10_bound(s.drop_first());
        let p = pow10n((s.len() - 1) as nat);
        assert(s[0] + 10 * val10(s.drop_first()) < 10 * p) by (nonlinear_arith)
            requires
                0 <= s[0] < 10,
                0 <= val10(s.drop_first()) <= p - 1,
                p >= 1,
        ;
    }
}

/// A digit vector whose top digit is set denotes a positive value.
pub proof fn lemma_val10_pos(s: Seq<u8>)
    requires
        s.len() > 0,
        s.last() != 0,
    ensures
        val10(s) >= 1,
    decreases s.len(),
{
    if s.len() == 1 {
        assert(s.drop_first() =~= Seq::<u8>::empty());
        assert(val10(Seq::<u8>::empty()) == 0);
        assert(s[0] == s.last());
    } else {
        assert(s.drop_first().last() == s.last());
        lemma_val10_pos(s.drop_first());
    }
}

/// Splits a limb vector's value at index `i`.
pub proof fn lemma_val64_split(s: Seq<u64>, i: int)
    requires
        0 <= i <= s.len(),
    ensures
        val64(s) == val64(s.take(i)) + vstd::arithmetic::power2::pow2(64 * i as nat) * val64(
            s.skip(i),
        ),
    decreases i,
{
    if i == 0 {
        assert(s.take(0) =~= Seq::<u64>::empty());
        assert(s.skip(0) =~= s);
        assert(val64(Seq::<u64>::empty()) == 0);
        lemma2_to64();
        let q = vstd::arithmetic::power2::pow2(64 * i as nat) as int;
        assert(q == 1);
        assert(q * val64(s.skip(i)) == val64(s.skip(i))) by (nonlinear_arith)
            requires
                q == 1,
        ;
    } else {
        lemma_val64_split(s, i - 1);
        assert(s.skip(i - 1).drop_first() =~= s.skip(i));
        assert(s.skip(i - 1)[0] == s[i - 1]);
        assert(s.take(i - 1).push(s[i - 1]) =~= s.take(i));
        lemma_val64_snoc(s.take(i - 1), s[i - 1]);
        lemma_pow2_adds(64 * (i - 1) as nat, 64);
        assert(vstd::arithmetic::power2::pow2(64) == 0x1_0000_0000_0000_0000) by {
            lemma2_to64_rest();
        }
        let p = vstd::arithmetic::power2::pow2(64 * (i - 1) as nat) as int;
        let q = vstd::arithmetic::power2::pow2(64 * i as nat) as int;
        let v = val64(s.skip(i));
        assert(64 * (i - 1) as nat + 64 == 64 * i as nat);
        assert(q == p * 0x1_0000_0000_0000_0000);
        assert(val64(s.skip(i - 1)) == s[i - 1] + 0x1_0000_0000_0000_0000 * v);
        assert(val64(s.take(i)) == val64(s.take(i - 1)) + s[i - 1] * p);
        assert(p * (s[i - 1] + 0x1_0000_0000_0000_0000 * v) == s[i - 1] * p + (p
            * 0x1_0000_0000_0000_0000) * v) by (nonlinear_arith);
        assert(val64(s) == val64(s.take(i - 1)) + p * val64(s.skip(i - 1)));
        assert(val64(s) == val64(s.take(i)) + q * v);
    }
}

/// A limb vector is zero exactly when every limb is zero.
pub proof fn lemma_val64_zero(s: Seq<u64>)
    ensures
        (val64(s) == 0) <==> (forall|i: int| 0 <= i < s.len() ==> (#[trigger] s[i]) == 0),
    decreases s.len(),
{
    if s.len() > 0 {
        lemma_val64_zero(s.drop_first());
        lemma_val64_bound(s.drop_first());
        if val64(s) == 0 {
            assert(s[0] + 0x1_0000_0000_0000_0000 * val64(s.drop_first()) == 0);
            assert(val64(s.drop_first()) == 0) by (nonlinear_arith)
                requires
                    s[0] + 0x1_0000_0000_0000_0000 * val64(s.drop_first()) == 0,
                    0 <= s[0] < 0x1_0000_0000_0000_0000,
                    val64(s.drop_first()) >= 0,
            ;
            assert(forall|i: int| 0 <= i < s.len() ==> (#[trigger] s[i]) == 0) by {
                assert(forall|i: int|
                    1 <= i < s.len() ==> (#[trigger] s[i]) == s.drop_first()[i - 1]);
            }
        }
        if forall|i: int| 0 <= i < s.len() ==> (#[trigger] s[i]) == 0 {
            assert(forall|i: int|
                0 <= i < s.drop_first().len() ==> (#[trigger] s.drop_first()[i]) == s[i + 1]);
        }
    }
}

/// A one-limb vector holding `v`.
pub fn limbs_from_u64(v: u64) -> (r: Vec<u64>)
    ensures
        val64(r@) == v,
        r@.len() == 1,
{
    let mut r: Vec<u64> = Vec::new();
    r.push(v);
    proof {
        assert(r@.drop_first() =~= Seq::<u64>::empty());
        assert(val64(Seq::<u64>::empty()) == 0);
    }
    r
}

/// Extends `x` with zero limbs up to length `n`; the value is unchanged.
pub fn pad_limbs(x: &mut Vec<u64>, n: usize)
    ensures
        val64(final(x)@) == val64(old(x)@),
        final(x)@.len() == if old(x)@.len() >= n {
            old(x)@.len() as int
        } else {
            n as int
        },
{
    while x.len() < n
        invariant
            val64(x@) == val64(old(x)@),
            x@.len() <= if old(x)@.len() >= n {
                old(x)@.len() as int
            } else {
                n as int
            },
            old(x)@.len() < n ==> x@.len() >= old(x)@.len(),
            old(x)@.len() >= n ==> x@ == old(x)@,
        decreases n - x@.len(),
    {
        let ghost s0 = x@;
        x.push(0);
        proof {
            lemma_val64_snoc(s0, 0);
        }
    }
}

/// `x := 10 * x + d`, growing by one limb when the multiply carries out.
pub fn muladd10_limbs(x: &mut Vec<u64>, d: u64)
    requires
        d < 10,
    ensures
        val64(final(x)@) == 10 * val64(old(x)@) + d,
        old(x)@.len() <= final(x)@.len() <= old(x)@.len() + 1,
{
    let n = x.len();
    let mut out: Vec<u64> = Vec::new();
    let mut carry: u64 = d;
    let mut i: usize = 0;
    proof {
        assert(out@ =~= Seq::<u64>::empty());
        assert(old(x)@.take(0) =~= Seq::<u64>::empty());
        lemma2_to64();
    }
    while i < n
        invariant
            i <= n,
            n == x@.len(),
            x@ == old(x)@,
            out@.len() == i,
            carry < 10,
            val64(out@) + carry * vstd::arithmetic::power2::pow2(64 * i as nat) == 10 * val64(
                x@.take(i as int),
            ) + d,
        decreases n - i,
    {
        let wide: u128 = (x[i] as u128) * 10 + (carry as u128);
        let lo: u64 = (wide % 0x1_0000_0000_0000_0000) as u64;
        let hi: u64 = (wide / 0x1_0000_0000_0000_0000) as u64;
        let ghost out0 = out@;
        out.push(lo);
        proof {
            lemma_val64_snoc(out0, lo);
            lemma_val64_snoc(x@.take(i as int), x@[i as int]);
            assert(x@.take(i as int).push(x@[i as int]) =~= x@.take(i as int + 1));
            lemma_pow2_pos(64 * i as nat);
            lemma_pow2_adds(64 * i as nat, 64);
            assert(vstd::arithmetic::power2::pow2(64) == 0x1_0000_0000_0000_0000) by {
                lemma2_to64_rest();
            }
            let p = vstd::arithmetic::power2::pow2(64 * i as nat) as int;
            assert((lo + 0x1_0000_0000_0000_0000 * hi) == 10 * x@[i as int] + carry);
            assert(val64(out0) + (lo as int) * p + (hi as int) * (p * 0x1_0000_0000_0000_0000) == 10
                * (val64(x@.take(i as int)) + (x@[i as int] as int) * p) + d) by (nonlinear_arith)
                requires
                    val64(out0) + (carry as int) * p == 10 * val64(x@.take(i as int)) + d,
                    (lo as int) + 0x1_0000_0000_0000_0000 * (hi as int) == 10 * (x@[i as int] as int)
                        + carry,
                    p >= 1,
            ;
        }
        carry = hi;
        i += 1;
    }
    proof {
        assert(x@.take(n as int) =~= x@);
    }
    if carry > 0 {
        let ghost outv = out@;
        out.push(carry);
        proof {
            lemma_val64_snoc(outv, carry);
        }
    }
    *x = out;
}

/// `x := 2 * x` at fixed length; the value must fit.
pub fn double_limbs(x: &mut Vec<u64>)
    requires
        2 * val64(old(x)@) < vstd::arithmetic::power2::pow2(64 * old(x)@.len()),
    ensures
        val64(final(x)@) == 2 * val64(old(x)@),
        final(x)@.len() == old(x)@.len(),
{
    mulc_limbs_fixed(x, 2);
}

/// `x := c * x` at fixed length, returning the carry out of the top limb:
/// afterwards `c * old == new + carry * 2^(64 len)`.
pub fn mulc_carry_limbs(x: &mut Vec<u64>, c: u64) -> (carry: u64)
    requires
        1 <= c <= 16,
    ensures
        final(x)@.len() == old(x)@.len(),
        c * val64(old(x)@) == val64(final(x)@) + carry * vstd::arithmetic::power2::pow2(
            64 * old(x)@.len(),
        ),
        carry < c,
{
    let n = x.len();
    let mut out: Vec<u64> = Vec::new();
    let mut carry: u64 = 0;
    let mut i: usize = 0;
    proof {
        assert(out@ =~= Seq::<u64>::empty());
        assert(old(x)@.take(0) =~= Seq::<u64>::empty());
        lemma2_to64();
    }
    while i < n
        invariant
            i <= n,
            n == x@.len(),
            x@ == old(x)@,
            1 <= c <= 16,
            out@.len() == i,
            carry < c,
            val64(out@) + carry * vstd::arithmetic::power2::pow2(64 * i as nat) == c * val64(
                x@.take(i as int),
            ),
        decreases n - i,
    {
        proof {
            assert((x@[i as int] as int) * (c as int) + (carry as int)
                < 0x8000_0000_0000_0000_0000_0000_0000_0000int) by (nonlinear_arith)
                requires
                    x@[i as int] < 0x1_0000_0000_0000_0000,
                    c <= 16,
                    carry < c,
            ;
        }
        let wide: u128 = (x[i] as u128) * (c as u128) + (carry as u128);
        let lo: u64 = (wide % 0x1_0000_0000_0000_0000) as u64;
        let hi: u64 = (wide / 0x1_0000_0000_0000_0000) as u64;
        let ghost out0 = out@;
        out.push(lo);
        proof {
            assert(wide < (c as u128) * 0x1_0000_0000_0000_0000) by (nonlinear_arith)
                requires
                    wide == (x@[i as int] as u128) * (c as u128) + (carry as u128),
                    x@[i as int] < 0x1_0000_0000_0000_0000,
                    carry < c,
                    1 <= c,
            ;
            lemma_val64_snoc(out0, lo);
            lemma_val64_snoc(x@.take(i as int), x@[i as int]);
            assert(x@.take(i as int).push(x@[i as int]) =~= x@.take(i as int + 1));
            lemma_pow2_pos(64 * i as nat);
            lemma_pow2_adds(64 * i as nat, 64);
            assert(vstd::arithmetic::power2::pow2(64) == 0x1_0000_0000_0000_0000) by {
                lemma2_to64_rest();
            }
            let p = vstd::arithmetic::power2::pow2(64 * i as nat) as int;
            assert(val64(out0) + (lo as int) * p + (hi as int) * (p * 0x1_0000_0000_0000_0000) == (
            c as int) * (val64(x@.take(i as int)) + (x@[i as int] as int) * p)) by (nonlinear_arith)
                requires
                    val64(out0) + (carry as int) * p == (c as int) * val64(x@.take(i as int)),
                    (lo as int) + 0x1_0000_0000_0000_0000 * (hi as int) == (c as int) * (x@[
                        i as int] as int) + carry,
                    p >= 1,
            ;
        }
        carry = hi;
        i += 1;
    }
    proof {
        assert(x@.take(n as int) =~= x@);
    }
    *x = out;
    carry
}

/// `x := c * x` at fixed length for a value known to fit.
pub fn mulc_limbs_fixed(x: &mut Vec<u64>, c: u64)
    requires
        1 <= c <= 16,
        c * val64(old(x)@) < vstd::arithmetic::power2::pow2(64 * old(x)@.len()),
    ensures
        val64(final(x)@) == c * val64(old(x)@),
        final(x)@.len() == old(x)@.len(),
{
    let carry = mulc_carry_limbs(x, c);
    proof {
        lemma_val64_bound(x@);
        lemma_pow2_pos(64 * x@.len());
        if carry > 0 {
            let p = vstd::arithmetic::power2::pow2(64 * x@.len()) as int;
            assert((carry as int) * p >= p) by (nonlinear_arith)
                requires
                    carry >= 1,
                    p >= 1,
            ;
        }
    }
}

/// Whether `val64(a) >= val64(b)` for equal-length vectors.
pub fn limbs_ge(a: &Vec<u64>, b: &Vec<u64>) -> (r: bool)
    requires
        a@.len() == b@.len(),
    ensures
        r == (val64(a@) >= val64(b@)),
{
    let n = a.len();
    let mut i: usize = n;
    while i > 0
        invariant
            i <= n,
            n == a@.len() == b@.len(),
            forall|j: int| i <= j < n ==> a@[j] == b@[j],
        decreases i,
    {
        if a[i - 1] != b[i - 1] {
            proof {
                lemma_val64_split(a@, i as int);
                lemma_val64_split(b@, i as int);
                assert(a@.skip(i as int) =~= b@.skip(i as int));
                lemma_val64_split(a@, i as int - 1);
                lemma_val64_split(b@, i as int - 1);
                lemma_val64_bound(a@.take(i as int - 1));
                lemma_val64_bound(b@.take(i as int - 1));
                assert(a@.take(i as int - 1).push(a@[i as int - 1]) =~= a@.take(i as int));
                assert(b@.take(i as int - 1).push(b@[i as int - 1]) =~= b@.take(i as int));
                lemma_val64_snoc(a@.take(i as int - 1), a@[i as int - 1]);
                lemma_val64_snoc(b@.take(i as int - 1), b@[i as int - 1]);
                let p = vstd::arithmetic::power2::pow2(64 * (i - 1) as nat) as int;
                let q = vstd::arithmetic::power2::pow2(64 * i as nat) as int;
                let hv = val64(a@.skip(i as int));
                if a@[i as int - 1] > b@[i as int - 1] {
                    assert(val64(a@.take(i as int)) > val64(b@.take(i as int)))
                        by (nonlinear_arith)
                        requires
                            val64(a@.take(i as int)) == val64(a@.take(i as int - 1)) + (a@[
                                i as int - 1] as int) * p,
                            val64(b@.take(i as int)) == val64(b@.take(i as int - 1)) + (b@[
                                i as int - 1] as int) * p,
                            a@[i as int - 1] as int >= b@[i as int - 1] as int + 1,
                            0 <= val64(a@.take(i as int - 1)) < p,
                            0 <= val64(b@.take(i as int - 1)) < p,
                    ;
                } else {
                    assert(val64(b@.take(i as int)) > val64(a@.take(i as int)))
                        by (nonlinear_arith)
                        requires
                            val64(a@.take(i as int)) == val64(a@.take(i as int - 1)) + (a@[
                                i as int - 1] as int) * p,
                            val64(b@.take(i as int)) == val64(b@.take(i as int - 1)) + (b@[
                                i as int - 1] as int) * p,
                            b@[i as int - 1] as int >= a@[i as int - 1] as int + 1,
                            0 <= val64(a@.take(i as int - 1)) < p,
                            0 <= val64(b@.take(i as int - 1)) < p,
                    ;
                }
            }
            return a[i - 1] > b[i - 1];
        }
        i -= 1;
    }
    proof {
        assert(a@ =~= b@);
    }
    true
}

/// `a := a - b` for equal-length vectors with `val64(b) <= val64(a)`.
pub fn sub_limbs(a: &mut Vec<u64>, b: &Vec<u64>)
    requires
        old(a)@.len() == b@.len(),
        val64(b@) <= val64(old(a)@),
    ensures
        val64(final(a)@) == val64(old(a)@) - val64(b@),
        final(a)@.len() == old(a)@.len(),
{
    let n = a.len();
    let mut out: Vec<u64> = Vec::new();
    let mut borrow: u64 = 0;
    let mut i: usize = 0;
    proof {
        assert(out@ =~= Seq::<u64>::empty());
        assert(old(a)@.take(0) =~= Seq::<u64>::empty());
        assert(b@.take(0) =~= Seq::<u64>::empty());
        lemma2_to64();
    }
    while i < n
        invariant
            i <= n,
            n == a@.len() == b@.len(),
            a@ == old(a)@,
            out@.len() == i,
            borrow <= 1,
            val64(out@) == val64(a@.take(i as int)) - val64(b@.take(i as int)) + borrow
                * vstd::arithmetic::power2::pow2(64 * i as nat),
        decreases n - i,
    {
        let ai: u128 = a[i] as u128;
        let need: u128 = (b[i] as u128) + (borrow as u128);
        let (lo, nb): (u64, u64) = if ai >= need {
            ((ai - need) as u64, 0)
        } else {
            ((ai + 0x1_0000_0000_0000_0000 - need) as u64, 1)
        };
        let ghost out0 = out@;
        out.push(lo);
        proof {
            lemma_val64_snoc(out0, lo);
            lemma_val64_snoc(a@.take(i as int), a@[i as int]);
            lemma_val64_snoc(b@.take(i as int), b@[i as int]);
            assert(a@.take(i as int).push(a@[i as int]) =~= a@.take(i as int + 1));
            assert(b@.take(i as int).push(b@[i as int]) =~= b@.take(i as int + 1));
            lemma_pow2_pos(64 * i as nat);
            lemma_pow2_adds(64 * i as nat, 64);
            assert(vstd::arithmetic::power2::pow2(64) == 0x1_0000_0000_0000_0000) by {
                lemma2_to64_rest();
            }
            let p = vstd::arithmetic::power2::pow2(64 * i as nat) as int;
            assert((lo as int) == (a@[i as int] as int) - (b@[i as int] as int) - borrow + (
            nb as int) * 0x1_0000_0000_0000_0000);
            assert(val64(out0) + (lo as int) * p == (val64(a@.take(i as int)) + (a@[
                i as int] as int) * p) - (val64(b@.take(i as int)) + (b@[i as int] as int) * p) + (
            nb as int) * (p * 0x1_0000_0000_0000_0000)) by (nonlinear_arith)
                requires
                    val64(out0) == val64(a@.take(i as int)) - val64(b@.take(i as int)) + (
                    borrow as int) * p,
                    (lo as int) == (a@[i as int] as int) - (b@[i as int] as int) - borrow + (
                    nb as int) * 0x1_0000_0000_0000_0000,
                    p >= 1,
            ;
        }
        borrow = nb;
        i += 1;
    }
    proof {
        assert(a@.take(n as int) =~= a@);
        assert(b@.take(n as int) =~= b@);
        if borrow == 1 {
            lemma_val64_bound(out@);
            lemma_pow2_pos(64 * n as nat);
        }
    }
    *a = out;
}

/// Whether the vector denotes zero.
pub fn limbs_is_zero(x: &Vec<u64>) -> (r: bool)
    ensures
        r == (val64(x@) == 0),
{
    let mut i: usize = 0;
    while i < x.len()
        invariant
            i <= x@.len(),
            forall|j: int| 0 <= j < i ==> (#[trigger] x@[j]) == 0,
        decreases x@.len() - i,
    {
        if x[i] != 0 {
            proof {
                lemma_val64_zero(x@);
            }
            return false;
        }
        i += 1;
    }
    proof {
        lemma_val64_zero(x@);
    }
    true
}

/// A digit vector with its top digit set denotes at least `10^(len-1)`.
pub proof fn lemma_val10_lower(s: Seq<u8>)
    requires
        s.len() > 0,
        s.last() != 0,
    ensures
        val10(s) >= pow10n((s.len() - 1) as nat),
    decreases s.len(),
{
    if s.len() == 1 {
        assert(s.drop_first() =~= Seq::<u8>::empty());
        assert(val10(Seq::<u8>::empty()) == 0);
        assert(s[0] == s.last());
    } else {
        assert(s.drop_first().last() == s.last());
        lemma_val10_lower(s.drop_first());
    }
}

/// Twice a digit vector, with no leading zero.
pub fn double_digits10(x: &Vec<u8>) -> (r: Vec<u8>)
    requires
        forall|i: int| 0 <= i < x@.len() ==> (#[trigger] x@[i]) < 10,
        x@.len() > 0,
        x@.last() != 0,
    ensures
        val10(r@) == 2 * val10(x@),
        forall|i: int| 0 <= i < r@.len() ==> (#[trigger] r@[i]) < 10,
        r@.len() > 0,
        r@.last() != 0,
{
    let n = x.len();
    let mut out: Vec<u8> = Vec::new();
    let mut carry: u8 = 0;
    let mut i: usize = 0;
    proof {
        assert(out@ =~= Seq::<u8>::empty());
        assert(x@.take(0) =~= Seq::<u8>::empty());
        assert(val10(Seq::<u8>::empty()) == 0);
    }
    while i < n
        invariant
            i <= n,
            n == x@.len(),
            forall|j: int| 0 <= j < x@.len() ==> (#[trigger] x@[j]) < 10,
            out@.len() == i,
            carry <= 1,
            forall|j: int| 0 <= j < out@.len() ==> (#[trigger] out@[j]) < 10,
            val10(out@) + carry * pow10n(i as nat) == 2 * val10(x@.take(i as int)),
        decreases n - i,
    {
        let w: u8 = 2 * x[i] + carry;
        let lo: u8 = w % 10;
        let hi: u8 = w / 10;
        let ghost out0 = out@;
        out.push(lo);
        proof {
            lemma_val10_snoc(out0, lo);
            lemma_val10_snoc(x@.take(i as int), x@[i as int]);
            assert(x@.take(i as int).push(x@[i as int]) =~= x@.take(i as int + 1));
            lemma_pow10n_pos(i as nat);
            let p = pow10n(i as nat);
            assert(val10(out0) + (lo as int) * p + (hi as int) * (10 * p) == 2 * (val10(
                x@.take(i as int),
            ) + (x@[i as int] as int) * p)) by (nonlinear_arith)
                requires
                    val10(out0) + (carry as int) * p == 2 * val10(x@.take(i as int)),
                    (lo as int) + 10 * (hi as int) == 2 * (x@[i as int] as int) + carry,
                    p >= 1,
            ;
        }
        carry = hi;
        i += 1;
    }
    proof {
        assert(x@.take(n as int) =~= x@);
    }
    if carry > 0 {
        let ghost outv = out@;
        out.push(carry);
        proof {
            lemma_val10_snoc(outv, carry);
        }
        out
    } else {
        proof {
            lemma_val10_lower(x@);
            lemma_val10_bound(out@);
            if out@.last() == 0 {
                assert(out@.drop_last().push(0) =~= out@);
                lemma_val10_snoc(out@.drop_last(), 0);
                lemma_val10_bound(out@.drop_last());
                lemma_pow10n_pos((n - 1) as nat);
                assert(val10(out@) == 2 * val10(x@));
                assert(val10(x@) >= pow10n((n - 1) as nat));
                assert(false);
            }
        }
        out
    }
}

} // verus!
