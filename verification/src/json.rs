//! The JSON codec: a recursive-descent parser from bytes to values and a
//! serializer from values to UTF-8 text.
use vstd::prelude::*;
use vstd::string::StrSliceExecFns;
use vstd::string::StringExecFns;

use crate::dynamic::{
    aview, entries_rep, entries_set, entries_to_obj, eview, has_tree, insert_entry,
    lemma_aview_index, lemma_eview_index, represents, sorted_entries, tree_of, Dynamic, Store,
    StoreV, Tree, Val,
};
use crate::skip_white;

verus! {

/// Error returned by the JSON parser.
#[derive(Debug, Clone, Copy, PartialEq, Eq, Structural)]
pub enum JsonError {
    /// The input ended while whitespace was being skipped.
    EndOfInput,
    /// A string broke off right after a backslash or inside a unicode
    /// escape.
    BadString,
    /// An escape letter outside the supported set.
    UnknownEscape,
    /// An object member did not start with a string key.
    NeedKey,
    /// The colon after an object key is missing.
    NeedColon,
    /// A numeric token that does not parse as a number of the expected
    /// kind, or one whose value this codec cannot represent.
    BadNumber,
    /// String content that is not valid UTF-8.
    BadUtf8,
}

/// One decimal digit as a character.
pub open spec fn digit_char(d: int) -> char {
    (0x30 + d) as char
}

/// The decimal digits of `n`, most significant first.
pub open spec fn nat_chars(n: nat) -> Seq<char>
    decreases n,
{
    if n < 10 {
        seq![digit_char(n as int)]
    } else {
        nat_chars(n / 10) + seq![digit_char((n % 10) as int)]
    }
}

/// The decimal text of a signed integer.
pub open spec fn int_chars(v: int) -> Seq<char> {
    if v < 0 {
        seq!['-'] + nat_chars((-v) as nat)
    } else {
        nat_chars(v as nat)
    }
}

/// The decimal digits, most significant first, read from a reversed digit
/// buffer (least significant digit first).
pub open spec fn rev_digit_chars(ds: Seq<u8>) -> Seq<char> {
    Seq::new(ds.len(), |i: int| digit_char(ds[ds.len() - 1 - i] as int))
}

/// Pushes the decimal digits of `n` onto `buf`.
///
/// Relies on nothing outside the crate: digits are extracted by division
/// and appended as characters.
fn push_nat_u128(buf: &mut String, n: u128)
    ensures
        final(buf)@ == old(buf)@ + nat_chars(n as nat),
{
    let mut ds: Vec<u8> = Vec::new();
    let mut cur: u128 = n;
    if cur == 0 {
        push_char(buf, '0');
        proof {
            assert(nat_chars(0) =~= seq![digit_char(0)]);
            assert(final(buf)@ =~= old(buf)@ + nat_chars(n as nat));
        }
        return ;
    }
    proof {
        assert(rev_digit_chars(ds@) =~= Seq::<char>::empty());
        assert(nat_chars(n as nat) =~= nat_chars(n as nat) + rev_digit_chars(ds@));
    }
    while cur > 0
        invariant
            cur <= n,
            n > 0,
            forall|j: int| 0 <= j < ds@.len() ==> (#[trigger] ds@[j]) < 10,
            nat_chars(n as nat) == (if cur > 0 {
                nat_chars(cur as nat) + rev_digit_chars(ds@)
            } else {
                rev_digit_chars(ds@)
            }),
        decreases cur,
    {
        let d = (cur % 10) as u8;
        let ghost ds0 = ds@;
        ds.push(d);
        proof {
            assert(rev_digit_chars(ds@) =~= seq![digit_char(d as int)] + rev_digit_chars(ds0));
            if cur >= 10 {
                assert(nat_chars(cur as nat) == nat_chars((cur as nat) / 10) + seq![
                    digit_char(((cur as nat) % 10) as int),
                ]);
                assert(nat_chars((cur as nat) / 10) + (seq![digit_char(d as int)]
                    + rev_digit_chars(ds0)) =~= (nat_chars((cur as nat) / 10) + seq![
                    digit_char(d as int),
                ]) + rev_digit_chars(ds0));
            } else {
                assert(nat_chars(cur as nat) =~= seq![digit_char(d as int)]);
            }
        }
        cur = cur / 10;
    }
    let mut i: usize = ds.len();
    proof {
        assert(rev_digit_chars(ds@).skip(ds@.len() - i) =~= rev_digit_chars(ds@));
    }
    while i > 0
        invariant
            i <= ds@.len(),
            forall|j: int| 0 <= j < ds@.len() ==> (#[trigger] ds@[j]) < 10,
            nat_chars(n as nat) == rev_digit_chars(ds@),
            buf@ == old(buf)@ + rev_digit_chars(ds@).take(ds@.len() - i),
        decreases i,
    {
        let b = ds[i - 1];
        push_char(buf, (0x30 + b) as char);
        proof {
            assert(rev_digit_chars(ds@)[ds@.len() - i] == digit_char(ds@[i - 1] as int));
            assert(rev_digit_chars(ds@).take(ds@.len() - (i - 1)) =~= rev_digit_chars(ds@).take(
                ds@.len() - i,
            ).push(digit_char(ds@[i - 1] as int)));
        }
        i = i - 1;
    }
    proof {
        assert(rev_digit_chars(ds@).take(ds@.len() as int) =~= rev_digit_chars(ds@));
    }
}

/// The text `null`.
pub open spec fn jnull() -> Seq<char> {
    seq!['n', 'u', 'l', 'l']
}

/// The fraction digits of `r / 2^k`, produced by repeatedly multiplying
/// the remainder by ten; the expansion of a dyadic fraction is finite, so
/// the fuel only bounds the recursion and is never exhausted when it is at
/// least `k`.
pub open spec fn frac_chars(r: int, k: nat, fuel: nat) -> Seq<char>
    decreases fuel,
{
    if fuel == 0 || r <= 0 {
        Seq::empty()
    } else {
        let r10 = r * 10;
        let p = vstd::arithmetic::power2::pow2(k) as int;
        seq![digit_char(r10 / p)] + frac_chars(r10 % p, k, (fuel - 1) as nat)
    }
}

/// The decimal text a `Double` bit pattern serializes as: `NaN` and
/// signed `inf` for the non-finite patterns, a plain integer when the value
/// is integral, and the exact decimal expansion otherwise. The expansion
/// carries every digit of the value rather than a shortest form that would
/// reparse to the same pattern: shortest-form selection needs the floating
/// arithmetic this codec deliberately avoids, while the exact expansion is
/// plain integer work and reparses to the identical pattern.
pub open spec fn dbl_chars(bits: u64) -> Seq<char> {
    let sign = bits >> 63;
    let e = (bits >> 52) & 0x7ff;
    let f = bits & 0xf_ffff_ffff_ffff;
    let sgn: Seq<char> = if sign == 1 {
        seq!['-']
    } else {
        Seq::empty()
    };
    if e == 0x7ff {
        if f == 0 {
            sgn + seq!['i', 'n', 'f']
        } else {
            seq!['N', 'a', 'N']
        }
    } else {
        let m: int = if e == 0 {
            f as int
        } else {
            f as int + 0x10_0000_0000_0000
        };
        let ex: int = if e == 0 {
            -1074
        } else {
            e as int - 1075
        };
        if m == 0 {
            sgn + seq!['0']
        } else if ex >= 0 {
            sgn + nat_chars((m * vstd::arithmetic::power2::pow2(ex as nat)) as nat)
        } else {
            let k = (-ex) as nat;
            let p = vstd::arithmetic::power2::pow2(k) as int;
            let ip = m / p;
            let fr = m % p;
            if fr == 0 {
                sgn + nat_chars(ip as nat)
            } else {
                sgn + nat_chars(ip as nat) + seq!['.'] + frac_chars(fr, k, 1200)
            }
        }
    }
}

/// Two raised to the power `k`, as a 128-bit value.
fn pow2_u128(k: u64) -> (r: u128)
    requires
        k <= 123,
    ensures
        r as nat == vstd::arithmetic::power2::pow2(k as nat),
        r >= 1,
{
    let mut p: u128 = 1;
    let mut i: u64 = 0;
    proof {
        vstd::arithmetic::power2::lemma2_to64();
        vstd::arithmetic::power2::lemma2_to64_rest();
        vstd::arithmetic::power2::lemma_pow2_adds(64, 59);
    }
    while i < k
        invariant
            i <= k <= 123,
            p as nat == vstd::arithmetic::power2::pow2(i as nat),
        decreases k - i,
    {
        proof {
            vstd::arithmetic::power2::lemma_pow2_pos(i as nat);
            vstd::arithmetic::power2::lemma2_to64();
            vstd::arithmetic::power2::lemma2_to64_rest();
            vstd::arithmetic::power2::lemma_pow2_adds(64, 59);
            if (i as nat) < 123 {
                vstd::arithmetic::power2::lemma_pow2_strictly_increases(i as nat, 123);
            }
            assert(vstd::arithmetic::power2::pow2((i + 1) as nat) == 2 * vstd::arithmetic::power2::pow2(i as nat)) by {
                vstd::arithmetic::power2::lemma_pow2_unfold((i + 1) as nat);
            }
        }
        p = p * 2;
        i = i + 1;
    }
    proof {
        vstd::arithmetic::power2::lemma_pow2_pos(k as nat);
    }
    p
}

/// The decimal digit characters of a digit vector, most significant first.
proof fn lemma_digits_chars(ds: Seq<u8>)
    requires
        forall|i: int| 0 <= i < ds.len() ==> (#[trigger] ds[i]) < 10,
        ds.len() > 0,
        ds.last() != 0,
    ensures
        nat_chars(crate::bignum::val10(ds) as nat) == rev_digit_chars(ds),
    decreases ds.len(),
{
    let v = crate::bignum::val10(ds);
    crate::bignum::lemma_val10_bound(ds);
    if ds.len() == 1 {
        assert(ds.drop_first() =~= Seq::<u8>::empty());
        assert(crate::bignum::val10(Seq::<u8>::empty()) == 0);
        assert(nat_chars(v as nat) =~= seq![digit_char(ds[0] as int)]);
        assert(rev_digit_chars(ds) =~= seq![digit_char(ds[0] as int)]);
    } else {
        let d = ds.drop_first();
        assert(d.last() == ds.last());
        crate::bignum::lemma_val10_pos(d);
        lemma_digits_chars(d);
        let v2 = crate::bignum::val10(d);
        vstd::arithmetic::div_mod::lemma_fundamental_div_mod_converse(v, 10, v2, ds[0] as int);
        assert(v >= 10);
        assert(nat_chars(v as nat) == nat_chars(v2 as nat) + seq![digit_char(ds[0] as int)]);
        assert(rev_digit_chars(ds) =~= rev_digit_chars(d) + seq![digit_char(ds[0] as int)]);
    }
}

/// The decimal digits of a positive value, least significant first.
fn u64_to_digits(n: u64) -> (r: Vec<u8>)
    requires
        n >= 1,
    ensures
        crate::bignum::val10(r@) == n,
        forall|i: int| 0 <= i < r@.len() ==> (#[trigger] r@[i]) < 10,
        r@.len() > 0,
        r@.last() != 0,
{
    let mut ds: Vec<u8> = Vec::new();
    let mut cur: u64 = n;
    proof {
        assert(ds@ =~= Seq::<u8>::empty());
        assert(crate::bignum::val10(Seq::<u8>::empty()) == 0);
        let p = crate::bignum::pow10n(0);
        assert(p == 1);
        assert((n as int) * p == n) by (nonlinear_arith)
            requires
                p == 1,
        ;
    }
    while cur > 0
        invariant
            forall|i: int| 0 <= i < ds@.len() ==> (#[trigger] ds@[i]) < 10,
            crate::bignum::val10(ds@) + cur * crate::bignum::pow10n(ds@.len()) == n,
            cur > 0 || (ds@.len() > 0 && ds@.last() != 0),
            cur <= n,
        decreases cur,
    {
        let d = (cur % 10) as u8;
        let ghost ds0 = ds@;
        ds.push(d);
        proof {
            crate::bignum::lemma_val10_snoc(ds0, d);
            crate::bignum::lemma_pow10n_pos(ds0.len());
            let p = crate::bignum::pow10n(ds0.len());
            assert((cur as int) * p == (d as int) * p + ((cur / 10) as int) * (10 * p))
                by (nonlinear_arith)
                requires
                    (cur as int) == d + 10 * ((cur / 10) as int),
                    p >= 1,
            ;
        }
        cur = cur / 10;
    }
    ds
}

/// Appends the decimal text of the digit vector's value, most significant
/// digit first.
fn push_digits(buf: &mut String, ds: &Vec<u8>)
    requires
        forall|i: int| 0 <= i < ds@.len() ==> (#[trigger] ds@[i]) < 10,
        ds@.len() > 0,
        ds@.last() != 0,
    ensures
        final(buf)@ == old(buf)@ + nat_chars(crate::bignum::val10(ds@) as nat),
{
    let mut i: usize = ds.len();
    proof {
        assert(rev_digit_chars(ds@).take(0) =~= Seq::<char>::empty());
        assert(buf@ + rev_digit_chars(ds@).take(0) =~= buf@);
    }
    while i > 0
        invariant
            i <= ds@.len(),
            forall|j: int| 0 <= j < ds@.len() ==> (#[trigger] ds@[j]) < 10,
            buf@ == old(buf)@ + rev_digit_chars(ds@).take(ds@.len() - i),
        decreases i,
    {
        let b = ds[i - 1];
        push_char(buf, (0x30 + b) as char);
        proof {
            assert(rev_digit_chars(ds@)[ds@.len() - i] == digit_char(ds@[i - 1] as int));
            assert(rev_digit_chars(ds@).take(ds@.len() - (i - 1)) =~= rev_digit_chars(ds@).take(
                ds@.len() - i,
            ).push(digit_char(ds@[i - 1] as int)));
        }
        i = i - 1;
    }
    proof {
        assert(rev_digit_chars(ds@).take(ds@.len() as int) =~= rev_digit_chars(ds@));
        lemma_digits_chars(ds@);
    }
}

/// Pushes the decimal text of the `Double` bit pattern `bits` onto `buf`:
/// the sign, then the integral part, then the exact expansion of the
/// dyadic fraction, computed in big-number arithmetic.
#[verifier::rlimit(100)]
#[verifier::spinoff_prover]
fn push_double(buf: &mut String, bits: u64)
    ensures
        final(buf)@ == old(buf)@ + dbl_chars(bits),
{
    let sign: u64 = bits >> 63;
    let e: u64 = (bits >> 52) & 0x7ff;
    let f: u64 = bits & 0xf_ffff_ffff_ffff;
    proof {
        assert((bits >> 63) <= 1 && ((bits >> 52) & 0x7ff) <= 0x7ff && (bits
            & 0xf_ffff_ffff_ffff) < 0x10_0000_0000_0000) by (bit_vector);
    }
    let ghost b0 = buf@;
    if e == 0x7ff {
        if f == 0 {
            if sign == 1 {
                push_char(buf, '-');
            }
            push_char(buf, 'i');
            push_char(buf, 'n');
            push_char(buf, 'f');
        } else {
            push_char(buf, 'N');
            push_char(buf, 'a');
            push_char(buf, 'N');
        }
        proof {
            assert(buf@ =~= b0 + dbl_chars(bits));
        }
        return ;
    }
    let m: u64 = if e == 0 {
        f
    } else {
        f + 0x10_0000_0000_0000
    };
    if m == 0 {
        if sign == 1 {
            push_char(buf, '-');
        }
        push_char(buf, '0');
        proof {
            assert(buf@ =~= b0 + dbl_chars(bits));
        }
        return ;
    }
    if e >= 1075 {
        // an integral value: m * 2^(e - 1075), expanded in decimal digits
        let ex: u64 = e - 1075;
        if sign == 1 {
            push_char(buf, '-');
        }
        let mut ds = u64_to_digits(m);
        let mut i: u64 = 0;
        proof {
            vstd::arithmetic::power2::lemma2_to64();
            let q = vstd::arithmetic::power2::pow2(0) as int;
            assert((m as int) * q == m) by (nonlinear_arith)
                requires
                    q == 1,
            ;
        }
        while i < ex
            invariant
                i <= ex <= 971,
                m >= 1,
                forall|j: int| 0 <= j < ds@.len() ==> (#[trigger] ds@[j]) < 10,
                ds@.len() > 0,
                ds@.last() != 0,
                crate::bignum::val10(ds@) == (m as int) * vstd::arithmetic::power2::pow2(
                    i as nat,
                ),
            decreases ex - i,
        {
            ds = crate::bignum::double_digits10(&ds);
            proof {
                vstd::arithmetic::power2::lemma_pow2_unfold((i + 1) as nat);
                let p = vstd::arithmetic::power2::pow2(i as nat) as int;
                assert(2 * ((m as int) * p) == (m as int) * (2 * p)) by (nonlinear_arith);
            }
            i = i + 1;
        }
        push_digits(buf, &ds);
        proof {
            assert(buf@ =~= b0 + dbl_chars(bits));
        }
        return ;
    }
    // a fractional value: split m * 2^(e - 1075) at the decimal point
    let k: u64 = if e == 0 {
        1074
    } else {
        1075 - e
    };
    if sign == 1 {
        push_char(buf, '-');
    }
    proof {
        if k >= 53 {
            if (k as nat) > 53 {
                vstd::arithmetic::power2::lemma_pow2_strictly_increases(53, k as nat);
            }
            vstd::arithmetic::power2::lemma2_to64_rest();
            vstd::arithmetic::div_mod::lemma_fundamental_div_mod_converse(
                m as int,
                vstd::arithmetic::power2::pow2(k as nat) as int,
                0,
                m as int,
            );
        }
    }
    let (ip, fr): (u64, u64) = if k >= 53 {
        (0, m)
    } else {
        let p = pow2_u128(k);
        proof {
            let pk = vstd::arithmetic::power2::pow2(k as nat) as int;
            vstd::arithmetic::power2::lemma_pow2_pos(k as nat);
            vstd::arithmetic::div_mod::lemma_fundamental_div_mod(m as int, pk);
            let q = (m as int) / pk;
            let rem = (m as int) % pk;
            assert(q <= m) by (nonlinear_arith)
                requires
                    q * pk + rem == m,
                    rem >= 0,
                    pk >= 1,
                    q >= 0,
            ;
        }
        (((m as u128) / p) as u64, ((m as u128) % p) as u64)
    };
    push_nat_u128(buf, ip as u128);
    proof {
        vstd::arithmetic::power2::lemma_pow2_pos(k as nat);
        assert(ip as int == (m as int) / (vstd::arithmetic::power2::pow2(k as nat) as int));
        assert(fr as int == (m as int) % (vstd::arithmetic::power2::pow2(k as nat) as int));
        assert(fr < vstd::arithmetic::power2::pow2(k as nat));
    }
    if fr == 0 {
        proof {
            assert(buf@ =~= b0 + dbl_chars(bits));
        }
        return ;
    }
    push_char(buf, '.');
    let ghost bh = buf@;
    let ghost fr0 = fr as int;
    // hold the remainder scaled by 2^(64 L - k) in L limbs; multiplying by
    // ten then makes the carry out of the top limb the next decimal digit
    let ell: usize = (k / 64 + 1) as usize;
    let sh: u64 = 64 * (ell as u64) - k;
    let mut x = crate::bignum::limbs_from_u64(fr);
    crate::bignum::pad_limbs(&mut x, ell);
    let mut j: u64 = 0;
    proof {
        vstd::arithmetic::power2::lemma2_to64();
        let q = vstd::arithmetic::power2::pow2(0) as int;
        assert((fr as int) * q == fr) by (nonlinear_arith)
            requires
                q == 1,
        ;
    }
    while j < sh
        invariant
            j <= sh,
            sh == 64 * (ell as int) - k,
            1 <= k <= 1074,
            ell == k / 64 + 1,
            x@.len() == ell,
            0 < fr0 < vstd::arithmetic::power2::pow2(k as nat),
            crate::bignum::val64(x@) == fr0 * vstd::arithmetic::power2::pow2(j as nat),
        decreases sh - j,
    {
        proof {
            vstd::arithmetic::power2::lemma_pow2_adds(k as nat, j as nat);
            vstd::arithmetic::power2::lemma_pow2_pos(j as nat);
            vstd::arithmetic::power2::lemma_pow2_pos(k as nat);
            let pk = vstd::arithmetic::power2::pow2(k as nat) as int;
            let pj = vstd::arithmetic::power2::pow2(j as nat) as int;
            assert(fr0 * pj < pk * pj) by (nonlinear_arith)
                requires
                    fr0 < pk,
                    pj >= 1,
            ;
            assert(2 * (fr0 * pj) == fr0 * (2 * pj)) by (nonlinear_arith);
            vstd::arithmetic::power2::lemma_pow2_unfold((j + 1) as nat);
            if (k + j + 1) as nat <= (64 * (ell as nat)) {
                if ((k + j + 1) as nat) < 64 * (ell as nat) {
                    vstd::arithmetic::power2::lemma_pow2_strictly_increases(
                        (k + j + 1) as nat,
                        64 * (ell as nat),
                    );
                }
            }
            vstd::arithmetic::power2::lemma_pow2_adds((k + j) as nat, 1);
            vstd::arithmetic::power2::lemma_pow2_unfold(1);
            vstd::arithmetic::power2::lemma2_to64();
        }
        crate::bignum::double_limbs(&mut x);
        j = j + 1;
    }
    let mut fuel: u64 = 1200;
    let ghost rr: int = fr0;
    proof {
        vstd::arithmetic::power2::lemma_pow2_adds(k as nat, sh as nat);
    }
    while fuel > 0
        invariant
            x@.len() == ell,
            ell == k / 64 + 1,
            1 <= k <= 1074,
            sh == 64 * (ell as int) - k,
            fuel <= 1200,
            0 <= rr < vstd::arithmetic::power2::pow2(k as nat),
            crate::bignum::val64(x@) == rr * vstd::arithmetic::power2::pow2(sh as nat),
            buf@ + frac_chars(rr, k as nat, fuel as nat) == bh + frac_chars(fr0, k as nat, 1200),
        decreases fuel,
    {
        if crate::bignum::limbs_is_zero(&x) {
            proof {
                vstd::arithmetic::power2::lemma_pow2_pos(sh as nat);
                let ps = vstd::arithmetic::power2::pow2(sh as nat) as int;
                assert(rr == 0) by (nonlinear_arith)
                    requires
                        rr * ps == 0,
                        ps >= 1,
                        rr >= 0,
                ;
                assert(frac_chars(rr, k as nat, fuel as nat) =~= Seq::<char>::empty());
                assert(frac_chars(rr, k as nat, 0) =~= Seq::<char>::empty());
                assert(buf@ + Seq::<char>::empty() =~= buf@);
            }
            fuel = 0;
        } else {
            let ghost xv0 = crate::bignum::val64(x@);
            let d = crate::bignum::mulc_carry_limbs(&mut x, 10);
            proof {
                let pk = vstd::arithmetic::power2::pow2(k as nat) as int;
                let ps = vstd::arithmetic::power2::pow2(sh as nat) as int;
                let pb = vstd::arithmetic::power2::pow2(64 * (ell as nat)) as int;
                vstd::arithmetic::power2::lemma_pow2_pos(k as nat);
                vstd::arithmetic::power2::lemma_pow2_pos(sh as nat);
                vstd::arithmetic::power2::lemma_pow2_adds(k as nat, sh as nat);
                assert(pb == pk * ps);
                vstd::arithmetic::div_mod::lemma_fundamental_div_mod(rr * 10, pk);
                let q = (rr * 10) / pk;
                let rem = (rr * 10) % pk;
                crate::bignum::lemma_val64_bound(x@);
                // 10 * (rr * 2^sh) decomposes both as the limb multiply did
                // and as (q * 2^k + rem) * 2^sh; quotients at base 2^(64 ell)
                // are unique, so the carry is the decimal digit
                assert(10 * (rr * ps) == q * (pk * ps) + rem * ps) by (nonlinear_arith)
                    requires
                        rr * 10 == pk * q + rem,
                ;
                assert(rem * ps < pk * ps) by (nonlinear_arith)
                    requires
                        rem < pk,
                        ps >= 1,
                ;
                assert(rem * ps >= 0) by (nonlinear_arith)
                    requires
                        rem >= 0,
                        ps >= 1,
                ;
                vstd::arithmetic::div_mod::lemma_fundamental_div_mod_converse(
                    10 * xv0,
                    pb,
                    q,
                    rem * ps,
                );
                vstd::arithmetic::div_mod::lemma_fundamental_div_mod_converse(
                    10 * xv0,
                    pb,
                    d as int,
                    crate::bignum::val64(x@),
                );
                assert(d == q && crate::bignum::val64(x@) == rem * ps);
                assert(buf@.push(digit_char(q)) + frac_chars(rem, k as nat, (fuel - 1) as nat)
                    =~= buf@ + frac_chars(rr, k as nat, fuel as nat));
                rr = rem;
            }
            push_char(buf, (0x30 + (d as u8)) as char);
            fuel = fuel - 1;
        }
    }
    proof {
        assert(frac_chars(rr, k as nat, fuel as nat) =~= Seq::<char>::empty());
        assert(buf@ + Seq::<char>::empty() =~= buf@);
        assert(buf@ =~= b0 + dbl_chars(bits));
    }
}

/// Relies on std's String::push: appends one character.
#[verifier::external_body]
fn push_char(buf: &mut String, c: char)
    ensures
        final(buf)@ == old(buf)@.push(c),
{
    buf.push(c);
}

/// Pushes the decimal text of `v` onto `buf`.
pub fn push_i64(buf: &mut String, v: i64)
    ensures
        final(buf)@ == old(buf)@ + int_chars(v as int),
{
    if v < 0 {
        push_char(buf, '-');
        let mag: u128 = ((-(v + 1)) as u128) + 1;
        push_nat_u128(buf, mag);
        proof {
            assert(old(buf)@.push('-') =~= old(buf)@ + seq!['-']);
            assert((old(buf)@ + seq!['-']) + nat_chars(mag as nat) =~= old(buf)@ + (seq!['-']
                + nat_chars(mag as nat)));
        }
    } else {
        push_nat_u128(buf, v as u128);
    }
}

/// The characters a single character serializes as inside a JSON string:
/// quote, backslash, newline, carriage return and tab are escaped, every
/// other character is emitted verbatim.
pub open spec fn esc_char(c: char) -> Seq<char> {
    if c == '"' {
        seq!['\\', '"']
    } else if c == '\\' {
        seq!['\\', '\\']
    } else if c == '\n' {
        seq!['\\', 'n']
    } else if c == '\r' {
        seq!['\\', 'r']
    } else if c == '\t' {
        seq!['\\', 't']
    } else {
        seq![c]
    }
}

/// The escaped body of a JSON string.
pub open spec fn jesc(cs: Seq<char>) -> Seq<char>
    decreases cs.len(),
{
    if cs.len() == 0 {
        Seq::empty()
    } else {
        esc_char(cs[0]) + jesc(cs.drop_first())
    }
}

/// A quoted, escaped JSON string.
pub open spec fn jstr_chars(cs: Seq<char>) -> Seq<char> {
    seq!['"'] + jesc(cs) + seq!['"']
}

proof fn lemma_jesc_snoc(cs: Seq<char>, c: char)
    ensures
        jesc(cs.push(c)) == jesc(cs) + esc_char(c),
    decreases cs.len(),
{
    if cs.len() == 0 {
        assert(cs.push(c)[0] == c);
        assert(cs.push(c).drop_first() =~= Seq::<char>::empty());
        assert(jesc(Seq::<char>::empty()) == Seq::<char>::empty());
        assert(jesc(cs.push(c)) =~= jesc(cs) + esc_char(c));
    } else {
        lemma_jesc_snoc(cs.drop_first(), c);
        assert(cs.push(c).drop_first() =~= cs.drop_first().push(c));
        assert(cs.push(c)[0] == cs[0]);
        assert(esc_char(cs[0]) + (jesc(cs.drop_first()) + esc_char(c)) =~= (esc_char(cs[0]) + jesc(
            cs.drop_first(),
        )) + esc_char(c));
    }
}

/// Appends the escaped body of `s` to `buf`.
fn push_escaped(buf: &mut String, s: &str)
    ensures
        final(buf)@ == old(buf)@ + jesc(s@),
{
    let n = s.unicode_len();
    let mut i: usize = 0;
    proof {
        assert(s@.take(0) =~= Seq::<char>::empty());
        assert(buf@ + jesc(s@.take(0)) =~= buf@);
    }
    while i < n
        invariant
            i <= n,
            n == s@.len(),
            buf@ == old(buf)@ + jesc(s@.take(i as int)),
        decreases n - i,
    {
        let c = s.get_char(i);
        if c == '"' {
            push_char(buf, '\\');
            push_char(buf, '"');
        } else if c == '\\' {
            push_char(buf, '\\');
            push_char(buf, '\\');
        } else if c == '\n' {
            push_char(buf, '\\');
            push_char(buf, 'n');
        } else if c == '\r' {
            push_char(buf, '\\');
            push_char(buf, 'r');
        } else if c == '\t' {
            push_char(buf, '\\');
            push_char(buf, 't');
        } else {
            push_char(buf, c);
        }
        proof {
            lemma_jesc_snoc(s@.take(i as int), c);
            assert(s@.take(i as int).push(c) =~= s@.take(i as int + 1));
            assert(buf@ =~= old(buf)@ + jesc(s@.take(i as int + 1)));
        }
        i += 1;
    }
    proof {
        assert(s@.take(n as int) =~= s@);
    }
}

/// The JSON text of a value snapshot. `Int` and `Double` print as decimal
/// text, strings are quoted and escaped, arrays and objects separate their
/// elements with a comma and a newline, and object entries appear in
/// ascending key order, as the snapshot holds them. The `Byte`, `UInt`,
/// `Float` and `Bytes` variants have no JSON literal form and print as
/// `null`.
pub open spec fn jc_tree(t: Tree) -> Seq<char>
    decreases t,
{
    match t {
        Tree::Null => jnull(),
        Tree::Bool(b) => if b {
            seq!['t', 'r', 'u', 'e']
        } else {
            seq!['f', 'a', 'l', 's', 'e']
        },
        Tree::Int(i) => int_chars(i as int),
        Tree::Double(d) => dbl_chars(d),
        Tree::Str(cs) => jstr_chars(cs),
        Tree::Arr(ts) => seq!['['] + jc_list(ts) + seq![']'],
        Tree::Obj(es) => seq!['{'] + jc_entries(es) + seq!['}'],
        _ => jnull(),
    }
}

/// Array elements, separated by a comma and a newline.
pub open spec fn jc_list(ts: Seq<Tree>) -> Seq<char>
    decreases ts,
{
    if ts.len() == 0 {
        Seq::empty()
    } else if ts.len() == 1 {
        jc_tree(ts[0])
    } else {
        jc_tree(ts[0]) + seq![',', '\n'] + jc_list(ts.drop_first())
    }
}

/// Object entries, each `"key": value`, separated by a comma and a newline.
pub open spec fn jc_entries(es: Seq<(Seq<char>, Tree)>) -> Seq<char>
    decreases es,
{
    if es.len() == 0 {
        Seq::empty()
    } else if es.len() == 1 {
        jstr_chars(es[0].0) + seq![':', ' '] + jc_tree(es[0].1)
    } else {
        jstr_chars(es[0].0) + seq![':', ' '] + jc_tree(es[0].1) + seq![',', '\n'] + jc_entries(
            es.drop_first(),
        )
    }
}

proof fn lemma_jc_list_snoc(ts: Seq<Tree>, t: Tree)
    ensures
        jc_list(ts.push(t)) == jc_list(ts) + (if ts.len() == 0 {
            Seq::<char>::empty()
        } else {
            seq![',', '\n']
        }) + jc_tree(t),
    decreases ts.len(),
{
    if ts.len() == 0 {
        assert(ts.push(t)[0] == t);
        assert(jc_list(ts.push(t)) =~= jc_list(ts) + Seq::<char>::empty() + jc_tree(t));
    } else {
        lemma_jc_list_snoc(ts.drop_first(), t);
        assert(ts.push(t).drop_first() =~= ts.drop_first().push(t));
        assert(ts.push(t)[0] == ts[0]);
        assert(ts.push(t).len() == ts.len() + 1);
        if ts.len() == 1 {
            assert(jc_list(ts.push(t)) =~= jc_list(ts) + seq![',', '\n'] + jc_tree(t));
        } else {
            assert(jc_list(ts.push(t)) =~= jc_list(ts) + seq![',', '\n'] + jc_tree(t));
        }
    }
}

proof fn lemma_jc_entries_snoc(es: Seq<(Seq<char>, Tree)>, e: (Seq<char>, Tree))
    ensures
        jc_entries(es.push(e)) == jc_entries(es) + (if es.len() == 0 {
            Seq::<char>::empty()
        } else {
            seq![',', '\n']
        }) + jstr_chars(e.0) + seq![':', ' '] + jc_tree(e.1),
    decreases es.len(),
{
    if es.len() == 0 {
        assert(es.push(e)[0] == e);
        assert(jc_entries(es.push(e)) =~= jc_entries(es) + Seq::<char>::empty() + jstr_chars(e.0)
            + seq![':', ' '] + jc_tree(e.1));
    } else {
        lemma_jc_entries_snoc(es.drop_first(), e);
        assert(es.push(e).drop_first() =~= es.drop_first().push(e));
        assert(es.push(e)[0] == es[0]);
        assert(es.push(e).len() == es.len() + 1);
        assert(jc_entries(es.push(e)) =~= jc_entries(es) + seq![',', '\n'] + jstr_chars(e.0)
            + seq![':', ' '] + jc_tree(e.1));
    }
}

/// Serialization to JSON text, appended to a caller-supplied buffer.
pub trait ToJson {
    /// What must hold of the value in the given store for its text to be
    /// defined.
    spec fn json_ok(&self, s: StoreV) -> bool;

    /// The characters the serializer appends.
    spec fn json_chars(&self, s: StoreV) -> Seq<char>;

    /// Appends the value's JSON text to `buf`.
    fn to_json(&self, store: &Store, buf: &mut String)
        requires
            self.json_ok(store@),
        ensures
            final(buf)@ == old(buf)@ + self.json_chars(store@),
    ;
}

impl ToJson for i64 {
    open spec fn json_ok(&self, s: StoreV) -> bool {
        true
    }

    open spec fn json_chars(&self, s: StoreV) -> Seq<char> {
        int_chars(*self as int)
    }

    fn to_json(&self, store: &Store, buf: &mut String) {
        push_i64(buf, *self);
    }
}

impl ToJson for str {
    open spec fn json_ok(&self, s: StoreV) -> bool {
        true
    }

    open spec fn json_chars(&self, s: StoreV) -> Seq<char> {
        jstr_chars(self@)
    }

    /// Quotes the string, escaping only quote, backslash, newline,
    /// carriage return and tab.
    fn to_json(&self, store: &Store, buf: &mut String) {
        let ghost b0 = buf@;
        push_char(buf, '"');
        push_escaped(buf, self);
        push_char(buf, '"');
        proof {
            assert(buf@ =~= b0 + jstr_chars(self@));
        }
    }
}

/// Recursive serializer over the store, guided by the value's snapshot.
fn to_json_at(v: &Dynamic, store: &Store, buf: &mut String, Ghost(t): Ghost<Tree>)
    requires
        represents(store@, v@, t),
    ensures
        final(buf)@ == old(buf)@ + jc_tree(t),
    decreases t,
{
    let ghost b0 = buf@;
    match v {
        Dynamic::Null => {
            push_char(buf, 'n');
            push_char(buf, 'u');
            push_char(buf, 'l');
            push_char(buf, 'l');
            proof {
                assert(buf@ =~= b0 + jc_tree(t));
            }
        },
        Dynamic::Bool(b) => {
            if *b {
                push_char(buf, 't');
                push_char(buf, 'r');
                push_char(buf, 'u');
                push_char(buf, 'e');
            } else {
                push_char(buf, 'f');
                push_char(buf, 'a');
                push_char(buf, 'l');
                push_char(buf, 's');
                push_char(buf, 'e');
            }
            proof {
                assert(buf@ =~= b0 + jc_tree(t));
            }
        },
        Dynamic::Int(i) => {
            push_i64(buf, *i);
        },
        Dynamic::Double(d) => {
            push_double(buf, *d);
        },
        Dynamic::Str(s) => {
            s.as_str().to_json(store, buf);
        },
        Dynamic::Arr(h) => {
            let ghost ts = t->Arr_0;
            push_char(buf, '[');
            let ghost bh = buf@;
            let items = store.arr_slot(*h);
            let mut once = crate::ZOnce::new("", ",\n");
            let mut i: usize = 0;
            proof {
                reveal_strlit("");
                reveal_strlit(",\n");
                assert(""@ =~= Seq::<char>::empty());
                assert(",\n"@ =~= seq![',', '\n']);
                assert(ts.take(0) =~= Seq::<Tree>::empty());
                assert(buf@ + jc_list(ts.take(0)) =~= buf@);
            }
            while i < items.len()
                invariant
                    t == Tree::Arr(ts),
                    i <= items@.len(),
                    items@.len() == ts.len(),
                    forall|j: int|
                        0 <= j < ts.len() ==> represents(
                            store@,
                            aview(items@)[j],
                            #[trigger] ts[j],
                        ),
                    buf@ == bh + jc_list(ts.take(i as int)),
                    once.other@ == seq![',', '\n'],
                    i == 0 ==> (once.first matches Option::Some(s) && s@ == Seq::<char>::empty()),
                    i > 0 ==> once.first is None,
                decreases items@.len() - i,
            {
                proof {
                    broadcast use vstd::seq::group_seq_axioms;

                    lemma_aview_index(items@, i as int);
                    assert(decreases_to!(t => t->Arr_0));
                    assert(t->Arr_0 == ts);
                    assert(decreases_to!(ts => ts[i as int]));
                }
                let sep = once.take();
                buf.append(sep);
                to_json_at(&items[i], store, buf, Ghost(ts[i as int]));
                proof {
                    reveal_strlit("");
                    reveal_strlit(",\n");
                    assert(""@ =~= Seq::<char>::empty());
                    assert(",\n"@ =~= seq![',', '\n']);
                    assert(sep@ == (if i == 0 {
                        Seq::<char>::empty()
                    } else {
                        seq![',', '\n']
                    }));
                    assert(ts.take(i as int).len() == i);
                    lemma_jc_list_snoc(ts.take(i as int), ts[i as int]);
                    assert(ts.take(i as int).push(ts[i as int]) =~= ts.take(i as int + 1));
                    assert(buf@ =~= bh + jc_list(ts.take(i as int + 1)));
                }
                i += 1;
            }
            push_char(buf, ']');
            proof {
                assert(ts.take(ts.len() as int) =~= ts);
                assert(buf@ =~= b0 + jc_tree(t));
            }
        },
        Dynamic::Obj(h) => {
            let ghost es = t->Obj_0;
            push_char(buf, '{');
            let ghost bh = buf@;
            let entries = store.obj_slot(*h);
            let mut once = crate::ZOnce::new("", ",\n");
            let mut i: usize = 0;
            proof {
                reveal_strlit("");
                reveal_strlit(",\n");
                assert(""@ =~= Seq::<char>::empty());
                assert(",\n"@ =~= seq![',', '\n']);
                assert(es.take(0) =~= Seq::<(Seq<char>, Tree)>::empty());
                assert(buf@ + jc_entries(es.take(0)) =~= buf@);
            }
            while i < entries.len()
                invariant
                    t == Tree::Obj(es),
                    i <= entries@.len(),
                    entries@.len() == es.len(),
                    forall|j: int|
                        0 <= j < es.len() ==> eview(entries@)[j].0 == (#[trigger] es[j]).0
                            && represents(store@, eview(entries@)[j].1, es[j].1),
                    buf@ == bh + jc_entries(es.take(i as int)),
                    once.other@ == seq![',', '\n'],
                    i == 0 ==> (once.first matches Option::Some(s) && s@ == Seq::<char>::empty()),
                    i > 0 ==> once.first is None,
                decreases entries@.len() - i,
            {
                proof {
                    broadcast use vstd::seq::group_seq_axioms;

                    lemma_eview_index(entries@, i as int);
                    assert(decreases_to!(t => t->Obj_0));
                    assert(t->Obj_0 == es);
                    assert(decreases_to!(es => es[i as int]));
                    assert(decreases_to!(es[i as int] => es[i as int].1));
                }
                let sep = once.take();
                buf.append(sep);
                entries[i].0.as_str().to_json(store, buf);
                push_char(buf, ':');
                push_char(buf, ' ');
                to_json_at(&entries[i].1, store, buf, Ghost(es[i as int].1));
                proof {
                    reveal_strlit("");
                    reveal_strlit(",\n");
                    assert(""@ =~= Seq::<char>::empty());
                    assert(",\n"@ =~= seq![',', '\n']);
                    assert(sep@ == (if i == 0 {
                        Seq::<char>::empty()
                    } else {
                        seq![',', '\n']
                    }));
                    assert(es.take(i as int).len() == i);
                    lemma_jc_entries_snoc(es.take(i as int), es[i as int]);
                    assert(es.take(i as int).push(es[i as int]) =~= es.take(i as int + 1));
                    assert(buf@ =~= bh + jc_entries(es.take(i as int + 1)));
                }
                i += 1;
            }
            push_char(buf, '}');
            proof {
                assert(es.take(es.len() as int) =~= es);
                assert(buf@ =~= b0 + jc_tree(t));
            }
        },
        Dynamic::Byte(_) | Dynamic::UInt(_) | Dynamic::Float(_) | Dynamic::Bytes(_) => {
            // no JSON literal form: these serialize as null
            push_char(buf, 'n');
            push_char(buf, 'u');
            push_char(buf, 'l');
            push_char(buf, 'l');
            proof {
                assert(buf@ =~= b0 + jc_tree(t));
            }
        },
    }
}

impl ToJson for Dynamic {
    open spec fn json_ok(&self, s: StoreV) -> bool {
        has_tree(s, self@)
    }

    open spec fn json_chars(&self, s: StoreV) -> Seq<char> {
        jc_tree(tree_of(s, self@))
    }

    /// Walks the value's snapshot in the store and appends its JSON text.
    fn to_json(&self, store: &Store, buf: &mut String) {
        let ghost t = tree_of(store@, self@);
        proof {
            let witness = choose|w: Tree| represents(store@, self@, w);
            assert(represents(store@, self@, witness));
            crate::dynamic::lemma_represents_unique(store@, self@, witness, t);
        }
        to_json_at(self, store, buf, Ghost(t));
    }
}

/// Length of the whitespace prefix of `bytes`.
pub open spec fn ws_len(bytes: Seq<u8>) -> int
    decreases bytes.len(),
{
    if bytes.len() == 0 || !crate::is_white(bytes[0]) {
        0
    } else {
        1 + ws_len(bytes.drop_first())
    }
}

/// The first non-whitespace position characterizes the whitespace prefix
/// length.
pub proof fn lemma_ws_len_at(bytes: Seq<u8>, pos: int)
    requires
        0 <= pos <= bytes.len(),
        forall|j: int| 0 <= j < pos ==> crate::is_white(#[trigger] bytes[j]),
        pos < bytes.len() ==> !crate::is_white(bytes[pos]),
    ensures
        ws_len(bytes) == pos,
    decreases pos,
{
    if pos == 0 {
    } else {
        let d = bytes.drop_first();
        assert forall|j: int| 0 <= j < pos - 1 implies crate::is_white(#[trigger] d[j]) by {
            assert(d[j] == bytes[j + 1]);
        }
        lemma_ws_len_at(d, pos - 1);
    }
}

/// The bytes a numeric or literal token may be drawn from: digits, the
/// decimal point, the two signs, and the letters of `true`, `false` and
/// `null`.
pub open spec fn is_token_byte(b: u8) -> bool {
    (0x30 <= b <= 0x39) || b == 0x2e || b == 0x2d || b == 0x2b || b == 0x74 || b == 0x72 || b
        == 0x75 || b == 0x65 || b == 0x66 || b == 0x61 || b == 0x6c || b == 0x73 || b == 0x6e
}

/// Length of the token-byte prefix of `bytes`.
pub open spec fn tok_len(bytes: Seq<u8>) -> int
    decreases bytes.len(),
{
    if bytes.len() == 0 || !is_token_byte(bytes[0]) {
        0
    } else {
        1 + tok_len(bytes.drop_first())
    }
}

pub proof fn lemma_tok_len_at(bytes: Seq<u8>, pos: int)
    requires
        0 <= pos <= bytes.len(),
        forall|j: int| 0 <= j < pos ==> is_token_byte(#[trigger] bytes[j]),
        pos < bytes.len() ==> !is_token_byte(bytes[pos]),
    ensures
        tok_len(bytes) == pos,
    decreases pos,
{
    if pos == 0 {
    } else {
        let d = bytes.drop_first();
        assert forall|j: int| 0 <= j < pos - 1 implies is_token_byte(#[trigger] d[j]) by {
            assert(d[j] == bytes[j + 1]);
        }
        lemma_tok_len_at(d, pos - 1);
    }
}

/// The value of a hexadecimal digit byte, or -1.
pub open spec fn hexv(b: u8) -> int {
    if 0x30 <= b <= 0x39 {
        b - 0x30
    } else if 0x61 <= b <= 0x66 {
        b - 0x57
    } else if 0x41 <= b <= 0x46 {
        b - 0x37
    } else {
        -1
    }
}

/// The body scan of a JSON string, starting just after the opening quote:
/// bytes are copied verbatim until an unescaped quote; a backslash escapes
/// one of `\ " r n t`, or `u` and four hex digits encoding one code point
/// (below 0x80 emitted as a byte, other scalars UTF-8 encoded, surrogates
/// and malformed hex runs skipped). A string the buffer ends before
/// terminating is malformed, as is one ending right after a backslash or
/// inside a unicode escape.
pub open spec fn jstr_scan(bytes: Seq<u8>, pos: int, acc: Seq<u8>) -> Result<
    (Seq<u8>, int),
    JsonError,
>
    decreases bytes.len() - pos,
{
    if pos < 0 || pos >= bytes.len() {
        Result::Err(JsonError::BadString)
    } else if bytes[pos] == 0x22 {
        Result::Ok((acc, pos + 1))
    } else if bytes[pos] == 0x5c {
        if pos + 1 == bytes.len() {
            Result::Err(JsonError::BadString)
        } else {
            let esc = bytes[pos + 1];
            if esc == 0x5c {
                jstr_scan(bytes, pos + 2, acc.push(0x5c))
            } else if esc == 0x22 {
                jstr_scan(bytes, pos + 2, acc.push(0x22))
            } else if esc == 0x72 {
                jstr_scan(bytes, pos + 2, acc.push(0x0d))
            } else if esc == 0x6e {
                jstr_scan(bytes, pos + 2, acc.push(0x0a))
            } else if esc == 0x74 {
                jstr_scan(bytes, pos + 2, acc.push(0x09))
            } else if esc == 0x75 {
                if pos + 6 > bytes.len() {
                    Result::Err(JsonError::BadString)
                } else {
                    let h0 = hexv(bytes[pos + 2]);
                    let h1 = hexv(bytes[pos + 3]);
                    let h2 = hexv(bytes[pos + 4]);
                    let h3 = hexv(bytes[pos + 5]);
                    if h0 < 0 || h1 < 0 || h2 < 0 || h3 < 0 {
                        jstr_scan(bytes, pos + 6, acc)
                    } else {
                        let v = h0 * 0x1000 + h1 * 0x100 + h2 * 0x10 + h3;
                        if v < 0x80 {
                            jstr_scan(bytes, pos + 6, acc.push(v as u8))
                        } else if 0xd800 <= v < 0xe000 {
                            jstr_scan(bytes, pos + 6, acc)
                        } else {
                            jstr_scan(bytes, pos + 6, acc + vstd::utf8::encode_scalar(v as u32))
                        }
                    }
                }
            } else {
                Result::Err(JsonError::UnknownEscape)
            }
        }
    } else {
        jstr_scan(bytes, pos + 1, acc.push(bytes[pos]))
    }
}

/// A JSON string at the front of `bytes` (whose first byte is the opening
/// quote): its characters and the bytes consumed, quote included.
#[verifier::opaque]
pub open spec fn jstr(bytes: Seq<u8>) -> Result<(Seq<char>, int), JsonError> {
    match jstr_scan(bytes, 1, Seq::empty()) {
        Result::Ok((bs, p)) => if vstd::utf8::valid_utf8(bs) {
            Result::Ok((vstd::utf8::decode_utf8(bs), p))
        } else {
            Result::Err(JsonError::BadUtf8)
        },
        Result::Err(e) => Result::Err(e),
    }
}

/// Length of the run of decimal digits starting at `pos`.
pub open spec fn digit_run(bytes: Seq<u8>, pos: int) -> int
    decreases bytes.len() - pos,
{
    if pos < 0 || pos >= bytes.len() || !(0x30 <= bytes[pos] <= 0x39) {
        0
    } else {
        1 + digit_run(bytes, pos + 1)
    }
}

/// The value of the decimal digits `bytes[pos..end]`.
pub open spec fn digits_value(bytes: Seq<u8>, pos: int, end: int) -> int
    decreases end - pos,
{
    if end <= pos {
        0
    } else {
        digits_value(bytes, pos, end - 1) * 10 + (bytes[end - 1] - 0x30)
    }
}

/// Growing a digit run never shrinks its value.
pub proof fn lemma_digits_value_mono(bytes: Seq<u8>, pos: int, end: int, end2: int)
    requires
        pos <= end <= end2,
        forall|j: int| pos <= j < end2 ==> 0x30 <= (#[trigger] bytes[j]) <= 0x39,
        0 <= pos,
        end2 <= bytes.len(),
    ensures
        digits_value(bytes, pos, end) <= digits_value(bytes, pos, end2),
        digits_value(bytes, pos, end) >= 0,
    decreases end2 - pos,
{
    if end2 > end {
        lemma_digits_value_mono(bytes, pos, end, end2 - 1);
        assert(digits_value(bytes, pos, end2) == digits_value(bytes, pos, end2 - 1) * 10 + (
        bytes[end2 - 1] - 0x30));
        assert(digits_value(bytes, pos, end2 - 1) * 10 >= digits_value(bytes, pos, end2 - 1))
            by (nonlinear_arith)
            requires
                digits_value(bytes, pos, end2 - 1) >= 0,
        ;
    } else {
        if end > pos {
            lemma_digits_value_mono(bytes, pos, end - 1, end - 1);
            assert(digits_value(bytes, pos, end) == digits_value(bytes, pos, end - 1) * 10 + (
            bytes[end - 1] - 0x30));
            assert(digits_value(bytes, pos, end - 1) * 10 >= 0) by (nonlinear_arith)
                requires
                    digits_value(bytes, pos, end - 1) >= 0,
            ;
        }
    }
}

/// A run of zero digits denotes zero.
pub proof fn lemma_dv_zeros(b: Seq<u8>, pos: int, end: int)
    requires
        0 <= pos <= end <= b.len(),
        forall|j: int| pos <= j < end ==> (#[trigger] b[j]) == 0x30,
    ensures
        digits_value(b, pos, end) == 0,
    decreases end - pos,
{
    if end > pos {
        lemma_dv_zeros(b, pos, end - 1);
    }
}

/// Leading zero digits do not change a run's value.
pub proof fn lemma_dv_skip_zeros(b: Seq<u8>, pos: int, zi: int, end: int)
    requires
        0 <= pos <= zi <= end <= b.len(),
        forall|j: int| pos <= j < zi ==> (#[trigger] b[j]) == 0x30,
    ensures
        digits_value(b, pos, end) == digits_value(b, zi, end),
    decreases end - zi,
{
    if end > zi {
        lemma_dv_skip_zeros(b, pos, zi, end - 1);
    } else {
        lemma_dv_zeros(b, pos, zi);
    }
}

/// A run whose first digit is set denotes at least `10^(length-1)`.
pub proof fn lemma_dv_lower(b: Seq<u8>, pos: int, end: int)
    requires
        0 <= pos < end <= b.len(),
        0x31 <= b[pos] <= 0x39,
        forall|j: int| pos <= j < end ==> 0x30 <= (#[trigger] b[j]) <= 0x39,
    ensures
        digits_value(b, pos, end) >= (pow10((end - pos - 1) as nat)),
    decreases end - pos,
{
    lemma_pow10_pos((end - pos - 1) as nat);
    if end == pos + 1 {
        assert(digits_value(b, pos, pos) == 0);
    } else {
        lemma_dv_lower(b, pos, end - 1);
        assert(pow10((end - pos - 1) as nat) == 10 * (pow10((end - pos - 2) as nat)));
    }
}

/// The signed integer a token denotes, exactly as the decimal grammar
/// `[+-]? digit+` with a 64-bit signed range; anything else is `None`.
pub open spec fn parse_i64_token(tok: Seq<u8>) -> Option<i64> {
    let neg = tok.len() > 0 && tok[0] == 0x2d;
    let start: int = if tok.len() > 0 && (tok[0] == 0x2d || tok[0] == 0x2b) {
        1
    } else {
        0
    };
    let c = digit_run(tok, start);
    if c == 0 || start + c != tok.len() {
        Option::None
    } else {
        let m = digits_value(tok, start, tok.len() as int);
        if neg {
            if m <= 0x8000_0000_0000_0000 {
                Option::Some((-m) as i64)
            } else {
                Option::None
            }
        } else {
            if m < 0x8000_0000_0000_0000 {
                Option::Some(m as i64)
            } else {
                Option::None
            }
        }
    }
}

/// Ten to the power `k`.
pub open spec fn pow10(k: nat) -> int
    decreases k,
{
    if k == 0 {
        1
    } else {
        10 * pow10((k - 1) as nat)
    }
}

/// One step of binary normalization: halve an oversized quotient into the
/// sticky bit, or double an undersized quotient pulling the next bit out of
/// the remainder, until the quotient has 54 bits.
pub open spec fn dbl_norm(q: int, r: int, den: int, e: int, sk: bool, fuel: nat) -> (
    int,
    int,
    int,
    bool,
)
    decreases fuel,
{
    if fuel == 0 {
        (q, r, e, sk)
    } else if q >= 0x40_0000_0000_0000 {
        dbl_norm(q / 2, r, den, e + 1, sk || q % 2 == 1, (fuel - 1) as nat)
    } else if q < 0x20_0000_0000_0000 {
        let r2 = r * 2;
        if r2 >= den {
            dbl_norm(q * 2 + 1, r2 - den, den, e - 1, sk, (fuel - 1) as nat)
        } else {
            dbl_norm(q * 2, r2, den, e - 1, sk, (fuel - 1) as nat)
        }
    } else {
        (q, r, e, sk)
    }
}

/// Doubles `den` until it exceeds `a`, counting the doublings.
pub open spec fn scale_den(a: int, den: int, j: int, fuel: nat) -> (int, int)
    decreases fuel,
{
    if fuel == 0 || den > a {
        (den, j)
    } else {
        scale_den(a, 2 * den, j + 1, (fuel - 1) as nat)
    }
}

/// Assembles a binary64 pattern from a 54-bit normalized quotient by
/// rounding to nearest, ties to even: an infinity past the largest finite
/// exponent, a subnormal (rounded at its coarser precision) below the
/// smallest normal one.
pub open spec fn dbl_make(neg: bool, q: int, r: int, e: int, sk: bool) -> Option<u64> {
    if !(0x20_0000_0000_0000 <= q < 0x40_0000_0000_0000) {
        Option::None
    } else {
        let sign: int = if neg {
            0x8000_0000_0000_0000int
        } else {
            0int
        };
        let sticky = sk || r != 0;
        let field0 = e + 1076;
        if field0 > 2046 {
            Option::Some((sign + 0x7ff0_0000_0000_0000) as u64)
        } else if field0 >= 1 {
            let m0 = q / 2;
            let guard = q % 2;
            let m = if guard == 1 && (sticky || m0 % 2 == 1) {
                m0 + 1
            } else {
                m0
            };
            let (m2, e2): (int, int) = if m == 0x20_0000_0000_0000 {
                (0x10_0000_0000_0000, e + 1)
            } else {
                (m, e)
            };
            let field = e2 + 1076;
            if field > 2046 {
                Option::Some((sign + 0x7ff0_0000_0000_0000) as u64)
            } else {
                Option::Some((sign + field * 0x10_0000_0000_0000 + (m2 - 0x10_0000_0000_0000)) as u64)
            }
        } else {
            let d = 1 - field0;
            if d > 55 {
                Option::Some(sign as u64)
            } else {
                let pd = vstd::arithmetic::power2::pow2(d as nat) as int;
                let q2 = q / pd;
                let sticky2 = sticky || q % pd != 0;
                let m0 = q2 / 2;
                let guard = q2 % 2;
                let m = if guard == 1 && (sticky2 || m0 % 2 == 1) {
                    m0 + 1
                } else {
                    m0
                };
                Option::Some((sign + m) as u64)
            }
        }
    }
}

/// The binary64 pattern nearest to `(sign) n * 10^k`, ties to even, with
/// overflow to infinity and gradual underflow through the subnormals.
/// A mantissa of more significant digits than the smallest supported
/// address space can buffer is outside the range this codec converts;
/// exponents past the caps decide directly.
#[verifier::opaque]
pub open spec fn dbl_of_parts(neg: bool, n: int, k: int) -> Option<u64> {
    let zero: u64 = if neg {
        0x8000_0000_0000_0000u64
    } else {
        0u64
    };
    let inf: u64 = if neg {
        0xfff0_0000_0000_0000u64
    } else {
        0x7ff0_0000_0000_0000u64
    };
    if n == 0 {
        Option::Some(zero)
    } else if n >= pow10(0xFFFF_F000) {
        Option::None
    } else if k > 400 {
        Option::Some(inf)
    } else if k < -1525 {
        Option::Some(zero)
    } else {
        let num: int = if k >= 0 {
            n * pow10(k as nat)
        } else {
            n
        };
        let den: int = if k >= 0 {
            1
        } else {
            pow10((-k) as nat)
        };
        let (den2, j) = scale_den(num, den, 0, 0x4_4000_0000);
        if !(den2 > num) {
            Option::None
        } else {
            let (q, r, e, sk) = dbl_norm(0, num, den2, j, false, 20000);
            dbl_make(neg, q, r, e, sk)
        }
    }
}

/// The binary64 pattern a token with a decimal point denotes, under the
/// grammar `[+-]? digit* [. digit*] [e [+-]? digit+]` with at least one
/// mantissa digit; a mantissa of more significant digits than the smallest
/// supported address space can buffer is the one value this codec does not
/// convert.
pub open spec fn parse_dbl_token(tok: Seq<u8>) -> Option<u64> {
    let neg = tok.len() > 0 && tok[0] == 0x2d;
    let start: int = if tok.len() > 0 && (tok[0] == 0x2d || tok[0] == 0x2b) {
        1
    } else {
        0
    };
    let c1 = digit_run(tok, start);
    let p1 = start + c1;
    let has_dot = p1 < tok.len() && tok[p1] == 0x2e;
    let fstart: int = if has_dot {
        p1 + 1
    } else {
        p1
    };
    let c2: int = if has_dot {
        digit_run(tok, fstart)
    } else {
        0
    };
    let p2 = fstart + c2;
    let has_exp = p2 < tok.len() && tok[p2] == 0x65;
    let eneg = has_exp && p2 + 1 < tok.len() && tok[p2 + 1] == 0x2d;
    let estart: int = if has_exp {
        if p2 + 1 < tok.len() && (tok[p2 + 1] == 0x2d || tok[p2 + 1] == 0x2b) {
            p2 + 2
        } else {
            p2 + 1
        }
    } else {
        p2
    };
    let c3: int = if has_exp {
        digit_run(tok, estart)
    } else {
        0
    };
    let p3 = estart + c3;
    if c1 + c2 == 0 || (has_exp && c3 == 0) || p3 != tok.len() {
        Option::None
    } else {
        let n = digits_value(tok, start, p1) * pow10(c2 as nat) + digits_value(tok, fstart, p2);
        let ev = digits_value(tok, estart, p3);
        let k: int = (if eneg {
            -ev
        } else {
            ev
        }) - c2;
        dbl_of_parts(neg, n, k)
    }
}

pub proof fn lemma_ws_len_bounds(bytes: Seq<u8>)
    ensures
        0 <= ws_len(bytes) <= bytes.len(),
    decreases bytes.len(),
{
    if bytes.len() > 0 && crate::is_white(bytes[0]) {
        lemma_ws_len_bounds(bytes.drop_first());
    }
}

pub proof fn lemma_digit_run_at(bytes: Seq<u8>, start: int, pos: int)
    requires
        0 <= start <= pos <= bytes.len(),
        forall|j: int| start <= j < pos ==> 0x30 <= (#[trigger] bytes[j]) <= 0x39,
        pos < bytes.len() ==> !(0x30 <= bytes[pos] <= 0x39),
    ensures
        digit_run(bytes, start) == pos - start,
    decreases pos - start,
{
    if pos > start {
        lemma_digit_run_at(bytes, start + 1, pos);
    }
}

/// No run of `c` digits denotes a value as large as `10^c`.
pub proof fn lemma_digits_value_bound(bytes: Seq<u8>, pos: int, end: int)
    requires
        0 <= pos <= end <= bytes.len(),
        forall|j: int| pos <= j < end ==> 0x30 <= (#[trigger] bytes[j]) <= 0x39,
    ensures
        0 <= digits_value(bytes, pos, end) < (pow10((end - pos) as nat)),
    decreases end - pos,
{
    if end > pos {
        lemma_digits_value_bound(bytes, pos, end - 1);
        assert(digits_value(bytes, pos, end) == digits_value(bytes, pos, end - 1) * 10 + (
        bytes[end - 1] - 0x30));
        assert(digits_value(bytes, pos, end - 1) * 10 + 9 < (pow10((end - pos) as nat)))
            by (nonlinear_arith)
            requires
                0 <= digits_value(bytes, pos, end - 1) < (pow10((end - pos - 1) as nat)),
                pow10((end - pos) as nat) == 10 * pow10((end - pos - 1) as nat),
        ;
    }
}

/// The token that starts at the front of `bytes`, classified: the literals
/// `true`, `false` and `null`, else a decimal-point token read as a 64-bit
/// float, else a token read as a 64-bit signed integer.
#[verifier::opaque]
pub open spec fn jp_token(bytes: Seq<u8>) -> Result<(Tree, int), JsonError> {
    let tl = tok_len(bytes);
    let tok = bytes.take(tl);
    if tok =~= seq![0x74u8, 0x72u8, 0x75u8, 0x65u8] {
        Result::Ok((Tree::Bool(true), tl))
    } else if tok =~= seq![0x66u8, 0x61u8, 0x6cu8, 0x73u8, 0x65u8] {
        Result::Ok((Tree::Bool(false), tl))
    } else if tok =~= seq![0x6eu8, 0x75u8, 0x6cu8, 0x6cu8] {
        Result::Ok((Tree::Null, tl))
    } else if exists|i: int| 0 <= i < tok.len() && tok[i] == 0x2e {
        match parse_dbl_token(tok) {
            Option::Some(bits) => Result::Ok((Tree::Double(bits), tl)),
            Option::None => Result::Err(JsonError::BadNumber),
        }
    } else {
        match parse_i64_token(tok) {
            Option::Some(v) => Result::Ok((Tree::Int(v), tl)),
            Option::None => Result::Err(JsonError::BadNumber),
        }
    }
}

/// The JSON value at the front of `bytes`: leading whitespace is skipped
/// and counted into the reported length; the next byte chooses an array,
/// an object, a string, or a bare token.
pub open spec fn js_parse(bytes: Seq<u8>) -> Result<(Tree, int), JsonError>
    decreases bytes.len(), 0int,
{
    let w = ws_len(bytes);
    if !(0 <= w < bytes.len()) {
        Result::Err(JsonError::EndOfInput)
    } else if bytes[w] == 0x5b {
        match js_items(bytes.skip(w + 1)) {
            Result::Ok((ts, sz)) => Result::Ok((Tree::Arr(ts), w + 1 + sz)),
            Result::Err(e) => Result::Err(e),
        }
    } else if bytes[w] == 0x7b {
        match js_entries(bytes.skip(w + 1)) {
            Result::Ok((es, sz)) => Result::Ok(
                (Tree::Obj(entries_to_obj(es)), w + 1 + sz),
            ),
            Result::Err(e) => Result::Err(e),
        }
    } else if bytes[w] == 0x22 {
        match jstr(bytes.skip(w)) {
            Result::Ok((cs, sz)) => Result::Ok((Tree::Str(cs), w + sz)),
            Result::Err(e) => Result::Err(e),
        }
    } else {
        match jp_token(bytes.skip(w)) {
            Result::Ok((t, sz)) => Result::Ok((t, w + sz)),
            Result::Err(e) => Result::Err(e),
        }
    }
}

/// The elements of an array, the opening bracket already consumed: values
/// separated by optional whitespace and at most one comma, ended by a
/// closing bracket.
pub open spec fn js_items(bytes: Seq<u8>) -> Result<(Seq<Tree>, int), JsonError>
    decreases bytes.len(), 1int,
{
    let w = ws_len(bytes);
    if !(0 <= w < bytes.len()) {
        Result::Err(JsonError::EndOfInput)
    } else if bytes[w] == 0x5d {
        Result::Ok((Seq::empty(), w + 1))
    } else {
        match js_parse(bytes.skip(w)) {
            Result::Ok((t, sz)) => {
                if 1 <= sz <= bytes.len() - w {
                    let p = w + sz;
                    let w2 = ws_len(bytes.skip(p));
                    if !(0 <= w2 && p + w2 < bytes.len()) {
                        Result::Err(JsonError::EndOfInput)
                    } else if bytes[p + w2] == 0x2c {
                        match js_items(bytes.skip(p + w2 + 1)) {
                            Result::Ok((ts, sz2)) => Result::Ok(
                                (seq![t] + ts, p + w2 + 1 + sz2),
                            ),
                            Result::Err(e) => Result::Err(e),
                        }
                    } else {
                        match js_items(bytes.skip(p)) {
                            Result::Ok((ts, sz2)) => Result::Ok((seq![t] + ts, p + sz2)),
                            Result::Err(e) => Result::Err(e),
                        }
                    }
                } else {
                    Result::Err(JsonError::EndOfInput)
                }
            },
            Result::Err(e) => Result::Err(e),
        }
    }
}

/// The members of an object, the opening brace already consumed: string
/// keys, a colon, a value, separated by optional whitespace and at most one
/// comma, ended by a closing brace. The members are reported in source
/// order; the object they build sorts them by key, a later duplicate
/// overwriting an earlier one.
pub open spec fn js_entries(bytes: Seq<u8>) -> Result<(Seq<(Seq<char>, Tree)>, int), JsonError>
    decreases bytes.len(), 1int,
{
    let w = ws_len(bytes);
    if !(0 <= w < bytes.len()) {
        Result::Err(JsonError::EndOfInput)
    } else if bytes[w] == 0x7d {
        Result::Ok((Seq::empty(), w + 1))
    } else if bytes[w] != 0x22 {
        Result::Err(JsonError::NeedKey)
    } else {
        match jstr(bytes.skip(w)) {
            Result::Ok((kcs, ks)) => {
                if 1 <= ks <= bytes.len() - w {
                    let p = w + ks;
                    let w2 = ws_len(bytes.skip(p));
                    if !(0 <= w2 && p + w2 < bytes.len()) {
                        Result::Err(JsonError::EndOfInput)
                    } else if bytes[p + w2] != 0x3a {
                        Result::Err(JsonError::NeedColon)
                    } else {
                        let q = p + w2 + 1;
                        match js_parse(bytes.skip(q)) {
                            Result::Ok((t, vs)) => {
                                if 1 <= vs <= bytes.len() - q {
                                    let p2 = q + vs;
                                    let w3 = ws_len(bytes.skip(p2));
                                    if !(0 <= w3 && p2 + w3 < bytes.len()) {
                                        Result::Err(JsonError::EndOfInput)
                                    } else if bytes[p2 + w3] == 0x2c {
                                        match js_entries(bytes.skip(p2 + w3 + 1)) {
                                            Result::Ok((rest, rs)) => Result::Ok(
                                                (seq![(kcs, t)] + rest, p2 + w3 + 1 + rs),
                                            ),
                                            Result::Err(e) => Result::Err(e),
                                        }
                                    } else {
                                        match js_entries(bytes.skip(p2)) {
                                            Result::Ok((rest, rs)) => Result::Ok(
                                                (seq![(kcs, t)] + rest, p2 + rs),
                                            ),
                                            Result::Err(e) => Result::Err(e),
                                        }
                                    }
                                } else {
                                    Result::Err(JsonError::EndOfInput)
                                }
                            },
                            Result::Err(e) => Result::Err(e),
                        }
                    }
                } else {
                    Result::Err(JsonError::EndOfInput)
                }
            },
            Result::Err(e) => Result::Err(e),
        }
    }
}

/// The whitespace prefix length of `buf`, or `None` when `buf` is all
/// whitespace.
fn ws_pos(buf: &[u8]) -> (r: Option<usize>)
    ensures
        match r {
            Option::Some(p) => p as int == ws_len(buf@) && p < buf@.len() && !crate::is_white(
                buf@[p as int],
            ),
            Option::None => ws_len(buf@) == buf@.len(),
        },
{
    match skip_white(buf) {
        Ok(pos) => {
            proof {
                lemma_ws_len_at(buf@, pos as int);
            }
            Some(pos)
        },
        Err(()) => {
            proof {
                lemma_ws_len_at(buf@, buf@.len() as int);
            }
            None
        },
    }
}

/// Whether `b` may appear in a numeric or literal token.
fn is_token_byte_exec(b: u8) -> (r: bool)
    ensures
        r == is_token_byte(b),
{
    (0x30 <= b && b <= 0x39) || b == 0x2e || b == 0x2d || b == 0x2b || b == 0x74 || b == 0x72 || b
        == 0x75 || b == 0x65 || b == 0x66 || b == 0x61 || b == 0x6c || b == 0x73 || b == 0x6e
}

/// The value of a hexadecimal digit byte, or -1.
fn hexv_exec(b: u8) -> (r: i32)
    ensures
        r as int == hexv(b),
{
    if 0x30 <= b && b <= 0x39 {
        (b - 0x30) as i32
    } else if 0x61 <= b && b <= 0x66 {
        (b - 0x57) as i32
    } else if 0x41 <= b && b <= 0x46 {
        (b - 0x37) as i32
    } else {
        -1
    }
}

/// Counts the decimal digits of `tok` from `start`.
fn digit_run_exec(tok: &[u8], start: usize) -> (r: usize)
    requires
        start <= tok@.len(),
    ensures
        r as int == digit_run(tok@, start as int),
        start + r <= tok@.len(),
        forall|j: int| start <= j < start + r ==> 0x30 <= (#[trigger] tok@[j]) <= 0x39,
        start + r < tok@.len() ==> !(0x30 <= tok@[start + r] <= 0x39),
{
    let mut i: usize = start;
    while i < tok.len() && 0x30 <= tok[i] && tok[i] <= 0x39
        invariant
            start <= i <= tok@.len(),
            forall|j: int| start <= j < i ==> 0x30 <= (#[trigger] tok@[j]) <= 0x39,
        decreases tok@.len() - i,
    {
        i += 1;
    }
    proof {
        lemma_digit_run_at(tok@, start as int, i as int);
    }
    i - start
}

/// The value of the digits `tok[start..end]`, or `None` when it reaches
/// `cap`.
fn digits_value_exec(tok: &[u8], start: usize, end: usize, cap: u128) -> (r: Option<u128>)
    requires
        start <= end <= tok@.len(),
        forall|j: int| start <= j < end ==> 0x30 <= (#[trigger] tok@[j]) <= 0x39,
        1 <= cap <= 0x1_0000_0000_0000_0000,
    ensures
        match r {
            Option::Some(v) => v as int == digits_value(tok@, start as int, end as int) && v < cap,
            Option::None => digits_value(tok@, start as int, end as int) >= cap,
        },
{
    let mut acc: u128 = 0;
    let mut i: usize = start;
    while i < end
        invariant
            start <= i <= end <= tok@.len(),
            forall|j: int| start <= j < end ==> 0x30 <= (#[trigger] tok@[j]) <= 0x39,
            cap <= 0x1_0000_0000_0000_0000,
            acc < cap,
            acc as int == digits_value(tok@, start as int, i as int),
        decreases end - i,
    {
        let d = (tok[i] - 0x30) as u128;
        let acc2: u128 = acc * 10 + d;
        if acc2 >= cap {
            proof {
                lemma_digits_value_mono(tok@, start as int, i as int + 1, end as int);
            }
            return None;
        }
        acc = acc2;
        i += 1;
    }
    Some(acc)
}

/// Parses `tok` as a 64-bit signed integer, exactly as the decimal grammar
/// allows.
fn parse_i64_exec(tok: &[u8]) -> (r: Result<i64, JsonError>)
    ensures
        match parse_i64_token(tok@) {
            Option::Some(v) => r == Result::<i64, JsonError>::Ok(v),
            Option::None => r == Result::<i64, JsonError>::Err(JsonError::BadNumber),
        },
{
    let n = tok.len();
    let mut start: usize = 0;
    let mut neg = false;
    if n > 0 && (tok[0] == 0x2d || tok[0] == 0x2b) {
        start = 1;
        neg = tok[0] == 0x2d;
    }
    let c = digit_run_exec(tok, start);
    if c == 0 || start + c != n {
        return Err(JsonError::BadNumber);
    }
    match digits_value_exec(tok, start, n, 0x1_0000_0000_0000_0000) {
        None => Err(JsonError::BadNumber),
        Some(m) => {
            if neg {
                if m <= 0x8000_0000_0000_0000 {
                    if m == 0x8000_0000_0000_0000 {
                        Ok(-0x7fff_ffff_ffff_ffffi64 - 1)
                    } else {
                        Ok(-(m as i64))
                    }
                } else {
                    Err(JsonError::BadNumber)
                }
            } else {
                if m < 0x8000_0000_0000_0000 {
                    Ok(m as i64)
                } else {
                    Err(JsonError::BadNumber)
                }
            }
        },
    }
}

proof fn lemma_pow10_pos(k: nat)
    ensures
        pow10(k) >= 1,
    decreases k,
{
    if k > 0 {
        lemma_pow10_pos((k - 1) as nat);
    }
}

proof fn lemma_pow10_adds(a: nat, b: nat)
    ensures
        pow10(a + b) == pow10(a) * pow10(b),
    decreases a,
{
    if a == 0 {
    } else {
        lemma_pow10_adds((a - 1) as nat, b);
        assert(10 * (pow10((a - 1) as nat) * pow10(b)) == (10 * pow10((a - 1) as nat)) * pow10(b))
            by (nonlinear_arith);
    }
}

proof fn lemma_pow10_mono(a: nat, b: nat)
    requires
        a <= b,
    ensures
        pow10(a) <= (pow10(b)),
{
    lemma_pow10_adds(a, (b - a) as nat);
    lemma_pow10_pos(a);
    lemma_pow10_pos((b - a) as nat);
    assert(pow10(a) * pow10((b - a) as nat) >= pow10(a) * 1) by (nonlinear_arith)
        requires
            pow10((b - a) as nat) >= 1,
            pow10(a) >= 1,
    ;
}

/// The early decisions of `dbl_of_parts`: zero, the significant-digit cap,
/// and the exponents that certainly overflow or underflow.
proof fn lemma_dbl_parts_cases(neg: bool, n: int, k: int)
    ensures
        n == 0 ==> dbl_of_parts(neg, n, k) == Option::Some(
            if neg {
                0x8000_0000_0000_0000u64
            } else {
                0u64
            },
        ),
        n >= (pow10(0xFFFF_F000)) ==> dbl_of_parts(neg, n, k) == Option::<u64>::None,
        1 <= n < (pow10(0xFFFF_F000)) && k > 400 ==> dbl_of_parts(neg, n, k) == Option::Some(
            if neg {
                0xfff0_0000_0000_0000u64
            } else {
                0x7ff0_0000_0000_0000u64
            },
        ),
        1 <= n < (pow10(0xFFFF_F000)) && k < -1525 ==> dbl_of_parts(neg, n, k) == Option::Some(
            if neg {
                0x8000_0000_0000_0000u64
            } else {
                0u64
            },
        ),
{
    reveal(dbl_of_parts);
    lemma_pow10_pos(0xFFFF_F000);
}

/// The combined value of two digit runs, the second scaled under the
/// first, as one big number.
fn build_mant(tok: &[u8], lo: usize, hi: usize, lo2: usize, hi2: usize) -> (m: Vec<u64>)
    requires
        lo <= hi <= tok@.len(),
        lo2 <= hi2 <= tok@.len(),
        forall|j: int| lo <= j < hi ==> 0x30 <= (#[trigger] tok@[j]) <= 0x39,
        forall|j: int| lo2 <= j < hi2 ==> 0x30 <= (#[trigger] tok@[j]) <= 0x39,
    ensures
        crate::bignum::val64(m@) == digits_value(tok@, lo as int, hi as int) * pow10(
            (hi2 - lo2) as nat,
        ) + digits_value(tok@, lo2 as int, hi2 as int),
        m@.len() <= 1 + (hi - lo) + (hi2 - lo2),
{
    let mut mant = crate::bignum::limbs_from_u64(0);
    let mut i: usize = lo;
    proof {
        assert(digits_value(tok@, lo as int, lo as int) == 0);
    }
    while i < hi
        invariant
            lo <= i <= hi <= tok@.len(),
            forall|j: int| lo <= j < hi ==> 0x30 <= (#[trigger] tok@[j]) <= 0x39,
            crate::bignum::val64(mant@) == digits_value(tok@, lo as int, i as int),
            mant@.len() <= 1 + i - lo,
        decreases hi - i,
    {
        let d = (tok[i] - 0x30) as u64;
        crate::bignum::muladd10_limbs(&mut mant, d);
        i += 1;
    }
    let ghost v1z = digits_value(tok@, lo as int, hi as int);
    let mut i2: usize = lo2;
    proof {
        assert(pow10(0) == 1);
        assert(v1z * pow10(0) == v1z) by (nonlinear_arith)
            requires
                pow10(0) == 1,
        ;
        assert(digits_value(tok@, lo2 as int, lo2 as int) == 0);
    }
    while i2 < hi2
        invariant
            lo2 <= i2 <= hi2 <= tok@.len(),
            forall|j: int| lo2 <= j < hi2 ==> 0x30 <= (#[trigger] tok@[j]) <= 0x39,
            crate::bignum::val64(mant@) == v1z * pow10((i2 - lo2) as nat) + digits_value(
                tok@,
                lo2 as int,
                i2 as int,
            ),
            mant@.len() <= 1 + (hi - lo) + (i2 - lo2),
        decreases hi2 - i2,
    {
        let d = (tok[i2] - 0x30) as u64;
        crate::bignum::muladd10_limbs(&mut mant, d);
        proof {
            let p = pow10((i2 - lo2) as nat);
            let dv = digits_value(tok@, lo2 as int, i2 as int);
            assert(pow10((i2 + 1 - lo2) as nat) == 10 * p);
            assert(10 * (v1z * p + dv) + d == v1z * (10 * p) + (10 * dv + d)) by (nonlinear_arith);
        }
        i2 += 1;
    }
    mant
}

/// The value of an exponent digit run, or `None` once it reaches `cap`.
fn scan_exp(tok: &[u8], estart: usize, p3: usize, cap: u128) -> (r: Option<u128>)
    requires
        estart <= p3 <= tok@.len(),
        forall|j: int| estart <= j < p3 ==> 0x30 <= (#[trigger] tok@[j]) <= 0x39,
        1 <= cap <= 0x2_0000_0000_0000_0000,
    ensures
        match r {
            Option::Some(v) => v as int == digits_value(tok@, estart as int, p3 as int) && v < cap,
            Option::None => digits_value(tok@, estart as int, p3 as int) >= cap,
        },
{
    let mut ev: u128 = 0;
    let mut over = false;
    let mut i3: usize = estart;
    proof {
        assert(digits_value(tok@, estart as int, estart as int) == 0);
    }
    while i3 < p3
        invariant
            estart <= i3 <= p3 <= tok@.len(),
            forall|j: int| estart <= j < p3 ==> 0x30 <= (#[trigger] tok@[j]) <= 0x39,
            1 <= cap <= 0x2_0000_0000_0000_0000,
            !over ==> ev as int == digits_value(tok@, estart as int, i3 as int) && ev < cap,
            over ==> digits_value(tok@, estart as int, i3 as int) >= cap,
        decreases p3 - i3,
    {
        if !over {
            let d = (tok[i3] - 0x30) as u128;
            let ev2: u128 = ev * 10 + d;
            if ev2 >= cap {
                over = true;
            } else {
                ev = ev2;
            }
        } else {
            proof {
                lemma_digits_value_mono(tok@, estart as int, i3 as int, i3 as int + 1);
            }
        }
        i3 += 1;
    }
    if over {
        None
    } else {
        Some(ev)
    }
}

/// Bounds on the mantissa value from its count of significant digits.
proof fn lemma_sig_bounds(tok: Seq<u8>, start: int, p1: int, fstart: int, p2: int, zi: int, zf: int)
    requires
        0 <= start <= zi <= p1 <= fstart <= p2 <= tok.len(),
        forall|j: int| start <= j < p1 ==> 0x30 <= (#[trigger] tok[j]) <= 0x39,
        forall|j: int| fstart <= j < p2 ==> 0x30 <= (#[trigger] tok[j]) <= 0x39,
        forall|j: int| start <= j < zi ==> (#[trigger] tok[j]) == 0x30,
        zi < p1 ==> tok[zi] != 0x30,
        zi == p1 ==> fstart <= zf <= p2,
        zi == p1 ==> forall|j: int| fstart <= j < zf ==> (#[trigger] tok[j]) == 0x30,
        zi == p1 && zf < p2 ==> tok[zf] != 0x30,
    ensures
        ({
            let v1 = digits_value(tok, start, p1);
            let v2 = digits_value(tok, fstart, p2);
            let nspec = v1 * pow10((p2 - fstart) as nat) + v2;
            let sig: int = if zi < p1 {
                (p1 - zi) + (p2 - fstart)
            } else {
                p2 - zf
            };
            &&& (sig == 0 ==> nspec == 0)
            &&& (sig > 0 ==> pow10((sig - 1) as nat) <= nspec)
            &&& (sig > 0 ==> nspec < (pow10(sig as nat)))
            &&& nspec == (if zi < p1 {
                digits_value(tok, zi, p1) * pow10((p2 - fstart) as nat) + v2
            } else {
                digits_value(tok, zf, p2)
            })
        }),
{
    let v1 = digits_value(tok, start, p1);
    let v2 = digits_value(tok, fstart, p2);
    let nspec = v1 * pow10((p2 - fstart) as nat) + v2;
    let c2 = p2 - fstart;
    lemma_pow10_pos(c2 as nat);
    lemma_digits_value_bound(tok, fstart, p2);
    if zi < p1 {
        lemma_dv_skip_zeros(tok, start, zi, p1);
        lemma_dv_lower(tok, zi, p1);
        lemma_digits_value_bound(tok, zi, p1);
        lemma_pow10_pos((p1 - zi - 1) as nat);
        lemma_pow10_adds((p1 - zi - 1) as nat, c2 as nat);
        lemma_pow10_adds((p1 - zi) as nat, c2 as nat);
        assert(v1 * pow10(c2 as nat) >= pow10((p1 - zi - 1) as nat) * pow10(c2 as nat))
            by (nonlinear_arith)
            requires
                v1 >= (pow10((p1 - zi - 1) as nat)),
                pow10(c2 as nat) >= 1,
                pow10((p1 - zi - 1) as nat) >= 1,
        ;
        assert(v1 * pow10(c2 as nat) + v2 < pow10((p1 - zi) as nat) * pow10(c2 as nat))
            by (nonlinear_arith)
            requires
                v1 < (pow10((p1 - zi) as nat)),
                0 <= v2,
                v2 < (pow10(c2 as nat)),
                pow10(c2 as nat) >= 1,
        ;
    } else {
        lemma_dv_zeros(tok, start, p1);
        assert(v1 == 0);
        assert(v1 * pow10(c2 as nat) == 0) by (nonlinear_arith)
            requires
                v1 == 0,
        ;
        lemma_dv_skip_zeros(tok, fstart, zf, p2);
        if zf < p2 {
            lemma_dv_lower(tok, zf, p2);
            lemma_digits_value_bound(tok, zf, p2);
            lemma_pow10_pos((p2 - zf - 1) as nat);
            lemma_pow10_adds((p2 - zf) as nat, 0);
        } else {
            lemma_dv_zeros(tok, zf, p2);
        }
    }
}

/// Parses `tok` as a 64-bit float bit pattern, under the decimal grammar
/// with an optional fraction and exponent.
#[verifier::rlimit(100)]
#[verifier::spinoff_prover]
fn parse_dbl_exec(tok: &[u8]) -> (r: Result<u64, JsonError>)
    ensures
        match parse_dbl_token(tok@) {
            Option::Some(bits) => r == Result::<u64, JsonError>::Ok(bits),
            Option::None => r == Result::<u64, JsonError>::Err(JsonError::BadNumber),
        },
{
    let n = tok.len();
    let mut start: usize = 0;
    let mut neg = false;
    if n > 0 && (tok[0] == 0x2d || tok[0] == 0x2b) {
        start = 1;
        neg = tok[0] == 0x2d;
    }
    let c1 = digit_run_exec(tok, start);
    let p1 = start + c1;
    let has_dot = p1 < n && tok[p1] == 0x2e;
    let fstart: usize = if has_dot {
        p1 + 1
    } else {
        p1
    };
    let c2: usize = if has_dot {
        digit_run_exec(tok, fstart)
    } else {
        0
    };
    let p2 = fstart + c2;
    let has_exp = p2 < n && tok[p2] == 0x65;
    let eneg = has_exp && p2 + 1 < n && tok[p2 + 1] == 0x2d;
    let estart: usize = if has_exp {
        if p2 + 1 < n && (tok[p2 + 1] == 0x2d || tok[p2 + 1] == 0x2b) {
            p2 + 2
        } else {
            p2 + 1
        }
    } else {
        p2
    };
    let c3: usize = if has_exp {
        digit_run_exec(tok, estart)
    } else {
        0
    };
    let p3 = estart + c3;
    if c1 + c2 == 0 || (has_exp && c3 == 0) || p3 != n {
        return Err(JsonError::BadNumber);
    }
    dbl_number_exec(tok, start, p1, fstart, p2, estart, p3, neg, eneg)
}

/// Converts the number whose sign, integral, fractional and exponent digit
/// runs stand at the given positions of `tok`.
#[verifier::rlimit(100)]
#[verifier::spinoff_prover]
fn dbl_number_exec(
    tok: &[u8],
    start: usize,
    p1: usize,
    fstart: usize,
    p2: usize,
    estart: usize,
    p3: usize,
    neg: bool,
    eneg: bool,
) -> (r: Result<u64, JsonError>)
    requires
        start <= p1 <= fstart <= p2 <= estart <= p3 <= tok@.len(),
        forall|j: int| start <= j < p1 ==> 0x30 <= (#[trigger] tok@[j]) <= 0x39,
        forall|j: int| fstart <= j < p2 ==> 0x30 <= (#[trigger] tok@[j]) <= 0x39,
        forall|j: int| estart <= j < p3 ==> 0x30 <= (#[trigger] tok@[j]) <= 0x39,
        (p1 - start) + (p2 - fstart) >= 1,
    ensures
        ({
            let nspec = digits_value(tok@, start as int, p1 as int) * pow10((p2 - fstart) as nat)
                + digits_value(tok@, fstart as int, p2 as int);
            let kspec = (if eneg {
                -digits_value(tok@, estart as int, p3 as int)
            } else {
                digits_value(tok@, estart as int, p3 as int)
            }) - (p2 - fstart);
            match dbl_of_parts(neg, nspec, kspec) {
                Option::Some(bits) => r == Result::<u64, JsonError>::Ok(bits),
                Option::None => r == Result::<u64, JsonError>::Err(JsonError::BadNumber),
            }
        }),
{
    let c2 = p2 - fstart;
    let zero_bits: u64 = if neg {
        0x8000_0000_0000_0000
    } else {
        0
    };
    let inf_bits: u64 = if neg {
        0xfff0_0000_0000_0000
    } else {
        0x7ff0_0000_0000_0000
    };
    let ghost v1 = digits_value(tok@, start as int, p1 as int);
    let ghost v2 = digits_value(tok@, fstart as int, p2 as int);
    let ghost nspec: int = v1 * pow10(c2 as nat) + v2;
    // skip leading zeros; only the significant digits are converted
    let mut zi: usize = start;
    while zi < p1 && tok[zi] == 0x30
        invariant
            start <= zi <= p1 <= tok@.len(),
            forall|j: int| start <= j < zi ==> (#[trigger] tok@[j]) == 0x30,
        decreases p1 - zi,
    {
        zi += 1;
    }
    let mut zf: usize = fstart;
    if zi == p1 {
        while zf < p2 && tok[zf] == 0x30
            invariant
                fstart <= zf <= p2 <= tok@.len(),
                forall|j: int| fstart <= j < zf ==> (#[trigger] tok@[j]) == 0x30,
            decreases p2 - zf,
        {
            zf += 1;
        }
    }
    let sig: usize = if zi < p1 {
        (p1 - zi) + c2
    } else {
        p2 - zf
    };
    proof {
        lemma_sig_bounds(tok@, start as int, p1 as int, fstart as int, p2 as int, zi as int, zf as int);
    }
    let ghost evs = digits_value(tok@, estart as int, p3 as int);
    proof {
        lemma_dbl_parts_cases(neg, nspec, (if eneg { -evs } else { evs }) - c2);
    }
    if sig == 0 {
        return Ok(zero_bits);
    }
    if (sig as u64) > 0xFFFF_F000 {
        proof {
            lemma_pow10_mono(0xFFFF_F000, (sig - 1) as nat);
        }
        return Err(JsonError::BadNumber);
    }
    proof {
        lemma_pow10_mono(sig as nat, 0xFFFF_F000);
        lemma_pow10_pos(0xFFFF_F000);
    }
    // the significant mantissa digits as one big number
    let mant: Vec<u64> = if zi < p1 {
        build_mant(tok, zi, p1, fstart, p2)
    } else {
        build_mant(tok, zf, p2, p2, p2)
    };
    proof {
        if zi < p1 {
        } else {
            assert(digits_value(tok@, p2 as int, p2 as int) == 0);
            assert(pow10(0) == 1);
            let dvz = digits_value(tok@, zf as int, p2 as int);
            assert(dvz * pow10(0) == dvz) by (nonlinear_arith)
                requires
                    pow10(0) == 1,
            ;
        }
        assert(crate::bignum::val64(mant@) == nspec);
    }
    // exponent value, saturated just past every exponent that still matters
    let cap_t: u128 = (c2 as u128) + 2000;
    let scanned = scan_exp(tok, estart, p3, cap_t);
    let ev: u128 = match scanned {
        None => {
            // the true exponent lies beyond every finite and subnormal outcome
            return Ok(
                if eneg {
                    zero_bits
                } else {
                    inf_bits
                },
            );
        },
        Some(v) => v,
    };
    let kk: i128 = (if eneg {
        -(ev as i128)
    } else {
        ev as i128
    }) - (c2 as i128);
    if kk > 400 {
        return Ok(inf_bits);
    }
    if kk < -1525 {
        return Ok(zero_bits);
    }
    dbl_convert(neg, mant, kk as i64)
}

/// Converts the non-zero decimal `(sign) val64(mant) * 10^kk` to the
/// binary64 pattern nearest to it, ties to even, by exact long division.
#[verifier::rlimit(100)]
#[verifier::spinoff_prover]
fn dbl_convert(neg: bool, mant: Vec<u64>, kk: i64) -> (r: Result<u64, JsonError>)
    requires
        1 <= crate::bignum::val64(mant@) < (pow10(0xFFFF_F000)),
        mant@.len() <= 0xFFFF_F200,
        -1525 <= kk <= 400,
    ensures
        match dbl_of_parts(neg, crate::bignum::val64(mant@), kk as int) {
            Option::Some(bits) => r == Result::<u64, JsonError>::Ok(bits),
            Option::None => r == Result::<u64, JsonError>::Err(JsonError::BadNumber),
        },
{
    proof {
        reveal(dbl_of_parts);
    }
    let ghost nv = crate::bignum::val64(mant@);
    // numerator and denominator of the exact rational value
    let mut num = mant;
    let mut ki: i64 = if kk > 0 {
        kk
    } else {
        0
    };
    let ghost kup: int = ki as int;
    proof {
        assert(pow10(0) == 1);
        assert(nv * pow10(0) == nv) by (nonlinear_arith)
            requires
                pow10(0) == 1,
        ;
    }
    while ki > 0
        invariant
            0 <= ki <= kup,
            crate::bignum::val64(num@) == nv * pow10((kup - ki) as nat),
            num@.len() <= 0xFFFF_F200 + (kup - ki),
        decreases ki,
    {
        crate::bignum::muladd10_limbs(&mut num, 0);
        proof {
            let p = pow10((kup - ki) as nat);
            assert(pow10((kup - ki + 1) as nat) == 10 * p);
            assert(10 * (nv * p) == nv * (10 * p)) by (nonlinear_arith);
        }
        ki -= 1;
    }
    proof {
        lemma_pow10_pos(kup as nat);
        assert(crate::bignum::val64(num@) >= 1) by (nonlinear_arith)
            requires
                crate::bignum::val64(num@) == nv * pow10(kup as nat),
                nv >= 1,
                pow10(kup as nat) >= 1,
        ;
    }
    let mut den = crate::bignum::limbs_from_u64(1);
    let mut kd: i64 = if kk < 0 {
        -kk
    } else {
        0
    };
    let ghost kdown: int = kd as int;
    proof {
        assert(pow10(0) == 1);
    }
    while kd > 0
        invariant
            0 <= kd <= kdown,
            crate::bignum::val64(den@) == pow10((kdown - kd) as nat),
            den@.len() <= 1 + (kdown - kd),
        decreases kd,
    {
        crate::bignum::muladd10_limbs(&mut den, 0);
        proof {
            assert(pow10((kdown - kd + 1) as nat) == 10 * pow10((kdown - kd) as nat));
        }
        kd -= 1;
    }
    proof {
        lemma_pow10_pos(kdown as nat);
    }
    let ghost numv: int = crate::bignum::val64(num@);
    let ghost den0v: int = crate::bignum::val64(den@);
    let ghost numlen0 = num@.len();
    let ghost denlen0 = den@.len();
    proof {
        crate::bignum::lemma_val64_bound(num@);
        crate::bignum::lemma_val64_bound(den@);
    }
    let ln = num.len();
    let ld = den.len();
    let common: usize = (if ln >= ld {
        ln
    } else {
        ld
    }) + 1;
    crate::bignum::pad_limbs(&mut num, common);
    crate::bignum::pad_limbs(&mut den, common);
    proof {
        vstd::arithmetic::power2::lemma_pow2_strictly_increases(
            64 * numlen0,
            (64 * (common as nat) - 63) as nat,
        );
        vstd::arithmetic::power2::lemma_pow2_strictly_increases(
            64 * denlen0,
            (64 * (common as nat) - 63) as nat,
        );
        vstd::arithmetic::power2::lemma_pow2_strictly_increases(
            (64 * (common as nat) - 63) as nat,
            (64 * (common as nat) - 1) as nat,
        );
    }
    // scale the denominator up to just above the numerator
    let mut j: u64 = 0;
    let mut fuel: u64 = 0x4_4000_0000;
    while fuel > 0 && crate::bignum::limbs_ge(&num, &den)
        invariant
            num@.len() == common,
            den@.len() == common,
            crate::bignum::val64(num@) == numv,
            0 < numv < vstd::arithmetic::power2::pow2((64 * (common as nat) - 63) as nat),
            0 < crate::bignum::val64(den@),
            j > 0 ==> crate::bignum::val64(den@) <= 2 * numv,
            j == 0 ==> crate::bignum::val64(den@) == den0v,
            den0v < vstd::arithmetic::power2::pow2((64 * (common as nat) - 63) as nat),
            fuel <= 0x4_4000_0000,
            scale_den(numv, den0v, 0, 0x4_4000_0000) == scale_den(
                numv,
                crate::bignum::val64(den@),
                j as int,
                fuel as nat,
            ),
            j <= 0x4_4000_0000 - fuel,
        decreases fuel,
    {
        proof {
            vstd::arithmetic::power2::lemma_pow2_adds((64 * (common as nat) - 63) as nat, 1);
            vstd::arithmetic::power2::lemma_pow2_unfold(1);
            vstd::arithmetic::power2::lemma2_to64();
            vstd::arithmetic::power2::lemma_pow2_strictly_increases(
                (64 * (common as nat) - 62) as nat,
                64 * (common as nat),
            );
        }
        crate::bignum::double_limbs(&mut den);
        j += 1;
        fuel -= 1;
    }
    if crate::bignum::limbs_ge(&num, &den) {
        // the scaling fuel ran out; no input within the stated caps gets here
        return Err(JsonError::BadNumber);
    }
    let ghost den2v: int = crate::bignum::val64(den@);
    proof {
        vstd::arithmetic::power2::lemma_pow2_adds((64 * (common as nat) - 63) as nat, 1);
        vstd::arithmetic::power2::lemma_pow2_unfold(1);
        vstd::arithmetic::power2::lemma2_to64();
        vstd::arithmetic::power2::lemma_pow2_strictly_increases(
            (64 * (common as nat) - 62) as nat,
            64 * (common as nat),
        );
        assert(den2v < vstd::arithmetic::power2::pow2((64 * (common as nat) - 62) as nat));
    }
    // pull 54 quotient bits out of the exact division
    let mut q: u64 = 0;
    let mut rr = num;
    let mut e: i64 = j as i64;
    let mut sk = false;
    let mut fuel2: u64 = 20000;
    while fuel2 > 0 && (q >= 0x40_0000_0000_0000 || q < 0x20_0000_0000_0000)
        invariant
            rr@.len() == common,
            den@.len() == common,
            crate::bignum::val64(den@) == den2v,
            0 <= crate::bignum::val64(rr@) < den2v,
            den2v < vstd::arithmetic::power2::pow2((64 * (common as nat) - 62) as nat),
            q < 0x40_0000_0000_0000,
            fuel2 <= 20000,
            0 <= j <= 0x4_4000_0000,
            e <= j + (20000 - fuel2),
            e >= j - (20000 - fuel2),
            dbl_norm(0, numv, den2v, j as int, false, 20000) == dbl_norm(
                q as int,
                crate::bignum::val64(rr@),
                den2v,
                e as int,
                sk,
                fuel2 as nat,
            ),
        decreases fuel2,
    {
        if q >= 0x40_0000_0000_0000 {
            sk = sk || q % 2 == 1;
            q = q / 2;
            e = e + 1;
        } else {
            proof {
                vstd::arithmetic::power2::lemma_pow2_adds((64 * (common as nat) - 62) as nat, 1);
                vstd::arithmetic::power2::lemma_pow2_unfold(1);
                vstd::arithmetic::power2::lemma2_to64();
                vstd::arithmetic::power2::lemma_pow2_strictly_increases(
                    (64 * (common as nat) - 61) as nat,
                    64 * (common as nat),
                );
            }
            crate::bignum::double_limbs(&mut rr);
            if crate::bignum::limbs_ge(&rr, &den) {
                crate::bignum::sub_limbs(&mut rr, &den);
                q = 2 * q + 1;
            } else {
                q = 2 * q;
            }
            e = e - 1;
        }
        fuel2 -= 1;
    }
    proof {
        assert(dbl_norm(q as int, crate::bignum::val64(rr@), den2v, e as int, sk, fuel2 as nat)
            == (q as int, crate::bignum::val64(rr@), e as int, sk));
    }
    if q < 0x20_0000_0000_0000 || q >= 0x40_0000_0000_0000 {
        return Err(JsonError::BadNumber);
    }
    let sticky = sk || !crate::bignum::limbs_is_zero(&rr);
    // assemble the pattern, rounding to nearest with ties to even
    let sign_bits: u64 = if neg {
        0x8000_0000_0000_0000
    } else {
        0
    };
    let field0: i64 = e + 1076;
    if field0 > 2046 {
        return Ok(sign_bits + 0x7ff0_0000_0000_0000);
    }
    if field0 >= 1 {
        let m0: u64 = q / 2;
        let guard = q % 2 == 1;
        let mut m: u64 = m0;
        let mut e2: i64 = e;
        if guard && (sticky || m0 % 2 == 1) {
            m = m + 1;
        }
        if m == 0x20_0000_0000_0000 {
            m = 0x10_0000_0000_0000;
            e2 = e2 + 1;
        }
        let field: i64 = e2 + 1076;
        if field > 2046 {
            return Ok(sign_bits + 0x7ff0_0000_0000_0000);
        }
        return Ok(sign_bits + (field as u64) * 0x10_0000_0000_0000 + (m - 0x10_0000_0000_0000));
    }
    // below the smallest normal exponent: round at the subnormal precision
    let d: i64 = 1 - field0;
    if d > 55 {
        return Ok(sign_bits);
    }
    let pd_wide = pow2_u128(d as u64);
    proof {
        if (d as nat) < 60 {
            vstd::arithmetic::power2::lemma_pow2_strictly_increases(d as nat, 60);
        }
        vstd::arithmetic::power2::lemma2_to64_rest();
        vstd::arithmetic::power2::lemma_pow2_pos(d as nat);
        vstd::arithmetic::div_mod::lemma_fundamental_div_mod(
            q as int,
            vstd::arithmetic::power2::pow2(d as nat) as int,
        );
        let pdv = vstd::arithmetic::power2::pow2(d as nat) as int;
        let qq = (q as int) / pdv;
        let rm = (q as int) % pdv;
        assert(qq <= q) by (nonlinear_arith)
            requires
                pdv * qq + rm == q,
                rm >= 0,
                pdv >= 2,
                qq >= 0,
        ;
    }
    let pd: u64 = pd_wide as u64;
    let q2: u64 = q / pd;
    let sticky2 = sticky || q % pd != 0;
    let m0: u64 = q2 / 2;
    let guard = q2 % 2 == 1;
    let m: u64 = if guard && (sticky2 || m0 % 2 == 1) {
        m0 + 1
    } else {
        m0
    };
    Ok(sign_bits + m)
}

/// Parsing from JSON text.
pub trait FromJson: Sized {
    /// Specification-level parse: the snapshot at the front of the bytes
    /// and how many bytes it occupies, or the error reported.
    spec fn fj_spec(bytes: Seq<u8>) -> Result<(Tree, int), JsonError>;

    /// The parsed value denotes snapshot `t` in store `s`.
    spec fn fj_reps(&self, s: StoreV, t: Tree) -> bool;

    /// Length of the leading token-byte run of `buf`.
    fn get_token(buf: &[u8]) -> (r: usize)
        ensures
            r as int == tok_len(buf@),
            r <= buf@.len(),
    ;

    /// Parses the JSON string at the front of `buf`, whose first byte is
    /// the opening quote.
    fn get_string(buf: &[u8]) -> (r: Result<(String, usize), JsonError>)
        ensures
            match r {
                Ok((s, sz)) => jstr(buf@) matches Ok((cs, s2)) && cs == s@ && s2 == sz as int && sz
                    <= buf@.len() && (buf@.len() > 0 ==> 1 <= sz),
                Err(e) => jstr(buf@) matches Err(e2) && e2 == e,
            },
    ;

    /// Parses one JSON value from the front of `buf`, building containers
    /// in the store, and reports how many bytes it consumed, leading
    /// whitespace included.
    fn from_json(store: &mut Store, buf: &[u8]) -> (r: Result<(Self, usize), JsonError>)
        requires
            old(store)@.wf(),
        ensures
            final(store)@.wf(),
            final(store)@.extends(old(store)@),
            match r {
                Ok((v, n)) => Self::fj_spec(buf@) matches Ok((t, sz)) && sz == n as int && 1 <= n
                    <= buf@.len() && v.fj_reps(final(store)@, t),
                Err(e) => Self::fj_spec(buf@) matches Err(e2) && e2 == e,
            },
    ;
}

impl FromJson for Dynamic {
    open spec fn fj_spec(bytes: Seq<u8>) -> Result<(Tree, int), JsonError> {
        js_parse(bytes)
    }

    open spec fn fj_reps(&self, s: StoreV, t: Tree) -> bool {
        represents(s, self@, t)
    }

    fn get_token(buf: &[u8]) -> (r: usize) {
        let mut i: usize = 0;
        while i < buf.len() && is_token_byte_exec(buf[i])
            invariant
                i <= buf@.len(),
                forall|j: int| 0 <= j < i ==> is_token_byte(#[trigger] buf@[j]),
            decreases buf@.len() - i,
        {
            i += 1;
        }
        proof {
            lemma_tok_len_at(buf@, i as int);
        }
        i
    }

    /// Copies bytes until an unescaped quote, translating the escapes
    /// `\\ \" \r \n \t` and `\u` with four hex digits, then validates the
    /// copied bytes as UTF-8.
    #[verifier::rlimit(60)]
    fn get_string(buf: &[u8]) -> (r: Result<(String, usize), JsonError>) {
        proof {
            reveal(jstr);
        }
        let n = buf.len();
        if n == 0 {
            return Err(JsonError::BadString);
        }
        let mut pos: usize = 1;
        let mut acc: Vec<u8> = Vec::new();
        proof {
            assert(acc@ =~= Seq::<u8>::empty());
        }
        while pos < n && buf[pos] != 0x22
            invariant
                1 <= pos <= n,
                n == buf@.len(),
                jstr_scan(buf@, 1, Seq::<u8>::empty()) == jstr_scan(buf@, pos as int, acc@),
            decreases n - pos,
        {
            proof {
                reveal(jstr);
            }
            let ghost acc0 = acc@;
            let ghost pos0 = pos as int;
            if buf[pos] == 0x5c {
                if pos + 1 == n {
                    return Err(JsonError::BadString);
                }
                let esc = buf[pos + 1];
                if esc == 0x5c {
                    acc.push(0x5c);
                    pos += 2;
                } else if esc == 0x22 {
                    acc.push(0x22);
                    pos += 2;
                } else if esc == 0x72 {
                    acc.push(0x0d);
                    pos += 2;
                } else if esc == 0x6e {
                    acc.push(0x0a);
                    pos += 2;
                } else if esc == 0x74 {
                    acc.push(0x09);
                    pos += 2;
                } else if esc == 0x75 {
                    if n - pos < 6 {
                        return Err(JsonError::BadString);
                    }
                    let h0 = hexv_exec(buf[pos + 2]);
                    let h1 = hexv_exec(buf[pos + 3]);
                    let h2 = hexv_exec(buf[pos + 4]);
                    let h3 = hexv_exec(buf[pos + 5]);
                    if h0 < 0 || h1 < 0 || h2 < 0 || h3 < 0 {
                    } else {
                        let v: u32 = (h0 as u32) * 0x1000 + (h1 as u32) * 0x100 + (h2 as u32)
                            * 0x10 + (h3 as u32);
                        if v < 0x80 {
                            acc.push(v as u8);
                        } else if 0xd800 <= v && v < 0xe000 {
                        } else if v < 0x800 {
                            let lead: u8 = 0xC0u8 | (((v >> 6) & 0x1F) as u8);
                            let cont: u8 = 0x80u8 | ((v & 0x3F) as u8);
                            acc.push(lead);
                            acc.push(cont);
                            proof {
                                assert(vstd::utf8::encode_scalar(v) =~= seq![lead, cont]);
                                assert(acc@ =~= acc0 + vstd::utf8::encode_scalar(v));
                            }
                        } else {
                            let lead: u8 = 0xE0u8 | (((v >> 12) & 0x0F) as u8);
                            let c1: u8 = 0x80u8 | (((v >> 6) & 0x3F) as u8);
                            let c2: u8 = 0x80u8 | ((v & 0x3F) as u8);
                            acc.push(lead);
                            acc.push(c1);
                            acc.push(c2);
                            proof {
                                assert(v <= 0xffff && !(v < 0x800)
                                    ==> vstd::utf8::has_width_3_encoding(v));
                                assert(vstd::utf8::encode_scalar(v) =~= seq![lead, c1, c2]);
                                assert(acc@ =~= acc0 + vstd::utf8::encode_scalar(v));
                            }
                        }
                    }
                    pos += 6;
                } else {
                    return Err(JsonError::UnknownEscape);
                }
            } else {
                acc.push(buf[pos]);
                pos += 1;
            }
            proof {
                assert(jstr_scan(buf@, 1, Seq::<u8>::empty()) == jstr_scan(
                    buf@,
                    pos as int,
                    acc@,
                ));
            }
        }
        if pos >= n {
            // the buffer ended before the closing quote
            return Err(JsonError::BadString);
        }
        let endpos: usize = pos + 1;
        match crate::dynamic::utf8_to_string(acc.as_slice()) {
            Some(s) => Ok((s, endpos)),
            None => Err(JsonError::BadUtf8),
        }
    }

    /// Skips whitespace, then dispatches on the next byte: an array, an
    /// object, a string, or a bare token.
    #[verifier::rlimit(100)]
    #[verifier::spinoff_prover]
    fn from_json(store: &mut Store, buf: &[u8]) -> (r: Result<(Self, usize), JsonError>)
        decreases buf@.len(),
    {
        proof {
            reveal(jp_token);
            crate::dynamic::lemma_extends_refl(old(store)@);
        }
        let n = buf.len();
        let w = match ws_pos(buf) {
            Some(p) => p,
            None => {
                return Err(JsonError::EndOfInput);
            },
        };
        if buf[w] == 0x5b {
            // array
            let mut items: Vec<Dynamic> = Vec::new();
            let ghost mut ts: Seq<Tree> = Seq::empty();
            let mut pos: usize = w + 1;
            proof {
                assert(buf@.skip(pos as int) =~= buf@.skip(w + 1));
            }
            while pos <= n
                invariant
                    old(store)@.wf(),
                    store@.wf(),
                    store@.extends(old(store)@),
                    w + 1 <= pos <= n,
                    n == buf@.len(),
                    w + 1 <= n,
                    w as int == ws_len(buf@),
                    buf@[w as int] == 0x5b,
                    items@.len() == ts.len(),
                    forall|i: int|
                        0 <= i < ts.len() ==> represents(
                            store@,
                            (#[trigger] items@[i])@,
                            ts[i],
                        ),
                    js_items(buf@.skip(w + 1)) == (match js_items(buf@.skip(pos as int)) {
                        Ok((ts2, sz2)) => Result::<(Seq<Tree>, int), JsonError>::Ok(
                            (ts + ts2, (pos - (w + 1)) + sz2),
                        ),
                        Err(e) => Result::<(Seq<Tree>, int), JsonError>::Err(e),
                    }),
                decreases n - pos,
            {
                let rest = vstd::slice::slice_subrange(buf, pos, n);
                let w2 = match ws_pos(rest) {
                    Some(p) => p,
                    None => {
                        return Err(JsonError::EndOfInput);
                    },
                };
                if buf[pos + w2] == 0x5d {
                    let ghost spre = store@;
                    let ghost valsv = items@;
                    let h = store.arrays_len();
                    store.push_array(items);
                    proof {
                        crate::dynamic::lemma_extends_trans(old(store)@, spre, final(store)@);
                        assert(final(store)@.arrays[h as int] == aview(valsv));
                        assert forall|i: int| 0 <= i < ts.len() implies represents(
                            final(store)@,
                            final(store)@.arrays[h as int][i],
                            #[trigger] ts[i],
                        ) by {
                            lemma_aview_index(valsv, i);
                            crate::dynamic::lemma_represents_frame(
                                spre,
                                final(store)@,
                                valsv[i]@,
                                ts[i],
                            );
                        }
                        assert(represents(final(store)@, Val::Arr(h as int), Tree::Arr(ts)));
                        assert(ts + Seq::<Tree>::empty() =~= ts);
                    }
                    return Ok((Dynamic::Arr(h), pos + w2 + 1));
                }
                let ghost spre = store@;
                let sub = vstd::slice::slice_subrange(buf, pos + w2, n);
                proof {
                    assert(buf@.skip(pos as int).skip(w2 as int) =~= buf@.skip(pos + w2));
                }
                match Self::from_json(store, sub) {
                    Err(e) => {
                        proof {
                            crate::dynamic::lemma_extends_trans(old(store)@, spre, store@);
                        }
                        return Err(e);
                    },
                    Ok((v, szv)) => {
                        let ghost t = js_parse(buf@.skip(pos + w2))->Ok_0.0;
                        proof {
                            crate::dynamic::lemma_extends_trans(old(store)@, spre, store@);
                            assert forall|i: int| 0 <= i < ts.len() implies represents(
                                store@,
                                (#[trigger] items@[i])@,
                                ts[i],
                            ) by {
                                crate::dynamic::lemma_represents_frame(
                                    spre,
                                    store@,
                                    items@[i]@,
                                    ts[i],
                                );
                            }
                        }
                        items.push(v);
                        let mid = pos + w2 + szv;
                        let rest2 = vstd::slice::slice_subrange(buf, mid, n);
                        let w3 = match ws_pos(rest2) {
                            Some(p) => p,
                            None => {
                                proof {
                                    assert(buf@.skip(pos as int).skip((w2 + szv) as int)
                                        =~= buf@.skip(mid as int));
                                    assert(js_items(buf@.skip(pos as int))
                                        == Result::<(Seq<Tree>, int), JsonError>::Err(
                                        JsonError::EndOfInput,
                                    ));
                                }
                                return Err(JsonError::EndOfInput);
                            },
                        };
                        let ghost posold = pos as int;
                        if buf[mid + w3] == 0x2c {
                            pos = mid + w3 + 1;
                        } else {
                            pos = mid;
                        }
                        proof {
                            assert(buf@.skip(posold).skip((w2 + szv) as int) =~= buf@.skip(
                                mid as int,
                            ));
                            if buf@[mid + w3] == 0x2c {
                                assert(buf@.skip(posold).skip((w2 + szv + w3 + 1) as int)
                                    =~= buf@.skip(pos as int));
                            }
                            if js_items(buf@.skip(pos as int)) is Ok {
                                let pair = js_items(buf@.skip(pos as int))->Ok_0;
                                assert(ts + (seq![t] + pair.0) =~= ts.push(t) + pair.0);
                            }
                            ts = ts.push(t);
                        }
                    },
                }
            }
            proof {
                assert(false);
            }
            Err(JsonError::EndOfInput)
        } else if buf[w] == 0x7b {
            // object
            let mut acc: Vec<(String, Dynamic)> = Vec::new();
            let ghost mut tpairs: Seq<(Seq<char>, Tree)> = Seq::empty();
            let mut pos: usize = w + 1;
            proof {
                assert(buf@.skip(pos as int) =~= buf@.skip(w + 1));
                assert(eview(acc@) =~= Seq::<(Seq<char>, Val)>::empty());
                assert(entries_to_obj(tpairs) =~= Seq::<(Seq<char>, Tree)>::empty());
            }
            while pos <= n
                invariant
                    old(store)@.wf(),
                    store@.wf(),
                    store@.extends(old(store)@),
                    w + 1 <= pos <= n,
                    n == buf@.len(),
                    w + 1 <= n,
                    w as int == ws_len(buf@),
                    buf@[w as int] == 0x7b,
                    entries_rep(store@, eview(acc@), entries_to_obj(tpairs)),
                    sorted_entries(eview(acc@)),
                    js_entries(buf@.skip(w + 1)) == (match js_entries(buf@.skip(pos as int)) {
                        Ok((rest, rs)) => Result::<(Seq<(Seq<char>, Tree)>, int), JsonError>::Ok(
                            (tpairs + rest, (pos - (w + 1)) + rs),
                        ),
                        Err(e) => Result::<(Seq<(Seq<char>, Tree)>, int), JsonError>::Err(e),
                    }),
                decreases n - pos,
            {
                let rest = vstd::slice::slice_subrange(buf, pos, n);
                let w2 = match ws_pos(rest) {
                    Some(p) => p,
                    None => {
                        return Err(JsonError::EndOfInput);
                    },
                };
                if buf[pos + w2] == 0x7d {
                    let ghost spre = store@;
                    let ghost accv = eview(acc@);
                    let h = store.objects_len();
                    store.push_object(acc);
                    proof {
                        crate::dynamic::lemma_extends_trans(old(store)@, spre, final(store)@);
                        crate::dynamic::lemma_entries_rep_frame(
                            spre,
                            final(store)@,
                            accv,
                            entries_to_obj(tpairs),
                        );
                        assert(final(store)@.objects[h as int] == accv);
                        assert(represents(
                            final(store)@,
                            Val::Obj(h as int),
                            Tree::Obj(entries_to_obj(tpairs)),
                        ));
                        assert(tpairs + Seq::<(Seq<char>, Tree)>::empty() =~= tpairs);
                    }
                    return Ok((Dynamic::Obj(h), pos + w2 + 1));
                }
                if buf[pos + w2] != 0x22 {
                    return Err(JsonError::NeedKey);
                }
                let ghost et = entries_to_obj(tpairs);
                match obj_member(store, buf, pos, w2, &mut acc, Ghost(et)) {
                    Err(e) => {
                        return Err(e);
                    },
                    Ok((pos2, gp)) => {
                        proof {
                            let tp2 = tpairs.push(gp@);
                            assert(tp2.drop_last() =~= tpairs);
                            assert(tp2.last() == gp@);
                            assert(entries_to_obj(tp2) == insert_entry(
                                entries_to_obj(tpairs),
                                gp@.0,
                                gp@.1,
                            ));
                            if js_entries(buf@.skip(pos2 as int)) is Ok {
                                let pair = js_entries(buf@.skip(pos2 as int))->Ok_0;
                                assert(tpairs + (seq![gp@] + pair.0) =~= tp2 + pair.0);
                            }
                            tpairs = tp2;
                        }
                        pos = pos2;
                    },
                }
            }
            proof {
                assert(false);
            }
            Err(JsonError::EndOfInput)
        } else if buf[w] == 0x22 {
            let sub = vstd::slice::slice_subrange(buf, w, n);
            match Self::get_string(sub) {
                Ok((s, sz)) => Ok((Dynamic::Str(s), w + sz)),
                Err(e) => Err(e),
            }
        } else {
            // a bare token: true, false, null, or a number
            let sub = vstd::slice::slice_subrange(buf, w, n);
            let tl = Self::get_token(sub);
            let tok = vstd::slice::slice_subrange(buf, w, w + tl);
            proof {
                assert(tok@ =~= buf@.skip(w as int).take(tok_len(buf@.skip(w as int))));
            }
            if tl == 4 && tok[0] == 0x74 && tok[1] == 0x72 && tok[2] == 0x75 && tok[3] == 0x65 {
                proof {
                    assert(tok@ =~= seq![0x74u8, 0x72u8, 0x75u8, 0x65u8]);
                }
                return Ok((Dynamic::Bool(true), w + 4));
            }
            if tl == 5 && tok[0] == 0x66 && tok[1] == 0x61 && tok[2] == 0x6c && tok[3] == 0x73
                && tok[4] == 0x65 {
                proof {
                    assert(tok@ =~= seq![0x66u8, 0x61u8, 0x6cu8, 0x73u8, 0x65u8]);
                }
                return Ok((Dynamic::Bool(false), w + 5));
            }
            if tl == 4 && tok[0] == 0x6e && tok[1] == 0x75 && tok[2] == 0x6c && tok[3] == 0x6c {
                proof {
                    assert(tok@ =~= seq![0x6eu8, 0x75u8, 0x6cu8, 0x6cu8]);
                }
                return Ok((Dynamic::Null, w + 4));
            }
            proof {
                assert(!(tok@ =~= seq![0x74u8, 0x72u8, 0x75u8, 0x65u8]));
                assert(!(tok@ =~= seq![0x66u8, 0x61u8, 0x6cu8, 0x73u8, 0x65u8]));
                assert(!(tok@ =~= seq![0x6eu8, 0x75u8, 0x6cu8, 0x6cu8]));
            }
            let mut has_dot = false;
            let mut i: usize = 0;
            while i < tl
                invariant
                    i <= tl,
                    tl == tok@.len(),
                    has_dot == exists|j: int| 0 <= j < i && tok@[j] == 0x2e,
                decreases tl - i,
            {
                if tok[i] == 0x2e {
                    has_dot = true;
                }
                i += 1;
            }
            if has_dot {
                match parse_dbl_exec(tok) {
                    Ok(bits) => Ok((Dynamic::Double(bits), w + tl)),
                    Err(e) => Err(e),
                }
            } else {
                match parse_i64_exec(tok) {
                    Ok(v) => Ok((Dynamic::Int(v), w + tl)),
                    Err(e) => Err(e),
                }
            }
        }
    }
}


/// Parses one object member (`"key" : value` and the optional separator
/// after it) starting at `pos + w2`, inserting the binding into `acc`.
#[verifier::rlimit(100)]
#[verifier::spinoff_prover]
fn obj_member(
    store: &mut Store,
    buf: &[u8],
    pos: usize,
    w2: usize,
    acc: &mut Vec<(String, Dynamic)>,
    Ghost(et): Ghost<Seq<(Seq<char>, Tree)>>,
) -> (r: Result<(usize, Ghost<(Seq<char>, Tree)>), JsonError>)
    requires
        old(store)@.wf(),
        sorted_entries(eview(old(acc)@)),
        entries_rep(old(store)@, eview(old(acc)@), et),
        pos <= buf@.len(),
        w2 as int == ws_len(buf@.skip(pos as int)),
        pos + w2 < buf@.len(),
        buf@[pos + w2] == 0x22,
    ensures
        final(store)@.wf(),
        final(store)@.extends(old(store)@),
        sorted_entries(eview(final(acc)@)),
        match r {
            Ok((pos2, gp)) => pos < pos2 <= buf@.len() && entries_rep(
                final(store)@,
                eview(final(acc)@),
                insert_entry(et, gp@.0, gp@.1),
            ) && (js_entries(buf@.skip(pos as int)) == (match js_entries(buf@.skip(pos2 as int)) {
                Ok((rest, rs)) => Result::<(Seq<(Seq<char>, Tree)>, int), JsonError>::Ok(
                    (seq![gp@] + rest, (pos2 - pos) + rs),
                ),
                Err(e) => Result::<(Seq<(Seq<char>, Tree)>, int), JsonError>::Err(e),
            })),
            Err(e) => js_entries(buf@.skip(pos as int)) matches Err(e2) && e2 == e,
        },
    decreases buf@.len(), 0int,
{
    proof {
        crate::dynamic::lemma_extends_refl(old(store)@);
    }
    let n = buf.len();
    let keybuf = vstd::slice::slice_subrange(buf, pos + w2, n);
    proof {
        assert(buf@.skip(pos as int).skip(w2 as int) =~= buf@.skip(pos + w2));
    }
    let (key, ks) = match <Dynamic as FromJson>::get_string(keybuf) {
        Ok(p) => p,
        Err(e) => {
            return Err(e);
        },
    };
    let pc = pos + w2 + ks;
    let restc = vstd::slice::slice_subrange(buf, pc, n);
    proof {
        assert(buf@.skip(pos + w2).skip(ks as int) =~= buf@.skip(pc as int));
        assert(buf@.skip(pos as int).skip((w2 + ks) as int) =~= buf@.skip(pc as int));
    }
    let w3 = match ws_pos(restc) {
        Some(p) => p,
        None => {
            return Err(JsonError::EndOfInput);
        },
    };
    if buf[pc + w3] != 0x3a {
        return Err(JsonError::NeedColon);
    }
    let q = pc + w3 + 1;
    let ghost spre = store@;
    let sub = vstd::slice::slice_subrange(buf, q, n);
    proof {
        assert(buf@.skip(pc as int).skip((w3 + 1) as int) =~= buf@.skip(q as int));
        assert(buf@.skip(pos as int).skip((w2 + ks + w3 + 1) as int) =~= buf@.skip(q as int));
    }
    match <Dynamic as FromJson>::from_json(store, sub) {
        Err(e) => {
            return Err(e);
        },
        Ok((v, vs)) => {
            let ghost tv = js_parse(buf@.skip(q as int))->Ok_0.0;
            proof {
                crate::dynamic::lemma_entries_rep_frame(spre, store@, eview(acc@), et);
            }
            let ghost gval = v@;
            let ghost pre_acc = eview(acc@);
            let _ = entries_set(acc, key.as_str(), v);
            proof {
                crate::dynamic::lemma_insert_corresponds(store@, pre_acc, et, key@, gval, tv);
            }
            let p2 = q + vs;
            let rest2 = vstd::slice::slice_subrange(buf, p2, n);
            proof {
                assert(buf@.skip(q as int).skip(vs as int) =~= buf@.skip(p2 as int));
                assert(buf@.skip(pos as int).skip((w2 + ks + w3 + 1 + vs) as int) =~= buf@.skip(
                    p2 as int,
                ));
            }
            let w4 = match ws_pos(rest2) {
                Some(p) => p,
                None => {
                    proof {
                        assert(js_entries(buf@.skip(pos as int)) == Result::<
                            (Seq<(Seq<char>, Tree)>, int),
                            JsonError,
                        >::Err(JsonError::EndOfInput));
                    }
                    return Err(JsonError::EndOfInput);
                },
            };
            let pos2: usize = if buf[p2 + w4] == 0x2c {
                p2 + w4 + 1
            } else {
                p2
            };
            proof {
                if buf@[p2 + w4] == 0x2c {
                    assert(buf@.skip(p2 as int).skip((w4 + 1) as int) =~= buf@.skip(pos2 as int));
                    assert(buf@.skip(pos as int).skip((w2 + ks + w3 + 1 + vs + w4 + 1) as int)
                        =~= buf@.skip(pos2 as int));
                }
            }
            Ok((pos2, Ghost((key@, tv))))
        },
    }
}

} // verus!
