//! Fixed-point decimal text for IEEE-754 binary32 values, computed from
//! the raw bit pattern in integer arithmetic alone: the exact value of a
//! finite pattern is scaled by ten thousand, rounded half to even, and
//! printed with four fractional digits.

use vstd::prelude::*;
use vstd::arithmetic::power2::{
    lemma2_to64, lemma2_to64_rest, lemma_pow2_adds, lemma_pow2_pos, lemma_pow2_strictly_increases,
    pow2,
};
use vstd::arithmetic::div_mod::{
    lemma_basic_div, lemma_div_multiples_vanish, lemma_mod_multiples_basic, lemma_small_mod,
};
use crate::decimal::{dec_digits, digit_char, u64_to_decimal};

verus! {

/// Sign bit of a binary32 pattern.
pub open spec fn f32_sign(bits: u32) -> bool {
    bits / 0x8000_0000 == 1
}

/// Biased exponent field (eight bits).
pub open spec fn f32_biased_exp(bits: u32) -> u32 {
    (bits / 0x80_0000) % 0x100
}

/// Fraction field (twenty-three bits).
pub open spec fn f32_frac_field(bits: u32) -> u32 {
    bits % 0x80_0000
}

/// A pattern is finite when the exponent field is not all ones.
pub open spec fn f32_is_finite(bits: u32) -> bool {
    f32_biased_exp(bits) != 255
}

/// Effective significand: the fraction field, with the implicit leading
/// bit added for normal numbers.
pub open spec fn f32_significand(bits: u32) -> nat {
    if f32_biased_exp(bits) == 0 {
        f32_frac_field(bits) as nat
    } else {
        (f32_frac_field(bits) + 0x80_0000) as nat
    }
}

/// Power of two the significand is scaled by: the magnitude of a finite
/// pattern is `significand * 2^point_exp`.
pub open spec fn f32_point_exp(bits: u32) -> int {
    if f32_biased_exp(bits) == 0 {
        -149
    } else {
        f32_biased_exp(bits) - 150
    }
}

/// Rounds the exact quotient `n / d` to the nearest integer, ties to even.
pub open spec fn round_half_even(n: nat, d: nat) -> nat {
    let q = n / d;
    let r = n % d;
    if 2 * r > d || (2 * r == d && q % 2 == 1) {
        (q + 1) as nat
    } else {
        q
    }
}

/// Magnitude of a finite pattern times ten thousand, rounded half to even.
pub open spec fn f32_scaled_magnitude(bits: u32) -> nat {
    let m = f32_significand(bits) * 10000;
    let e = f32_point_exp(bits);
    if e >= 0 {
        m * pow2(e as nat)
    } else {
        round_half_even(m, pow2((-e) as nat))
    }
}

/// Four zero-padded digits for a number below ten thousand.
pub open spec fn frac4_digits(f: nat) -> Seq<char> {
    seq![
        digit_char(((f / 1000) % 10) as int),
        digit_char(((f / 100) % 10) as int),
        digit_char(((f / 10) % 10) as int),
        digit_char((f % 10) as int),
    ]
}

/// The rendered text of a finite binary32 pattern: optional minus sign,
/// integer part, point, four fractional digits.
pub open spec fn real_text(bits: u32) -> Seq<char> {
    let s = f32_scaled_magnitude(bits);
    let sign: Seq<char> = if f32_sign(bits) {
        seq!['-']
    } else {
        Seq::<char>::empty()
    };
    sign + dec_digits(s / 10000) + seq!['.'] + frac4_digits(s % 10000)
}

/// Value of a little-endian sequence of decimal digits.
pub open spec fn le_val(s: Seq<u8>) -> int
    decreases s.len(),
{
    if s.len() == 0 {
        0
    } else {
        s[0] + 10 * le_val(s.drop_first())
    }
}

/// Powers of ten.
pub open spec fn pow10(k: nat) -> int
    decreases k,
{
    if k == 0 {
        1
    } else {
        10 * pow10((k - 1) as nat)
    }
}

/// Well-formed digit vector: digits below ten, non-empty, and no leading
/// zero (the most significant digit is last).
pub open spec fn le_wf(s: Seq<u8>) -> bool {
    &&& s.len() > 0
    &&& forall|i: int| 0 <= i < s.len() ==> s[i] < 10
    &&& (s.len() == 1 || s.last() != 0)
}

proof fn lemma_le_val_push(s: Seq<u8>, d: u8)
    ensures
        le_val(s.push(d)) == le_val(s) + d * pow10(s.len()),
    decreases s.len(),
{
    broadcast use lemma_le_val_nonneg;

    assert(le_val(s.push(d)) == s.push(d)[0] + 10 * le_val(s.push(d).drop_first()));
    if s.len() == 0 {
        assert(s.push(d) =~= seq![d]);
        assert(seq![d].drop_first() =~= Seq::<u8>::empty());
        assert(le_val(s.push(d).drop_first()) == 0);
        assert(pow10(0nat) == 1);
    } else {
        assert(s.push(d).drop_first() =~= s.drop_first().push(d));
        lemma_le_val_push(s.drop_first(), d);
        let p = pow10(s.drop_first().len());
        assert(pow10(s.len()) == 10 * p);
        assert(10 * (le_val(s.drop_first()) + d * p) == 10 * le_val(s.drop_first()) + d * (10 * p))
            by (nonlinear_arith);
    }
}

proof fn lemma_le_val_skip(s: Seq<u8>, i: int)
    requires
        0 <= i < s.len(),
    ensures
        le_val(s.skip(i)) == s[i] + 10 * le_val(s.skip(i + 1)),
{
    assert(s.skip(i).drop_first() =~= s.skip(i + 1));
    assert(s.skip(i)[0] == s[i]);
}

proof fn lemma_le_val_positive(s: Seq<u8>)
    requires
        s.len() > 0,
        s.last() != 0,
    ensures
        le_val(s) >= 1,
    decreases s.len(),
{
    if s.len() == 1 {
        assert(s.drop_first().len() == 0);
        assert(le_val(s.drop_first()) == 0);
        assert(le_val(s) == s[0]);
    } else {
        lemma_le_val_positive(s.drop_first());
    }
}

pub broadcast proof fn lemma_le_val_nonneg(s: Seq<u8>)
    ensures
        #[trigger] le_val(s) >= 0,
    decreases s.len(),
{
    if s.len() > 0 {
        lemma_le_val_nonneg(s.drop_first());
    }
}

/// The decimal notation of a well-formed digit vector's value is the
/// vector reversed, digit by digit.
proof fn lemma_le_val_dec_digits(s: Seq<u8>)
    requires
        le_wf(s),
    ensures
        le_val(s) >= 0,
        dec_digits(le_val(s) as nat) =~= s.reverse().map_values(|d: u8| digit_char(d as int)),
    decreases s.len(),
{
    lemma_le_val_nonneg(s);
    if s.len() == 1 {
        assert(le_val(s) == s[0] + 10 * le_val(s.drop_first()));
        assert(s.drop_first().len() == 0);
        assert(le_val(s) == s[0] < 10);
        assert(s.reverse() =~= seq![s[0]]);
    } else {
        let rest = s.drop_first();
        assert(le_wf(rest));
        lemma_le_val_dec_digits(rest);
        lemma_le_val_positive(rest);
        let n = le_val(s);
        let r = le_val(rest);
        lemma_le_val_nonneg(rest);
        assert(n == s[0] + 10 * r);
        assert(n % 10 == s[0] && n / 10 == r) by (nonlinear_arith)
            requires
                n == s[0] + 10 * r,
                0 <= s[0] < 10,
                r >= 0,
        ;
        assert(n >= 10);
        assert(dec_digits(n as nat) == dec_digits((n as nat) / 10).push(digit_char(
            ((n as nat) % 10) as int,
        )));
        assert((n as nat) / 10 == r as nat && (n as nat) % 10 == s[0]);
        assert(dec_digits(n as nat) == dec_digits(r as nat).push(digit_char(s[0] as int)));
        assert(s.reverse() =~= rest.reverse().push(s[0]));
        assert(s.reverse().map_values(|d: u8| digit_char(d as int)) =~= rest.reverse().map_values(
            |d: u8| digit_char(d as int),
        ).push(digit_char(s[0] as int)));
    }
}

/// Little-endian decimal digits of a number.
fn u64_to_le_digits(n: u64) -> (v: Vec<u8>)
    ensures
        le_wf(v@),
        le_val(v@) == n,
{
    broadcast use lemma_le_val_nonneg;

    let mut v: Vec<u8> = Vec::new();
    let mut m: u64 = n;
    proof {
        assert(le_val(v@) == 0);
        assert(pow10(0nat) == 1);
    }
    while m >= 10
        invariant
            le_val(v@) + m * pow10(v@.len()) == n,
            forall|i: int| 0 <= i < v@.len() ==> v@[i] < 10,
            v@.len() > 0 ==> m >= 1,
        decreases m,
    {
        let d: u8 = (m % 10) as u8;
        proof {
            lemma_le_val_push(v@, d);
            assert(m == d + 10 * (m / 10));
            assert(m / 10 >= 1) by (nonlinear_arith)
                requires
                    m >= 10,
            ;
            let p = pow10(v@.len());
            assert(pow10(v@.len() + 1) == 10 * p);
            assert(d * p + (m / 10) * (10 * p) == (d + 10 * (m / 10)) * p) by (nonlinear_arith);
        }
        v.push(d);
        m = m / 10;
    }
    proof {
        lemma_le_val_push(v@, m as u8);
        assert(pow10(0nat) == 1);
    }
    v.push(m as u8);
    proof {
        if v@.len() > 1 {
            assert(v@.last() == m as u8);
            assert(m >= 1);
        }
    }
    v
}

/// Doubles the value held by a little-endian digit vector.
#[verifier::spinoff_prover]
#[verifier::rlimit(60)]
fn double_le_digits(v: &mut Vec<u8>)
    requires
        le_wf(old(v)@),
    ensures
        le_wf(final(v)@),
        le_val(final(v)@) == 2 * le_val(old(v)@),
{
    broadcast use lemma_le_val_nonneg;

    let ghost orig = v@;
    let n = v.len();
    let mut i: usize = 0;
    let mut carry: u8 = 0;
    proof {
        assert(v@.take(0) =~= Seq::<u8>::empty());
        assert(le_val(v@.take(0)) == 0);
        assert(orig.skip(0) =~= orig);
        assert(pow10(0nat) == 1);
    }
    while i < n
        invariant
            n == v@.len() == orig.len(),
            i <= n,
            carry <= 1,
            forall|j: int| 0 <= j < i ==> v@[j] < 10,
            forall|j: int| i <= j < n ==> v@[j] == orig[j],
            forall|j: int| 0 <= j < n ==> orig[j] < 10,
            le_val(v@.take(i as int)) + pow10(i as nat) * (carry + 2 * le_val(orig.skip(i as int)))
                == 2 * le_val(orig),
        decreases n - i,
    {
        let d = v[i];
        let t: u8 = 2 * d + carry;
        let nd: u8 = t % 10;
        let nc: u8 = t / 10;
        proof {
            lemma_le_val_skip(orig, i as int);
            lemma_le_val_push(v@.take(i as int), nd);
            assert(v@.take(i as int).push(nd) =~= v@.update(i as int, nd).take(i as int + 1));
            let rest = le_val(orig.skip(i as int + 1));
            assert(carry + 2 * le_val(orig.skip(i as int)) == nd + 10 * (nc + 2 * rest)) by {
                assert(t == nd + 10 * nc);
                assert(carry + 2 * (orig[i as int] + 10 * rest) == t + 20 * rest);
            }
            assert(pow10((i + 1) as nat) == 10 * pow10(i as nat));
            assert(pow10(i as nat) * (nd + 10 * (nc + 2 * rest)) == nd * pow10(i as nat) + pow10(
                (i + 1) as nat,
            ) * (nc + 2 * rest)) by (nonlinear_arith)
                requires
                    pow10((i + 1) as nat) == 10 * pow10(i as nat),
            ;
        }
        v[i] = nd;
        carry = nc;
        i = i + 1;
    }
    proof {
        assert(v@.take(n as int) =~= v@);
        assert(orig.skip(n as int) =~= Seq::<u8>::empty());
    }
    if carry > 0 {
        proof {
            assert(le_val(orig.skip(n as int)) == 0);
            assert(le_val(v@.take(n as int)) + pow10(n as nat) * (carry as int) == 2 * le_val(
                orig,
            ));
            assert(le_val(v@) + pow10(n as nat) * (carry as int) == 2 * le_val(orig));
            lemma_le_val_push(v@, carry);
        }
        v.push(carry);
        proof {
            assert(le_val(v@) == 2 * le_val(orig));
            assert(le_wf(v@));
        }
    } else {
        proof {
            assert(carry == 0);
            assert(orig.skip(n as int) =~= Seq::<u8>::empty());
            assert(le_val(orig.skip(n as int)) == 0);
            let lhs = carry + 2 * le_val(orig.skip(n as int));
            assert(lhs == 0);
            assert(pow10(n as nat) * lhs == 0) by (nonlinear_arith)
                requires
                    lhs == 0,
            ;
            assert(v@.take(n as int) =~= v@);
            assert(le_val(v@.take(n as int)) + pow10(n as nat) * lhs == 2 * le_val(orig));
            assert(v@.take(n as int) == v@);
            assert(le_val(v@) == le_val(v@.take(n as int)));
            assert(le_val(v@) == 2 * le_val(orig));
            if n > 1 {
                // The top digit cannot have collapsed to zero: doubling a
                // value at least 10^(n-1) cannot fit in n - 1 digits.
                if v@.last() == 0 {
                    lemma_le_val_push(v@.take(n - 1), 0);
                    assert(v@.take(n - 1).push(0) =~= v@);
                    assert(le_val(v@) == le_val(v@.take(n - 1)));
                    lemma_le_val_upper(v@.take(n - 1));
                    lemma_le_val_lower(orig);
                    assert(false);
                }
            }
            assert(le_val(v@) == 2 * le_val(orig));
            assert(le_wf(v@));
        }
    }
}

/// A sequence of digits below ten is worth less than the next power of ten.
proof fn lemma_le_val_upper(s: Seq<u8>)
    requires
        forall|i: int| 0 <= i < s.len() ==> s[i] < 10,
    ensures
        le_val(s) < pow10(s.len()),
    decreases s.len(),
{
    if s.len() == 0 {
        assert(le_val(s) == 0);
        assert(pow10(0nat) == 1);
    } else {
        lemma_le_val_upper(s.drop_first());
        assert(le_val(s) == s[0] + 10 * le_val(s.drop_first()));
        assert(pow10(s.len()) == 10 * pow10(s.drop_first().len()));
    }
}

/// A digit vector whose top digit is nonzero is worth at least the power
/// of ten at that position.
proof fn lemma_le_val_lower(s: Seq<u8>)
    requires
        s.len() > 0,
        s.last() != 0,
    ensures
        le_val(s) >= pow10((s.len() - 1) as nat),
    decreases s.len(),
{
    if s.len() == 1 {
        assert(s.drop_first().len() == 0);
        assert(le_val(s.drop_first()) == 0);
        assert(le_val(s) == s[0]);
        assert(pow10(0nat) == 1);
    } else {
        lemma_le_val_lower(s.drop_first());
        assert(le_val(s) == s[0] + 10 * le_val(s.drop_first()));
        assert(pow10((s.len() - 1) as nat) == 10 * pow10((s.len() - 2) as nat));
    }
}

/// Renders a well-formed little-endian digit vector as decimal text.
fn le_digits_to_string(v: &Vec<u8>) -> (r: String)
    requires
        le_wf(v@),
    ensures
        le_val(v@) >= 0,
        r@ == dec_digits(le_val(v@) as nat),
{
    broadcast use lemma_le_val_nonneg;

    let mut r = String::new();
    let mut i: usize = v.len();
    while i > 0
        invariant
            i <= v@.len(),
            le_wf(v@),
            r@ == v@.skip(i as int).reverse().map_values(|d: u8| digit_char(d as int)),
        decreases i,
    {
        i = i - 1;
        proof {
            assert(v@.skip(i as int).reverse() =~= v@.skip(i as int + 1).reverse().push(
                v@[i as int],
            ));
            assert(v@.skip(i as int).reverse().map_values(|d: u8| digit_char(d as int)) =~= v@.skip(
                i as int + 1,
            ).reverse().map_values(|d: u8| digit_char(d as int)).push(digit_char(v@[i as int] as int)));
        }
        r.append(crate::decimal::digit_str(v[i]));
    }
    proof {
        assert(v@.skip(0) =~= v@);
        lemma_le_val_dec_digits(v@);
    }
    r
}

/// Exact power of two as a machine integer.
fn pow2_u64(k: u32) -> (p: u64)
    requires
        k <= 63,
    ensures
        p == pow2(k as nat),
{
    let mut p: u64 = 1;
    let mut i: u32 = 0;
    proof {
        lemma2_to64();
        lemma2_to64_rest();
    }
    while i < k
        invariant
            i <= k <= 63,
            p == pow2(i as nat),
            pow2(63) == 0x8000_0000_0000_0000,
        decreases k - i,
    {
        proof {
            if (i as nat) + 1 < 64 {
                lemma_pow2_strictly_increases((i + 1) as nat, 64nat);
            }
            lemma_pow2_adds(i as nat, 1nat);
            lemma2_to64();
        }
        p = p * 2;
        i = i + 1;
    }
    p
}

/// Appends four zero-padded digits of a number below ten thousand.
fn append_frac4(r: &mut String, f: u64)
    requires
        f < 10000,
    ensures
        final(r)@ == old(r)@ + frac4_digits(f as nat),
{
    r.append(crate::decimal::digit_str(((f / 1000) % 10) as u8));
    r.append(crate::decimal::digit_str(((f / 100) % 10) as u8));
    r.append(crate::decimal::digit_str(((f / 10) % 10) as u8));
    r.append(crate::decimal::digit_str((f % 10) as u8));
    proof {
        assert(final(r)@ =~= old(r)@ + frac4_digits(f as nat));
    }
}

/// Renders a finite binary32 bit pattern with four fractional digits,
/// rounding half to even.
pub fn format_real(bits: u32) -> (r: String)
    requires
        f32_is_finite(bits),
    ensures
        r@ == real_text(bits),
{
    let sign = bits >= 0x8000_0000;
    proof {
        assert((bits >= 0x8000_0000) == (bits / 0x8000_0000 == 1)) by (bit_vector);
    }
    let biased: u32 = (bits / 0x80_0000) % 0x100;
    let frac: u32 = bits % 0x80_0000;
    let mant: u64 = if biased == 0 {
        frac as u64
    } else {
        (frac + 0x80_0000) as u64
    };
    assert(mant == f32_significand(bits));
    assert(mant < 0x100_0000);
    let m: u64 = mant * 10000;
    proof {
        lemma2_to64();
        lemma2_to64_rest();
        assert(m < pow2(38)) by (nonlinear_arith)
            requires
                m == mant * 10000,
                mant < 0x100_0000,
                pow2(38) == 0x40_0000_0000,
        ;
    }
    let mut r = String::new();
    if sign {
        let dash = "-";
        proof {
            reveal_strlit("-");
        }
        r.append(dash);
    }
    if biased >= 150 {
        // The value is an integer: significand * 2^(biased - 150).
        let b: u32 = biased - 150;
        let mut dg = u64_to_le_digits(mant);
        let mut j: u32 = 0;
        while j < b
            invariant
                j <= b,
                le_wf(dg@),
                le_val(dg@) == mant * pow2(j as nat),
            decreases b - j,
        {
            proof {
                lemma_pow2_adds(j as nat, 1nat);
                lemma2_to64();
                assert(2 * (mant * pow2(j as nat)) == mant * (pow2(j as nat) * 2))
                    by (nonlinear_arith);
            }
            double_le_digits(&mut dg);
            j = j + 1;
        }
        let digits = le_digits_to_string(&dg);
        r.append(digits.as_str());
        let dot_zeros = ".0000";
        proof {
            reveal_strlit(".0000");
        }
        r.append(dot_zeros);
        proof {
            let e = f32_point_exp(bits);
            assert(e == b);
            let s = f32_scaled_magnitude(bits);
            assert(s == (mant * 10000) * pow2(b as nat));
            assert((mant * 10000) * pow2(b as nat) == (mant * pow2(b as nat)) * 10000)
                by (nonlinear_arith);
            lemma_div_multiples_vanish(mant * pow2(b as nat) as int, 10000);
            lemma_mod_multiples_basic(mant * pow2(b as nat) as int, 10000);
            assert(s / 10000 == mant * pow2(b as nat));
            assert(s % 10000 == 0);
            assert(frac4_digits(0) =~= seq!['0', '0', '0', '0']);
            assert(dot_zeros@ =~= seq!['.', '0', '0', '0', '0']);
            assert(r@ =~= real_text(bits));
        }
    } else {
        // The value is significand * 10^4 / 2^k for a positive k.
        let k: u32 = if biased == 0 {
            149
        } else {
            150 - biased
        };
        assert(f32_point_exp(bits) == -(k as int));
        let scaled: u64 = if k >= 39 {
            // The value is below half of one unit in the fourth
            // fractional digit, so it rounds to zero.
            proof {
                let d = pow2(k as nat);
                let mn = m as nat;
                if k > 39 {
                    lemma_pow2_strictly_increases(39nat, k as nat);
                }
                assert(pow2(39) == 0x80_0000_0000);
                assert(2 * mn < d);
                lemma_basic_div(mn as int, d as int);
                assert(mn / d == 0);
                lemma_small_mod(mn, d);
                assert(mn % d == mn);
                assert(round_half_even(mn, d) == 0);
            }
            0
        } else {
            let d = pow2_u64(k);
            proof {
                lemma_pow2_pos(k as nat);
            }
            let q = m / d;
            let rm = m % d;
            if 2 * rm > d || (2 * rm == d && q % 2 == 1) {
                q + 1
            } else {
                q
            }
        };
        assert(scaled == f32_scaled_magnitude(bits));
        let hi = scaled / 10000;
        let lo = scaled % 10000;
        let digits = u64_to_decimal(hi);
        r.append(digits.as_str());
        let dot = ".";
        proof {
            reveal_strlit(".");
        }
        r.append(dot);
        append_frac4(&mut r, lo);
        proof {
            assert(dot@ =~= seq!['.']);
            assert(r@ =~= real_text(bits));
        }
    }
    r
}

} // verus!
