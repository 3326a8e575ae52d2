//! Canonical text for IEEE 754 doubles, held as their bit patterns.
//!
//! All of it is integer logic on the bits. A finite double is a mantissa
//! times a power of two; its exact decimal expansion is computed on a
//! little-endian vector of decimal digits (multiplying out the power of two,
//! or of five for negative exponents), then rounded to the format's
//! precision: whole values of magnitude below 10^15 render as bare
//! integers, values whose decimal exponent lies in [-4, 15) render in
//! trimmed fixed-point form with fifteen decimal places, and the rest render
//! in scientific form with a sixteen-significant-digit mantissa.

use vstd::prelude::*;
use crate::error::GlyphError;
use crate::numfmt::canon_int;
use crate::numfmt::dec_digit;
use crate::numfmt::dec_digit_char;
use crate::numfmt::int_text;
use crate::numfmt::pad2_text;
use crate::numfmt::push_pad2;
use crate::strings::push_char;
use crate::strings::push_str_part;

verus! {

/// The biased exponent field of a double.
pub open spec fn f_exp_bits(b: u64) -> u64 {
    (b >> 52) & 0x7ff
}

/// The fraction field of a double.
pub open spec fn f_frac_bits(b: u64) -> u64 {
    b & 0xf_ffff_ffff_ffff
}

/// The sign bit of a double.
pub open spec fn f_negative(b: u64) -> bool {
    (b >> 63) == 1
}

/// All exponent bits set and a non-zero fraction: NaN.
pub open spec fn is_nan_bits(b: u64) -> bool {
    f_exp_bits(b) == 0x7ff && f_frac_bits(b) != 0
}

/// All exponent bits set and a zero fraction: positive or negative infinity.
pub open spec fn is_inf_bits(b: u64) -> bool {
    f_exp_bits(b) == 0x7ff && f_frac_bits(b) == 0
}

/// Positive or negative zero.
pub open spec fn is_zero_bits(b: u64) -> bool {
    b == 0 || b == 0x8000_0000_0000_0000
}

/// A finite double whose value is a whole number of magnitude below 10^15.
/// With unbiased exponent `e` in `[0, 51]`, the value is whole exactly when
/// the low `52 - e` fraction bits are zero; its magnitude is then the
/// mantissa (fraction plus implicit leading one) shifted down by `52 - e`.
pub open spec fn is_small_whole(b: u64) -> bool {
    if f_exp_bits(b) == 0x7ff {
        false
    } else if is_zero_bits(b) {
        true
    } else if f_exp_bits(b) < 1023 {
        false
    } else {
        let e = f_exp_bits(b) - 1023;
        e <= 51 && (f_frac_bits(b) & (((1u64 << ((52 - e) as u64)) - 1) as u64)) == 0 && ((
        f_frac_bits(b) | 0x10_0000_0000_0000) >> ((52 - e) as u64)) < 1_000_000_000_000_000
    }
}

/// The magnitude of a small whole double.
pub open spec fn small_whole_mag(b: u64) -> u64 {
    if is_zero_bits(b) {
        0
    } else {
        (f_frac_bits(b) | 0x10_0000_0000_0000) >> ((52 - (f_exp_bits(b) - 1023)) as u64)
    }
}

/// The signed value of a small whole double; negative zero normalizes to 0.
pub open spec fn small_whole_val(b: u64) -> int {
    if is_zero_bits(b) {
        0
    } else if f_negative(b) {
        -(small_whole_mag(b) as int)
    } else {
        small_whole_mag(b) as int
    }
}

/// When the bits denote a small whole value, extracts it.
fn try_small_whole(b: u64) -> (r: Option<i64>)
    ensures
        r is Some <==> is_small_whole(b),
        r matches Some(v) ==> v as int == small_whole_val(b),
{
    let expb = (b >> 52) & 0x7ff;
    if expb == 0x7ff {
        return None;
    }
    if b == 0 || b == 0x8000_0000_0000_0000 {
        return Some(0i64);
    }
    if expb < 1023 {
        return None;
    }
    let e = expb - 1023;
    if e > 51 {
        return None;
    }
    let frac = b & 0xf_ffff_ffff_ffff;
    let sh = 52 - e;
    proof {
        assert(1 <= sh <= 52);
        assert(sh <= 52 ==> (1u64 << sh) >= 1) by (bit_vector);
    }
    if (frac & ((1u64 << sh) - 1)) != 0 {
        return None;
    }
    let mag = (frac | 0x10_0000_0000_0000) >> sh;
    if mag >= 1_000_000_000_000_000 {
        return None;
    }
    let v = mag as i64;
    if (b >> 63) == 1 {
        Some(-v)
    } else {
        Some(v)
    }
}

/// The bits of a double are zero, or a field is set: used to connect the
/// zero test with the exponent and fraction fields.
pub open spec fn b_nonzero_fields(b: u64) -> bool {
    b == 0 || b == 0x8000_0000_0000_0000 || ((b >> 52) & 0x7ff) != 0 || (b & 0xf_ffff_ffff_ffff)
        != 0
}

/// The binary mantissa of a finite non-zero double: the fraction bits, with
/// the implicit leading one for normal values.
pub open spec fn f_mantissa(b: u64) -> u64 {
    if f_exp_bits(b) == 0 {
        f_frac_bits(b)
    } else {
        f_frac_bits(b) | 0x10_0000_0000_0000
    }
}

/// The binary scale of a finite non-zero double: its value is
/// `f_mantissa(b) * 2^f_bin_exp(b)`.
pub open spec fn f_bin_exp(b: u64) -> int {
    if f_exp_bits(b) == 0 {
        -1074
    } else {
        f_exp_bits(b) - 1075
    }
}

/// Little-endian decimal digits of a 64-bit value, no high zeros.
pub open spec fn digits_u64(m: u64) -> Seq<u8>
    decreases m,
{
    if m < 10 {
        seq![m as u8]
    } else {
        seq![(m % 10) as u8] + digits_u64(m / 10)
    }
}

/// One multiply-with-carry pass over little-endian decimal digits; the
/// final carry's digits are appended on top.
pub open spec fn dmul_acc(d: Seq<u8>, c: u64, carry: u64) -> Seq<u8>
    decreases d.len(),
{
    if d.len() == 0 {
        if carry == 0 {
            Seq::empty()
        } else {
            digits_u64(carry)
        }
    } else {
        seq![((d[0] * c + carry) % 10) as u8] + dmul_acc(
            d.skip(1),
            c,
            ((d[0] * c + carry) / 10) as u64,
        )
    }
}

/// `n` multiply passes by the small constant `c`.
pub open spec fn dmul_n(d: Seq<u8>, c: u64, n: nat) -> Seq<u8>
    decreases n,
{
    if n == 0 {
        d
    } else {
        dmul_acc(dmul_n(d, c, (n - 1) as nat), c, 0)
    }
}

/// The little-endian decimal digits of the scaled integer behind a finite
/// non-zero double: the mantissa times `2^p` for a non-negative binary
/// exponent `p`, or times `5^-p` for a negative one (shifting the decimal
/// point `-p` places instead).
pub open spec fn scaled_digits(b: u64) -> Seq<u8> {
    let p = f_bin_exp(b);
    if p >= 0 {
        dmul_n(digits_u64(f_mantissa(b)), 2, p as nat)
    } else {
        dmul_n(digits_u64(f_mantissa(b)), 5, (-p) as nat)
    }
}

/// How many digits of the scaled integer lie behind the decimal point.
pub open spec fn scale_of(b: u64) -> nat {
    let p = f_bin_exp(b);
    if p >= 0 {
        0
    } else {
        (-p) as nat
    }
}

/// The decimal exponent of a finite non-zero double.
pub open spec fn dec_exp(b: u64) -> int {
    scaled_digits(b).len() - 1 - scale_of(b)
}

/// Some digit of the dropped tail is non-zero.
pub open spec fn has_nonzero(d: Seq<u8>) -> bool {
    exists|i: int| 0 <= i < d.len() && d[i] != 0
}

/// Adds one to a little-endian digit vector.
pub open spec fn dinc(d: Seq<u8>) -> Seq<u8>
    decreases d.len(),
{
    if d.len() == 0 {
        seq![1u8]
    } else if d[0] < 9 {
        seq![(d[0] + 1) as u8] + d.skip(1)
    } else {
        seq![0u8] + dinc(d.skip(1))
    }
}

/// Drops the low `cut` digits, rounding the kept digits to nearest with
/// ties to even, as fixed-precision decimal formatting does.
pub open spec fn round_at(d: Seq<u8>, cut: int) -> Seq<u8> {
    if cut <= 0 || d.len() < cut {
        d
    } else {
        let kept = d.skip(cut);
        let top = d[cut - 1];
        let up = top > 5 || (top == 5 && has_nonzero(d.take(cut - 1))) || (top == 5
            && !has_nonzero(d.take(cut - 1)) && kept.len() > 0 && kept[0] % 2 == 1);
        if up {
            dinc(kept)
        } else {
            kept
        }
    }
}

/// Prepends `n` zero digits below the low end.
pub open spec fn pad_low(d: Seq<u8>, n: nat) -> Seq<u8>
    decreases n,
{
    if n == 0 {
        d
    } else {
        seq![0u8] + pad_low(d, (n - 1) as nat)
    }
}

/// The digits at positions `hi - 1` down to `lo`, as characters.
pub open spec fn chars_be(d: Seq<u8>, lo: int, hi: int) -> Seq<char>
    decreases hi - lo,
{
    if hi <= lo {
        Seq::empty()
    } else {
        seq![dec_digit(d[hi - 1] as nat)] + chars_be(d, lo, hi - 1)
    }
}

/// The digits at positions `j - 1` down to 0, as characters, reading a
/// missing position as zero.
pub open spec fn frac_chars(d: Seq<u8>, j: int) -> Seq<char>
    decreases j,
{
    if j <= 0 {
        Seq::empty()
    } else {
        seq![
            dec_digit(
                if j - 1 < d.len() {
                    d[j - 1] as nat
                } else {
                    0
                },
            ),
        ] + frac_chars(d, j - 1)
    }
}

/// Trailing zeros removed.
pub open spec fn trim_zeros(s: Seq<char>) -> Seq<char>
    decreases s.len(),
{
    if s.len() > 0 && s.last() == '0' {
        trim_zeros(s.drop_last())
    } else {
        s
    }
}

/// Trailing zeros removed, then a trailing decimal point removed.
pub open spec fn trim_number(s: Seq<char>) -> Seq<char> {
    let t = trim_zeros(s);
    if t.len() > 0 && t.last() == '.' {
        t.drop_last()
    } else {
        t
    }
}

/// Fixed-point text of a digit vector with `q` digits behind the point,
/// trailing zeros and a trailing point trimmed.
pub open spec fn point_text(d: Seq<u8>, q: int) -> Seq<char> {
    let int_part = if d.len() <= q {
        seq!['0']
    } else {
        chars_be(d, q, d.len() as int)
    };
    trim_number(int_part + seq!['.'] + frac_chars(d, q))
}

/// The exponent suffix: `e+` and two zero-padded digits for a non-negative
/// exponent, `e-` and two zero-padded digits for a negative one.
pub open spec fn exp_suffix(e: int) -> Seq<char> {
    if e >= 0 {
        seq!['e', '+'] + pad2_text(e as nat)
    } else {
        seq!['e', '-'] + pad2_text((-e) as nat)
    }
}

/// The canonical text of a finite non-zero, non-small-whole double.
pub open spec fn big_float_text(b: u64) -> Seq<char> {
    let d = scaled_digits(b);
    let s = scale_of(b);
    let e = dec_exp(b);
    let sign: Seq<char> = if f_negative(b) {
        seq!['-']
    } else {
        Seq::empty()
    };
    if -4 <= e && e < 15 {
        let fixed = if s >= 15 {
            round_at(d, s - 15)
        } else {
            pad_low(d, (15 - s) as nat)
        };
        sign + point_text(fixed, 15)
    } else {
        let mantissa = if d.len() >= 16 {
            round_at(d, d.len() - 16)
        } else {
            pad_low(d, (16 - d.len()) as nat)
        };
        sign + point_text(mantissa, 15) + exp_suffix(e)
    }
}

/// The canonical text of a finite double.
pub open spec fn finite_float_text(b: u64) -> Seq<char> {
    if is_small_whole(b) {
        int_text(small_whole_val(b))
    } else {
        big_float_text(b)
    }
}

/// Little-endian decimal digits of `m`.
fn digits_u64_vec(m: u64) -> (r: Vec<u8>)
    ensures
        r@ == digits_u64(m),
    decreases m,
{
    if m < 10 {
        let mut v: Vec<u8> = Vec::new();
        v.push(m as u8);
        proof {
            assert(v@ =~= digits_u64(m));
        }
        v
    } else {
        assert(m / 10 < m) by (nonlinear_arith)
            requires
                m >= 10,
        ;
        let mut rest = digits_u64_vec(m / 10);
        rest.insert(0, (m % 10) as u8);
        proof {
            assert(rest@ =~= digits_u64(m));
        }
        rest
    }
}

/// One multiply-with-carry pass, from digit `i` up.
fn dmul_vec(d: &Vec<u8>, i: usize, c: u64, carry: u64) -> (r: Vec<u8>)
    requires
        i <= d@.len(),
        c <= 5,
        carry <= 9,
        forall|j: int| 0 <= j < d@.len() ==> #[trigger] d@[j] < 10,
    ensures
        r@ == dmul_acc(d@.skip(i as int), c, carry),
    decreases d.len() - i,
{
    if i >= d.len() {
        proof {
            assert(d@.skip(i as int) =~= Seq::<u8>::empty());
        }
        if carry == 0 {
            Vec::new()
        } else {
            digits_u64_vec(carry)
        }
    } else {
        let di = d[i];
        assert(di < 10);
        proof {
            assert(di * c <= 45) by (nonlinear_arith)
                requires
                    di < 10,
                    c <= 5,
            ;
        }
        let t = (di as u64) * c + carry;
        proof {
            assert(t <= 54);
            assert(d@.skip(i as int)[0] == d@[i as int]);
            assert(d@.skip(i as int).skip(1) =~= d@.skip(i as int + 1));
        }
        let mut rest = dmul_vec(d, i + 1, c, t / 10);
        rest.insert(0, (t % 10) as u8);
        proof {
            assert(rest@ =~= dmul_acc(d@.skip(i as int), c, carry));
        }
        rest
    }
}

/// Digits stay below ten and the result stays normalized (non-empty with a
/// non-zero top digit) under a multiply pass.
proof fn lemma_dmul_wf(d: Seq<u8>, c: u64, carry: u64)
    requires
        1 <= c <= 5,
        carry <= 9,
        forall|j: int| 0 <= j < d.len() ==> #[trigger] d[j] < 10,
    ensures
        forall|j: int|
            0 <= j < dmul_acc(d, c, carry).len() ==> #[trigger] dmul_acc(d, c, carry)[j] < 10,
        d.len() == 0 && carry > 0 ==> dmul_acc(d, c, carry).len() > 0 && dmul_acc(
            d,
            c,
            carry,
        ).last() != 0,
        d.len() > 0 && d.last() != 0 ==> dmul_acc(d, c, carry).len() > 0 && dmul_acc(
            d,
            c,
            carry,
        ).last() != 0,
        dmul_acc(d, c, carry).len() >= d.len(),
        dmul_acc(d, c, carry).len() <= d.len() + 1,
    decreases d.len(),
{
    if d.len() == 0 {
        if carry > 0 {
            lemma_digits_u64_wf(carry);
        }
    } else {
        assert(d[0] < 10);
        assert(d[0] * c + carry <= 54) by (nonlinear_arith)
            requires
                d[0] < 10,
                c <= 5,
                carry <= 9,
        ;
        let t = d[0] * c + carry;
        assert(forall|j: int| 0 <= j < d.skip(1).len() ==> #[trigger] d.skip(1)[j] < 10) by {
            assert(forall|j: int| 0 <= j < d.skip(1).len() ==> d.skip(1)[j] == d[j + 1]);
        }
        lemma_dmul_wf(d.skip(1), c, ((t / 10) as u64));
        let rest = dmul_acc(d.skip(1), c, ((t / 10) as u64));
        let whole = dmul_acc(d, c, carry);
        assert(whole == seq![(t % 10) as u8] + rest);
        assert(forall|j: int| 0 <= j < whole.len() ==> #[trigger] whole[j] < 10) by {
            assert(forall|j: int| 1 <= j < whole.len() ==> whole[j] == rest[j - 1]);
        }
        if d.last() != 0 {
            if d.len() == 1 {
                assert(d.last() == d[0]);
                assert(t >= c) by (nonlinear_arith)
                    requires
                        t == d[0] * c + carry,
                        d[0] >= 1,
                        c >= 1,
                        carry >= 0,
                ;
                assert(d.skip(1).len() == 0);
                if t < 10 {
                    assert(t / 10 == 0);
                    assert(rest =~= Seq::<u8>::empty());
                    assert(whole.last() == (t % 10) as u8);
                    assert(t % 10 == t);
                } else {
                    assert(t / 10 > 0);
                    assert(rest.len() > 0 && rest.last() != 0);
                    assert(whole.last() == rest.last());
                }
            } else {
                assert(d.skip(1).last() == d.last());
                assert(rest.len() > 0 && rest.last() != 0);
                assert(whole.last() == rest.last());
            }
        }
    }
}

/// The digits of a value are decimal digits with a non-zero top.
proof fn lemma_digits_u64_wf(m: u64)
    ensures
        forall|j: int| 0 <= j < digits_u64(m).len() ==> #[trigger] digits_u64(m)[j] < 10,
        digits_u64(m).len() > 0,
        m > 0 ==> digits_u64(m).last() != 0,
    decreases m,
{
    if m < 10 {
    } else {
        assert(m / 10 < m) by (nonlinear_arith)
            requires
                m >= 10,
        ;
        lemma_digits_u64_wf(m / 10);
        assert(m / 10 > 0) by (nonlinear_arith)
            requires
                m >= 10,
        ;
        let whole = digits_u64(m);
        let rest = digits_u64(m / 10);
        assert(whole == seq![(m % 10) as u8] + rest);
        assert(whole.last() == rest.last());
        assert(forall|j: int| 1 <= j < whole.len() ==> whole[j] == rest[j - 1]);
    }
}

/// A crude digit-count bound, enough to keep lengths well inside machine
/// range.
proof fn lemma_digits_u64_len(m: u64)
    ensures
        digits_u64(m).len() <= m + 1,
    decreases m,
{
    if m < 10 {
    } else {
        assert(m / 10 < m) by (nonlinear_arith)
            requires
                m >= 10,
        ;
        lemma_digits_u64_len(m / 10);
    }
}

/// Scaled digits: multiply the mantissa's digits out by `2^p` or `5^-p`.
fn scaled_digits_vec(b: u64) -> (r: Vec<u8>)
    requires
        f_exp_bits(b) != 0x7ff,
        !is_zero_bits(b),
        f_frac_bits(b) != 0 || f_exp_bits(b) != 0,
    ensures
        r@ == scaled_digits(b),
        forall|j: int| 0 <= j < r@.len() ==> #[trigger] r@[j] < 10,
        r@.len() > 0,
        r@.last() != 0,
        r@.len() <= 0x20_0000_0000_0000 + 1075,
{
    let expb = (b >> 52) & 0x7ff;
    let frac = b & 0xf_ffff_ffff_ffff;
    let m: u64 = if expb == 0 {
        frac
    } else {
        frac | 0x10_0000_0000_0000
    };
    let (c, n): (u64, u64) = if expb >= 1075 {
        (2, expb - 1075)
    } else if expb == 0 {
        (5, 1074)
    } else {
        (5, 1075 - expb)
    };
    proof {
        assert(m == f_mantissa(b));
        if expb != 0 {
            assert((frac | 0x10_0000_0000_0000) > 0) by (bit_vector);
        }
        assert(m > 0);
        assert(m < 0x20_0000_0000_0000) by (bit_vector)
            requires
                m == (b & 0xf_ffff_ffff_ffff) || m == ((b & 0xf_ffff_ffff_ffff)
                    | 0x10_0000_0000_0000),
        ;
        lemma_digits_u64_wf(m);
        lemma_digits_u64_len(m);
    }
    proof {
        assert(((b >> 52) & 0x7ff) <= 0x7ff) by (bit_vector);
    }
    let mut d = digits_u64_vec(m);
    let mut i: u64 = 0;
    while i < n
        invariant
            i <= n,
            c == 2 || c == 5,
            n <= 1075,
            d@ == dmul_n(digits_u64(m), c, i as nat),
            forall|j: int| 0 <= j < d@.len() ==> #[trigger] d@[j] < 10,
            d@.len() > 0,
            d@.last() != 0,
            d@.len() <= digits_u64(m).len() + i,
        decreases n - i,
    {
        proof {
            lemma_dmul_wf(d@, c, 0);
        }
        let next = dmul_vec(&d, 0, c, 0);
        proof {
            assert(d@.skip(0) =~= d@);
        }
        d = next;
        i = i + 1;
    }
    proof {
        if f_bin_exp(b) >= 0 {
            assert(c == 2 && n as int == f_bin_exp(b));
        } else {
            assert(c == 5 && n as int == -f_bin_exp(b));
        }
    }
    d
}

/// Adds one to a little-endian digit vector, from position `i` up.
fn dinc_vec(d: &Vec<u8>, i: usize) -> (r: Vec<u8>)
    requires
        i <= d@.len(),
        forall|j: int| 0 <= j < d@.len() ==> #[trigger] d@[j] < 10,
    ensures
        r@ == dinc(d@.skip(i as int)),
    decreases d.len() - i,
{
    if i >= d.len() {
        proof {
            assert(d@.skip(i as int) =~= Seq::<u8>::empty());
        }
        let mut v: Vec<u8> = Vec::new();
        v.push(1u8);
        proof {
            assert(v@ =~= dinc(Seq::<u8>::empty()));
        }
        v
    } else {
        proof {
            assert(d@.skip(i as int)[0] == d@[i as int]);
            assert(d@.skip(i as int).skip(1) =~= d@.skip(i as int + 1));
        }
        if d[i] < 9 {
            let mut v: Vec<u8> = Vec::new();
            v.push(d[i] + 1);
            let mut j = i + 1;
            while j < d.len()
                invariant
                    i + 1 <= j <= d.len(),
                    forall|k: int| 0 <= k < d@.len() ==> #[trigger] d@[k] < 10,
                    v@ == seq![(d@[i as int] + 1) as u8] + d@.subrange(i as int + 1, j as int),
                decreases d.len() - j,
            {
                v.push(d[j]);
                proof {
                    assert(v@ =~= seq![(d@[i as int] + 1) as u8] + d@.subrange(
                        i as int + 1,
                        j as int + 1,
                    ));
                }
                j = j + 1;
            }
            proof {
                assert(d@.subrange(i as int + 1, d@.len() as int) =~= d@.skip(i as int + 1));
                assert(v@ =~= dinc(d@.skip(i as int)));
            }
            v
        } else {
            let mut rest = dinc_vec(d, i + 1);
            rest.insert(0, 0u8);
            proof {
                assert(rest@ =~= dinc(d@.skip(i as int)));
            }
            rest
        }
    }
}

/// Drops the low `cut` digits with round-to-nearest, ties to even.
fn round_at_vec(d: &Vec<u8>, cut: usize) -> (r: Vec<u8>)
    requires
        forall|j: int| 0 <= j < d@.len() ==> #[trigger] d@[j] < 10,
    ensures
        r@ == round_at(d@, cut as int),
{
    if cut == 0 || d.len() < cut {
        let mut v: Vec<u8> = Vec::new();
        let mut j: usize = 0;
        while j < d.len()
            invariant
                j <= d.len(),
                v@ == d@.subrange(0, j as int),
            decreases d.len() - j,
        {
            v.push(d[j]);
            proof {
                assert(v@ =~= d@.subrange(0, j as int + 1));
            }
            j = j + 1;
        }
        proof {
            assert(v@ =~= d@);
        }
        return v;
    }
    // kept digits
    let mut kept: Vec<u8> = Vec::new();
    let mut j: usize = cut;
    while j < d.len()
        invariant
            cut <= j <= d.len(),
            kept@ == d@.subrange(cut as int, j as int),
        decreases d.len() - j,
    {
        kept.push(d[j]);
        proof {
            assert(kept@ =~= d@.subrange(cut as int, j as int + 1));
        }
        j = j + 1;
    }
    proof {
        assert(kept@ =~= d@.skip(cut as int));
    }
    let top = d[cut - 1];
    let mut lower_nonzero = false;
    let mut k: usize = 0;
    while k < cut - 1
        invariant
            k <= cut - 1 < d.len(),
            lower_nonzero == has_nonzero(d@.take(k as int)),
        decreases cut - 1 - k,
    {
        proof {
            assert(d@.take(k as int + 1)[k as int] == d@[k as int]);
            assert(forall|x: int| 0 <= x < k ==> d@.take(k as int + 1)[x] == d@.take(k as int)[x]);
        }
        if d[k] != 0 {
            lower_nonzero = true;
        }
        proof {
            if lower_nonzero {
                if d@[k as int] != 0 {
                    assert(has_nonzero(d@.take(k as int + 1)));
                } else {
                    let wi = choose|x: int| 0 <= x < k && d@.take(k as int)[x] != 0;
                    assert(d@.take(k as int + 1)[wi] != 0);
                }
            } else {
                assert(!has_nonzero(d@.take(k as int + 1))) by {
                    assert(forall|x: int|
                        0 <= x < k + 1 ==> #[trigger] d@.take(k as int + 1)[x] == d@[x]);
                    assert(forall|x: int| 0 <= x < k ==> #[trigger] d@.take(k as int)[x] == d@[x]);
                }
            }
        }
        k = k + 1;
    }
    proof {
        assert(d@.take(cut as int - 1) =~= d@.take(k as int));
    }
    let up = top > 5 || (top == 5 && lower_nonzero) || (top == 5 && !lower_nonzero && kept.len()
        > 0 && kept[0] % 2 == 1);
    if up {
        let r = dinc_vec(&kept, 0);
        proof {
            assert(kept@.skip(0) =~= kept@);
        }
        r
    } else {
        kept
    }
}

/// Appends the digit characters at positions `hi - 1` down to `lo`.
fn push_chars_be(out: &mut String, d: &Vec<u8>, lo: usize, hi: usize)
    requires
        hi <= d@.len(),
        forall|j: int| 0 <= j < d@.len() ==> #[trigger] d@[j] < 10,
    ensures
        final (out)@ == old(out)@ + chars_be(d@, lo as int, hi as int),
    decreases hi - lo,
{
    if hi <= lo {
        proof {
            assert(old(out)@ + chars_be(d@, lo as int, hi as int) =~= old(out)@);
        }
    } else {
        push_char(out, dec_digit_char(d[hi - 1] as u64));
        push_chars_be(out, d, lo, hi - 1);
        proof {
            assert(old(out)@.push(dec_digit(d@[hi as int - 1] as nat)) =~= old(out)@ + seq![
                dec_digit(d@[hi as int - 1] as nat),
            ]);
            assert(old(out)@ + seq![dec_digit(d@[hi as int - 1] as nat)] + chars_be(
                d@,
                lo as int,
                hi as int - 1,
            ) =~= old(out)@ + chars_be(d@, lo as int, hi as int));
        }
    }
}

/// Appends the digit characters at positions `j - 1` down to 0, reading a
/// missing position as zero.
fn push_frac_chars(out: &mut String, d: &Vec<u8>, j: usize)
    requires
        forall|k: int| 0 <= k < d@.len() ==> #[trigger] d@[k] < 10,
    ensures
        final (out)@ == old(out)@ + frac_chars(d@, j as int),
    decreases j,
{
    if j == 0 {
        proof {
            assert(old(out)@ + frac_chars(d@, 0) =~= old(out)@);
        }
    } else {
        let digit: u8 = if j - 1 < d.len() {
            d[j - 1]
        } else {
            0
        };
        push_char(out, dec_digit_char(digit as u64));
        push_frac_chars(out, d, j - 1);
        proof {
            assert(old(out)@.push(dec_digit(digit as nat)) =~= old(out)@ + seq![
                dec_digit(digit as nat),
            ]);
            assert(old(out)@ + seq![dec_digit(digit as nat)] + frac_chars(d@, j as int - 1) =~= old(
                out,
            )@ + frac_chars(d@, j as int));
        }
    }
}

/// Trailing zeros, then a trailing point, trimmed from the end of `out`.
fn trim_number_str(s: &str) -> (r: String)
    ensures
        r@ == trim_number(s@),
{
    let n = s.unicode_len();
    let mut k: usize = n;
    proof {
        assert(s@.take(n as int) =~= s@);
    }
    while k > 0 && s.get_char(k - 1) == '0'
        invariant
            k <= n,
            n == s@.len(),
            trim_zeros(s@) == trim_zeros(s@.take(k as int)),
        decreases k,
    {
        proof {
            assert(s@.take(k as int).last() == s@[k as int - 1]);
            assert(s@.take(k as int).drop_last() =~= s@.take(k as int - 1));
        }
        k = k - 1;
    }
    proof {
        assert(trim_zeros(s@.take(k as int)) == s@.take(k as int));
    }
    if k > 0 && s.get_char(k - 1) == '.' {
        proof {
            assert(s@.take(k as int).last() == s@[k as int - 1]);
            assert(s@.take(k as int).drop_last() =~= s@.take(k as int - 1));
        }
        k = k - 1;
    }
    let part = s.substring_char(0, k);
    proof {
        assert(part@ =~= trim_number(s@));
    }
    String::from_str(part)
}

/// Builds the trimmed fixed-point text of a digit vector with `q` digits
/// behind the point.
fn point_text_str(d: &Vec<u8>, q: usize) -> (r: String)
    requires
        forall|j: int| 0 <= j < d@.len() ==> #[trigger] d@[j] < 10,
    ensures
        r@ == point_text(d@, q as int),
{
    let mut raw = String::new();
    if d.len() <= q {
        push_char(&mut raw, '0');
        proof {
            assert(Seq::<char>::empty().push('0') =~= seq!['0']);
        }
    } else {
        push_chars_be(&mut raw, d, q, d.len());
        proof {
            assert(Seq::<char>::empty() + chars_be(d@, q as int, d@.len() as int) =~= chars_be(
                d@,
                q as int,
                d@.len() as int,
            ));
        }
    }
    let ghost int_part = raw@;
    push_char(&mut raw, '.');
    proof {
        assert(raw@ =~= int_part + seq!['.']);
    }
    push_frac_chars(&mut raw, d, q);
    let r = trim_number_str(raw.as_str());
    proof {
        assert(raw@ =~= int_part + seq!['.'] + frac_chars(d@, q as int));
    }
    r
}

/// A pad-or-round of the digit vector to `q` digits behind the point and a
/// bounded total, shared by both rendering branches.
fn adjust_digits(d: Vec<u8>, cut_ge: bool, cut: usize, pad: usize) -> (r: Vec<u8>)
    requires
        forall|j: int| 0 <= j < d@.len() ==> #[trigger] d@[j] < 10,
    ensures
        cut_ge ==> r@ == round_at(d@, cut as int),
        !cut_ge ==> r@ == pad_low(d@, pad as nat),
        forall|j: int| 0 <= j < r@.len() ==> #[trigger] r@[j] < 10,
{
    if cut_ge {
        let r = round_at_vec(&d, cut);
        proof {
            lemma_round_at_digits(d@, cut as int);
        }
        r
    } else {
        let mut c = d;
        let ghost orig = c@;
        let mut added: usize = 0;
        while added < pad
            invariant
                added <= pad,
                c@ == pad_low(orig, added as nat),
                forall|j: int| 0 <= j < orig.len() ==> #[trigger] orig[j] < 10,
            decreases pad - added,
        {
            c.insert(0, 0u8);
            proof {
                lemma_pad_low_step(orig, added as nat);
            }
            added = added + 1;
        }
        proof {
            lemma_pad_low_digits(orig, pad as nat);
        }
        c
    }
}

/// Builds the text of a finite, non-zero double that is not a small whole
/// value.
#[verifier::rlimit(100)]
fn big_float_str(bits: u64) -> (r: String)
    requires
        f_exp_bits(bits) != 0x7ff,
        !is_small_whole(bits),
    ensures
        r@ == big_float_text(bits),
{
    proof {
        assert(b_nonzero_fields(bits)) by (bit_vector);
    }
    let expb = (bits >> 52) & 0x7ff;
    let d = scaled_digits_vec(bits);
    let s: u64 = if expb >= 1075 {
        0
    } else if expb == 0 {
        1074
    } else {
        1075 - expb
    };
    proof {
        assert(s as nat == scale_of(bits));
        assert(d@.len() <= 0x20_0000_0000_0000 + 1075);
    }
    let e: i64 = (d.len() as i64) - 1 - (s as i64);
    proof {
        assert(e as int == dec_exp(bits));
    }
    let mut out = String::new();
    if (bits >> 63) == 1 {
        push_char(&mut out, '-');
    }
    let ghost sign_part = out@;
    proof {
        if f_negative(bits) {
            assert(sign_part =~= seq!['-']);
        } else {
            assert(sign_part =~= Seq::<char>::empty());
        }
    }
    if -4 <= e && e < 15 {
        let fixed = adjust_digits(d, s >= 15, if s >= 15 {
            (s - 15) as usize
        } else {
            0
        }, if s >= 15 {
            0
        } else {
            (15 - s) as usize
        });
        let text = point_text_str(&fixed, 15);
        push_str_part(&mut out, text.as_str());
        proof {
            assert(out@ =~= big_float_text(bits));
        }
        out
    } else {
        let cut_ge = d.len() >= 16;
        let cut = if cut_ge {
            d.len() - 16
        } else {
            0
        };
        let pad = if cut_ge {
            0
        } else {
            16 - d.len()
        };
        let mantissa = adjust_digits(d, cut_ge, cut, pad);
        let text = point_text_str(&mantissa, 15);
        push_str_part(&mut out, text.as_str());
        push_char(&mut out, 'e');
        let mag: u64 = if e >= 0 {
            push_char(&mut out, '+');
            e as u64
        } else {
            push_char(&mut out, '-');
            (-e) as u64
        };
        push_pad2(&mut out, mag);
        proof {
            assert(out@ =~= big_float_text(bits));
        }
        out
    }
}

/// Canonical text of a double given by its bit pattern. NaN and infinity
/// are rejected with `InvalidNumber`; negative zero normalizes to `0`.
pub fn canon_float(bits: u64) -> (r: Result<String, GlyphError>)
    ensures
        r is Err <==> is_nan_bits(bits) || is_inf_bits(bits),
        r matches Err(e) ==> e == GlyphError::InvalidNumber,
        r matches Ok(s) ==> s@ == finite_float_text(bits),
{
    let expb = (bits >> 52) & 0x7ff;
    if expb == 0x7ff {
        return Err(GlyphError::InvalidNumber);
    }
    match try_small_whole(bits) {
        Some(v) => Ok(canon_int(v)),
        None => Ok(big_float_str(bits)),
    }
}

/// Padding below keeps digits below ten.
proof fn lemma_pad_low_digits(d: Seq<u8>, n: nat)
    requires
        forall|j: int| 0 <= j < d.len() ==> #[trigger] d[j] < 10,
    ensures
        forall|j: int| 0 <= j < pad_low(d, n).len() ==> #[trigger] pad_low(d, n)[j] < 10,
    decreases n,
{
    if n == 0 {
    } else {
        lemma_pad_low_digits(d, (n - 1) as nat);
        assert(forall|j: int|
            1 <= j < pad_low(d, n).len() ==> pad_low(d, n)[j] == pad_low(d, (n - 1) as nat)[j - 1]);
    }
}

/// One more low zero.
proof fn lemma_pad_low_step(d: Seq<u8>, n: nat)
    ensures
        seq![0u8] + pad_low(d, n) == pad_low(d, (n + 1) as nat),
{
}

/// Rounding keeps digits below ten.
proof fn lemma_round_at_digits(d: Seq<u8>, cut: int)
    requires
        forall|j: int| 0 <= j < d.len() ==> #[trigger] d[j] < 10,
    ensures
        forall|j: int|
            0 <= j < round_at(d, cut).len() ==> #[trigger] round_at(d, cut)[j] < 10,
{
    if cut <= 0 || d.len() < cut {
    } else {
        let kept = d.skip(cut);
        assert(forall|j: int| 0 <= j < kept.len() ==> #[trigger] kept[j] < 10);
        lemma_dinc_digits(kept);
    }
}

/// Adding one keeps digits below ten.
proof fn lemma_dinc_digits(d: Seq<u8>)
    requires
        forall|j: int| 0 <= j < d.len() ==> #[trigger] d[j] < 10,
    ensures
        forall|j: int| 0 <= j < dinc(d).len() ==> #[trigger] dinc(d)[j] < 10,
    decreases d.len(),
{
    if d.len() == 0 {
    } else if d[0] < 9 {
        assert(forall|j: int| 1 <= j < dinc(d).len() ==> dinc(d)[j] == d.skip(1)[j - 1]);
    } else {
        lemma_dinc_digits(d.skip(1));
        assert(forall|j: int| 1 <= j < dinc(d).len() ==> dinc(d)[j] == dinc(d.skip(1))[j - 1]);
    }
}

} // verus!
