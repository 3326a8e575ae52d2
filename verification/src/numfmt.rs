//! Canonical decimal and hexadecimal digit text for integers.

use vstd::prelude::*;
use crate::strings::push_char;

verus! {

/// The decimal digit character for a value below ten.
pub open spec fn dec_digit(d: nat) -> char {
    if d == 0 {
        '0'
    } else if d == 1 {
        '1'
    } else if d == 2 {
        '2'
    } else if d == 3 {
        '3'
    } else if d == 4 {
        '4'
    } else if d == 5 {
        '5'
    } else if d == 6 {
        '6'
    } else if d == 7 {
        '7'
    } else if d == 8 {
        '8'
    } else {
        '9'
    }
}

/// The lowercase hexadecimal digit character for a value below sixteen.
pub open spec fn hex_digit(d: nat) -> char {
    if d < 10 {
        dec_digit(d)
    } else if d == 10 {
        'a'
    } else if d == 11 {
        'b'
    } else if d == 12 {
        'c'
    } else if d == 13 {
        'd'
    } else if d == 14 {
        'e'
    } else {
        'f'
    }
}

/// Decimal text of a natural number, no leading zeros.
pub open spec fn nat_text(n: nat) -> Seq<char>
    decreases n,
{
    if n < 10 {
        seq![dec_digit(n)]
    } else {
        nat_text(n / 10) + seq![dec_digit(n % 10)]
    }
}

/// Decimal text of an integer: a `-` sign exactly when negative, no plus
/// sign, no leading zeros.
pub open spec fn int_text(n: int) -> Seq<char> {
    if n < 0 {
        seq!['-'] + nat_text((-n) as nat)
    } else {
        nat_text(n as nat)
    }
}

/// Decimal text padded with leading zeros to at least two digits.
pub open spec fn pad2_text(n: nat) -> Seq<char> {
    if n < 10 {
        seq!['0'] + nat_text(n)
    } else {
        nat_text(n)
    }
}

/// Decimal text padded with leading zeros to at least four digits.
pub open spec fn pad4_text(n: nat) -> Seq<char> {
    if n < 10 {
        seq!['0', '0', '0'] + nat_text(n)
    } else if n < 100 {
        seq!['0', '0'] + nat_text(n)
    } else if n < 1000 {
        seq!['0'] + nat_text(n)
    } else {
        nat_text(n)
    }
}

/// Two lowercase hex digits of a byte.
pub open spec fn hex_byte(b: u8) -> Seq<char> {
    seq![hex_digit((b / 16) as nat), hex_digit((b % 16) as nat)]
}

/// Lowercase hex text of a byte sequence, two digits per byte.
pub open spec fn hex_text(bs: Seq<u8>) -> Seq<char>
    decreases bs.len(),
{
    if bs.len() == 0 {
        Seq::empty()
    } else {
        hex_byte(bs[0]) + hex_text(bs.skip(1))
    }
}

/// Hex text is two characters per byte.
pub proof fn lemma_hex_text_len(bs: Seq<u8>)
    ensures
        hex_text(bs).len() == 2 * bs.len(),
    decreases bs.len(),
{
    if bs.len() == 0 {
    } else {
        lemma_hex_text_len(bs.skip(1));
    }
}

/// The decimal digit character of `d`.
pub fn dec_digit_char(d: u64) -> (r: char)
    requires
        d < 10,
    ensures
        r == dec_digit(d as nat),
{
    if d == 0 {
        '0'
    } else if d == 1 {
        '1'
    } else if d == 2 {
        '2'
    } else if d == 3 {
        '3'
    } else if d == 4 {
        '4'
    } else if d == 5 {
        '5'
    } else if d == 6 {
        '6'
    } else if d == 7 {
        '7'
    } else if d == 8 {
        '8'
    } else {
        '9'
    }
}

/// The lowercase hexadecimal digit character of `d`.
pub fn hex_digit_char(d: u8) -> (r: char)
    requires
        d < 16,
    ensures
        r == hex_digit(d as nat),
{
    if d < 10 {
        dec_digit_char(d as u64)
    } else if d == 10 {
        'a'
    } else if d == 11 {
        'b'
    } else if d == 12 {
        'c'
    } else if d == 13 {
        'd'
    } else if d == 14 {
        'e'
    } else {
        'f'
    }
}

/// Appends the decimal digits of `m` to `out`.
pub fn push_nat(out: &mut String, m: u64)
    ensures
        final (out)@ == old(out)@ + nat_text(m as nat),
    decreases m,
{
    if m < 10 {
        push_char(out, dec_digit_char(m));
    } else {
        assert(m / 10 < m) by (nonlinear_arith)
            requires
                m >= 10,
        ;
        push_nat(out, m / 10);
        push_char(out, dec_digit_char(m % 10));
        proof {
            assert(old(out)@ + nat_text((m / 10) as nat) + seq![dec_digit((m % 10) as nat)]
                =~= old(out)@ + nat_text(m as nat));
        }
    }
}

/// Appends the decimal digits of `m`, zero-padded to at least two.
pub fn push_pad2(out: &mut String, m: u64)
    ensures
        final (out)@ == old(out)@ + pad2_text(m as nat),
{
    if m < 10 {
        push_char(out, '0');
    }
    push_nat(out, m);
    proof {
        if m < 10 {
            assert(old(out)@ + seq!['0'] + nat_text(m as nat) =~= old(out)@ + pad2_text(m as nat));
        }
    }
}

/// Appends the decimal digits of `m`, zero-padded to at least four.
pub fn push_pad4(out: &mut String, m: u64)
    ensures
        final (out)@ == old(out)@ + pad4_text(m as nat),
{
    let ghost start = out@;
    if m < 10 {
        push_char(out, '0');
        push_char(out, '0');
        push_char(out, '0');
    } else if m < 100 {
        push_char(out, '0');
        push_char(out, '0');
    } else if m < 1000 {
        push_char(out, '0');
    }
    push_nat(out, m);
    proof {
        if m < 10 {
            assert(start + seq!['0'] + seq!['0'] + seq!['0'] + nat_text(m as nat) =~= start
                + pad4_text(m as nat));
        } else if m < 100 {
            assert(start + seq!['0'] + seq!['0'] + nat_text(m as nat) =~= start + pad4_text(
                m as nat,
            ));
        } else if m < 1000 {
            assert(start + seq!['0'] + nat_text(m as nat) =~= start + pad4_text(m as nat));
        }
    }
}

/// Canonical decimal text of an integer.
pub fn canon_int(n: i64) -> (r: String)
    ensures
        r@ == int_text(n as int),
{
    let mut out = String::new();
    if n < 0 {
        push_char(&mut out, '-');
    }
    let m: u64 = if n >= 0 {
        n as u64
    } else {
        (-(n as i128)) as u64
    };
    push_nat(&mut out, m);
    proof {
        if n < 0 {
            assert(m as nat == (-(n as int)) as nat);
            assert(Seq::<char>::empty() + seq!['-'] + nat_text(m as nat) =~= int_text(n as int));
        } else {
            assert(Seq::<char>::empty() + nat_text(m as nat) =~= int_text(n as int));
        }
    }
    out
}

} // verus!
