//! Lowercase hexadecimal encoding of bytes.

use vstd::prelude::*;
use crate::numfmt::hex_byte;
use crate::numfmt::hex_digit;
use crate::numfmt::hex_digit_char;
use crate::numfmt::hex_text;
use crate::strings::push_char;

verus! {

/// Lowercase hex text of a byte slice, two digits per byte.
pub fn encode(data: &[u8]) -> (r: String)
    ensures
        r@ == hex_text(data@),
{
    let mut out = String::new();
    push_hex(&mut out, data, 0);
    proof {
        assert(data@.skip(0) =~= data@);
        assert(Seq::<char>::empty() + hex_text(data@) =~= hex_text(data@));
    }
    out
}

/// Appends the hex digits of the bytes from index `i` on.
fn push_hex(out: &mut String, data: &[u8], i: usize)
    requires
        i <= data@.len(),
    ensures
        final (out)@ == old(out)@ + hex_text(data@.skip(i as int)),
    decreases data@.len() - i,
{
    if i >= data.len() {
        proof {
            assert(data@.skip(i as int) =~= Seq::<u8>::empty());
            assert(old(out)@ + hex_text(data@.skip(i as int)) =~= old(out)@);
        }
    } else {
        let b = data[i];
        push_char(out, hex_digit_char(b / 16));
        push_char(out, hex_digit_char(b % 16));
        push_hex(out, data, i + 1);
        proof {
            assert(data@.skip(i as int)[0] == data@[i as int]);
            assert(data@.skip(i as int).skip(1) =~= data@.skip(i as int + 1));
            assert(old(out)@ + hex_byte(data@[i as int]) + hex_text(data@.skip(i as int + 1))
                =~= old(out)@ + hex_text(data@.skip(i as int)));
            assert(old(out)@.push(hex_digit((data@[i as int] / 16) as nat)).push(
                hex_digit((data@[i as int] % 16) as nat),
            ) =~= old(out)@ + hex_byte(data@[i as int]));
        }
    }
}

} // verus!
