//! Canonical text for strings: the bare-safe rule, double-quoted escaping,
//! and lexicographic comparison of canonical key texts.

use vstd::prelude::*;
use crate::numfmt::hex_digit;
use crate::numfmt::hex_digit_char;

verus! {

/// Relies on `String::push`: appends one character to the string.
#[verifier::external_body]
pub fn push_char(s: &mut String, c: char)
    ensures
        final (s)@ == old(s)@.push(c),
{
    s.push(c);
}

/// Appends a string slice to `out`.
pub fn push_str_part(out: &mut String, part: &str)
    ensures
        final (out)@ == old(out)@ + part@,
{
    out.append(part);
}

/// Character-wise string equality.
pub fn str_eq(a: &str, b: &str) -> (r: bool)
    ensures
        r == (a@ == b@),
{
    let a_len = a.unicode_len();
    let b_len = b.unicode_len();
    if a_len != b_len {
        assert(a@ != b@);
        return false;
    }
    let mut i: usize = 0;
    while i < a_len
        invariant
            i <= a_len,
            a_len == a@.len(),
            b_len == b@.len(),
            a_len == b_len,
            forall|j: int| 0 <= j < i ==> a@[j] == b@[j],
        decreases a_len - i,
    {
        if a.get_char(i) != b.get_char(i) {
            assert(a@ != b@);
            return false;
        }
        i += 1;
    }
    proof {
        assert(a@ =~= b@);
    }
    true
}

/// A character that may appear in a bare (unquoted) string: ASCII
/// alphanumerics, a few punctuation marks, or anything beyond ASCII.
pub open spec fn is_safe_char(c: char) -> bool {
    (97 <= c as u32 && c as u32 <= 122) || (65 <= c as u32 && c as u32 <= 90) || (48 <= c as u32
        && c as u32 <= 57) || c == '_' || c == '-' || c == '.' || c == '/' || c == '@' || c == ':'
        || c as u32 > 127
}

/// A first character that forces quoting: a digit, a quote, or a dash.
pub open spec fn blocks_bare_start(c: char) -> bool {
    (48 <= c as u32 && c as u32 <= 57) || c == '"' || c == '\'' || c == '-'
}

/// The fixed reserved tokens that always require quoting.
pub open spec fn is_reserved(s: Seq<char>) -> bool {
    s == "t"@ || s == "f"@ || s == "true"@ || s == "false"@ || s == "null"@ || s == "_"@
}

/// A string that is emitted verbatim, without quotes.
pub open spec fn bare_safe(s: Seq<char>) -> bool {
    s.len() > 0 && !blocks_bare_start(s[0]) && !is_reserved(s) && (forall|i: int|
        0 <= i < s.len() ==> is_safe_char(#[trigger] s[i]))
}

/// The escape sequence of one character inside a double-quoted string.
pub open spec fn escape_char(c: char) -> Seq<char> {
    if c == '\\' {
        seq!['\\', '\\']
    } else if c == '"' {
        seq!['\\', '"']
    } else if c == '\n' {
        seq!['\\', 'n']
    } else if c == '\r' {
        seq!['\\', 'r']
    } else if c == '\t' {
        seq!['\\', 't']
    } else if (c as u32) < 32 {
        seq!['\\', 'u', '0', '0', hex_digit((c as u32 / 16) as nat), hex_digit(
            (c as u32 % 16) as nat,
        )]
    } else {
        seq![c]
    }
}

/// The escaped body of a double-quoted string.
pub open spec fn escaped_body(s: Seq<char>) -> Seq<char>
    decreases s.len(),
{
    if s.len() == 0 {
        Seq::empty()
    } else {
        escape_char(s[0]) + escaped_body(s.skip(1))
    }
}

/// The double-quoted form of a string.
pub open spec fn quoted_text(s: Seq<char>) -> Seq<char> {
    seq!['"'] + escaped_body(s) + seq!['"']
}

/// The canonical text of a string: verbatim when bare-safe, else quoted.
pub open spec fn string_text(s: Seq<char>) -> Seq<char> {
    if bare_safe(s) {
        s
    } else {
        quoted_text(s)
    }
}

proof fn lemma_escaped_body_snoc(s: Seq<char>, i: int)
    requires
        0 <= i < s.len(),
    ensures
        escaped_body(s.take(i + 1)) == escaped_body(s.take(i)) + escape_char(s[i]),
    decreases i,
{
    if i == 0 {
        assert(s.take(1) =~= seq![s[0]]);
        assert(s.take(1).skip(1) =~= Seq::<char>::empty());
        assert(s.take(0) =~= Seq::<char>::empty());
        assert(escaped_body(Seq::<char>::empty()) == Seq::<char>::empty());
        assert(escaped_body(s.take(1)) == escape_char(s.take(1)[0]) + escaped_body(
            s.take(1).skip(1),
        ));
        assert(s.take(1)[0] == s[0]);
        assert(escaped_body(s.take(1)) =~= escape_char(s[0]));
        assert(escaped_body(s.take(0)) + escape_char(s[0]) =~= escape_char(s[0]));
    } else {
        let t = s.skip(1);
        lemma_escaped_body_snoc(t, i - 1);
        assert(s.take(i + 1).skip(1) =~= t.take(i));
        assert(s.take(i).skip(1) =~= t.take(i - 1));
        assert(s.take(i + 1)[0] == s[0]);
        assert(s.take(i)[0] == s[0]);
        assert(t[i - 1] == s[i]);
        assert(escaped_body(s.take(i + 1)) == escape_char(s[0]) + escaped_body(t.take(i)));
        assert(escaped_body(s.take(i)) == escape_char(s[0]) + escaped_body(t.take(i - 1)));
        assert(escape_char(s[0]) + (escaped_body(t.take(i - 1)) + escape_char(s[i])) =~= (
        escape_char(s[0]) + escaped_body(t.take(i - 1))) + escape_char(s[i]));
    }
}

fn safe_char(c: char) -> (r: bool)
    ensures
        r == is_safe_char(c),
{
    let u = c as u32;
    (97 <= u && u <= 122) || (65 <= u && u <= 90) || (48 <= u && u <= 57) || c == '_' || c == '-'
        || c == '.' || c == '/' || c == '@' || c == ':' || u > 127
}

/// Whether a string is emitted without quotes: non-empty, not starting with
/// a digit, quote, or dash, not a reserved token, and made only of safe
/// characters.
pub fn is_bare_safe(s: &str) -> (r: bool)
    ensures
        r == bare_safe(s@),
{
    let n = s.unicode_len();
    if n == 0 {
        return false;
    }
    let first = s.get_char(0);
    let fu = first as u32;
    if (48 <= fu && fu <= 57) || first == '"' || first == '\'' || first == '-' {
        return false;
    }
    if str_eq(s, "t") || str_eq(s, "f") || str_eq(s, "true") || str_eq(s, "false") || str_eq(
        s,
        "null",
    ) || str_eq(s, "_") {
        return false;
    }
    let mut i: usize = 0;
    while i < n
        invariant
            i <= n,
            n == s@.len(),
            forall|j: int| 0 <= j < i ==> is_safe_char(#[trigger] s@[j]),
        decreases n - i,
    {
        if !safe_char(s.get_char(i)) {
            return false;
        }
        i += 1;
    }
    true
}

/// The double-quoted, escaped form of a string.
pub fn quote_string(s: &str) -> (r: String)
    ensures
        r@ == quoted_text(s@),
{
    let n = s.unicode_len();
    let mut out = String::new();
    push_char(&mut out, '"');
    let mut i: usize = 0;
    while i < n
        invariant
            i <= n,
            n == s@.len(),
            out@ == seq!['"'] + escaped_body(s@.take(i as int)),
        decreases n - i,
    {
        let c = s.get_char(i);
        let ghost before = out@;
        if c == '\\' {
            push_char(&mut out, '\\');
            push_char(&mut out, '\\');
        } else if c == '"' {
            push_char(&mut out, '\\');
            push_char(&mut out, '"');
        } else if c == '\n' {
            push_char(&mut out, '\\');
            push_char(&mut out, 'n');
        } else if c == '\r' {
            push_char(&mut out, '\\');
            push_char(&mut out, 'r');
        } else if c == '\t' {
            push_char(&mut out, '\\');
            push_char(&mut out, 't');
        } else if (c as u32) < 32 {
            push_char(&mut out, '\\');
            push_char(&mut out, 'u');
            push_char(&mut out, '0');
            push_char(&mut out, '0');
            push_char(&mut out, hex_digit_char(((c as u32) / 16) as u8));
            push_char(&mut out, hex_digit_char(((c as u32) % 16) as u8));
        } else {
            push_char(&mut out, c);
        }
        proof {
            assert(out@ =~= before + escape_char(s@[i as int]));
            lemma_escaped_body_snoc(s@, i as int);
            assert(out@ =~= seq!['"'] + escaped_body(s@.take(i as int + 1)));
        }
        i += 1;
    }
    push_char(&mut out, '"');
    proof {
        assert(s@.take(n as int) =~= s@);
        assert(out@ =~= quoted_text(s@));
    }
    out
}

/// The canonical text of a string.
pub fn canon_string(s: &str) -> (r: String)
    ensures
        r@ == string_text(s@),
{
    if is_bare_safe(s) {
        let mut out = String::new();
        push_str_part(&mut out, s);
        proof {
            assert(Seq::<char>::empty() + s@ =~= s@);
        }
        out
    } else {
        quote_string(s)
    }
}

/// Lexicographic order on character sequences by code point, matching
/// byte-wise comparison of their UTF-8 encodings.
pub open spec fn lex_lt(a: Seq<char>, b: Seq<char>) -> bool
    decreases a.len(),
{
    if b.len() == 0 {
        false
    } else if a.len() == 0 {
        true
    } else if (a[0] as u32) < (b[0] as u32) {
        true
    } else if a[0] == b[0] {
        lex_lt(a.skip(1), b.skip(1))
    } else {
        false
    }
}

/// Non-strict lexicographic order.
pub open spec fn lex_le(a: Seq<char>, b: Seq<char>) -> bool {
    lex_lt(a, b) || a == b
}

/// The order is connex: two sequences not ordered either way are equal.
pub proof fn lemma_lex_connex(a: Seq<char>, b: Seq<char>)
    requires
        !lex_lt(a, b),
        !lex_lt(b, a),
    ensures
        a == b,
    decreases a.len(),
{
    if b.len() == 0 {
        assert(a.len() == 0);
        assert(a =~= b);
    } else if a.len() == 0 {
        assert(false);
    } else {
        if (a[0] as u32) < (b[0] as u32) || (b[0] as u32) < (a[0] as u32) {
            assert(false);
        } else {
            assert(a[0] as u32 == b[0] as u32);
            lemma_char_cast_injective(a[0], b[0]);
            assert(a[0] == b[0]);
            lemma_lex_connex(a.skip(1), b.skip(1));
            assert(a =~= b) by {
                assert(a.skip(1) =~= b.skip(1));
                assert(a[0] == b[0]);
                assert(forall|i: int|
                    1 <= i < a.len() ==> a[i] == a.skip(1)[i - 1] && b[i] == b.skip(1)[i - 1]);
            }
        }
    }
}

/// The strict order is asymmetric.
pub proof fn lemma_lex_asym(a: Seq<char>, b: Seq<char>)
    requires
        lex_lt(a, b),
    ensures
        !lex_lt(b, a),
    decreases a.len(),
{
    if b.len() == 0 {
    } else if a.len() == 0 {
    } else if (a[0] as u32) < (b[0] as u32) {
    } else if a[0] == b[0] {
        lemma_lex_asym(a.skip(1), b.skip(1));
    }
}

/// The strict order is transitive.
pub proof fn lemma_lex_trans(a: Seq<char>, b: Seq<char>, c: Seq<char>)
    requires
        lex_lt(a, b),
        lex_lt(b, c),
    ensures
        lex_lt(a, c),
    decreases a.len(),
{
    if c.len() == 0 {
        assert(false);
    } else if a.len() == 0 {
    } else {
        assert(b.len() > 0);
        if (a[0] as u32) < (b[0] as u32) {
            if (b[0] as u32) < (c[0] as u32) {
            } else {
                assert(b[0] == c[0]);
            }
        } else {
            assert(a[0] == b[0]);
            if (b[0] as u32) < (c[0] as u32) {
            } else {
                assert(b[0] == c[0]);
                lemma_lex_trans(a.skip(1), b.skip(1), c.skip(1));
            }
        }
    }
}

/// Character-wise lexicographic comparison.
pub fn str_lt(a: &str, b: &str) -> (r: bool)
    ensures
        r == lex_lt(a@, b@),
{
    let a_len = a.unicode_len();
    let b_len = b.unicode_len();
    let mut i: usize = 0;
    proof {
        assert(a@.skip(0) =~= a@);
        assert(b@.skip(0) =~= b@);
    }
    loop
        invariant
            i <= a_len,
            i <= b_len,
            a_len == a@.len(),
            b_len == b@.len(),
            lex_lt(a@, b@) == lex_lt(a@.skip(i as int), b@.skip(i as int)),
        decreases a_len - i,
    {
        if i >= b_len {
            proof {
                assert(b@.skip(i as int) =~= Seq::<char>::empty());
            }
            return false;
        }
        if i >= a_len {
            proof {
                assert(a@.skip(i as int) =~= Seq::<char>::empty());
                assert(b@.skip(i as int).len() > 0);
            }
            return true;
        }
        let ca = a.get_char(i);
        let cb = b.get_char(i);
        proof {
            assert(a@.skip(i as int)[0] == a@[i as int]);
            assert(b@.skip(i as int)[0] == b@[i as int]);
            assert(a@.skip(i as int).skip(1) =~= a@.skip(i as int + 1));
            assert(b@.skip(i as int).skip(1) =~= b@.skip(i as int + 1));
        }
        if (ca as u32) < (cb as u32) {
            return true;
        }
        if ca != cb {
            return false;
        }
        i += 1;
    }
}

/// Two characters with the same code point are the same character.
pub proof fn lemma_char_cast_injective(c: char, d: char)
    requires
        c as u32 == d as u32,
    ensures
        c == d,
{
}

} // verus!
