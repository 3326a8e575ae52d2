//! Loose-mode canonicalization: the deterministic canonical string of a
//! value tree under a configuration, with auto-tabular compaction of
//! homogeneous lists, and the derived fingerprint, hash, and equality
//! operations.

use vstd::prelude::*;
use base64::Engine;
use crate::error::GlyphError;
use crate::floatfmt::canon_float;
use crate::floatfmt::finite_float_text;
use crate::floatfmt::is_inf_bits;
use crate::floatfmt::is_nan_bits;
use crate::hex;
use crate::numfmt::canon_int;
use crate::numfmt::hex_text;
use crate::numfmt::int_text;
use crate::numfmt::nat_text;
use crate::numfmt::pad2_text;
use crate::numfmt::pad4_text;
use crate::numfmt::push_nat;
use crate::numfmt::push_pad2;
use crate::numfmt::push_pad4;
use crate::order::clone_string;
use crate::order::pair_view;
use crate::order::pairs_view;
use crate::order::sort_pair_vec;
use crate::order::sort_pairs;
use crate::strings::canon_string;
use crate::strings::push_char;
use crate::strings::push_str_part;
use crate::strings::quote_string;
use crate::strings::quoted_text;
use crate::strings::str_eq;
use crate::strings::string_text;
use crate::types::GValue;
use crate::types::MapEntry;
use crate::types::RefId;
use crate::types::Timestamp;

verus! {

/// Null token spelling.
#[derive(Debug, Clone, Copy, PartialEq, Eq, Structural)]
pub enum NullStyle {
    /// Use underscore: `_`
    Underscore,
    /// Use the unicode empty-set symbol
    Symbol,
}

/// Options for loose canonicalization.
#[derive(Debug, Clone, Copy, PartialEq, Eq, Structural)]
pub struct LooseCanonOpts {
    /// Enable auto-tabular mode for homogeneous lists
    pub auto_tabular: bool,
    /// Minimum rows for tabular mode
    pub min_rows: usize,
    /// Maximum columns for tabular mode
    pub max_cols: usize,
    /// Allow missing keys in tabular rows (fill with the null token)
    pub allow_missing: bool,
    /// Null value style
    pub null_style: NullStyle,
}

/// The default options: tabular on, three rows, 64 columns, missing keys
/// tolerated, underscore null.
pub open spec fn default_opts() -> LooseCanonOpts {
    LooseCanonOpts {
        auto_tabular: true,
        min_rows: 3,
        max_cols: 64,
        allow_missing: true,
        null_style: NullStyle::Underscore,
    }
}

impl Default for LooseCanonOpts {
    fn default() -> (r: Self)
        ensures
            r == default_opts(),
    {
        LooseCanonOpts {
            auto_tabular: true,
            min_rows: 3,
            max_cols: 64,
            allow_missing: true,
            null_style: NullStyle::Underscore,
        }
    }
}

impl LooseCanonOpts {
    /// Options aimed at machine-generated output (same as the default).
    pub fn llm() -> (r: Self)
        ensures
            r == default_opts(),
    {
        Self::default()
    }

    /// Options with the unicode null symbol.
    pub fn pretty() -> (r: Self)
        ensures
            r == (LooseCanonOpts { null_style: NullStyle::Symbol, ..default_opts() }),
    {
        LooseCanonOpts { null_style: NullStyle::Symbol, ..Self::default() }
    }

    /// Options with tabular mode disabled.
    pub fn no_tabular() -> (r: Self)
        ensures
            r == (LooseCanonOpts { auto_tabular: false, ..default_opts() }),
    {
        LooseCanonOpts { auto_tabular: false, ..Self::default() }
    }
}

/// The configured null token.
pub open spec fn null_text(style: NullStyle) -> Seq<char> {
    if style is Underscore {
        "_"@
    } else {
        "∅"@
    }
}

/// The configured null token.
pub fn canon_null(style: NullStyle) -> (r: &'static str)
    ensures
        r@ == null_text(style),
{
    match style {
        NullStyle::Underscore => "_",
        NullStyle::Symbol => "∅",
    }
}

/// The canonical `YYYY-MM-DDTHH:MM:SSZ` text of a timestamp.
pub open spec fn time_text(t: Timestamp) -> Seq<char> {
    pad4_text(t.year as nat) + seq!['-'] + pad2_text(t.month as nat) + seq!['-'] + pad2_text(
        t.day as nat,
    ) + seq!['T'] + pad2_text(t.hour as nat) + seq![':'] + pad2_text(t.minute as nat) + seq![':']
        + pad2_text(t.second as nat) + seq!['Z']
}

/// Appends the canonical timestamp text.
fn push_time(out: &mut String, t: &Timestamp)
    ensures
        final (out)@ == old(out)@ + time_text(*t),
{
    push_pad4(out, t.year as u64);
    push_char(out, '-');
    push_pad2(out, t.month as u64);
    push_char(out, '-');
    push_pad2(out, t.day as u64);
    push_char(out, 'T');
    push_pad2(out, t.hour as u64);
    push_char(out, ':');
    push_pad2(out, t.minute as u64);
    push_char(out, ':');
    push_pad2(out, t.second as u64);
    push_char(out, 'Z');
    proof {
        assert(out@ =~= old(out)@ + time_text(*t));
    }
}

/// A character a reference id value may carry without quoting: ASCII
/// alphanumerics, `_ - .`, or anything beyond ASCII. Digits may lead.
pub open spec fn is_ref_safe_char(c: char) -> bool {
    (97 <= c as u32 && c as u32 <= 122) || (65 <= c as u32 && c as u32 <= 90) || (48 <= c as u32
        && c as u32 <= 57) || c == '_' || c == '-' || c == '.' || c as u32 > 127
}

/// A reference id value emitted without quotes.
pub open spec fn ref_bare_safe(s: Seq<char>) -> bool {
    s.len() > 0 && (forall|i: int| 0 <= i < s.len() ==> is_ref_safe_char(#[trigger] s[i]))
}

/// Whether a reference id value is emitted without quotes: more permissive
/// than ordinary strings, digits may lead.
pub fn is_ref_bare_safe(s: &str) -> (r: bool)
    ensures
        r == ref_bare_safe(s@),
{
    let n = s.unicode_len();
    if n == 0 {
        return false;
    }
    let mut i: usize = 0;
    while i < n
        invariant
            i <= n,
            n == s@.len(),
            forall|j: int| 0 <= j < i ==> is_ref_safe_char(#[trigger] s@[j]),
        decreases n - i,
    {
        let c = s.get_char(i);
        let u = c as u32;
        let ok = (97 <= u && u <= 122) || (65 <= u && u <= 90) || (48 <= u && u <= 57) || c == '_'
            || c == '-' || c == '.' || u > 127;
        if !ok {
            return false;
        }
        i += 1;
    }
    true
}

/// The canonical text of a reference id: `^`, the prefix and a colon when
/// the prefix is non-empty, then the value, bare or quoted.
pub open spec fn ref_id_text(prefix: Seq<char>, value: Seq<char>) -> Seq<char> {
    seq!['^'] + (if prefix.len() > 0 {
        prefix + seq![':']
    } else {
        Seq::empty()
    }) + (if ref_bare_safe(value) {
        value
    } else {
        quoted_text(value)
    })
}

/// Appends the canonical reference id text.
pub fn write_canon_ref(buf: &mut String, ref_id: &RefId)
    ensures
        final (buf)@ == old(buf)@ + ref_id_text(ref_id.prefix@, ref_id.value@),
{
    push_char(buf, '^');
    if ref_id.prefix.unicode_len() > 0 {
        push_str_part(buf, ref_id.prefix.as_str());
        push_char(buf, ':');
    }
    if is_ref_bare_safe(ref_id.value.as_str()) {
        push_str_part(buf, ref_id.value.as_str());
    } else {
        let q = quote_string(ref_id.value.as_str());
        push_str_part(buf, q.as_str());
    }
    proof {
        assert(buf@ =~= old(buf)@ + ref_id_text(ref_id.prefix@, ref_id.value@));
    }
}

/// The text base64's standard engine gives a byte sequence.
pub uninterp spec fn b64_text(data: Seq<u8>) -> Seq<char>;

/// Relies on base64's standard engine with padding: the encoding is a
/// function of the bytes alone, four output characters per three input
/// bytes rounded up, and empty input gives empty output.
#[verifier::external_body]
fn b64_encode(data: &Vec<u8>) -> (r: String)
    ensures
        r@ == b64_text(data@),
        r@.len() == 4 * ((data@.len() + 2) / 3),
{
    base64::engine::general_purpose::STANDARD.encode(data.as_slice())
}

/// The SHA-256 digest of the UTF-8 bytes of a character sequence.
pub uninterp spec fn sha256_of(s: Seq<char>) -> Seq<u8>;

/// Relies on sha2's SHA-256: a 32-byte digest of the UTF-8 bytes, a
/// function of the characters alone.
#[verifier::external_body]
fn sha256_bytes(s: &str) -> (r: Vec<u8>)
    ensures
        r@ == sha256_of(s@),
        r@.len() == 32,
{
    let digest = <sha2::Sha256 as sha2::Digest>::digest(s.as_bytes());
    digest.to_vec()
}

/// The canonical text of a bytes value: `b64"`, the base64 text, `"`.
pub open spec fn bytes_text(data: Seq<u8>) -> Seq<char> {
    "b64\""@ + b64_text(data) + seq!['"']
}

// ------------------------------------------------------------
// Invalid floats anywhere in a tree
// ------------------------------------------------------------
/// Whether the tree holds a NaN or infinite float anywhere.
pub open spec fn has_invalid_float(v: GValue) -> bool
    decreases v, 2int,
{
    match v {
        GValue::Float(bits) => is_nan_bits(bits) || is_inf_bits(bits),
        GValue::List(items) => seq_has_invalid(items@),
        GValue::Mapping(entries) => entries_have_invalid(entries@),
        GValue::Struct(s) => entries_have_invalid(s.fields@),
        GValue::Sum(s) => match s.value {
            Some(b) => has_invalid_float(*b),
            None => false,
        },
        _ => false,
    }
}

/// Whether any element holds an invalid float.
pub open spec fn seq_has_invalid(s: Seq<GValue>) -> bool
    decreases s, 0int,
{
    if s.len() == 0 {
        false
    } else {
        has_invalid_float(s[0]) || seq_has_invalid(s.skip(1))
    }
}

/// Whether any entry's value holds an invalid float.
pub open spec fn entries_have_invalid(s: Seq<MapEntry>) -> bool
    decreases s, 0int,
{
    if s.len() == 0 {
        false
    } else {
        has_invalid_float(s[0].value) || entries_have_invalid(s.skip(1))
    }
}

// ------------------------------------------------------------
// Tabular eligibility (raw keys only; no rendering involved)
// ------------------------------------------------------------
/// The raw key texts of an entry list, duplicates kept, in order.
pub open spec fn raw_keys(es: Seq<MapEntry>) -> Seq<Seq<char>>
    decreases es.len(),
{
    if es.len() == 0 {
        Seq::empty()
    } else {
        seq![es[0].key@] + raw_keys(es.skip(1))
    }
}

/// The raw keys of a map or struct value; `None` for every other variant.
pub open spec fn keys_of_value(v: GValue) -> Option<Seq<Seq<char>>> {
    match v {
        GValue::Mapping(entries) => Some(raw_keys(entries@)),
        GValue::Struct(s) => Some(raw_keys(s.fields@)),
        _ => None,
    }
}

/// Every element is a map or a struct.
pub open spec fn all_rows_keyed(items: Seq<GValue>) -> bool {
    forall|i: int| 0 <= i < items.len() ==> keys_of_value(#[trigger] items[i]) is Some
}

/// Appends the keys not yet seen, keeping first-seen order.
pub open spec fn dedup_acc(acc: Seq<Seq<char>>, ks: Seq<Seq<char>>) -> Seq<Seq<char>>
    decreases ks.len(),
{
    if ks.len() == 0 {
        acc
    } else {
        dedup_acc(
            if acc.contains(ks[0]) {
                acc
            } else {
                acc.push(ks[0])
            },
            ks.skip(1),
        )
    }
}

/// The union of all rows' keys, first-seen order, no duplicates.
pub open spec fn union_acc(acc: Seq<Seq<char>>, items: Seq<GValue>) -> Seq<Seq<char>>
    decreases items.len(),
{
    if items.len() == 0 {
        acc
    } else {
        union_acc(
            dedup_acc(
                acc,
                match keys_of_value(items[0]) {
                    Some(ks) => ks,
                    None => Seq::empty(),
                },
            ),
            items.skip(1),
        )
    }
}

/// The union of all rows' keys.
pub open spec fn union_keys(items: Seq<GValue>) -> Seq<Seq<char>> {
    union_acc(Seq::empty(), items)
}

/// The key occurs in every row.
pub open spec fn key_in_all(k: Seq<char>, items: Seq<GValue>) -> bool {
    forall|i: int|
        0 <= i < items.len() ==> match keys_of_value(#[trigger] items[i]) {
            Some(ks) => ks.contains(k),
            None => false,
        }
}

/// How many of the given keys occur in every row.
pub open spec fn count_common(ks: Seq<Seq<char>>, items: Seq<GValue>) -> int
    decreases ks.len(),
{
    if ks.len() == 0 {
        0
    } else {
        (if key_in_all(ks[0], items) {
            1int
        } else {
            0int
        }) + count_common(ks.skip(1), items)
    }
}

/// Two key lists carry the same set of keys.
pub open spec fn key_sets_eq(a: Seq<Seq<char>>, b: Seq<Seq<char>>) -> bool {
    (forall|k: Seq<char>| a.contains(k) ==> b.contains(k)) && (forall|k: Seq<char>|
        b.contains(k) ==> a.contains(k))
}

/// The first row's keys, deduplicated; empty when there is no row.
pub open spec fn first_row_keys(items: Seq<GValue>) -> Seq<Seq<char>> {
    if items.len() == 0 {
        Seq::empty()
    } else {
        match keys_of_value(items[0]) {
            Some(ks) => dedup_acc(Seq::empty(), ks),
            None => Seq::empty(),
        }
    }
}

/// Whether a list tabulates: enough rows, every row a map or struct, a
/// non-empty union of keys within the column limit, and either identical
/// key sets (strict mode) or at least half the union common to all rows.
pub open spec fn tab_eligible(items: Seq<GValue>, opts: LooseCanonOpts) -> bool {
    &&& items.len() >= opts.min_rows
    &&& all_rows_keyed(items)
    &&& union_keys(items).len() > 0
    &&& union_keys(items).len() <= opts.max_cols
    &&& if opts.allow_missing {
        2 * count_common(first_row_keys(items), items) >= union_keys(items).len()
    } else {
        forall|i: int|
            0 <= i < items.len() ==> key_sets_eq(
                keys_of_value(#[trigger] items[i]).unwrap(),
                keys_of_value(items[0]).unwrap(),
            )
    }
}

/// Key texts paired as (canonical text, raw text), ready for sorting.
pub open spec fn keys_to_pairs(ks: Seq<Seq<char>>) -> Seq<(Seq<char>, Seq<char>)>
    decreases ks.len(),
{
    if ks.len() == 0 {
        Seq::empty()
    } else {
        seq![(string_text(ks[0]), ks[0])] + keys_to_pairs(ks.skip(1))
    }
}

/// The columns: the union of keys sorted by canonical key text.
pub open spec fn col_pairs(items: Seq<GValue>) -> Seq<(Seq<char>, Seq<char>)> {
    sort_pairs(keys_to_pairs(union_keys(items)))
}

// ------------------------------------------------------------
// The canonical text, one total spec function cluster
// ------------------------------------------------------------
/// The canonical text of a value under the given options. Total: a NaN or
/// infinite float leaf renders as its finite-float text would, but the
/// encoder rejects such trees before producing any text.
pub open spec fn canon_text(v: GValue, opts: LooseCanonOpts) -> Seq<char>
    decreases v, 2int,
{
    match v {
        GValue::Null => null_text(opts.null_style),
        GValue::Bool(b) => if b {
            seq!['t']
        } else {
            seq!['f']
        },
        GValue::Int(n) => int_text(n as int),
        GValue::Float(bits) => finite_float_text(bits),
        GValue::Str(s) => string_text(s@),
        GValue::Bytes(data) => bytes_text(data@),
        GValue::Time(t) => time_text(t),
        GValue::Id(rid) => ref_id_text(rid.prefix@, rid.value@),
        GValue::List(items) => if opts.auto_tabular && tab_eligible(items@, opts) {
            tab_text(items@, opts)
        } else {
            seq!['['] + list_body(items@, opts) + seq![']']
        },
        GValue::Mapping(entries) => seq!['{'] + join_pairs(sort_pairs(entry_pairs(entries@, opts)))
            + seq!['}'],
        GValue::Struct(s) => s.name@ + seq!['{'] + join_pairs(
            sort_pairs(entry_pairs(s.fields@, opts)),
        ) + seq!['}'],
        GValue::Sum(s) => s.tag@ + seq!['('] + (match s.value {
            Some(b) => canon_text(*b, opts),
            None => Seq::empty(),
        }) + seq![')'],
    }
}

/// The space-separated texts of a list's elements.
pub open spec fn list_body(s: Seq<GValue>, opts: LooseCanonOpts) -> Seq<char>
    decreases s, 0int,
{
    if s.len() == 0 {
        Seq::empty()
    } else if s.len() == 1 {
        canon_text(s[0], opts)
    } else {
        canon_text(s[0], opts) + seq![' '] + list_body(s.skip(1), opts)
    }
}

/// The rendered (canonical key text, value text) pairs of an entry list,
/// in source order.
pub open spec fn entry_pairs(s: Seq<MapEntry>, opts: LooseCanonOpts) -> Seq<
    (Seq<char>, Seq<char>),
>
    decreases s, 0int,
{
    if s.len() == 0 {
        Seq::empty()
    } else {
        seq![(string_text(s[0].key@), canon_text(s[0].value, opts))] + entry_pairs(
            s.skip(1),
            opts,
        )
    }
}

/// The rendered (raw key text, value text) pairs of an entry list, in
/// source order: what a tabular row's cells are looked up in.
pub open spec fn row_pairs(s: Seq<MapEntry>, opts: LooseCanonOpts) -> Seq<(Seq<char>, Seq<char>)>
    decreases s, 0int,
{
    if s.len() == 0 {
        Seq::empty()
    } else {
        seq![(s[0].key@, canon_text(s[0].value, opts))] + row_pairs(s.skip(1), opts)
    }
}

/// Every row's rendered pairs.
pub open spec fn rows_rendered(s: Seq<GValue>, opts: LooseCanonOpts) -> Seq<
    Seq<(Seq<char>, Seq<char>)>,
>
    decreases s, 1int,
{
    if s.len() == 0 {
        Seq::empty()
    } else {
        seq![
            match s[0] {
                GValue::Mapping(entries) => row_pairs(entries@, opts),
                GValue::Struct(st) => row_pairs(st.fields@, opts),
                _ => Seq::empty(),
            },
        ] + rows_rendered(s.skip(1), opts)
    }
}

/// The tabular block: header line, one `|`-framed line per row, `@end`.
pub open spec fn tab_text(items: Seq<GValue>, opts: LooseCanonOpts) -> Seq<char>
    decreases items, 2int,
{
    let nt = null_text(opts.null_style);
    let cols = col_pairs(items);
    "@tab "@ + nt + " rows="@ + nat_text(items.len()) + " cols="@ + nat_text(cols.len()) + " ["@
        + col_names(cols) + "]\n"@ + rows_text(rows_rendered(items, opts), cols, nt) + "@end"@
}

/// The space-separated canonical column names.
pub open spec fn col_names(cols: Seq<(Seq<char>, Seq<char>)>) -> Seq<char>
    decreases cols.len(),
{
    if cols.len() == 0 {
        Seq::empty()
    } else if cols.len() == 1 {
        cols[0].0
    } else {
        cols[0].0 + seq![' '] + col_names(cols.skip(1))
    }
}

/// The space-separated `key=value` texts of sorted rendered entries.
pub open spec fn join_pairs(ps: Seq<(Seq<char>, Seq<char>)>) -> Seq<char>
    decreases ps.len(),
{
    if ps.len() == 0 {
        Seq::empty()
    } else if ps.len() == 1 {
        ps[0].0 + seq!['='] + ps[0].1
    } else {
        ps[0].0 + seq!['='] + ps[0].1 + seq![' '] + join_pairs(ps.skip(1))
    }
}

/// The rendered value of the last entry with the given raw key.
pub open spec fn lookup_pair(row: Seq<(Seq<char>, Seq<char>)>, k: Seq<char>) -> Option<Seq<char>>
    decreases row.len(),
{
    if row.len() == 0 {
        None
    } else if row.last().0 == k {
        Some(row.last().1)
    } else {
        lookup_pair(row.drop_last(), k)
    }
}

/// Cell text with literal `|` escaped.
pub open spec fn escape_pipes(s: Seq<char>) -> Seq<char>
    decreases s.len(),
{
    if s.len() == 0 {
        Seq::empty()
    } else {
        (if s[0] == '|' {
            seq!['\\', '|']
        } else {
            seq![s[0]]
        }) + escape_pipes(s.skip(1))
    }
}

/// One cell: the escaped rendered value, or the null token when the key is
/// absent from the row.
pub open spec fn cell_text(
    row: Seq<(Seq<char>, Seq<char>)>,
    k: Seq<char>,
    nt: Seq<char>,
) -> Seq<char> {
    match lookup_pair(row, k) {
        Some(t) => escape_pipes(t),
        None => nt,
    }
}

/// The cells of one row, each followed by `|`.
pub open spec fn row_cells(
    row: Seq<(Seq<char>, Seq<char>)>,
    cols: Seq<(Seq<char>, Seq<char>)>,
    nt: Seq<char>,
) -> Seq<char>
    decreases cols.len(),
{
    if cols.len() == 0 {
        Seq::empty()
    } else {
        cell_text(row, cols[0].1, nt) + seq!['|'] + row_cells(row, cols.skip(1), nt)
    }
}

/// All row lines: `|` cells `|` and a newline, per row.
pub open spec fn rows_text(
    rows: Seq<Seq<(Seq<char>, Seq<char>)>>,
    cols: Seq<(Seq<char>, Seq<char>)>,
    nt: Seq<char>,
) -> Seq<char>
    decreases rows.len(),
{
    if rows.len() == 0 {
        Seq::empty()
    } else {
        seq!['|'] + row_cells(rows[0], cols, nt) + seq!['\n'] + rows_text(rows.skip(1), cols, nt)
    }
}


// ------------------------------------------------------------
// Eligibility, executable
// ------------------------------------------------------------
/// The views of a vector of strings.
pub open spec fn str_views(s: Seq<String>) -> Seq<Seq<char>> {
    Seq::new(s.len(), |i: int| s[i]@)
}

/// The views of a vector of rendered rows.
pub open spec fn rows_view(s: Seq<Vec<(String, String)>>) -> Seq<Seq<(Seq<char>, Seq<char>)>> {
    Seq::new(s.len(), |i: int| pairs_view(s[i]@))
}

/// Whether some string in the vector has the given view.
fn vec_contains_key(v: &Vec<String>, s: &str) -> (r: bool)
    ensures
        r == str_views(v@).contains(s@),
{
    let mut i: usize = 0;
    while i < v.len()
        invariant
            i <= v.len(),
            forall|j: int| 0 <= j < i ==> str_views(v@)[j] != s@,
        decreases v.len() - i,
    {
        if str_eq(v[i].as_str(), s) {
            proof {
                assert(str_views(v@)[i as int] == s@);
            }
            return true;
        }
        i += 1;
    }
    proof {
        if str_views(v@).contains(s@) {
            let w = choose|j: int| 0 <= j < str_views(v@).len() && str_views(v@)[j] == s@;
            assert(false);
        }
    }
    false
}

/// The raw keys of the entries from index `i` on.
fn keys_from_entries(es: &Vec<MapEntry>, i: usize) -> (r: Vec<String>)
    requires
        i <= es@.len(),
    ensures
        str_views(r@) == raw_keys(es@.skip(i as int)),
    decreases es@.len() - i,
{
    if i >= es.len() {
        proof {
            assert(es@.skip(i as int) =~= Seq::<MapEntry>::empty());
            assert(str_views(Seq::<String>::empty()) =~= raw_keys(es@.skip(i as int)));
        }
        Vec::new()
    } else {
        let mut rest = keys_from_entries(es, i + 1);
        rest.insert(0, clone_string(&es[i].key));
        proof {
            assert(es@.skip(i as int)[0] == es@[i as int]);
            assert(es@.skip(i as int).skip(1) =~= es@.skip(i as int + 1));
            assert(str_views(rest@) =~= raw_keys(es@.skip(i as int)));
        }
        rest
    }
}

/// The raw keys of a map or struct value.
fn keys_of_vec(v: &GValue) -> (r: Option<Vec<String>>)
    ensures
        match keys_of_value(*v) {
            Some(ks) => r matches Some(kv) && str_views(kv@) == ks,
            None => r is None,
        },
{
    match v {
        GValue::Mapping(entries) => {
            let ks = keys_from_entries(entries, 0);
            proof {
                assert(entries@.skip(0) =~= entries@);
            }
            Some(ks)
        },
        GValue::Struct(st) => {
            let ks = keys_from_entries(&st.fields, 0);
            proof {
                assert(st.fields@.skip(0) =~= st.fields@);
            }
            Some(ks)
        },
        _ => None,
    }
}

/// The raw keys of every row; `None` when a row is not a map or struct.
fn collect_row_keys(items: &Vec<GValue>) -> (r: Option<Vec<Vec<String>>>)
    ensures
        r is Some <==> all_rows_keyed(items@),
        r matches Some(rk) ==> rk@.len() == items@.len() && (forall|i: int|
            0 <= i < items@.len() ==> str_views(#[trigger] rk@[i]@) == keys_of_value(
                items@[i],
            ).unwrap()),
{
    let mut rk: Vec<Vec<String>> = Vec::new();
    let mut i: usize = 0;
    while i < items.len()
        invariant
            i <= items@.len(),
            rk@.len() == i,
            forall|j: int| 0 <= j < i ==> keys_of_value(#[trigger] items@[j]) is Some,
            forall|j: int|
                0 <= j < i ==> str_views(#[trigger] rk@[j]@) == keys_of_value(items@[j]).unwrap(),
        decreases items@.len() - i,
    {
        match keys_of_vec(&items[i]) {
            Some(ks) => {
                rk.push(ks);
            },
            None => {
                proof {
                    assert(keys_of_value(items@[i as int]) is None);
                    assert(!all_rows_keyed(items@));
                }
                return None;
            },
        }
        i += 1;
    }
    Some(rk)
}

/// Folds the unseen keys of `ks` into `acc`, first-seen order.
fn dedup_into(acc: &mut Vec<String>, ks: &Vec<String>)
    ensures
        str_views(final (acc)@) == dedup_acc(str_views(old(acc)@), str_views(ks@)),
{
    let ghost full = str_views(ks@);
    let mut i: usize = 0;
    proof {
        assert(full.skip(0) =~= full);
    }
    while i < ks.len()
        invariant
            i <= ks@.len(),
            full == str_views(ks@),
            dedup_acc(str_views(old(acc)@), full) == dedup_acc(
                str_views(acc@),
                full.skip(i as int),
            ),
        decreases ks@.len() - i,
    {
        proof {
            assert(full.skip(i as int)[0] == full[i as int]);
            assert(full.skip(i as int).skip(1) =~= full.skip(i as int + 1));
        }
        if !vec_contains_key(acc, ks[i].as_str()) {
            let ghost before = str_views(acc@);
            acc.push(clone_string(&ks[i]));
            proof {
                assert(str_views(acc@) =~= before.push(full[i as int]));
            }
        }
        i += 1;
    }
    proof {
        assert(full.skip(i as int) =~= Seq::<Seq<char>>::empty());
    }
}

/// The union of all rows' keys, first-seen order.
fn union_of_rows(rk: &Vec<Vec<String>>, Ghost(items): Ghost<Seq<GValue>>) -> (r: Vec<String>)
    requires
        rk@.len() == items.len(),
        all_rows_keyed(items),
        forall|i: int|
            0 <= i < items.len() ==> str_views(#[trigger] rk@[i]@) == keys_of_value(
                items[i],
            ).unwrap(),
    ensures
        str_views(r@) == union_keys(items),
{
    let mut acc: Vec<String> = Vec::new();
    let mut i: usize = 0;
    proof {
        assert(items.skip(0) =~= items);
        assert(str_views(Seq::<String>::empty()) =~= Seq::<Seq<char>>::empty());
    }
    while i < rk.len()
        invariant
            i <= rk@.len(),
            rk@.len() == items.len(),
            all_rows_keyed(items),
            forall|j: int|
                0 <= j < items.len() ==> str_views(#[trigger] rk@[j]@) == keys_of_value(
                    items[j],
                ).unwrap(),
            union_acc(Seq::empty(), items) == union_acc(str_views(acc@), items.skip(i as int)),
        decreases rk@.len() - i,
    {
        proof {
            assert(items.skip(i as int)[0] == items[i as int]);
            assert(items.skip(i as int).skip(1) =~= items.skip(i as int + 1));
        }
        dedup_into(&mut acc, &rk[i]);
        i += 1;
    }
    proof {
        assert(items.skip(i as int) =~= Seq::<GValue>::empty());
    }
    acc
}

/// Whether the key occurs in every row.
fn key_in_all_rows(k: &String, rk: &Vec<Vec<String>>, Ghost(items): Ghost<Seq<GValue>>) -> (r:
    bool)
    requires
        rk@.len() == items.len(),
        forall|i: int|
            0 <= i < items.len() ==> str_views(#[trigger] rk@[i]@) == keys_of_value(
                items[i],
            ).unwrap() && keys_of_value(items[i]) is Some,
    ensures
        r == key_in_all(k@, items),
{
    let mut i: usize = 0;
    while i < rk.len()
        invariant
            i <= rk@.len(),
            rk@.len() == items.len(),
            forall|j: int|
                0 <= j < items.len() ==> str_views(#[trigger] rk@[j]@) == keys_of_value(
                    items[j],
                ).unwrap() && keys_of_value(items[j]) is Some,
            forall|j: int|
                0 <= j < i ==> match keys_of_value(#[trigger] items[j]) {
                    Some(ks) => ks.contains(k@),
                    None => false,
                },
        decreases rk@.len() - i,
    {
        if !vec_contains_key(&rk[i], k.as_str()) {
            proof {
                assert(!key_in_all(k@, items)) by {
                    assert(match keys_of_value(items[i as int]) {
                        Some(ks) => !ks.contains(k@),
                        None => true,
                    });
                }
            }
            return false;
        }
        i += 1;
    }
    true
}

/// How many of the keys from `i` on occur in every row.
fn count_common_keys(
    ks: &Vec<String>,
    i: usize,
    rk: &Vec<Vec<String>>,
    Ghost(items): Ghost<Seq<GValue>>,
) -> (r: usize)
    requires
        i <= ks@.len(),
        rk@.len() == items.len(),
        forall|j: int|
            0 <= j < items.len() ==> str_views(#[trigger] rk@[j]@) == keys_of_value(
                items[j],
            ).unwrap() && keys_of_value(items[j]) is Some,
    ensures
        r as int == count_common(str_views(ks@).skip(i as int), items),
        r <= ks@.len() - i,
    decreases ks@.len() - i,
{
    if i >= ks.len() {
        proof {
            assert(str_views(ks@).skip(i as int) =~= Seq::<Seq<char>>::empty());
        }
        0
    } else {
        proof {
            assert(str_views(ks@).skip(i as int)[0] == str_views(ks@)[i as int]);
            assert(str_views(ks@).skip(i as int).skip(1) =~= str_views(ks@).skip(i as int + 1));
        }
        let here: usize = if key_in_all_rows(&ks[i], rk, Ghost(items)) {
            1
        } else {
            0
        };
        let rest = count_common_keys(ks, i + 1, rk, Ghost(items));
        here + rest
    }
}

/// Whether every key of `a` also occurs in `b`.
fn keys_subset(a: &Vec<String>, b: &Vec<String>) -> (r: bool)
    ensures
        r == (forall|k: Seq<char>|
            str_views(a@).contains(k) ==> str_views(b@).contains(k)),
{
    let mut i: usize = 0;
    while i < a.len()
        invariant
            i <= a@.len(),
            forall|j: int| 0 <= j < i ==> str_views(b@).contains(#[trigger] str_views(a@)[j]),
        decreases a@.len() - i,
    {
        if !vec_contains_key(b, a[i].as_str()) {
            proof {
                assert(str_views(a@).contains(str_views(a@)[i as int]));
            }
            return false;
        }
        proof {
            assert(str_views(a@)[i as int] == a@[i as int]@);
        }
        i += 1;
    }
    proof {
        assert forall|k: Seq<char>|
            str_views(a@).contains(k) implies str_views(b@).contains(k) by {
            let w = choose|j: int| 0 <= j < str_views(a@).len() && str_views(a@)[j] == k;
            assert(str_views(b@).contains(str_views(a@)[w]));
        }
    }
    true
}

/// Whether a list tabulates under the options.
fn is_tab_eligible(items: &Vec<GValue>, opts: &LooseCanonOpts) -> (r: bool)
    ensures
        r == tab_eligible(items@, *opts),
{
    if items.len() < opts.min_rows {
        return false;
    }
    let rk = match collect_row_keys(items) {
        Some(rk) => rk,
        None => {
            return false;
        },
    };
    let union = union_of_rows(&rk, Ghost(items@));
    if union.len() == 0 || union.len() > opts.max_cols {
        return false;
    }
    if opts.allow_missing {
        // The first row exists: the union is non-empty.
        proof {
            if items@.len() == 0 {
                assert(union_keys(items@) =~= Seq::<Seq<char>>::empty());
                assert(false);
            }
        }
        let mut d0: Vec<String> = Vec::new();
        proof {
            assert(str_views(Seq::<String>::empty()) =~= Seq::<Seq<char>>::empty());
        }
        dedup_into(&mut d0, &rk[0]);
        proof {
            assert(str_views(d0@) == first_row_keys(items@));
            assert(str_views(d0@).skip(0) =~= str_views(d0@));
        }
        let common = count_common_keys(&d0, 0, &rk, Ghost(items@));
        // Compare in a wide type: the counts themselves stay small.
        let r = (2u128 * (common as u128)) >= (union.len() as u128);
        proof {
            assert(r == (2 * count_common(first_row_keys(items@), items@) >= union_keys(
                items@,
            ).len()));
        }
        r
    } else {
        let mut i: usize = 0;
        while i < rk.len()
            invariant
                !opts.allow_missing,
                i <= rk@.len(),
                rk@.len() == items@.len(),
                items@.len() > 0,
                all_rows_keyed(items@),
                forall|j: int|
                    0 <= j < items@.len() ==> str_views(#[trigger] rk@[j]@) == keys_of_value(
                        items@[j],
                    ).unwrap(),
                forall|j: int|
                    0 <= j < i ==> key_sets_eq(
                        keys_of_value(#[trigger] items@[j]).unwrap(),
                        keys_of_value(items@[0]).unwrap(),
                    ),
            decreases rk@.len() - i,
        {
            let fwd = keys_subset(&rk[i], &rk[0]);
            let bwd = keys_subset(&rk[0], &rk[i]);
            if !(fwd && bwd) {
                proof {
                    assert(str_views(rk@[i as int]@) == keys_of_value(items@[i as int]).unwrap());
                    assert(str_views(rk@[0]@) == keys_of_value(items@[0]).unwrap());
                    assert(!key_sets_eq(
                        keys_of_value(items@[i as int]).unwrap(),
                        keys_of_value(items@[0]).unwrap(),
                    ));
                    assert(!(forall|j: int|
                        0 <= j < items@.len() ==> key_sets_eq(
                            keys_of_value(#[trigger] items@[j]).unwrap(),
                            keys_of_value(items@[0]).unwrap(),
                        ))) by {
                        assert((i as int) < items@.len() && !key_sets_eq(
                            keys_of_value(items@[i as int]).unwrap(),
                            keys_of_value(items@[0]).unwrap(),
                        ));
                    }
                    assert(!tab_eligible(items@, *opts));
                }
                return false;
            }
            proof {
                assert(str_views(rk@[i as int]@) == keys_of_value(items@[i as int]).unwrap());
                assert(str_views(rk@[0]@) == keys_of_value(items@[0]).unwrap());
                assert(key_sets_eq(
                    keys_of_value(items@[i as int]).unwrap(),
                    keys_of_value(items@[0]).unwrap(),
                ));
            }
            i += 1;
        }
        true
    }
}


// ------------------------------------------------------------
// The encoder, executable
// ------------------------------------------------------------
/// Encodes one value; the workhorse behind the public facade.
fn encode_value(v: &GValue, opts: &LooseCanonOpts) -> (r: Result<String, GlyphError>)
    ensures
        r is Err <==> has_invalid_float(*v),
        r matches Err(e) ==> e == GlyphError::InvalidNumber,
        r matches Ok(s) ==> s@ == canon_text(*v, *opts),
    decreases v, 2int, 1int,
{
    match v {
        GValue::Null => Ok(String::from_str(canon_null(opts.null_style))),
        GValue::Bool(b) => {
            let mut out = String::new();
            push_char(&mut out, if *b {
                't'
            } else {
                'f'
            });
            proof {
                if *b {
                    assert(out@ =~= seq!['t']);
                } else {
                    assert(out@ =~= seq!['f']);
                }
            }
            Ok(out)
        },
        GValue::Int(n) => Ok(canon_int(*n)),
        GValue::Float(bits) => canon_float(*bits),
        GValue::Str(s) => Ok(canon_string(s.as_str())),
        GValue::Bytes(data) => {
            let mut out = String::from_str("b64\"");
            let enc = b64_encode(data);
            push_str_part(&mut out, enc.as_str());
            push_char(&mut out, '"');
            proof {
                assert(out@ =~= bytes_text(data@));
            }
            Ok(out)
        },
        GValue::Time(t) => {
            let mut out = String::new();
            push_time(&mut out, t);
            proof {
                assert(out@ =~= time_text(*t));
            }
            Ok(out)
        },
        GValue::Id(rid) => {
            let mut out = String::new();
            write_canon_ref(&mut out, rid);
            proof {
                assert(out@ =~= ref_id_text(rid.prefix@, rid.value@));
            }
            Ok(out)
        },
        GValue::List(items) => {
            if opts.auto_tabular && is_tab_eligible(items, opts) {
                tab_string(items, opts)
            } else {
                match list_body_string(items, 0, opts) {
                    Ok(body) => {
                        let mut out = String::new();
                        push_char(&mut out, '[');
                        push_str_part(&mut out, body.as_str());
                        push_char(&mut out, ']');
                        proof {
                            assert(items@.skip(0) =~= items@);
                            assert(out@ =~= seq!['['] + list_body(items@, *opts) + seq![']']);
                        }
                        Ok(out)
                    },
                    Err(e) => {
                        proof {
                            assert(items@.skip(0) =~= items@);
                        }
                        Err(e)
                    },
                }
            }
        },
        GValue::Mapping(entries) => {
            match entry_pairs_vec(entries, 0, opts) {
                Ok(pairs) => {
                    let sorted = sort_pair_vec(pairs);
                    let mut out = String::new();
                    push_char(&mut out, '{');
                    push_join_pairs(&mut out, &sorted, 0);
                    push_char(&mut out, '}');
                    proof {
                        assert(entries@.skip(0) =~= entries@);
                        assert(pairs_view(sorted@).skip(0) =~= pairs_view(sorted@));
                        assert(out@ =~= seq!['{'] + join_pairs(
                            sort_pairs(entry_pairs(entries@, *opts)),
                        ) + seq!['}']);
                    }
                    Ok(out)
                },
                Err(e) => {
                    proof {
                        assert(entries@.skip(0) =~= entries@);
                    }
                    Err(e)
                },
            }
        },
        GValue::Struct(st) => {
            match entry_pairs_vec(&st.fields, 0, opts) {
                Ok(pairs) => {
                    let sorted = sort_pair_vec(pairs);
                    let mut out = String::new();
                    push_str_part(&mut out, st.name.as_str());
                    push_char(&mut out, '{');
                    push_join_pairs(&mut out, &sorted, 0);
                    push_char(&mut out, '}');
                    proof {
                        assert(st.fields@.skip(0) =~= st.fields@);
                        assert(pairs_view(sorted@).skip(0) =~= pairs_view(sorted@));
                        assert(out@ =~= st.name@ + seq!['{'] + join_pairs(
                            sort_pairs(entry_pairs(st.fields@, *opts)),
                        ) + seq!['}']);
                    }
                    Ok(out)
                },
                Err(e) => {
                    proof {
                        assert(st.fields@.skip(0) =~= st.fields@);
                    }
                    Err(e)
                },
            }
        },
        GValue::Sum(sv) => {
            let mut out = String::new();
            push_str_part(&mut out, sv.tag.as_str());
            push_char(&mut out, '(');
            match &sv.value {
                Some(b) => {
                    match encode_value(b, opts) {
                        Ok(t) => {
                            push_str_part(&mut out, t.as_str());
                        },
                        Err(e) => {
                            return Err(e);
                        },
                    }
                },
                None => {},
            }
            push_char(&mut out, ')');
            proof {
                assert(out@ =~= canon_text(*v, *opts));
            }
            Ok(out)
        },
    }
}

/// The space-separated element texts from index `i` on.
fn list_body_string(items: &Vec<GValue>, i: usize, opts: &LooseCanonOpts) -> (r: Result<
    String,
    GlyphError,
>)
    requires
        i <= items@.len(),
    ensures
        r is Err <==> seq_has_invalid(items@.skip(i as int)),
        r matches Err(e) ==> e == GlyphError::InvalidNumber,
        r matches Ok(s) ==> s@ == list_body(items@.skip(i as int), *opts),
    decreases items@, 0int, items@.len() - i,
{
    if i >= items.len() {
        proof {
            assert(items@.skip(i as int) =~= Seq::<GValue>::empty());
        }
        Ok(String::new())
    } else {
        proof {
            assert(items@.skip(i as int)[0] == items@[i as int]);
            assert(items@.skip(i as int).skip(1) =~= items@.skip(i as int + 1));
        }
        match encode_value(&items[i], opts) {
            Ok(t) => {
                if i + 1 >= items.len() {
                    proof {
                        assert(items@.skip(i as int).len() == 1);
                        assert(items@.skip(i as int + 1) =~= Seq::<GValue>::empty());
                        assert(!seq_has_invalid(items@.skip(i as int + 1)));
                        assert(!seq_has_invalid(items@.skip(i as int)));
                    }
                    Ok(t)
                } else {
                    match list_body_string(items, i + 1, opts) {
                        Ok(rest) => {
                            let mut out = t;
                            push_char(&mut out, ' ');
                            push_str_part(&mut out, rest.as_str());
                            proof {
                                assert(out@ =~= list_body(items@.skip(i as int), *opts));
                            }
                            Ok(out)
                        },
                        Err(e) => Err(e),
                    }
                }
            },
            Err(e) => Err(e),
        }
    }
}

/// The rendered (canonical key, value text) pairs from index `i` on.
fn entry_pairs_vec(entries: &Vec<MapEntry>, i: usize, opts: &LooseCanonOpts) -> (r: Result<
    Vec<(String, String)>,
    GlyphError,
>)
    requires
        i <= entries@.len(),
    ensures
        r is Err <==> entries_have_invalid(entries@.skip(i as int)),
        r matches Err(e) ==> e == GlyphError::InvalidNumber,
        r matches Ok(ps) ==> pairs_view(ps@) == entry_pairs(entries@.skip(i as int), *opts),
    decreases entries@, 0int, entries@.len() - i,
{
    if i >= entries.len() {
        proof {
            assert(entries@.skip(i as int) =~= Seq::<MapEntry>::empty());
            assert(pairs_view(Seq::<(String, String)>::empty()) =~= entry_pairs(
                entries@.skip(i as int),
                *opts,
            ));
        }
        Ok(Vec::new())
    } else {
        proof {
            assert(entries@.skip(i as int)[0] == entries@[i as int]);
            assert(entries@.skip(i as int).skip(1) =~= entries@.skip(i as int + 1));
        }
        match encode_value(&entries[i].value, opts) {
            Ok(vt) => {
                match entry_pairs_vec(entries, i + 1, opts) {
                    Ok(mut rest) => {
                        let kt = canon_string(entries[i].key.as_str());
                        rest.insert(0, (kt, vt));
                        proof {
                            assert(pairs_view(rest@) =~= entry_pairs(
                                entries@.skip(i as int),
                                *opts,
                            ));
                        }
                        Ok(rest)
                    },
                    Err(e) => Err(e),
                }
            },
            Err(e) => Err(e),
        }
    }
}

/// The rendered (raw key, value text) pairs from index `i` on.
fn row_pairs_vec(entries: &Vec<MapEntry>, i: usize, opts: &LooseCanonOpts) -> (r: Result<
    Vec<(String, String)>,
    GlyphError,
>)
    requires
        i <= entries@.len(),
    ensures
        r is Err <==> entries_have_invalid(entries@.skip(i as int)),
        r matches Err(e) ==> e == GlyphError::InvalidNumber,
        r matches Ok(ps) ==> pairs_view(ps@) == row_pairs(entries@.skip(i as int), *opts),
    decreases entries@, 0int, entries@.len() - i,
{
    if i >= entries.len() {
        proof {
            assert(entries@.skip(i as int) =~= Seq::<MapEntry>::empty());
            assert(pairs_view(Seq::<(String, String)>::empty()) =~= row_pairs(
                entries@.skip(i as int),
                *opts,
            ));
        }
        Ok(Vec::new())
    } else {
        proof {
            assert(entries@.skip(i as int)[0] == entries@[i as int]);
            assert(entries@.skip(i as int).skip(1) =~= entries@.skip(i as int + 1));
        }
        match encode_value(&entries[i].value, opts) {
            Ok(vt) => {
                match row_pairs_vec(entries, i + 1, opts) {
                    Ok(mut rest) => {
                        let kt = clone_string(&entries[i].key);
                        rest.insert(0, (kt, vt));
                        proof {
                            assert(pairs_view(rest@) =~= row_pairs(
                                entries@.skip(i as int),
                                *opts,
                            ));
                        }
                        Ok(rest)
                    },
                    Err(e) => Err(e),
                }
            },
            Err(e) => Err(e),
        }
    }
}

/// Every row's rendered pairs, from index `i` on.
fn rows_rendered_vec(items: &Vec<GValue>, i: usize, opts: &LooseCanonOpts) -> (r: Result<
    Vec<Vec<(String, String)>>,
    GlyphError,
>)
    requires
        i <= items@.len(),
        all_rows_keyed(items@),
    ensures
        r is Err <==> seq_has_invalid(items@.skip(i as int)),
        r matches Err(e) ==> e == GlyphError::InvalidNumber,
        r matches Ok(rs) ==> rows_view(rs@) == rows_rendered(items@.skip(i as int), *opts),
    decreases items@, 1int, items@.len() - i,
{
    if i >= items.len() {
        proof {
            assert(items@.skip(i as int) =~= Seq::<GValue>::empty());
            assert(rows_view(Seq::<Vec<(String, String)>>::empty()) =~= rows_rendered(
                items@.skip(i as int),
                *opts,
            ));
        }
        Ok(Vec::new())
    } else {
        proof {
            assert(items@.skip(i as int)[0] == items@[i as int]);
            assert(items@.skip(i as int).skip(1) =~= items@.skip(i as int + 1));
        }
        let row: Result<Vec<(String, String)>, GlyphError> = match &items[i] {
            GValue::Mapping(entries) => {
                let rp = row_pairs_vec(entries, 0, opts);
                proof {
                    assert(entries@.skip(0) =~= entries@);
                }
                rp
            },
            GValue::Struct(st) => {
                let rp = row_pairs_vec(&st.fields, 0, opts);
                proof {
                    assert(st.fields@.skip(0) =~= st.fields@);
                }
                rp
            },
            _ => {
                proof {
                    assert(keys_of_value(items@[i as int]) is Some);
                    assert(false);
                }
                Ok(Vec::new())
            },
        };
        proof {
            match items@[i as int] {
                GValue::Mapping(entries) => {
                    assert(has_invalid_float(items@[i as int]) == entries_have_invalid(entries@));
                },
                GValue::Struct(st) => {
                    assert(has_invalid_float(items@[i as int]) == entries_have_invalid(
                        st.fields@,
                    ));
                },
                _ => {},
            }
        }
        match row {
            Ok(rp) => {
                proof {
                    if has_invalid_float(items@[i as int]) {
                        match items@[i as int] {
                            GValue::Mapping(entries) => {},
                            GValue::Struct(st) => {},
                            GValue::Float(bits) => {},
                            _ => {},
                        }
                    }
                }
                match rows_rendered_vec(items, i + 1, opts) {
                    Ok(mut rest) => {
                        rest.insert(0, rp);
                        proof {
                            assert(rows_view(rest@) =~= rows_rendered(
                                items@.skip(i as int),
                                *opts,
                            ));
                        }
                        Ok(rest)
                    },
                    Err(e) => Err(e),
                }
            },
            Err(e) => Err(e),
        }
    }
}


/// Appends the sorted `key=value` pairs from index `i` on, space-separated.
fn push_join_pairs(out: &mut String, ps: &Vec<(String, String)>, i: usize)
    requires
        i <= ps@.len(),
    ensures
        final (out)@ == old(out)@ + join_pairs(pairs_view(ps@).skip(i as int)),
    decreases ps@.len() - i,
{
    if i >= ps.len() {
        proof {
            assert(pairs_view(ps@).skip(i as int) =~= Seq::<(Seq<char>, Seq<char>)>::empty());
            assert(old(out)@ + join_pairs(pairs_view(ps@).skip(i as int)) =~= old(out)@);
        }
    } else {
        push_str_part(out, ps[i].0.as_str());
        push_char(out, '=');
        push_str_part(out, ps[i].1.as_str());
        if i + 1 < ps.len() {
            push_char(out, ' ');
            push_join_pairs(out, ps, i + 1);
        }
        proof {
            assert(pairs_view(ps@).skip(i as int)[0] == pair_view(ps@[i as int]));
            assert(pairs_view(ps@).skip(i as int).skip(1) =~= pairs_view(ps@).skip(i as int + 1));
            if i + 1 < ps@.len() {
                assert(out@ =~= old(out)@ + join_pairs(pairs_view(ps@).skip(i as int)));
            } else {
                assert(pairs_view(ps@).skip(i as int).len() == 1);
                assert(out@ =~= old(out)@ + join_pairs(pairs_view(ps@).skip(i as int)));
            }
        }
    }
}

/// Appends the canonical column names from index `i` on, space-separated.
fn push_col_names(out: &mut String, cols: &Vec<(String, String)>, i: usize)
    requires
        i <= cols@.len(),
    ensures
        final (out)@ == old(out)@ + col_names(pairs_view(cols@).skip(i as int)),
    decreases cols@.len() - i,
{
    if i >= cols.len() {
        proof {
            assert(pairs_view(cols@).skip(i as int) =~= Seq::<(Seq<char>, Seq<char>)>::empty());
            assert(old(out)@ + col_names(pairs_view(cols@).skip(i as int)) =~= old(out)@);
        }
    } else {
        push_str_part(out, cols[i].0.as_str());
        if i + 1 < cols.len() {
            push_char(out, ' ');
            push_col_names(out, cols, i + 1);
        }
        proof {
            assert(pairs_view(cols@).skip(i as int)[0] == pair_view(cols@[i as int]));
            assert(pairs_view(cols@).skip(i as int).skip(1) =~= pairs_view(cols@).skip(
                i as int + 1,
            ));
            if i + 1 < cols@.len() {
                assert(out@ =~= old(out)@ + col_names(pairs_view(cols@).skip(i as int)));
            } else {
                assert(pairs_view(cols@).skip(i as int).len() == 1);
                assert(out@ =~= old(out)@ + col_names(pairs_view(cols@).skip(i as int)));
            }
        }
    }
}

/// The key pairs (canonical text, raw text) of the keys from `i` on.
fn keys_to_pairs_vec(ks: &Vec<String>, i: usize) -> (r: Vec<(String, String)>)
    requires
        i <= ks@.len(),
    ensures
        pairs_view(r@) == keys_to_pairs(str_views(ks@).skip(i as int)),
    decreases ks@.len() - i,
{
    if i >= ks.len() {
        proof {
            assert(str_views(ks@).skip(i as int) =~= Seq::<Seq<char>>::empty());
            assert(pairs_view(Seq::<(String, String)>::empty()) =~= keys_to_pairs(
                str_views(ks@).skip(i as int),
            ));
        }
        Vec::new()
    } else {
        let mut rest = keys_to_pairs_vec(ks, i + 1);
        let ct = canon_string(ks[i].as_str());
        let raw = clone_string(&ks[i]);
        rest.insert(0, (ct, raw));
        proof {
            assert(str_views(ks@).skip(i as int)[0] == str_views(ks@)[i as int]);
            assert(str_views(ks@).skip(i as int).skip(1) =~= str_views(ks@).skip(i as int + 1));
            assert(pairs_view(rest@) =~= keys_to_pairs(str_views(ks@).skip(i as int)));
        }
        rest
    }
}

/// Appends the cell text with `|` escaped, from character `i` on.
fn push_escaped_cell(out: &mut String, s: &str, i: usize)
    requires
        i <= s@.len(),
    ensures
        final (out)@ == old(out)@ + escape_pipes(s@.skip(i as int)),
    decreases s@.len() - i,
{
    if i >= s.unicode_len() {
        proof {
            assert(s@.skip(i as int) =~= Seq::<char>::empty());
            assert(old(out)@ + escape_pipes(s@.skip(i as int)) =~= old(out)@);
        }
    } else {
        let c = s.get_char(i);
        if c == '|' {
            push_char(out, '\\');
            push_char(out, '|');
        } else {
            push_char(out, c);
        }
        push_escaped_cell(out, s, i + 1);
        proof {
            assert(s@.skip(i as int)[0] == s@[i as int]);
            assert(s@.skip(i as int).skip(1) =~= s@.skip(i as int + 1));
            assert(out@ =~= old(out)@ + escape_pipes(s@.skip(i as int)));
        }
    }
}

/// Appends one cell: the escaped rendered value of the last entry with the
/// column's raw key, or the null token.
fn push_cell(out: &mut String, row: &Vec<(String, String)>, key: &str, nt: &str)
    ensures
        final (out)@ == old(out)@ + cell_text(pairs_view(row@), key@, nt@),
{
    let ghost rv = pairs_view(row@);
    let mut j: usize = row.len();
    proof {
        assert(rv.take(row@.len() as int) =~= rv);
    }
    while j > 0 && !str_eq(row[j - 1].0.as_str(), key)
        invariant
            j <= row@.len(),
            rv == pairs_view(row@),
            lookup_pair(rv, key@) == lookup_pair(rv.take(j as int), key@),
        decreases j,
    {
        proof {
            assert(rv.take(j as int).last() == rv[j as int - 1]);
            assert(rv.take(j as int).drop_last() =~= rv.take(j as int - 1));
        }
        j = j - 1;
    }
    if j == 0 {
        proof {
            assert(rv.take(0) =~= Seq::<(Seq<char>, Seq<char>)>::empty());
            assert(lookup_pair(rv, key@) is None);
        }
        push_str_part(out, nt);
    } else {
        proof {
            assert(rv.take(j as int).last() == rv[j as int - 1]);
            assert(lookup_pair(rv, key@) == Some(rv[j as int - 1].1));
        }
        push_escaped_cell(out, row[j - 1].1.as_str(), 0);
        proof {
            assert(rv[j as int - 1].1.skip(0) =~= rv[j as int - 1].1);
        }
    }
}

/// Appends the cells of one row, each followed by `|`, from column `i` on.
fn push_row_cells(
    out: &mut String,
    row: &Vec<(String, String)>,
    cols: &Vec<(String, String)>,
    i: usize,
    nt: &str,
)
    requires
        i <= cols@.len(),
    ensures
        final (out)@ == old(out)@ + row_cells(
            pairs_view(row@),
            pairs_view(cols@).skip(i as int),
            nt@,
        ),
    decreases cols@.len() - i,
{
    if i >= cols.len() {
        proof {
            assert(pairs_view(cols@).skip(i as int) =~= Seq::<(Seq<char>, Seq<char>)>::empty());
            assert(old(out)@ + row_cells(pairs_view(row@), pairs_view(cols@).skip(i as int), nt@)
                =~= old(out)@);
        }
    } else {
        push_cell(out, row, cols[i].1.as_str(), nt);
        push_char(out, '|');
        push_row_cells(out, row, cols, i + 1, nt);
        proof {
            assert(pairs_view(cols@).skip(i as int)[0] == pair_view(cols@[i as int]));
            assert(pairs_view(cols@).skip(i as int).skip(1) =~= pairs_view(cols@).skip(
                i as int + 1,
            ));
            assert(out@ =~= old(out)@ + row_cells(
                pairs_view(row@),
                pairs_view(cols@).skip(i as int),
                nt@,
            ));
        }
    }
}

/// Appends all row lines from row `i` on.
fn push_rows(
    out: &mut String,
    rows: &Vec<Vec<(String, String)>>,
    cols: &Vec<(String, String)>,
    i: usize,
    nt: &str,
)
    requires
        i <= rows@.len(),
    ensures
        final (out)@ == old(out)@ + rows_text(
            rows_view(rows@).skip(i as int),
            pairs_view(cols@),
            nt@,
        ),
    decreases rows@.len() - i,
{
    if i >= rows.len() {
        proof {
            assert(rows_view(rows@).skip(i as int) =~= Seq::<Seq<(Seq<char>, Seq<char>)>>::empty());
            assert(old(out)@ + rows_text(
                rows_view(rows@).skip(i as int),
                pairs_view(cols@),
                nt@,
            ) =~= old(out)@);
        }
    } else {
        push_char(out, '|');
        push_row_cells(out, &rows[i], cols, 0, nt);
        push_char(out, '\n');
        push_rows(out, rows, cols, i + 1, nt);
        proof {
            assert(rows_view(rows@).skip(i as int)[0] == pairs_view(rows@[i as int]@));
            assert(rows_view(rows@).skip(i as int).skip(1) =~= rows_view(rows@).skip(i as int + 1));
            assert(pairs_view(cols@).skip(0) =~= pairs_view(cols@));
            assert(out@ =~= old(out)@ + rows_text(
                rows_view(rows@).skip(i as int),
                pairs_view(cols@),
                nt@,
            ));
        }
    }
}

/// Emits the tabular block of an eligible list.
#[verifier::rlimit(50)]
fn tab_string(items: &Vec<GValue>, opts: &LooseCanonOpts) -> (r: Result<String, GlyphError>)
    requires
        tab_eligible(items@, *opts),
    ensures
        r is Err <==> seq_has_invalid(items@),
        r matches Err(e) ==> e == GlyphError::InvalidNumber,
        r matches Ok(s) ==> s@ == tab_text(items@, *opts),
    decreases items@, 2int, 0int,
{
    let rk = match collect_row_keys(items) {
        Some(rk) => rk,
        None => {
            proof {
                assert(false);
            }
            return Err(GlyphError::InvalidNumber);
        },
    };
    let union = union_of_rows(&rk, Ghost(items@));
    let key_pairs = keys_to_pairs_vec(&union, 0);
    let cols = sort_pair_vec(key_pairs);
    proof {
        assert(str_views(union@).skip(0) =~= str_views(union@));
        assert(pairs_view(cols@) == col_pairs(items@));
    }
    let rows = match rows_rendered_vec(items, 0, opts) {
        Ok(rows) => rows,
        Err(e) => {
            proof {
                assert(items@.skip(0) =~= items@);
            }
            return Err(e);
        },
    };
    proof {
        assert(items@.skip(0) =~= items@);
    }
    let nt = canon_null(opts.null_style);
    let mut out = String::from_str("@tab ");
    push_str_part(&mut out, nt);
    push_str_part(&mut out, " rows=");
    push_nat(&mut out, items.len() as u64);
    push_str_part(&mut out, " cols=");
    push_nat(&mut out, cols.len() as u64);
    push_str_part(&mut out, " [");
    push_col_names(&mut out, &cols, 0);
    push_str_part(&mut out, "]\n");
    push_rows(&mut out, &rows, &cols, 0, nt);
    push_str_part(&mut out, "@end");
    proof {
        assert(pairs_view(cols@).skip(0) =~= pairs_view(cols@));
        assert(rows_view(rows@).skip(0) =~= rows_view(rows@));
        assert(items.len() as u64 as nat == items@.len());
        assert(cols.len() as u64 as nat == pairs_view(cols@).len());
        assert(out@ =~= tab_text(items@, *opts));
    }
    Ok(out)
}


// ------------------------------------------------------------
// The facade
// ------------------------------------------------------------
/// Canonicalize a value with custom options. Fails with `InvalidNumber`
/// exactly when the tree holds a NaN or infinite float; otherwise the
/// result is the canonical text, a pure function of value and options.
pub fn canonicalize_loose_with_opts(v: &GValue, opts: &LooseCanonOpts) -> (r: Result<
    String,
    GlyphError,
>)
    ensures
        r is Err <==> has_invalid_float(*v),
        r matches Err(e) ==> e == GlyphError::InvalidNumber,
        r matches Ok(s) ==> s@ == canon_text(*v, *opts),
{
    encode_value(v, opts)
}

/// Canonicalize a value with the default options.
pub fn canonicalize_loose(v: &GValue) -> (r: Result<String, GlyphError>)
    ensures
        r is Err <==> has_invalid_float(*v),
        r matches Err(e) ==> e == GlyphError::InvalidNumber,
        r matches Ok(s) ==> s@ == canon_text(*v, default_opts()),
{
    let opts = LooseCanonOpts::default();
    canonicalize_loose_with_opts(v, &opts)
}

/// Canonicalize without tabular mode.
pub fn canonicalize_loose_no_tabular(v: &GValue) -> (r: Result<String, GlyphError>)
    ensures
        r is Err <==> has_invalid_float(*v),
        r matches Err(e) ==> e == GlyphError::InvalidNumber,
        r matches Ok(s) ==> s@ == canon_text(
            *v,
            LooseCanonOpts { auto_tabular: false, ..default_opts() },
        ),
{
    let opts = LooseCanonOpts::no_tabular();
    canonicalize_loose_with_opts(v, &opts)
}

/// The fingerprint: the canonical form under the default options, the
/// stable identity text.
pub fn fingerprint_loose(v: &GValue) -> (r: Result<String, GlyphError>)
    ensures
        r is Err <==> has_invalid_float(*v),
        r matches Err(e) ==> e == GlyphError::InvalidNumber,
        r matches Ok(s) ==> s@ == canon_text(*v, default_opts()),
{
    canonicalize_loose(v)
}

/// The hash text of a value: the first eight bytes of the SHA-256 digest
/// of the default canonical form, as sixteen lowercase hex characters.
pub open spec fn hash_text(v: GValue) -> Seq<char> {
    hex_text(sha256_of(canon_text(v, default_opts())).take(8))
}

/// SHA-256 content hash of the canonical form, truncated to sixteen
/// lowercase hex characters.
pub fn hash_loose(v: &GValue) -> (r: Result<String, GlyphError>)
    ensures
        r is Err <==> has_invalid_float(*v),
        r matches Err(e) ==> e == GlyphError::InvalidNumber,
        r matches Ok(s) ==> s@ == hash_text(*v) && s@.len() == 16,
{
    let canonical = match canonicalize_loose(v) {
        Ok(c) => c,
        Err(e) => {
            return Err(e);
        },
    };
    let digest = sha256_bytes(canonical.as_str());
    let mut first8: Vec<u8> = Vec::new();
    let mut i: usize = 0;
    while i < 8
        invariant
            i <= 8,
            digest@.len() == 32,
            first8@ == digest@.take(i as int),
        decreases 8 - i,
    {
        first8.push(digest[i]);
        proof {
            assert(first8@ =~= digest@.take(i as int + 1));
        }
        i += 1;
    }
    let h = hex::encode(first8.as_slice());
    proof {
        crate::numfmt::lemma_hex_text_len(digest@.take(8));
        assert(h@ == hash_text(*v));
    }
    Ok(h)
}

/// Semantic equality: both values canonicalize under the default options
/// and the canonical texts coincide. Trees holding invalid floats are
/// never equal to anything.
pub fn equal_loose(a: &GValue, b: &GValue) -> (r: bool)
    ensures
        r == (!has_invalid_float(*a) && !has_invalid_float(*b) && canon_text(*a, default_opts())
            == canon_text(*b, default_opts())),
{
    let ca = match canonicalize_loose(a) {
        Ok(c) => c,
        Err(_) => {
            return false;
        },
    };
    let cb = match canonicalize_loose(b) {
        Ok(c) => c,
        Err(_) => {
            return false;
        },
    };
    ca == cb
}

} // verus!
