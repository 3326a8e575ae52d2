//! Canonicalization behavior, end to end.

use glyph_codec::GValue;
use glyph_codec::LooseCanonOpts;
use glyph_codec::canonicalize_loose;
use glyph_codec::canonicalize_loose_no_tabular;
use glyph_codec::canonicalize_loose_with_opts;
use glyph_codec::equal_loose;
use glyph_codec::field;
use glyph_codec::fingerprint_loose;
use glyph_codec::hash_loose;

#[test]
fn test_canon_null() {
    let gv = GValue::null();
    assert_eq!(canonicalize_loose(&gv).unwrap(), "_");
}

#[test]
fn test_canon_null_pretty() {
    let gv = GValue::null();
    let opts = LooseCanonOpts::pretty();
    assert_eq!(canonicalize_loose_with_opts(&gv, &opts).unwrap(), "∅");
}

#[test]
fn test_canon_bool() {
    assert_eq!(canonicalize_loose(&GValue::bool(true)).unwrap(), "t");
    assert_eq!(canonicalize_loose(&GValue::bool(false)).unwrap(), "f");
}

#[test]
fn test_canon_int() {
    assert_eq!(canonicalize_loose(&GValue::int_val(42)).unwrap(), "42");
    assert_eq!(canonicalize_loose(&GValue::int_val(-123)).unwrap(), "-123");
    assert_eq!(canonicalize_loose(&GValue::int_val(0)).unwrap(), "0");
}

#[test]
fn test_canon_float() {
    assert_eq!(
        canonicalize_loose(&GValue::float(3.14f64.to_bits())).unwrap(),
        "3.14"
    );
    assert_eq!(
        canonicalize_loose(&GValue::float(0.0f64.to_bits())).unwrap(),
        "0"
    );
    assert_eq!(
        canonicalize_loose(&GValue::float((-0.0f64).to_bits())).unwrap(),
        "0"
    );
}

#[test]
fn test_canon_string_bare() {
    let gv = GValue::str("hello");
    assert_eq!(canonicalize_loose(&gv).unwrap(), "hello");
}

#[test]
fn test_canon_string_quoted() {
    let gv = GValue::str("hello world");
    assert_eq!(canonicalize_loose(&gv).unwrap(), "\"hello world\"");
}

#[test]
fn test_canon_string_escapes() {
    let gv = GValue::str("line1\nline2");
    assert_eq!(canonicalize_loose(&gv).unwrap(), "\"line1\\nline2\"");
}

#[test]
fn test_canon_list() {
    let gv = GValue::list(vec![
        GValue::int_val(1),
        GValue::int_val(2),
        GValue::int_val(3),
    ]);
    assert_eq!(canonicalize_loose(&gv).unwrap(), "[1 2 3]");
}

#[test]
fn test_canon_map_sorted() {
    let gv = GValue::map(vec![
        field("b", GValue::int_val(2)),
        field("a", GValue::int_val(1)),
    ]);
    assert_eq!(canonicalize_loose(&gv).unwrap(), "{a=1 b=2}");
}

#[test]
fn test_canon_ref() {
    let gv = GValue::id("user", "123");
    assert_eq!(canonicalize_loose(&gv).unwrap(), "^user:123");

    let gv2 = GValue::simple_id("abc");
    assert_eq!(canonicalize_loose(&gv2).unwrap(), "^abc");
}

fn sparse_rows() -> GValue {
    GValue::list(vec![
        GValue::map(vec![field("a", GValue::int_val(1))]),
        GValue::map(vec![field("b", GValue::int_val(2))]),
        GValue::map(vec![field("c", GValue::int_val(3))]),
    ])
}

#[test]
fn test_sparse_keys_no_tabular() {
    let result = canonicalize_loose(&sparse_rows()).unwrap();
    assert!(
        !result.contains("@tab"),
        "Disjoint keys should not use tabular"
    );
    assert_eq!(result, "[{a=1} {b=2} {c=3}]");
}

fn homogeneous_rows() -> GValue {
    GValue::list(vec![
        GValue::map(vec![
            field("a", GValue::int_val(1)),
            field("b", GValue::int_val(2)),
        ]),
        GValue::map(vec![
            field("a", GValue::int_val(3)),
            field("b", GValue::int_val(4)),
        ]),
        GValue::map(vec![
            field("a", GValue::int_val(5)),
            field("b", GValue::int_val(6)),
        ]),
    ])
}

#[test]
fn test_homogeneous_array_tabular() {
    let result = canonicalize_loose(&homogeneous_rows()).unwrap();
    assert!(
        result.contains("@tab"),
        "Homogeneous array should use tabular"
    );
}

#[test]
fn test_empty_objects_no_tabular() {
    let gv = GValue::list(vec![
        GValue::map(vec![]),
        GValue::map(vec![]),
        GValue::map(vec![]),
    ]);
    let result = canonicalize_loose(&gv).unwrap();
    assert!(
        !result.contains("@tab"),
        "Empty objects should not use tabular"
    );
    assert_eq!(result, "[{} {} {}]");
}

#[test]
fn test_equality() {
    let a = GValue::map(vec![
        field("x", GValue::int_val(1)),
        field("y", GValue::int_val(2)),
    ]);
    let b = GValue::map(vec![
        field("y", GValue::int_val(2)),
        field("x", GValue::int_val(1)),
    ]);
    assert!(
        equal_loose(&a, &b),
        "Same data, different order should be equal"
    );
}

#[test]
fn test_fingerprint_deterministic() {
    let gv = GValue::map(vec![
        field("a", GValue::int_val(1)),
        field(
            "b",
            GValue::list(vec![GValue::int_val(2), GValue::int_val(3)]),
        ),
    ]);

    let fp1 = fingerprint_loose(&gv).unwrap();
    let fp2 = fingerprint_loose(&gv).unwrap();

    assert_eq!(fp1, fp2);
}

#[test]
fn test_hash_loose() {
    let gv = GValue::map(vec![field("test", GValue::str("value"))]);
    let h = hash_loose(&gv).unwrap();

    assert_eq!(h.len(), 16); // 8 bytes = 16 hex chars
}

#[test]
fn test_unicode() {
    let gv = GValue::str("你好世界");
    let result = canonicalize_loose(&gv).unwrap();
    assert_eq!(result, "你好世界");
}

#[test]
fn test_complex_nested() {
    let gv = GValue::map(vec![field(
        "tool_call",
        GValue::map(vec![
            field("name", GValue::str("search")),
            field(
                "args",
                GValue::map(vec![
                    field("query", GValue::str("weather")),
                    field("limit", GValue::int_val(10)),
                ]),
            ),
        ]),
    )]);

    let result = canonicalize_loose(&gv).unwrap();

    assert!(result.contains("search"));
    assert!(result.contains("query=weather"));
    assert!(result.contains("limit=10"));
}

#[test]
fn test_tabular_threshold() {
    // 2 items - below threshold
    let two = GValue::list(vec![
        GValue::map(vec![field("a", GValue::int_val(1))]),
        GValue::map(vec![field("a", GValue::int_val(2))]),
    ]);
    let result2 = canonicalize_loose(&two).unwrap();
    assert!(!result2.contains("@tab"));

    // 3 items - at threshold
    let three = GValue::list(vec![
        GValue::map(vec![field("a", GValue::int_val(1))]),
        GValue::map(vec![field("a", GValue::int_val(2))]),
        GValue::map(vec![field("a", GValue::int_val(3))]),
    ]);
    let result3 = canonicalize_loose(&three).unwrap();
    assert!(result3.contains("@tab"));
}

#[test]
fn test_tabular_exact_block() {
    let three = GValue::list(vec![
        GValue::map(vec![field("a", GValue::int_val(1))]),
        GValue::map(vec![field("a", GValue::int_val(2))]),
        GValue::map(vec![field("a", GValue::int_val(3))]),
    ]);
    assert_eq!(
        canonicalize_loose(&three).unwrap(),
        "@tab _ rows=3 cols=1 [a]\n|1|\n|2|\n|3|\n@end"
    );
}

#[test]
fn test_tabular_missing_cell_gets_null() {
    let rows = GValue::list(vec![
        GValue::map(vec![
            field("a", GValue::int_val(1)),
            field("b", GValue::int_val(2)),
        ]),
        GValue::map(vec![
            field("a", GValue::int_val(3)),
            field("b", GValue::int_val(4)),
        ]),
        GValue::map(vec![field("a", GValue::int_val(5))]),
    ]);
    assert_eq!(
        canonicalize_loose(&rows).unwrap(),
        "@tab _ rows=3 cols=2 [a b]\n|1|2|\n|3|4|\n|5|_|\n@end"
    );
}

#[test]
fn test_tabular_cell_pipe_escaped() {
    let rows = GValue::list(vec![
        GValue::map(vec![field("a", GValue::str("x|y"))]),
        GValue::map(vec![field("a", GValue::int_val(2))]),
        GValue::map(vec![field("a", GValue::int_val(3))]),
    ]);
    let result = canonicalize_loose(&rows).unwrap();
    assert!(result.contains("\\|"));
}

#[test]
fn test_tabular_pretty_null_token() {
    let rows = GValue::list(vec![
        GValue::map(vec![field("a", GValue::int_val(1))]),
        GValue::map(vec![
            field("a", GValue::int_val(2)),
            field("b", GValue::int_val(3)),
        ]),
        GValue::map(vec![field("a", GValue::int_val(4))]),
    ]);
    let opts = LooseCanonOpts::pretty();
    let result = canonicalize_loose_with_opts(&rows, &opts).unwrap();
    // the configured null token appears in the header and in missing cells
    assert_eq!(
        result,
        "@tab ∅ rows=3 cols=2 [a b]\n|1|∅|\n|2|3|\n|4|∅|\n@end"
    );
}

#[test]
fn test_empty_list() {
    assert_eq!(canonicalize_loose(&GValue::list(vec![])).unwrap(), "[]");
}

#[test]
fn test_no_tabular_option() {
    let result = canonicalize_loose_no_tabular(&homogeneous_rows()).unwrap();
    assert!(!result.contains("@tab"));
    assert_eq!(result, "[{a=1 b=2} {a=3 b=4} {a=5 b=6}]");
}
