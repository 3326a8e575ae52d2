//! The library's cross-cutting laws, stated over the same spec functions
//! the public contracts use, and proved once and for all.

use vstd::prelude::*;
use crate::loose::LooseCanonOpts;
use crate::loose::all_rows_keyed;
use crate::loose::canon_text;
use crate::loose::count_common;
use crate::loose::dedup_acc;
use crate::loose::default_opts;
use crate::loose::entries_have_invalid;
use crate::loose::entry_pairs;
use crate::loose::has_invalid_float;
use crate::loose::first_row_keys;
use crate::loose::key_in_all;
use crate::loose::keys_of_value;
use crate::loose::tab_eligible;
use crate::loose::union_acc;
use crate::loose::union_keys;
use crate::order::insert_pair;
use crate::order::sort_pairs;
use crate::strings::lemma_lex_asym;
use crate::strings::lemma_lex_connex;
use crate::strings::lemma_lex_trans;
use crate::strings::lex_le;
use crate::strings::lex_lt;
use crate::types::GValue;
use crate::types::MapEntry;

verus! {

broadcast use vstd::seq_lib::group_to_multiset_ensures, vstd::multiset::group_multiset_axioms;

/// Determinism: the canonical text is a function of value and options
/// alone, so any two canonicalizations of the same value agree.
pub proof fn lemma_canonicalize_deterministic(
    v: GValue,
    opts: LooseCanonOpts,
    r1: Seq<char>,
    r2: Seq<char>,
)
    requires
        r1 == canon_text(v, opts),
        r2 == canon_text(v, opts),
    ensures
        r1 == r2,
{
}

/// Non-strict key order is transitive.
proof fn lemma_lex_le_trans(a: Seq<char>, b: Seq<char>, c: Seq<char>)
    requires
        lex_le(a, b),
        lex_le(b, c),
    ensures
        lex_le(a, c),
{
    if a == b || b == c {
    } else {
        lemma_lex_trans(a, b, c);
    }
}

/// Non-strict key order is antisymmetric.
proof fn lemma_lex_le_antisym(a: Seq<char>, b: Seq<char>)
    requires
        lex_le(a, b),
        lex_le(b, a),
    ensures
        a == b,
{
    if a != b {
        lemma_lex_asym(a, b);
    }
}

/// Sorted by key text, non-strictly.
pub open spec fn pairs_sorted(s: Seq<(Seq<char>, Seq<char>)>) -> bool {
    forall|i: int, j: int| 0 <= i < j < s.len() ==> lex_le(#[trigger] s[i].0, #[trigger] s[j].0)
}

/// Pairwise distinct key texts.
pub open spec fn distinct_keys(s: Seq<(Seq<char>, Seq<char>)>) -> bool {
    forall|i: int, j: int| 0 <= i < j < s.len() ==> (#[trigger] s[i].0) != (#[trigger] s[j].0)
}

/// Inserting keeps the run sorted and adds one occurrence.
proof fn lemma_insert_pair_props(s: Seq<(Seq<char>, Seq<char>)>, p: (Seq<char>, Seq<char>))
    requires
        pairs_sorted(s),
    ensures
        pairs_sorted(insert_pair(s, p)),
        insert_pair(s, p).to_multiset() == s.to_multiset().insert(p),
        insert_pair(s, p).len() == s.len() + 1,
    decreases s.len(),
{
    if s.len() == 0 {
        let r = insert_pair(s, p);
        assert(r =~= seq![p]);
        assert(r.to_multiset() =~= s.to_multiset().insert(p)) by {
            assert(r =~= Seq::<(Seq<char>, Seq<char>)>::empty().push(p));
        }
    } else if lex_le(s.last().0, p.0) {
        let r = s.push(p);
        assert(pairs_sorted(r)) by {
            assert forall|i: int, j: int| 0 <= i < j < r.len() implies lex_le(
                #[trigger] r[i].0,
                #[trigger] r[j].0,
            ) by {
                if j < s.len() {
                } else {
                    assert(r[j] == p);
                    if i < s.len() - 1 {
                        assert(lex_le(s[i].0, s[s.len() - 1].0));
                        lemma_lex_le_trans(s[i].0, s.last().0, p.0);
                    }
                }
            }
        }
    } else {
        let d = s.drop_last();
        assert(pairs_sorted(d)) by {
            assert(forall|i: int, j: int|
                0 <= i < j < d.len() ==> d[i] == s[i] && d[j] == s[j]);
        }
        lemma_insert_pair_props(d, p);
        let t = insert_pair(d, p);
        let r = t.push(s.last());
        if !lex_lt(p.0, s.last().0) {
            lemma_lex_connex(s.last().0, p.0);
            assert(false);
        }
        assert(lex_lt(p.0, s.last().0));
        // every element of t is an element of d, or p; both precede last
        assert forall|i: int| 0 <= i < t.len() implies lex_le(
            #[trigger] t[i].0,
            s.last().0,
        ) by {
            assert(t.to_multiset().contains(t[i]));
            if t[i] == p {
            } else {
                assert(d.to_multiset().contains(t[i]));
                assert(d.contains(t[i]));
                let w = choose|k: int| 0 <= k < d.len() && d[k] == t[i];
                assert(lex_le(s[w].0, s.last().0));
            }
        }
        assert(pairs_sorted(r)) by {
            assert forall|i: int, j: int| 0 <= i < j < r.len() implies lex_le(
                #[trigger] r[i].0,
                #[trigger] r[j].0,
            ) by {
                if j < t.len() {
                } else {
                    assert(r[j] == s.last());
                    assert(lex_le(t[i].0, s.last().0));
                }
            }
        }
        assert(r.to_multiset() =~= s.to_multiset().insert(p)) by {
            assert(s =~= d.push(s.last()));
            assert(s.to_multiset() == d.to_multiset().insert(s.last()));
            assert(r.to_multiset() == t.to_multiset().insert(s.last()));
        }
    }
}

/// Sorting sorts and permutes.
pub proof fn lemma_sort_pairs_props(s: Seq<(Seq<char>, Seq<char>)>)
    ensures
        pairs_sorted(sort_pairs(s)),
        sort_pairs(s).to_multiset() == s.to_multiset(),
        sort_pairs(s).len() == s.len(),
    decreases s.len(),
{
    if s.len() == 0 {
    } else {
        let d = s.drop_last();
        lemma_sort_pairs_props(d);
        lemma_insert_pair_props(sort_pairs(d), s.last());
        assert(s =~= d.push(s.last()));
        assert(s.to_multiset() == d.to_multiset().insert(s.last()));
    }
}

/// Distinct key texts carry over to any permutation.
proof fn lemma_distinct_keys_permuted(
    p: Seq<(Seq<char>, Seq<char>)>,
    q: Seq<(Seq<char>, Seq<char>)>,
)
    requires
        p.to_multiset() == q.to_multiset(),
        distinct_keys(p),
    ensures
        distinct_keys(q),
    decreases q.len(),
{
    if q.len() == 0 {
    } else {
        let x = q[0];
        assert(q.to_multiset().contains(x));
        assert(p.contains(x));
        let m = choose|k: int| 0 <= k < p.len() && p[k] == x;
        let p2 = p.remove(m);
        let q2 = q.remove(0);
        assert(p2.to_multiset() == p.to_multiset().remove(x));
        assert(q2.to_multiset() == q.to_multiset().remove(x));
        assert(distinct_keys(p2)) by {
            assert(forall|i: int|
                0 <= i < p2.len() ==> p2[i] == (if i < m {
                    p[i]
                } else {
                    p[i + 1]
                }));
        }
        lemma_distinct_keys_permuted(p2, q2);
        assert forall|i: int, j: int| 0 <= i < j < q.len() implies (#[trigger] q[i].0) != (
        #[trigger] q[j].0) by {
            if i >= 1 {
                assert(q[i] == q2[i - 1] && q[j] == q2[j - 1]);
            } else {
                // q[0] == p[m]; a second entry with the same key would give
                // two entries of p sharing a key
                assert(q[j] == q2[j - 1]);
                if q[j].0 == x.0 {
                    assert(q2.to_multiset().contains(q2[j - 1]));
                    assert(p2.to_multiset().contains(q[j]));
                    assert(p2.contains(q[j]));
                    let w = choose|k: int| 0 <= k < p2.len() && p2[k] == q[j];
                    assert(p2[w] == (if w < m {
                        p[w]
                    } else {
                        p[w + 1]
                    }));
                    let n: int = if w < m {
                        w
                    } else {
                        w + 1
                    };
                    assert(p[n] == q[j]);
                    if n != m {
                        if n < m {
                            assert(p[n].0 != p[m].0);
                        } else {
                            assert(p[m].0 != p[n].0);
                        }
                        assert(false);
                    } else {
                        // the same entry twice: its count in p is at least 2
                        assert(p2.to_multiset().count(x) >= 1);
                        assert(p.to_multiset().count(x) >= 2);
                        let a = choose|k: int| 0 <= k < p2.len() && p2[k] == x;
                        let a2: int = if a < m {
                            a
                        } else {
                            a + 1
                        };
                        assert(p[a2] == x && a2 != m);
                        if a2 < m {
                            assert(p[a2].0 != p[m].0);
                        } else {
                            assert(p[m].0 != p[a2].0);
                        }
                        assert(false);
                    }
                }
            }
        }
    }
}

/// Two sorted runs with the same entries and distinct keys coincide.
proof fn lemma_sorted_unique(a: Seq<(Seq<char>, Seq<char>)>, b: Seq<(Seq<char>, Seq<char>)>)
    requires
        pairs_sorted(a),
        pairs_sorted(b),
        a.to_multiset() == b.to_multiset(),
        distinct_keys(a),
    ensures
        a == b,
    decreases a.len(),
{
    if a.len() == 0 {
        assert(b.len() == 0);
        assert(a =~= b);
    } else {
        assert(a.to_multiset().len() == a.len());
        assert(b.to_multiset().len() == b.len());
        assert(b.len() == a.len());
        assert(a.to_multiset().contains(a[0]));
        assert(b.contains(a[0]));
        let k = choose|i: int| 0 <= i < b.len() && b[i] == a[0];
        assert(b.to_multiset().contains(b[0]));
        assert(a.contains(b[0]));
        let m = choose|i: int| 0 <= i < a.len() && a[i] == b[0];
        assert(lex_le(b[0].0, b[k].0) || b[0] == b[k]);
        assert(lex_le(a[0].0, a[m].0) || a[0] == a[m]);
        assert(lex_le(b[0].0, a[0].0));
        assert(lex_le(a[0].0, b[0].0));
        lemma_lex_le_antisym(a[0].0, b[0].0);
        assert(a[m] == b[0]);
        if m != 0 {
            assert(a[0].0 != a[m].0);
            assert(false);
        }
        assert(a[0] == b[0]);
        let a2 = a.remove(0);
        let b2 = b.remove(0);
        assert(a2.to_multiset() == a.to_multiset().remove(a[0]));
        assert(b2.to_multiset() == b.to_multiset().remove(b[0]));
        assert(pairs_sorted(a2) && distinct_keys(a2)) by {
            assert(forall|i: int| 0 <= i < a2.len() ==> a2[i] == a[i + 1]);
        }
        assert(pairs_sorted(b2)) by {
            assert(forall|i: int| 0 <= i < b2.len() ==> b2[i] == b[i + 1]);
        }
        lemma_sorted_unique(a2, b2);
        assert(a =~= b) by {
            assert(forall|i: int| 1 <= i < a.len() ==> a[i] == a2[i - 1] && b[i] == b2[i - 1]);
        }
    }
}

/// The rendered pair at each position.
proof fn lemma_entry_pairs_index(s: Seq<MapEntry>, opts: LooseCanonOpts)
    ensures
        entry_pairs(s, opts).len() == s.len(),
        forall|i: int|
            0 <= i < s.len() ==> #[trigger] entry_pairs(s, opts)[i] == (
            crate::strings::string_text(s[i].key@),
            canon_text(s[i].value, opts),
            ),
    decreases s.len(),
{
    if s.len() == 0 {
    } else {
        lemma_entry_pairs_index(s.skip(1), opts);
        assert(forall|i: int|
            1 <= i < s.len() ==> entry_pairs(s, opts)[i] == entry_pairs(s.skip(1), opts)[i - 1]
                && s.skip(1)[i - 1] == s[i]);
    }
}

/// Rendering entry by entry preserves the multiset of rendered pairs.
proof fn lemma_entry_pairs_multiset(s1: Seq<MapEntry>, s2: Seq<MapEntry>, opts: LooseCanonOpts)
    requires
        s1.to_multiset() == s2.to_multiset(),
    ensures
        entry_pairs(s1, opts).to_multiset() == entry_pairs(s2, opts).to_multiset(),
    decreases s1.len(),
{
    lemma_entry_pairs_index(s1, opts);
    lemma_entry_pairs_index(s2, opts);
    if s1.len() == 0 {
        assert(s1.to_multiset().len() == s1.len());
        assert(s2.to_multiset().len() == s2.len());
        assert(s2.len() == 0);
        assert(entry_pairs(s1, opts) =~= entry_pairs(s2, opts));
    } else {
        let x = s1[0];
        assert(s1.to_multiset().contains(x));
        assert(s2.contains(x));
        let k = choose|i: int| 0 <= i < s2.len() && s2[i] == x;
        let r1 = s1.remove(0);
        let r2 = s2.remove(k);
        assert(r1.to_multiset() == s1.to_multiset().remove(x));
        assert(r2.to_multiset() == s2.to_multiset().remove(x));
        lemma_entry_pairs_multiset(r1, r2, opts);
        lemma_entry_pairs_index(r1, opts);
        lemma_entry_pairs_index(r2, opts);
        let px = (crate::strings::string_text(x.key@), canon_text(x.value, opts));
        assert(entry_pairs(r1, opts) =~= entry_pairs(s1, opts).remove(0)) by {
            assert(forall|i: int| 0 <= i < r1.len() ==> r1[i] == s1[i + 1]);
        }
        assert(entry_pairs(r2, opts) =~= entry_pairs(s2, opts).remove(k)) by {
            assert(forall|i: int|
                0 <= i < r2.len() ==> r2[i] == (if i < k {
                    s2[i]
                } else {
                    s2[i + 1]
                }));
        }
        assert(entry_pairs(s1, opts)[0] == px);
        assert(entry_pairs(s2, opts)[k] == px);
        assert(entry_pairs(s1, opts).remove(0).to_multiset() == entry_pairs(
            s1,
            opts,
        ).to_multiset().remove(px));
        assert(entry_pairs(s2, opts).remove(k).to_multiset() == entry_pairs(
            s2,
            opts,
        ).to_multiset().remove(px));
        assert(entry_pairs(s1, opts).to_multiset().contains(px));
        assert(entry_pairs(s2, opts).to_multiset().contains(px));
        let e1 = entry_pairs(s1, opts).to_multiset();
        let e2 = entry_pairs(s2, opts).to_multiset();
        assert(e1.remove(px) =~= e2.remove(px));
        assert(e1 =~= e2) by {
            assert forall|y: (Seq<char>, Seq<char>)| e1.count(y) == e2.count(y) by {
                if y == px {
                    assert(e1.remove(px).count(px) == e1.count(px) - 1);
                    assert(e2.remove(px).count(px) == e2.count(px) - 1);
                    assert(e1.remove(px).count(px) == e2.remove(px).count(px));
                } else {
                    assert(e1.remove(px).count(y) == e1.count(y));
                    assert(e2.remove(px).count(y) == e2.count(y));
                    assert(e1.remove(px).count(y) == e2.remove(px).count(y));
                }
            }
        }
    }
}

/// Order-independence of maps: two maps holding the same entries as a
/// multiset, with pairwise distinct canonical key texts, canonicalize to
/// the same text; the source order of entries never shows.
pub proof fn lemma_map_order_independent(
    m1: Vec<MapEntry>,
    m2: Vec<MapEntry>,
    opts: LooseCanonOpts,
)
    requires
        m1@.to_multiset() == m2@.to_multiset(),
        distinct_keys(entry_pairs(m1@, opts)),
    ensures
        canon_text(GValue::Mapping(m1), opts) == canon_text(GValue::Mapping(m2), opts),
{
    let p1 = entry_pairs(m1@, opts);
    let p2 = entry_pairs(m2@, opts);
    lemma_entry_pairs_multiset(m1@, m2@, opts);
    lemma_sort_pairs_props(p1);
    lemma_sort_pairs_props(p2);
    lemma_distinct_keys_permuted(p1, sort_pairs(p1));
    lemma_sorted_unique(sort_pairs(p1), sort_pairs(p2));
}

/// Below the configured minimum row count a list never tabulates.
pub proof fn lemma_tabular_needs_min_rows(items: Seq<GValue>, opts: LooseCanonOpts)
    requires
        items.len() < opts.min_rows,
    ensures
        !tab_eligible(items, opts),
{
}

/// Anything a dedup pass emits came from the accumulator or the keys.
proof fn lemma_dedup_acc_source(acc: Seq<Seq<char>>, ks: Seq<Seq<char>>, x: Seq<char>)
    requires
        dedup_acc(acc, ks).contains(x),
    ensures
        acc.contains(x) || ks.contains(x),
    decreases ks.len(),
{
    if ks.len() == 0 {
    } else {
        let acc2 = if acc.contains(ks[0]) {
            acc
        } else {
            acc.push(ks[0])
        };
        lemma_dedup_acc_source(acc2, ks.skip(1), x);
        if acc2.contains(x) && !acc.contains(x) {
            assert(x == ks[0]);
        }
        if ks.skip(1).contains(x) {
            let w = choose|i: int| 0 <= i < ks.skip(1).len() && ks.skip(1)[i] == x;
            assert(ks[w + 1] == x);
        }
    }
}

/// No key shared by every row means no key of the first row is common.
proof fn lemma_count_common_zero(ks: Seq<Seq<char>>, items: Seq<GValue>)
    requires
        forall|k: Seq<char>| ks.contains(k) ==> !key_in_all(k, items),
    ensures
        count_common(ks, items) == 0,
    decreases ks.len(),
{
    if ks.len() == 0 {
    } else {
        assert(ks.contains(ks[0]));
        assert(forall|k: Seq<char>| ks.skip(1).contains(k) ==> ks.contains(k)) by {
            assert forall|k: Seq<char>| ks.skip(1).contains(k) implies ks.contains(k) by {
                let w = choose|i: int| 0 <= i < ks.skip(1).len() && ks.skip(1)[i] == k;
                assert(ks[w + 1] == k);
            }
        }
        lemma_count_common_zero(ks.skip(1), items);
    }
}

/// Rows whose key sets are pairwise disjoint never tabulate under the
/// missing-keys-tolerated mode, however many rows there are.
pub proof fn lemma_disjoint_keys_no_tabular(items: Seq<GValue>, opts: LooseCanonOpts)
    requires
        opts.allow_missing,
        items.len() >= 2,
        all_rows_keyed(items),
        forall|i: int, j: int, k: Seq<char>|
            0 <= i < j < items.len() ==> !((#[trigger] keys_of_value(items[i]).unwrap().contains(
                k,
            )) && (#[trigger] keys_of_value(items[j]).unwrap().contains(k))),
    ensures
        !tab_eligible(items, opts),
{
    if tab_eligible(items, opts) {
        assert(union_keys(items).len() > 0);
        assert(forall|k: Seq<char>| first_row_keys(items).contains(k) ==> !key_in_all(k, items))
            by {
            assert forall|k: Seq<char>|
                first_row_keys(items).contains(k) implies !key_in_all(k, items) by {
                assert(keys_of_value(items[0]) is Some);
                let ks0 = keys_of_value(items[0]).unwrap();
                lemma_dedup_acc_source(Seq::empty(), ks0, k);
                assert(ks0.contains(k));
                if key_in_all(k, items) {
                    assert(match keys_of_value(items[1]) {
                        Some(ks) => ks.contains(k),
                        None => false,
                    });
                    assert(!(keys_of_value(items[0]).unwrap().contains(k) && keys_of_value(
                        items[1],
                    ).unwrap().contains(k)));
                    assert(false);
                }
            }
        }
        lemma_count_common_zero(first_row_keys(items), items);
        assert(2 * count_common(first_row_keys(items), items) >= union_keys(items).len());
        assert(false);
    }
}


/// Dedup keeps everything already seen or newly offered.
proof fn lemma_dedup_acc_complete(acc: Seq<Seq<char>>, ks: Seq<Seq<char>>, x: Seq<char>)
    requires
        acc.contains(x) || ks.contains(x),
    ensures
        dedup_acc(acc, ks).contains(x),
    decreases ks.len(),
{
    if ks.len() == 0 {
    } else {
        let acc2 = if acc.contains(ks[0]) {
            acc
        } else {
            acc.push(ks[0])
        };
        if acc.contains(x) || x == ks[0] {
            assert(acc2.contains(x)) by {
                if acc.contains(x) {
                    let w = choose|i: int| 0 <= i < acc.len() && acc[i] == x;
                    assert(acc2[w] == x);
                } else {
                    assert(acc2 == acc.push(ks[0]));
                    assert(acc2[acc.len() as int] == x);
                }
            }
            lemma_dedup_acc_complete(acc2, ks.skip(1), x);
        } else {
            assert(ks.skip(1).contains(x)) by {
                let w = choose|i: int| 0 <= i < ks.len() && ks[i] == x;
                assert(ks.skip(1)[w - 1] == x);
            }
            lemma_dedup_acc_complete(acc2, ks.skip(1), x);
        }
    }
}

/// When every offered key was already seen, a dedup pass adds nothing.
proof fn lemma_dedup_acc_noop(acc: Seq<Seq<char>>, ks: Seq<Seq<char>>)
    requires
        forall|k: Seq<char>| ks.contains(k) ==> acc.contains(k),
    ensures
        dedup_acc(acc, ks) == acc,
    decreases ks.len(),
{
    if ks.len() == 0 {
    } else {
        assert(ks.contains(ks[0]));
        assert(forall|k: Seq<char>| ks.skip(1).contains(k) ==> ks.contains(k)) by {
            assert forall|k: Seq<char>| ks.skip(1).contains(k) implies ks.contains(k) by {
                let w = choose|i: int| 0 <= i < ks.skip(1).len() && ks.skip(1)[i] == k;
                assert(ks[w + 1] == k);
            }
        }
        lemma_dedup_acc_noop(acc, ks.skip(1));
    }
}

/// With identical rows, later rows add nothing to the union.
proof fn lemma_union_acc_noop(acc: Seq<Seq<char>>, items: Seq<GValue>, ks0: Seq<Seq<char>>)
    requires
        forall|i: int| 0 <= i < items.len() ==> keys_of_value(#[trigger] items[i]) == Some(ks0),
        forall|k: Seq<char>| ks0.contains(k) ==> acc.contains(k),
    ensures
        union_acc(acc, items) == acc,
    decreases items.len(),
{
    if items.len() == 0 {
    } else {
        lemma_dedup_acc_noop(acc, ks0);
        assert(forall|i: int|
            0 <= i < items.skip(1).len() ==> keys_of_value(#[trigger] items.skip(1)[i]) == Some(
                ks0,
            )) by {
            assert(forall|i: int|
                0 <= i < items.skip(1).len() ==> items.skip(1)[i] == items[i + 1]);
        }
        lemma_union_acc_noop(acc, items.skip(1), ks0);
    }
}

/// Every key of the first row is common when all rows carry the same keys.
proof fn lemma_count_common_all(ks: Seq<Seq<char>>, items: Seq<GValue>)
    requires
        forall|k: Seq<char>| ks.contains(k) ==> key_in_all(k, items),
    ensures
        count_common(ks, items) == ks.len(),
    decreases ks.len(),
{
    if ks.len() == 0 {
    } else {
        assert(ks.contains(ks[0]));
        assert(forall|k: Seq<char>| ks.skip(1).contains(k) ==> ks.contains(k)) by {
            assert forall|k: Seq<char>| ks.skip(1).contains(k) implies ks.contains(k) by {
                let w = choose|i: int| 0 <= i < ks.skip(1).len() && ks.skip(1)[i] == k;
                assert(ks[w + 1] == k);
            }
        }
        lemma_count_common_all(ks.skip(1), items);
    }
}

/// Enough rows that all carry the same non-empty key list, within the
/// column limit, do tabulate under the missing-keys-tolerated mode.
pub proof fn lemma_identical_keys_tabular(
    items: Seq<GValue>,
    opts: LooseCanonOpts,
    ks0: Seq<Seq<char>>,
)
    requires
        opts.allow_missing,
        items.len() >= opts.min_rows,
        items.len() >= 1,
        ks0.len() >= 1,
        forall|i: int| 0 <= i < items.len() ==> keys_of_value(#[trigger] items[i]) == Some(ks0),
        dedup_acc(Seq::empty(), ks0).len() <= opts.max_cols,
    ensures
        tab_eligible(items, opts),
{
    let d = dedup_acc(Seq::<Seq<char>>::empty(), ks0);
    assert(all_rows_keyed(items));
    // the union is the first row's deduplicated keys
    assert(union_keys(items) == d) by {
        assert(keys_of_value(items[0]) == Some(ks0));
        assert(forall|i: int|
            0 <= i < items.skip(1).len() ==> keys_of_value(#[trigger] items.skip(1)[i]) == Some(
                ks0,
            )) by {
            assert(forall|i: int|
                0 <= i < items.skip(1).len() ==> items.skip(1)[i] == items[i + 1]);
        }
        assert(forall|k: Seq<char>| ks0.contains(k) ==> d.contains(k)) by {
            assert forall|k: Seq<char>| ks0.contains(k) implies d.contains(k) by {
                lemma_dedup_acc_complete(Seq::empty(), ks0, k);
            }
        }
        lemma_union_acc_noop(d, items.skip(1), ks0);
    }
    assert(union_keys(items).len() > 0) by {
        assert(ks0.contains(ks0[0]));
        lemma_dedup_acc_complete(Seq::empty(), ks0, ks0[0]);
    }
    assert(first_row_keys(items) == d);
    assert(forall|k: Seq<char>| d.contains(k) ==> key_in_all(k, items)) by {
        assert forall|k: Seq<char>| d.contains(k) implies key_in_all(k, items) by {
            lemma_dedup_acc_source(Seq::empty(), ks0, k);
            assert(ks0.contains(k));
        }
    }
    lemma_count_common_all(d, items);
}


/// An entry list holds an invalid float exactly when some entry's value
/// does.
proof fn lemma_entries_invalid_exists(s: Seq<MapEntry>)
    ensures
        entries_have_invalid(s) <==> exists|i: int|
            0 <= i < s.len() && has_invalid_float(#[trigger] s[i].value),
    decreases s.len(),
{
    if s.len() == 0 {
    } else {
        lemma_entries_invalid_exists(s.skip(1));
        assert(forall|i: int| 0 <= i < s.skip(1).len() ==> #[trigger] s.skip(1)[i] == s[i + 1]);
        if entries_have_invalid(s) {
            if has_invalid_float(s[0].value) {
            } else {
                let w = choose|i: int|
                    0 <= i < s.skip(1).len() && has_invalid_float(s.skip(1)[i].value);
                assert(has_invalid_float(s[w + 1].value));
            }
        }
        if exists|i: int| 0 <= i < s.len() && has_invalid_float(#[trigger] s[i].value) {
            let w = choose|i: int| 0 <= i < s.len() && has_invalid_float(#[trigger] s[i].value);
            if w > 0 {
                assert(has_invalid_float(s.skip(1)[w - 1].value));
            }
        }
    }
}

/// Whether an entry list holds an invalid float does not depend on entry
/// order.
proof fn lemma_entries_invalid_permuted(s1: Seq<MapEntry>, s2: Seq<MapEntry>)
    requires
        s1.to_multiset() == s2.to_multiset(),
    ensures
        entries_have_invalid(s1) == entries_have_invalid(s2),
{
    lemma_entries_invalid_exists(s1);
    lemma_entries_invalid_exists(s2);
    if entries_have_invalid(s1) {
        let w = choose|i: int| 0 <= i < s1.len() && has_invalid_float(#[trigger] s1[i].value);
        assert(s1.to_multiset().contains(s1[w]));
        assert(s2.contains(s1[w]));
        let k = choose|i: int| 0 <= i < s2.len() && s2[i] == s1[w];
        assert(has_invalid_float(s2[k].value));
    }
    if entries_have_invalid(s2) {
        let w = choose|i: int| 0 <= i < s2.len() && has_invalid_float(#[trigger] s2[i].value);
        assert(s2.to_multiset().contains(s2[w]));
        assert(s1.contains(s2[w]));
        let k = choose|i: int| 0 <= i < s1.len() && s1[i] == s2[w];
        assert(has_invalid_float(s1[k].value));
    }
}

/// Two maps holding the same entries in any order are semantically equal:
/// under the default options both canonicalize, to the same text, so
/// `equal_loose` answers true on them.
pub proof fn lemma_equal_loose_map_reorder(m1: Vec<MapEntry>, m2: Vec<MapEntry>)
    requires
        m1@.to_multiset() == m2@.to_multiset(),
        distinct_keys(entry_pairs(m1@, default_opts())),
        !has_invalid_float(GValue::Mapping(m1)),
    ensures
        !has_invalid_float(GValue::Mapping(m2)),
        canon_text(GValue::Mapping(m1), default_opts()) == canon_text(
            GValue::Mapping(m2),
            default_opts(),
        ),
{
    lemma_entries_invalid_permuted(m1@, m2@);
    lemma_map_order_independent(m1, m2, default_opts());
}

} // verus!
