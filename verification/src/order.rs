//! Stable sorting of rendered `key = value` pairs by their canonical key
//! text, the order map and struct entries (and tabular columns) appear in.

use vstd::prelude::*;
use crate::strings::lex_le;
use crate::strings::lex_lt;
use crate::strings::lemma_lex_asym;
use crate::strings::lemma_lex_connex;
use crate::strings::str_lt;

verus! {

/// The text pair a rendered entry carries: key text and value text.
pub open spec fn pair_view(p: (String, String)) -> (Seq<char>, Seq<char>) {
    (p.0@, p.1@)
}

/// The views of a sequence of rendered entries.
pub open spec fn pairs_view(s: Seq<(String, String)>) -> Seq<(Seq<char>, Seq<char>)> {
    Seq::new(s.len(), |i: int| pair_view(s[i]))
}

/// Inserts a pair behind every pair whose key does not exceed its own:
/// stable insertion.
pub open spec fn insert_pair(
    s: Seq<(Seq<char>, Seq<char>)>,
    p: (Seq<char>, Seq<char>),
) -> Seq<(Seq<char>, Seq<char>)>
    decreases s.len(),
{
    if s.len() == 0 {
        seq![p]
    } else if lex_le(s.last().0, p.0) {
        s.push(p)
    } else {
        insert_pair(s.drop_last(), p).push(s.last())
    }
}

/// Stable insertion sort by key text.
pub open spec fn sort_pairs(s: Seq<(Seq<char>, Seq<char>)>) -> Seq<(Seq<char>, Seq<char>)>
    decreases s.len(),
{
    if s.len() == 0 {
        Seq::empty()
    } else {
        insert_pair(sort_pairs(s.drop_last()), s.last())
    }
}

/// Where the insertion lands: before the trailing run of strictly greater
/// keys.
pub proof fn lemma_insert_pair_at(
    s: Seq<(Seq<char>, Seq<char>)>,
    p: (Seq<char>, Seq<char>),
    j: int,
)
    requires
        0 <= j <= s.len(),
        forall|k: int| j <= k < s.len() ==> !lex_le(#[trigger] s[k].0, p.0),
        j > 0 ==> lex_le(s[j - 1].0, p.0),
    ensures
        insert_pair(s, p) == s.take(j) + seq![p] + s.skip(j),
    decreases s.len() - j,
{
    if j == s.len() {
        if s.len() == 0 {
            assert(insert_pair(s, p) =~= s.take(j) + seq![p] + s.skip(j));
        } else {
            assert(lex_le(s.last().0, p.0));
            assert(insert_pair(s, p) == s.push(p));
            assert(s.push(p) =~= s.take(j) + seq![p] + s.skip(j));
        }
    } else {
        assert(!lex_le(s[s.len() - 1].0, p.0));
        assert(insert_pair(s, p) == insert_pair(s.drop_last(), p).push(s.last()));
        let d = s.drop_last();
        assert(forall|k: int| j <= k < d.len() ==> !lex_le(#[trigger] d[k].0, p.0)) by {
            assert(forall|k: int| 0 <= k < d.len() ==> d[k] == s[k]);
        }
        if j > 0 {
            assert(d[j - 1] == s[j - 1]);
        }
        lemma_insert_pair_at(d, p, j);
        assert((d.take(j) + seq![p] + d.skip(j)).push(s.last()) =~= s.take(j) + seq![p] + s.skip(
            j,
        ));
    }
}

/// Inserts a rendered entry into an already sorted vector, scanning from
/// the end for its place.
fn insert_pair_vec(out: &mut Vec<(String, String)>, p: (String, String))
    ensures
        pairs_view(final (out)@) == insert_pair(pairs_view(old(out)@), pair_view(p)),
{
    let ghost s = pairs_view(old(out)@);
    let ghost pv = pair_view(p);
    let mut j: usize = out.len();
    while j > 0 && str_lt(p.0.as_str(), out[j - 1].0.as_str())
        invariant
            j <= out.len(),
            out == old(out),
            s == pairs_view(out@),
            pv == pair_view(p),
            forall|k: int| j <= k < s.len() ==> lex_lt(pv.0, #[trigger] s[k].0),
        decreases j,
    {
        j = j - 1;
    }
    proof {
        assert(forall|k: int| j <= k < s.len() ==> !lex_le(#[trigger] s[k].0, pv.0)) by {
            assert forall|k: int| j <= k < s.len() implies !lex_le(#[trigger] s[k].0, pv.0) by {
                lemma_lex_asym(pv.0, s[k].0);
            }
        }
        if j > 0 {
            assert(!lex_lt(pv.0, s[j - 1].0));
            if !lex_le(s[j - 1].0, pv.0) {
                lemma_lex_connex(s[j - 1].0, pv.0);
                assert(false);
            }
        }
        lemma_insert_pair_at(s, pv, j as int);
    }
    out.insert(j, p);
    proof {
        assert(pairs_view(out@) =~= s.take(j as int) + seq![pv] + s.skip(j as int));
    }
}

/// Stable insertion sort of rendered entries by key text.
pub fn sort_pair_vec(v: Vec<(String, String)>) -> (r: Vec<(String, String)>)
    ensures
        pairs_view(r@) == sort_pairs(pairs_view(v@)),
{
    let mut out: Vec<(String, String)> = Vec::new();
    let mut i: usize = 0;
    proof {
        assert(pairs_view(v@.take(0)) =~= Seq::<(Seq<char>, Seq<char>)>::empty());
        assert(pairs_view(out@) =~= sort_pairs(pairs_view(v@.take(0))));
    }
    while i < v.len()
        invariant
            i <= v.len(),
            pairs_view(out@) == sort_pairs(pairs_view(v@.take(i as int))),
        decreases v.len() - i,
    {
        let ghost before = pairs_view(v@.take(i as int));
        let p = clone_pair(&v[i]);
        insert_pair_vec(&mut out, p);
        proof {
            let after = pairs_view(v@.take(i as int + 1));
            assert(after.drop_last() =~= before);
            assert(after.last() == pair_view(v@[i as int]));
            assert(sort_pairs(after) == insert_pair(sort_pairs(before), pair_view(v@[i as int])));
        }
        i = i + 1;
    }
    proof {
        assert(v@.take(v@.len() as int) =~= v@);
    }
    out
}

/// Clones a rendered entry.
fn clone_pair(p: &(String, String)) -> (r: (String, String))
    ensures
        pair_view(r) == pair_view(*p),
{
    (clone_string(&p.0), clone_string(&p.1))
}

/// Clones a string, keeping its view.
pub fn clone_string(s: &String) -> (r: String)
    ensures
        r@ == s@,
{
    String::from_str(s.as_str())
}

} // verus!
