//! Version directory discovery: the underscore naming pattern and the
//! lexicographically sorted listing of matching directory names.

use vstd::prelude::*;
use vstd::relations::sorted_by;
use vstd::seq_lib::lemma_sorted_unique;
use crate::text::{lex_leq, lex_leq_fn, lex_leq_exec, lemma_lex_leq_total_ordering};

verus! {

/// The views of a sequence of strings.
pub open spec fn views_of(s: Seq<String>) -> Seq<Seq<char>> {
    s.map_values(|x: String| x@)
}

/// A directory name denotes a version directory when it starts and ends with
/// an underscore and is longer than two characters.
pub open spec fn is_version_name_spec(n: Seq<char>) -> bool {
    n.len() > 2 && n[0] == '_' && n[n.len() - 1] == '_'
}

/// Whether `name` matches the version directory naming pattern.
pub fn is_version_name(name: &str) -> (r: bool)
    ensures
        r == is_version_name_spec(name@),
{
    let len = name.unicode_len();
    if len <= 2 {
        return false;
    }
    let first = name.get_char(0);
    let last = name.get_char(len - 1);
    first == '_' && last == '_'
}

/// Inserts `x` into the sorted vector `v` at its place in lexicographic order.
pub fn insert_sorted(v: &mut Vec<String>, x: String)
    requires
        sorted_by(views_of(old(v)@), lex_leq_fn()),
    ensures
        sorted_by(views_of(final(v)@), lex_leq_fn()),
        views_of(final(v)@).to_multiset() == views_of(old(v)@).to_multiset().insert(x@),
{
    proof {
        lemma_lex_leq_total_ordering();
    }
    let ghost old_views = views_of(old(v)@);
    let mut i: usize = 0;
    loop
        invariant
            v@ == old(v)@,
            sorted_by(views_of(v@), lex_leq_fn()),
            0 <= i <= v@.len(),
            forall|j: int| 0 <= j < i ==> lex_leq(#[trigger] views_of(v@)[j], x@),
        ensures
            v@ == old(v)@,
            0 <= i <= v@.len(),
            forall|j: int| 0 <= j < i ==> lex_leq(#[trigger] views_of(v@)[j], x@),
            i == v@.len() || !lex_leq(views_of(v@)[i as int], x@),
        decreases v@.len() - i,
    {
        if i == v.len() {
            break;
        }
        if !lex_leq_exec(v[i].as_str(), x.as_str()) {
            break;
        }
        i = i + 1;
    }
    v.insert(i, x);
    proof {
        broadcast use vstd::seq_lib::group_to_multiset_ensures;

        let leq = lex_leq_fn();
        let new_views = views_of(v@);
        assert(new_views =~= old_views.insert(i as int, x@));
        old_views.insert_ensures(i as int, x@);
        assert(new_views.to_multiset() == old_views.to_multiset().insert(x@));
        assert forall|k1: int, k2: int| 0 <= k1 < k2 < new_views.len() implies #[trigger] leq(
            new_views[k1],
            new_views[k2],
        ) by {
            let n1 = new_views[k1];
            let n2 = new_views[k2];
            if k2 < i {
                assert(leq(old_views[k1], old_views[k2]));
            } else if k1 < i && k2 == i {
                assert(lex_leq(old_views[k1], x@));
            } else if k1 < i && k2 > i {
                assert(leq(old_views[k1], old_views[k2 - 1]));
                if k1 == k2 - 1 {
                    assert(lex_leq(old_views[k1], x@));
                }
            } else if k1 == i {
                // x stands before old_views[i], which the loop found not below x
                assert(!lex_leq(old_views[i as int], x@));
                assert(leq(x@, old_views[i as int]) || leq(old_views[i as int], x@));
                assert(leq(old_views[i as int], old_views[k2 - 1]) || i == k2 - 1);
                assert(leq(x@, old_views[k2 - 1]));
            } else {
                assert(leq(old_views[k1 - 1], old_views[k2 - 1]));
            }
        }
    }
}

/// What a filtered sequence holds was in the sequence and satisfies the predicate.
proof fn lemma_filter_elems<A>(s: Seq<A>, pred: spec_fn(A) -> bool, x: A)
    requires
        s.filter(pred).contains(x),
    ensures
        s.contains(x),
        pred(x),
    decreases s.len(),
{
    reveal_with_fuel(Seq::filter, 2);
    if s.len() != 0 {
        let sub = s.drop_last().filter(pred);
        if pred(s.last()) && x == s.last() {
            assert(s[s.len() - 1] == x);
        } else {
            if pred(s.last()) {
                let j = choose|j: int|
                    0 <= j < s.filter(pred).len() && s.filter(pred)[j] == x;
                assert(sub.push(s.last())[j] == x);
                assert(sub[j] == x);
            }
            lemma_filter_elems(s.drop_last(), pred, x);
            let j = choose|j: int| 0 <= j < s.drop_last().len() && s.drop_last()[j] == x;
            assert(s[j] == x);
        }
    }
}

/// Selects the names that match the version directory pattern and returns
/// them sorted ascending in lexicographic order. Every matching name of the
/// listing appears in the result, a non-matching or duplicated name exactly
/// as often as it matches, and nothing else.
pub fn scan_version_names(names: &Vec<String>) -> (r: Vec<String>)
    ensures
        sorted_by(views_of(r@), lex_leq_fn()),
        views_of(r@).to_multiset() == views_of(names@).filter(
            |n: Seq<char>| is_version_name_spec(n),
        ).to_multiset(),
        forall|n: Seq<char>|
            #[trigger] views_of(r@).contains(n) <==> views_of(names@).contains(n)
                && is_version_name_spec(n),
{
    let ghost pred = |n: Seq<char>| is_version_name_spec(n);
    let mut out: Vec<String> = Vec::new();
    let mut i: usize = 0;
    proof {
        assert(views_of(out@) =~= Seq::<Seq<char>>::empty());
        assert(views_of(names@.take(0)) =~= Seq::<Seq<char>>::empty());
        reveal_with_fuel(Seq::filter, 2);
    }
    while i < names.len()
        invariant
            0 <= i <= names@.len(),
            sorted_by(views_of(out@), lex_leq_fn()),
            views_of(out@).to_multiset() == views_of(names@.take(i as int)).filter(
                pred,
            ).to_multiset(),
            pred == (|n: Seq<char>| is_version_name_spec(n)),
        decreases names@.len() - i,
    {
        let ghost prev = views_of(names@.take(i as int));
        let name = &names[i];
        if is_version_name(name.as_str()) {
            insert_sorted(&mut out, name.clone());
        }
        i = i + 1;
        proof {
            broadcast use vstd::seq_lib::group_to_multiset_ensures;

            let cur = views_of(names@.take(i as int));
            assert(cur.drop_last() =~= prev);
            assert(cur.last() == names@[i - 1]@);
            reveal_with_fuel(Seq::filter, 2);
            assert(cur.filter(pred) == if pred(names@[i - 1]@) {
                prev.filter(pred).push(names@[i - 1]@)
            } else {
                prev.filter(pred)
            });
            if pred(names@[i - 1]@) {
                assert(prev.filter(pred).push(names@[i - 1]@).to_multiset() == prev.filter(
                    pred,
                ).to_multiset().insert(names@[i - 1]@));
            }
        }
    }
    proof {
        broadcast use vstd::seq_lib::group_to_multiset_ensures;
        broadcast use vstd::seq_lib::group_filter_ensures;

        assert(names@.take(names@.len() as int) =~= names@);
        let rv = views_of(out@);
        let nv = views_of(names@);
        assert forall|n: Seq<char>| #[trigger] rv.contains(n) <==> nv.contains(n)
            && is_version_name_spec(n) by {
            assert(rv.contains(n) <==> rv.to_multiset().count(n) > 0);
            assert(nv.filter(pred).contains(n) <==> nv.filter(pred).to_multiset().count(n) > 0);
            if rv.contains(n) {
                lemma_filter_elems(nv, pred, n);
            }
            if nv.contains(n) && is_version_name_spec(n) {
                let k = choose|k: int| 0 <= k < nv.len() && nv[k] == n;
                assert(nv.filter(pred).contains(nv[k]));
            }
        }
    }
    out
}

/// A duplicate-free listing is pinned by sortedness and its names: two
/// sorted, duplicate-free lists holding the same names are the same list,
/// so listing an unchanged directory tree twice yields an identical result.
pub proof fn lemma_listing_unique(r1: Seq<Seq<char>>, r2: Seq<Seq<char>>)
    requires
        sorted_by(r1, lex_leq_fn()),
        sorted_by(r2, lex_leq_fn()),
        r1.no_duplicates(),
        r2.no_duplicates(),
        forall|n: Seq<char>| #[trigger] r1.contains(n) <==> #[trigger] r2.contains(n),
    ensures
        r1 == r2,
    decreases r1.len(),
{
    lemma_lex_leq_total_ordering();
    let leq = lex_leq_fn();
    if r1.len() == 0 {
        if r2.len() > 0 {
            assert(r2.contains(r2[0]));
            assert(r1.contains(r2[0]));
        }
        assert(r1 =~= r2);
    } else {
        assert(r1.contains(r1[0]));
        assert(r2.contains(r1[0]));
        assert(r2.contains(r2[0]));
        assert(r1.contains(r2[0]));
        let i = choose|i: int| 0 <= i < r2.len() && r2[i] == r1[0];
        let j = choose|j: int| 0 <= j < r1.len() && r1[j] == r2[0];
        assert(leq(r2[0], r1[0])) by {
            if i > 0 {
                assert(leq(r2[0], r2[i]));
            }
        }
        assert(leq(r1[0], r2[0])) by {
            if j > 0 {
                assert(leq(r1[0], r1[j]));
            }
        }
        assert(r1[0] == r2[0]);
        let t1 = r1.drop_first();
        let t2 = r2.drop_first();
        assert forall|n: Seq<char>| #[trigger] t1.contains(n) <==> #[trigger] t2.contains(n) by {
            lemma_tail_membership(r1, n);
            lemma_tail_membership(r2, n);
        }
        lemma_listing_unique(t1, t2);
        assert forall|k: int| 0 <= k < r1.len() implies r1[k] == r2[k] by {
            if k > 0 {
                assert(t1[k - 1] == t2[k - 1]);
            }
        }
        assert(r1 =~= r2);
    }
}

/// The tail of a duplicate-free sequence holds exactly the other elements.
proof fn lemma_tail_membership(r: Seq<Seq<char>>, n: Seq<char>)
    requires
        r.len() > 0,
        r.no_duplicates(),
    ensures
        r.drop_first().contains(n) <==> (r.contains(n) && n != r[0]),
{
    let t = r.drop_first();
    if t.contains(n) {
        let w = choose|w: int| 0 <= w < t.len() && t[w] == n;
        assert(r[w + 1] == n);
        assert(r[w + 1] != r[0]);
    }
    if r.contains(n) && n != r[0] {
        let w = choose|w: int| 0 <= w < r.len() && r[w] == n;
        assert(w != 0);
        assert(t[w - 1] == n);
    }
}

/// Scanning is deterministic and order-stable: any two results that are
/// sorted and hold the same names, as two scans of an unchanged listing do,
/// are the same list.
pub proof fn lemma_scan_deterministic(r1: Seq<Seq<char>>, r2: Seq<Seq<char>>)
    requires
        sorted_by(r1, lex_leq_fn()),
        sorted_by(r2, lex_leq_fn()),
        r1.to_multiset() == r2.to_multiset(),
    ensures
        r1 == r2,
{
    lemma_lex_leq_total_ordering();
    lemma_sorted_unique(r1, r2, lex_leq_fn());
}

} // verus!
