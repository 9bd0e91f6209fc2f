//! Directory listings (name, flag) in ascending name order.
use vstd::prelude::*;

use crate::tree::{lemma_str_lt_order, str_less, str_lt};

verus! {

broadcast use vstd::seq_lib::group_to_multiset_ensures;

/// The views of (name, flag) pairs.
pub open spec fn pair_views(v: Seq<(String, bool)>) -> Seq<(Seq<char>, bool)> {
    v.map_values(|e: (String, bool)| (e.0@, e.1))
}

/// `x` inserted into `s` after the trailing entries whose names do not sort
/// after `x`'s: one step of a stable insertion sort.
pub open spec fn insert_by_name(s: Seq<(Seq<char>, bool)>, x: (Seq<char>, bool)) -> Seq<
    (Seq<char>, bool),
>
    decreases s.len(),
{
    if s.len() == 0 {
        seq![x]
    } else if str_lt(x.0, s.last().0) {
        insert_by_name(s.drop_last(), x).push(s.last())
    } else {
        s.push(x)
    }
}

/// `s` sorted by name, stably (entries with equal names keep their order).
pub open spec fn sort_by_name(s: Seq<(Seq<char>, bool)>) -> Seq<(Seq<char>, bool)>
    decreases s.len(),
{
    if s.len() == 0 {
        Seq::empty()
    } else {
        insert_by_name(sort_by_name(s.drop_last()), s.last())
    }
}

/// The names of `s` ascend.
pub open spec fn names_ascend(s: Seq<(Seq<char>, bool)>) -> bool {
    forall|i: int, j: int| 0 <= i < j < s.len() ==> !str_lt(#[trigger] s[j].0, #[trigger] s[i].0)
}

proof fn lemma_insert_by_name(s: Seq<(Seq<char>, bool)>, x: (Seq<char>, bool))
    ensures
        insert_by_name(s, x).to_multiset() == s.to_multiset().insert(x),
        names_ascend(s) ==> names_ascend(insert_by_name(s, x)),
    decreases s.len(),
{
    broadcast use vstd::multiset::group_multiset_axioms;

    if s.len() > 0 {
        let rest = s.drop_last();
        let last = s.last();
        lemma_insert_by_name(rest, x);
        assert(rest.push(last) == s);
        if str_lt(x.0, last.0) {
            let r = insert_by_name(rest, x);
            assert(r.push(last).to_multiset() =~= s.to_multiset().insert(x));
            if names_ascend(s) {
                assert(names_ascend(rest));
                assert forall|k: int| 0 <= k < r.len() implies !str_lt(last.0, #[trigger] r[k].0) by {
                    assert(r.to_multiset().count(r[k]) > 0);
                    if r[k] == x {
                        lemma_str_lt_order(x.0, last.0, x.0);
                    } else {
                        assert(rest.to_multiset().count(r[k]) > 0);
                        assert(rest.contains(r[k]));
                        let j = choose|j: int| 0 <= j < rest.len() && rest[j] == r[k];
                        assert(s[j] == rest[j]);
                        assert(s[s.len() - 1] == last);
                    }
                }
                let t = r.push(last);
                assert forall|i: int, j: int| 0 <= i < j < t.len() implies !str_lt(
                    #[trigger] t[j].0,
                    #[trigger] t[i].0,
                ) by {
                    if j == t.len() - 1 {
                        assert(t[i] == r[i]);
                    } else {
                        assert(t[i] == r[i] && t[j] == r[j]);
                    }
                }
            }
        } else {
            if names_ascend(s) {
                let t = s.push(x);
                assert forall|i: int, j: int| 0 <= i < j < t.len() implies !str_lt(
                    #[trigger] t[j].0,
                    #[trigger] t[i].0,
                ) by {
                    if j == t.len() - 1 {
                        assert(t[i] == s[i]);
                        assert(s[s.len() - 1] == last);
                        lemma_str_lt_order(last.0, x.0, s[i].0);
                        lemma_str_lt_order(x.0, s[i].0, last.0);
                        if i < s.len() - 1 {
                            assert(!str_lt(last.0, s[i].0));
                        }
                    } else {
                        assert(t[i] == s[i] && t[j] == s[j]);
                    }
                }
            }
        }
    }
}

/// Sorting a listing by name orders it by ascending name and keeps every
/// entry, each as often as it occurs.
pub proof fn lemma_sort_by_name(s: Seq<(Seq<char>, bool)>)
    ensures
        names_ascend(sort_by_name(s)),
        sort_by_name(s).to_multiset() == s.to_multiset(),
    decreases s.len(),
{
    broadcast use vstd::multiset::group_multiset_axioms;

    if s.len() > 0 {
        lemma_sort_by_name(s.drop_last());
        lemma_insert_by_name(sort_by_name(s.drop_last()), s.last());
        assert(s.drop_last().push(s.last()) == s);
    } else {
        assert(s.to_multiset() =~= vstd::multiset::Multiset::empty());
        assert(sort_by_name(s).to_multiset() =~= vstd::multiset::Multiset::empty());
    }
}

/// The entries of `listing` in ascending name order (stable for equal names).
pub fn sort_listing(listing: &Vec<(String, bool)>) -> (sorted: Vec<(String, bool)>)
    ensures
        pair_views(sorted@) == sort_by_name(pair_views(listing@)),
{
    let ghost lv = pair_views(listing@);
    let mut sorted: Vec<(String, bool)> = Vec::new();
    let mut i: usize = 0;
    assert(lv.take(0) =~= Seq::<(Seq<char>, bool)>::empty());
    assert(pair_views(sorted@) =~= Seq::<(Seq<char>, bool)>::empty());
    while i < listing.len()
        invariant
            i <= listing.len(),
            lv == pair_views(listing@),
            pair_views(sorted@) == sort_by_name(lv.take(i as int)),
        decreases listing.len() - i,
    {
        assert(lv.take(i + 1).drop_last() == lv.take(i as int));
        let name = listing[i].0.clone();
        let x = (name, listing[i].1);
        let ghost xv = (x.0@, x.1);
        assert(lv.take(i + 1).last() == xv);
        let ghost sv = pair_views(sorted@);
        let mut k: usize = sorted.len();
        assert(sv.take(k as int) == sv);
        assert(sv.skip(k as int) =~= Seq::<(Seq<char>, bool)>::empty());
        assert(insert_by_name(sv, xv) + sv.skip(k as int) =~= insert_by_name(sv, xv));
        while k > 0 && str_less(x.0.as_str(), sorted[k - 1].0.as_str())
            invariant
                k <= sorted.len(),
                sv == pair_views(sorted@),
                xv == (x.0@, x.1),
                insert_by_name(sv, xv) == insert_by_name(sv.take(k as int), xv) + sv.skip(
                    k as int,
                ),
            decreases k,
        {
            let ghost t = sv.take(k as int);
            assert(t.drop_last() == sv.take(k - 1));
            assert(t.last() == sv[k - 1]);
            assert(sv.skip(k - 1) == seq![sv[k - 1]] + sv.skip(k as int));
            assert(insert_by_name(t, xv) == insert_by_name(sv.take(k - 1), xv).push(sv[k - 1]));
            assert(insert_by_name(t, xv) + sv.skip(k as int) =~= insert_by_name(
                sv.take(k - 1),
                xv,
            ) + sv.skip(k - 1));
            k = k - 1;
        }
        proof {
            let t = sv.take(k as int);
            if k == 0 {
                assert(t =~= Seq::<(Seq<char>, bool)>::empty());
            } else {
                assert(t.last() == sv[k - 1]);
            }
            assert(insert_by_name(t, xv) =~= t.push(xv));
        }
        sorted.insert(k, x);
        assert(pair_views(sorted@) =~= sv.take(k as int).push(xv) + sv.skip(k as int));
        i = i + 1;
    }
    assert(lv.take(listing.len() as int) == lv);
    sorted
}

} // verus!
