//! Path trees: the nested directories and files of a structural map.
//!
//! A tree is kept as the list of its nodes' paths (each a sequence of path
//! segments) in strictly increasing order. Because a path sorts right after
//! its parent and before its parent's later siblings, that order is the
//! depth-first order in which a tree with sorted children is walked.
use vstd::prelude::*;

use crate::json::{
    field_models, item_models, json_str, lemma_item_models_len, push_field, JsonField, JsonModel,
    JsonValue,
};

use crate::text::{
    char_views, chars_of, lemma_split_on_nonempty, push_char, push_str, split_chars, split_on,
    string_of,
};

verus! {

/// `a` sorts before `b`: code points compared lexicographically, a proper
/// prefix first (the order of `String`, whose UTF-8 bytes sort the same way).
pub open spec fn str_lt(a: Seq<char>, b: Seq<char>) -> bool
    decreases a.len(),
{
    if a.len() == 0 {
        b.len() > 0
    } else if b.len() == 0 {
        false
    } else if a[0] != b[0] {
        a[0] < b[0]
    } else {
        str_lt(a.drop_first(), b.drop_first())
    }
}

/// `a` sorts before `b`: segments compared lexicographically by [`str_lt`],
/// a proper prefix first.
pub open spec fn path_lt(a: Seq<Seq<char>>, b: Seq<Seq<char>>) -> bool
    decreases a.len(),
{
    if a.len() == 0 {
        b.len() > 0
    } else if b.len() == 0 {
        false
    } else if a[0] != b[0] {
        str_lt(a[0], b[0])
    } else {
        path_lt(a.drop_first(), b.drop_first())
    }
}

proof fn lemma_str_lt_irrefl(a: Seq<char>)
    ensures
        !str_lt(a, a),
    decreases a.len(),
{
    if a.len() > 0 {
        lemma_str_lt_irrefl(a.drop_first());
    }
}

proof fn lemma_str_lt_total(a: Seq<char>, b: Seq<char>)
    ensures
        str_lt(a, b) ==> !str_lt(b, a),
        a != b ==> str_lt(a, b) || str_lt(b, a),
    decreases a.len(),
{
    if a.len() > 0 && b.len() > 0 && a[0] == b[0] {
        lemma_str_lt_total(a.drop_first(), b.drop_first());
        if a.drop_first() == b.drop_first() {
            assert(a == seq![a[0]] + a.drop_first());
            assert(b == seq![b[0]] + b.drop_first());
        }
    }
    if a.len() == 0 && b.len() == 0 {
        assert(a == b);
    }
}

proof fn lemma_str_lt_trans(a: Seq<char>, b: Seq<char>, c: Seq<char>)
    ensures
        str_lt(a, b) && str_lt(b, c) ==> str_lt(a, c),
    decreases a.len(),
{
    if a.len() > 0 && b.len() > 0 && c.len() > 0 && a[0] == b[0] && b[0] == c[0] {
        lemma_str_lt_trans(a.drop_first(), b.drop_first(), c.drop_first());
    }
}

/// [`str_lt`] is a strict total order.
pub proof fn lemma_str_lt_order(a: Seq<char>, b: Seq<char>, c: Seq<char>)
    ensures
        !str_lt(a, a),
        str_lt(a, b) ==> !str_lt(b, a),
        a != b ==> str_lt(a, b) || str_lt(b, a),
        str_lt(a, b) && str_lt(b, c) ==> str_lt(a, c),
{
    lemma_str_lt_irrefl(a);
    lemma_str_lt_total(a, b);
    lemma_str_lt_trans(a, b, c);
}

proof fn lemma_path_lt_irrefl(a: Seq<Seq<char>>)
    ensures
        !path_lt(a, a),
    decreases a.len(),
{
    if a.len() > 0 {
        lemma_path_lt_irrefl(a.drop_first());
    }
}

proof fn lemma_path_lt_total(a: Seq<Seq<char>>, b: Seq<Seq<char>>)
    ensures
        path_lt(a, b) ==> !path_lt(b, a),
        a != b ==> path_lt(a, b) || path_lt(b, a),
    decreases a.len(),
{
    if a.len() > 0 && b.len() > 0 {
        lemma_str_lt_total(a[0], b[0]);
        if a[0] == b[0] {
            lemma_path_lt_total(a.drop_first(), b.drop_first());
            if a.drop_first() == b.drop_first() {
                assert(a == seq![a[0]] + a.drop_first());
                assert(b == seq![b[0]] + b.drop_first());
            }
        }
    }
    if a.len() == 0 && b.len() == 0 {
        assert(a == b);
    }
}

proof fn lemma_path_lt_trans(a: Seq<Seq<char>>, b: Seq<Seq<char>>, c: Seq<Seq<char>>)
    ensures
        path_lt(a, b) && path_lt(b, c) ==> path_lt(a, c),
    decreases a.len(),
{
    if a.len() > 0 && b.len() > 0 && c.len() > 0 {
        lemma_str_lt_trans(a[0], b[0], c[0]);
        lemma_str_lt_total(a[0], b[0]);
        lemma_str_lt_total(b[0], c[0]);
        lemma_str_lt_total(a[0], c[0]);
        if a[0] == b[0] && b[0] == c[0] {
            lemma_path_lt_trans(a.drop_first(), b.drop_first(), c.drop_first());
        }
    }
}

/// [`path_lt`] is a strict total order.
pub proof fn lemma_path_lt_order(a: Seq<Seq<char>>, b: Seq<Seq<char>>, c: Seq<Seq<char>>)
    ensures
        !path_lt(a, a),
        path_lt(a, b) ==> !path_lt(b, a),
        a != b ==> path_lt(a, b) || path_lt(b, a),
        path_lt(a, b) && path_lt(b, c) ==> path_lt(a, c),
{
    lemma_path_lt_irrefl(a);
    lemma_path_lt_total(a, b);
    lemma_path_lt_trans(a, b, c);
}

/// In a sorted tree no two nodes share a path.
pub proof fn lemma_unique_paths(v: Seq<EntryView>)
    requires
        paths_sorted(v),
    ensures
        forall|i: int, j: int|
            0 <= i < v.len() && 0 <= j < v.len() && (#[trigger] v[i]).0 == (#[trigger] v[j]).0
                ==> i == j,
{
    assert forall|i: int, j: int|
        0 <= i < v.len() && 0 <= j < v.len() && (#[trigger] v[i]).0 == (#[trigger] v[j]).0 implies i
        == j by {
        if i < j {
            lemma_path_lt_irrefl(v[i].0);
        } else if j < i {
            lemma_path_lt_irrefl(v[j].0);
        }
    }
}

/// A proper prefix sorts first.
pub proof fn lemma_prefix_path_lt(a: Seq<Seq<char>>, k: int)
    requires
        0 <= k < a.len(),
    ensures
        path_lt(a.take(k), a),
    decreases k,
{
    if k > 0 {
        lemma_prefix_path_lt(a.drop_first(), k - 1);
        assert(a.take(k).drop_first() == a.drop_first().take(k - 1));
    }
}

/// The view of one node of a tree: its path, its note, whether it is a file.
pub type EntryView = (Seq<Seq<char>>, Option<Seq<char>>, bool);

/// Some node of `v` has the path `p`.
pub open spec fn has_path(v: Seq<EntryView>, p: Seq<Seq<char>>) -> bool {
    exists|i: int| 0 <= i < v.len() && (#[trigger] v[i]).0 == p
}

/// The paths of `v` strictly increase.
pub open spec fn paths_sorted(v: Seq<EntryView>) -> bool {
    forall|i: int, j: int| 0 <= i < j < v.len() ==> path_lt(#[trigger] v[i].0, #[trigger] v[j].0)
}

/// The well-formed trees: paths strictly increasing and non-empty, and the
/// parent of every node present.
pub open spec fn tree_wf(v: Seq<EntryView>) -> bool {
    &&& paths_sorted(v)
    &&& forall|i: int| 0 <= i < v.len() ==> (#[trigger] v[i]).0.len() >= 1
    &&& forall|i: int, k: int|
        0 <= i < v.len() && 1 <= k < v[i].0.len() ==> has_path(v, #[trigger] v[i].0.take(k))
}

/// `new` is `old` with the path `segs` inserted: every missing ancestor
/// added as a plain directory, and the node at `segs` given `note` and
/// `is_file`; every other node keeps its note and kind.
pub open spec fn inserted(
    old: Seq<EntryView>,
    new: Seq<EntryView>,
    segs: Seq<Seq<char>>,
    note: Option<Seq<char>>,
    is_file: bool,
) -> bool {
    &&& forall|p: Seq<Seq<char>>|
        #![trigger has_path(new, p)]
        has_path(new, p) <==> (has_path(old, p) || (1 <= p.len() <= segs.len() && p
            == segs.take(p.len() as int)))
    &&& forall|i: int| 0 <= i < new.len() && (#[trigger] new[i]).0 == segs ==> new[i].1 == note
        && new[i].2 == is_file
    &&& forall|i: int, j: int|
        0 <= i < new.len() && 0 <= j < old.len() && (#[trigger] new[i]).0 == (#[trigger] old[j]).0
            && new[i].0 != segs ==> new[i] == old[j]
    &&& forall|i: int|
        0 <= i < new.len() && !has_path(old, (#[trigger] new[i]).0) && new[i].0 != segs
            ==> new[i].1 is None && !new[i].2
}

proof fn lemma_sorted_determined(v1: Seq<EntryView>, v2: Seq<EntryView>)
    requires
        paths_sorted(v1),
        paths_sorted(v2),
        forall|p: Seq<Seq<char>>|
            #![trigger has_path(v1, p)]
            #![trigger has_path(v2, p)]
            has_path(v1, p) <==> has_path(v2, p),
        forall|i: int, j: int|
            0 <= i < v1.len() && 0 <= j < v2.len() && (#[trigger] v1[i]).0 == (#[trigger] v2[j]).0
                ==> v1[i] == v2[j],
    ensures
        v1 == v2,
    decreases v1.len(),
{
    if v1.len() == 0 {
        if v2.len() > 0 {
            assert(has_path(v2, v2[0].0));
        }
        assert(v1 =~= v2);
    } else {
        assert(has_path(v1, v1[0].0));
        let j = choose|j: int| 0 <= j < v2.len() && (#[trigger] v2[j]).0 == v1[0].0;
        assert(has_path(v2, v2[0].0));
        let i = choose|i: int| 0 <= i < v1.len() && (#[trigger] v1[i]).0 == v2[0].0;
        if j > 0 {
            assert(path_lt(v2[0].0, v2[j].0));
            if i > 0 {
                assert(path_lt(v1[0].0, v1[i].0));
                lemma_path_lt_order(v2[0].0, v1[0].0, v2[0].0);
            }
            lemma_path_lt_order(v2[0].0, v2[0].0, v2[0].0);
        }
        assert(j == 0);
        assert(v1[0] == v2[0]);
        lemma_unique_paths(v1);
        lemma_unique_paths(v2);
        let w1 = v1.drop_first();
        let w2 = v2.drop_first();
        assert forall|p: Seq<Seq<char>>|
            #![trigger has_path(w1, p)]
            #![trigger has_path(w2, p)]
            has_path(w1, p) <==> has_path(w2, p) by {
            if has_path(w1, p) {
                let a = choose|a: int| 0 <= a < w1.len() && (#[trigger] w1[a]).0 == p;
                assert(v1[a + 1].0 == p);
                assert(has_path(v1, p));
                let b = choose|b: int| 0 <= b < v2.len() && (#[trigger] v2[b]).0 == p;
                assert(b != 0);
                assert(w2[b - 1].0 == p);
            }
            if has_path(w2, p) {
                let a = choose|a: int| 0 <= a < w2.len() && (#[trigger] w2[a]).0 == p;
                assert(v2[a + 1].0 == p);
                assert(has_path(v2, p));
                let b = choose|b: int| 0 <= b < v1.len() && (#[trigger] v1[b]).0 == p;
                assert(b != 0);
                assert(w1[b - 1].0 == p);
            }
        }
        assert forall|a: int, b: int|
            0 <= a < w1.len() && 0 <= b < w2.len() && (#[trigger] w1[a]).0 == (#[trigger] w2[b]).0
                implies w1[a] == w2[b] by {
            assert(w1[a] == v1[a + 1]);
            assert(w2[b] == v2[b + 1]);
        }
        lemma_sorted_determined(w1, w2);
        assert(v1 == seq![v1[0]] + w1);
        assert(v2 == seq![v2[0]] + w2);
    }
}

/// A tree is determined by its nodes: two well-formed trees with the same
/// paths, each path with the same note and kind in both, are equal (as the
/// ordered map behind a tree is).
pub proof fn lemma_tree_determined(v1: Seq<EntryView>, v2: Seq<EntryView>)
    requires
        tree_wf(v1),
        tree_wf(v2),
        forall|p: Seq<Seq<char>>|
            #![trigger has_path(v1, p)]
            #![trigger has_path(v2, p)]
            has_path(v1, p) <==> has_path(v2, p),
        forall|i: int, j: int|
            0 <= i < v1.len() && 0 <= j < v2.len() && (#[trigger] v1[i]).0 == (#[trigger] v2[j]).0
                ==> v1[i] == v2[j],
    ensures
        v1 == v2,
{
    lemma_sorted_determined(v1, v2);
}

/// Inserting the same path twice, with the same note and kind, leaves the
/// tree as inserting it once.
pub proof fn lemma_insert_idempotent(
    a: Seq<EntryView>,
    b: Seq<EntryView>,
    c: Seq<EntryView>,
    segs: Seq<Seq<char>>,
    note: Option<Seq<char>>,
    is_file: bool,
)
    requires
        tree_wf(a),
        tree_wf(b),
        tree_wf(c),
        inserted(a, b, segs, note, is_file),
        inserted(b, c, segs, note, is_file),
    ensures
        c == b,
{
    lemma_unique_paths(b);
    assert forall|p: Seq<Seq<char>>|
        #![trigger has_path(c, p)]
        #![trigger has_path(b, p)]
        has_path(c, p) <==> has_path(b, p) by {
        if has_path(c, p) && !has_path(b, p) {
            assert(has_path(b, p));
        }
    }
    assert forall|i: int, j: int|
        0 <= i < c.len() && 0 <= j < b.len() && (#[trigger] c[i]).0 == (#[trigger] b[j]).0 implies c[i]
        == b[j] by {
        if c[i].0 == segs {
            assert(b[j].1 == note && b[j].2 == is_file);
        }
    }
    lemma_tree_determined(c, b);
}

struct TreeEntry {
    segments: Vec<String>,
    note: Option<String>,
    is_file: bool,
}

impl TreeEntry {
    closed spec fn view_entry(&self) -> EntryView {
        (
            self.segments.deep_view(),
            match self.note {
                Some(n) => Some(n@),
                None => None,
            },
            self.is_file,
        )
    }
}

/// A tree of paths, each node with an optional note and a file/directory kind.
/// Its nodes are held in a vector sorted by path (`tree_wf`) rather than in a
/// `BTreeMap` keyed by `String`: vstd's specification of such a map, with a
/// `String` key, does not let a proof follow its contents or its key order,
/// and every rendering of the tree follows that order; here it is proved of
/// the vector, through `path_lt`.
pub struct PathTree {
    entries: Vec<TreeEntry>,
}

impl View for PathTree {
    type V = Seq<EntryView>;

    closed spec fn view(&self) -> Seq<EntryView> {
        self.entries@.map_values(|e: TreeEntry| e.view_entry())
    }
}

/// The view of an optional string.
pub open spec fn opt_view(o: Option<String>) -> Option<Seq<char>> {
    match o {
        Some(s) => Some(s@),
        None => None,
    }
}

/// Whether `a` sorts before `b`.
pub(crate) fn str_less(a: &str, b: &str) -> (r: bool)
    ensures
        r == str_lt(a@, b@),
{
    let x = chars_of(a);
    let y = chars_of(b);
    let mut i: usize = 0;
    assert(x@.skip(0) == x@ && y@.skip(0) == y@);
    while i < x.len() && i < y.len() && x[i] == y[i]
        invariant
            i <= x.len(),
            i <= y.len(),
            str_lt(x@.skip(i as int), y@.skip(i as int)) == str_lt(a@, b@),
            x@ == a@,
            y@ == b@,
        decreases x.len() - i,
    {
        assert(x@.skip(i as int).drop_first() == x@.skip(i + 1));
        assert(y@.skip(i as int).drop_first() == y@.skip(i + 1));
        i = i + 1;
    }
    if i == x.len() {
        i < y.len()
    } else if i == y.len() {
        false
    } else {
        x[i] < y[i]
    }
}

/// Whether the path `a` sorts before the path `b`.
fn path_less(a: &Vec<String>, b: &Vec<String>) -> (r: bool)
    ensures
        r == path_lt(a.deep_view(), b.deep_view()),
{
    let ghost av = a.deep_view();
    let ghost bv = b.deep_view();
    let mut i: usize = 0;
    assert(av.skip(0) == av && bv.skip(0) == bv);
    while i < a.len() && i < b.len() && a[i] == b[i]
        invariant
            i <= a.len(),
            i <= b.len(),
            av == a.deep_view(),
            bv == b.deep_view(),
            path_lt(av.skip(i as int), bv.skip(i as int)) == path_lt(av, bv),
        decreases a.len() - i,
    {
        assert(av.skip(i as int).drop_first() == av.skip(i + 1));
        assert(bv.skip(i as int).drop_first() == bv.skip(i + 1));
        i = i + 1;
    }
    if i == a.len() {
        i < b.len()
    } else if i == b.len() {
        false
    } else {
        str_less(a[i].as_str(), b[i].as_str())
    }
}

/// Whether the two paths are equal.
fn path_eq(a: &Vec<String>, b: &Vec<String>) -> (r: bool)
    ensures
        r == (a.deep_view() == b.deep_view()),
{
    if a.len() != b.len() {
        assert(a.deep_view().len() != b.deep_view().len());
        return false;
    }
    let mut i: usize = 0;
    while i < a.len()
        invariant
            a.len() == b.len(),
            i <= a.len(),
            forall|j: int| 0 <= j < i ==> a.deep_view()[j] == b.deep_view()[j],
        decreases a.len() - i,
    {
        if a[i] != b[i] {
            assert(a.deep_view()[i as int] != b.deep_view()[i as int]);
            return false;
        }
        i = i + 1;
    }
    assert(a.deep_view() =~= b.deep_view());
    true
}

/// Copies of the first `k` strings of `v`.
fn take_strings(v: &Vec<String>, k: usize) -> (r: Vec<String>)
    requires
        k <= v.len(),
    ensures
        r.deep_view() == v.deep_view().take(k as int),
{
    let mut r: Vec<String> = Vec::new();
    let mut i: usize = 0;
    while i < k
        invariant
            i <= k <= v.len(),
            r.deep_view() == v.deep_view().take(i as int),
        decreases k - i,
    {
        let s = v[i].clone();
        let ghost before = r.deep_view();
        let ghost sv = s@;
        r.push(s);
        assert(r.deep_view() =~= before.push(sv));
        i = i + 1;
        assert(v.deep_view().take(i as int) =~= v.deep_view().take((i - 1) as int).push(
            v.deep_view()[i - 1],
        ));
    }
    r
}

impl PathTree {
    /// The empty tree.
    pub fn new() -> (t: Self)
        ensures
            t@ == Seq::<EntryView>::empty(),
            tree_wf(t@),
    {
        let t = PathTree { entries: Vec::new() };
        assert(t@ =~= Seq::<EntryView>::empty());
        t
    }

    /// The position where `p` is, or where it belongs.
    fn find_slot(&self, p: &Vec<String>) -> (res: (usize, bool))
        requires
            paths_sorted(self@),
        ensures
            res.0 <= self@.len(),
            forall|j: int| 0 <= j < res.0 ==> path_lt(#[trigger] self@[j].0, p.deep_view()),
            res.1 ==> res.0 < self@.len() && self@[res.0 as int].0 == p.deep_view(),
            !res.1 && res.0 < self@.len() ==> path_lt(p.deep_view(), self@[res.0 as int].0),
    {
        let mut i: usize = 0;
        while i < self.entries.len() && path_less(&self.entries[i].segments, p)
            invariant
                i <= self.entries.len(),
                self@.len() == self.entries.len(),
                forall|j: int| 0 <= j < i ==> path_lt(#[trigger] self@[j].0, p.deep_view()),
            decreases self.entries.len() - i,
        {
            assert(self@[i as int].0 == self.entries@[i as int].segments.deep_view());
            i = i + 1;
        }
        if i < self.entries.len() {
            assert(self@[i as int].0 == self.entries@[i as int].segments.deep_view());
            let found = path_eq(&self.entries[i].segments, p);
            proof {
                lemma_path_lt_order(self@[i as int].0, p.deep_view(), p.deep_view());
            }
            (i, found)
        } else {
            (i, false)
        }
    }

    /// Inserts the path `p` if it is missing (with `note` and `is_file`); when
    /// it is present and `overwrite` holds, gives it `note` and `is_file`.
    fn upsert(&mut self, p: Vec<String>, note: Option<String>, is_file: bool, overwrite: bool)
        requires
            paths_sorted(old(self)@),
        ensures
            paths_sorted(final(self)@),
            forall|q: Seq<Seq<char>>|
                #![trigger has_path(final(self)@, q)]
                has_path(final(self)@, q) <==> (has_path(old(self)@, q) || q == p.deep_view()),
            forall|i: int|
                0 <= i < final(self)@.len() && (#[trigger] final(self)@[i]).0 == p.deep_view() && (
                overwrite || !has_path(old(self)@, p.deep_view())) ==> final(self)@[i].1
                    == opt_view(note) && final(self)@[i].2 == is_file,
            forall|i: int, j: int|
                0 <= i < final(self)@.len() && 0 <= j < old(self)@.len() && (#[trigger] final(self)@[i]).0
                    == (#[trigger] old(self)@[j]).0 && (final(self)@[i].0 != p.deep_view()
                    || !overwrite) ==> final(self)@[i] == old(self)@[j],
    {
        let ghost old_v = self@;
        let ghost pv = p.deep_view();
        let (idx, found) = self.find_slot(&p);
        let entry = TreeEntry { segments: p, note, is_file };
        let ghost ev = entry.view_entry();
        assert(ev == (pv, opt_view(note), is_file));
        if found {
            if overwrite {
                let _ = self.entries.remove(idx);
                self.entries.insert(idx, entry);
                assert(self@ =~= old_v.update(idx as int, ev));
                assert forall|i: int, j: int|
                    0 <= i < j < self@.len() implies path_lt(
                    #[trigger] self@[i].0,
                    #[trigger] self@[j].0,
                ) by {
                    assert(old_v[i].0 == self@[i].0);
                    assert(old_v[j].0 == self@[j].0);
                }
                assert forall|q: Seq<Seq<char>>|
                    #![trigger has_path(self@, q)]
                    has_path(self@, q) <==> (has_path(old_v, q) || q == pv) by {
                    if has_path(old_v, q) {
                        let k = choose|k: int| 0 <= k < old_v.len() && (#[trigger] old_v[k]).0 == q;
                        assert(self@[k].0 == q);
                    }
                    if has_path(self@, q) {
                        let k = choose|k: int| 0 <= k < self@.len() && (#[trigger] self@[k]).0 == q;
                        assert(old_v[k].0 == q);
                    }
                }
                assert forall|i: int, j: int|
                    0 <= i < self@.len() && 0 <= j < old_v.len() && (#[trigger] self@[i]).0 == (
                    #[trigger] old_v[j]).0 && (self@[i].0 != pv || !overwrite) implies self@[i]
                    == old_v[j] by {
                    if i != j {
                        lemma_path_lt_order(old_v[i].0, old_v[j].0, old_v[j].0);
                    }
                }
                assert forall|i: int|
                    0 <= i < self@.len() && (#[trigger] self@[i]).0 == pv implies i == idx by {
                    if i != idx {
                        lemma_path_lt_order(old_v[i].0, old_v[idx as int].0, old_v[idx as int].0);
                    }
                }
            } else {
                assert(has_path(old_v, pv));
                assert forall|i: int, j: int|
                    0 <= i < self@.len() && 0 <= j < old_v.len() && (#[trigger] self@[i]).0 == (
                    #[trigger] old_v[j]).0 implies self@[i] == old_v[j] by {
                    if i != j {
                        lemma_path_lt_order(old_v[i].0, old_v[j].0, old_v[j].0);
                    }
                }
            }
        } else {
            self.entries.insert(idx, entry);
            assert(self@ =~= old_v.insert(idx as int, ev));
            assert forall|i: int, j: int|
                0 <= i < j < self@.len() implies path_lt(
                #[trigger] self@[i].0,
                #[trigger] self@[j].0,
            ) by {
                if j < idx {
                } else if j == idx {
                } else if i < idx {
                    lemma_path_lt_order(self@[i].0, pv, self@[j].0);
                    if j - 1 > idx {
                        lemma_path_lt_order(pv, old_v[idx as int].0, old_v[j - 1].0);
                    }
                } else if i == idx {
                    if j - 1 > idx {
                        lemma_path_lt_order(pv, old_v[idx as int].0, old_v[j - 1].0);
                    }
                } else {
                    assert(self@[i].0 == old_v[i - 1].0);
                    assert(self@[j].0 == old_v[j - 1].0);
                }
            }
            assert forall|k: int| 0 <= k < old_v.len() implies old_v[k].0 != pv by {
                if k < idx {
                    lemma_path_lt_order(old_v[k].0, pv, pv);
                } else {
                    if k > idx {
                        lemma_path_lt_order(pv, old_v[idx as int].0, old_v[k].0);
                    }
                    lemma_path_lt_order(pv, old_v[k].0, old_v[k].0);
                }
            }
            assert forall|q: Seq<Seq<char>>|
                #![trigger has_path(self@, q)]
                has_path(self@, q) <==> (has_path(old_v, q) || q == pv) by {
                if has_path(old_v, q) {
                    let k = choose|k: int| 0 <= k < old_v.len() && (#[trigger] old_v[k]).0 == q;
                    if k < idx {
                        assert(self@[k].0 == q);
                    } else {
                        assert(self@[k + 1].0 == q);
                    }
                }
                if q == pv {
                    assert(self@[idx as int].0 == q);
                }
                if has_path(self@, q) {
                    let k = choose|k: int| 0 <= k < self@.len() && (#[trigger] self@[k]).0 == q;
                    if k < idx {
                        assert(old_v[k].0 == q);
                    } else if k > idx {
                        assert(old_v[k - 1].0 == q);
                    }
                }
            }
            assert forall|i: int|
                0 <= i < self@.len() && (#[trigger] self@[i]).0 == pv implies i == idx by {
                if i < idx {
                    assert(self@[i] == old_v[i]);
                } else if i > idx {
                    assert(self@[i] == old_v[i - 1]);
                }
            }
            assert forall|i: int, j: int|
                0 <= i < self@.len() && 0 <= j < old_v.len() && (#[trigger] self@[i]).0 == (
                #[trigger] old_v[j]).0 implies self@[i] == old_v[j] by {
                let i0 = if i < idx {
                    i
                } else {
                    i - 1
                };
                if i != idx && i0 != j {
                    lemma_path_lt_order(old_v[i0].0, old_v[j].0, old_v[j].0);
                }
            }
        }
    }
}

/// The path segments of `path`: its pieces between slashes.
pub open spec fn path_segments(path: Seq<char>) -> Seq<Seq<char>> {
    split_on(path, '/')
}

/// Inserts the slash-separated `path` into `tree`, adding every missing
/// ancestor as a directory; the node at `path` gets `note` and `is_file`.
pub fn insert_tree_path(tree: &mut PathTree, path: &str, note: Option<String>, is_file: bool)
    requires
        tree_wf(old(tree)@),
    ensures
        tree_wf(final(tree)@),
        inserted(old(tree)@, final(tree)@, path_segments(path@), opt_view(note), is_file),
{
    let ghost old_v = tree@;
    let chars = chars_of(path);
    let pieces = split_chars(&chars, '/');
    proof {
        lemma_split_on_nonempty(chars@, '/');
    }
    let ghost segs = path_segments(path@);
    let mut names: Vec<String> = Vec::new();
    let mut i: usize = 0;
    while i < pieces.len()
        invariant
            i <= pieces.len(),
            char_views(pieces@) == segs,
            names.deep_view() == segs.take(i as int),
        decreases pieces.len() - i,
    {
        let s = string_of(&pieces[i]);
        let ghost before = names.deep_view();
        names.push(s);
        assert(names.deep_view() =~= before.push(segs[i as int]));
        i = i + 1;
        assert(segs.take(i as int) =~= segs.take((i - 1) as int).push(segs[i - 1]));
    }
    assert(segs.take(segs.len() as int) == segs);
    let n = names.len();
    proof {
        lemma_unique_paths(old_v);
    }
    let mut done: usize = 0;
    while done < n
        invariant
            names.deep_view() == segs,
            n == segs.len(),
            n >= 1,
            done <= n,
            tree_wf(tree@),
            forall|m: int| 1 <= m <= done ==> has_path(tree@, #[trigger] segs.take(m)),
            forall|p: Seq<Seq<char>>|
                #![trigger has_path(tree@, p)]
                has_path(tree@, p) <==> (has_path(old_v, p) || (1 <= p.len() <= done && p == segs.take(
                    p.len() as int,
                ))),
            done == n ==> forall|j: int|
                0 <= j < tree@.len() && (#[trigger] tree@[j]).0 == segs ==> tree@[j].1 == opt_view(
                    note,
                ) && tree@[j].2 == is_file,
            forall|a: int, b: int|
                0 <= a < tree@.len() && 0 <= b < old_v.len() && (#[trigger] tree@[a]).0 == (
                #[trigger] old_v[b]).0 && tree@[a].0 != segs ==> tree@[a] == old_v[b],
            forall|a: int|
                0 <= a < tree@.len() && !has_path(old_v, (#[trigger] tree@[a]).0) && tree@[a].0
                    != segs ==> tree@[a].1 is None && !tree@[a].2,
        decreases n - done,
    {
        let k = done + 1;
        let prefix = take_strings(&names, k);
        let ghost pv = segs.take(k as int);
        let ghost before = tree@;
        let last = k == n;
        proof {
            if last {
                assert(pv == segs);
            }
        }
        if last {
            tree.upsert(prefix, note.clone(), is_file, true);
        } else {
            tree.upsert(prefix, None, false, false);
        }
        proof {
            // every ancestor of the new path is present
            assert forall|i: int, m: int|
                0 <= i < tree@.len() && 1 <= m < tree@[i].0.len() implies has_path(
                tree@,
                #[trigger] tree@[i].0.take(m),
            ) by {
                let q = tree@[i].0;
                assert(has_path(tree@, q));
                if has_path(before, q) {
                    let j = choose|j: int| 0 <= j < before.len() && (#[trigger] before[j]).0 == q;
                    assert(has_path(before, before[j].0.take(m)));
                    let h = choose|h: int|
                        0 <= h < before.len() && (#[trigger] before[h]).0 == before[j].0.take(m);
                    assert(has_path(tree@, before[h].0));
                } else {
                    assert(q == pv);
                    assert(pv.take(m) == segs.take(m));
                    assert(has_path(tree@, segs.take(m)));
                }
            }
            assert forall|i: int| 0 <= i < tree@.len() implies (#[trigger] tree@[i]).0.len() >= 1 by {
                let q = tree@[i].0;
                assert(has_path(tree@, q));
                if has_path(before, q) {
                    let j = choose|j: int| 0 <= j < before.len() && (#[trigger] before[j]).0 == q;
                }
            }
            assert(has_path(tree@, pv));
            assert forall|m: int| 1 <= m < k + 1 implies has_path(tree@, #[trigger] segs.take(m)) by {
                if m < k {
                    assert(has_path(before, segs.take(m)));
                }
            }
            assert forall|p: Seq<Seq<char>>|
                #![trigger has_path(tree@, p)]
                has_path(tree@, p) <==> (has_path(old_v, p) || (1 <= p.len() < k + 1 && p
                    == segs.take(p.len() as int))) by {
                if p == pv {
                    assert(pv.len() == k);
                }
                if 1 <= p.len() < k + 1 && p == segs.take(p.len() as int) && p.len() < k {
                    assert(has_path(before, p));
                }
                if has_path(before, p) {
                }
            }
            assert forall|a: int, b: int|
                0 <= a < tree@.len() && 0 <= b < old_v.len() && (#[trigger] tree@[a]).0 == (
                #[trigger] old_v[b]).0 && tree@[a].0 != segs implies tree@[a] == old_v[b] by {
                let q = tree@[a].0;
                assert(has_path(old_v, q));
                assert(has_path(before, q));
                let c = choose|c: int| 0 <= c < before.len() && (#[trigger] before[c]).0 == q;
                assert(tree@[a] == before[c]);
            }
            assert forall|a: int|
                0 <= a < tree@.len() && !has_path(old_v, (#[trigger] tree@[a]).0) && tree@[a].0
                    != segs implies tree@[a].1 is None && !tree@[a].2 by {
                let q = tree@[a].0;
                assert(has_path(tree@, q));
                if has_path(before, q) {
                    let c = choose|c: int| 0 <= c < before.len() && (#[trigger] before[c]).0 == q;
                    assert(tree@[a] == before[c]);
                } else {
                    assert(q == pv);
                    assert(!last);
                }
            }
        }
        done = done + 1;
    }
    proof {
        assert forall|p: Seq<Seq<char>>|
            #![trigger has_path(tree@, p)]
            has_path(tree@, p) <==> (has_path(old_v, p) || (1 <= p.len() <= segs.len() && p
                == segs.take(p.len() as int))) by {}
    }
}

/// `n` spaces.
pub open spec fn spaces(n: nat) -> Seq<char> {
    Seq::new(n, |i: int| ' ')
}

/// The line a node is listed as: two spaces per level (the root's children
/// at level `indent`), its name, a `/` for a directory, and its note after two
/// spaces.
pub open spec fn tree_line(e: EntryView, indent: nat) -> Seq<char> {
    spaces(2 * (indent + e.0.len() - 1) as nat) + e.0.last() + (if e.2 {
        Seq::empty()
    } else {
        seq!['/']
    }) + match e.1 {
        Some(note) => seq![' ', ' '] + note,
        None => Seq::empty(),
    }
}

/// The lines of a tree, one per node, in depth-first order.
pub open spec fn tree_lines(v: Seq<EntryView>, indent: nat) -> Seq<Seq<char>> {
    v.map_values(|e: EntryView| tree_line(e, indent))
}

fn push_indent(out: &mut String, levels: usize)
    ensures
        final(out)@ == old(out)@ + spaces(2 * levels as nat),
{
    let ghost start = out@;
    let mut i: usize = 0;
    while i < levels
        invariant
            i <= levels,
            out@ == start + spaces(2 * i as nat),
        decreases levels - i,
    {
        push_char(out, ' ');
        push_char(out, ' ');
        i = i + 1;
        assert(out@ =~= start + spaces(2 * i as nat));
    }
}

impl PathTree {
    /// The line listing one node.
    fn entry_line(&self, i: usize, indent: usize) -> (line: String)
        requires
            i < self@.len(),
            tree_wf(self@),
        ensures
            line@ == tree_line(self@[i as int], indent as nat),
    {
        let e = &self.entries[i];
        assert(self@[i as int] == e.view_entry());
        let depth = e.segments.len();
        let mut line = String::new();
        push_indent(&mut line, indent);
        push_indent(&mut line, depth - 1);
        assert(spaces(2 * indent as nat) + spaces(2 * (depth - 1) as nat) =~= spaces(
            2 * (indent + depth - 1) as nat,
        ));
        push_str(&mut line, e.segments[depth - 1].as_str());
        if !e.is_file {
            push_char(&mut line, '/');
        }
        match &e.note {
            Some(note) => {
                push_char(&mut line, ' ');
                push_char(&mut line, ' ');
                push_str(&mut line, note.as_str());
            },
            None => {},
        }
        assert(line@ =~= tree_line(self@[i as int], indent as nat));
        line
    }
}

/// One line per node of `tree`, in depth-first order, the root's children
/// indented by `indent` levels.
pub fn render_tree_lines(tree: &PathTree, indent: usize) -> (lines: Vec<String>)
    requires
        tree_wf(tree@),
    ensures
        lines.deep_view() == tree_lines(tree@, indent as nat),
{
    let mut lines: Vec<String> = Vec::new();
    let mut i: usize = 0;
    while i < tree.entries.len()
        invariant
            tree_wf(tree@),
            i <= tree@.len(),
            tree@.len() == tree.entries.len(),
            lines.deep_view() == tree_lines(tree@.take(i as int), indent as nat),
        decreases tree.entries.len() - i,
    {
        let line = tree.entry_line(i, indent);
        let ghost before = lines.deep_view();
        let ghost lv = line@;
        lines.push(line);
        assert(lines.deep_view() =~= before.push(lv));
        i = i + 1;
        assert(tree_lines(tree@.take(i as int), indent as nat) =~= tree_lines(
            tree@.take((i - 1) as int),
            indent as nat,
        ).push(tree_line(tree@[i - 1], indent as nat)));
    }
    assert(tree@.take(tree@.len() as int) == tree@);
    lines
}

/// The text of a directory skeleton: the root's name with a slash, then one
/// line per node, each line ended by a newline.
pub open spec fn directory_skeleton(root_name: Seq<char>, v: Seq<EntryView>) -> Seq<char> {
    root_name + seq!['/', '\n'] + tree_lines(v, 1).fold_left(
        Seq::<char>::empty(),
        |acc: Seq<char>, line: Seq<char>| acc + line + seq!['\n'],
    )
}

/// Renders the skeleton of a directory named `root_name` whose structural
/// entries form `tree`: the name with a slash, then the tree's lines.
pub fn render_directory_skeleton(root_name: &str, tree: &PathTree) -> (text: String)
    requires
        tree_wf(tree@),
    ensures
        text@ == directory_skeleton(root_name@, tree@),
{
    let lines = render_tree_lines(tree, 1);
    let ghost lv = lines.deep_view();
    let mut body = String::new();
    let mut i: usize = 0;
    while i < lines.len()
        invariant
            i <= lines.len(),
            lv == lines.deep_view(),
            body@ == lv.take(i as int).fold_left(
                Seq::<char>::empty(),
                |acc: Seq<char>, line: Seq<char>| acc + line + seq!['\n'],
            ),
        decreases lines.len() - i,
    {
        push_str(&mut body, lines[i].as_str());
        push_char(&mut body, '\n');
        i = i + 1;
        assert(lv.take(i as int).drop_last() == lv.take((i - 1) as int));
    }
    assert(lv.take(lines.len() as int) == lv);
    let mut text = String::new();
    push_str(&mut text, root_name);
    push_char(&mut text, '/');
    push_char(&mut text, '\n');
    push_str(&mut text, body.as_str());
    assert(text@ =~= directory_skeleton(root_name@, tree@));
    text
}

/// The tree of a list of paths depends only on which paths it lists, not on
/// their order or repetition: trees meeting the contract of
/// [`tree_from_paths`] for two lists with the same members are equal.
pub proof fn lemma_tree_from_paths_set(
    paths1: Seq<Seq<char>>,
    paths2: Seq<Seq<char>>,
    t1: Seq<EntryView>,
    t2: Seq<EntryView>,
)
    requires
        forall|p: Seq<char>| paths1.contains(p) <==> paths2.contains(p),
        tree_wf(t1),
        tree_wf(t2),
        forall|p: Seq<Seq<char>>|
            #![trigger has_path(t1, p)]
            has_path(t1, p) <==> under_paths(paths1, p),
        forall|i: int|
            0 <= i < t1.len() ==> (#[trigger] t1[i]).1 is None && (t1[i].2 <==> names_path(
                paths1,
                t1[i].0,
            )),
        forall|p: Seq<Seq<char>>|
            #![trigger has_path(t2, p)]
            has_path(t2, p) <==> under_paths(paths2, p),
        forall|i: int|
            0 <= i < t2.len() ==> (#[trigger] t2[i]).1 is None && (t2[i].2 <==> names_path(
                paths2,
                t2[i].0,
            )),
    ensures
        t1 == t2,
{
    assert forall|p: Seq<Seq<char>>| under_paths(paths1, p) <==> under_paths(paths2, p) by {
        if under_paths(paths1, p) {
            let i = choose|i: int|
                0 <= i < paths1.len() && 1 <= p.len() <= path_segments(#[trigger] paths1[i]).len()
                    && p == path_segments(paths1[i]).take(p.len() as int);
            assert(paths1.contains(paths1[i]));
            let j = choose|j: int| 0 <= j < paths2.len() && paths2[j] == paths1[i];
            assert(path_segments(paths2[j]) == path_segments(paths1[i]));
        }
        if under_paths(paths2, p) {
            let i = choose|i: int|
                0 <= i < paths2.len() && 1 <= p.len() <= path_segments(#[trigger] paths2[i]).len()
                    && p == path_segments(paths2[i]).take(p.len() as int);
            assert(paths2.contains(paths2[i]));
            let j = choose|j: int| 0 <= j < paths1.len() && paths1[j] == paths2[i];
            assert(path_segments(paths1[j]) == path_segments(paths2[i]));
        }
    }
    assert forall|p: Seq<Seq<char>>| names_path(paths1, p) <==> names_path(paths2, p) by {
        if names_path(paths1, p) {
            let i = choose|i: int| 0 <= i < paths1.len() && path_segments(#[trigger] paths1[i]) == p;
            assert(paths1.contains(paths1[i]));
            let j = choose|j: int| 0 <= j < paths2.len() && paths2[j] == paths1[i];
            assert(path_segments(paths2[j]) == p);
        }
        if names_path(paths2, p) {
            let i = choose|i: int| 0 <= i < paths2.len() && path_segments(#[trigger] paths2[i]) == p;
            assert(paths2.contains(paths2[i]));
            let j = choose|j: int| 0 <= j < paths1.len() && paths1[j] == paths2[i];
            assert(path_segments(paths1[j]) == p);
        }
    }
    assert forall|p: Seq<Seq<char>>|
        #![trigger has_path(t1, p)]
        #![trigger has_path(t2, p)]
        has_path(t1, p) <==> has_path(t2, p) by {
        assert(has_path(t2, p) <==> under_paths(paths2, p));
    }
    assert forall|i: int, j: int|
        0 <= i < t1.len() && 0 <= j < t2.len() && (#[trigger] t1[i]).0 == (#[trigger] t2[j]).0
            implies t1[i] == t2[j] by {}
    lemma_tree_determined(t1, t2);
}

/// Some path of `paths`, split at slashes, is `p`.
pub open spec fn names_path(paths: Seq<Seq<char>>, p: Seq<Seq<char>>) -> bool {
    exists|i: int| 0 <= i < paths.len() && path_segments(#[trigger] paths[i]) == p
}

/// `p` is a non-empty prefix of some path of `paths`, split at slashes.
pub open spec fn under_paths(paths: Seq<Seq<char>>, p: Seq<Seq<char>>) -> bool {
    exists|i: int|
        0 <= i < paths.len() && 1 <= p.len() <= path_segments(#[trigger] paths[i]).len() && p
            == path_segments(paths[i]).take(p.len() as int)
}

/// The tree of the files `paths`: a node for each path and each of its
/// ancestors; a node is a file exactly when some path names it; no notes.
pub fn tree_from_paths(paths: &Vec<String>) -> (tree: PathTree)
    ensures
        tree_wf(tree@),
        forall|p: Seq<Seq<char>>|
            #![trigger has_path(tree@, p)]
            has_path(tree@, p) <==> under_paths(paths.deep_view(), p),
        forall|i: int|
            0 <= i < tree@.len() ==> (#[trigger] tree@[i]).1 is None && (tree@[i].2
                <==> names_path(paths.deep_view(), tree@[i].0)),
{
    let ghost pv = paths.deep_view();
    let mut tree = PathTree::new();
    let mut k: usize = 0;
    while k < paths.len()
        invariant
            k <= paths.len(),
            pv == paths.deep_view(),
            tree_wf(tree@),
            forall|p: Seq<Seq<char>>|
                #![trigger has_path(tree@, p)]
                has_path(tree@, p) <==> under_paths(pv.take(k as int), p),
            forall|i: int|
                0 <= i < tree@.len() ==> (#[trigger] tree@[i]).1 is None && (tree@[i].2
                    <==> names_path(pv.take(k as int), tree@[i].0)),
        decreases paths.len() - k,
    {
        let ghost before = tree@;
        let ghost segs = path_segments(pv[k as int]);
        insert_tree_path(&mut tree, paths[k].as_str(), None, true);
        proof {
            lemma_unique_paths(tree@);
            lemma_unique_paths(before);
            let next = pv.take(k + 1);
            assert forall|p: Seq<Seq<char>>|
                #![trigger has_path(tree@, p)]
                has_path(tree@, p) <==> under_paths(next, p) by {
                if under_paths(next, p) {
                    let j = choose|j: int|
                        0 <= j < next.len() && 1 <= p.len() <= path_segments(
                            #[trigger] next[j],
                        ).len() && p == path_segments(next[j]).take(p.len() as int);
                    if j < k {
                        assert(pv.take(k as int)[j] == next[j]);
                        assert(under_paths(pv.take(k as int), p));
                    }
                }
                if has_path(before, p) {
                    let j = choose|j: int|
                        0 <= j < k && 1 <= p.len() <= path_segments(
                            #[trigger] pv.take(k as int)[j],
                        ).len() && p == path_segments(pv.take(k as int)[j]).take(p.len() as int);
                    assert(next[j] == pv.take(k as int)[j]);
                }
                if 1 <= p.len() <= segs.len() && p == segs.take(p.len() as int) {
                    assert(next[k as int] == pv[k as int]);
                }
            }
            assert forall|i: int| 0 <= i < tree@.len() implies (#[trigger] tree@[i]).1 is None && (
            tree@[i].2 <==> names_path(next, tree@[i].0)) by {
                let q = tree@[i].0;
                assert(has_path(tree@, q));
                if q == segs {
                    assert(next[k as int] == pv[k as int]);
                    assert(path_segments(next[k as int]) == q);
                } else {
                    if names_path(next, q) {
                        let j = choose|j: int|
                            0 <= j < next.len() && path_segments(#[trigger] next[j]) == q;
                        assert(j < k);
                        assert(pv.take(k as int)[j] == next[j]);
                        assert(names_path(pv.take(k as int), q));
                        lemma_split_on_nonempty(next[j], '/');
                        assert(q.take(q.len() as int) == q);
                        assert(under_paths(pv.take(k as int), q));
                        assert(has_path(before, q));
                    }
                    if names_path(pv.take(k as int), q) {
                        let j = choose|j: int|
                            0 <= j < k && path_segments(#[trigger] pv.take(k as int)[j]) == q;
                        assert(next[j] == pv.take(k as int)[j]);
                        assert(names_path(next, q));
                    }
                    if has_path(before, q) {
                        let j = choose|j: int| 0 <= j < before.len() && (#[trigger] before[j]).0 == q;
                        assert(tree@[i] == before[j]);
                    }
                }
            }
        }
        k = k + 1;
    }
    assert(pv.take(paths.len() as int) == pv);
    tree
}

/// `p` is a child of `prefix`: one segment longer, starting with `prefix`.
pub open spec fn is_child_path(prefix: Seq<Seq<char>>, p: Seq<Seq<char>>) -> bool {
    p.len() == prefix.len() + 1 && p.take(prefix.len() as int) == prefix
}

/// The slash-joined path of the child `name` of the node at `path`.
pub open spec fn child_path_text(path: Seq<char>, name: Seq<char>) -> Seq<char> {
    if path.len() == 0 {
        name
    } else {
        path + seq!['/'] + name
    }
}

/// The JSON kind of a node.
pub open spec fn kind_text(is_file: bool) -> Seq<char> {
    if is_file {
        "file"@
    } else {
        "dir"@
    }
}

/// The length of the longest path of `v`.
pub open spec fn tree_depth(v: Seq<EntryView>) -> nat
    decreases v.len(),
{
    if v.len() == 0 {
        0
    } else {
        let rest = tree_depth(v.drop_last());
        if v.last().0.len() > rest {
            v.last().0.len()
        } else {
            rest
        }
    }
}

/// The JSON object of the node at `prefix`: its name, kind and path, its note
/// if it has one, and its children (in tree order) if it has any. `budget`
/// bounds the levels below the node that are described; from the tree's
/// depth on it cuts nothing (`lemma_tree_model_complete`).
pub open spec fn node_model(
    v: Seq<EntryView>,
    prefix: Seq<Seq<char>>,
    name: Seq<char>,
    path: Seq<char>,
    note: Option<Seq<char>>,
    is_file: bool,
    budget: nat,
) -> JsonModel
    decreases budget, v.len() + 1,
{
    let children = child_models(v, prefix, path, v.len(), budget);
    let base = seq![
        ("name"@, JsonModel::Str(name)),
        ("kind"@, JsonModel::Str(kind_text(is_file))),
        ("path"@, JsonModel::Str(path)),
    ];
    let with_note = match note {
        Some(n) => base.push(("note"@, JsonModel::Str(n))),
        None => base,
    };
    JsonModel::Object(
        if children.len() > 0 {
            with_note.push(("children"@, JsonModel::Array(children)))
        } else {
            with_note
        },
    )
}

/// The JSON objects of the children of `prefix` among the first `k` nodes.
pub open spec fn child_models(
    v: Seq<EntryView>,
    prefix: Seq<Seq<char>>,
    path: Seq<char>,
    k: nat,
    budget: nat,
) -> Seq<JsonModel>
    decreases budget, k,
{
    if k == 0 || budget == 0 || k > v.len() {
        Seq::empty()
    } else {
        let rest = child_models(v, prefix, path, (k - 1) as nat, budget);
        let e = v[k - 1];
        if is_child_path(prefix, e.0) {
            rest.push(
                node_model(
                    v,
                    e.0,
                    e.0.last(),
                    child_path_text(path, e.0.last()),
                    e.1,
                    e.2,
                    (budget - 1) as nat,
                ),
            )
        } else {
            rest
        }
    }
}

/// The JSON description of a whole tree whose root is called `name` and sits
/// at `path`: a directory without a note.
pub open spec fn tree_model(name: Seq<char>, v: Seq<EntryView>, path: Seq<char>) -> JsonModel {
    node_model(v, Seq::empty(), name, path, None, false, tree_depth(v))
}

/// No path of `v` is longer than the tree's depth.
proof fn lemma_depth_bounds_paths(v: Seq<EntryView>)
    ensures
        forall|i: int| 0 <= i < v.len() ==> (#[trigger] v[i]).0.len() <= tree_depth(v),
    decreases v.len(),
{
    if v.len() > 0 {
        lemma_depth_bounds_paths(v.drop_last());
        assert forall|i: int| 0 <= i < v.len() implies (#[trigger] v[i]).0.len() <= tree_depth(
            v,
        ) by {
            if i < v.len() - 1 {
                assert(v.drop_last()[i] == v[i]);
            }
        }
    }
}

/// Two budgets that both reach the tree's depth describe the same children.
proof fn lemma_child_models_budget(
    v: Seq<EntryView>,
    prefix: Seq<Seq<char>>,
    path: Seq<char>,
    k: nat,
    b1: nat,
    b2: nat,
)
    requires
        forall|i: int| 0 <= i < v.len() ==> (#[trigger] v[i]).0.len() <= tree_depth(v),
        prefix.len() + b1 >= tree_depth(v),
        prefix.len() + b2 >= tree_depth(v),
    ensures
        child_models(v, prefix, path, k, b1) == child_models(v, prefix, path, k, b2),
    decreases b1 + b2, 0nat, k,
{
    if k == 0 || k > v.len() {
    } else {
        lemma_child_models_budget(v, prefix, path, (k - 1) as nat, b1, b2);
        let e = v[k - 1];
        if is_child_path(prefix, e.0) {
            lemma_node_model_budget(
                v,
                e.0,
                e.0.last(),
                child_path_text(path, e.0.last()),
                e.1,
                e.2,
                (b1 - 1) as nat,
                (b2 - 1) as nat,
            );
        }
    }
}

/// Two budgets that both reach the tree's depth describe the same node.
proof fn lemma_node_model_budget(
    v: Seq<EntryView>,
    prefix: Seq<Seq<char>>,
    name: Seq<char>,
    path: Seq<char>,
    note: Option<Seq<char>>,
    is_file: bool,
    b1: nat,
    b2: nat,
)
    requires
        forall|i: int| 0 <= i < v.len() ==> (#[trigger] v[i]).0.len() <= tree_depth(v),
        prefix.len() + b1 >= tree_depth(v),
        prefix.len() + b2 >= tree_depth(v),
    ensures
        node_model(v, prefix, name, path, note, is_file, b1) == node_model(
            v,
            prefix,
            name,
            path,
            note,
            is_file,
            b2,
        ),
    decreases b1 + b2, 1nat, 0nat,
{
    lemma_child_models_budget(v, prefix, path, v.len(), b1, b2);
}

/// The description of a tree is complete: any budget of at least the tree's
/// depth describes it exactly as `tree_model` does, so no level is cut.
pub proof fn lemma_tree_model_complete(
    name: Seq<char>,
    v: Seq<EntryView>,
    path: Seq<char>,
    budget: nat,
)
    requires
        budget >= tree_depth(v),
    ensures
        node_model(v, Seq::empty(), name, path, None, false, budget) == tree_model(name, v, path),
{
    lemma_depth_bounds_paths(v);
    lemma_node_model_budget(v, Seq::empty(), name, path, None, false, budget, tree_depth(v));
}

/// Whether `p` is a child of `prefix`.
fn is_child(prefix: &Vec<String>, p: &Vec<String>) -> (r: bool)
    ensures
        r == is_child_path(prefix.deep_view(), p.deep_view()),
{
    if p.len() == 0 || p.len() - 1 != prefix.len() {
        return false;
    }
    let mut i: usize = 0;
    while i < prefix.len()
        invariant
            p.len() == prefix.len() + 1,
            i <= prefix.len(),
            forall|j: int| 0 <= j < i ==> p.deep_view()[j] == prefix.deep_view()[j],
        decreases prefix.len() - i,
    {
        if p[i] != prefix[i] {
            assert(p.deep_view().take(prefix.len() as int)[i as int] != prefix.deep_view()[i as int]);
            return false;
        }
        i = i + 1;
    }
    assert(p.deep_view().take(prefix.len() as int) =~= prefix.deep_view());
    true
}

impl PathTree {
    /// The length of the longest path.
    fn depth(&self) -> (d: usize)
        ensures
            d == tree_depth(self@),
    {
        let mut d: usize = 0;
        let mut i: usize = 0;
        assert(self@.take(0) == Seq::<EntryView>::empty());
        while i < self.entries.len()
            invariant
                i <= self.entries.len(),
                self@.len() == self.entries.len(),
                d == tree_depth(self@.take(i as int)),
            decreases self.entries.len() - i,
        {
            assert(self@[i as int].0.len() == self.entries@[i as int].segments.len());
            assert(self@.take(i + 1).drop_last() == self@.take(i as int));
            let len = self.entries[i].segments.len();
            if len > d {
                d = len;
            }
            i = i + 1;
        }
        assert(self@.take(self.entries.len() as int) == self@);
        d
    }

    /// The JSON object of the node at `prefix`.
    fn node_value(
        &self,
        prefix: &Vec<String>,
        name: &str,
        path: &str,
        note: &Option<String>,
        is_file: bool,
        budget: usize,
    ) -> (value: JsonValue)
        ensures
            value.model() == node_model(
                self@,
                prefix.deep_view(),
                name@,
                path@,
                opt_view(*note),
                is_file,
                budget as nat,
            ),
        decreases budget, self@.len() + 1,
    {
        let children = self.child_values(prefix, path, budget);
        proof {
            lemma_item_models_len(children@);
        }
        let mut fields: Vec<JsonField> = Vec::new();
        assert(field_models(fields@) =~= Seq::<(Seq<char>, JsonModel)>::empty());
        push_field(&mut fields, "name", json_str(name));
        let kind = if is_file {
            "file"
        } else {
            "dir"
        };
        push_field(&mut fields, "kind", json_str(kind));
        push_field(&mut fields, "path", json_str(path));
        let ghost base = seq![
            ("name"@, JsonModel::Str(name@)),
            ("kind"@, JsonModel::Str(kind_text(is_file))),
            ("path"@, JsonModel::Str(path@)),
        ];
        assert(field_models(fields@) =~= base);
        match note {
            Some(n) => push_field(&mut fields, "note", json_str(n.as_str())),
            None => {},
        }
        let ghost with_note = match opt_view(*note) {
            Some(n) => base.push(("note"@, JsonModel::Str(n))),
            None => base,
        };
        assert(field_models(fields@) == with_note);
        let ghost child_seq = child_models(
            self@,
            prefix.deep_view(),
            path@,
            self@.len(),
            budget as nat,
        );
        if children.len() > 0 {
            push_field(&mut fields, "children", JsonValue::Array(children));
            assert(field_models(fields@) == with_note.push(
                ("children"@, JsonModel::Array(child_seq)),
            ));
        }
        let value = JsonValue::Object(fields);
        assert(value.model() == node_model(
            self@,
            prefix.deep_view(),
            name@,
            path@,
            opt_view(*note),
            is_file,
            budget as nat,
        ));
        value
    }

    /// The JSON objects of the children of `prefix`, in tree order.
    fn child_values(&self, prefix: &Vec<String>, path: &str, budget: usize) -> (values: Vec<
        JsonValue,
    >)
        ensures
            item_models(values@) == child_models(
                self@,
                prefix.deep_view(),
                path@,
                self@.len(),
                budget as nat,
            ),
        decreases budget, self@.len(),
    {
        let mut values: Vec<JsonValue> = Vec::new();
        if budget == 0 {
            return values;
        }
        let mut k: usize = 0;
        while k < self.entries.len()
            invariant
                budget > 0,
                k <= self.entries.len(),
                self@.len() == self.entries.len(),
                item_models(values@) == child_models(
                    self@,
                    prefix.deep_view(),
                    path@,
                    k as nat,
                    budget as nat,
                ),
            decreases self.entries.len() - k,
        {
            let e = &self.entries[k];
            assert(self@[k as int] == e.view_entry());
            if is_child(prefix, &e.segments) {
                let last = e.segments.len() - 1;
                let child_name = e.segments[last].as_str();
                let mut child_path = String::new();
                if path.is_empty() {
                    crate::text::push_str(&mut child_path, child_name);
                } else {
                    crate::text::push_str(&mut child_path, path);
                    push_char(&mut child_path, '/');
                    crate::text::push_str(&mut child_path, child_name);
                }
                assert(child_path@ =~= child_path_text(path@, e.segments.deep_view().last()));
                let child = self.node_value(
                    &e.segments,
                    child_name,
                    child_path.as_str(),
                    &e.note,
                    e.is_file,
                    budget - 1,
                );
                let ghost before = values@;
                values.push(child);
                assert(values@.drop_last() == before);
            }
            k = k + 1;
        }
        values
    }
}

/// The JSON description of `tree`, whose root is called `name` and sits at `path`.
pub fn tree_to_value(name: &str, tree: &PathTree, path: &str) -> (value: JsonValue)
    ensures
        value.model() == tree_model(name@, tree@, path@),
{
    let root: Vec<String> = Vec::new();
    assert(root.deep_view() =~= Seq::<Seq<char>>::empty());
    let depth = tree.depth();
    tree.node_value(&root, name, path, &None, false, depth)
}

} // verus!
