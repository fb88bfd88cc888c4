use vstd::prelude::*;

use crate::tree::{Counter, EntryKind, Tree, sum_of};
use crate::walk::{Snapshot, entries, item_value, items_total, messages, own_of, total, walked};

verus! {

/// For a counter that a failed item does not touch, the children that walk the
/// readable entries of `l` sum to what `l` adds to its directory.
proof fn lemma_children_sum(ts: Seq<Tree>, l: Seq<Result<Snapshot, String>>, c: Counter)
    requires
        c != Counter::Dirs && c != Counter::Errors,
        ts.len() == entries(l).len(),
        forall|j: int| 0 <= j < ts.len() ==> walked(#[trigger] ts[j], entries(l)[j]),
    ensures
        sum_of(ts, c) == items_total(l, c),
    decreases l.len(),
{
    if l.len() > 0 {
        let d = l.drop_last();
        match l.last() {
            Ok(e) => {
                let td = ts.drop_last();
                assert(entries(l) == entries(d).push(e));
                assert forall|j: int| 0 <= j < td.len() implies walked(#[trigger] td[j], entries(d)[j]) by {
                    assert(td[j] == ts[j]);
                }
                lemma_children_sum(td, d, c);
                assert(walked(ts[ts.len() - 1], e));
                assert(ts.last().count(c) == total(e, c));
                assert(item_value(l.last(), c) == total(e, c));
            },
            Err(_) => {
                assert(entries(l) == entries(d));
                assert(item_value(l.last(), c) == 0);
                lemma_children_sum(ts, d, c);
            },
        }
    }
}

/// Every node of a walk is its own share plus its children's. For `t`, the walk
/// of `s`: each counter of `t` equals the node's own contribution plus that
/// counter summed over its children; that contribution is, for files, links,
/// others and size, the one that `s` itself makes (its kind, its own real size),
/// and, for errors, the messages recorded at `s`; and each child is the walk of
/// its entry, so the same holds again at every node below.
pub proof fn law_aggregation(t: Tree, s: Snapshot)
    requires
        walked(t, s),
    ensures
        forall|c: Counter| #[trigger] t.count(c) == t.own(c) + sum_of(t.children@, c),
        t.own(Counter::Files) == own_of(s, Counter::Files),
        t.own(Counter::Links) == own_of(s, Counter::Links),
        t.own(Counter::Others) == own_of(s, Counter::Others),
        t.own(Counter::Size) == own_of(s, Counter::Size),
        t.own(Counter::Errors) == messages(s).len(),
        match s {
            Snapshot::Dir(_, items) => forall|j: int|
                0 <= j < t.children@.len() ==> walked(
                    #[trigger] t.children@[j],
                    entries(items@)[j],
                ),
            _ => t.children@.len() == 0,
        },
{
    match s {
        Snapshot::Dir(_, items) => {
            lemma_children_sum(t.children@, items@, Counter::Files);
            lemma_children_sum(t.children@, items@, Counter::Links);
            lemma_children_sum(t.children@, items@, Counter::Others);
            lemma_children_sum(t.children@, items@, Counter::Size);
            assert(t.count(Counter::Files) == total(s, Counter::Files));
            assert(t.count(Counter::Links) == total(s, Counter::Links));
            assert(t.count(Counter::Others) == total(s, Counter::Others));
            assert(t.count(Counter::Size) == total(s, Counter::Size));
            assert(t.count(Counter::Files) == t.own(Counter::Files) + sum_of(t.children@, Counter::Files));
            assert(t.count(Counter::Links) == t.own(Counter::Links) + sum_of(t.children@, Counter::Links));
            assert(t.count(Counter::Others) == t.own(Counter::Others) + sum_of(t.children@, Counter::Others));
        },
        _ => {
            assert(t.count(Counter::Files) == total(s, Counter::Files));
            assert(t.count(Counter::Links) == total(s, Counter::Links));
            assert(t.count(Counter::Others) == total(s, Counter::Others));
            assert(t.count(Counter::Size) == total(s, Counter::Size));
            assert(t.count(Counter::Files) == t.own(Counter::Files) + sum_of(t.children@, Counter::Files));
            assert(t.count(Counter::Links) == t.own(Counter::Links) + sum_of(t.children@, Counter::Links));
            assert(t.count(Counter::Others) == t.own(Counter::Others) + sum_of(t.children@, Counter::Others));
        },
    }
}

/// Two trees agree at every node: the same six counters, kind and error log,
/// and the same number of children, which agree pairwise in turn.
pub open spec fn agree(a: Tree, b: Tree) -> bool
    decreases a,
{
    &&& forall|c: Counter| #[trigger] a.count(c) == b.count(c)
    &&& a.kind == b.kind
    &&& a.local_error_log@ == b.local_error_log@
    &&& a.children@.len() == b.children@.len()
    &&& forall|j: int|
        0 <= j < a.children@.len() ==> agree(#[trigger] a.children@[j], b.children@[j])
}

/// Walking an unchanged tree twice gives the same result at every path: two walks
/// of one snapshot agree at every node.
pub proof fn law_walks_agree(a: Tree, b: Tree, s: Snapshot)
    requires
        walked(a, s),
        walked(b, s),
    ensures
        agree(a, b),
    decreases a,
{
    assert forall|c: Counter| #[trigger] a.count(c) == b.count(c) by {
        assert(a.count(c) == total(s, c) && b.count(c) == total(s, c));
    }
    match s {
        Snapshot::Dir(_, items) => {
            assert forall|j: int| 0 <= j < a.children@.len() implies agree(
                #[trigger] a.children@[j],
                b.children@[j],
            ) by {
                law_walks_agree(a.children@[j], b.children@[j], entries(items@)[j]);
            }
        },
        _ => {},
    }
}

/// A classified node that is not a directory is exactly one file, link or other
/// entry, counts nothing else and has no children; only a directory has children.
pub proof fn law_kind_exclusive(t: Tree)
    requires
        t.wf(),
        t.kind is Some,
    ensures
        t.kind == Some(EntryKind::File) ==> t.files == 1 && t.links == 0 && t.others == 0
            && t.dirs == 0 && t.children@.len() == 0,
        t.kind == Some(EntryKind::Link) ==> t.links == 1 && t.files == 0 && t.others == 0
            && t.dirs == 0 && t.children@.len() == 0,
        t.kind == Some(EntryKind::Other) ==> t.others == 1 && t.files == 0 && t.links == 0
            && t.dirs == 0 && t.children@.len() == 0,
        t.children@.len() > 0 ==> t.kind == Some(EntryKind::Dir),
{
    if t.kind != Some(EntryKind::Dir) {
        assert(t.count(Counter::Files) == t.own(Counter::Files) + sum_of(t.children@, Counter::Files));
        assert(t.count(Counter::Links) == t.own(Counter::Links) + sum_of(t.children@, Counter::Links));
        assert(t.count(Counter::Others) == t.own(Counter::Others) + sum_of(t.children@, Counter::Others));
        assert(t.count(Counter::Dirs) == t.own(Counter::Dirs) + sum_of(t.children@, Counter::Dirs));
    }
}

/// A node without a kind, whose metadata or size could not be had, carries one
/// error and nothing else.
pub proof fn law_failed_node(t: Tree)
    requires
        t.wf(),
        t.kind is None,
    ensures
        t.errors == 1,
        t.local_error_log@.len() == 1,
        t.files == 0 && t.dirs == 0 && t.links == 0 && t.others == 0 && t.size == 0,
        t.children@.len() == 0,
{
    assert(t.count(Counter::Files) == t.own(Counter::Files) + sum_of(t.children@, Counter::Files));
    assert(t.count(Counter::Links) == t.own(Counter::Links) + sum_of(t.children@, Counter::Links));
    assert(t.count(Counter::Others) == t.own(Counter::Others) + sum_of(t.children@, Counter::Others));
    assert(t.count(Counter::Dirs) == t.own(Counter::Dirs) + sum_of(t.children@, Counter::Dirs));
    assert(t.count(Counter::Errors) == t.own(Counter::Errors) + sum_of(t.children@, Counter::Errors));
}

/// Taking item `j` out of a listing takes exactly its value out of the total.
proof fn lemma_items_remove(l: Seq<Result<Snapshot, String>>, j: int, c: Counter)
    requires
        0 <= j < l.len(),
    ensures
        items_total(l, c) == items_total(l.remove(j), c) + item_value(l[j], c),
    decreases l.len(),
{
    if j == l.len() - 1 {
        assert(l.remove(j) =~= l.drop_last());
    } else {
        let d = l.drop_last();
        assert(l.remove(j).drop_last() =~= d.remove(j));
        assert(l.remove(j).last() == l.last());
        lemma_items_remove(d, j, c);
    }
}

/// Two listings that hold the same items, in whatever order, give the same totals.
proof fn lemma_items_order_free(l1: Seq<Result<Snapshot, String>>, l2: Seq<Result<Snapshot, String>>, c: Counter)
    requires
        l1.to_multiset() == l2.to_multiset(),
    ensures
        items_total(l1, c) == items_total(l2, c),
    decreases l1.len(),
{
    broadcast use vstd::seq_lib::group_to_multiset_ensures;

    if l1.len() == 0 {
        assert(l1.to_multiset().len() == 0);
        assert(l2.to_multiset().len() == l2.len());
        assert(l2.len() == 0);
        assert(l1 =~= l2);
    } else {
        let x = l1.last();
        let d = l1.drop_last();
        assert(d.push(x) =~= l1);
        assert(l2.to_multiset().count(x) > 0);
        assert(l2.contains(x));
        let j = choose|j: int| 0 <= j < l2.len() && l2[j] == x;
        assert(d.to_multiset() =~= l1.to_multiset().remove(x));
        assert(l2.remove(j).to_multiset() =~= l2.to_multiset().remove(l2[j]));
        lemma_items_order_free(d, l2.remove(j), c);
        lemma_items_remove(l2, j, c);
    }
}

/// The order in which a directory's listing comes does not change any counter:
/// two listings of the same entries, in any order, give the directory the same
/// six totals, so walking an unchanged tree again gives the same counters.
pub proof fn law_listing_order_free(n: u64, v1: Vec<Result<Snapshot, String>>, v2: Vec<Result<Snapshot, String>>)
    requires
        v1@.to_multiset() == v2@.to_multiset(),
    ensures
        forall|c: Counter| #[trigger] total(Snapshot::Dir(n, v1), c) == total(Snapshot::Dir(n, v2), c),
{
    assert forall|c: Counter| #[trigger] total(Snapshot::Dir(n, v1), c) == total(Snapshot::Dir(n, v2), c) by {
        lemma_items_order_free(v1@, v2@, c);
    }
}

} // verus!
