use vstd::prelude::*;

use crate::tree::{Counter, EntryKind, Tree, sum_of};

verus! {

/// What the filesystem showed for one entry: the outcome of its metadata and
/// real-size queries and, for a directory, of its listing.
pub enum Snapshot {
    /// The metadata or the real size could not be had.
    Unreadable(String),
    File(u64),
    Link(u64),
    Other(u64),
    /// A directory of the given real size that could not be listed.
    Unlistable(u64, String),
    /// A listed directory: each item is an entry, or the error met reading it.
    Dir(u64, Vec<Result<Snapshot, String>>),
}

/// The kind that the walk gives an entry.
pub open spec fn kind_of(s: Snapshot) -> Option<EntryKind> {
    match s {
        Snapshot::Unreadable(_) => None,
        Snapshot::File(_) => Some(EntryKind::File),
        Snapshot::Link(_) => Some(EntryKind::Link),
        Snapshot::Other(_) => Some(EntryKind::Other),
        Snapshot::Unlistable(_, _) => Some(EntryKind::Dir),
        Snapshot::Dir(_, _) => Some(EntryKind::Dir),
    }
}

/// What an entry adds to counter `c` by itself.
pub open spec fn own_of(s: Snapshot, c: Counter) -> nat {
    match s {
        Snapshot::Unreadable(_) => if c == Counter::Errors { 1nat } else { 0nat },
        Snapshot::File(n) => match c {
            Counter::Files => 1nat,
            Counter::Size => n as nat,
            _ => 0nat,
        },
        Snapshot::Link(n) => match c {
            Counter::Links => 1nat,
            Counter::Size => n as nat,
            _ => 0nat,
        },
        Snapshot::Other(n) => match c {
            Counter::Others => 1nat,
            Counter::Size => n as nat,
            _ => 0nat,
        },
        Snapshot::Unlistable(n, _) => match c {
            Counter::Errors => 1nat,
            Counter::Size => n as nat,
            _ => 0nat,
        },
        Snapshot::Dir(n, _) => if c == Counter::Size { n as nat } else { 0nat },
    }
}

/// The value of counter `c` over the whole subtree of `s`.
pub open spec fn total(s: Snapshot, c: Counter) -> nat
    decreases s,
{
    match s {
        Snapshot::Dir(_, items) => own_of(s, c) + items_total(items@, c),
        _ => own_of(s, c),
    }
}

/// What one listed item gives its directory's counter `c`: a failed item is one
/// error; an entry gives its subtree, and counts once more when it is a directory.
pub open spec fn item_value(x: Result<Snapshot, String>, c: Counter) -> nat
    decreases x,
{
    match x {
        Ok(e) => total(e, c) + if c == Counter::Dirs && kind_of(e) == Some(EntryKind::Dir) {
            1nat
        } else {
            0nat
        },
        Err(_) => if c == Counter::Errors { 1nat } else { 0nat },
    }
}

/// The value of counter `c` that a directory gets from the listed items `l`.
pub open spec fn items_total(l: Seq<Result<Snapshot, String>>, c: Counter) -> nat
    decreases l,
{
    if l.len() == 0 {
        0
    } else {
        items_total(l.drop_last(), c) + item_value(l.last(), c)
    }
}

/// The entries of a listing that could be read, in listing order.
pub open spec fn entries(l: Seq<Result<Snapshot, String>>) -> Seq<Snapshot>
    decreases l.len(),
{
    if l.len() == 0 {
        Seq::empty()
    } else {
        match l.last() {
            Ok(e) => entries(l.drop_last()).push(e),
            Err(_) => entries(l.drop_last()),
        }
    }
}

/// The messages of the items of a listing that could not be read, in order.
pub open spec fn item_messages(l: Seq<Result<Snapshot, String>>) -> Seq<String>
    decreases l.len(),
{
    if l.len() == 0 {
        Seq::empty()
    } else {
        match l.last() {
            Ok(_) => item_messages(l.drop_last()),
            Err(m) => item_messages(l.drop_last()).push(m),
        }
    }
}

/// The errors that the walk records at the node of `s` itself.
pub open spec fn messages(s: Snapshot) -> Seq<String> {
    match s {
        Snapshot::Unreadable(m) => seq![m],
        Snapshot::Unlistable(_, m) => seq![m],
        Snapshot::Dir(_, items) => item_messages(items@),
        _ => Seq::empty(),
    }
}

/// `t` is well-formed, of the kind of `s`, with the totals of `s`.
pub open spec fn built_from(t: Tree, s: Snapshot) -> bool {
    &&& t.wf()
    &&& t.kind == kind_of(s)
    &&& forall|c: Counter| #[trigger] t.count(c) == total(s, c)
}

/// `t` is the walk of `s` at every level: `built_from(t, s)`, with the errors of
/// `s` in its log, and, for a listed directory, one child per readable entry, in
/// listing order, each the walk of its entry; other nodes have no children.
pub open spec fn walked(t: Tree, s: Snapshot) -> bool
    decreases t,
{
    &&& built_from(t, s)
    &&& t.local_error_log@ == messages(s)
    &&& match s {
        Snapshot::Dir(_, items) => {
            &&& t.children@.len() == entries(items@).len()
            &&& forall|j: int|
                0 <= j < t.children@.len() ==> walked(
                    #[trigger] t.children@[j],
                    entries(items@)[j],
                )
        },
        _ => t.children@.len() == 0,
    }
}

/// Every counter of the walk over `s` fits in `u64`.
pub open spec fn fits(s: Snapshot) -> bool {
    forall|c: Counter| #[trigger] total(s, c) <= u64::MAX
}

} // verus!

verus! {

/// Counter `c` over the first `i + 1` items is that over the first `i` items plus
/// what item `i` adds.
proof fn lemma_items_step(l: Seq<Result<Snapshot, String>>, i: int, c: Counter)
    requires
        0 <= i < l.len(),
    ensures
        items_total(l.subrange(0, i + 1), c) == items_total(l.subrange(0, i), c)
            + item_value(l[i], c),
{
    let p = l.subrange(0, i + 1);
    assert(p.drop_last() =~= l.subrange(0, i));
}

/// Counter `c` over a prefix of the items is at most that over all of them.
proof fn lemma_items_prefix(l: Seq<Result<Snapshot, String>>, i: int, c: Counter)
    requires
        0 <= i <= l.len(),
    ensures
        items_total(l.subrange(0, i), c) <= items_total(l, c),
    decreases l.len(),
{
    if i == l.len() {
        assert(l.subrange(0, i) =~= l);
    } else {
        let d = l.drop_last();
        assert(d.subrange(0, i) =~= l.subrange(0, i));
        lemma_items_prefix(d, i, c);
    }
}

impl Tree {
    /// Walks `s`: the node of an entry gets its own contribution, and a listed
    /// directory merges the walk of each entry and records each unreadable item.
    pub fn build(s: &Snapshot) -> (r: Tree)
        requires
            fits(*s),
        ensures
            walked(r, *s),
        decreases s,
    {
        match s {
            Snapshot::Unreadable(msg) => {
                let t = Tree::failed(msg.clone());
                assert(t.local_error_log@ =~= messages(*s));
                t
            },
            Snapshot::File(n) => Tree::classified(EntryKind::File, *n),
            Snapshot::Link(n) => Tree::classified(EntryKind::Link, *n),
            Snapshot::Other(n) => Tree::classified(EntryKind::Other, *n),
            Snapshot::Unlistable(n, msg) => {
                let mut t = Tree::classified(EntryKind::Dir, *n);
                assert(total(*s, Counter::Errors) == 1);
                t.record_error(msg.clone());
                assert(t.local_error_log@ =~= messages(*s));
                t
            },
            Snapshot::Dir(n, items) => {
                let mut t = Tree::classified(EntryKind::Dir, *n);
                let mut i: usize = 0;
                assert(items@.subrange(0, 0) =~= Seq::<Result<Snapshot, String>>::empty());
                while i < items.len()
                    invariant
                        fits(*s),
                        *s == Snapshot::Dir(*n, *items),
                        i <= items@.len(),
                        t.wf(),
                        t.kind == Some(EntryKind::Dir),
                        forall|c: Counter| #[trigger] t.count(c) == own_of(*s, c)
                            + items_total(items@.subrange(0, i as int), c),
                        t.children@.len() == entries(items@.subrange(0, i as int)).len(),
                        forall|j: int|
                            0 <= j < t.children@.len() ==> walked(
                                #[trigger] t.children@[j],
                                entries(items@.subrange(0, i as int))[j],
                            ),
                        t.local_error_log@ == item_messages(items@.subrange(0, i as int)),
                    decreases items.len() - i,
                {
                    let ghost before = t;
                    let ghost pre = items@.subrange(0, i as int);
                    let ghost post = items@.subrange(0, i + 1);
                    proof {
                        assert(post.drop_last() =~= pre);
                        assert(post.last() == items@[i as int]);
                        assert forall|c: Counter|
                            #[trigger] items_total(items@.subrange(0, i + 1), c) <= items_total(items@, c)
                            && items_total(items@.subrange(0, i + 1), c)
                                == items_total(items@.subrange(0, i as int), c)
                                    + item_value(items@[i as int], c)
                            && total(*s, c) == own_of(*s, c) + items_total(items@, c) by {
                            lemma_items_step(items@, i as int, c);
                            lemma_items_prefix(items@, i + 1, c);
                        }
                    }
                    match &items[i] {
                        Ok(e) => {
                            proof {
                                assert(items@[i as int] == Ok::<Snapshot, String>(*e));
                                assert forall|c: Counter| #[trigger] total(*e, c) <= u64::MAX by {
                                    assert(total(*s, c) <= u64::MAX);
                                    assert(items_total(items@.subrange(0, i + 1), c) <= items_total(items@, c));
                                    assert(item_value(items@[i as int], c) >= total(*e, c));
                                }
                            }
                            let child = Tree::build(e);
                            proof {
                                assert forall|c: Counter|
                                    #[trigger] item_value(items@[i as int], c) == child.count(c)
                                        + if c == Counter::Dirs && child.kind == Some(EntryKind::Dir) {
                                        1int
                                    } else {
                                        0int
                                    } by {}
                                assert forall|c: Counter| #[trigger] t.count(c) + item_value(items@[i as int], c) <= u64::MAX by {
                                    assert(total(*s, c) <= u64::MAX);
                                    assert(items_total(items@.subrange(0, i + 1), c) <= items_total(items@, c));
                                }
                            }
                            assert(t.can_take(child)) by {
                                assert(t.count(Counter::Files) + item_value(items@[i as int], Counter::Files) <= u64::MAX);
                                assert(t.count(Counter::Dirs) + item_value(items@[i as int], Counter::Dirs) <= u64::MAX);
                                assert(t.count(Counter::Links) + item_value(items@[i as int], Counter::Links) <= u64::MAX);
                                assert(t.count(Counter::Others) + item_value(items@[i as int], Counter::Others) <= u64::MAX);
                                assert(t.count(Counter::Errors) + item_value(items@[i as int], Counter::Errors) <= u64::MAX);
                                assert(t.count(Counter::Size) + item_value(items@[i as int], Counter::Size) <= u64::MAX);
                            }
                            let ghost ch = child;
                            t.merge_child(child);
                            assert(entries(post) == entries(pre).push(*e));
                            assert(item_messages(post) == item_messages(pre));
                            assert forall|j: int| 0 <= j < t.children@.len() implies walked(
                                #[trigger] t.children@[j],
                                entries(post)[j],
                            ) by {
                                if j < before.children@.len() {
                                    assert(t.children@[j] == before.children@[j]);
                                } else {
                                    assert(t.children@[j] == ch);
                                }
                            }
                            assert forall|c: Counter| #[trigger] t.count(c) == own_of(*s, c)
                                + items_total(items@.subrange(0, i + 1), c) by {
                                assert(item_value(items@[i as int], c) == child.count(c)
                                    + if c == Counter::Dirs && child.kind == Some(EntryKind::Dir) { 1int } else { 0int });
                            }
                        },
                        Err(msg) => {
                            proof {
                                assert forall|c: Counter|
                                    #[trigger] item_value(items@[i as int], c) == if c == Counter::Errors { 1int } else { 0int } by {}
                                assert(items@[i as int] == Err::<Snapshot, String>(*msg));
                                assert(total(*s, Counter::Errors) <= u64::MAX);
                                assert(items_total(items@.subrange(0, i + 1), Counter::Errors) <= items_total(items@, Counter::Errors));
                                assert(t.count(Counter::Errors) + 1 <= u64::MAX);
                            }
                            t.record_error(msg.clone());
                            assert(entries(post) == entries(pre));
                            assert(item_messages(post) == item_messages(pre).push(*msg));
                            assert forall|c: Counter| #[trigger] t.count(c) == before.count(c)
                                + if c == Counter::Errors { 1int } else { 0int } by {}
                            assert forall|c: Counter| #[trigger] t.count(c) == own_of(*s, c)
                                + items_total(items@.subrange(0, i + 1), c) by {
                                assert(item_value(items@[i as int], c) == if c == Counter::Errors { 1int } else { 0int });
                            }
                        },
                    }
                    i = i + 1;
                }
                assert(items@.subrange(0, i as int) =~= items@);
                assert(items@.subrange(0, i as int) == items@);
                assert(t.local_error_log@ == messages(*s));
                t
            },
        }
    }
}

/// What entry `s` adds to counter `c` by itself.
fn own_value(s: &Snapshot, c: Counter) -> (r: u64)
    ensures
        r == own_of(*s, c),
{
    match s {
        Snapshot::Unreadable(_) => if c == Counter::Errors { 1 } else { 0 },
        Snapshot::File(n) => match c {
            Counter::Files => 1,
            Counter::Size => *n,
            _ => 0,
        },
        Snapshot::Link(n) => match c {
            Counter::Links => 1,
            Counter::Size => *n,
            _ => 0,
        },
        Snapshot::Other(n) => match c {
            Counter::Others => 1,
            Counter::Size => *n,
            _ => 0,
        },
        Snapshot::Unlistable(n, _) => match c {
            Counter::Errors => 1,
            Counter::Size => *n,
            _ => 0,
        },
        Snapshot::Dir(n, _) => if c == Counter::Size { *n } else { 0 },
    }
}

/// Whether the walk makes a directory node of `s`.
fn is_dir(s: &Snapshot) -> (r: bool)
    ensures
        r == (kind_of(*s) == Some(EntryKind::Dir)),
{
    match s {
        Snapshot::Unlistable(_, _) => true,
        Snapshot::Dir(_, _) => true,
        _ => false,
    }
}

/// Counter `c` of the walk over `s`, or `None` when it does not fit in `u64`.
pub fn checked_total(s: &Snapshot, c: Counter) -> (r: Option<u64>)
    ensures
        match r {
            Some(v) => v == total(*s, c),
            None => total(*s, c) > u64::MAX,
        },
    decreases s,
{
    match s {
        Snapshot::Dir(n, items) => {
            let mut acc: u64 = own_value(s, c);
            let mut i: usize = 0;
            assert(items@.subrange(0, 0) =~= Seq::<Result<Snapshot, String>>::empty());
            while i < items.len()
                invariant
                    *s == Snapshot::Dir(*n, *items),
                    i <= items@.len(),
                    acc == own_of(*s, c) + items_total(items@.subrange(0, i as int), c),
                decreases items.len() - i,
            {
                proof {
                    lemma_items_step(items@, i as int, c);
                    lemma_items_prefix(items@, i + 1, c);
                }
                let v: u64 = match &items[i] {
                    Ok(e) => {
                        proof {
                            assert(items@[i as int] == Ok::<Snapshot, String>(*e));
                            assert(decreases_to!(*s => (*s)->Dir_1));
                            assert((*s)->Dir_1 == *items);
                        }
                        match checked_total(e, c) {
                            Some(v) => {
                                if c == Counter::Dirs && is_dir(e) {
                                    if v == u64::MAX {
                                        return None;
                                    }
                                    v + 1
                                } else {
                                    v
                                }
                            },
                            None => {
                                return None;
                            },
                        }
                    },
                    Err(_) => if c == Counter::Errors { 1 } else { 0 },
                };
                match acc.checked_add(v) {
                    Some(a) => acc = a,
                    None => {
                        return None;
                    },
                }
                i = i + 1;
            }
            assert(items@.subrange(0, i as int) =~= items@);
            Some(acc)
        },
        _ => Some(own_value(s, c)),
    }
}

impl Tree {
    /// Walks `s` when all six counters fit in `u64`, and gives `None` otherwise.
    pub fn try_build(s: &Snapshot) -> (r: Option<Tree>)
        ensures
            r is Some <==> fits(*s),
            r matches Some(t) ==> walked(t, *s),
    {
        let ok = checked_total(s, Counter::Files).is_some() && checked_total(s, Counter::Dirs).is_some()
            && checked_total(s, Counter::Links).is_some() && checked_total(s, Counter::Others).is_some()
            && checked_total(s, Counter::Errors).is_some() && checked_total(s, Counter::Size).is_some();
        if ok {
            assert forall|c: Counter| #[trigger] total(*s, c) <= u64::MAX by {
                match c {
                    Counter::Files => {},
                    Counter::Dirs => {},
                    Counter::Links => {},
                    Counter::Others => {},
                    Counter::Errors => {},
                    Counter::Size => {},
                }
            }
            Some(Tree::build(s))
        } else {
            None
        }
    }
}

} // verus!
