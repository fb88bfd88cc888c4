use dirtree::tree::{EntryKind, Tree};
use dirtree::tree::Counter;
use dirtree::walk::{Snapshot, checked_total};

fn msg(s: &str) -> String {
    s.to_string()
}

#[test]
fn scenario_mixed_root() {
    let sub = Snapshot::Dir(0, vec![Ok(Snapshot::File(8192))]);
    let root = Snapshot::Dir(
        0,
        vec![Ok(Snapshot::File(4096)), Ok(sub), Ok(Snapshot::Link(0))],
    );
    let t = Tree::build(&root);
    assert_eq!(t.files, 2);
    assert_eq!(t.dirs, 1);
    assert_eq!(t.links, 1);
    assert_eq!(t.others, 0);
    assert_eq!(t.size, 12288);
    assert_eq!(t.errors, 0);
    assert_eq!(t.children.len(), 3);
    let s = &t.children[1];
    assert_eq!(s.kind, Some(EntryKind::Dir));
    assert_eq!(s.files, 1);
    assert_eq!(s.size, 8192);
    assert_eq!(s.children.len(), 1);
}

#[test]
fn scenario_unopenable_directory() {
    let t = Tree::build(&Snapshot::Unlistable(0, msg("permission denied")));
    assert_eq!(t.errors, 1);
    assert_eq!(t.dirs, 0);
    assert_eq!(t.files, 0);
    assert_eq!(t.size, 0);
    assert_eq!(t.local_error_log, vec![msg("permission denied")]);
    assert!(t.children.is_empty());
    assert_eq!(t.kind, Some(EntryKind::Dir));
}

#[test]
fn one_failed_file_among_ten() {
    let mut items = Vec::new();
    for i in 0..10u64 {
        if i == 4 {
            items.push(Ok(Snapshot::Unreadable(msg("no such file"))));
        } else {
            items.push(Ok(Snapshot::File(100 * (i + 1))));
        }
    }
    let t = Tree::build(&Snapshot::Dir(0, items));
    assert_eq!(t.errors, 1);
    assert_eq!(t.files, 9);
    assert_eq!(t.size, 5500 - 500);
    assert_eq!(t.children.len(), 10);
    assert!(t.local_error_log.is_empty());
    assert_eq!(t.children[4].errors, 1);
    assert_eq!(t.children[4].local_error_log, vec![msg("no such file")]);
    assert_eq!(t.children[4].kind, None);
    assert_eq!(t.children[3].size, 400);
}

#[test]
fn link_to_directory_is_not_followed() {
    let t = Tree::build(&Snapshot::Dir(0, vec![Ok(Snapshot::Link(12))]));
    assert_eq!(t.links, 1);
    assert_eq!(t.files, 0);
    assert_eq!(t.dirs, 0);
    assert_eq!(t.size, 12);
    let l = &t.children[0];
    assert_eq!(l.kind, Some(EntryKind::Link));
    assert_eq!(l.links, 1);
    assert!(l.children.is_empty());
}

#[test]
fn unreadable_listing_item_is_an_error_at_the_directory() {
    let t = Tree::build(&Snapshot::Dir(
        4096,
        vec![Ok(Snapshot::Other(0)), Err(msg("bad entry")), Ok(Snapshot::File(10))],
    ));
    assert_eq!(t.errors, 1);
    assert_eq!(t.local_error_log, vec![msg("bad entry")]);
    assert_eq!(t.children.len(), 2);
    assert_eq!(t.others, 1);
    assert_eq!(t.files, 1);
    assert_eq!(t.size, 4106);
}

#[test]
fn errors_roll_up_through_levels() {
    let deep = Snapshot::Dir(0, vec![Err(msg("e1")), Ok(Snapshot::Unlistable(5, msg("e2")))]);
    let t = Tree::build(&Snapshot::Dir(1, vec![Ok(deep), Ok(Snapshot::Unreadable(msg("e3")))]));
    assert_eq!(t.errors, 3);
    assert_eq!(t.dirs, 2);
    assert_eq!(t.size, 6);
    assert!(t.local_error_log.is_empty());
    assert_eq!(t.children[0].errors, 2);
    assert_eq!(t.children[0].dirs, 1);
}

#[test]
fn building_twice_gives_the_same_counters() {
    let make = |rev: bool| {
        let mut items = vec![
            Ok(Snapshot::File(3)),
            Ok(Snapshot::Dir(7, vec![Ok(Snapshot::Other(1)), Err(msg("x"))])),
            Ok(Snapshot::Link(2)),
        ];
        if rev {
            items.reverse();
        }
        Snapshot::Dir(0, items)
    };
    let a = Tree::build(&make(false));
    let b = Tree::build(&make(false));
    let c = Tree::build(&make(true));
    for t in [&b, &c] {
        assert_eq!(a.files, t.files);
        assert_eq!(a.dirs, t.dirs);
        assert_eq!(a.links, t.links);
        assert_eq!(a.others, t.others);
        assert_eq!(a.errors, t.errors);
        assert_eq!(a.size, t.size);
    }
    assert_eq!(a.size, 13);
    assert_eq!(a.errors, 1);
}

#[test]
fn single_entries() {
    let f = Tree::build(&Snapshot::File(4096));
    assert_eq!((f.files, f.size, f.kind), (1, 4096, Some(EntryKind::File)));
    let o = Tree::build(&Snapshot::Other(0));
    assert_eq!((o.others, o.files, o.links), (1, 0, 0));
    let u = Tree::build(&Snapshot::Unreadable(msg("gone")));
    assert_eq!((u.errors, u.size, u.kind), (1, 0, None));
    let e = Tree::build(&Snapshot::Dir(512, vec![]));
    assert_eq!((e.dirs, e.size, e.errors, e.children.len()), (0, 512, 0, 0));
}

#[test]
fn merge_and_record_by_hand() {
    let mut d = Tree::classified(EntryKind::Dir, 10);
    assert!(d.wants_listing());
    let c = Tree::classified(EntryKind::File, 5);
    assert!(!c.wants_listing());
    assert!(d.can_merge(&c));
    d.merge_child(c);
    let sub = Tree::classified(EntryKind::Dir, 1);
    d.merge_child(sub);
    d.record_error(msg("oops"));
    assert_eq!((d.files, d.dirs, d.size, d.errors), (1, 1, 16, 1));
    assert_eq!(d.children.len(), 2);
    let f = Tree::failed(msg("stat"));
    assert_eq!((f.errors, f.kind), (1, None));
}

#[test]
fn merge_refused_near_the_limit() {
    let mut big = Tree::classified(EntryKind::File, u64::MAX);
    big.kind = Some(EntryKind::Dir);
    let c = Tree::classified(EntryKind::File, 1);
    assert!(!big.can_merge(&c));
    let z = Tree::classified(EntryKind::File, 0);
    assert!(big.can_merge(&z));
}

#[test]
fn add_assign_sums_counters() {
    let mut a = Tree::classified(EntryKind::File, 7);
    let b = Tree::classified(EntryKind::Link, 3);
    a.add_assign(&b);
    assert_eq!((a.files, a.links, a.size), (1, 1, 10));
}

#[test]
fn unlistable_directory_keeps_its_own_size() {
    let t = Tree::build(&Snapshot::Unlistable(4096, msg("permission denied")));
    assert_eq!(t.size, 4096);
    assert_eq!(t.errors, 1);
    assert_eq!((t.dirs, t.files, t.links, t.others), (0, 0, 0, 0));
    assert_eq!(t.local_error_log, vec![msg("permission denied")]);
    assert!(t.children.is_empty());
}

#[test]
fn messages_stay_at_the_node_that_met_them() {
    let inner = Snapshot::Dir(0, vec![Err(msg("a")), Ok(Snapshot::Unreadable(msg("b"))), Err(msg("c"))]);
    let t = Tree::build(&Snapshot::Dir(0, vec![Err(msg("top")), Ok(inner)]));
    assert_eq!(t.local_error_log, vec![msg("top")]);
    assert_eq!(t.errors, 4);
    let d = &t.children[0];
    assert_eq!(d.local_error_log, vec![msg("a"), msg("c")]);
    assert_eq!(d.errors, 3);
    assert_eq!(d.children.len(), 1);
    assert_eq!(d.children[0].local_error_log, vec![msg("b")]);
}

#[test]
fn checked_totals_match_the_walk() {
    let s = Snapshot::Dir(
        10,
        vec![Ok(Snapshot::Dir(5, vec![Ok(Snapshot::File(3))])), Err(msg("x")), Ok(Snapshot::Link(1))],
    );
    assert_eq!(checked_total(&s, Counter::Size), Some(19));
    assert_eq!(checked_total(&s, Counter::Dirs), Some(1));
    assert_eq!(checked_total(&s, Counter::Errors), Some(1));
    assert_eq!(checked_total(&s, Counter::Files), Some(1));
    let t = Tree::try_build(&s).expect("fits");
    assert_eq!((t.size, t.dirs, t.errors, t.files, t.links), (19, 1, 1, 1, 1));
    assert_eq!(t.children[0].size, 8);
    assert_eq!(t.children[0].children[0].size, 3);
}

#[test]
fn try_build_refuses_an_overflowing_size() {
    let s = Snapshot::Dir(1, vec![Ok(Snapshot::File(u64::MAX))]);
    assert_eq!(checked_total(&s, Counter::Size), None);
    assert_eq!(checked_total(&s, Counter::Files), Some(1));
    assert!(Tree::try_build(&s).is_none());
    let ok = Snapshot::Dir(0, vec![Ok(Snapshot::File(u64::MAX))]);
    assert_eq!(Tree::try_build(&ok).map(|t| t.size), Some(u64::MAX));
}
