use vstd::prelude::*;

verus! {

/// The type of a filesystem entry, read without following a trailing link.
#[derive(Clone, Copy, Debug, PartialEq, Eq, Structural)]
pub enum EntryKind {
    File,
    Dir,
    Link,
    Other,
}

/// Names one of the six counters that a node carries.
#[derive(Clone, Copy, Debug, PartialEq, Eq, Structural)]
pub enum Counter {
    Files,
    Dirs,
    Links,
    Others,
    Errors,
    Size,
}

/// Aggregate statistics of one entry and, for a directory, of everything below it.
pub struct Tree {
    pub files: u64,
    pub dirs: u64,
    pub links: u64,
    pub others: u64,
    pub errors: u64,
    pub size: u64,
    /// What this node itself is; `None` when its metadata or size could not be had.
    pub kind: Option<EntryKind>,
    /// Errors observed at this node, not those of its children.
    pub local_error_log: Vec<String>,
    pub children: Vec<Tree>,
}

/// The sum of one counter over a sequence of nodes.
pub open spec fn sum_of(s: Seq<Tree>, c: Counter) -> nat
    decreases s.len(),
{
    if s.len() == 0 {
        0
    } else {
        sum_of(s.drop_last(), c) + s.last().count(c)
    }
}

/// How many nodes of a sequence are directories.
pub open spec fn dir_count(s: Seq<Tree>) -> nat
    decreases s.len(),
{
    if s.len() == 0 {
        0
    } else {
        dir_count(s.drop_last()) + if s.last().kind == Some(EntryKind::Dir) { 1nat } else { 0nat }
    }
}

/// Whether adding `n` to `a` stays within `u64`.
pub open spec fn room(a: u64, n: int) -> bool {
    a + n <= u64::MAX
}

impl Tree {
    pub open spec fn count(self, c: Counter) -> nat {
        match c {
            Counter::Files => self.files as nat,
            Counter::Dirs => self.dirs as nat,
            Counter::Links => self.links as nat,
            Counter::Others => self.others as nat,
            Counter::Errors => self.errors as nat,
            Counter::Size => self.size as nat,
        }
    }

    /// What this node contributes by itself, apart from its children's counters.
    /// For size that is whatever the children do not account for; that it is the
    /// entry's own real size is stated of a walk, in `law_aggregation`.
    pub open spec fn own(self, c: Counter) -> int {
        match c {
            Counter::Files => if self.kind == Some(EntryKind::File) { 1 } else { 0 },
            Counter::Links => if self.kind == Some(EntryKind::Link) { 1 } else { 0 },
            Counter::Others => if self.kind == Some(EntryKind::Other) { 1 } else { 0 },
            Counter::Dirs => dir_count(self.children@) as int,
            Counter::Errors => self.local_error_log@.len() as int,
            Counter::Size => self.size - sum_of(self.children@, Counter::Size),
        }
    }

    /// Every counter is the node's own contribution plus the children's sums, the
    /// node's own size is not negative, only directories have children, and a node
    /// without a kind is one recorded failure and nothing else.
    pub open spec fn wf(self) -> bool
        decreases self,
    {
        &&& forall|c: Counter| #[trigger] self.count(c) == self.own(c) + sum_of(self.children@, c)
        &&& self.size >= sum_of(self.children@, Counter::Size)
        &&& (self.kind != Some(EntryKind::Dir) ==> self.children@.len() == 0)
        &&& (self.kind is None ==> self.size == 0 && self.local_error_log@.len() == 1)
        &&& forall|i: int|
            0 <= i < self.children@.len() ==> (#[trigger] self.children@[i]).wf()
    }

    /// Whether `child` can be merged into this node without a counter leaving `u64`.
    pub open spec fn can_take(self, child: Tree) -> bool {
        &&& room(self.files, child.files as int)
        &&& room(self.dirs, child.dirs + if child.kind == Some(EntryKind::Dir) { 1int } else { 0int })
        &&& room(self.links, child.links as int)
        &&& room(self.others, child.others as int)
        &&& room(self.errors, child.errors as int)
        &&& room(self.size, child.size as int)
    }

    /// A node whose metadata or real size could not be had: one error, nothing else.
    pub fn failed(msg: String) -> (r: Tree)
        ensures
            r.wf(),
            r.kind is None,
            r.errors == 1,
            r.local_error_log@ == seq![msg],
            r.files == 0 && r.dirs == 0 && r.links == 0 && r.others == 0 && r.size == 0,
            r.children@.len() == 0,
    {
        let mut log: Vec<String> = Vec::new();
        log.push(msg);
        let r = Tree {
            files: 0,
            dirs: 0,
            links: 0,
            others: 0,
            errors: 1,
            size: 0,
            kind: None,
            local_error_log: log,
            children: Vec::new(),
        };
        assert(r.count(Counter::Errors) == r.own(Counter::Errors) + sum_of(r.children@, Counter::Errors));
        r
    }

    /// A node classified as `kind` with real size `size`, before any children.
    pub fn classified(kind: EntryKind, size: u64) -> (r: Tree)
        ensures
            r.wf(),
            r.kind == Some(kind),
            r.size == size,
            r.files == (if kind == EntryKind::File { 1u64 } else { 0u64 }),
            r.links == (if kind == EntryKind::Link { 1u64 } else { 0u64 }),
            r.others == (if kind == EntryKind::Other { 1u64 } else { 0u64 }),
            r.dirs == 0,
            r.errors == 0,
            r.local_error_log@ == Seq::<String>::empty(),
            r.children@.len() == 0,
    {
        let files: u64 = if kind == EntryKind::File { 1 } else { 0 };
        let links: u64 = if kind == EntryKind::Link { 1 } else { 0 };
        let others: u64 = if kind == EntryKind::Other { 1 } else { 0 };
        Tree {
            files,
            dirs: 0,
            links,
            others,
            errors: 0,
            size,
            kind: Some(kind),
            local_error_log: Vec::new(),
            children: Vec::new(),
        }
    }

    /// Whether the walk goes on to list this node's entries.
    pub fn wants_listing(&self) -> (r: bool)
        ensures
            r == (self.kind == Some(EntryKind::Dir)),
    {
        self.kind == Some(EntryKind::Dir)
    }

    /// Records an error observed at this node.
    pub fn record_error(&mut self, msg: String)
        requires
            old(self).wf(),
            old(self).kind is Some,
            room(old(self).errors, 1),
        ensures
            final(self).wf(),
            final(self).errors == old(self).errors + 1,
            final(self).local_error_log@ == old(self).local_error_log@.push(msg),
            final(self).files == old(self).files,
            final(self).dirs == old(self).dirs,
            final(self).links == old(self).links,
            final(self).others == old(self).others,
            final(self).size == old(self).size,
            final(self).kind == old(self).kind,
            final(self).children@ == old(self).children@,
    {
        self.errors = self.errors + 1;
        self.local_error_log.push(msg);
        assert forall|c: Counter|
            #[trigger] self.count(c) == self.own(c) + sum_of(self.children@, c) by {
            assert(old(self).count(c) == old(self).own(c) + sum_of(old(self).children@, c));
        }
    }

    /// Whether `child` can be merged into this node without a counter leaving `u64`.
    pub fn can_merge(&self, child: &Tree) -> (r: bool)
        ensures
            r == self.can_take(*child),
    {
        let extra: u64 = if child.kind == Some(EntryKind::Dir) { 1 } else { 0 };
        child.files <= u64::MAX - self.files && extra <= u64::MAX - self.dirs && child.dirs
            <= u64::MAX - self.dirs - extra && child.links <= u64::MAX - self.links
            && child.others <= u64::MAX - self.others && child.errors <= u64::MAX - self.errors
            && child.size <= u64::MAX - self.size
    }

    /// Adds the six counters of `rhs` into this node.
    pub fn add_assign(&mut self, rhs: &Tree)
        requires
            room(old(self).files, rhs.files as int),
            room(old(self).dirs, rhs.dirs as int),
            room(old(self).links, rhs.links as int),
            room(old(self).others, rhs.others as int),
            room(old(self).errors, rhs.errors as int),
            room(old(self).size, rhs.size as int),
        ensures
            forall|c: Counter| #[trigger] final(self).count(c) == old(self).count(c) + rhs.count(c),
            final(self).kind == old(self).kind,
            final(self).local_error_log@ == old(self).local_error_log@,
            final(self).children@ == old(self).children@,
    {
        self.files = self.files + rhs.files;
        self.dirs = self.dirs + rhs.dirs;
        self.links = self.links + rhs.links;
        self.others = self.others + rhs.others;
        self.errors = self.errors + rhs.errors;
        self.size = self.size + rhs.size;
    }

    /// Merges a finished child into this directory: its counters are added, a child
    /// directory is counted once more, and the child is appended.
    pub fn merge_child(&mut self, child: Tree)
        requires
            old(self).wf(),
            old(self).kind == Some(EntryKind::Dir),
            child.wf(),
            old(self).can_take(child),
        ensures
            final(self).wf(),
            final(self).kind == old(self).kind,
            final(self).local_error_log@ == old(self).local_error_log@,
            final(self).children@ == old(self).children@.push(child),
            forall|c: Counter| #[trigger] final(self).count(c) == old(self).count(c) + child.count(c)
                + if c == Counter::Dirs && child.kind == Some(EntryKind::Dir) { 1int } else { 0int },
    {
        let is_dir = child.kind == Some(EntryKind::Dir);
        self.add_assign(&child);
        let ghost mid = *self;
        assert(self.count(Counter::Dirs) == old(self).count(Counter::Dirs) + child.count(Counter::Dirs));
        if is_dir {
            self.dirs = self.dirs + 1;
        }
        let ghost before = self.children@;
        self.children.push(child);
        proof {
            let after = self.children@;
            assert(after.drop_last() =~= before);
            assert(dir_count(after) == dir_count(before) + if is_dir { 1nat } else { 0nat });
            assert forall|c: Counter| #[trigger] sum_of(after, c) == sum_of(before, c) + child.count(c) by {
                assert(after.last() == child);
            }
            assert forall|c: Counter|
                #[trigger] self.count(c) == old(self).count(c) + child.count(c)
                + if c == Counter::Dirs && is_dir { 1int } else { 0int } by {
                assert(mid.count(c) == old(self).count(c) + child.count(c));
            }
            assert forall|c: Counter|
                #[trigger] self.count(c) == self.own(c) + sum_of(self.children@, c) by {
                assert(old(self).count(c) == old(self).own(c) + sum_of(old(self).children@, c));
                assert(sum_of(after, c) == sum_of(before, c) + child.count(c));
                assert(self.count(c) == old(self).count(c) + child.count(c)
                    + if c == Counter::Dirs && is_dir { 1int } else { 0int });
            }
            assert(old(self).count(Counter::Size) == old(self).own(Counter::Size) + sum_of(before, Counter::Size));
            assert(self.count(Counter::Size) == old(self).count(Counter::Size) + child.count(Counter::Size));
            assert(self.size >= sum_of(self.children@, Counter::Size));
            assert forall|i: int| 0 <= i < after.len() implies (#[trigger] after[i]).wf() by {
                if i < before.len() {
                    assert(after[i] == before[i]);
                }
            }
        }
    }
}

} // verus!
