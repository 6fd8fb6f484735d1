use vstd::prelude::*;

verus! {

/// One entry of a directory listing, as a Scan Worker sees it.  A `None`
/// name or path stands for text that is not validly encoded.
pub struct DirEntry {
    pub name: Option<String>,
    pub path: Option<String>,
    pub is_dir: bool,
}

/// One entry of a modelled directory: like `DirEntry`, but a subdirectory
/// names the index of its own directory in the tree instead of a flag.
pub struct FsEntry {
    pub name: Option<String>,
    pub path: Option<String>,
    pub subdir: Option<usize>,
}

/// One directory of a modelled tree: its full path, whether listing it
/// succeeds, the error reported when it does not, and its entries.
pub struct FsDir {
    pub path: String,
    pub readable: bool,
    pub error: String,
    pub entries: Vec<FsEntry>,
}

/// A finite, acyclic directory tree, the input of one indexing run.  The
/// directory at index 0 is the root; every other directory is the target of
/// exactly one subdirectory entry of a directory before it.
pub struct FsTree {
    pub dirs: Vec<FsDir>,
}

impl FsTree {
    pub open spec fn dir_count(self) -> int {
        self.dirs@.len() as int
    }

    pub open spec fn n_entries(self, i: int) -> int {
        self.dirs@[i].entries@.len() as int
    }

    pub open spec fn entry(self, i: int, k: int) -> FsEntry {
        self.dirs@[i].entries@[k]
    }

    /// Entry `k` of directory `i` is a subdirectory whose contents are
    /// directory `j` of the tree.
    pub open spec fn child_ref(self, i: int, k: int, j: int) -> bool {
        &&& 0 <= i < self.dir_count()
        &&& 0 <= k < self.n_entries(i)
        &&& self.entry(i, k).subdir matches Some(j2) && j == j2 as int
    }

    /// A well-formed tree: subdirectory references point forward, at a
    /// directory recorded under the entry's own path, and every directory
    /// but the root is referenced exactly once.
    pub open spec fn wf(self) -> bool {
        &&& 1 <= self.dir_count()
        &&& forall|i: int, k: int, j: int| #[trigger] self.child_ref(i, k, j) ==> {
            &&& i < j < self.dir_count()
            &&& (self.entry(i, k).path matches Some(p) ==> p@ == self.dirs@[j].path@)
        }
        &&& forall|i1: int, k1: int, i2: int, k2: int, j: int|
            #[trigger] self.child_ref(i1, k1, j) && #[trigger] self.child_ref(i2, k2, j)
                ==> i1 == i2 && k1 == k2
        &&& forall|j: int| 1 <= j < self.dir_count() ==> #[trigger] self.referenced(j)
    }

    /// Some entry of some directory refers to directory `j`.
    pub open spec fn referenced(self, j: int) -> bool {
        exists|i: int, k: int| #[trigger] self.child_ref(i, k, j)
    }

    /// The rows directory `i` contributes when its task runs: one per entry,
    /// none when the directory cannot be read.
    pub open spec fn listed(self, i: int) -> int {
        if self.dirs@[i].readable {
            self.n_entries(i)
        } else {
            0
        }
    }

    /// Rows contributed by directories `0 .. n` together.
    pub open spec fn sum_all(self, n: int) -> int
        decreases n,
    {
        if n <= 0 {
            0
        } else {
            self.sum_all(n - 1) + self.listed(n - 1)
        }
    }

    /// Rows contributed by the directories of the set `s` among `0 .. n`.
    pub open spec fn sum_done(self, s: Set<int>, n: int) -> int
        decreases n,
    {
        if n <= 0 {
            0
        } else {
            self.sum_done(s, n - 1) + if s.contains(n - 1) {
                self.listed(n - 1)
            } else {
                0
            }
        }
    }

    /// Rows a run of the whole tree contributes.
    pub open spec fn total_entries(self) -> int {
        self.sum_all(self.dir_count())
    }

    pub proof fn lemma_sum_done_le(self, s: Set<int>, n: int)
        ensures
            0 <= self.sum_done(s, n) <= self.sum_all(n),
        decreases n,
    {
        if n > 0 {
            self.lemma_sum_done_le(s, n - 1);
        }
    }

    pub proof fn lemma_sum_done_insert(self, s: Set<int>, j: int, n: int)
        requires
            0 <= j < n,
            !s.contains(j),
        ensures
            self.sum_done(s.insert(j), n) == self.sum_done(s, n) + self.listed(j),
        decreases n,
    {
        if j == n - 1 {
            assert forall|m: int| 0 < m < n implies self.sum_done(s.insert(j), m)
                == self.sum_done(s, m) by {
                self.lemma_sum_done_frame(s, s.insert(j), m);
            }
            self.lemma_sum_done_frame(s, s.insert(j), n - 1);
        } else {
            self.lemma_sum_done_insert(s, j, n - 1);
        }
    }

    /// Two sets that agree below `n` contribute the same rows there.
    pub proof fn lemma_sum_done_frame(self, s1: Set<int>, s2: Set<int>, n: int)
        requires
            forall|m: int| 0 <= m < n ==> s1.contains(m) == s2.contains(m),
        ensures
            self.sum_done(s1, n) == self.sum_done(s2, n),
        decreases n,
    {
        if n > 0 {
            self.lemma_sum_done_frame(s1, s2, n - 1);
        }
    }

    /// Some entry of a readable directory is not validly encoded text: the
    /// one cause of the encoding abort.
    pub open spec fn has_bad_entry(self) -> bool {
        exists|i: int, k: int|
            0 <= i < self.dir_count() && self.dirs@[i].readable && 0 <= k < self.n_entries(i)
                && !((#[trigger] self.entry(i, k)).name is Some && self.entry(i, k).path is Some)
    }

    /// Directories one run's crawl reaches: the root, and every directory
    /// whose referencing directory is reached and readable.
    pub open spec fn crawlable(self, j: int) -> bool
        decreases j,
    {
        if j == 0 {
            true
        } else {
            let i = parent_dir(self, j);
            0 <= i < j && self.dirs@[i].readable && self.crawlable(i)
        }
    }

    /// How many directories among `0 .. n` the set holds that cannot be
    /// read.
    pub open spec fn unreadable_done(self, s: Set<int>, n: int) -> int
        decreases n,
    {
        if n <= 0 {
            0
        } else {
            self.unreadable_done(s, n - 1) + if s.contains(n - 1) && !self.dirs@[n
                - 1].readable {
                1int
            } else {
                0int
            }
        }
    }

    /// How many directories among `0 .. n` the crawl reaches but cannot
    /// read: the number of non-fatal errors a full run records.
    pub open spec fn unreadable_crawlable(self, n: int) -> int
        decreases n,
    {
        if n <= 0 {
            0
        } else {
            self.unreadable_crawlable(n - 1) + if self.crawlable(n - 1) && !self.dirs@[n
                - 1].readable {
                1int
            } else {
                0int
            }
        }
    }

    /// Rows a full run adds: one per entry of each readable directory the
    /// crawl reaches.
    pub open spec fn sum_crawlable(self, n: int) -> int
        decreases n,
    {
        if n <= 0 {
            0
        } else {
            self.sum_crawlable(n - 1) + if self.crawlable(n - 1) {
                self.listed(n - 1)
            } else {
                0int
            }
        }
    }

    /// A set that agrees with `crawlable` below `n` contributes what a full
    /// run adds.
    pub proof fn lemma_sum_done_is_crawlable(self, s: Set<int>, n: int)
        requires
            forall|j: int| 0 <= j < n ==> s.contains(j) == self.crawlable(j),
        ensures
            self.sum_done(s, n) == self.sum_crawlable(n),
        decreases n,
    {
        if n > 0 {
            self.lemma_sum_done_is_crawlable(s, n - 1);
        }
    }

    pub proof fn lemma_unreadable_done_insert(self, s: Set<int>, j: int, n: int)
        requires
            0 <= j < n,
            !s.contains(j),
        ensures
            self.unreadable_done(s.insert(j), n) == self.unreadable_done(s, n) + if self.dirs@[j].readable {
                0int
            } else {
                1int
            },
        decreases n,
    {
        if j == n - 1 {
            assert forall|m: int| 0 < m < n implies self.unreadable_done(s.insert(j), m)
                == self.unreadable_done(s, m) by {
                self.lemma_unreadable_done_frame(s, s.insert(j), m);
            }
            self.lemma_unreadable_done_frame(s, s.insert(j), n - 1);
        } else {
            self.lemma_unreadable_done_insert(s, j, n - 1);
        }
    }

    /// Two sets that agree below `n` count the same there.
    pub proof fn lemma_unreadable_done_frame(self, s1: Set<int>, s2: Set<int>, n: int)
        requires
            forall|m: int| 0 <= m < n ==> s1.contains(m) == s2.contains(m),
        ensures
            self.unreadable_done(s1, n) == self.unreadable_done(s2, n),
        decreases n,
    {
        if n > 0 {
            self.lemma_unreadable_done_frame(s1, s2, n - 1);
        }
    }

    /// A set that agrees with `crawlable` below `n` counts what a full run
    /// records.
    pub proof fn lemma_unreadable_done_crawlable(self, s: Set<int>, n: int)
        requires
            forall|j: int| 0 <= j < n ==> s.contains(j) == self.crawlable(j),
        ensures
            self.unreadable_done(s, n) == self.unreadable_crawlable(n),
        decreases n,
    {
        if n > 0 {
            self.lemma_unreadable_done_crawlable(s, n - 1);
        }
    }

    /// A set holding nothing below `n` counts nothing.
    pub proof fn lemma_unreadable_done_none(self, s: Set<int>, n: int)
        requires
            forall|m: int| 0 <= m < n ==> !s.contains(m),
        ensures
            self.unreadable_done(s, n) == 0,
        decreases n,
    {
        if n > 0 {
            self.lemma_unreadable_done_none(s, n - 1);
        }
    }

    /// A set holding nothing below `n` contributes nothing.
    pub proof fn lemma_sum_done_none(self, s: Set<int>, n: int)
        requires
            forall|m: int| 0 <= m < n ==> !s.contains(m),
        ensures
            self.sum_done(s, n) == 0,
        decreases n,
    {
        if n > 0 {
            self.lemma_sum_done_none(s, n - 1);
        }
    }

    /// A set holding every index below `n` contributes everything.
    pub proof fn lemma_sum_done_full(self, s: Set<int>, n: int)
        requires
            forall|m: int| 0 <= m < n ==> s.contains(m),
        ensures
            self.sum_done(s, n) == self.sum_all(n),
        decreases n,
    {
        if n > 0 {
            self.lemma_sum_done_full(s, n - 1);
        }
    }
}

/// The directory and listing position of the one entry referencing `j`.
pub open spec fn parent_of(tree: FsTree, j: int) -> (int, int) {
    choose|i: int, k: int| #[trigger] tree.child_ref(i, k, j)
}

/// The directory whose listing references `j`.
pub open spec fn parent_dir(tree: FsTree, j: int) -> int {
    parent_of(tree, j).0
}

/// In a well-formed tree the reference to a directory is unique, so every
/// actual reference is the one `parent_of` names.
pub proof fn lemma_parent_dir(tree: FsTree, i: int, k: int, j: int)
    requires
        tree.wf(),
        tree.child_ref(i, k, j),
    ensures
        parent_of(tree, j) == (i, k),
        parent_dir(tree, j) == i,
{
    let (i2, k2) = parent_of(tree, j);
    assert(tree.child_ref(i2, k2, j));
}

/// A crawled directory is crawl-reachable: its chain of referencing
/// directories is crawled and readable, down to the root.
pub proof fn lemma_done_crawlable(tree: FsTree, done: Set<int>, j: int)
    requires
        tree.wf(),
        forall|j2: int|
            1 <= j2 < tree.dir_count() && #[trigger] done.contains(j2) ==> done.contains(
                parent_dir(tree, j2),
            ) && tree.dirs@[parent_dir(tree, j2)].readable,
        done.contains(j),
        0 <= j < tree.dir_count(),
    ensures
        tree.crawlable(j),
    decreases j,
{
    if j > 0 {
        assert(tree.referenced(j));
        let (i, k) = choose|i: int, k: int| #[trigger] tree.child_ref(i, k, j);
        assert(tree.child_ref(i, k, j));
        lemma_parent_dir(tree, i, k, j);
        lemma_done_crawlable(tree, done, i);
    }
}

/// At quiescence, every crawl-reachable directory was crawled: the set is
/// closed under references out of readable crawled directories.
pub proof fn lemma_crawlable_done(tree: FsTree, done: Set<int>, j: int)
    requires
        tree.wf(),
        done.contains(0),
        forall|i: int, k: int, j2: int|
            #[trigger] tree.child_ref(i, k, j2) && done.contains(i) && tree.dirs@[i].readable
                ==> done.contains(j2),
        tree.crawlable(j),
        0 <= j < tree.dir_count(),
    ensures
        done.contains(j),
    decreases j,
{
    if j > 0 {
        let i = parent_dir(tree, j);
        lemma_crawlable_done(tree, done, i);
        assert(tree.referenced(j));
        let (i2, k2) = choose|i2: int, k2: int| #[trigger] tree.child_ref(i2, k2, j);
        assert(tree.child_ref(i2, k2, j));
        lemma_parent_dir(tree, i2, k2, j);
    }
}

/// In a well-formed tree, a set of crawled directories that holds the root
/// and follows every subdirectory reference out of a crawled directory
/// holds every directory: termination reaches the whole tree.
pub proof fn lemma_all_crawled(tree: FsTree, done: Set<int>, j: int)
    requires
        tree.wf(),
        done.contains(0),
        forall|i: int, k: int, j2: int|
            #[trigger] tree.child_ref(i, k, j2) && done.contains(i) ==> done.contains(j2),
        0 <= j < tree.dir_count(),
    ensures
        done.contains(j),
    decreases j,
{
    if j > 0 {
        assert(tree.referenced(j));
        let (i, k) = choose|i: int, k: int| #[trigger] tree.child_ref(i, k, j);
        assert(tree.child_ref(i, k, j));
        lemma_all_crawled(tree, done, i);
    }
}

/// The listing a Scan Worker receives for one modelled directory: its
/// entries in order, or the recorded error when it cannot be read.
pub fn listing_of(d: &FsDir) -> (r: Result<Vec<DirEntry>, String>)
    ensures
        match r {
            Ok(es) => {
                &&& d.readable
                &&& es@.len() == d.entries@.len()
                &&& forall|k: int|
                    0 <= k < es@.len() ==> {
                        let e = #[trigger] es@[k];
                        &&& e.name == d.entries@[k].name
                        &&& e.path == d.entries@[k].path
                        &&& e.is_dir == (d.entries@[k].subdir is Some)
                    }
            },
            Err(m) => !d.readable && m@ == d.error@,
        },
{
    if d.readable {
        let mut es: Vec<DirEntry> = Vec::new();
        let mut k: usize = 0;
        while k < d.entries.len()
            invariant
                k <= d.entries@.len(),
                es@.len() == k,
                forall|x: int|
                    0 <= x < k ==> {
                        let e = #[trigger] es@[x];
                        &&& e.name == d.entries@[x].name
                        &&& e.path == d.entries@[x].path
                        &&& e.is_dir == (d.entries@[x].subdir is Some)
                    },
            decreases d.entries@.len() - k,
        {
            let me = &d.entries[k];
            es.push(
                DirEntry {
                    name: clone_opt_string(&me.name),
                    path: clone_opt_string(&me.path),
                    is_dir: me.subdir.is_some(),
                },
            );
            k += 1;
        }
        Ok(es)
    } else {
        Err(d.error.clone())
    }
}

fn clone_opt_string(o: &Option<String>) -> (r: Option<String>)
    ensures
        r == *o,
{
    match o {
        Some(s) => Some(s.clone()),
        None => None,
    }
}

} // verus!
