use vstd::prelude::*;

use crate::tree::DirEntry;
use crate::tree::FsTree;
use crate::tree::lemma_all_crawled;
use crate::tree::lemma_crawlable_done;
use crate::tree::lemma_done_crawlable;
use crate::tree::lemma_parent_dir;
use crate::tree::parent_dir;
use crate::tree::listing_of;
use crate::writer::FileRow;
use crate::writer::insert_file_row;
use crate::writer::rows_of;

verus! {

/// A failure scoped to one task: the directory at `path` could not be
/// listed; the run goes on without its contents.
#[derive(Debug)]
pub struct NonFatalIndexError {
    pub path: String,
    pub error: String,
}

/// A failure that aborts the whole run.
#[derive(Debug)]
pub enum IndexError {
    /// The backing store failed on a write.
    Sqlite(rusqlite::Error),
    /// The root's own identifier could not be obtained before crawling.
    GetRootDir(String),
    /// An entry's name or path is not validly encoded text.
    Utf8,
    /// The reply carrying a generated identifier was lost.
    GetId,
}

/// One unit of work: list the directory at `path`; every row it yields is a
/// child of `parent_id`.
#[derive(Debug, Clone)]
pub struct Task {
    pub path: String,
    pub parent_id: i64,
}

/// The shared state of one indexing run: the task queue, the recorded
/// non-fatal errors, and the Progress Tracker's counters.
pub struct Inner {
    pub errors: Vec<NonFatalIndexError>,
    pub todo: Vec<Task>,
    pub done_first: bool,
    pub done: usize,
    pub queued: usize,
    pub spawned: usize,
    pub root_id: i64,
}

/// The Orchestrator's state: running until the quiescence predicate holds
/// (completed) or a fatal error arrives (aborted).
pub enum RunState {
    Running,
    Completed,
    Aborted,
}

impl Inner {
    /// Counters are consistent: a task is counted done only after it was
    /// spawned, and spawned only after it was queued.
    pub open spec fn wf(self) -> bool {
        self.done <= self.spawned <= self.queued
    }

    /// The quiescence predicate: no task is pending or in flight, and the
    /// root's own listing has finished.
    pub open spec fn quiescent(self) -> bool {
        self.queued == self.done && self.done_first
    }

    /// The check the Orchestrator runs on every worker-completion
    /// notification: `todo == 0 && doing == 0 && done_first`.
    pub fn check_done(&self) -> (r: bool)
        requires
            self.wf(),
        ensures
            r == self.quiescent(),
    {
        let todo = self.queued - self.done;
        let doing = self.spawned - self.done;
        todo == 0 && doing == 0 && self.done_first
    }

    /// The Scan Worker's handling of the Metadata Writer's reply for one
    /// entry.  `None` — the reply channel was dropped before an identifier
    /// arrived — is the fatal identifier-loss error.
    pub fn index_direntry(reply: Option<i64>) -> (r: Result<i64, IndexError>)
        ensures
            match reply {
                Some(id) => r matches Ok(i) && i == id,
                None => r matches Err(e) && e is GetId,
            },
    {
        match reply {
            Some(id) => Ok(id),
            None => Err(IndexError::GetId),
        }
    }
}

/// An entry whose name and path are both validly encoded text.
pub open spec fn entry_ok(e: DirEntry) -> bool {
    e.name is Some && e.path is Some
}

/// The number of subdirectories among the first `k` entries of a listing.
pub open spec fn ndirs(es: Seq<DirEntry>, k: int) -> int
    decreases k,
{
    if k <= 0 {
        0
    } else {
        ndirs(es, k - 1) + if es[k - 1].is_dir {
            1int
        } else {
            0int
        }
    }
}

pub proof fn lemma_ndirs_le(es: Seq<DirEntry>, k: int)
    ensures
        0 <= ndirs(es, k) <= if k <= 0 {
            0
        } else {
            k
        },
    decreases k,
{
    if k > 0 {
        lemma_ndirs_le(es, k - 1);
    }
}

pub proof fn lemma_ndirs_mono(es: Seq<DirEntry>, a: int, b: int)
    requires
        a <= b,
    ensures
        ndirs(es, a) <= ndirs(es, b),
        0 <= a < b && es[a].is_dir ==> ndirs(es, a) < ndirs(es, b),
    decreases b - a,
{
    if a < b {
        lemma_ndirs_mono(es, a, b - 1);
    }
}

/// Every position below `ndirs(es, u)` is taken by exactly one
/// subdirectory entry: the counting map is onto.
pub proof fn lemma_ndirs_surj(es: Seq<DirEntry>, u: int, c: int)
    requires
        0 <= u <= es.len(),
        0 <= c < ndirs(es, u),
    ensures
        exists|y: int| 0 <= y < u && (#[trigger] es[y]).is_dir && ndirs(es, y) == c,
    decreases u,
{
    lemma_ndirs_le(es, u - 1);
    if c < ndirs(es, u - 1) {
        lemma_ndirs_surj(es, u - 1, c);
    } else {
        assert(es[u - 1].is_dir && ndirs(es, u - 1) == c);
    }
}

/// How many entries a listing will put through the writer.
pub open spec fn listing_len(listing: Result<Vec<DirEntry>, String>) -> int {
    match listing {
        Ok(es) => es@.len() as int,
        Err(_) => 0,
    }
}

/// The writer appended one row per entry of `es` up to `upto`, in listing
/// order, each under the task's parent and under an identifier no earlier
/// row carries.
pub open spec fn rows_appended(
    before: Seq<FileRow>,
    after: Seq<FileRow>,
    es: Seq<DirEntry>,
    upto: int,
    parent: int,
) -> bool {
    &&& after.len() == before.len() + upto
    &&& after.subrange(0, before.len() as int) == before
    &&& forall|k: int|
        0 <= k < upto ==> {
            let row = #[trigger] after[before.len() + k];
            &&& (es[k].name matches Some(nm) && row.name == nm@)
            &&& row.parent == parent
            &&& (es[k].path matches Some(p) && row.dir == p@)
            &&& forall|m: int| 0 <= m < before.len() + k ==> (#[trigger] after[m]).id != row.id
        }
}

/// One task was enqueued per subdirectory among the entries of `es` up to
/// `upto`, in listing order, each carrying the entry's path and the
/// identifier of the row that entry got (`row0` is where those rows start
/// in `rows`).
pub open spec fn tasks_appended(
    before: Seq<Task>,
    after: Seq<Task>,
    es: Seq<DirEntry>,
    upto: int,
    row0: int,
    rows: Seq<FileRow>,
) -> bool {
    &&& after.len() == before.len() + ndirs(es, upto)
    &&& after.subrange(0, before.len() as int) == before
    &&& forall|k: int|
        0 <= k < upto && (#[trigger] es[k]).is_dir ==> {
            let t = after[before.len() + ndirs(es, k)];
            &&& (es[k].path matches Some(p) && t.path@ == p@)
            &&& t.parent_id as int == rows[row0 + k].id
        }
}

/// A worker that stopped at entry `k` of a successful listing with a fatal
/// error: the entries before `k` were written and their subdirectories
/// enqueued exactly as on success, and the error is the encoding error
/// precisely when entry `k` is not validly encoded text.
pub open spec fn worker_stopped(
    rows0: Seq<FileRow>,
    rows1: Seq<FileRow>,
    todo0: Seq<Task>,
    todo1: Seq<Task>,
    es: Seq<DirEntry>,
    k: int,
    parent: int,
    e: IndexError,
) -> bool {
    &&& 0 <= k < es.len()
    &&& rows_appended(rows0, rows1, es, k, parent)
    &&& tasks_appended(todo0, todo1, es, k, rows0.len() as int, rows1)
    &&& forall|m: int| 0 <= m < k ==> entry_ok(#[trigger] es[m])
    &&& ((e is Utf8) <==> !entry_ok(es[k]))
}

impl Inner {
    /// The Scan Worker: list one directory and put every entry through the
    /// Metadata Writer; a subdirectory's generated identifier seeds a new
    /// task.  A listing that cannot be obtained is recorded as the task's
    /// one non-fatal error; a writer failure or a lost reply aborts.  Either
    /// way, a finished root task raises `done_first`.
    pub fn process_task(
        &mut self,
        conn: &mut rusqlite::Connection,
        task: Task,
        listing: Result<Vec<DirEntry>, String>,
    ) -> (r: Result<(), IndexError>)
        requires
            old(self).queued + listing_len(listing) <= usize::MAX,
        ensures
            final(self).spawned == old(self).spawned,
            final(self).done == old(self).done,
            final(self).root_id == old(self).root_id,
            match r {
                Ok(()) => {
                    &&& final(self).done_first == (old(self).done_first || task.parent_id == old(
                        self,
                    ).root_id)
                    &&& match listing {
                        Err(m) => {
                            &&& final(self).errors@.len() == old(self).errors@.len() + 1
                            &&& final(self).errors@.drop_last() == old(self).errors@
                            &&& final(self).errors@.last().path@ == task.path@
                            &&& final(self).errors@.last().error@ == m@
                            &&& final(self).todo@ == old(self).todo@
                            &&& final(self).queued == old(self).queued
                            &&& rows_of(*final(conn)) == rows_of(*old(conn))
                        },
                        Ok(es) => {
                            &&& final(self).errors@ == old(self).errors@
                            &&& forall|k: int| 0 <= k < es@.len() ==> entry_ok(#[trigger] es@[k])
                            &&& rows_appended(
                                rows_of(*old(conn)),
                                rows_of(*final(conn)),
                                es@,
                                es@.len() as int,
                                task.parent_id as int,
                            )
                            &&& tasks_appended(
                                old(self).todo@,
                                final(self).todo@,
                                es@,
                                es@.len() as int,
                                rows_of(*old(conn)).len() as int,
                                rows_of(*final(conn)),
                            )
                            &&& final(self).queued == old(self).queued + ndirs(
                                es@,
                                es@.len() as int,
                            )
                        },
                    }
                },
                Err(e) => {
                    &&& (e is Utf8 || e is Sqlite)
                    &&& listing matches Ok(es) && exists|k: int|
                        worker_stopped(
                            rows_of(*old(conn)),
                            rows_of(*final(conn)),
                            old(self).todo@,
                            final(self).todo@,
                            es@,
                            k,
                            task.parent_id as int,
                            e,
                        )
                    &&& final(self).errors@ == old(self).errors@
                    &&& final(self).done_first == old(self).done_first
                    &&& final(self).queued >= old(self).queued
                    &&& final(self).queued - old(self).queued == final(self).todo@.len() - old(
                        self,
                    ).todo@.len()
                },
            },
            (listing matches Ok(es) && es@.len() == 0) ==> r is Ok,
    {
        match listing {
            Err(m) => {
                self.errors.push(NonFatalIndexError { path: task.path.clone(), error: m });
            },
            Ok(entries) => {
                let ghost rows0 = rows_of(*conn);
                let ghost es = entries@;
                let ghost todo0 = self.todo@;
                proof {
                    assert(rows_of(*conn).subrange(0, rows0.len() as int) =~= rows0);
                    assert(self.todo@.subrange(0, todo0.len() as int) =~= todo0);
                }
                let mut k: usize = 0;
                while k < entries.len()
                    invariant
                        k <= entries@.len(),
                        entries@ == es,
                        listing matches Ok(l) && l@ == es,
                        self.spawned == old(self).spawned,
                        self.done == old(self).done,
                        self.root_id == old(self).root_id,
                        self.done_first == old(self).done_first,
                        self.errors@ == old(self).errors@,
                        todo0 == old(self).todo@,
                        old(self).queued + es.len() <= usize::MAX,
                        rows0 == rows_of(*old(conn)),
                        forall|x: int| 0 <= x < k ==> entry_ok(#[trigger] es[x]),
                        rows_appended(rows0, rows_of(*conn), es, k as int, task.parent_id as int),
                        tasks_appended(
                            todo0,
                            self.todo@,
                            es,
                            k as int,
                            rows0.len() as int,
                            rows_of(*conn),
                        ),
                        self.queued == old(self).queued + ndirs(es, k as int),
                    decreases entries@.len() - k,
                {
                    proof {
                        lemma_ndirs_le(es, k as int);
                    }
                    let ghost pre_todo = self.todo@;
                    let ghost pre_rows = rows_of(*conn);
                    let entry = &entries[k];
                    let resp = Indexer::handle_db_message(
                        conn,
                        &entry.name,
                        &entry.path,
                        task.parent_id,
                    );
                    let reply = match resp {
                        Ok(id) => Some(id),
                        Err(e) => {
                            proof {
                                assert(worker_stopped(
                                    rows0,
                                    rows_of(*conn),
                                    old(self).todo@,
                                    self.todo@,
                                    es,
                                    k as int,
                                    task.parent_id as int,
                                    e,
                                ));
                            }
                            return Err(e);
                        },
                    };
                    let id = match Self::index_direntry(reply) {
                        Ok(i) => i,
                        Err(e) => return Err(e),
                    };
                    if entry.is_dir {
                        let p = match &entry.path {
                            Some(p) => p.clone(),
                            None => {
                                proof {
                                    assert(false);
                                }
                                String::new()
                            },
                        };
                        self.todo.push(Task { path: p, parent_id: id });
                        self.queued = self.queued + 1;
                    }
                    proof {
                        let kk = k as int;
                        assert(rows_of(*conn).subrange(0, rows0.len() as int) =~= rows0);
                        assert(self.todo@.subrange(0, todo0.len() as int) =~= todo0);
                        assert forall|x: int|
                            0 <= x < kk + 1 && (#[trigger] es[x]).is_dir implies {
                                let t = self.todo@[todo0.len() + ndirs(es, x)];
                                &&& (es[x].path matches Some(p) && t.path@ == p@)
                                &&& t.parent_id as int == rows_of(*conn)[rows0.len() + x].id
                            } by {
                            if x < kk {
                                lemma_ndirs_le(es, x);
                                lemma_ndirs_mono(es, x, kk);
                                assert(pre_todo[todo0.len() + ndirs(es, x)] == self.todo@[todo0.len()
                                    + ndirs(es, x)]);
                                assert(pre_rows[rows0.len() + x] == rows_of(*conn)[rows0.len() + x]);
                            }
                        }
                    }
                    k += 1;
                }
            },
        }
        if task.parent_id == self.root_id {
            self.done_first = true;
        }
        Ok(())
    }
}

/// The indexing run as a whole: its shared state and the Orchestrator's
/// control state.
pub struct Indexer {
    pub inner: Inner,
    pub state: RunState,
}

/// Some entry of the tree is a subdirectory recorded at path `p`.
pub open spec fn tree_has_dir_at(tree: FsTree, p: Seq<char>) -> bool {
    exists|i: int, k: int, j: int|
        #[trigger] tree.child_ref(i, k, j) && (tree.entry(i, k).path matches Some(q) && q@ == p)
}

/// Every row added from position `lo` on points at `root_id` or at an
/// earlier added row that records a directory of the tree.
pub open spec fn parents_linked(rows: Seq<FileRow>, lo: int, root_id: int, tree: FsTree) -> bool {
    forall|x: int|
        lo <= x < rows.len() ==> (#[trigger] rows[x]).parent == root_id || exists|m: int|
            lo <= m < x && (#[trigger] rows[m]).id == rows[x].parent && tree_has_dir_at(
                tree,
                rows[m].dir,
            )
}

/// `j` is the model directory some pending task stands for.
pub open spec fn in_queue(q: Seq<usize>, j: int) -> bool {
    exists|k: int| 0 <= k < q.len() && (#[trigger] q[k]) as int == j
}

/// Pending task `t` stands for model directory `j`: it carries that
/// directory's path, and a parent identifier that is the root's or that of
/// a directory row this run added (`rows` from `lo` on).
pub open spec fn task_matches(
    tree: FsTree,
    t: Task,
    j: int,
    root_id: i64,
    lo: int,
    rows: Seq<FileRow>,
) -> bool {
    &&& 0 <= j < tree.dir_count()
    &&& t.path@ == tree.dirs@[j].path@
    &&& (t.parent_id == root_id || exists|m: int|
        lo <= m < rows.len() && (#[trigger] rows[m]).id == t.parent_id as int && tree_has_dir_at(
            tree,
            rows[m].dir,
        ))
}

impl Indexer {
    /// Builds a run over a root whose row already exists: seeds the root
    /// task, which counts as one queued task from the start.  Failing to
    /// obtain the root's own identifier is fatal.
    pub fn new(root_dir: Result<i64, String>, path: String) -> (r: Result<Indexer, IndexError>)
        ensures
            match root_dir {
                Ok(root_id) => r matches Ok(idx) && {
                    &&& idx.inner.root_id == root_id
                    &&& idx.inner.queued == 1
                    &&& idx.inner.spawned == 0
                    &&& idx.inner.done == 0
                    &&& !idx.inner.done_first
                    &&& idx.inner.errors@.len() == 0
                    &&& idx.inner.todo@.len() == 1
                    &&& idx.inner.todo@[0].path@ == path@
                    &&& idx.inner.todo@[0].parent_id == root_id
                    &&& idx.state is Running
                },
                Err(m) => r matches Err(e) && e matches IndexError::GetRootDir(m2) && m2@ == m@,
            },
    {
        let root_id = match root_dir {
            Ok(id) => id,
            Err(m) => return Err(IndexError::GetRootDir(m)),
        };
        let mut todo: Vec<Task> = Vec::new();
        todo.push(Task { path, parent_id: root_id });
        Ok(
            Indexer {
                inner: Inner {
                    errors: Vec::new(),
                    todo,
                    done_first: false,
                    done: 0,
                    queued: 1,
                    spawned: 0,
                    root_id,
                },
                state: RunState::Running,
            },
        )
    }

    /// The Dispatcher: take one task off the queue and count it spawned;
    /// `None` is the end-of-queue signal.
    pub fn do_index(&mut self) -> (r: Option<Task>)
        requires
            old(self).inner.wf(),
            old(self).inner.queued == old(self).inner.spawned + old(self).inner.todo@.len(),
        ensures
            final(self).inner.errors@ == old(self).inner.errors@,
            final(self).inner.done == old(self).inner.done,
            final(self).inner.done_first == old(self).inner.done_first,
            final(self).inner.queued == old(self).inner.queued,
            final(self).inner.root_id == old(self).inner.root_id,
            final(self).state == old(self).state,
            match r {
                Some(t) => {
                    &&& old(self).inner.todo@.len() > 0
                    &&& t == old(self).inner.todo@[0]
                    &&& final(self).inner.todo@ == old(self).inner.todo@.remove(0)
                    &&& final(self).inner.spawned == old(self).inner.spawned + 1
                },
                None => {
                    &&& old(self).inner.todo@.len() == 0
                    &&& *final(self) == *old(self)
                },
            },
    {
        if self.inner.todo.len() > 0 {
            let t = self.inner.todo.remove(0);
            self.inner.spawned = self.inner.spawned + 1;
            Some(t)
        } else {
            None
        }
    }

    /// A worker-completion notification: count the task done, then decide
    /// completion by the quiescence predicate.
    pub fn task_done(&mut self) -> (r: bool)
        requires
            old(self).inner.wf(),
            old(self).inner.done < old(self).inner.spawned,
        ensures
            final(self).inner.done == old(self).inner.done + 1,
            final(self).inner.errors@ == old(self).inner.errors@,
            final(self).inner.todo@ == old(self).inner.todo@,
            final(self).inner.done_first == old(self).inner.done_first,
            final(self).inner.queued == old(self).inner.queued,
            final(self).inner.spawned == old(self).inner.spawned,
            final(self).inner.root_id == old(self).inner.root_id,
            r == final(self).inner.quiescent(),
            r ==> final(self).state is Completed,
            !r ==> final(self).state == old(self).state,
    {
        self.inner.done = self.inner.done + 1;
        let fin = self.inner.check_done();
        if fin {
            self.state = RunState::Completed;
        }
        fin
    }

    /// The Metadata Writer: one insert-and-commit for one discovered entry,
    /// replying with the generated row identifier.  A name or path that is
    /// not valid text is the fatal encoding error; a store failure is fatal
    /// too.  Either way the table gains the row exactly when `Ok` is
    /// returned.
    pub fn handle_db_message(
        conn: &mut rusqlite::Connection,
        name: &Option<String>,
        path: &Option<String>,
        parent_id: i64,
    ) -> (r: Result<i64, IndexError>)
        ensures
            match r {
                Ok(id) => {
                    &&& name matches Some(n) && path matches Some(p) && rows_of(*final(conn))
                        == rows_of(*old(conn)).push(
                        FileRow { id: id as int, name: n@, parent: parent_id as int, dir: p@ },
                    )
                    &&& forall|m: int|
                        0 <= m < rows_of(*old(conn)).len() ==> #[trigger] rows_of(
                            *old(conn),
                        )[m].id != id
                    &&& (forall|m: int|
                        0 <= m < rows_of(*old(conn)).len() ==> (#[trigger] rows_of(
                            *old(conn),
                        )[m].id) >= 1) ==> id >= 1
                    &&& (forall|m: int|
                        0 <= m < rows_of(*old(conn)).len() ==> (#[trigger] rows_of(
                            *old(conn),
                        )[m].id) < i64::MAX) ==> (forall|m: int|
                        0 <= m < rows_of(*old(conn)).len() ==> (#[trigger] rows_of(
                            *old(conn),
                        )[m].id) < id)
                },
                Err(e) => {
                    &&& rows_of(*final(conn)) == rows_of(*old(conn))
                    &&& (e is Utf8) <==> (name is None || path is None)
                    &&& (e is Utf8 || e is Sqlite)
                },
            },
    {
        let n = match name {
            Some(n) => n,
            None => return Err(IndexError::Utf8),
        };
        let p = match path {
            Some(p) => p,
            None => return Err(IndexError::Utf8),
        };
        match insert_file_row(conn, n.as_str(), parent_id, p.as_str()) {
            Ok(id) => Ok(id),
            Err(e) => Err(IndexError::Sqlite(e)),
        }
    }

    /// The run is set up for `tree` and has not started: only the root task
    /// is queued.
    pub open spec fn fresh_run(self, tree: FsTree) -> bool {
        &&& self.inner.queued == 1
        &&& self.inner.spawned == 0
        &&& self.inner.done == 0
        &&& !self.inner.done_first
        &&& self.inner.errors@.len() == 0
        &&& self.inner.todo@.len() == 1
        &&& self.inner.todo@[0].path@ == tree.dirs@[0].path@
        &&& self.inner.todo@[0].parent_id == self.inner.root_id
        &&& self.state is Running
    }

    /// The Orchestrator's control loop, run over a modelled tree: dispatch
    /// one task at a time, hand its listing to a Scan Worker, and stop the
    /// moment the quiescence predicate holds — or abort on the first fatal
    /// error.  On completion, and when no directory failed to list, the
    /// table gained exactly one row per entry of the tree, and every added
    /// row's parent is the root's identifier or that of an added row that
    /// records a directory.
    #[verifier::rlimit(100)]
    pub fn index(&mut self, conn: &mut rusqlite::Connection, tree: &FsTree) -> (r: Result<
        (),
        IndexError,
    >)
        requires
            tree.wf(),
            old(self).fresh_run(*tree),
            1 + tree.total_entries() <= usize::MAX,
        ensures
            final(self).inner.root_id == old(self).inner.root_id,
            final(self).inner.wf(),
            rows_of(*final(conn)).subrange(0, rows_of(*old(conn)).len() as int) == rows_of(
                *old(conn),
            ),
            parents_linked(
                rows_of(*final(conn)),
                rows_of(*old(conn)).len() as int,
                old(self).inner.root_id as int,
                *tree,
            ),
            forall|x: int|
                0 <= x < final(self).inner.errors@.len() ==> exists|j: int|
                    0 <= j < tree.dir_count() && !(#[trigger] tree.dirs@[j]).readable && (
                    #[trigger] final(self).inner.errors@[x]).path@ == tree.dirs@[j].path@,
            match r {
                Ok(()) => {
                    &&& final(self).state is Completed
                    &&& final(self).inner.quiescent()
                    &&& final(self).inner.spawned == final(self).inner.done
                    &&& final(self).inner.todo@.len() == 0
                    &&& final(self).inner.errors@.len() == tree.unreadable_crawlable(
                        tree.dir_count(),
                    )
                    &&& rows_of(*final(conn)).len() == rows_of(*old(conn)).len()
                        + tree.sum_crawlable(tree.dir_count())
                    &&& (final(self).inner.errors@.len() == 0 ==> rows_of(*final(conn)).len()
                        == rows_of(*old(conn)).len() + tree.total_entries())
                },
                Err(e) => {
                    &&& final(self).state is Aborted
                    &&& (e is Utf8 || e is Sqlite)
                    &&& tree.total_entries() > 0
                    &&& (e is Utf8 ==> tree.has_bad_entry())
                },
            },
    {
        let ghost rows0 = rows_of(*conn);
        let ghost root_id0 = self.inner.root_id;
        let ghost n = tree.dirs@.len() as int;
        let mut idxq: Vec<usize> = Vec::new();
        idxq.push(0);
        let ghost mut done_set: Set<int> = Set::<int>::empty();
        proof {
            assert(rows_of(*conn).subrange(0, rows0.len() as int) =~= rows0);
            tree.lemma_sum_done_none(done_set, n);
            tree.lemma_unreadable_done_none(done_set, n);
        }
        loop
            invariant
                tree.wf(),
                n == tree.dirs@.len(),
                rows0 == rows_of(*old(conn)),
                root_id0 == old(self).inner.root_id,
                1 + tree.total_entries() <= usize::MAX,
                self.inner.root_id == root_id0,
                self.inner.done <= self.inner.spawned <= self.inner.queued,
                self.inner.spawned == self.inner.done,
                self.inner.queued == self.inner.done + self.inner.todo@.len(),
                self.inner.todo@.len() >= 1,
                idxq@.len() == self.inner.todo@.len(),
                done_set.finite(),
                done_set.len() <= n,
                forall|j: int| #[trigger] done_set.contains(j) ==> 0 <= j < n,
                self.inner.done == 0 ==> idxq@.len() == 1 && idxq@[0] as int == 0,
                self.inner.done >= 1 ==> done_set.contains(0),
                self.inner.done >= 1 ==> self.inner.done_first,
                forall|k: int|
                    0 <= k < idxq@.len() ==> task_matches(
                        *tree,
                        self.inner.todo@[k],
                        (#[trigger] idxq@[k]) as int,
                        root_id0,
                        rows0.len() as int,
                        rows_of(*conn),
                    ) && !done_set.contains(idxq@[k] as int),
                forall|k1: int, k2: int|
                    0 <= k1 < k2 < idxq@.len() ==> (#[trigger] idxq@[k1]) as int != (
                    #[trigger] idxq@[k2]) as int,
                forall|i: int, k: int, j2: int|
                    #[trigger] tree.child_ref(i, k, j2) && done_set.contains(i)
                        && tree.dirs@[i].readable ==> done_set.contains(j2) || in_queue(idxq@, j2),
                forall|j2: int|
                    1 <= j2 < n && #[trigger] done_set.contains(j2) ==> done_set.contains(
                        parent_dir(*tree, j2),
                    ) && tree.dirs@[parent_dir(*tree, j2)].readable,
                forall|j2: int|
                    1 <= j2 < n && #[trigger] in_queue(idxq@, j2) ==> done_set.contains(
                        parent_dir(*tree, j2),
                    ) && tree.dirs@[parent_dir(*tree, j2)].readable,
                self.inner.errors@.len() == tree.unreadable_done(done_set, n),
                rows_of(*conn).len() == rows0.len() + tree.sum_done(done_set, n),
                rows_of(*conn).subrange(0, rows0.len() as int) == rows0,
                parents_linked(rows_of(*conn), rows0.len() as int, root_id0 as int, *tree),
                self.inner.done == 0 ==> rows_of(*conn) == rows0,
                self.inner.queued as int <= 1 + tree.sum_done(done_set, n),
                forall|j: int|
                    #[trigger] done_set.contains(j) && !tree.dirs@[j].readable
                        ==> self.inner.errors@.len() >= 1,
                forall|x: int|
                    0 <= x < self.inner.errors@.len() ==> exists|j: int|
                        0 <= j < n && !(#[trigger] tree.dirs@[j]).readable && (
                        #[trigger] self.inner.errors@[x]).path@ == tree.dirs@[j].path@,
            decreases n - done_set.len(),
        {
            let ghost idxq_top = idxq@;
            let ghost todo_top = self.inner.todo@;
            let ghost done_top = self.inner.done;
            let task = self.do_index().unwrap();
            let ghost t0 = task;
            let j = idxq.remove(0);
            let ghost jj = j as int;
            let ghost pre_rows = rows_of(*conn);
            let ghost todo_base = self.inner.todo@;
            let ghost idxq_base = idxq@;
            let ghost errs_base = self.inner.errors@;
            proof {
                assert(idxq_base =~= idxq_top.subrange(1, idxq_top.len() as int));
                assert(todo_base =~= todo_top.subrange(1, todo_top.len() as int));
                assert(idxq_top[0] as int == jj);
                assert(t0 == todo_top[0]);
                assert forall|k: int| 0 <= k < idxq_base.len() implies (#[trigger] idxq_base[k])
                    == idxq_top[k + 1] && (#[trigger] todo_base[k]) == todo_top[k + 1] by {
                    assert(idxq_top.subrange(1, idxq_top.len() as int)[k] == idxq_top[k + 1]);
                    assert(todo_top.subrange(1, todo_top.len() as int)[k] == todo_top[k + 1]);
                }
                // the first task dispatched is the root task
                if done_top == 0 {
                    assert(task_matches(
                        *tree,
                        todo_top[0],
                        idxq_top[0] as int,
                        root_id0,
                        rows0.len() as int,
                        rows0,
                    ));
                    assert(t0.parent_id == root_id0);
                }
                assert(!done_set.contains(jj));
            }
            let listing = listing_of(&tree.dirs[j]);
            let ghost listing0 = listing;
            proof {
                if tree.dirs@[jj].readable {
                    tree.lemma_sum_done_insert(done_set, jj, n);
                    tree.lemma_sum_done_le(done_set.insert(jj), n);
                } else {
                    tree.lemma_sum_done_le(done_set, n);
                }
            }
            let ghost es: Seq<DirEntry> = match listing0 {
                Ok(l) => l@,
                Err(_) => Seq::<DirEntry>::empty(),
            };
            let res = self.inner.process_task(conn, task, listing);
            match res {
                Err(e) => {
                    self.state = RunState::Aborted;
                    proof {
                        let kk = choose|kk: int|
                            worker_stopped(
                                pre_rows,
                                rows_of(*conn),
                                todo_base,
                                self.inner.todo@,
                                es,
                                kk,
                                t0.parent_id as int,
                                e,
                            );
                        assert(worker_stopped(
                            pre_rows,
                            rows_of(*conn),
                            todo_base,
                            self.inner.todo@,
                            es,
                            kk,
                            t0.parent_id as int,
                            e,
                        ));
                        // the table: the old rows stand untouched
                        assert(rows_of(*conn).subrange(0, pre_rows.len() as int) == pre_rows);
                        assert(rows_of(*conn).subrange(0, rows0.len() as int) =~= rows0);
                        assert forall|m: int| 0 <= m < pre_rows.len() implies (
                        #[trigger] rows_of(*conn)[m]) == pre_rows[m] by {
                            assert(rows_of(*conn).subrange(0, pre_rows.len() as int)[m]
                                == rows_of(*conn)[m]);
                        }
                        // rows written before the abort are linked like any other
                        assert forall|x2: int| rows0.len() <= x2 < rows_of(*conn).len() implies (
                        #[trigger] rows_of(*conn)[x2]).parent == root_id0 as int || exists|m: int|
                            rows0.len() <= m < x2 && (#[trigger] rows_of(*conn)[m]).id == rows_of(
                                *conn,
                            )[x2].parent && tree_has_dir_at(*tree, rows_of(*conn)[m].dir) by {
                            if x2 < pre_rows.len() {
                                assert(rows_of(*conn)[x2] == pre_rows[x2]);
                                if pre_rows[x2].parent != root_id0 as int {
                                    let m0 = choose|m: int|
                                        rows0.len() <= m < x2 && (#[trigger] pre_rows[m]).id
                                            == pre_rows[x2].parent && tree_has_dir_at(
                                            *tree,
                                            pre_rows[m].dir,
                                        );
                                    assert(rows_of(*conn)[m0] == pre_rows[m0]);
                                }
                            } else {
                                let y = x2 - pre_rows.len();
                                assert(rows_of(*conn)[pre_rows.len() + y].parent == t0.parent_id
                                    as int);
                                assert(task_matches(
                                    *tree,
                                    todo_top[0],
                                    idxq_top[0] as int,
                                    root_id0,
                                    rows0.len() as int,
                                    pre_rows,
                                ));
                                if t0.parent_id != root_id0 {
                                    let m0 = choose|m: int|
                                        rows0.len() <= m < pre_rows.len() && (
                                        #[trigger] pre_rows[m]).id == t0.parent_id as int
                                            && tree_has_dir_at(*tree, pre_rows[m].dir);
                                    assert(rows_of(*conn)[m0] == pre_rows[m0]);
                                    assert(m0 < x2);
                                }
                            }
                        }
                        // the abort came from a real entry of a readable directory
                        assert(listing0 is Ok);
                        assert(tree.dirs@[jj].readable);
                        assert(es.len() == tree.listed(jj));
                        tree.lemma_sum_done_none(Set::<int>::empty(), n);
                        tree.lemma_sum_done_insert(Set::<int>::empty(), jj, n);
                        tree.lemma_sum_done_le(Set::<int>::empty().insert(jj), n);
                        assert(tree.total_entries() >= tree.listed(jj));
                        if e is Utf8 {
                            assert(!entry_ok(es[kk]));
                            assert(es[kk].name == tree.entry(jj, kk).name && es[kk].path
                                == tree.entry(jj, kk).path);
                            assert(tree.has_bad_entry());
                        }
                    }
                    return Err(e);
                },
                Ok(()) => {},
            }
            let d = &tree.dirs[j];
            proof {
                assert(idxq@.subrange(0, idxq_base.len() as int) =~= idxq_base);
            }
            if d.readable {
                let mut x: usize = 0;
                while x < d.entries.len()
                    invariant
                        tree.wf(),
                        n == tree.dirs@.len(),
                        0 <= jj < n,
                        *d == tree.dirs@[jj],
                        x <= d.entries@.len(),
                        tree.dirs@[jj].readable,
                        listing0 matches Ok(l) && l@ == es,
                        es.len() == d.entries@.len(),
                        forall|y: int|
                            0 <= y < es.len() ==> (#[trigger] es[y]).is_dir == (
                            d.entries@[y].subdir is Some) && es[y].path == d.entries@[y].path,
                        idxq@.len() == idxq_base.len() + ndirs(es, x as int),
                        idxq@.subrange(0, idxq_base.len() as int) == idxq_base,
                        forall|y: int|
                            0 <= y < x ==> ((#[trigger] d.entries@[y]).subdir matches Some(j2)
                                ==> idxq@[idxq_base.len() + ndirs(es, y)] == j2),
                    decreases d.entries@.len() - x,
                {
                    proof {
                        lemma_ndirs_le(es, x as int);
                    }
                    let ghost idxq_pre = idxq@;
                    let e_sub = d.entries[x].subdir;
                    match e_sub {
                        Some(j2) => {
                            idxq.push(j2);
                        },
                        None => {},
                    }
                    proof {
                        assert forall|m: int| 0 <= m < idxq_pre.len() implies idxq@[m]
                            == idxq_pre[m] by {
                            if e_sub is Some {
                                assert(idxq_pre.push(e_sub.unwrap())[m] == idxq_pre[m]);
                            }
                        }
                        assert(idxq@.subrange(0, idxq_base.len() as int) =~= idxq_base);
                        assert forall|y: int| 0 <= y < x as int + 1 implies ((
                        #[trigger] d.entries@[y]).subdir matches Some(j2) ==> idxq@[idxq_base.len()
                            + ndirs(es, y)] == j2) by {
                            assert(es[y].is_dir == (d.entries@[y].subdir is Some));
                            lemma_ndirs_le(es, y);
                            if y < x as int && d.entries@[y].subdir is Some {
                                lemma_ndirs_mono(es, y, x as int);
                                assert(idxq@[idxq_base.len() + ndirs(es, y)] == idxq_pre[idxq_base.len()
                                    + ndirs(es, y)]);
                            }
                        }
                    }
                    x += 1;
                }
            }
            proof {
                let pre_done = done_set;
                done_set = done_set.insert(jj);
                assert(done_set.len() == pre_done.len() + 1);
                vstd::set_lib::lemma_int_range(0, n);
                vstd::set_lib::lemma_len_subset(done_set, vstd::set_lib::set_int_range(0, n));
                tree.lemma_sum_done_insert(pre_done, jj, n);
                tree.lemma_unreadable_done_insert(pre_done, jj, n);
                lemma_ndirs_le(es, es.len() as int);
                if !tree.dirs@[jj].readable {
                    assert(idxq@ == idxq_base);
                    assert(self.inner.todo@ == todo_base);
                }
                assert(rows_of(*conn).subrange(0, pre_rows.len() as int) =~= pre_rows);
                assert(rows_of(*conn).subrange(0, rows0.len() as int) =~= rows0);
                assert(idxq_top[0] as int == jj);
                assert(!pre_done.contains(jj));
                assert forall|m: int| 0 <= m < pre_rows.len() implies (#[trigger] rows_of(
                    *conn,
                )[m]) == pre_rows[m] by {
                    assert(rows_of(*conn).subrange(0, pre_rows.len() as int)[m] == rows_of(
                        *conn,
                    )[m]);
                }
                assert forall|k: int| 0 <= k < todo_base.len() implies (
                #[trigger] self.inner.todo@[k]) == todo_base[k] by {
                    assert(self.inner.todo@.subrange(0, todo_base.len() as int)[k]
                        == self.inner.todo@[k]);
                }
                assert forall|k: int| 0 <= k < idxq_base.len() implies (#[trigger] idxq@[k])
                    == idxq_base[k] by {
                    assert(idxq@.subrange(0, idxq_base.len() as int)[k] == idxq@[k]);
                }
                // the root listing has finished once anything is done
                assert(self.inner.done_first);
                assert(done_set.contains(0) || done_top == 0);
                // every pending task still stands for a directory never crawled
                assert forall|k: int| 0 <= k < idxq@.len() implies task_matches(
                    *tree,
                    self.inner.todo@[k],
                    (#[trigger] idxq@[k]) as int,
                    root_id0,
                    rows0.len() as int,
                    rows_of(*conn),
                ) && !done_set.contains(idxq@[k] as int) by {
                    if k < idxq_base.len() {
                        assert(self.inner.todo@.subrange(0, todo_base.len() as int) == todo_base);
                        assert(idxq@[k] == idxq_base[k]);
                        assert(self.inner.todo@[k] == todo_base[k]);
                        assert(idxq_base[k] == idxq_top[k + 1]);
                        assert(todo_base[k] == todo_top[k + 1]);
                        assert(task_matches(
                            *tree,
                            todo_top[k + 1],
                            idxq_top[k + 1] as int,
                            root_id0,
                            rows0.len() as int,
                            pre_rows,
                        ));
                        let t = todo_top[k + 1];
                        if t.parent_id != root_id0 {
                            let m0 = choose|m: int|
                                rows0.len() <= m < pre_rows.len() && (#[trigger] pre_rows[m]).id
                                    == t.parent_id as int && tree_has_dir_at(*tree, pre_rows[m].dir);
                            assert(rows_of(*conn)[m0] == pre_rows[m0]);
                        }
                        assert(idxq_top[k + 1] as int != idxq_top[0] as int);
                    } else {
                        assert(tree.dirs@[jj].readable);
                        lemma_ndirs_surj(es, es.len() as int, k - idxq_base.len());
                        let y = choose|y: int|
                            0 <= y < es.len() && (#[trigger] es[y]).is_dir && ndirs(es, y) == k
                                - idxq_base.len();
                        assert(es[y].is_dir == (tree.dirs@[jj].entries@[y].subdir is Some));
                        let j2 = tree.dirs@[jj].entries@[y].subdir.unwrap() as int;
                        assert(idxq@[k] as int == j2);
                        assert(tree.child_ref(jj, y, j2));
                        let t = self.inner.todo@[k];
                        assert(es[y].path matches Some(p) && t.path@ == p@);
                        assert(t.parent_id as int == rows_of(*conn)[pre_rows.len() + y].id);
                        assert(rows_of(*conn)[pre_rows.len() + y].dir == es[y].path.unwrap()@);
                        assert(tree_has_dir_at(*tree, rows_of(*conn)[pre_rows.len() + y].dir));
                        assert(pre_rows.len() >= rows0.len());
                        lemma_parent_dir(*tree, jj, y, j2);
                        assert(1 <= j2 < n);
                        if pre_done.contains(j2) {
                            assert(pre_done.contains(parent_dir(*tree, j2)));
                            assert(false);
                        }
                        if in_queue(idxq_top, j2) {
                            assert(pre_done.contains(parent_dir(*tree, j2)));
                            assert(false);
                        }
                        assert(!done_set.contains(j2));
                    }
                }
                // no directory is pending twice
                assert forall|k1: int, k2: int| 0 <= k1 < k2 < idxq@.len() implies (
                #[trigger] idxq@[k1]) as int != (#[trigger] idxq@[k2]) as int by {
                    if k2 < idxq_base.len() {
                        assert(idxq@[k1] == idxq_top[k1 + 1] && idxq@[k2] == idxq_top[k2 + 1]);
                    } else {
                        assert(tree.dirs@[jj].readable);
                        lemma_ndirs_surj(es, es.len() as int, k2 - idxq_base.len());
                        let y2 = choose|y: int|
                            0 <= y < es.len() && (#[trigger] es[y]).is_dir && ndirs(es, y) == k2
                                - idxq_base.len();
                        assert(es[y2].is_dir == (tree.dirs@[jj].entries@[y2].subdir is Some));
                        let j2 = tree.dirs@[jj].entries@[y2].subdir.unwrap() as int;
                        assert(idxq@[k2] as int == j2);
                        assert(tree.child_ref(jj, y2, j2));
                        lemma_parent_dir(*tree, jj, y2, j2);
                        if idxq@[k1] as int == j2 {
                            if k1 < idxq_base.len() {
                                assert(idxq_top[k1 + 1] as int == j2);
                                assert(in_queue(idxq_top, j2));
                                assert(pre_done.contains(jj));
                                assert(false);
                            } else {
                                lemma_ndirs_surj(es, es.len() as int, k1 - idxq_base.len());
                                let y1 = choose|y: int|
                                    0 <= y < es.len() && (#[trigger] es[y]).is_dir && ndirs(es, y)
                                        == k1 - idxq_base.len();
                                assert(es[y1].is_dir == (tree.dirs@[jj].entries@[y1].subdir
                                    is Some));
                                assert(tree.child_ref(jj, y1, j2));
                                lemma_parent_dir(*tree, jj, y1, j2);
                                assert(y1 == y2);
                                assert(false);
                            }
                        }
                    }
                }
                // a crawled, readable directory has every child crawled or pending
                assert forall|i: int, k: int, j2: int|
                    #[trigger] tree.child_ref(i, k, j2) && done_set.contains(i)
                        && tree.dirs@[i].readable implies done_set.contains(j2) || in_queue(
                    idxq@,
                    j2,
                ) by {
                    if i == jj && tree.dirs@[jj].readable {
                        assert(es[k].is_dir == (tree.dirs@[jj].entries@[k].subdir is Some));
                        lemma_ndirs_le(es, k);
                        lemma_ndirs_mono(es, k, es.len() as int);
                        assert(idxq@[idxq_base.len() + ndirs(es, k)] as int == j2);
                        assert(in_queue(idxq@, j2));
                    } else if i != jj {
                        assert(pre_done.contains(i));
                        if !pre_done.contains(j2) {
                            assert(in_queue(idxq_top, j2));
                            let k3 = choose|k3: int|
                                0 <= k3 < idxq_top.len() && (#[trigger] idxq_top[k3]) as int == j2;
                            if k3 == 0 {
                                assert(j2 == jj);
                            } else {
                                assert(idxq_base[k3 - 1] as int == j2);
                                assert(idxq@[k3 - 1] == idxq_base[k3 - 1]);
                                assert(in_queue(idxq@, j2));
                            }
                        }
                    }
                }
                // whatever is crawled or pending was reached from a crawled directory
                assert forall|j2: int|
                    1 <= j2 < n && #[trigger] done_set.contains(j2) implies done_set.contains(
                        parent_dir(*tree, j2),
                    ) && tree.dirs@[parent_dir(*tree, j2)].readable by {
                    if j2 == jj {
                        assert(0 <= 0int < idxq_top.len() && idxq_top[0] as int == jj);
                        assert(in_queue(idxq_top, jj));
                        assert(pre_done.contains(parent_dir(*tree, j2)));
                    } else {
                        assert(pre_done.contains(j2));
                        assert(pre_done.contains(parent_dir(*tree, j2)));
                    }
                }
                assert forall|j2: int|
                    1 <= j2 < n && #[trigger] in_queue(idxq@, j2) implies done_set.contains(
                        parent_dir(*tree, j2),
                    ) && tree.dirs@[parent_dir(*tree, j2)].readable by {
                    let k5 = choose|k5: int|
                        0 <= k5 < idxq@.len() && (#[trigger] idxq@[k5]) as int == j2;
                    if k5 < idxq_base.len() {
                        assert(idxq@[k5] == idxq_base[k5]);
                        assert(idxq_top[k5 + 1] as int == j2);
                        assert(in_queue(idxq_top, j2));
                        assert(pre_done.contains(parent_dir(*tree, j2)));
                    } else {
                        assert(tree.dirs@[jj].readable);
                        lemma_ndirs_surj(es, es.len() as int, k5 - idxq_base.len());
                        let y = choose|y: int|
                            0 <= y < es.len() && (#[trigger] es[y]).is_dir && ndirs(es, y) == k5
                                - idxq_base.len();
                        assert(es[y].is_dir == (tree.dirs@[jj].entries@[y].subdir is Some));
                        assert(idxq@[k5] as int
                            == tree.dirs@[jj].entries@[y].subdir.unwrap() as int);
                        assert(tree.child_ref(jj, y, j2));
                        lemma_parent_dir(*tree, jj, y, j2);
                        assert(done_set.contains(jj));
                    }
                }
                // every added row points at the root or at an earlier directory row
                assert forall|x2: int| rows0.len() <= x2 < rows_of(*conn).len() implies (
                #[trigger] rows_of(*conn)[x2]).parent == root_id0 as int || exists|m: int|
                    rows0.len() <= m < x2 && (#[trigger] rows_of(*conn)[m]).id == rows_of(
                        *conn,
                    )[x2].parent && tree_has_dir_at(*tree, rows_of(*conn)[m].dir) by {
                    if x2 < pre_rows.len() {
                        assert(rows_of(*conn)[x2] == pre_rows[x2]);
                        if pre_rows[x2].parent != root_id0 as int {
                            let m0 = choose|m: int|
                                rows0.len() <= m < x2 && (#[trigger] pre_rows[m]).id
                                    == pre_rows[x2].parent && tree_has_dir_at(
                                    *tree,
                                    pre_rows[m].dir,
                                );
                            assert(rows_of(*conn)[m0] == pre_rows[m0]);
                        }
                    } else {
                        assert(tree.dirs@[jj].readable);
                        let y = x2 - pre_rows.len();
                        assert(rows_of(*conn)[pre_rows.len() + y].parent == t0.parent_id as int);
                        assert(task_matches(
                            *tree,
                            todo_top[0],
                            idxq_top[0] as int,
                            root_id0,
                            rows0.len() as int,
                            pre_rows,
                        ));
                        if t0.parent_id != root_id0 {
                            let m0 = choose|m: int|
                                rows0.len() <= m < pre_rows.len() && (#[trigger] pre_rows[m]).id
                                    == t0.parent_id as int && tree_has_dir_at(
                                    *tree,
                                    pre_rows[m].dir,
                                );
                            assert(rows_of(*conn)[m0] == pre_rows[m0]);
                            assert(m0 < x2);
                        }
                    }
                }
                // each recorded error names an unreadable directory
                if !tree.dirs@[jj].readable {
                    assert(self.inner.errors@.len() == errs_base.len() + 1);
                    assert(self.inner.errors@.last().path@ == tree.dirs@[jj].path@);
                }
                assert forall|x2: int| 0 <= x2 < self.inner.errors@.len() implies exists|j3: int|
                    0 <= j3 < n && !(#[trigger] tree.dirs@[j3]).readable && (
                    #[trigger] self.inner.errors@[x2]).path@ == tree.dirs@[j3].path@ by {
                    if x2 < errs_base.len() {
                        if !tree.dirs@[jj].readable {
                            assert(self.inner.errors@.drop_last()[x2] == self.inner.errors@[x2]);
                        }
                        assert(self.inner.errors@[x2] == errs_base[x2]);
                    } else {
                        assert(!tree.dirs@[jj].readable);
                        assert(self.inner.errors@[x2].path@ == tree.dirs@[jj].path@);
                    }
                }
                assert(forall|x2: int|
                    0 <= x2 < self.inner.errors@.len() ==> exists|j3: int|
                        0 <= j3 < n && !(#[trigger] tree.dirs@[j3]).readable && (
                        #[trigger] self.inner.errors@[x2]).path@ == tree.dirs@[j3].path@);
            }
            let completed = self.task_done();
            if completed {
                proof {
                    assert(self.inner.todo@.len() == 0);
                    assert(self.inner.quiescent());
                    assert(self.state is Completed);
                    assert(self.inner.root_id == root_id0);
                    assert(rows_of(*conn).subrange(0, rows0.len() as int) == rows0);
                    assert(parents_linked(rows_of(*conn), rows0.len() as int, root_id0 as int, *tree));
                    assert(done_set.contains(0));
                    assert(idxq@.len() == 0);
                    assert forall|i: int, k: int, j2: int|
                        #[trigger] tree.child_ref(i, k, j2) && done_set.contains(i)
                            && tree.dirs@[i].readable implies done_set.contains(j2) by {
                        assert(!in_queue(idxq@, j2));
                    }
                    // the crawled set is exactly what the tree makes reachable
                    assert forall|j2: int| 0 <= j2 < n implies done_set.contains(j2)
                        == tree.crawlable(j2) by {
                        if done_set.contains(j2) {
                            lemma_done_crawlable(*tree, done_set, j2);
                        }
                        if tree.crawlable(j2) {
                            lemma_crawlable_done(*tree, done_set, j2);
                        }
                    }
                    tree.lemma_unreadable_done_crawlable(done_set, n);
                    assert(self.inner.errors@.len() == tree.unreadable_crawlable(n));
                    tree.lemma_sum_done_is_crawlable(done_set, n);
                    assert(rows_of(*conn).len() == rows0.len() + tree.sum_crawlable(n));
                    if self.inner.errors@.len() == 0 {
                        assert forall|i: int, k: int, j2: int|
                            #[trigger] tree.child_ref(i, k, j2) && done_set.contains(
                                i,
                            ) implies done_set.contains(j2) by {
                            assert(tree.dirs@[i].readable);
                            assert(!in_queue(idxq@, j2));
                        }
                        assert forall|j2: int| 0 <= j2 < n implies done_set.contains(j2) by {
                            lemma_all_crawled(*tree, done_set, j2);
                        }
                        tree.lemma_sum_done_full(done_set, n);
                        assert(rows_of(*conn).len() == rows0.len() + tree.total_entries());
                    }
                    assert forall|x: int| 0 <= x < self.inner.errors@.len() implies exists|j: int|
                        0 <= j < tree.dir_count() && !(#[trigger] tree.dirs@[j]).readable && (
                        #[trigger] self.inner.errors@[x]).path@ == tree.dirs@[j].path@ by {}
                }
                return Ok(());
            }
        }
    }
}

} // verus!
