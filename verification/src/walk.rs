//! The bookkeeping of a concurrent walk.
//!
//! Workers read one directory each and report what they found. One consumer
//! folds the reports into the tree, counts, and hands out a job for every
//! subdirectory it has seen. The walk is over when no job is outstanding.
use vstd::prelude::*;
use crate::tree::{self, Node, NodeId, NodeKind, Tree};

verus! {

/// How a walk is run.
#[derive(Clone, Copy, Debug, PartialEq, Eq, Structural)]
pub struct ScanOptions {
    /// Directories that are read at a time.
    pub threads: usize,
}

impl ScanOptions {
    /// One worker for each unit of parallelism that the system offers, four
    /// where it does not say.
    pub fn for_system(available: Option<usize>) -> (r: ScanOptions)
        ensures
            r.threads == (match available {
                Some(n) => n,
                None => 4,
            }),
    {
        match available {
            Some(n) => ScanOptions { threads: n },
            None => ScanOptions { threads: 4 },
        }
    }

    /// The workers that are started: at least one.
    pub fn workers(&self) -> (r: usize)
        ensures
            r == (if self.threads > 1 {
                self.threads
            } else {
                1
            }),
    {
        if self.threads > 1 {
            self.threads
        } else {
            1
        }
    }
}

/// The counters of a running walk.
#[derive(Clone, Copy, Debug, PartialEq, Eq, Structural)]
pub struct Progress {
    pub dirs: u64,
    pub files: u64,
    pub bytes: u64,
    pub errors: u64,
}

/// The final tally of a completed or cancelled walk.
#[derive(Clone, Copy, Debug, PartialEq, Eq, Structural)]
pub struct ScanStats {
    pub dirs: u64,
    pub files: u64,
    pub bytes: u64,
    /// Entries or directories that could not be read.
    pub errors: u64,
    pub elapsed_millis: u64,
    pub cancelled: bool,
}

/// A directory that has still to be read, and the node its contents go under.
pub struct DirJob {
    pub path: String,
    pub parent: NodeId,
}

/// One entry found in a directory.
pub struct WalkEntry {
    pub name: String,
    /// Size in bytes; 0 for a directory.
    pub size: u64,
    /// The path to walk into, for a directory.
    pub dir_path: Option<String>,
}

/// What a worker found in one directory.
pub struct DirResult {
    pub parent: NodeId,
    pub entries: Vec<WalkEntry>,
    pub errors: u64,
}

/// One item of a directory as the system reports it.
pub enum RawItem {
    /// The item could not be read, or its type could not.
    Failed,
    Dir { name: String, path: String },
    /// Anything else, links among them; its size where it could be read.
    Leaf { name: String, size: Option<u64> },
}

/// Whether an item counts as an error.
pub open spec fn is_error(item: RawItem) -> bool {
    match item {
        RawItem::Failed => true,
        RawItem::Dir { .. } => false,
        RawItem::Leaf { size, .. } => size is None,
    }
}

/// The errors among the items.
pub open spec fn error_count(items: Seq<RawItem>) -> nat
    decreases items.len(),
{
    if items.len() == 0 {
        0
    } else {
        error_count(items.drop_last()) + (if is_error(items.last()) {
            1nat
        } else {
            0
        })
    }
}

/// The items that make entries.
pub open spec fn named_items(items: Seq<RawItem>) -> Seq<RawItem>
    decreases items.len(),
{
    if items.len() == 0 {
        Seq::empty()
    } else if items.last() is Failed {
        named_items(items.drop_last())
    } else {
        named_items(items.drop_last()).push(items.last())
    }
}

/// The entry that an item makes.
pub open spec fn entry_shows(e: WalkEntry, item: RawItem) -> bool {
    match item {
        RawItem::Failed => false,
        RawItem::Dir { name, path } => e.name@ == name@ && e.size == 0 && (e.dir_path matches Some(p) && p@ == path@),
        RawItem::Leaf { name, size } => e.name@ == name@ && e.dir_path is None && e.size == (match size {
            Some(n) => n,
            None => 0,
        }),
    }
}

/// The entries and the errors of a directory; one that could not be read at all
/// is one error.
pub open spec fn reads(items: Option<Vec<RawItem>>, es: Seq<WalkEntry>, errors: u64) -> bool {
    match items {
        None => es.len() == 0 && errors == 1,
        Some(v) => {
            &&& errors == error_count(v@)
            &&& es.len() == named_items(v@).len()
            &&& forall|i: int| 0 <= i < es.len() ==> entry_shows(#[trigger] es[i], named_items(v@)[i])
        },
    }
}

/// What is in a directory: `None` where it could not be read at all, which is one
/// error.
pub fn read_one_dir(items: Option<Vec<RawItem>>) -> (r: (Vec<WalkEntry>, u64))
    ensures
        reads(items, r.0@, r.1),
{
    let mut out: Vec<WalkEntry> = Vec::new();
    let v = match items {
        Some(v) => v,
        None => {
            return (out, 1);
        },
    };
    let mut errors: u64 = 0;
    let mut i: usize = 0;
    let n: usize = v.len();
    assert(v@.take(0) =~= Seq::empty());
    while i < n
        invariant
            i <= n,
            n == v@.len(),
            errors == error_count(v@.take(i as int)),
            errors <= i,
            out@.len() == named_items(v@.take(i as int)).len(),
            forall|k: int|
                0 <= k < out@.len() ==> entry_shows(#[trigger] out@[k], named_items(v@.take(i as int))[k]),
        decreases v@.len() - i,
    {
        assert(v@.take(i + 1).drop_last() =~= v@.take(i as int));
        assert(v@.take(i + 1).last() == v@[i as int]);
        match &v[i] {
            RawItem::Failed => {
                errors = errors + 1;
            },
            RawItem::Dir { name, path } => {
                let e = WalkEntry { name: name.clone(), size: 0, dir_path: Some(path.clone()) };
                out.push(e);
            },
            RawItem::Leaf { name, size } => {
                let size: u64 = match size {
                    Some(n) => *n,
                    None => {
                        errors = errors + 1;
                        0
                    },
                };
                let e = WalkEntry { name: name.clone(), size, dir_path: None };
                out.push(e);
            },
        }
        i += 1;
    }
    assert(v@.take(i as int) =~= v@);
    (out, errors)
}

/// What a worker reports of its job. In a cancelled walk it reports nothing, and
/// no error: the report alone is waited for.
pub fn report(parent: NodeId, cancelled: bool, items: Option<Vec<RawItem>>) -> (r: DirResult)
    ensures
        r.parent == parent,
        cancelled ==> r.entries@.len() == 0 && r.errors == 0,
        !cancelled ==> reads(items, r.entries@, r.errors),
{
    if cancelled {
        DirResult { parent, entries: Vec::new(), errors: 0 }
    } else {
        let (entries, errors) = read_one_dir(items);
        DirResult { parent, entries, errors }
    }
}

/// The consumer's counters.
pub struct Tally {
    /// Jobs handed out whose reports have not come back.
    pub pending: u64,
    pub dirs: u64,
    pub files: u64,
    pub bytes: u64,
    pub errors: u64,
}

/// The bytes of the first `k` entries that are files.
pub open spec fn entry_bytes(es: Seq<WalkEntry>, k: int) -> nat
    decreases k,
{
    if k <= 0 {
        0
    } else {
        entry_bytes(es, k - 1) + (if es[k - 1].dir_path is None {
            es[k - 1].size as nat
        } else {
            0
        })
    }
}

/// The directories among the first `k` entries.
pub open spec fn entry_dirs(es: Seq<WalkEntry>, k: int) -> nat
    decreases k,
{
    if k <= 0 {
        0
    } else {
        entry_dirs(es, k - 1) + (if es[k - 1].dir_path is Some {
            1nat
        } else {
            0
        })
    }
}

/// A job by what it holds.
pub ghost struct JobModel {
    pub path: Seq<char>,
    pub parent: NodeId,
}

pub open spec fn job_models(v: Seq<DirJob>) -> Seq<JobModel> {
    v.map_values(|j: DirJob| JobModel { path: j.path@, parent: j.parent })
}

/// The jobs for the directories among the first `k` entries, the first of which
/// became node `n`.
pub open spec fn jobs_for(es: Seq<WalkEntry>, n: int, k: int) -> Seq<JobModel>
    decreases k,
{
    if k <= 0 {
        Seq::empty()
    } else {
        match es[k - 1].dir_path {
            Some(p) => jobs_for(es, n, k - 1).push(JobModel { path: p@, parent: NodeId((n + k - 1) as u32) }),
            None => jobs_for(es, n, k - 1),
        }
    }
}

/// The tree after the first `k` entries were added under `p`: the old nodes keep
/// their names, parents, kinds and bytes, and the entries follow in order.
pub open spec fn grown(ns: Seq<Node>, after: Seq<Node>, p: NodeId, es: Seq<WalkEntry>, k: int) -> bool {
    &&& after.len() == ns.len() + k
    &&& forall|i: int|
        0 <= i < ns.len() ==> {
            &&& (#[trigger] after[i]).name == ns[i].name
            &&& after[i].parent == ns[i].parent
            &&& after[i].kind == ns[i].kind
            &&& after[i].own_size == ns[i].own_size
        }
    &&& forall|j: int|
        ns.len() <= j < ns.len() + k ==> {
            let e = es[j - ns.len()];
            &&& (#[trigger] after[j]).name@ == e.name@
            &&& after[j].parent == p
            &&& e.dir_path is Some ==> after[j].kind == NodeKind::Dir && after[j].own_size == 0
            &&& e.dir_path is None ==> after[j].kind == NodeKind::File && after[j].own_size == e.size
        }
}

/// The counters say what the tree holds: every node but the root is a directory
/// or a file that was counted, and the root's totals are the counters.
pub open spec fn agrees(t: Tally, ns: Seq<Node>) -> bool {
    &&& ns.len() == 1 + t.dirs + t.files
    &&& ns[0].subtree_size == t.bytes
    &&& ns[0].file_count == t.files
}

/// Everything a report adds can be numbered and counted.
pub open spec fn has_room(t: Tally, ns: Seq<Node>, r: DirResult) -> bool {
    let m = r.entries@.len() as int;
    &&& ns.len() + m <= 0x1_0000_0000
    &&& tree::bytes_under(ns, 0, ns.len() as int) + entry_bytes(r.entries@, m) <= u64::MAX
    &&& t.bytes + entry_bytes(r.entries@, m) <= u64::MAX
    &&& t.dirs + m <= u64::MAX
    &&& t.files + m <= u64::MAX
    &&& t.pending + m <= u64::MAX
    &&& t.errors + r.errors <= u64::MAX
}

/// Whether everything a report adds can be numbered and counted.
pub fn has_room_for(t: &Tree, tally: &Tally, result: &DirResult) -> (r: bool)
    requires
        t.wf(),
        t@.len() > 0,
        tree::sizes_live(t@),
    ensures
        r == has_room(*tally, t@, *result),
{
    let es = &result.entries;
    let m: u128 = es.len() as u128;
    let mut bytes: u128 = 0;
    let mut i: usize = 0;
    while i < es.len()
        invariant
            i <= es@.len(),
            es@ == result.entries@,
            bytes == entry_bytes(es@, i as int),
            bytes <= i * 0xffff_ffff_ffff_ffff,
        decreases es@.len() - i,
    {
        assert(i * 0xffff_ffff_ffff_ffff + 0xffff_ffff_ffff_ffff == (i + 1) * 0xffff_ffff_ffff_ffff) by (nonlinear_arith);
        assert(i * 0xffff_ffff_ffff_ffff <= 0xffff_ffff_ffff_fffe * 0xffff_ffff_ffff_ffff) by (nonlinear_arith)
            requires
                i <= 0xffff_ffff_ffff_fffe,
        ;
        if es[i].dir_path.is_none() {
            bytes = bytes + es[i].size as u128;
        }
        i += 1;
    }
    let limit: u128 = 0xffff_ffff_ffff_ffff;
    let held: u128 = t.node(Tree::root()).subtree_size as u128;
    assert(t@[0].subtree_size == tree::bytes_under(t@, 0, t@.len() as int));
    assert(bytes <= limit * limit) by (nonlinear_arith)
        requires
            bytes <= i * 0xffff_ffff_ffff_ffff,
            i <= 0xffff_ffff_ffff_ffff,
            limit == 0xffff_ffff_ffff_ffff,
    ;
    bytes <= limit && t.len() as u128 + m <= 0x1_0000_0000 && held + bytes <= limit && tally.bytes as u128 + bytes
        <= limit && tally.dirs as u128 + m <= limit && tally.files as u128 + m <= limit && tally.pending as u128 + m
        <= limit && tally.errors as u128 + result.errors as u128 <= limit
}

/// Starts a walk of `root`: the tree of the root alone, the counters, and the
/// first job.
pub fn scan(root: &str) -> (r: (Tree, Tally, DirJob))
    ensures
        r.0.wf(),
        tree::sizes_live(r.0@),
        r.0@.len() == 1,
        r.0@[0].name@ == root@,
        r.0@[0].kind == NodeKind::Dir,
        r.1 == (Tally { pending: 1, dirs: 0, files: 0, bytes: 0, errors: 0 }),
        agrees(r.1, r.0@),
        r.2.path@ == root@,
        r.2.parent == NodeId(0),
{
    let t = Tree::new(root);
    proof {
        reveal_with_fuel(tree::subtree_sum, 2);
    }
    (
        t,
        Tally { pending: 1, dirs: 0, files: 0, bytes: 0, errors: 0 },
        DirJob { path: root.to_owned(), parent: Tree::root() },
    )
}

proof fn lemma_entry_bytes_grow(es: Seq<WalkEntry>, j: int, k: int)
    requires
        0 <= j <= k <= es.len(),
    ensures
        entry_bytes(es, j) <= entry_bytes(es, k),
    decreases k,
{
    if j < k {
        lemma_entry_bytes_grow(es, j, k - 1);
    }
}

/// Folds one report into the tree and the counters, and hands out a job for
/// every directory in it.
pub fn scan_into(tree: &mut Tree, tally: &mut Tally, result: DirResult) -> (jobs: Vec<DirJob>)
    requires
        old(tree).wf(),
        tree::sizes_live(old(tree)@),
        result.parent.at() < old(tree)@.len(),
        old(tally).pending >= 1,
        has_room(*old(tally), old(tree)@, result),
    ensures
        final(tree).wf(),
        tree::sizes_live(final(tree)@),
        tree::adds_up(old(tree)@) && tree::adds_up(final(tree)@),
        grown(old(tree)@, final(tree)@, result.parent, result.entries@, result.entries@.len() as int),
        job_models(jobs@) == jobs_for(result.entries@, old(tree)@.len() as int, result.entries@.len() as int),
        final(tally).dirs == old(tally).dirs + entry_dirs(result.entries@, result.entries@.len() as int),
        final(tally).files == old(tally).files + result.entries@.len() - entry_dirs(
            result.entries@,
            result.entries@.len() as int,
        ),
        final(tally).bytes == old(tally).bytes + entry_bytes(result.entries@, result.entries@.len() as int),
        final(tally).errors == old(tally).errors + result.errors,
        final(tally).pending == old(tally).pending - 1 + jobs@.len(),
        jobs@.len() == entry_dirs(result.entries@, result.entries@.len() as int),
        agrees(*old(tally), old(tree)@) ==> agrees(*final(tally), final(tree)@),
{
    let ghost ns = tree@;
    let ghost n = ns.len() as int;
    let ghost t0 = *tally;
    let es = &result.entries;
    let m: usize = es.len();
    let ghost all = entry_bytes(es@, m as int);
    let mut jobs: Vec<DirJob> = Vec::new();
    let mut k: usize = 0;
    assert(job_models(jobs@) =~= Seq::empty());
    while k < m
        invariant
            es@ == result.entries@,
            m == es@.len(),
            k <= m,
            n == ns.len(),
            t0 == *old(tally),
            has_room(t0, ns, result),
            result.parent.at() < n,
            all == entry_bytes(es@, m as int),
            tree.wf(),
            tree::sizes_live(tree@),
            grown(ns, tree@, result.parent, es@, k as int),
            tree::bytes_under(tree@, 0, n + k) == tree::bytes_under(ns, 0, n) + entry_bytes(es@, k as int),
            job_models(jobs@) == jobs_for(es@, n, k as int),
            jobs@.len() == entry_dirs(es@, k as int),
            entry_dirs(es@, k as int) <= k,
            tally.dirs == t0.dirs + entry_dirs(es@, k as int),
            tally.files == t0.files + k - entry_dirs(es@, k as int),
            tally.bytes == t0.bytes + entry_bytes(es@, k as int),
            tally.errors == t0.errors,
            tally.pending == t0.pending,
            agrees(t0, ns) ==> agrees(*tally, tree@),
        decreases m - k,
    {
        let ghost before = tree@;
        proof {
            lemma_entry_bytes_grow(es@, k + 1, m as int);
            tree::lemma_room_for_child(before, result.parent.at());
        }
        match &es[k].dir_path {
            Some(path) => {
                let id = tree.add_child_propagating(result.parent, es[k].name.as_str(), NodeKind::Dir, 0);
                tally.dirs = tally.dirs + 1;
                let job = DirJob { path: path.clone(), parent: id };
                let ghost jm = job_models(jobs@);
                jobs.push(job);
                assert(job_models(jobs@) =~= jm.push(JobModel { path: job.path@, parent: job.parent }));
                assert(job.parent == NodeId((n + k) as u32));
            },
            None => {
                let size: u64 = es[k].size;
                tree.add_child_propagating(result.parent, es[k].name.as_str(), NodeKind::File, size);
                tally.files = tally.files + 1;
                tally.bytes = tally.bytes + size;
            },
        }
        proof {
            tree::lemma_root_gains(before, tree@, result.parent.at());
            assert(tree@[0].subtree_size == before[0].subtree_size + tree@[n + k].own_size);
        }
        k += 1;
    }
    proof {
        tree::law_totals_add_up(ns);
        tree::law_totals_add_up(tree@);
    }
    tally.errors = tally.errors + result.errors;
    tally.pending = tally.pending - 1 + jobs.len() as u64;
    jobs
}

impl Tally {
    /// Whether every directory that was found has been read.
    pub fn is_done(&self) -> (r: bool)
        ensures
            r == (self.pending == 0),
    {
        self.pending == 0
    }

    /// Whether another report is waited for: one is to come, and the walk was not
    /// cancelled.
    pub fn goes_on(&self, cancelled: bool) -> (r: bool)
        ensures
            r == (self.pending > 0 && !cancelled),
    {
        !self.is_done() && !cancelled
    }

    /// The counters for a reader while the walk runs.
    pub fn progress(&self) -> (r: Progress)
        ensures
            r == (Progress { dirs: self.dirs, files: self.files, bytes: self.bytes, errors: self.errors }),
    {
        Progress { dirs: self.dirs, files: self.files, bytes: self.bytes, errors: self.errors }
    }

    /// The final tally.
    pub fn finish(&self, elapsed_millis: u64, cancelled: bool) -> (r: ScanStats)
        ensures
            r == (ScanStats {
                dirs: self.dirs,
                files: self.files,
                bytes: self.bytes,
                errors: self.errors,
                elapsed_millis,
                cancelled,
            }),
    {
        ScanStats {
            dirs: self.dirs,
            files: self.files,
            bytes: self.bytes,
            errors: self.errors,
            elapsed_millis,
            cancelled,
        }
    }
}

/// The items of a directory are told once each: an error for every item that
/// could not be read or has no size, and an entry for every item that has a name,
/// in order, with that name, the size of a file, and the path of a directory.
pub proof fn law_report_tells_every_item(items: Vec<RawItem>, es: Seq<WalkEntry>, errors: u64)
    requires
        reads(Some(items), es, errors),
    ensures
        errors == items@.filter(
            |it: RawItem| it is Failed || (it matches RawItem::Leaf { size, .. } && size is None),
        ).len(),
        ({
            let told = items@.filter(|it: RawItem| it is Dir || it is Leaf);
            &&& es.len() == told.len()
            &&& forall|i: int|
                0 <= i < es.len() ==> {
                    &&& told[i] is Dir ==> (#[trigger] es[i]).name@ == told[i]->Dir_name@ && es[i].size == 0
                        && es[i].dir_path is Some && es[i].dir_path->0@ == told[i]->path@
                    &&& told[i] is Leaf ==> es[i].name@ == told[i]->Leaf_name@ && es[i].dir_path is None
                    &&& told[i] is Leaf && told[i]->size is Some ==> es[i].size == told[i]->size->0
                    &&& told[i] is Leaf && told[i]->size is None ==> es[i].size == 0
                }
        }),
{
    lemma_items_told(items@);
    let told = items@.filter(|it: RawItem| it is Dir || it is Leaf);
    assert forall|i: int| 0 <= i < es.len() implies {
        &&& told[i] is Dir ==> (#[trigger] es[i]).name@ == told[i]->Dir_name@ && es[i].size == 0 && es[i].dir_path is Some
            && es[i].dir_path->0@ == told[i]->path@
        &&& told[i] is Leaf ==> es[i].name@ == told[i]->Leaf_name@ && es[i].dir_path is None
        &&& told[i] is Leaf && told[i]->size is Some ==> es[i].size == told[i]->size->0
        &&& told[i] is Leaf && told[i]->size is None ==> es[i].size == 0
    } by {
        assert(entry_shows(es[i], named_items(items@)[i]));
    }
}

proof fn lemma_items_told(items: Seq<RawItem>)
    ensures
        error_count(items) == items.filter(
            |it: RawItem| it is Failed || (it matches RawItem::Leaf { size, .. } && size is None),
        ).len(),
        named_items(items) == items.filter(|it: RawItem| it is Dir || it is Leaf),
    decreases items.len(),
{
    reveal(Seq::filter);
    if items.len() > 0 {
        lemma_items_told(items.drop_last());
    }
}

/// A directory that cannot be read is one error and has no entries.
pub proof fn law_unreadable_directory_is_one_error(es: Seq<WalkEntry>, errors: u64)
    requires
        reads(None, es, errors),
    ensures
        es.len() == 0,
        errors == 1,
{
}

/// Every directory of a report gets one job, which is to read its own path and
/// to put what it finds under its own node; nothing else gets one.
pub proof fn law_every_directory_gets_its_job(es: Seq<WalkEntry>, n: int, k: int)
    requires
        0 <= n,
        0 <= k <= es.len(),
        n + k <= 0x1_0000_0000,
    ensures
        forall|i: int|
            0 <= i < k && (#[trigger] es[i]).dir_path is Some ==> exists|j: int|
                0 <= j < jobs_for(es, n, k).len() && (#[trigger] jobs_for(es, n, k)[j]).path == es[i].dir_path->0@
                    && jobs_for(es, n, k)[j].parent.0 == n + i,
        forall|j: int|
            0 <= j < jobs_for(es, n, k).len() ==> {
                let i = (#[trigger] jobs_for(es, n, k)[j]).parent.0 - n;
                0 <= i < k && es[i].dir_path is Some && jobs_for(es, n, k)[j].path == es[i].dir_path->0@
            },
        forall|a: int, b: int|
            0 <= a < b < jobs_for(es, n, k).len() ==> (#[trigger] jobs_for(es, n, k)[a]).parent.0 < (
            #[trigger] jobs_for(es, n, k)[b]).parent.0,
    decreases k,
{
    if k > 0 {
        law_every_directory_gets_its_job(es, n, k - 1);
        let rest = jobs_for(es, n, k - 1);
        let now = jobs_for(es, n, k);
        assert forall|i: int| 0 <= i < k && (#[trigger] es[i]).dir_path is Some implies exists|j: int|
            0 <= j < now.len() && (#[trigger] now[j]).path == es[i].dir_path->0@ && now[j].parent.0 == n + i by {
            if i == k - 1 {
                assert(now[rest.len() as int].parent.0 == n + i);
            } else {
                let j = choose|j: int|
                    0 <= j < rest.len() && (#[trigger] rest[j]).path == es[i].dir_path->0@ && rest[j].parent.0 == n + i;
                assert(now[j] == rest[j]);
            }
        }
        assert forall|j: int| 0 <= j < now.len() implies {
            let i = (#[trigger] now[j]).parent.0 - n;
            0 <= i < k && es[i].dir_path is Some && now[j].path == es[i].dir_path->0@
        } by {
            if j < rest.len() {
                assert(now[j] == rest[j]);
            }
        }
        assert forall|a: int, b: int| 0 <= a < b < now.len() implies (#[trigger] now[a]).parent.0 < (#[trigger] now[b]).parent.0 by {
            assert(now[a] == rest[a]);
            if b < rest.len() {
                assert(now[b] == rest[b]);
            }
        }
    }
}

/// What a report names becomes nodes under the directory that was read, in order:
/// a directory with no bytes of its own, or a file with its size. What was there
/// before keeps its name, its place and its bytes.
pub proof fn law_report_becomes_nodes(ns: Seq<Node>, after: Seq<Node>, p: NodeId, es: Seq<WalkEntry>, j: int)
    requires
        grown(ns, after, p, es, es.len() as int),
        0 <= j < es.len(),
    ensures
        after.len() == ns.len() + es.len(),
        after[ns.len() + j].name@ == es[j].name@,
        after[ns.len() + j].parent == p,
        after[ns.len() + j].kind is Dir <==> es[j].dir_path is Some,
        es[j].dir_path is Some ==> after[ns.len() + j].own_size == 0,
        es[j].dir_path is None ==> after[ns.len() + j].own_size == es[j].size,
        forall|i: int|
            0 <= i < ns.len() ==> (#[trigger] after[i]).name == ns[i].name && after[i].parent == ns[i].parent && after[i].kind
                == ns[i].kind && after[i].own_size == ns[i].own_size,
{
    assert(after[ns.len() + j].parent == p);
}

/// The counters of a walk go up by one for every directory and for every file, and
/// by a file's bytes.
pub proof fn law_every_entry_is_counted(es: Seq<WalkEntry>, k: int)
    requires
        0 <= k < es.len(),
    ensures
        entry_dirs(es, 0) == 0,
        entry_bytes(es, 0) == 0,
        es[k].dir_path is Some ==> entry_dirs(es, k + 1) == entry_dirs(es, k) + 1 && entry_bytes(es, k + 1) == entry_bytes(
            es,
            k,
        ),
        es[k].dir_path is None ==> entry_dirs(es, k + 1) == entry_dirs(es, k) && entry_bytes(es, k + 1) == entry_bytes(
            es,
            k,
        ) + es[k].size,
{
}

/// Counters that agree with a tree count its nodes but the root, and hold its
/// root's totals.
pub proof fn law_counters_tell_the_tree(t: Tally, ns: Seq<Node>)
    requires
        agrees(t, ns),
    ensures
        t.dirs + t.files == ns.len() - 1,
        t.bytes == ns[0].subtree_size,
        t.files == ns[0].file_count,
{
}

} // verus!
