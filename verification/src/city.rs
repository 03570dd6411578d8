//! The cityscape of the folder one is in: which scan it shows, when a scan is
//! started or a stored one loaded, and what it says of its blocks.
use vstd::prelude::*;
use crate::cache::{self, CacheOpen, CacheStats};
use crate::filetype::FileCategory;
use crate::labels::{self, decimal};
use crate::listing::FolderSize;
use crate::location::{self, joined_path, normalize_cache_key};
use crate::paths::{self, component_texts, parent, same_path, PathStyle};
use crate::text::{self, cat3, same_text, to_lower_text};
use crate::time::Stamp;
use crate::tree::{self, Node, NodeId, NodeKind, Tree};
use crate::usn::{self, freshness, Freshness, JournalData, UsnMark};
use crate::walk::{Progress, ScanStats};

verus! {

/// The scan behind the city.
#[derive(Clone, Copy, Debug, PartialEq, Eq, Structural)]
pub enum Scan {
    /// There is none.
    Idle,
    /// It is running, and the city grows with it.
    Running,
    Done(ScanStats),
}

/// The city and what it is of.
pub struct City {
    pub style: PathStyle,
    pub scan: Scan,
    /// The folder that the scanned tree starts at.
    pub root: Option<String>,
    /// The folder that the city shows; where one has left it, it has to follow.
    pub synced: Option<String>,
    /// The node that the city is drawn from.
    pub at: NodeId,
    /// Why there is nothing to see.
    pub note: Option<String>,
    /// Whether a stored scan that was loaded is still current.
    pub freshness: Freshness,
    /// The mark of the volume's journal from when the scan began.
    pub mark: Option<UsnMark>,
    /// When the stored scan of the folder was written, where there is one.
    pub cached: Option<Stamp>,
    /// The folder whose stored scan is being loaded.
    pub loading: Option<String>,
    /// Local folders are scanned on entering.
    pub auto_scan: bool,
}

/// Texts without regard to case.
pub open spec fn lowered(v: Seq<Seq<char>>) -> Seq<Seq<char>> {
    v.map_values(|s: Seq<char>| text::lower_text(s))
}

/// The names that lead from `root` to `dir`; `None` where `dir` is not at or below
/// it, whatever the case.
pub open spec fn way_down(style: PathStyle, root: Seq<char>, dir: Seq<char>) -> Option<Seq<Seq<char>>> {
    let r = lowered(paths::part_texts(style, root));
    let d = lowered(paths::part_texts(style, dir));
    if r.is_prefix_of(d) {
        Some(paths::part_texts(style, dir).skip(r.len() as int))
    } else {
        None
    }
}

/// The scan came to its end and was not cancelled.
pub open spec fn is_complete(scan: Scan) -> bool {
    scan matches Scan::Done(st) && !st.cancelled
}

/// The node of a folder in a tree that starts at `root`.
pub open spec fn node_at(style: PathStyle, ns: Seq<Node>, root: Option<Seq<char>>, dir: Seq<char>) -> Option<NodeId> {
    match root {
        Some(r) => match way_down(style, r, dir) {
            Some(names) => tree::descend(ns, NodeId(0), names),
            None => None,
        },
        None => None,
    }
}

/// The node of a folder in the scanned tree.
pub open spec fn node_for(c: City, ns: Seq<Node>, dir: Seq<char>, complete_only: bool) -> Option<NodeId> {
    if c.scan is Idle || (complete_only && !is_complete(c.scan)) {
        None
    } else {
        node_at(c.style, ns, text::opt_text(c.root), dir)
    }
}

/// The sizes of the folders among the first `k` of the nodes, by lowercase name.
pub open spec fn sizes_among(ns: Seq<Node>, ids: Seq<NodeId>, k: int) -> Seq<(Seq<char>, u64)>
    decreases k,
{
    if k <= 0 {
        Seq::empty()
    } else {
        let n = ns[ids[k - 1].at()];
        let rest = sizes_among(ns, ids, k - 1);
        if n.kind == NodeKind::Dir {
            rest.push((text::lower_text(n.name@), n.subtree_size))
        } else {
            rest
        }
    }
}

/// Folder sizes by their texts.
pub open spec fn size_models(v: Seq<FolderSize>) -> Seq<(Seq<char>, u64)> {
    v.map_values(|f: FolderSize| (f.name@, f.bytes))
}

fn lower_parts(style: PathStyle, p: &str) -> (r: Vec<String>)
    ensures
        text::texts(r@) == lowered(paths::part_texts(style, p@)),
{
    let v = component_texts(style, p);
    let mut out: Vec<String> = Vec::new();
    let mut i: usize = 0;
    while i < v.len()
        invariant
            i <= v@.len(),
            out@.len() == i,
            forall|k: int| 0 <= k < i ==> (#[trigger] out@[k])@ == text::lower_text(v@[k]@),
        decreases v@.len() - i,
    {
        out.push(to_lower_text(v[i].as_str()));
        i += 1;
    }
    proof {
        let ps = paths::part_texts(style, p@);
        assert forall|k: int| 0 <= k < v@.len() implies (#[trigger] text::texts(out@)[k]) == lowered(ps)[k] by {
            assert(text::texts(v@)[k] == v@[k]@);
            assert(out@[k]@ == text::lower_text(v@[k]@));
        }
        assert(text::texts(v@).len() == v@.len());
        assert(text::texts(out@) =~= lowered(ps));
    }
    out
}

fn starts_like(d: &Vec<String>, r: &Vec<String>) -> (b: bool)
    ensures
        b == text::texts(r@).is_prefix_of(text::texts(d@)),
{
    let ghost rs = text::texts(r@);
    let ghost ds = text::texts(d@);
    if r.len() > d.len() {
        return false;
    }
    let mut i: usize = 0;
    while i < r.len()
        invariant
            i <= r@.len(),
            r@.len() <= d@.len(),
            rs == text::texts(r@),
            ds == text::texts(d@),
            forall|k: int| 0 <= k < i ==> (#[trigger] rs[k]) == ds[k],
        decreases r@.len() - i,
    {
        assert(rs[i as int] == r@[i as int]@ && ds[i as int] == d@[i as int]@);
        if !same_text(r[i].as_str(), d[i].as_str()) {
            assert(ds.subrange(0, rs.len() as int)[i as int] != rs[i as int]);
            return false;
        }
        i += 1;
    }
    assert(ds.subrange(0, rs.len() as int) =~= rs);
    true
}

/// The node of a folder in a tree that starts at the folder `root`.
pub fn find_node(style: PathStyle, t: &Tree, root: &str, dir: &str) -> (r: Option<NodeId>)
    requires
        t.wf(),
    ensures
        r == node_at(style, t@, Some(root@), dir@),
        r matches Some(id) ==> id.at() < t@.len(),
{
    let rs = lower_parts(style, root);
    let ds = component_texts(style, dir);
    if !starts_like(&lower_parts(style, dir), &rs) {
        return None;
    }
    let mut names: Vec<&str> = Vec::new();
    let mut i: usize = rs.len();
    while i < ds.len()
        invariant
            rs@.len() <= i <= ds@.len(),
            names@.len() == i - rs@.len(),
            forall|k: int| 0 <= k < names@.len() ==> (#[trigger] names@[k])@ == ds@[k + rs@.len()]@,
        decreases ds@.len() - i,
    {
        names.push(ds[i].as_str());
        i += 1;
    }
    proof {
        let all = text::texts(ds@);
        let n = text::texts(rs@).len() as int;
        assert forall|k: int| 0 <= k < names@.len() implies (#[trigger] tree::borrowed(names@)[k]) == all.skip(n)[k] by {
            assert(names@[k]@ == ds@[k + rs@.len()]@);
            assert(all[k + n] == ds@[k + n]@);
        }
        assert(tree::borrowed(names@) =~= all.skip(n));
    }
    t.find_descendant(Tree::root(), names.as_slice())
}

/// A city that nothing was scanned for.
pub open spec fn new_city(style: PathStyle) -> City {
    City {
        style,
        scan: Scan::Idle,
        root: None,
        synced: None,
        at: NodeId(0),
        note: None,
        freshness: Freshness::Unknown,
        mark: None,
        cached: None,
        loading: None,
        auto_scan: true,
    }
}

impl City {
    /// A city that nothing was scanned for.
    pub fn new(style: PathStyle) -> (r: City)
        ensures
            r == new_city(style),
    {
        City {
            style,
            scan: Scan::Idle,
            root: None,
            synced: None,
            at: Tree::root(),
            note: None,
            freshness: Freshness::Unknown,
            mark: None,
            cached: None,
            loading: None,
            auto_scan: true,
        }
    }

    /// Whether the scan came to its end and was not cancelled.
    pub fn is_complete(&self) -> (r: bool)
        ensures
            r == is_complete(self.scan),
    {
        match self.scan {
            Scan::Done(st) => !st.cancelled,
            _ => false,
        }
    }

    /// The node of a folder in the scanned tree, where the folder is the city's
    /// root or inside it. With `complete_only` the tree of an unfinished or
    /// cancelled scan does not count.
    pub fn city_node_for(&self, t: &Tree, dir: &str, complete_only: bool) -> (r: Option<NodeId>)
        requires
            t.wf(),
        ensures
            r == node_for(*self, t@, dir@, complete_only),
            r matches Some(id) ==> id.at() < t@.len(),
    {
        if matches!(self.scan, Scan::Idle) || (complete_only && !self.is_complete()) {
            return None;
        }
        match &self.root {
            Some(root) => find_node(self.style, t, root.as_str(), dir),
            None => None,
        }
    }

    /// The scanned size of a folder, where a completed scan covers it.
    pub fn scanned_subtree_size(&self, t: &Tree, dir: &str) -> (r: Option<u64>)
        requires
            t.wf(),
        ensures
            r == (match node_for(*self, t@, dir@, true) {
                Some(id) => Some(t@[id.at()].subtree_size),
                None => None,
            }),
    {
        match self.city_node_for(t, dir, true) {
            Some(id) => Some(t.node(id).subtree_size),
            None => None,
        }
    }

    /// The sizes of the subfolders of a folder, where a completed scan covers it.
    pub fn compute_folder_sizes(&self, t: &Tree, dir: &str) -> (r: Option<Vec<FolderSize>>)
        requires
            t.wf(),
        ensures
            match node_for(*self, t@, dir@, true) {
                Some(id) => r matches Some(v) && size_models(v@) == sizes_among(
                    t@,
                    t@[id.at()].children@,
                    t@[id.at()].children@.len() as int,
                ),
                None => r is None,
            },
    {
        let id = match self.city_node_for(t, dir, true) {
            Some(id) => id,
            None => {
                return None;
            },
        };
        let kids = t.children(id);
        proof {
            tree::lemma_children_exist(t@, id.at());
        }
        let mut out: Vec<FolderSize> = Vec::new();
        let mut k: usize = 0;
        assert(size_models(out@) =~= Seq::<(Seq<char>, u64)>::empty());
        while k < kids.len()
            invariant
                t.wf(),
                k <= kids@.len(),
                forall|i: int| 0 <= i < kids@.len() ==> (#[trigger] kids@[i]).at() < t@.len(),
                size_models(out@) == sizes_among(t@, kids@, k as int),
            decreases kids@.len() - k,
        {
            let n = t.node(kids[k]);
            let ghost sofar = size_models(out@);
            if n.kind == NodeKind::Dir {
                let f = FolderSize { name: to_lower_text(n.name.as_str()), bytes: n.subtree_size };
                out.push(f);
                assert(size_models(out@) =~= sofar.push((f.name@, f.bytes)));
            }
            k += 1;
        }
        Some(out)
    }
}

/// The text in quotation marks, with what is special in it escaped.
pub uninterp spec fn quoted_text(s: Seq<char>) -> Seq<char>;

/// The `Debug` form of a `str` in std: the text in double quotes, escaped. What
/// it is in detail is left to std; the result depends on the text alone.
#[verifier::external_body]
fn quoted(s: &str) -> (r: String)
    ensures
        r@ == quoted_text(s@),
{
    format!("{:?}", s)
}

/// A stored scan, ready to be shown.
pub struct LoadedCache {
    pub tree: Tree,
    pub stats: CacheStats,
    pub dominant: Vec<FileCategory>,
}

/// Why a stored scan could not be loaded. Where it is unusable, the file is the
/// problem and can go; otherwise nothing is said of the file, and it stays.
pub struct CacheLoadError {
    pub message: String,
    pub unusable: bool,
}

/// The error has that message.
pub open spec fn is_load_error(e: CacheLoadError, message: Seq<char>, unusable: bool) -> bool {
    e.message@ == message && e.unusable == unusable
}

/// Why a file that holds no tree is refused, from the version that it claims.
pub open spec fn refusal(version: Option<int>) -> Seq<char> {
    match version {
        Some(v) => if v != Tree::CACHE_FORMAT {
            "it was written by an older SECTOR (format v"@ + labels::dec(v as nat) + ", current v"@ + labels::dec(
                Tree::CACHE_FORMAT as nat,
            ) + ")"@
        } else {
            "the file is corrupt"@
        },
        None => "the file is corrupt"@,
    }
}

/// What comes of a file that was opened, for the folder `dir`: its tree, where it
/// holds one of that folder.
pub open spec fn accepted(
    style: PathStyle,
    opened: CacheOpen,
    version: Option<int>,
    dir: Seq<char>,
    r: Result<LoadedCache, CacheLoadError>,
) -> bool {
    match opened {
        CacheOpen::Loaded(t, st) => {
            let name = t@[0].name@;
            if location::cache_key(name) == location::cache_key(dir) {
                r matches Ok(c) && c.tree == t && c.stats == st && tree::dominants(t@, style, c.dominant@)
            } else {
                r matches Err(e) && is_load_error(
                    e,
                    "the file is for "@ + quoted_text(name) + ", not this folder"@,
                    true,
                )
            }
        },
        CacheOpen::Rejected => r matches Err(e) && is_load_error(e, refusal(version), true),
        CacheOpen::TooLarge => r matches Err(e) && is_load_error(e, "the loader stopped unexpectedly"@, false),
    }
}

fn refused(version: Option<u16>) -> (r: String)
    ensures
        r@ == refusal(
            match version {
                Some(v) => Some(v as int),
                None => None,
            },
        ),
{
    match version {
        Some(v) => {
            if v != Tree::CACHE_FORMAT {
                let mut s = cat3(
                    "it was written by an older SECTOR (format v",
                    decimal(v as u64).as_str(),
                    ", current v",
                );
                s.append(decimal(Tree::CACHE_FORMAT as u64).as_str());
                s.append(")");
                s
            } else {
                "the file is corrupt".to_owned()
            }
        },
        None => "the file is corrupt".to_owned(),
    }
}

/// What comes of an opened file for the folder `dir`, from the tree in it and
/// the version that it claims.
pub fn accept_cache(style: PathStyle, opened: CacheOpen, version: Option<u16>, dir: &str) -> (r: Result<
    LoadedCache,
    CacheLoadError,
>)
    requires
        opened matches CacheOpen::Loaded(t, _) ==> t.wf() && tree::sizes_live(t@) && t@.len() > 0,
    ensures
        accepted(
            style,
            opened,
            match version {
                Some(v) => Some(v as int),
                None => None,
            },
            dir@,
            r,
        ),
{
    match opened {
        CacheOpen::Loaded(t, stats) => {
            let name = t.node(Tree::root()).name.clone();
            let a = normalize_cache_key(name.as_str());
            let b = normalize_cache_key(dir);
            if !same_text(a.as_str(), b.as_str()) {
                let message = cat3("the file is for ", quoted(name.as_str()).as_str(), ", not this folder");
                return Err(CacheLoadError { message, unusable: true });
            }
            proof {
                tree::lemma_live_categories_fit(t@, style);
            }
            let dominant = t.dominant_categories_in(style);
            Ok(LoadedCache { tree: t, stats, dominant })
        },
        CacheOpen::Rejected => Err(CacheLoadError { message: refused(version), unusable: true }),
        CacheOpen::TooLarge => Err(
            CacheLoadError { message: "the loader stopped unexpectedly".to_owned(), unusable: false },
        ),
    }
}

/// Takes the bytes of the stored scan `file` for the folder `dir`, or why they
/// could not be read: the scan, where the file holds one of that folder.
pub fn load_cache_file(style: PathStyle, file: &str, read: Result<Vec<u8>, String>, dir: &str) -> (r: Result<
    LoadedCache,
    CacheLoadError,
>)
    ensures
        match read {
            Err(e) => r matches Err(f) && is_load_error(f, "couldn't read "@ + file@ + ": "@ + e@, false),
            Ok(bytes) => {
                &&& r is Ok ==> cache::cache_record(bytes@) is Some && cache::restored(
                    cache::cache_record(bytes@)->0,
                    r->Ok_0.tree@,
                ) && r->Ok_0.stats == (cache::cache_record(bytes@)->0).stats && tree::dominants(
                    r->Ok_0.tree@,
                    style,
                    r->Ok_0.dominant@,
                )
                &&& match cache::cache_record(bytes@) {
                    Some(rec) => if !cache::record_ok(rec) {
                        r matches Err(e) && is_load_error(e, refusal(cache::format_version_spec(bytes@)), true)
                    } else if !cache::record_fits(rec) {
                        r matches Err(e) && is_load_error(e, "the loader stopped unexpectedly"@, false)
                    } else if location::cache_key(rec.name[0]) != location::cache_key(dir@) {
                        r matches Err(e) && is_load_error(
                            e,
                            "the file is for "@ + quoted_text(rec.name[0]) + ", not this folder"@,
                            true,
                        )
                    } else {
                        r is Ok
                    },
                    None => r matches Err(e) && is_load_error(
                        e,
                        refusal(cache::format_version_spec(bytes@)),
                        true,
                    ),
                }
            },
        },
{
    match read {
        Err(e) => {
            let mut message = cat3("couldn't read ", file, ": ");
            message.append(e.as_str());
            Err(CacheLoadError { message, unusable: false })
        },
        Ok(bytes) => {
            let opened = Tree::open_cache(bytes.as_slice());
            let version = Tree::cache_format_version(bytes.as_slice());
            accept_cache(style, opened, version, dir)
        },
    }
}

/// The city with nothing to show.
pub open spec fn cleared(c: City) -> City {
    City { scan: Scan::Idle, at: NodeId(0), freshness: Freshness::Unknown, note: None, ..c }
}

/// The city of a scan of `dir` that has begun.
pub open spec fn scanning(c: City, d: City, dir: Seq<char>, mark: Option<UsnMark>) -> bool {
    &&& d == (City {
        scan: Scan::Running,
        at: NodeId(0),
        note: None,
        freshness: Freshness::Unknown,
        mark,
        root: d.root,
        synced: d.synced,
        ..c
    })
    &&& text::opt_text(d.root) == Some(dir)
    &&& text::opt_text(d.synced) == Some(dir)
}

/// Whether entering `dir` without a stored scan begins a scan: where that is
/// wanted, in local folders below a root.
pub open spec fn scans_on_entry(c: City, dir: Seq<char>, network: bool) -> bool {
    c.auto_scan && paths::parent_spec(c.style, dir) is Some && !network
}

/// What the tally of a stored scan comes to.
pub open spec fn stored_stats(cs: CacheStats) -> ScanStats {
    ScanStats { dirs: cs.dirs, files: cs.files, bytes: cs.bytes, errors: 0, elapsed_millis: 0, cancelled: false }
}

/// The city after entering `dir` without a stored scan.
pub open spec fn entered(c: City, d: City, dir: Seq<char>, network: bool, mark: Option<UsnMark>, begins: bool) -> bool {
    &&& begins == scans_on_entry(c, dir, network)
    &&& if begins {
        scanning(c, d, dir, mark)
    } else {
        d == cleared(c)
    }
}

/// The city, where `gone` without the stored scan it could have loaded.
pub open spec fn without_cache(c: City, gone: bool) -> City {
    City {
        cached: if gone {
            None
        } else {
            c.cached
        },
        ..c
    }
}

/// What the city says when a stored scan could not be loaded.
pub open spec fn load_note(message: Seq<char>) -> Seq<char> {
    "Couldn't load the cached scan — "@ + message + ". Press Scan to rebuild it."@
}

/// What is done about a stored scan that was loaded, or that could not be.
#[derive(Clone, Copy, Debug, PartialEq, Eq, Structural)]
pub struct LoadFollowUp {
    /// The file is of no use and is to be removed.
    pub remove_file: bool,
    /// A scan is to begin.
    pub begin_scan: bool,
}

impl City {
    /// Drops to showing nothing.
    pub fn city_idle(&mut self)
        ensures
            *final(self) == cleared(*old(self)),
    {
        self.scan = Scan::Idle;
        self.at = Tree::root();
        self.freshness = Freshness::Unknown;
        self.note = None;
    }

    /// A scan of `dir` begins, on a volume whose journal stands at `mark`.
    pub fn start_scan(&mut self, dir: &str, mark: Option<UsnMark>)
        ensures
            scanning(*old(self), *final(self), dir@, mark),
    {
        self.scan = Scan::Running;
        self.at = Tree::root();
        self.note = None;
        self.freshness = Freshness::Unknown;
        self.mark = mark;
        self.root = Some(dir.to_owned());
        self.synced = Some(dir.to_owned());
    }

    /// The stored scan of `dir` is being loaded.
    pub fn start_cache_load(&mut self, dir: &str)
        ensures
            load_begun(*old(self), *final(self), dir@),
    {
        self.city_idle();
        self.root = Some(dir.to_owned());
        self.synced = Some(dir.to_owned());
        self.loading = Some(dir.to_owned());
    }

    /// There is no stored scan of `dir`. Whether a scan begins.
    pub fn city_no_cache(&mut self, dir: &str, network: bool, mark: Option<UsnMark>) -> (begins: bool)
        ensures
            entered(*old(self), *final(self), dir@, network, mark, begins),
    {
        if self.auto_scan && parent(self.style, dir).is_some() && !network {
            self.start_scan(dir, mark);
            true
        } else {
            self.city_idle();
            false
        }
    }

    /// Shows a stored scan of `dir` on a volume that answered `journal`.
    pub fn install_cache(&mut self, stats: CacheStats, dir: &str, journal: Option<JournalData>)
        ensures
            *final(self) == (City {
                scan: Scan::Done(stored_stats(stats)),
                at: NodeId(0),
                freshness: usn::freshness_spec(
                    journal,
                    UsnMark { journal_id: stats.usn_journal_id, next_usn: stats.usn_next },
                ),
                root: final(self).root,
                synced: final(self).synced,
                ..*old(self)
            }),
            text::opt_text(final(self).root) == Some(dir@),
            text::opt_text(final(self).synced) == Some(dir@),
    {
        let mark = UsnMark { journal_id: stats.usn_journal_id, next_usn: stats.usn_next };
        self.freshness = freshness(journal, &mark);
        self.at = Tree::root();
        self.root = Some(dir.to_owned());
        self.synced = Some(dir.to_owned());
        self.scan = Scan::Done(
            ScanStats {
                dirs: stats.dirs,
                files: stats.files,
                bytes: stats.bytes,
                errors: 0,
                elapsed_millis: 0,
                cancelled: false,
            },
        );
    }

    /// Whether what was loaded for a folder still concerns `dir`, the folder one
    /// is in. The load is over either way.
    pub fn take_load(&mut self, dir: &str) -> (r: bool)
        ensures
            *final(self) == (City { loading: None, ..*old(self) }),
            r == (old(self).loading matches Some(l) && paths::same_path_spec(old(self).style, l@, dir@)),
    {
        let mut l: Option<String> = None;
        std::mem::swap(&mut l, &mut self.loading);
        match l {
            Some(l) => same_path(self.style, l.as_str(), dir),
            None => false,
        }
    }

    /// The stored scan of `dir` could not be loaded.
    pub fn load_failed(&mut self, e: &CacheLoadError, dir: &str, network: bool, mark: Option<UsnMark>) -> (r: LoadFollowUp)
        ensures
            r.remove_file == e.unusable,
            exists|d: City|
                #[trigger] entered(without_cache(*old(self), e.unusable), d, dir@, network, mark, r.begin_scan) && {
                    &&& *final(self) == (City { note: final(self).note, ..d })
                    &&& text::opt_text(final(self).note) == (if r.begin_scan {
                        None
                    } else {
                        Some(load_note(e.message@))
                    })
                },
    {
        if e.unusable {
            self.cached = None;
        }
        let begin_scan = self.city_no_cache(dir, network, mark);
        let ghost d = *self;
        if !begin_scan {
            self.note = Some(
                cat3(
                    "Couldn't load the cached scan — ",
                    e.message.as_str(),
                    ". Press Scan to rebuild it.",
                ),
            );
        }
        let r = LoadFollowUp { remove_file: e.unusable, begin_scan };
        assert(entered(without_cache(*old(self), e.unusable), d, dir@, network, mark, r.begin_scan));
        r
    }

    /// The scan came to its end.
    pub fn scan_finished(&mut self, stats: ScanStats)
        ensures
            *final(self) == (City { scan: Scan::Done(stats), ..*old(self) }),
    {
        self.scan = Scan::Done(stats);
    }

    /// The scanner stopped without a word: what it had found stays to be seen as
    /// a cancelled scan.
    pub fn scan_died(&mut self, p: Progress, elapsed_millis: u64)
        ensures
            *final(self) == (City {
                scan: Scan::Done(
                    ScanStats {
                        dirs: p.dirs,
                        files: p.files,
                        bytes: p.bytes,
                        errors: p.errors,
                        elapsed_millis,
                        cancelled: true,
                    },
                ),
                ..*old(self)
            }),
            !is_complete(final(self).scan),
    {
        self.scan = Scan::Done(
            ScanStats {
                dirs: p.dirs,
                files: p.files,
                bytes: p.bytes,
                errors: p.errors,
                elapsed_millis,
                cancelled: true,
            },
        );
    }
}

/// A scan that found nothing but errors: its root could not be read.
pub open spec fn found_nothing(st: ScanStats) -> bool {
    st.dirs == 0 && st.files == 0 && st.errors > 0
}

/// What is stored with a finished scan: nothing of a cancelled one, nor of one
/// whose root could not be read.
pub open spec fn to_store(st: ScanStats, mark: Option<UsnMark>, now: u64) -> Option<CacheStats> {
    if st.cancelled || found_nothing(st) {
        None
    } else {
        let m = match mark {
            Some(m) => m,
            None => UsnMark { journal_id: 0, next_usn: 0 },
        };
        Some(
            CacheStats {
                dirs: st.dirs,
                files: st.files,
                bytes: st.bytes,
                saved_unix: now,
                usn_journal_id: m.journal_id,
                usn_next: m.next_usn,
            },
        )
    }
}

/// What is stored with a finished scan, if it is stored.
pub fn cache_stats(st: &ScanStats, mark: Option<UsnMark>, now: u64) -> (r: Option<CacheStats>)
    ensures
        r == to_store(*st, mark, now),
{
    if st.cancelled || (st.dirs == 0 && st.files == 0 && st.errors > 0) {
        return None;
    }
    let m = match mark {
        Some(m) => m,
        None => UsnMark::none(),
    };
    Some(
        CacheStats {
            dirs: st.dirs,
            files: st.files,
            bytes: st.bytes,
            saved_unix: now,
            usn_journal_id: m.journal_id,
            usn_next: m.next_usn,
        },
    )
}

/// A scan that was stored on a volume with a journal that has not moved since
/// comes back as current.
pub proof fn law_stored_scan_is_current(st: ScanStats, d: JournalData, now: u64, cs: CacheStats)
    requires
        to_store(st, Some(UsnMark { journal_id: d.journal_id, next_usn: d.next_usn }), now) == Some(cs),
        d.journal_id != 0,
        d.first_usn <= d.next_usn,
    ensures
        usn::freshness_spec(Some(d), UsnMark { journal_id: cs.usn_journal_id, next_usn: cs.usn_next })
            == Freshness::Current,
        stored_stats(cs) == (ScanStats { errors: 0, elapsed_millis: 0, ..st }),
{
}

/// Where the city has to go to show the folder one is in.
#[derive(Clone, Copy, Debug, PartialEq, Eq, Structural)]
pub enum Follow {
    /// It shows it.
    Stay,
    /// The folder is in the scanned tree.
    Reroot(NodeId),
    /// It has to be loaded or scanned.
    Reload,
}

/// Where the city has to go to show `dir`.
pub open spec fn follow_spec(c: City, ns: Option<Seq<Node>>, dir: Seq<char>) -> Follow {
    if c.synced matches Some(s) && paths::same_path_spec(c.style, s@, dir) {
        Follow::Stay
    } else {
        match ns {
            Some(ns) => match node_for(c, ns, dir, false) {
                Some(id) => Follow::Reroot(id),
                None => Follow::Reload,
            },
            None => Follow::Reload,
        }
    }
}

/// Where drilling has led: the folder of the node that the city is drawn from,
/// once the scan is done.
pub open spec fn drilled_spec(c: City, ns: Seq<Node>) -> Option<Seq<char>> {
    if !(c.scan is Done) {
        None
    } else if c.at == NodeId(0) {
        text::opt_text(c.root)
    } else {
        Some(location::joined_path_spec(c.style, tree::names_to(ns, c.at.at())))
    }
}

impl City {
    /// Where the city has to go to show `dir`, the folder one is in; `t` is the
    /// scanned tree, where there is one.
    pub fn follow(&self, t: Option<&Tree>, dir: &str) -> (r: Follow)
        requires
            t matches Some(t) ==> t.wf(),
        ensures
            r == follow_spec(
                *self,
                match t {
                    Some(t) => Some(t@),
                    None => None,
                },
                dir@,
            ),
            r matches Follow::Reroot(id) ==> id.at() < t->0@.len(),
    {
        match &self.synced {
            Some(s) => {
                if same_path(self.style, s.as_str(), dir) {
                    return Follow::Stay;
                }
            },
            None => {},
        }
        match t {
            Some(t) => match self.city_node_for(t, dir, false) {
                Some(id) => Follow::Reroot(id),
                None => Follow::Reload,
            },
            None => Follow::Reload,
        }
    }

    /// Shows `dir` from its node in the scanned tree.
    pub fn reroot(&mut self, id: NodeId, dir: &str)
        ensures
            *final(self) == (City { at: id, synced: final(self).synced, ..*old(self) }),
            text::opt_text(final(self).synced) == Some(dir@),
    {
        self.at = id;
        self.synced = Some(dir.to_owned());
    }

    /// The folder that drilling has led to, where it is not `dir`: names that
    /// differ in case only are one folder.
    pub fn drilled(&self, t: &Tree, dir: &str) -> (r: Option<String>)
        requires
            t.wf(),
            self.at.at() < t@.len(),
        ensures
            text::opt_text(r) == (match drilled_spec(*self, t@) {
                Some(p) => if text::lower_text(p) == text::lower_text(dir@) {
                    None
                } else {
                    Some(p)
                },
                None => None,
            }),
    {
        if !matches!(self.scan, Scan::Done(_)) {
            return None;
        }
        let p = if self.at == Tree::root() {
            match &self.root {
                Some(r) => r.clone(),
                None => {
                    return None;
                },
            }
        } else {
            let names = t.path_components(self.at);
            joined_path(self.style, names.as_slice())
        };
        if same_text(to_lower_text(p.as_str()).as_str(), to_lower_text(dir).as_str()) {
            None
        } else {
            Some(p)
        }
    }

    /// Goes one node up in the scanned tree.
    pub fn step_up(&mut self, t: &Tree)
        requires
            t.wf(),
            old(self).at.at() < t@.len(),
        ensures
            *final(self) == (City {
                at: if old(self).at == NodeId(0) {
                    old(self).at
                } else {
                    t@[old(self).at.at()].parent
                },
                ..*old(self)
            }),
            final(self).at.at() < t@.len(),
    {
        if self.at != Tree::root() {
            proof {
                assert(tree::parents_ok(t@));
                assert(tree::parent_of(t@, self.at.at()) < self.at.at());
            }
            self.at = t.node(self.at).parent;
        }
    }

    /// Draws the city from a block that was clicked: only a folder with something
    /// in it can be entered.
    pub fn drill(&mut self, t: &Tree, id: NodeId)
        requires
            t.wf(),
            id.at() < t@.len(),
        ensures
            *final(self) == (City {
                at: if is_drillable(t@, id) {
                    id
                } else {
                    old(self).at
                },
                ..*old(self)
            }),
    {
        if t.node(id).kind == NodeKind::Dir && t.children(id).len() > 0 {
            self.at = id;
        }
    }
}

/// A folder with something in it.
pub open spec fn is_drillable(ns: Seq<Node>, id: NodeId) -> bool {
    ns[id.at()].kind == NodeKind::Dir && ns[id.at()].children@.len() > 0
}

/// What entering a folder asks for.
#[derive(Clone, Copy, Debug, PartialEq, Eq, Structural)]
pub enum Entering {
    /// Its stored scan is loaded.
    Load,
    /// A scan begins.
    Scan,
    Nothing,
}

/// The city is of `dir`.
pub open spec fn placed_at(c: City, d: City, dir: Seq<char>) -> bool {
    &&& d == (City { root: d.root, synced: d.synced, ..c })
    &&& text::opt_text(d.root) == Some(dir)
    &&& text::opt_text(d.synced) == Some(dir)
}

/// The city without a scan, while the stored one of `dir` is loaded.
pub open spec fn load_begun(c: City, d: City, dir: Seq<char>) -> bool {
    &&& d == (City { root: d.root, synced: d.synced, loading: d.loading, ..cleared(c) })
    &&& text::opt_text(d.root) == Some(dir)
    &&& text::opt_text(d.synced) == Some(dir)
    &&& text::opt_text(d.loading) == Some(dir)
}

/// The city turned to `dir`: to its stored scan where there is one, else to a
/// scan or to nothing.
pub open spec fn turned_to(
    c: City,
    d: City,
    dir: Seq<char>,
    stored: bool,
    written: Option<Stamp>,
    network: bool,
    mark: Option<UsnMark>,
    what: Entering,
) -> bool {
    let a = City { cached: written, ..c };
    if stored {
        what == Entering::Load && load_begun(a, d, dir)
    } else {
        exists|b: City, begins: bool|
            #[trigger] entered(a, b, dir, network, mark, begins) && placed_at(b, d, dir) && what == (if begins {
                Entering::Scan
            } else {
                Entering::Nothing
            })
    }
}

impl City {
    /// Turns to the folder we are in. `stored` says whether there is a stored scan
    /// of it, and `written` when it was written, as far as that is known.
    pub fn sync_city(
        &mut self,
        dir: &str,
        stored: bool,
        written: Option<Stamp>,
        network: bool,
        mark: Option<UsnMark>,
    ) -> (r: Entering)
        ensures
            turned_to(*old(self), *final(self), dir@, stored, written, network, mark, r),
    {
        self.cached = written;
        let ghost a = *self;
        if stored {
            self.start_cache_load(dir);
            return Entering::Load;
        }
        let begins = self.city_no_cache(dir, network, mark);
        let ghost b = *self;
        self.root = Some(dir.to_owned());
        self.synced = Some(dir.to_owned());
        assert(entered(a, b, dir@, network, mark, begins));
        if begins {
            Entering::Scan
        } else {
            Entering::Nothing
        }
    }
}

/// A city that was turned to a folder stays there, whatever its tree, until we
/// are elsewhere; and it is loaded or scanned anew only for a folder that is not
/// in its tree.
pub proof fn law_city_follows_only_when_left(c: City, ns: Option<Seq<Node>>, dir: Seq<char>)
    ensures
        text::opt_text(c.synced) == Some(dir) ==> follow_spec(c, ns, dir) == Follow::Stay,
        follow_spec(c, ns, dir) == Follow::Reload ==> (ns matches Some(ns) ==> node_for(c, ns, dir, false) is None),
{
}

/// A network folder and a drive's root are never scanned on entering.
pub proof fn law_network_and_roots_wait(c: City, d: City, dir: Seq<char>, network: bool, mark: Option<UsnMark>, begins: bool)
    requires
        entered(c, d, dir, network, mark, begins),
        network || paths::parent_spec(c.style, dir) is None,
    ensures
        !begins,
        d.scan is Idle,
{
}

/// The tree of a scan that runs, or that was cancelled, is not taken for the sizes
/// of folders; a finished one is. The folder that was scanned is its own root.
pub proof fn law_only_finished_scans_count(c: City, ns: Seq<Node>, dir: Seq<char>)
    ensures
        c.scan is Running ==> node_for(c, ns, dir, true) is None,
        c.scan matches Scan::Done(st) ==> (st.cancelled ==> node_for(c, ns, dir, true) is None),
        c.scan is Idle ==> node_for(c, ns, dir, true) is None && node_for(c, ns, dir, false) is None,
        !(c.scan is Idle) && text::opt_text(c.root) == Some(dir) ==> node_for(c, ns, dir, false) == Some(NodeId(0)),
        c.scan matches Scan::Done(st) ==> (!st.cancelled ==> node_for(c, ns, dir, true) == node_for(c, ns, dir, false)),
{
    let d = lowered(paths::part_texts(c.style, dir));
    assert(d.subrange(0, d.len() as int) =~= d);
    assert(d.len() == paths::part_texts(c.style, dir).len());
    assert(paths::part_texts(c.style, dir).skip(d.len() as int) =~= Seq::empty());
}

/// The sizes that a scan gives the folders of a list are the bytes at and under
/// them, every folder's and no file's.
pub proof fn law_folder_sizes_are_what_is_under(ns: Seq<Node>, id: NodeId, c: NodeId)
    requires
        tree::nodes_ok(ns),
        tree::sizes_live(ns),
        id.at() < ns.len(),
        0 < c.at() < ns.len(),
        ns[c.at()].parent == id,
    ensures
        ({
            let v = sizes_among(ns, ns[id.at()].children@, ns[id.at()].children@.len() as int);
            &&& ns[c.at()].kind == NodeKind::Dir ==> exists|k: int|
                0 <= k < v.len() && (#[trigger] v[k]).0 == text::lower_text(ns[c.at()].name@) && v[k].1
                    == tree::bytes_under(ns, c.at(), ns.len() as int)
            &&& forall|k: int|
                0 <= k < v.len() ==> exists|d: int|
                    0 < d < ns.len() && (#[trigger] ns[d]).parent == id && ns[d].kind == NodeKind::Dir && (
                    #[trigger] v[k]).0 == text::lower_text(ns[d].name@) && v[k].1 == tree::bytes_under(
                        ns,
                        d,
                        ns.len() as int,
                    )
        }),
{
    let kids = ns[id.at()].children@;
    tree::law_children_name_their_parent(ns, id.at());
    assert(kids.contains(c));
    let j = choose|j: int| 0 <= j < kids.len() && kids[j] == c;
    lemma_sizes_among(ns, kids, kids.len() as int, j);
    let v = sizes_among(ns, kids, kids.len() as int);
    assert(ns[c.at()].subtree_size == tree::bytes_under(ns, c.at(), ns.len() as int));
    assert forall|k: int| 0 <= k < v.len() implies exists|d: int|
        0 < d < ns.len() && (#[trigger] ns[d]).parent == id && ns[d].kind == NodeKind::Dir && (#[trigger] v[k]).0
            == text::lower_text(ns[d].name@) && v[k].1 == tree::bytes_under(ns, d, ns.len() as int) by {
        let i = choose|i: int|
            0 <= i < kids.len() && ns[(#[trigger] kids[i]).at()].kind == NodeKind::Dir && v[k] == (
                text::lower_text(ns[kids[i].at()].name@),
                ns[kids[i].at()].subtree_size,
            );
        assert(kids.contains(kids[i]));
        let d = kids[i].at();
        assert(ns[d].subtree_size == tree::bytes_under(ns, d, ns.len() as int));
        assert(ns[d].parent == id);
    }
}

proof fn lemma_sizes_among(ns: Seq<Node>, ids: Seq<NodeId>, n: int, j: int)
    requires
        0 <= j < n <= ids.len(),
    ensures
        ns[ids[j].at()].kind == NodeKind::Dir ==> exists|k: int|
            0 <= k < sizes_among(ns, ids, n).len() && #[trigger] sizes_among(ns, ids, n)[k] == (
                text::lower_text(ns[ids[j].at()].name@),
                ns[ids[j].at()].subtree_size,
            ),
        forall|k: int|
            0 <= k < sizes_among(ns, ids, n).len() ==> exists|i: int|
                0 <= i < n && ns[(#[trigger] ids[i]).at()].kind == NodeKind::Dir && #[trigger] sizes_among(ns, ids, n)[k] == (
                    text::lower_text(ns[ids[i].at()].name@),
                    ns[ids[i].at()].subtree_size,
                ),
    decreases n,
{
    let b = sizes_among(ns, ids, n);
    let a = sizes_among(ns, ids, n - 1);
    if n > 1 {
        lemma_sizes_among(
            ns,
            ids,
            n - 1,
            if j < n - 1 {
                j
            } else {
                0
            },
        );
    }
    let last = ns[ids[n - 1].at()];
    if ns[ids[j].at()].kind == NodeKind::Dir {
        if j < n - 1 {
            let k = choose|k: int|
                0 <= k < a.len() && #[trigger] a[k] == (
                    text::lower_text(ns[ids[j].at()].name@),
                    ns[ids[j].at()].subtree_size,
                );
            assert(b[k] == a[k]);
        } else {
            assert(b[b.len() - 1] == (text::lower_text(last.name@), last.subtree_size));
        }
    }
    assert forall|k: int| 0 <= k < b.len() implies exists|i: int|
        0 <= i < n && ns[(#[trigger] ids[i]).at()].kind == NodeKind::Dir && #[trigger] b[k] == (
            text::lower_text(ns[ids[i].at()].name@),
            ns[ids[i].at()].subtree_size,
        ) by {
        if k < a.len() {
            assert(b[k] == a[k]);
            assert(n > 1);
            let i = choose|i: int|
                0 <= i < n - 1 && ns[(#[trigger] ids[i]).at()].kind == NodeKind::Dir && a[k] == (
                    text::lower_text(ns[ids[i].at()].name@),
                    ns[ids[i].at()].subtree_size,
                );
            assert(ns[ids[i].at()].kind == NodeKind::Dir);
        } else {
            assert(ns[ids[n - 1].at()].kind == NodeKind::Dir);
        }
    }
}

/// A scan is stored with its own tally, unless it was cancelled or found nothing
/// but errors.
pub proof fn law_finished_scans_are_stored(st: ScanStats, mark: Option<UsnMark>, now: u64)
    ensures
        st.cancelled ==> to_store(st, mark, now) is None,
        st.dirs == 0 && st.files == 0 && st.errors > 0 ==> to_store(st, mark, now) is None,
        !st.cancelled && (st.dirs > 0 || st.files > 0 || st.errors == 0) ==> (to_store(st, mark, now) matches Some(c)
            && c.dirs == st.dirs && c.files == st.files && c.bytes == st.bytes && c.saved_unix == now && (mark matches Some(m)
            ==> c.usn_journal_id == m.journal_id && c.usn_next == m.next_usn) && (mark is None ==> c.usn_journal_id == 0)),
{
}

/// Entering a folder begins a scan exactly where scanning on entering is on, the
/// folder is local, and it is no root; otherwise the city is empty and waits.
pub proof fn law_entering_scans_local_folders(
    c: City,
    d: City,
    dir: Seq<char>,
    network: bool,
    mark: Option<UsnMark>,
    begins: bool,
)
    requires
        entered(c, d, dir, network, mark, begins),
    ensures
        begins <==> c.auto_scan && !network && paths::parent_spec(c.style, dir) is Some,
        begins ==> d.scan is Running && text::opt_text(d.root) == Some(dir) && d.mark == mark,
        !begins ==> d.scan is Idle,
        d.auto_scan == c.auto_scan,
{
}

/// A stored scan is taken only for the folder that it is of.
pub proof fn law_scan_of_another_folder_is_refused(
    style: PathStyle,
    opened: CacheOpen,
    version: Option<int>,
    dir: Seq<char>,
    r: Result<LoadedCache, CacheLoadError>,
)
    requires
        accepted(style, opened, version, dir, r),
    ensures
        r is Ok ==> (opened matches CacheOpen::Loaded(t, st) && r->Ok_0.tree == t && r->Ok_0.stats == st
            && location::cache_key(t@[0].name@) == location::cache_key(dir)),
        opened is Loaded && location::cache_key(opened->Loaded_0@[0].name@) != location::cache_key(dir) ==> (r matches Err(e)
            && e.unusable),
        opened is Rejected ==> (r matches Err(e) && e.unusable),
        opened is TooLarge ==> (r matches Err(e) && !e.unusable),
{
}

/// Turning to a folder makes the city that folder's: its stored scan is loaded
/// where there is one, and no scan is shown meanwhile; else a scan begins exactly
/// where scanning by itself is wanted and the folder is local and below a root.
pub proof fn law_city_turns_to_the_folder(
    c: City,
    d: City,
    dir: Seq<char>,
    stored: bool,
    written: Option<Stamp>,
    network: bool,
    mark: Option<UsnMark>,
    what: Entering,
)
    requires
        turned_to(c, d, dir, stored, written, network, mark, what),
    ensures
        d.root is Some && d.root->0@ == dir,
        d.synced is Some && d.synced->0@ == dir,
        d.at == NodeId(0),
        d.cached == written,
        d.auto_scan == c.auto_scan && d.style == c.style,
        what is Load <==> stored,
        what is Scan <==> !stored && c.auto_scan && !network && paths::parent_spec(c.style, dir) is Some,
        what is Load ==> d.loading is Some && d.loading->0@ == dir && d.scan is Idle,
        what is Scan ==> d.scan is Running && d.mark == mark,
        what is Nothing ==> d.scan is Idle,
{
}

/// Drilling leads to the folder of the node the city is drawn from: to the scanned
/// folder at the root, and to nothing while a scan is not done.
pub proof fn law_drilling_leads_to_the_folder(c: City, ns: Seq<Node>)
    ensures
        !(c.scan is Done) ==> drilled_spec(c, ns) is None,
        c.scan is Done && c.at.0 == 0 ==> (drilled_spec(c, ns) is Some <==> c.root is Some) && (c.root is Some
            ==> drilled_spec(c, ns)->0 == c.root->0@),
        c.scan is Done && c.at.0 != 0 ==> drilled_spec(c, ns) == Some(
            location::joined_path_spec(c.style, tree::names_to(ns, c.at.0 as int)),
        ),
{
}

/// Only a folder with something in it can be entered: in a tree, one that some
/// node names as its parent.
pub proof fn law_only_filled_folders_are_entered(ns: Seq<Node>, id: NodeId)
    requires
        tree::nodes_ok(ns),
        id.0 < ns.len(),
    ensures
        ns[id.0 as int].kind is File ==> !is_drillable(ns, id),
        ns[id.0 as int].kind is Dir ==> (is_drillable(ns, id) <==> exists|c: int|
            0 < c < ns.len() && (#[trigger] ns[c]).parent.0 == id.0),
{
    let kids = ns[id.0 as int].children@;
    tree::law_children_name_their_parent(ns, id.0 as int);
    if kids.len() > 0 {
        assert(kids.contains(kids[0]));
        assert(ns[kids[0].at()].parent.0 == id.0);
    }
    if exists|c: int| 0 < c < ns.len() && (#[trigger] ns[c]).parent.0 == id.0 {
        let c = choose|c: int| 0 < c < ns.len() && (#[trigger] ns[c]).parent.0 == id.0;
        assert(c <= u32::MAX);
        assert(NodeId(c as u32).at() == c);
        assert(kids.contains(NodeId(c as u32)));
        assert(kids[kids.index_of(NodeId(c as u32))] == NodeId(c as u32));
    }
}

/// A folder lies in a scan where its first parts are those of the scanned folder,
/// whatever their case; the parts behind them lead to it.
pub proof fn law_way_down_ignores_case(style: PathStyle, root: Seq<char>, dir: Seq<char>)
    ensures
        ({
            let r = paths::part_texts(style, root);
            let d = paths::part_texts(style, dir);
            &&& way_down(style, root, dir) is Some <==> r.len() <= d.len() && forall|i: int|
                0 <= i < r.len() ==> text::lower_text(#[trigger] r[i]) == text::lower_text(d[i])
            &&& way_down(style, root, dir) is Some ==> way_down(style, root, dir)->0 == d.skip(r.len() as int)
        }),
{
    let r = paths::part_texts(style, root);
    let d = paths::part_texts(style, dir);
    let a = lowered(r);
    let b = lowered(d);
    if a.is_prefix_of(b) {
        assert forall|i: int| 0 <= i < r.len() implies text::lower_text(#[trigger] r[i]) == text::lower_text(d[i]) by {
            assert(a[i] == b[i]);
        }
    }
    if r.len() <= d.len() && forall|i: int|
        0 <= i < r.len() ==> text::lower_text(#[trigger] r[i]) == text::lower_text(d[i]) {
        assert forall|i: int| 0 <= i < a.len() implies a[i] == b[i] by {
            assert(a[i] == text::lower_text(r[i]));
        }
        assert(a =~= b.subrange(0, a.len() as int));
    }
}

/// The city stays where it shows the folder one is in. Else it shows that folder
/// from the scanned tree where it is found there, and is made anew where it is not.
pub proof fn law_city_follows(c: City, ns: Option<Seq<Node>>, dir: Seq<char>)
    ensures
        follow_spec(c, ns, dir) is Stay <==> c.synced is Some && paths::same_path_spec(c.style, c.synced->0@, dir),
        !(follow_spec(c, ns, dir) is Stay) && (ns is None || c.scan is Idle || c.root is None) ==> follow_spec(c, ns, dir)
            is Reload,
        follow_spec(c, ns, dir) is Reroot <==> !(c.synced is Some && paths::same_path_spec(c.style, c.synced->0@, dir))
            && ns is Some && node_for(c, ns->0, dir, false) is Some,
        follow_spec(c, ns, dir) is Reroot ==> follow_spec(c, ns, dir)->0 == node_for(c, ns->0, dir, false)->0,
{
}

} // verus!
