//! The stored scans on disk: which files go when there are too many bytes of
//! them.
use vstd::prelude::*;
use crate::order::{self, Rows};
use crate::paths::{self, extension, same_path, PathStyle};
use crate::text::same_text;
use crate::time::Stamp;

verus! {

/// How many bytes of stored scans are kept.
pub const CACHE_BYTES: u64 = 1_073_741_824;

/// A file in the folder of stored scans.
pub struct StoredFile {
    pub path: String,
    pub bytes: u64,
    pub modified: Stamp,
}

/// A stored scan by its name.
pub open spec fn is_scan(style: PathStyle, f: StoredFile) -> bool {
    paths::extension_spec(style, f.path@) == Some("bin"@)
}

/// The stored scans among the first `k` files.
pub open spec fn scans_among(style: PathStyle, fs: Seq<StoredFile>, k: int) -> Seq<StoredFile>
    decreases k,
{
    if k <= 0 {
        Seq::empty()
    } else {
        let rest = scans_among(style, fs, k - 1);
        if is_scan(style, fs[k - 1]) {
            rest.push(fs[k - 1])
        } else {
            rest
        }
    }
}

/// The bytes of the first `k` files.
pub open spec fn bytes_of(fs: Seq<StoredFile>, k: int) -> nat
    decreases k,
{
    if k <= 0 {
        0
    } else {
        bytes_of(fs, k - 1) + fs[k - 1].bytes as nat
    }
}

/// Files stand oldest first, those of one time as they stood.
pub open spec fn oldest_first(fs: Seq<StoredFile>, p: Seq<usize>) -> bool {
    &&& p.len() == fs.len()
    &&& forall|i: int| 0 <= i < p.len() ==> (#[trigger] p[i]) < fs.len()
    &&& forall|i: int, j: int|
        0 <= i < j < p.len() ==> {
            let (x, y) = ((#[trigger] p[i]) as int, (#[trigger] p[j]) as int);
            fs[x].modified.at() < fs[y].modified.at() || (fs[x].modified.at() == fs[y].modified.at() && x < y)
        }
}

/// `r` is `fs` oldest first.
pub open spec fn aged(fs: Seq<StoredFile>, r: Seq<StoredFile>) -> bool {
    exists|p: Seq<usize>| #[trigger] oldest_first(fs, p) && r == p.map_values(|i: usize| fs[i as int])
}

/// What is being removed to make room, oldest first.
pub struct Pruning {
    pub style: PathStyle,
    /// The file that stays whatever its age.
    pub keep: String,
    pub files: Vec<StoredFile>,
    /// How many files have been looked at.
    pub at: usize,
    /// How many bytes there still are too many.
    pub over: u128,
}

fn copy_file(f: &StoredFile) -> (r: StoredFile)
    ensures
        r == *f,
{
    StoredFile { path: f.path.clone(), bytes: f.bytes, modified: f.modified }
}

fn scans_of(style: PathStyle, fs: &Vec<StoredFile>) -> (r: Vec<StoredFile>)
    ensures
        r@ == scans_among(style, fs@, fs@.len() as int),
{
    let mut out: Vec<StoredFile> = Vec::new();
    let mut i: usize = 0;
    while i < fs.len()
        invariant
            i <= fs@.len(),
            out@ == scans_among(style, fs@, i as int),
        decreases fs@.len() - i,
    {
        let scan = match extension(style, fs[i].path.as_str()) {
            Some(x) => same_text(x.as_str(), "bin"),
            None => false,
        };
        if scan {
            out.push(copy_file(&fs[i]));
        }
        i += 1;
    }
    out
}

fn total_bytes(fs: &Vec<StoredFile>) -> (r: u128)
    ensures
        r == bytes_of(fs@, fs@.len() as int),
{
    let mut sum: u128 = 0;
    let mut i: usize = 0;
    while i < fs.len()
        invariant
            i <= fs@.len(),
            sum == bytes_of(fs@, i as int),
            sum <= i * 0xffff_ffff_ffff_ffff,
        decreases fs@.len() - i,
    {
        assert(i * 0xffff_ffff_ffff_ffff + 0xffff_ffff_ffff_ffff == (i + 1) * 0xffff_ffff_ffff_ffff) by (nonlinear_arith);
        assert(i * 0xffff_ffff_ffff_ffff <= 0xffff_ffff_ffff_ffff * 0xffff_ffff_ffff_ffff) by (nonlinear_arith)
            requires
                i <= 0xffff_ffff_ffff_ffff,
        ;
        sum = sum + fs[i].bytes as u128;
        i += 1;
    }
    sum
}

proof fn lemma_age_key(a: Stamp, b: Stamp)
    requires
        a.wf(),
        b.wf(),
    ensures
        order::lex_less(seq![a.secs as int, a.nanos as int], seq![b.secs as int, b.nanos as int]) <==> a.at() < b.at(),
{
    let x = seq![a.secs as int, a.nanos as int];
    let y = seq![b.secs as int, b.nanos as int];
    reveal_with_fuel(order::lex_less, 3);
    assert(x.drop_first() =~= seq![a.nanos as int]);
    assert(y.drop_first() =~= seq![b.nanos as int]);
    assert(x.drop_first().drop_first() =~= Seq::<int>::empty());
    assert(y.drop_first().drop_first() =~= Seq::<int>::empty());
}

fn by_age(fs: &Vec<StoredFile>) -> (r: Vec<StoredFile>)
    requires
        forall|i: int| 0 <= i < fs@.len() ==> (#[trigger] fs@[i]).modified.wf(),
    ensures
        aged(fs@, r@),
{
    let mut rows = Rows { ahead: Vec::new(), keys: Vec::new(), ascending: true };
    let mut i: usize = 0;
    while i < fs.len()
        invariant
            i <= fs@.len(),
            rows.ahead@.len() == i,
            rows.keys@.len() == i,
            rows.ascending,
            forall|k: int| 0 <= k < i ==> !(#[trigger] rows.ahead@[k]),
            forall|k: int|
                0 <= k < i ==> rows.key(k) == seq![(#[trigger] fs@[k]).modified.secs as int, fs@[k].modified.nanos as int],
        decreases fs@.len() - i,
    {
        let ghost before = rows;
        let t = fs[i].modified;
        let mut key: Vec<i128> = Vec::new();
        key.push(t.secs as i128);
        key.push(t.nanos as i128);
        assert(order::ints(key@) =~= seq![t.secs as int, t.nanos as int]);
        rows.ahead.push(false);
        rows.keys.push(key);
        proof {
            assert forall|k: int| 0 <= k < i + 1 implies rows.key(k) == seq![
                (#[trigger] fs@[k]).modified.secs as int,
                fs@[k].modified.nanos as int,
            ] by {
                if k < i {
                    assert(rows.keys@[k] == before.keys@[k]);
                    assert(before.key(k) == seq![fs@[k].modified.secs as int, fs@[k].modified.nanos as int]);
                }
            }
        }
        i += 1;
    }
    let p = rows.sorted();
    let mut out: Vec<StoredFile> = Vec::new();
    let mut j: usize = 0;
    while j < p.len()
        invariant
            j <= p@.len(),
            p@.len() == fs@.len(),
            forall|k: int| 0 <= k < p@.len() ==> (#[trigger] p@[k]) < fs@.len(),
            out@.len() == j,
            forall|k: int| 0 <= k < j ==> (#[trigger] out@[k]) == fs@[p@[k] as int],
        decreases p@.len() - j,
    {
        out.push(copy_file(&fs[p[j]]));
        j += 1;
    }
    proof {
        assert forall|a: int, b: int| 0 <= a < b < p@.len() implies ({
            let (x, y) = ((#[trigger] p@[a]) as int, (#[trigger] p@[b]) as int);
            fs@[x].modified.at() < fs@[y].modified.at() || (fs@[x].modified.at() == fs@[y].modified.at() && x < y)
        }) by {
            let (x, y) = (p@[a] as int, p@[b] as int);
            assert(rows.before(x, y));
            assert(!rows.ahead@[x] && !rows.ahead@[y]);
            assert(fs@[x].modified.wf() && fs@[y].modified.wf());
            lemma_age_key(fs@[x].modified, fs@[y].modified);
            lemma_age_key(fs@[y].modified, fs@[x].modified);
        }
        assert(oldest_first(fs@, p@));
        assert(out@ =~= p@.map_values(|i: usize| fs@[i as int]));
    }
    out
}

/// The first file from `i` on that may go.
pub open spec fn next_to_go(p: Pruning, i: int) -> Option<int>
    decreases p.files@.len() - i,
{
    if i < 0 || i >= p.files@.len() {
        None
    } else if paths::same_path_spec(p.style, p.files@[i].path@, p.keep@) {
        next_to_go(p, i + 1)
    } else {
        Some(i)
    }
}

impl Pruning {
    /// As far as it has come there are files.
    pub open spec fn wf(&self) -> bool {
        self.at <= self.files@.len()
    }

    /// What has to go from a folder of these files so that its scans take no more
    /// than `keep_bytes`. The file `keep` stays.
    pub fn new(style: PathStyle, files: &Vec<StoredFile>, keep: &str, keep_bytes: u64) -> (r: Pruning)
        requires
            forall|i: int| 0 <= i < files@.len() ==> (#[trigger] files@[i]).modified.wf(),
        ensures
            r.style == style,
            r.keep@ == keep@,
            r.at == 0,
            r.wf(),
            aged(scans_among(style, files@, files@.len() as int), r.files@),
            ({
                let total = bytes_of(
                    scans_among(style, files@, files@.len() as int),
                    scans_among(style, files@, files@.len() as int).len() as int,
                );
                r.over == (if total > keep_bytes {
                    total - keep_bytes
                } else {
                    0
                })
            }),
    {
        let scans = scans_of(style, files);
        proof {
            lemma_scans_ok(style, files@, files@.len() as int);
        }
        let total: u128 = total_bytes(&scans);
        let keep_wide: u128 = keep_bytes as u128;
        let over: u128 = if total > keep_wide {
            total - keep_wide
        } else {
            0
        };
        let sorted = by_age(&scans);
        Pruning { style, keep: keep.to_owned(), files: sorted, at: 0, over }
    }

    /// The file to remove next: the oldest that may go, while there are too many
    /// bytes.
    pub fn next(&mut self) -> (r: Option<String>)
        requires
            old(self).wf(),
        ensures
            final(self).wf(),
            *final(self) == (Pruning { at: final(self).at, ..*old(self) }),
            match next_to_go(*old(self), old(self).at as int) {
                Some(i) => if old(self).over > 0 {
                    r matches Some(p) && p == old(self).files@[i].path && final(self).at == i + 1
                } else {
                    r is None && final(self).at == old(self).at
                },
                None => r is None && final(self).at == (if old(self).over > 0 {
                    old(self).files@.len() as int
                } else {
                    old(self).at as int
                }),
            },
    {
        if self.over == 0 {
            return None;
        }
        while self.at < self.files.len()
            invariant
                self.wf(),
                self.over > 0,
                *self == (Pruning { at: self.at, ..*old(self) }),
                next_to_go(*old(self), old(self).at as int) == next_to_go(*old(self), self.at as int),
            decreases self.files@.len() - self.at,
        {
            let i: usize = self.at;
            self.at = i + 1;
            if !same_path(self.style, self.files[i].path.as_str(), self.keep.as_str()) {
                return Some(self.files[i].path.clone());
            }
        }
        None
    }

    /// The last file was removed: its bytes are not too many any more.
    pub fn removed(&mut self)
        requires
            old(self).wf(),
            old(self).at > 0,
        ensures
            final(self).wf(),
            *final(self) == (Pruning { over: final(self).over, ..*old(self) }),
            final(self).over == (if old(self).over > old(self).files@[old(self).at - 1].bytes {
                old(self).over - old(self).files@[old(self).at - 1].bytes
            } else {
                0
            }),
    {
        let i: usize = self.at - 1;
        let bytes: u128 = self.files[i].bytes as u128;
        self.over = if self.over > bytes {
            self.over - bytes
        } else {
            0
        };
    }
}

proof fn lemma_scans_ok(style: PathStyle, fs: Seq<StoredFile>, k: int)
    requires
        k <= fs.len(),
        forall|i: int| 0 <= i < fs.len() ==> (#[trigger] fs[i]).modified.wf(),
    ensures
        forall|i: int| 0 <= i < scans_among(style, fs, k).len() ==> (#[trigger] scans_among(style, fs, k)[i]).modified.wf(),
    decreases k,
{
    if k > 0 {
        lemma_scans_ok(style, fs, k - 1);
        let rest = scans_among(style, fs, k - 1);
        assert forall|i: int| 0 <= i < scans_among(style, fs, k).len() implies (#[trigger] scans_among(
            style,
            fs,
            k,
        )[i]).modified.wf() by {
            if i < rest.len() {
                assert(scans_among(style, fs, k)[i] == rest[i]);
            } else {
                assert(scans_among(style, fs, k)[i] == fs[k - 1]);
            }
        }
    }
}

/// A file of the list may go: it is not the one that stays.
pub open spec fn may_go(p: Pruning, i: int) -> bool {
    0 <= i < p.files@.len() && !paths::same_path_spec(p.style, p.files@[i].path@, p.keep@)
}

/// One round: the file `j` was handed out and removed, or could not be.
pub open spec fn round(p: Pruning, j: int, gone: bool, q: Pruning) -> bool {
    &&& p.over > 0
    &&& next_to_go(p, p.at as int) == Some(j)
    &&& q.style == p.style && q.keep == p.keep && q.files == p.files
    &&& q.at == j + 1
    &&& q.over == (if !gone {
        p.over as int
    } else if p.over > p.files@[j].bytes {
        p.over - p.files@[j].bytes
    } else {
        0
    })
}

/// Round after round, until no file is handed out: the files `js`, of which those
/// that `gone` says were removed.
pub open spec fn prunes(ps: Seq<Pruning>, js: Seq<int>, gone: Seq<bool>) -> bool {
    &&& ps.len() == js.len() + 1 && gone.len() == js.len()
    &&& ps[0].at == 0
    &&& forall|k: int| 0 <= k < js.len() ==> round(ps[k], #[trigger] js[k], gone[k], ps[k + 1])
    &&& ps.last().over == 0 || next_to_go(ps.last(), ps.last().at as int) is None
}

/// The bytes of the first `k` files that were handed out, as far as they were
/// removed.
pub open spec fn freed(p: Pruning, js: Seq<int>, gone: Seq<bool>, k: int) -> nat
    decreases k,
{
    if k <= 0 {
        0
    } else {
        freed(p, js, gone, k - 1) + (if gone[k - 1] {
            p.files@[js[k - 1]].bytes as nat
        } else {
            0
        })
    }
}

proof fn lemma_next_is_first(p: Pruning, i: int)
    requires
        0 <= i <= p.files@.len(),
    ensures
        next_to_go(p, i) matches Some(j) ==> i <= j && may_go(p, j) && forall|m: int| i <= m < j ==> !may_go(p, m),
        next_to_go(p, i) is None ==> forall|m: int| i <= m ==> !may_go(p, m),
    decreases p.files@.len() - i,
{
    if i < p.files@.len() && paths::same_path_spec(p.style, p.files@[i].path@, p.keep@) {
        lemma_next_is_first(p, i + 1);
    }
}

/// After `k` rounds every file that may go has been handed out up to where they
/// have come.
proof fn lemma_rounds(ps: Seq<Pruning>, js: Seq<int>, gone: Seq<bool>, k: int)
    requires
        prunes(ps, js, gone),
        0 <= k <= js.len(),
    ensures
        ps[k].style == ps[0].style && ps[k].keep == ps[0].keep && ps[k].files == ps[0].files,
        ps[k].at <= ps[0].files@.len(),
        forall|i: int| 0 <= i < k ==> may_go(ps[0], #[trigger] js[i]) && js[i] < ps[k].at,
        forall|i: int, m: int| 0 <= i < m < k ==> (#[trigger] js[i]) < (#[trigger] js[m]),
        forall|m: int| 0 <= m < ps[k].at && may_go(ps[0], m) ==> js.take(k).contains(m),
        ps[k].over == (if freed(ps[0], js, gone, k) < ps[0].over {
            ps[0].over - freed(ps[0], js, gone, k)
        } else {
            0
        }),
    decreases k,
{
    if k > 0 {
        lemma_rounds(ps, js, gone, k - 1);
        let j = js[k - 1];
        assert(round(ps[k - 1], j, gone[k - 1], ps[k]));
        lemma_next_is_first(ps[k - 1], ps[k - 1].at as int);
        assert forall|m: int| #[trigger] may_go(ps[k - 1], m) == may_go(ps[0], m) by {}
        assert forall|m: int| 0 <= m < ps[k].at && may_go(ps[0], m) implies js.take(k).contains(m) by {
            if m < ps[k - 1].at {
                let before = js.take(k - 1);
                let i = choose|i: int| 0 <= i < before.len() && before[i] == m;
                assert(js.take(k)[i] == m);
            } else {
                assert(may_go(ps[k - 1], m));
                assert(m == j);
                assert(js.take(k)[k - 1] == m);
            }
        }
    }
}

/// A whole pruning hands out the oldest files that may go, one after the other
/// and each once, and never the one that stays; each of them while there are
/// still too many bytes; and it ends when what was removed is enough or every
/// file that may go has been handed out.
pub proof fn law_oldest_go_until_it_fits(ps: Seq<Pruning>, js: Seq<int>, gone: Seq<bool>)
    requires
        prunes(ps, js, gone),
    ensures
        forall|k: int| 0 <= k < js.len() ==> may_go(ps[0], #[trigger] js[k]),
        forall|i: int, k: int| 0 <= i < k < js.len() ==> (#[trigger] js[i]) < (#[trigger] js[k]),
        forall|k: int, m: int| 0 <= k < js.len() && 0 <= m < (#[trigger] js[k]) && #[trigger] may_go(ps[0], m) ==> js.contains(m),
        forall|k: int| 0 <= k < js.len() ==> freed(ps[0], js, gone, k) < ps[0].over,
        freed(ps[0], js, gone, js.len() as int) >= ps[0].over || forall|m: int|
            #[trigger] may_go(ps[0], m) ==> js.contains(m),
{
    let n = js.len() as int;
    lemma_rounds(ps, js, gone, n);
    assert(js.take(n) =~= js);
    assert forall|k: int| 0 <= k < n implies freed(ps[0], js, gone, k) < ps[0].over by {
        lemma_rounds(ps, js, gone, k);
        assert(round(ps[k], js[k], gone[k], ps[k + 1]));
    }
    assert forall|k: int, m: int| 0 <= k < n && 0 <= m < (#[trigger] js[k]) && #[trigger] may_go(ps[0], m) implies js.contains(m) by {
        assert(js[k] < ps[n].at);
    }
    if ps[n].over != 0 {
        lemma_next_is_first(ps[n], ps[n].at as int);
        assert forall|m: int| #[trigger] may_go(ps[0], m) implies js.contains(m) by {
            assert(may_go(ps[n], m) == may_go(ps[0], m));
        }
    }
}

/// The file that was just written is never removed.
pub proof fn law_kept_file_stays(p: Pruning, i: int, j: int)
    requires
        next_to_go(p, i) == Some(j),
    ensures
        i <= j < p.files@.len(),
        !paths::same_path_spec(p.style, p.files@[j].path@, p.keep@),
    decreases p.files@.len() - i,
{
    if paths::same_path_spec(p.style, p.files@[i].path@, p.keep@) {
        law_kept_file_stays(p, i + 1, j);
    }
}

proof fn lemma_scans_hold(style: PathStyle, fs: Seq<StoredFile>, k: int)
    requires
        0 <= k <= fs.len(),
    ensures
        forall|f: StoredFile| #[trigger]
            scans_among(style, fs, k).contains(f) <==> is_scan(style, f) && exists|i: int| 0 <= i < k && #[trigger] fs[i] == f,
    decreases k,
{
    if k > 0 {
        lemma_scans_hold(style, fs, k - 1);
        let rest = scans_among(style, fs, k - 1);
        let now = scans_among(style, fs, k);
        assert forall|f: StoredFile| #[trigger] now.contains(f) <==> is_scan(style, f) && exists|i: int|
            0 <= i < k && #[trigger] fs[i] == f by {
            if now.contains(f) {
                let a = now.index_of(f);
                if a < rest.len() {
                    assert(rest[a] == f);
                    assert(rest.contains(f));
                } else {
                    assert(fs[k - 1] == f);
                }
            }
            if is_scan(style, f) && exists|i: int| 0 <= i < k && #[trigger] fs[i] == f {
                let i = choose|i: int| 0 <= i < k && #[trigger] fs[i] == f;
                if i < k - 1 {
                    assert(rest.contains(f));
                    assert(now[rest.index_of(f)] == f);
                } else {
                    assert(now[rest.len() as int] == f);
                }
            }
        }
    }
}

/// The files that a pruning goes through are those of the folder that end in
/// `.bin`, and no others; one that was written earlier, by seconds and then by
/// nanoseconds, stands before one that was written later.
pub proof fn law_pruning_goes_through_the_scans(style: PathStyle, fs: Seq<StoredFile>, r: Seq<StoredFile>)
    requires
        aged(scans_among(style, fs, fs.len() as int), r),
        forall|i: int| 0 <= i < fs.len() ==> (#[trigger] fs[i]).modified.wf(),
    ensures
        forall|f: StoredFile| #[trigger]
            r.contains(f) <==> fs.contains(f) && paths::extension_spec(style, f.path@) == Some(seq!['b', 'i', 'n']),
        r.len() == scans_among(style, fs, fs.len() as int).len(),
        forall|i: int, j: int|
            0 <= i < j < r.len() ==> (#[trigger] r[i]).modified.secs < (#[trigger] r[j]).modified.secs || (
            r[i].modified.secs == r[j].modified.secs && r[i].modified.nanos <= r[j].modified.nanos),
{
    reveal_strlit("bin");
    assert("bin"@ =~= seq!['b', 'i', 'n']);
    let v = scans_among(style, fs, fs.len() as int);
    lemma_scans_hold(style, fs, fs.len() as int);
    let p = choose|p: Seq<usize>| #[trigger] oldest_first(v, p) && r == p.map_values(|i: usize| v[i as int]);
    assert forall|i: int, j: int| 0 <= i < p.len() && 0 <= j < p.len() && i != j implies p[i] != p[j] by {
        if i < j {
            assert(p[i] != p[j]);
        } else {
            assert(p[j] != p[i]);
        }
    }
    crate::order::lemma_every_position(p);
    assert forall|f: StoredFile| #[trigger] r.contains(f) <==> v.contains(f) by {
        if r.contains(f) {
            let i = r.index_of(f);
            assert(v[p[i] as int] == f);
        }
        if v.contains(f) {
            let x = v.index_of(f);
            assert(crate::order::positions(p).contains(x));
            let i = crate::order::positions(p).index_of(x);
            assert(p[i] == x);
            assert(r[i] == f);
        }
    }
    assert forall|f: StoredFile| #[trigger] r.contains(f) <==> fs.contains(f) && paths::extension_spec(style, f.path@) == Some(
        seq!['b', 'i', 'n'],
    ) by {
        if fs.contains(f) {
            assert(fs[fs.index_of(f)] == f);
        }
        if v.contains(f) {
            let i = choose|i: int| 0 <= i < fs.len() && #[trigger] fs[i] == f;
            assert(fs.contains(fs[i]));
        }
    }
    assert forall|i: int, j: int| 0 <= i < j < r.len() implies (#[trigger] r[i]).modified.secs < (
    #[trigger] r[j]).modified.secs || (r[i].modified.secs == r[j].modified.secs && r[i].modified.nanos
        <= r[j].modified.nanos) by {
        assert(r[i] == v[p[i] as int] && r[j] == v[p[j] as int]);
        assert(r.contains(r[i]) && r.contains(r[j]));
        assert(fs.contains(r[i]) && fs.contains(r[j]));
        assert(r[i].modified.wf() && r[j].modified.wf());
    }
}

/// Nothing is removed where the scans fit.
pub proof fn law_what_fits_stays(p: Pruning, j: int, gone: bool, q: Pruning)
    requires
        p.over == 0,
    ensures
        !round(p, j, gone, q),
{
}

/// The bytes of stored files add up.
pub proof fn law_stored_bytes_add_up(fs: Seq<StoredFile>, k: int)
    requires
        0 <= k < fs.len(),
    ensures
        bytes_of(fs, 0) == 0,
        bytes_of(fs, k + 1) == bytes_of(fs, k) + fs[k].bytes,
{
}

} // verus!
