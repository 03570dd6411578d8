//! The saved form of a scanned tree: a framed, versioned record of its nodes.
//!
//! A file is the four bytes `SECT`, the format version in two bytes (low byte
//! first), and the record's body.
use vstd::prelude::*;
use vstd::slice::slice_subrange;
use crate::text;
use crate::tree::{self, Node, NodeKind, Tree};

verus! {

/// What a scan found, saved beside its tree.
#[derive(Clone, Copy, Debug, PartialEq, Eq, Structural)]
pub struct CacheStats {
    pub dirs: u64,
    pub files: u64,
    pub bytes: u64,
    /// When the tree was saved, in seconds since 1970.
    pub saved_unix: u64,
    /// The volume's change journal at scan time, 0 where there was none.
    pub usn_journal_id: u64,
    pub usn_next: i64,
}

/// The error of the record's codec.
#[verifier::external_type_specification]
#[verifier::external_body]
pub struct ExPostcardError(postcard::Error);

/// A tree's nodes column by column.
pub struct CacheRecord {
    pub root_name: String,
    pub stats: CacheStats,
    pub name: Vec<String>,
    pub parent: Vec<u32>,
    /// 1 for a file, anything else for a directory.
    pub kind: Vec<u8>,
    pub own_size: Vec<u64>,
}

/// A [`CacheRecord`] by what it holds.
pub ghost struct Record {
    pub root_name: Seq<char>,
    pub stats: CacheStats,
    pub name: Seq<Seq<char>>,
    pub parent: Seq<u32>,
    pub kind: Seq<u8>,
    pub own_size: Seq<u64>,
}

impl View for CacheRecord {
    type V = Record;

    open spec fn view(&self) -> Record {
        Record {
            root_name: self.root_name@,
            stats: self.stats,
            name: text::texts(self.name@),
            parent: self.parent@,
            kind: self.kind@,
            own_size: self.own_size@,
        }
    }
}

/// The bytes that `postcard::to_stdvec` writes for a record's columns.
pub uninterp spec fn body_bytes(
    root_name: Seq<char>,
    stats: (u64, u64, u64, u64, u64, i64),
    name: Seq<Seq<char>>,
    parent: Seq<u32>,
    kind: Seq<u8>,
    own_size: Seq<u64>,
) -> Seq<u8>;

/// The columns that `postcard::from_bytes` reads from bytes on a machine whose
/// `usize` has so many bits; `None` where it reports an error.
pub uninterp spec fn body_columns(bytes: Seq<u8>, width: u32) -> Option<
    (Seq<char>, (u64, u64, u64, u64, u64, i64), Seq<Seq<char>>, Seq<u32>, Seq<u8>, Seq<u64>),
>;

/// The statistics in the order they are written.
pub open spec fn stats_fields(s: CacheStats) -> (u64, u64, u64, u64, u64, i64) {
    (s.dirs, s.files, s.bytes, s.saved_unix, s.usn_journal_id, s.usn_next)
}

/// The statistics of those fields.
pub open spec fn stats_from(f: (u64, u64, u64, u64, u64, i64)) -> CacheStats {
    CacheStats { dirs: f.0, files: f.1, bytes: f.2, saved_unix: f.3, usn_journal_id: f.4, usn_next: f.5 }
}

/// A record's body.
pub open spec fn record_bytes(r: Record) -> Seq<u8> {
    body_bytes(r.root_name, stats_fields(r.stats), r.name, r.parent, r.kind, r.own_size)
}

/// The record that a body holds.
pub open spec fn body_record(bytes: Seq<u8>) -> Option<Record> {
    match body_columns(bytes, usize::BITS) {
        Some(c) => Some(
            Record {
                root_name: c.0,
                stats: stats_from(c.1),
                name: c.2,
                parent: c.3,
                kind: c.4,
                own_size: c.5,
            },
        ),
        None => None,
    }
}

/// Calls `postcard::to_stdvec` on the columns as a tuple. It grows a vector and
/// never runs out of room, and every sequence here knows its length, so it
/// always succeeds; what it writes depends on the columns alone, and
/// `postcard::from_bytes` reads the same columns back from it on the same machine.
#[verifier::external_body]
fn encode_columns(
    root_name: &String,
    stats: (u64, u64, u64, u64, u64, i64),
    name: &Vec<String>,
    parent: &Vec<u32>,
    kind: &Vec<u8>,
    own_size: &Vec<u64>,
) -> (r: Result<Vec<u8>, postcard::Error>)
    ensures
        r is Ok,
        r matches Ok(b) ==> b@ == body_bytes(
            root_name@,
            stats,
            text::texts(name@),
            parent@,
            kind@,
            own_size@,
        ),
        r matches Ok(b) ==> body_columns(b@, usize::BITS) == Some(
            (root_name@, stats, text::texts(name@), parent@, kind@, own_size@),
        ),
{
    postcard::to_stdvec(&(root_name, stats, name, parent, kind, own_size))
}

/// Calls `postcard::from_bytes` for the columns as a tuple. Whether it succeeds
/// and what it reads depend on the bytes and on the width of `usize`, as which it
/// reads lengths; bytes behind the last column are not looked at.
#[verifier::external_body]
fn decode_columns(bytes: &[u8]) -> (r: Result<
    (String, (u64, u64, u64, u64, u64, i64), Vec<String>, Vec<u32>, Vec<u8>, Vec<u64>),
    postcard::Error,
>)
    ensures
        r is Err ==> body_columns(bytes@, usize::BITS) is None,
        r matches Ok(c) ==> body_columns(bytes@, usize::BITS) == Some(
            (c.0@, c.1, text::texts(c.2@), c.3@, c.4@, c.5@),
        ),
{
    postcard::from_bytes(bytes)
}

/// The bytes before a body: the magic and the version.
pub open spec fn header() -> Seq<u8> {
    seq![0x53u8, 0x45u8, 0x43u8, 0x54u8, 2u8, 0u8]
}

/// The bytes start with the header of the current format.
pub open spec fn has_header(bytes: Seq<u8>) -> bool {
    bytes.len() >= 6 && bytes.subrange(0, 6) == header()
}

/// The record in a cache file; `None` for a foreign or outdated file and for a
/// damaged body.
pub open spec fn cache_record(bytes: Seq<u8>) -> Option<Record> {
    if has_header(bytes) {
        body_record(bytes.subrange(6, bytes.len() as int))
    } else {
        None
    }
}

/// Columns of one length, a root that is its own parent, and every other parent
/// before its child.
pub open spec fn record_ok(r: Record) -> bool {
    &&& r.name.len() > 0
    &&& r.parent.len() == r.name.len()
    &&& r.kind.len() == r.name.len()
    &&& r.own_size.len() == r.name.len()
    &&& r.parent[0] == 0
    &&& forall|i: int| 0 < i < r.parent.len() ==> (#[trigger] r.parent[i]) < i
}

/// What a byte of the kind column stands for.
pub open spec fn kind_of(b: u8) -> NodeKind {
    if b == 1 {
        NodeKind::File
    } else {
        NodeKind::Dir
    }
}

/// The bytes of the first `k` nodes.
pub open spec fn record_total(own_size: Seq<u64>, k: int) -> nat {
    tree::total(tree::naturals(own_size), k)
}

/// The record's nodes can be numbered and their bytes added up.
pub open spec fn record_fits(r: Record) -> bool {
    &&& r.name.len() <= 0x1_0000_0000
    &&& record_total(r.own_size, r.own_size.len() as int) <= u64::MAX
}

/// The nodes are those of the record, with right totals and lists of children.
pub open spec fn restored(r: Record, ns: Seq<Node>) -> bool {
    &&& ns.len() == r.name.len()
    &&& forall|i: int|
        0 <= i < ns.len() ==> {
            &&& (#[trigger] ns[i]).name@ == r.name[i]
            &&& ns[i].parent.0 == r.parent[i]
            &&& ns[i].kind == kind_of(r.kind[i])
            &&& ns[i].own_size == r.own_size[i]
        }
    &&& tree::nodes_ok(ns)
    &&& tree::sizes_live(ns)
}

/// The record of a tree's nodes.
pub open spec fn record_of(ns: Seq<Node>, stats: CacheStats) -> Record {
    Record {
        root_name: ns[0].name@,
        stats,
        name: Seq::new(ns.len(), |i: int| ns[i].name@),
        parent: Seq::new(ns.len(), |i: int| ns[i].parent.0),
        kind: Seq::new(
            ns.len(),
            |i: int|
                if ns[i].kind == NodeKind::File {
                    1u8
                } else {
                    0u8
                },
        ),
        own_size: Seq::new(ns.len(), |i: int| ns[i].own_size),
    }
}

proof fn lemma_totals_agree(r: Record, ns: Seq<Node>)
    requires
        tree::parents_ok(ns),
        ns.len() == r.own_size.len(),
        forall|i: int| 0 <= i < ns.len() ==> (#[trigger] ns[i]).own_size == r.own_size[i],
    ensures
        tree::bytes_under(ns, 0, ns.len() as int) == record_total(r.own_size, r.own_size.len() as int),
{
    tree::law_root_holds_everything(ns, ns.len() as int);
    assert(tree::sizes(ns) =~= tree::naturals(r.own_size));
}

/// A saved tree comes back as it was: its record is accepted, and nodes restored
/// from it agree with the saved ones in everything but totals, and in totals too
/// where the saved ones were right.
pub proof fn law_saved_tree_comes_back(ns: Seq<Node>, stats: CacheStats, back: Seq<Node>)
    requires
        tree::nodes_ok(ns),
        restored(record_of(ns, stats), back),
    ensures
        record_ok(record_of(ns, stats)),
        tree::bytes_fit(ns) ==> record_fits(record_of(ns, stats)),
        back.len() == ns.len(),
        forall|i: int|
            0 <= i < ns.len() ==> {
                &&& (#[trigger] back[i]).name@ == ns[i].name@
                &&& back[i].parent == ns[i].parent
                &&& back[i].kind == ns[i].kind
                &&& back[i].own_size == ns[i].own_size
                &&& back[i].children@ == ns[i].children@
            },
        tree::sizes_live(ns) ==> forall|i: int|
            0 <= i < ns.len() ==> (#[trigger] back[i]).subtree_size == ns[i].subtree_size && back[i].file_count
                == ns[i].file_count,
{
    let r = record_of(ns, stats);
    assert forall|i: int| 0 < i < r.parent.len() implies (#[trigger] r.parent[i]) < i by {
        assert(tree::parent_of(ns, i) < i);
    }
    assert(r.parent[0] == tree::parent_of(ns, 0));
    lemma_totals_agree(r, ns);
    tree::lemma_same_shape(ns, back);
}

/// Why a cache file gave no tree.
pub enum CacheOpen {
    Loaded(Tree, CacheStats),
    /// Foreign, outdated or damaged.
    Rejected,
    /// The record is sound, but its bytes do not add up in 64 bits or its nodes
    /// cannot be numbered.
    TooLarge,
}

fn header_matches(bytes: &[u8]) -> (r: bool)
    ensures
        r == has_header(bytes@),
{
    if bytes.len() < 6 {
        return false;
    }
    let r = bytes[0] == 0x53 && bytes[1] == 0x45 && bytes[2] == 0x43 && bytes[3] == 0x54 && bytes[4] == 2 && bytes[5]
        == 0;
    proof {
        let h = bytes@.subrange(0, 6);
        if r {
            assert(h =~= header());
        } else {
            assert(h[0] == bytes@[0] && h[1] == bytes@[1] && h[2] == bytes@[2] && h[3] == bytes@[3] && h[4]
                == bytes@[4] && h[5] == bytes@[5]);
            assert(header()[0] == 0x53 && header()[1] == 0x45 && header()[2] == 0x43 && header()[3] == 0x54
                && header()[4] == 2 && header()[5] == 0);
        }
    }
    r
}

/// The format version that a file claims; `None` for a file of another kind.
pub open spec fn format_version_spec(bytes: Seq<u8>) -> Option<int> {
    if bytes.len() >= 6 && bytes[0] == 0x53 && bytes[1] == 0x45 && bytes[2] == 0x43 && bytes[3] == 0x54 {
        Some(bytes[4] + 256 * bytes[5])
    } else {
        None
    }
}

/// Reads the record behind the header.
fn read_record(bytes: &[u8]) -> (r: Option<CacheRecord>)
    ensures
        r is Some == cache_record(bytes@) is Some,
        r matches Some(c) ==> cache_record(bytes@) == Some(c@),
{
    if !header_matches(bytes) {
        return None;
    }
    match decode_columns(slice_subrange(bytes, 6, bytes.len())) {
        Err(_) => None,
        Ok((root_name, f, name, parent, kind, own_size)) => Some(
            CacheRecord {
                root_name,
                stats: CacheStats {
                    dirs: f.0,
                    files: f.1,
                    bytes: f.2,
                    saved_unix: f.3,
                    usn_journal_id: f.4,
                    usn_next: f.5,
                },
                name,
                parent,
                kind,
                own_size,
            },
        ),
    }
}

impl CacheRecord {
    /// Whether the columns describe a tree: the arena's invariant, enforced on
    /// untrusted input.
    pub fn is_sound(&self) -> (r: bool)
        ensures
            r == record_ok(self@),
    {
        let n: usize = self.name.len();
        if n == 0 || self.parent.len() != n || self.kind.len() != n || self.own_size.len() != n {
            return false;
        }
        if self.parent[0] != 0 {
            return false;
        }
        let mut i: usize = 1;
        while i < n
            invariant
                1 <= i <= n,
                n == self.parent@.len(),
                forall|j: int| 0 < j < i ==> (#[trigger] self.parent@[j]) < j,
            decreases n - i,
        {
            if self.parent[i] as usize >= i {
                assert(!(self@.parent[i as int] < i));
                return false;
            }
            i += 1;
        }
        true
    }

    /// Whether the nodes can be numbered and their bytes added up.
    pub fn fits(&self) -> (r: bool)
        ensures
            r == record_fits(self@),
    {
        if self.name.len() as u64 > 0x1_0000_0000 {
            return false;
        }
        let n: usize = self.own_size.len();
        let mut sum: u64 = 0;
        let mut i: usize = 0;
        while i < n
            invariant
                n == self.own_size@.len(),
                i <= n,
                sum == record_total(self.own_size@, i as int),
            decreases n - i,
        {
            assert(tree::naturals(self.own_size@)[i as int] == self.own_size@[i as int]);
            if self.own_size[i] > u64::MAX - sum {
                proof {
                    lemma_total_grows(self.own_size@, i + 1, n as int);
                }
                return false;
            }
            sum = sum + self.own_size[i];
            i += 1;
        }
        true
    }

    /// The tree that the columns describe; `None` where they describe none.
    pub fn rebuild(&self) -> (r: Option<(Tree, CacheStats)>)
        requires
            record_ok(self@) ==> record_fits(self@),
        ensures
            r is Some <==> record_ok(self@),
            r matches Some((t, st)) ==> restored(self@, t@) && st == self.stats,
    {
        if !self.is_sound() {
            return None;
        }
        let n: usize = self.name.len();
        let mut kind: Vec<NodeKind> = Vec::new();
        let mut i: usize = 0;
        while i < n
            invariant
                n == self.kind@.len(),
                i <= n,
                kind@.len() == i,
                forall|j: int| 0 <= j < i ==> #[trigger] kind@[j] == kind_of(self.kind@[j]),
            decreases n - i,
        {
            kind.push(
                if self.kind[i] == 1 {
                    NodeKind::File
                } else {
                    NodeKind::Dir
                },
            );
            i += 1;
        }
        assert(forall|j: int| 0 < j < self.parent@.len() ==> (#[trigger] self@.parent[j]) < j);
        let t = Tree::from_columns(&self.name, &self.parent, &kind, &self.own_size);
        Some((t, self.stats))
    }
}

proof fn lemma_total_grows(own_size: Seq<u64>, j: int, k: int)
    requires
        0 <= j <= k <= own_size.len(),
    ensures
        record_total(own_size, j) <= record_total(own_size, k),
    decreases k,
{
    if j < k {
        lemma_total_grows(own_size, j, k - 1);
    }
}

impl Tree {
    /// The format version that is written and the only one that is read.
    pub const CACHE_FORMAT: u16 = 2;

    /// The saved form of the tree.
    pub fn to_cache_bytes(&self, stats: CacheStats) -> (r: Result<Vec<u8>, postcard::Error>)
        requires
            self.wf(),
        ensures
            r is Ok,
            r matches Ok(b) ==> b@ == header() + record_bytes(record_of(self@, stats)),
            r matches Ok(b) ==> cache_record(b@) == Some(record_of(self@, stats)),
    {
        let (name, parent, kinds, own_size) = self.columns();
        let n: usize = kinds.len();
        let mut kind: Vec<u8> = Vec::new();
        let mut i: usize = 0;
        let ghost rec = record_of(self@, stats);
        while i < n
            invariant
                n == kinds@.len(),
                n == self@.len(),
                i <= n,
                kind@.len() == i,
                rec == record_of(self@, stats),
                forall|j: int| 0 <= j < n ==> (#[trigger] kinds@[j]) == self@[j].kind,
                forall|j: int| 0 <= j < i ==> #[trigger] kind@[j] == rec.kind[j],
            decreases n - i,
        {
            kind.push(
                if kinds[i] == NodeKind::File {
                    1
                } else {
                    0
                },
            );
            i += 1;
        }
        assert(text::texts(name@) =~= rec.name);
        assert(parent@ =~= rec.parent);
        assert(kind@ =~= rec.kind);
        assert(own_size@ =~= rec.own_size);
        let fields = (stats.dirs, stats.files, stats.bytes, stats.saved_unix, stats.usn_journal_id, stats.usn_next);
        let mut body = match encode_columns(&name[0], fields, &name, &parent, &kind, &own_size) {
            Ok(b) => b,
            Err(e) => {
                return Err(e);
            },
        };
        let ghost payload = body@;
        let mut out: Vec<u8> = Vec::new();
        out.push(0x53);
        out.push(0x45);
        out.push(0x43);
        out.push(0x54);
        out.push(2);
        out.push(0);
        assert(out@ =~= header());
        out.append(&mut body);
        proof {
            assert(out@ =~= header() + payload);
            assert(out@.subrange(0, 6) =~= header());
            assert(out@.subrange(6, out@.len() as int) =~= payload);
        }
        Ok(out)
    }

    /// The tree that a cache file holds; `None` for a file of another kind or
    /// version, a damaged body, or columns that describe no tree.
    pub fn from_cache_bytes(bytes: &[u8]) -> (r: Option<(Tree, CacheStats)>)
        requires
            cache_record(bytes@) matches Some(rec) ==> record_ok(rec) ==> record_fits(rec),
        ensures
            r is Some <==> (cache_record(bytes@) matches Some(rec) && record_ok(rec)),
            r matches Some((t, st)) ==> restored(cache_record(bytes@)->0, t@) && st == (cache_record(
                bytes@,
            )->0).stats,
    {
        match read_record(bytes) {
            Some(rec) => rec.rebuild(),
            None => None,
        }
    }

    /// Reads a cache file that nothing is known of.
    pub fn open_cache(bytes: &[u8]) -> (r: CacheOpen)
        ensures
            r is Rejected <==> !(cache_record(bytes@) matches Some(rec) && record_ok(rec)),
            r is TooLarge <==> (cache_record(bytes@) matches Some(rec) && record_ok(rec) && !record_fits(rec)),
            r matches CacheOpen::Loaded(t, st) ==> restored(cache_record(bytes@)->0, t@) && st == (cache_record(
                bytes@,
            )->0).stats,
    {
        match read_record(bytes) {
            None => CacheOpen::Rejected,
            Some(rec) => {
                if !rec.is_sound() {
                    return CacheOpen::Rejected;
                }
                if !rec.fits() {
                    return CacheOpen::TooLarge;
                }
                match Tree::from_cache_bytes(bytes) {
                    Some((t, st)) => CacheOpen::Loaded(t, st),
                    None => CacheOpen::Rejected,
                }
            },
        }
    }

    /// The format version that a file claims; `None` for a file of another
    /// kind.
    pub fn cache_format_version(bytes: &[u8]) -> (r: Option<u16>)
        ensures
            r is Some <==> format_version_spec(bytes@) is Some,
            r matches Some(v) ==> format_version_spec(bytes@) == Some(v as int),
    {
        if bytes.len() >= 6 && bytes[0] == 0x53 && bytes[1] == 0x45 && bytes[2] == 0x43 && bytes[3] == 0x54 {
            Some(bytes[4] as u16 + 256 * (bytes[5] as u16))
        } else {
            None
        }
    }
}

/// Only a file that starts with the current header is ever accepted.
pub proof fn law_foreign_files_are_rejected(bytes: Seq<u8>)
    requires
        cache_record(bytes) is Some,
    ensures
        bytes.len() >= 6,
        format_version_spec(bytes) == Some(Tree::CACHE_FORMAT as int),
{
    let h = bytes.subrange(0, 6);
    assert(h[0] == bytes[0] && h[1] == bytes[1] && h[2] == bytes[2] && h[3] == bytes[3] && h[4] == bytes[4] && h[5]
        == bytes[5]);
}

/// Only a file that starts with `SECT` and the number 2 in two bytes, the low one
/// first, is read.
pub proof fn law_other_formats_are_refused(bytes: Seq<u8>)
    ensures
        cache_record(bytes) is Some ==> bytes.len() >= 6 && bytes[0] == 0x53 && bytes[1] == 0x45 && bytes[2] == 0x43
            && bytes[3] == 0x54 && bytes[4] == 2 && bytes[5] == 0,
        bytes.len() >= 6 && bytes[0] == 0x53 && bytes[1] == 0x45 && bytes[2] == 0x43 && bytes[3] == 0x54 && bytes[4] == 2
            && bytes[5] == 0 ==> cache_record(bytes) == body_record(bytes.skip(6)),
        has_header(bytes) <==> format_version_spec(bytes) == Some(2int),
{
    if bytes.len() >= 6 {
        let h = bytes.subrange(0, 6);
        assert(h[0] == bytes[0] && h[1] == bytes[1] && h[2] == bytes[2] && h[3] == bytes[3] && h[4] == bytes[4] && h[5]
            == bytes[5]);
        if bytes[0] == 0x53 && bytes[1] == 0x45 && bytes[2] == 0x43 && bytes[3] == 0x54 && bytes[4] == 2 && bytes[5] == 0 {
            assert(h =~= header());
        }
        assert(bytes.skip(6) =~= bytes.subrange(6, bytes.len() as int));
    }
}

/// A record is taken exactly where it has a node, every column is as long as the
/// names, the first node is its own parent, and every other stands behind its
/// parent.
pub proof fn law_sound_records(r: Record)
    ensures
        record_ok(r) ==> r.name.len() >= 1 && r.parent[0] == 0,
        record_ok(r) ==> r.parent.len() == r.name.len() && r.kind.len() == r.name.len() && r.own_size.len() == r.name.len(),
        record_ok(r) ==> forall|i: int| 1 <= i < r.name.len() ==> (#[trigger] r.parent[i]) < i,
        r.name.len() >= 1 && r.parent.len() == r.name.len() && r.kind.len() == r.name.len() && r.own_size.len()
            == r.name.len() && r.parent[0] == 0 && (forall|i: int| 1 <= i < r.name.len() ==> (#[trigger] r.parent[i]) < i)
            ==> record_ok(r),
{
}

/// What is written for a node is its own name, its parent's number, a 1 where it
/// is a file and a 0 where it is a directory, and the bytes it holds itself; the
/// statistics are written as they are.
pub proof fn law_what_is_written(ns: Seq<Node>, stats: CacheStats, i: int)
    requires
        0 <= i < ns.len(),
    ensures
        record_of(ns, stats).name[i] == ns[i].name@,
        record_of(ns, stats).parent[i] == ns[i].parent.0,
        ns[i].kind is File ==> record_of(ns, stats).kind[i] == 1,
        ns[i].kind is Dir ==> record_of(ns, stats).kind[i] == 0,
        record_of(ns, stats).own_size[i] == ns[i].own_size,
        record_of(ns, stats).stats == stats,
        record_of(ns, stats).root_name == ns[0].name@,
{
}

} // verus!
