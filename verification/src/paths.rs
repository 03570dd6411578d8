//! Lexical paths: what the parts of a path are, and the operations on paths
//! that need nothing but its text.
//!
//! A path is its text. How the text splits into parts depends on the system it
//! is meant for, so every operation takes the [`PathStyle`].
use vstd::prelude::*;
use crate::text::{self, chars_of, same_range, text_of, to_ascii_upper};

verus! {

/// Whose rules a path's text follows.
#[derive(Clone, Copy, Debug, PartialEq, Eq, Structural)]
pub enum PathStyle {
    /// `/` separates, nothing comes before the root.
    Unix,
    /// `\` and `/` separate; a drive, a share or a namespace may come first.
    Windows,
}

/// The character that a joined path is glued with.
pub open spec fn main_sep(style: PathStyle) -> char {
    if style == PathStyle::Unix {
        '/'
    } else {
        '\\'
    }
}

/// A separator of an ordinary path.
pub open spec fn is_sep(style: PathStyle, c: char) -> bool {
    c == '/' || (style == PathStyle::Windows && c == '\\')
}

/// A separator between the parts of a body: inside a verbatim path only `\`.
pub open spec fn is_body_sep(style: PathStyle, verbatim: bool, c: char) -> bool {
    if verbatim {
        c == '\\'
    } else {
        is_sep(style, c)
    }
}

/// Where the piece that starts at `i` ends: at the next separator, or with the
/// text.
pub open spec fn piece_end(style: PathStyle, verbatim: bool, s: Seq<char>, i: int) -> int
    decreases s.len() - i,
{
    if i < 0 || i >= s.len() {
        s.len() as int
    } else if is_body_sep(style, verbatim, s[i]) {
        i
    } else {
        piece_end(style, verbatim, s, i + 1)
    }
}

/// What may stand before a root on Windows.
#[derive(Clone, Copy, Debug, PartialEq, Eq, Structural)]
pub enum PrefixKind {
    /// Nothing.
    Absent,
    /// `\\?\name`
    Verbatim,
    /// `\\?\UNC\server\share`
    VerbatimUnc,
    /// `\\?\C:`
    VerbatimDisk,
    /// `\\.\NS`
    Device,
    /// `\\server\share`
    Unc,
    /// `C:`
    Disk,
}

/// A path's prefix: its kind, where it ends, and the two names in it (a name
/// that its kind does not have is an empty range).
pub ghost struct Prefix {
    pub kind: PrefixKind,
    pub end: int,
    pub a0: int,
    pub a1: int,
    pub b0: int,
    pub b1: int,
}

pub open spec fn is_letter(c: char) -> bool {
    ('a' <= c && c <= 'z') || ('A' <= c && c <= 'Z')
}

/// A prefix with one name, `s[from..to]`, that ends where the name ends.
pub open spec fn one_name(kind: PrefixKind, from: int, to: int) -> Prefix {
    Prefix { kind, end: to, a0: from, a1: to, b0: 0, b1: 0 }
}

/// A prefix that names a server from `from` on and a share behind it. The share
/// belongs to it where it is not empty.
pub open spec fn two_names(style: PathStyle, kind: PrefixKind, verbatim: bool, s: Seq<char>, from: int) -> Prefix {
    let e1 = piece_end(style, verbatim, s, from);
    let b0 = if e1 < s.len() { e1 + 1 } else { s.len() as int };
    let b1 = piece_end(style, verbatim, s, b0);
    Prefix {
        kind,
        end: if b0 < b1 {
            b1
        } else {
            e1
        },
        a0: from,
        a1: e1,
        b0,
        b1,
    }
}

pub open spec fn no_prefix() -> Prefix {
    Prefix { kind: PrefixKind::Absent, end: 0, a0: 0, a1: 0, b0: 0, b1: 0 }
}

/// The text starts with `\\?\`, written with backslashes only.
pub open spec fn starts_verbatim(s: Seq<char>) -> bool {
    s.len() >= 4 && s[0] == '\\' && s[1] == '\\' && s[2] == '?' && s[3] == '\\'
}

/// The prefix of a path.
pub open spec fn prefix_of(style: PathStyle, s: Seq<char>) -> Prefix {
    if style == PathStyle::Unix {
        no_prefix()
    } else if s.len() >= 2 && is_sep(style, s[0]) && is_sep(style, s[1]) {
        if starts_verbatim(s) {
            if s.len() >= 8 && s[4] == 'U' && s[5] == 'N' && s[6] == 'C' && is_sep(style, s[7]) {
                two_names(style, PrefixKind::VerbatimUnc, true, s, 8)
            } else if s.len() >= 6 && is_letter(s[4]) && s[5] == ':' && (s.len() == 6 || is_sep(style, s[6])) {
                Prefix { kind: PrefixKind::VerbatimDisk, end: 6, a0: 4, a1: 5, b0: 0, b1: 0 }
            } else {
                one_name(PrefixKind::Verbatim, 4, piece_end(style, true, s, 4))
            }
        } else if s.len() >= 4 && s[2] == '.' && is_sep(style, s[3]) {
            one_name(PrefixKind::Device, 4, piece_end(style, false, s, 4))
        } else {
            let p = two_names(style, PrefixKind::Unc, false, s, 2);
            if p.a0 < p.a1 && p.b0 < p.b1 {
                p
            } else {
                no_prefix()
            }
        }
    } else if s.len() >= 2 && is_letter(s[0]) && s[1] == ':' {
        Prefix { kind: PrefixKind::Disk, end: 2, a0: 0, a1: 1, b0: 0, b1: 0 }
    } else {
        no_prefix()
    }
}

pub open spec fn is_verbatim(kind: PrefixKind) -> bool {
    kind == PrefixKind::Verbatim || kind == PrefixKind::VerbatimUnc || kind == PrefixKind::VerbatimDisk
}

/// Whether the prefix brings a root of its own: every prefix but a drive does.
pub open spec fn implies_root(kind: PrefixKind) -> bool {
    kind != PrefixKind::Absent && kind != PrefixKind::Disk
}

/// What one part of a path is.
#[derive(Clone, Copy, Debug, PartialEq, Eq, Structural)]
pub enum PartKind {
    Prefix,
    Root,
    /// `.`
    Current,
    /// `..`
    Parent,
    Name,
}

/// One part of a path: its kind and the range of the text that it takes.
pub ghost struct Part {
    pub kind: PartKind,
    pub start: int,
    pub end: int,
}

pub open spec fn part(kind: PartKind, start: int, end: int) -> Part {
    Part { kind, start, end }
}

/// The part that the piece `s[i..e]` makes, if it makes one: an empty piece
/// makes none, and a `.` only where `dot` says that it counts.
pub open spec fn piece_part(s: Seq<char>, i: int, e: int, dot: bool) -> Seq<Part> {
    if e <= i {
        Seq::empty()
    } else if e == i + 1 && s[i] == '.' {
        if dot {
            seq![part(PartKind::Current, i, e)]
        } else {
            Seq::empty()
        }
    } else if e == i + 2 && s[i] == '.' && s[i + 1] == '.' {
        seq![part(PartKind::Parent, i, e)]
    } else {
        seq![part(PartKind::Name, i, e)]
    }
}

/// The parts from `i` on. `dot`: whether a `.` counts in the first piece; behind
/// it one counts in a verbatim path alone.
pub open spec fn body_parts(style: PathStyle, verbatim: bool, dot: bool, s: Seq<char>, i: int) -> Seq<Part>
    decreases s.len() - i,
{
    let e = piece_end(style, verbatim, s, i);
    if i < 0 || i >= s.len() || e < i {
        Seq::empty()
    } else if e >= s.len() {
        piece_part(s, i, e, dot)
    } else {
        piece_part(s, i, e, dot) + body_parts(style, verbatim, verbatim, s, e + 1)
    }
}

/// Whether a separator stands directly behind the prefix.
pub open spec fn has_written_root(style: PathStyle, s: Seq<char>) -> bool {
    let b = prefix_of(style, s).end;
    b < s.len() && is_sep(style, s[b])
}

pub open spec fn has_root(style: PathStyle, s: Seq<char>) -> bool {
    has_written_root(style, s) || implies_root(prefix_of(style, s).kind)
}

/// Prefix and root, where the path has them.
pub open spec fn head_parts(style: PathStyle, s: Seq<char>) -> Seq<Part> {
    let p = prefix_of(style, s);
    let b = p.end;
    (if p.kind == PrefixKind::Absent { Seq::<Part>::empty() } else { seq![part(PartKind::Prefix, 0, b)] })
        + (if has_written_root(style, s) {
        seq![part(PartKind::Root, b, b + 1)]
    } else if implies_root(p.kind) {
        seq![part(PartKind::Root, b, b)]
    } else {
        Seq::<Part>::empty()
    })
}

/// Where the first part behind prefix and root can start.
pub open spec fn body_start(style: PathStyle, s: Seq<char>) -> int {
    prefix_of(style, s).end + (if has_written_root(style, s) { 1int } else { 0int })
}

/// The parts of a path, in order. Repeated separators, a trailing separator and
/// every `.` but a leading one leave no trace.
pub open spec fn parts(style: PathStyle, s: Seq<char>) -> Seq<Part> {
    let verbatim = is_verbatim(prefix_of(style, s).kind);
    head_parts(style, s) + body_parts(style, verbatim, verbatim || !has_root(style, s), s, body_start(style, s))
}

/// A part by what it means, free of where it stands: prefixes by their names (a
/// drive's letter in upper case), other parts by their text.
pub ghost enum Meaning {
    Prefix(PrefixKind, Seq<char>, Seq<char>),
    Root,
    Current,
    Parent,
    Name(Seq<char>),
}

pub open spec fn prefix_meaning(s: Seq<char>, p: Prefix) -> Meaning {
    if p.kind == PrefixKind::Disk || p.kind == PrefixKind::VerbatimDisk {
        Meaning::Prefix(p.kind, seq![text::ascii_upper(s[p.a0])], Seq::empty())
    } else {
        Meaning::Prefix(p.kind, s.subrange(p.a0, p.a1), s.subrange(p.b0, p.b1))
    }
}

pub open spec fn meaning(style: PathStyle, s: Seq<char>, p: Part) -> Meaning {
    match p.kind {
        PartKind::Prefix => prefix_meaning(s, prefix_of(style, s)),
        PartKind::Root => Meaning::Root,
        PartKind::Current => Meaning::Current,
        PartKind::Parent => Meaning::Parent,
        PartKind::Name => Meaning::Name(s.subrange(p.start, p.end)),
    }
}

/// What a path means, part by part. Two texts are the same path where these
/// agree.
pub open spec fn components(style: PathStyle, s: Seq<char>) -> Seq<Meaning> {
    parts(style, s).map_values(|p: Part| meaning(style, s, p))
}

/// Both texts name the same path.
pub open spec fn same_path_spec(style: PathStyle, a: Seq<char>, b: Seq<char>) -> bool {
    components(style, a) == components(style, b)
}

/// `base`'s parts are the first parts of `s`.
pub open spec fn under(style: PathStyle, s: Seq<char>, base: Seq<char>) -> bool {
    components(style, base).is_prefix_of(components(style, s))
}

/// The name a path ends in; `None` where it ends in `..`, a `.`, a root or a
/// prefix.
pub open spec fn file_name_spec(style: PathStyle, s: Seq<char>) -> Option<Seq<char>> {
    let ps = parts(style, s);
    if ps.len() > 0 && ps.last().kind == PartKind::Name {
        Some(s.subrange(ps.last().start, ps.last().end))
    } else {
        None
    }
}

/// The text up to the end of the last part but one; `None` where the path ends
/// in a root or a prefix, or is empty.
pub open spec fn parent_spec(style: PathStyle, s: Seq<char>) -> Option<Seq<char>> {
    let ps = parts(style, s);
    if ps.len() == 0 || ps.last().kind == PartKind::Prefix || ps.last().kind == PartKind::Root {
        None
    } else if ps.len() == 1 {
        Some(Seq::empty())
    } else {
        Some(s.subrange(0, ps[ps.len() - 2].end))
    }
}

/// The text of the parts from the `k`-th on.
pub open spec fn tail_text(style: PathStyle, s: Seq<char>, k: int) -> Seq<char> {
    let ps = parts(style, s);
    if k < ps.len() {
        s.subrange(ps[k].start, ps.last().end)
    } else {
        Seq::empty()
    }
}

/// What is left of `s` behind `base`; `None` where `s` is not under it.
pub open spec fn strip_prefix_spec(style: PathStyle, s: Seq<char>, base: Seq<char>) -> Option<Seq<char>> {
    if under(style, s, base) {
        Some(tail_text(style, s, parts(style, base).len() as int))
    } else {
        None
    }
}

/// A [`Prefix`] with machine integers.
struct PrefixAt {
    kind: PrefixKind,
    end: usize,
    a0: usize,
    a1: usize,
    b0: usize,
    b1: usize,
}

impl PrefixAt {
    spec fn model(self) -> Prefix {
        Prefix {
            kind: self.kind,
            end: self.end as int,
            a0: self.a0 as int,
            a1: self.a1 as int,
            b0: self.b0 as int,
            b1: self.b1 as int,
        }
    }
}

/// A [`Part`] with machine integers.
#[derive(Clone, Copy)]
struct PartAt {
    kind: PartKind,
    start: usize,
    end: usize,
}

impl PartAt {
    spec fn model(self) -> Part {
        Part { kind: self.kind, start: self.start as int, end: self.end as int }
    }
}

spec fn models(ps: Seq<PartAt>) -> Seq<Part> {
    ps.map_values(|p: PartAt| p.model())
}

/// Parts lie inside the text, one behind the other.
pub open spec fn in_order(s: Seq<char>, ps: Seq<Part>) -> bool {
    &&& forall|i: int| 0 <= i < ps.len() ==> 0 <= (#[trigger] ps[i]).start <= ps[i].end <= s.len()
    &&& forall|i: int, j: int|
        0 <= i < j < ps.len() ==> (#[trigger] ps[i]).end <= (#[trigger] ps[j]).start
}

proof fn lemma_piece_end(style: PathStyle, verbatim: bool, s: Seq<char>, i: int)
    requires
        0 <= i <= s.len(),
    ensures
        i <= piece_end(style, verbatim, s, i) <= s.len(),
    decreases s.len() - i,
{
    if i < s.len() && !is_body_sep(style, verbatim, s[i]) {
        lemma_piece_end(style, verbatim, s, i + 1);
    }
}

proof fn lemma_prefix_bounds(style: PathStyle, s: Seq<char>)
    ensures
        ({
            let p = prefix_of(style, s);
            &&& 0 <= p.end <= s.len()
            &&& 0 <= p.a0 <= p.a1 <= s.len()
            &&& 0 <= p.b0 <= p.b1 <= s.len()
            &&& (p.kind == PrefixKind::Disk || p.kind == PrefixKind::VerbatimDisk ==> p.a0 < s.len())
        }),
{
    if s.len() >= 8 {
        lemma_two_names(style, PrefixKind::VerbatimUnc, true, s, 8);
    }
    if s.len() >= 4 {
        lemma_piece_end(style, true, s, 4);
        lemma_piece_end(style, false, s, 4);
    }
    if s.len() >= 2 {
        lemma_two_names(style, PrefixKind::Unc, false, s, 2);
    }
}

proof fn lemma_two_names(style: PathStyle, kind: PrefixKind, verbatim: bool, s: Seq<char>, from: int)
    requires
        0 <= from <= s.len(),
    ensures
        ({
            let p = two_names(style, kind, verbatim, s, from);
            &&& from <= p.end <= s.len()
            &&& from <= p.a0 <= p.a1 <= s.len()
            &&& 0 <= p.b0 <= p.b1 <= s.len()
        }),
{
    lemma_piece_end(style, verbatim, s, from);
    let e1 = piece_end(style, verbatim, s, from);
    let b0 = if e1 < s.len() { e1 + 1 } else { s.len() as int };
    lemma_piece_end(style, verbatim, s, b0);
}

/// The parts lie in order behind `from` and none is a prefix or a root.
spec fn body_in_order(s: Seq<char>, ps: Seq<Part>, from: int) -> bool {
    &&& in_order(s, ps)
    &&& forall|k: int|
        0 <= k < ps.len() ==> from <= (#[trigger] ps[k]).start < ps[k].end && ps[k].kind != PartKind::Prefix
            && ps[k].kind != PartKind::Root
}

proof fn lemma_body_in_order(style: PathStyle, verbatim: bool, dot: bool, s: Seq<char>, i: int)
    requires
        0 <= i,
    ensures
        body_in_order(s, body_parts(style, verbatim, dot, s, i), i),
    decreases s.len() - i,
{
    if i < s.len() {
        lemma_piece_end(style, verbatim, s, i);
        let e = piece_end(style, verbatim, s, i);
        let head = piece_part(s, i, e, dot);
        assert(head.len() <= 1);
        if e < s.len() {
            let tail = body_parts(style, verbatim, verbatim, s, e + 1);
            lemma_body_in_order(style, verbatim, verbatim, s, e + 1);
            let all = head + tail;
            assert forall|k: int| 0 <= k < all.len() implies i <= (#[trigger] all[k]).start < all[k].end
                <= s.len() && all[k].kind != PartKind::Prefix && all[k].kind != PartKind::Root by {
                if k >= head.len() {
                    assert(all[k] == tail[k - head.len()]);
                }
            }
            assert forall|j: int, k: int| 0 <= j < k < all.len() implies (#[trigger] all[j]).end <= (
            #[trigger] all[k]).start by {
                assert(all[k] == tail[k - head.len()]);
                if j >= head.len() {
                    assert(all[j] == tail[j - head.len()]);
                }
            }
        }
    }
}

/// The parts of a path lie inside its text, one behind the other.
pub proof fn lemma_parts_in_order(style: PathStyle, s: Seq<char>)
    ensures
        in_order(s, parts(style, s)),
{
    lemma_prefix_bounds(style, s);
    let verbatim = is_verbatim(prefix_of(style, s).kind);
    lemma_body_in_order(style, verbatim, verbatim || !has_root(style, s), s, body_start(style, s));
    let head = head_parts(style, s);
    let tail = body_parts(style, verbatim, verbatim || !has_root(style, s), s, body_start(style, s));
    let all = head + tail;
    assert(head.len() <= 2);
    assert forall|k: int| 0 <= k < all.len() implies 0 <= (#[trigger] all[k]).start <= all[k].end <= s.len() by {
        if k >= head.len() {
            assert(all[k] == tail[k - head.len()]);
        }
    }
    assert forall|j: int, k: int| 0 <= j < k < all.len() implies (#[trigger] all[j]).end <= (
    #[trigger] all[k]).start by {
        if k >= head.len() {
            assert(all[k] == tail[k - head.len()]);
        }
        if j >= head.len() {
            assert(all[j] == tail[j - head.len()]);
        }
    }
}

fn sep(style: PathStyle, c: char) -> (r: bool)
    ensures
        r == is_sep(style, c),
{
    c == '/' || (style == PathStyle::Windows && c == '\\')
}

fn letter(c: char) -> (r: bool)
    ensures
        r == is_letter(c),
{
    ('a' <= c && c <= 'z') || ('A' <= c && c <= 'Z')
}

fn find_piece_end(style: PathStyle, verbatim: bool, v: &Vec<char>, i: usize) -> (r: usize)
    requires
        i <= v@.len(),
    ensures
        r == piece_end(style, verbatim, v@, i as int),
        i <= r <= v@.len(),
{
    let mut j: usize = i;
    while j < v.len()
        invariant
            i <= j <= v@.len(),
            piece_end(style, verbatim, v@, i as int) == piece_end(style, verbatim, v@, j as int),
        decreases v@.len() - j,
    {
        let hit = if verbatim {
            v[j] == '\\'
        } else {
            sep(style, v[j])
        };
        if hit {
            return j;
        }
        j += 1;
    }
    j
}

fn find_two_names(style: PathStyle, kind: PrefixKind, verbatim: bool, v: &Vec<char>, from: usize) -> (r: PrefixAt)
    requires
        from <= v@.len(),
    ensures
        r.model() == two_names(style, kind, verbatim, v@, from as int),
{
    let e1 = find_piece_end(style, verbatim, v, from);
    let b0: usize = if e1 < v.len() {
        e1 + 1
    } else {
        v.len()
    };
    let b1 = find_piece_end(style, verbatim, v, b0);
    let end: usize = if b0 < b1 {
        b1
    } else {
        e1
    };
    PrefixAt { kind, end, a0: from, a1: e1, b0, b1 }
}

fn absent() -> (r: PrefixAt)
    ensures
        r.model() == no_prefix(),
{
    PrefixAt { kind: PrefixKind::Absent, end: 0, a0: 0, a1: 0, b0: 0, b1: 0 }
}

fn find_prefix(style: PathStyle, v: &Vec<char>) -> (r: PrefixAt)
    ensures
        r.model() == prefix_of(style, v@),
{
    let n: usize = v.len();
    if style == PathStyle::Unix {
        return absent();
    }
    if n >= 2 && sep(style, v[0]) && sep(style, v[1]) {
        if n >= 4 && v[0] == '\\' && v[1] == '\\' && v[2] == '?' && v[3] == '\\' {
            if n >= 8 && v[4] == 'U' && v[5] == 'N' && v[6] == 'C' && sep(style, v[7]) {
                find_two_names(style, PrefixKind::VerbatimUnc, true, v, 8)
            } else if n >= 6 && letter(v[4]) && v[5] == ':' && (n == 6 || sep(style, v[6])) {
                PrefixAt { kind: PrefixKind::VerbatimDisk, end: 6, a0: 4, a1: 5, b0: 0, b1: 0 }
            } else {
                let e = find_piece_end(style, true, v, 4);
                PrefixAt { kind: PrefixKind::Verbatim, end: e, a0: 4, a1: e, b0: 0, b1: 0 }
            }
        } else if n >= 4 && v[2] == '.' && sep(style, v[3]) {
            let e = find_piece_end(style, false, v, 4);
            PrefixAt { kind: PrefixKind::Device, end: e, a0: 4, a1: e, b0: 0, b1: 0 }
        } else {
            let p = find_two_names(style, PrefixKind::Unc, false, v, 2);
            if p.a0 < p.a1 && p.b0 < p.b1 {
                p
            } else {
                absent()
            }
        }
    } else if n >= 2 && letter(v[0]) && v[1] == ':' {
        PrefixAt { kind: PrefixKind::Disk, end: 2, a0: 0, a1: 1, b0: 0, b1: 0 }
    } else {
        absent()
    }
}

/// A path taken apart.
struct Split {
    v: Vec<char>,
    prefix: PrefixAt,
    parts: Vec<PartAt>,
}

impl Split {
    spec fn of(self, style: PathStyle, s: Seq<char>) -> bool {
        &&& self.v@ == s
        &&& self.prefix.model() == prefix_of(style, s)
        &&& models(self.parts@) == parts(style, s)
        &&& in_order(s, parts(style, s))
    }
}

fn push_part(out: &mut Vec<PartAt>, kind: PartKind, start: usize, end: usize)
    ensures
        models(final(out)@) == models(old(out)@).push(part(kind, start as int, end as int)),
{
    out.push(PartAt { kind, start, end });
    assert(models(out@) =~= models(old(out)@).push(part(kind, start as int, end as int)));
}

fn push_body(style: PathStyle, verbatim: bool, dot: bool, v: &Vec<char>, from: usize, out: &mut Vec<PartAt>)
    requires
        from <= v@.len(),
    ensures
        models(final(out)@) == models(old(out)@) + body_parts(style, verbatim, dot, v@, from as int),
{
    let mut i: usize = from;
    let mut counts = dot;
    let ghost all = models(old(out)@) + body_parts(style, verbatim, dot, v@, from as int);
    while i < v.len()
        invariant
            i <= v@.len(),
            all == models(old(out)@) + body_parts(style, verbatim, dot, v@, from as int),
            all == models(out@) + body_parts(style, verbatim, counts, v@, i as int),
        decreases v@.len() - i,
    {
        let e = find_piece_end(style, verbatim, v, i);
        let ghost before = models(out@);
        if e == i {
        } else if e - i == 1 && v[i] == '.' {
            if counts {
                push_part(out, PartKind::Current, i, e);
            }
        } else if e - i == 2 && v[i] == '.' && v[i + 1] == '.' {
            push_part(out, PartKind::Parent, i, e);
        } else {
            push_part(out, PartKind::Name, i, e);
        }
        assert(models(out@) =~= before + piece_part(v@, i as int, e as int, counts));
        if e == v.len() {
            assert(all =~= models(out@));
            return;
        }
        assert(all =~= models(out@) + body_parts(style, verbatim, verbatim, v@, e + 1));
        i = e + 1;
        counts = verbatim;
    }
    assert(all =~= models(out@));
}

fn split(style: PathStyle, s: &str) -> (r: Split)
    ensures
        r.of(style, s@),
{
    let v = chars_of(s);
    let prefix = find_prefix(style, &v);
    proof {
        lemma_prefix_bounds(style, s@);
        lemma_parts_in_order(style, s@);
    }
    let mut out: Vec<PartAt> = Vec::new();
    assert(models(out@) =~= Seq::empty());
    let b: usize = prefix.end;
    let present = prefix.kind != PrefixKind::Absent;
    if present {
        push_part(&mut out, PartKind::Prefix, 0, b);
    }
    let written = b < v.len() && sep(style, v[b]);
    let implied = present && prefix.kind != PrefixKind::Disk;
    let mut body: usize = b;
    if written {
        push_part(&mut out, PartKind::Root, b, b + 1);
        body = b + 1;
    } else if implied {
        push_part(&mut out, PartKind::Root, b, b);
    }
    assert(models(out@) =~= head_parts(style, s@));
    let verbatim = prefix.kind == PrefixKind::Verbatim || prefix.kind == PrefixKind::VerbatimUnc || prefix.kind
        == PrefixKind::VerbatimDisk;
    push_body(style, verbatim, verbatim || !(written || implied), &v, body, &mut out);
    Split { v, prefix, parts: out }
}

/// The name a path ends in.
pub fn file_name(style: PathStyle, path: &str) -> (r: Option<String>)
    ensures
        text::opt_text(r) == file_name_spec(style, path@),
{
    let sp = split(style, path);
    let n: usize = sp.parts.len();
    assert(parts(style, path@).len() == n);
    if n == 0 {
        return None;
    }
    let last = sp.parts[n - 1];
    assert(parts(style, path@).last() == last.model());
    if last.kind == PartKind::Name {
        Some(text_of(&sp.v, last.start, last.end))
    } else {
        None
    }
}

/// The path without its last part.
pub fn parent(style: PathStyle, path: &str) -> (r: Option<String>)
    ensures
        text::opt_text(r) == parent_spec(style, path@),
{
    let sp = split(style, path);
    let n: usize = sp.parts.len();
    assert(parts(style, path@).len() == n);
    if n == 0 {
        return None;
    }
    let last = sp.parts[n - 1];
    assert(parts(style, path@).last() == last.model());
    if last.kind == PartKind::Prefix || last.kind == PartKind::Root {
        return None;
    }
    if n == 1 {
        return Some(String::new());
    }
    let before = sp.parts[n - 2];
    assert(parts(style, path@)[n - 2] == before.model());
    Some(text_of(&sp.v, 0, before.end))
}

fn same_prefix(style: PathStyle, a: &Split, b: &Split) -> (r: bool)
    requires
        a.of(style, a.v@),
        b.of(style, b.v@),
    ensures
        r == (prefix_meaning(a.v@, prefix_of(style, a.v@)) == prefix_meaning(b.v@, prefix_of(style, b.v@))),
{
    proof {
        lemma_prefix_bounds(style, a.v@);
        lemma_prefix_bounds(style, b.v@);
    }
    let p = &a.prefix;
    let q = &b.prefix;
    if p.kind != q.kind {
        return false;
    }
    if p.kind == PrefixKind::Disk || p.kind == PrefixKind::VerbatimDisk {
        let x = to_ascii_upper(a.v[p.a0]);
        let y = to_ascii_upper(b.v[q.a0]);
        proof {
            assert(seq![x][0] == x && seq![y][0] == y);
        }
        x == y
    } else {
        same_range(&a.v, p.a0, p.a1, &b.v, q.a0, q.a1) && same_range(&a.v, p.b0, p.b1, &b.v, q.b0, q.b1)
    }
}

fn same_part(style: PathStyle, a: &Split, i: usize, b: &Split, j: usize) -> (r: bool)
    requires
        a.of(style, a.v@),
        b.of(style, b.v@),
        i < a.parts@.len(),
        j < b.parts@.len(),
    ensures
        r == (components(style, a.v@)[i as int] == components(style, b.v@)[j as int]),
{
    let p = a.parts[i];
    let q = b.parts[j];
    assert(parts(style, a.v@)[i as int] == p.model());
    assert(parts(style, b.v@)[j as int] == q.model());
    if p.kind != q.kind {
        return false;
    }
    match p.kind {
        PartKind::Prefix => same_prefix(style, a, b),
        PartKind::Name => same_range(&a.v, p.start, p.end, &b.v, q.start, q.end),
        _ => true,
    }
}

/// How many leading parts the two have in common, as far as `b` goes: all of
/// `b`'s iff `b` is a prefix of `a`.
fn leads(style: PathStyle, a: &Split, b: &Split) -> (r: bool)
    requires
        a.of(style, a.v@),
        b.of(style, b.v@),
    ensures
        r == under(style, a.v@, b.v@),
{
    let ghost ca = components(style, a.v@);
    let ghost cb = components(style, b.v@);
    assert(ca.len() == a.parts@.len() && cb.len() == b.parts@.len());
    if b.parts.len() > a.parts.len() {
        return false;
    }
    let mut i: usize = 0;
    while i < b.parts.len()
        invariant
            a.of(style, a.v@),
            b.of(style, b.v@),
            ca == components(style, a.v@),
            cb == components(style, b.v@),
            ca.len() == a.parts@.len(),
            cb.len() == b.parts@.len(),
            cb.len() <= ca.len(),
            i <= cb.len(),
            forall|j: int| 0 <= j < i ==> ca[j] == cb[j],
        decreases cb.len() - i,
    {
        if !same_part(style, a, i, b, i) {
            assert(ca.subrange(0, cb.len() as int)[i as int] == ca[i as int]);
            return false;
        }
        i += 1;
    }
    assert(cb =~= ca.subrange(0, cb.len() as int));
    true
}

/// Whether two texts name the same path.
pub fn same_path(style: PathStyle, a: &str, b: &str) -> (r: bool)
    ensures
        r == same_path_spec(style, a@, b@),
{
    let x = split(style, a);
    let y = split(style, b);
    let ghost ca = components(style, a@);
    let ghost cb = components(style, b@);
    assert(ca.len() == x.parts@.len() && cb.len() == y.parts@.len());
    if x.parts.len() != y.parts.len() {
        return false;
    }
    let r = leads(style, &x, &y);
    assert(ca =~= ca.subrange(0, ca.len() as int));
    r
}

/// Whether `path` is `base` or lies under it.
pub fn starts_with(style: PathStyle, path: &str, base: &str) -> (r: bool)
    ensures
        r == under(style, path@, base@),
{
    leads(style, &split(style, path), &split(style, base))
}

/// What is left of `path` behind `base`.
pub fn strip_prefix(style: PathStyle, path: &str, base: &str) -> (r: Option<String>)
    ensures
        text::opt_text(r) == strip_prefix_spec(style, path@, base@),
{
    let x = split(style, path);
    let y = split(style, base);
    if !leads(style, &x, &y) {
        return None;
    }
    let k: usize = y.parts.len();
    let n: usize = x.parts.len();
    assert(parts(style, path@).len() == n && parts(style, base@).len() == k);
    if k < n {
        let first = x.parts[k];
        let last = x.parts[n - 1];
        assert(parts(style, path@)[k as int] == first.model());
        assert(parts(style, path@)[n - 1] == last.model());
        Some(text_of(&x.v, first.start, last.end))
    } else {
        Some(String::new())
    }
}

/// Whether a path joined to another stands on its own: a rooted one on Unix, one
/// with a prefix on Windows.
pub open spec fn stands_alone(style: PathStyle, s: Seq<char>) -> bool {
    if style == PathStyle::Unix {
        has_root(style, s)
    } else {
        prefix_of(style, s).kind != PrefixKind::Absent
    }
}

/// Whether a separator has to be written before a name is appended: not behind
/// one, and not behind a bare drive such as `C:`.
pub open spec fn needs_sep(style: PathStyle, s: Seq<char>) -> bool {
    let p = prefix_of(style, s);
    s.len() > 0 && !is_sep(style, s.last()) && !(p.kind == PrefixKind::Disk && p.end == s.len())
}

/// A part and how it is written.
pub ghost struct Item {
    pub kind: PartKind,
    pub text: Seq<char>,
}

pub open spec fn item_of(s: Seq<char>, p: Part) -> Item {
    Item {
        kind: p.kind,
        text: if p.kind == PartKind::Root {
            seq!['\\']
        } else {
            s.subrange(p.start, p.end)
        },
    }
}

/// A verbatim path takes a part of a relative one: `.` leaves it, `..` takes a
/// name off its end, a root takes everything off behind the prefix.
pub open spec fn absorb(items: Seq<Item>, it: Item) -> Seq<Item> {
    match it.kind {
        PartKind::Root => items.take(if items.len() > 1 { 1 } else { items.len() as int }).push(it),
        PartKind::Current => items,
        PartKind::Parent => if items.len() > 0 && items.last().kind == PartKind::Name {
            items.drop_last()
        } else {
            items
        },
        _ => items.push(it),
    }
}

/// The first `k` parts of `rest` absorbed one after the other.
pub open spec fn absorb_all(items: Seq<Item>, rest: Seq<Item>) -> Seq<Item>
    decreases rest.len(),
{
    if rest.len() == 0 {
        items
    } else {
        absorb(absorb_all(items, rest.drop_last()), rest.last())
    }
}

/// Parts written out, with a backslash between two that have no root between
/// them.
pub open spec fn written(items: Seq<Item>) -> Seq<char>
    decreases items.len(),
{
    if items.len() == 0 {
        Seq::empty()
    } else {
        let before = items.drop_last();
        let glue = if before.len() > 0 && before.last().kind != PartKind::Root && items.last().kind
            != PartKind::Root {
            seq!['\\']
        } else {
            Seq::<char>::empty()
        };
        written(before) + glue + items.last().text
    }
}

pub open spec fn items_of(style: PathStyle, s: Seq<char>) -> Seq<Item> {
    parts(style, s).map_values(|p: Part| item_of(s, p))
}

/// `rest` appended to `base` as a path.
pub open spec fn join_spec(style: PathStyle, base: Seq<char>, rest: Seq<char>) -> Seq<char> {
    let p = prefix_of(style, base);
    if stands_alone(style, rest) {
        rest
    } else if is_verbatim(p.kind) && rest.len() > 0 {
        written(absorb_all(items_of(style, base), items_of(style, rest)))
    } else if has_root(style, rest) {
        base.subrange(0, p.end) + rest
    } else if needs_sep(style, base) {
        base.push(main_sep(style)) + rest
    } else {
        base + rest
    }
}

/// An [`Item`] with its own text.
struct ItemText {
    kind: PartKind,
    text: String,
}

impl ItemText {
    spec fn model(self) -> Item {
        Item { kind: self.kind, text: self.text@ }
    }
}

spec fn item_models(v: Seq<ItemText>) -> Seq<Item> {
    v.map_values(|i: ItemText| i.model())
}

fn take_item(style: PathStyle, sp: &Split, i: usize) -> (r: ItemText)
    requires
        sp.of(style, sp.v@),
        i < sp.parts@.len(),
    ensures
        r.model() == items_of(style, sp.v@)[i as int],
{
    let p = sp.parts[i];
    assert(parts(style, sp.v@)[i as int] == p.model());
    if p.kind == PartKind::Root {
        let mut text = String::new();
        text.push('\\');
        assert(text@ =~= seq!['\\']);
        ItemText { kind: p.kind, text }
    } else {
        ItemText { kind: p.kind, text: text_of(&sp.v, p.start, p.end) }
    }
}

fn absorb_item(items: &mut Vec<ItemText>, it: ItemText)
    ensures
        item_models(final(items)@) == absorb(item_models(old(items)@), it.model()),
{
    match it.kind {
        PartKind::Root => {
            items.truncate(1);
            items.push(it);
        },
        PartKind::Current => {},
        PartKind::Parent => {
            let n: usize = items.len();
            if n > 0 && items[n - 1].kind == PartKind::Name {
                items.pop();
            }
        },
        _ => {
            items.push(it);
        },
    }
    assert(item_models(items@) =~= absorb(item_models(old(items)@), it.model()));
}

fn write_items(items: &Vec<ItemText>) -> (r: String)
    ensures
        r@ == written(item_models(items@)),
{
    let ghost all = item_models(items@);
    let mut out = String::new();
    let mut i: usize = 0;
    assert(all.take(0) =~= Seq::empty());
    while i < items.len()
        invariant
            all == item_models(items@),
            i <= items@.len(),
            out@ == written(all.take(i as int)),
        decreases items@.len() - i,
    {
        assert(all.take(i + 1).drop_last() =~= all.take(i as int));
        assert(all.take(i + 1).last() == items@[i as int].model());
        if i > 0 {
            assert(all.take(i as int).last() == items@[i - 1].model());
        }
        if i > 0 && items[i - 1].kind != PartKind::Root && items[i].kind != PartKind::Root {
            out.push('\\');
        }
        out.append(items[i].text.as_str());
        i += 1;
        assert(out@ =~= written(all.take(i as int)));
    }
    assert(all.take(i as int) =~= all);
    out
}

fn join_verbatim(style: PathStyle, base: &Split, rest: &Split) -> (r: String)
    requires
        base.of(style, base.v@),
        rest.of(style, rest.v@),
    ensures
        r@ == written(absorb_all(items_of(style, base.v@), items_of(style, rest.v@))),
{
    let ghost bi = items_of(style, base.v@);
    let ghost ri = items_of(style, rest.v@);
    assert(bi.len() == base.parts@.len() && ri.len() == rest.parts@.len());
    let mut items: Vec<ItemText> = Vec::new();
    let mut i: usize = 0;
    assert(item_models(items@) =~= bi.take(0));
    while i < base.parts.len()
        invariant
            base.of(style, base.v@),
            bi == items_of(style, base.v@),
            bi.len() == base.parts@.len(),
            i <= bi.len(),
            item_models(items@) == bi.take(i as int),
        decreases bi.len() - i,
    {
        let it = take_item(style, base, i);
        let ghost before = item_models(items@);
        items.push(it);
        assert(item_models(items@) =~= before.push(it.model()));
        i += 1;
        assert(bi.take(i as int) =~= bi.take(i - 1).push(bi[i - 1]));
    }
    assert(bi.take(i as int) =~= bi);
    let mut j: usize = 0;
    assert(ri.take(0) =~= Seq::empty());
    while j < rest.parts.len()
        invariant
            rest.of(style, rest.v@),
            ri == items_of(style, rest.v@),
            ri.len() == rest.parts@.len(),
            j <= ri.len(),
            item_models(items@) == absorb_all(bi, ri.take(j as int)),
        decreases ri.len() - j,
    {
        absorb_item(&mut items, take_item(style, rest, j));
        j += 1;
        assert(ri.take(j as int).drop_last() =~= ri.take(j - 1));
        assert(ri.take(j as int).last() == ri[j - 1]);
    }
    assert(ri.take(j as int) =~= ri);
    write_items(&items)
}

/// `rest` appended to `base` as a path.
pub fn join(style: PathStyle, base: &str, rest: &str) -> (r: String)
    ensures
        r@ == join_spec(style, base@, rest@),
{
    let b = split(style, base);
    let x = split(style, rest);
    proof {
        lemma_prefix_bounds(style, base@);
        lemma_prefix_bounds(style, rest@);
    }
    let rooted = x.prefix.end < x.v.len() && sep(style, x.v[x.prefix.end]);
    let rest_prefixed = x.prefix.kind != PrefixKind::Absent;
    let rest_has_root = rooted || (rest_prefixed && x.prefix.kind != PrefixKind::Disk);
    let alone = if style == PathStyle::Unix {
        rest_has_root
    } else {
        rest_prefixed
    };
    if alone {
        return rest.to_owned();
    }
    let verbatim = b.prefix.kind == PrefixKind::Verbatim || b.prefix.kind == PrefixKind::VerbatimUnc || b.prefix.kind
        == PrefixKind::VerbatimDisk;
    if verbatim && x.v.len() > 0 {
        return join_verbatim(style, &b, &x);
    }
    if rest_has_root {
        let mut out = text_of(&b.v, 0, b.prefix.end);
        out.append(rest);
        return out;
    }
    let n: usize = b.v.len();
    let bare = b.prefix.kind == PrefixKind::Disk && b.prefix.end == n;
    let mut out = base.to_owned();
    if n > 0 && !sep(style, b.v[n - 1]) && !bare {
        out.push(
            if style == PathStyle::Unix {
                '/'
            } else {
                '\\'
            },
        );
    }
    out.append(rest);
    out
}

/// The last `.` of a name; -1 where there is none.
pub open spec fn last_dot(s: Seq<char>) -> int
    decreases s.len(),
{
    if s.len() == 0 {
        -1
    } else if s.last() == '.' {
        s.len() - 1
    } else {
        last_dot(s.drop_last())
    }
}

/// The extension of a file's name: what stands behind its last dot. A name
/// without a dot has none, nor has one whose only dot leads it.
pub open spec fn name_extension(name: Seq<char>) -> Option<Seq<char>> {
    if last_dot(name) > 0 {
        Some(name.subrange(last_dot(name) + 1, name.len() as int))
    } else {
        None
    }
}

/// A file's name without its extension and the dot before it.
pub open spec fn name_stem(name: Seq<char>) -> Seq<char> {
    if last_dot(name) > 0 {
        name.subrange(0, last_dot(name))
    } else {
        name
    }
}

/// The extension of the name a path ends in.
pub open spec fn extension_spec(style: PathStyle, path: Seq<char>) -> Option<Seq<char>> {
    match file_name_spec(style, path) {
        Some(name) => name_extension(name),
        None => None,
    }
}

/// The stem of the name a path ends in.
pub open spec fn stem_spec(style: PathStyle, path: Seq<char>) -> Option<Seq<char>> {
    match file_name_spec(style, path) {
        Some(name) => Some(name_stem(name)),
        None => None,
    }
}

/// The position of the last dot and one, 0 where there is none.
fn behind_last_dot(v: &Vec<char>) -> (r: usize)
    ensures
        r == last_dot(v@) + 1,
        r <= v@.len(),
{
    let mut n: usize = v.len();
    assert(v@.take(n as int) =~= v@);
    while n > 0
        invariant
            n <= v@.len(),
            last_dot(v@) == last_dot(v@.take(n as int)),
        decreases n,
    {
        if v[n - 1] == '.' {
            return n;
        }
        assert(v@.take(n as int).drop_last() =~= v@.take(n - 1));
        n -= 1;
    }
    0
}

/// The extension of the name a path ends in.
pub fn extension(style: PathStyle, path: &str) -> (r: Option<String>)
    ensures
        text::opt_text(r) == extension_spec(style, path@),
{
    match file_name(style, path) {
        None => None,
        Some(name) => {
            let v = chars_of(name.as_str());
            let d = behind_last_dot(&v);
            if d > 1 {
                Some(text_of(&v, d, v.len()))
            } else {
                None
            }
        },
    }
}

/// The stem of the name a path ends in.
pub fn file_stem(style: PathStyle, path: &str) -> (r: Option<String>)
    ensures
        text::opt_text(r) == stem_spec(style, path@),
{
    match file_name(style, path) {
        None => None,
        Some(name) => {
            let v = chars_of(name.as_str());
            let d = behind_last_dot(&v);
            if d > 1 {
                Some(text_of(&v, 0, d - 1))
            } else {
                Some(name)
            }
        },
    }
}

/// Reads `std::path::MAIN_SEPARATOR`, the primary separator of the system the
/// program was built for: a backslash on Windows, a slash elsewhere. Nothing is
/// claimed of the character, since it differs from system to system.
#[verifier::external_body]
fn native_separator() -> char {
    std::path::MAIN_SEPARATOR
}

/// The style of a system with that primary separator.
pub fn style_of_separator(sep: char) -> (r: PathStyle)
    ensures
        r == (if sep == '\\' {
            PathStyle::Windows
        } else {
            PathStyle::Unix
        }),
{
    if sep == '\\' {
        PathStyle::Windows
    } else {
        PathStyle::Unix
    }
}

/// The style of the system the program runs on: that of its primary separator,
/// whichever it is.
pub fn native_style() -> (r: PathStyle)
    ensures
        r is Unix || r is Windows,
{
    style_of_separator(native_separator())
}

/// A name that no style splits: no separator of any style and no drive.
pub open spec fn is_plain(s: Seq<char>) -> bool {
    forall|i: int| 0 <= i < s.len() ==> #[trigger] s[i] != '/' && s[i] != '\\' && s[i] != ':'
}

/// A name that a folder of the disk can give to what is in it.
pub open spec fn is_entry_name(name: Seq<char>) -> bool {
    is_plain(name) && name.len() > 0 && name != "."@ && name != ".."@
}

proof fn lemma_plain_piece_end(style: PathStyle, s: Seq<char>, i: int)
    requires
        is_plain(s),
        0 <= i <= s.len(),
    ensures
        piece_end(style, false, s, i) == s.len(),
    decreases s.len() - i,
{
    if i < s.len() {
        lemma_plain_piece_end(style, s, i + 1);
    }
}

/// A plain name is a path of that one name, in either style.
pub proof fn lemma_plain_is_its_name(style: PathStyle, s: Seq<char>)
    requires
        is_plain(s),
        s.len() > 0,
        s != "."@,
        s != ".."@,
    ensures
        parts(style, s) == seq![part(PartKind::Name, 0, s.len() as int)],
        components(style, s) == seq![Meaning::Name(s)],
        file_name_spec(style, s) == Some(s),
        prefix_of(style, s) == no_prefix(),
        !has_root(style, s),
{
    reveal_strlit(".");
    reveal_strlit("..");
    lemma_plain_piece_end(style, s, 0);
    assert(s.len() == 1 ==> s[0] != '.') by {
        if s.len() == 1 && s[0] == '.' {
            assert(s =~= "."@);
        }
    }
    assert(!(s.len() == 2 && s[0] == '.' && s[1] == '.')) by {
        if s.len() == 2 && s[0] == '.' && s[1] == '.' {
            assert(s =~= ".."@);
        }
    }
    assert(prefix_of(style, s) == no_prefix());
    assert(head_parts(style, s) =~= Seq::empty());
    let one = seq![part(PartKind::Name, 0, s.len() as int)];
    assert(body_parts(style, false, true, s, 0) =~= one);
    assert(parts(style, s) =~= one);
    assert(s.subrange(0, s.len() as int) =~= s);
    assert(components(style, s) =~= seq![Meaning::Name(s)]);
}

/// A path whose prefix does not change when a name is appended: any on Unix; on
/// Windows one with a drive, a share or no prefix, but not a lone server, whose
/// next name would be its share.
pub open spec fn is_settled(style: PathStyle, s: Seq<char>) -> bool {
    let kind = prefix_of(style, s).kind;
    ||| style == PathStyle::Unix
    ||| kind == PrefixKind::Disk
    ||| kind == PrefixKind::Unc
    ||| kind == PrefixKind::Absent && !(s.len() >= 2 && is_sep(style, s[0]) && is_sep(style, s[1]))
}

/// `s` is `base`, a separator where one is needed, and `name`, which starts at
/// `k`.
spec fn glued(style: PathStyle, base: Seq<char>, name: Seq<char>, s: Seq<char>, k: int) -> bool {
    &&& if needs_sep(style, base) {
        s == base.push(main_sep(style)) + name && k == base.len() + 1
    } else {
        s == base + name && k == base.len()
    }
}

proof fn lemma_piece_end_glued(style: PathStyle, base: Seq<char>, name: Seq<char>, s: Seq<char>, k: int, i: int)
    requires
        glued(style, base, name, s, k),
        is_plain(name),
        0 <= i <= base.len(),
    ensures
        piece_end(style, false, base, i) < base.len() ==> piece_end(style, false, s, i) == piece_end(
            style,
            false,
            base,
            i,
        ),
        needs_sep(style, base) ==> piece_end(style, false, s, i) == piece_end(style, false, base, i),
        i == base.len() && k == base.len() ==> piece_end(style, false, s, i) == s.len(),
        piece_end(style, false, s, k) == s.len(),
    decreases base.len() - i,
{
    assert(s.subrange(k, s.len() as int) =~= name);
    lemma_tail_piece_end(style, name, s, k, k);
    if i < base.len() {
        assert(s[i] == base[i]);
        if !is_sep(style, base[i]) {
            lemma_piece_end_glued(style, base, name, s, k, i + 1);
        }
    }
}

proof fn lemma_tail_piece_end(style: PathStyle, name: Seq<char>, s: Seq<char>, k: int, i: int)
    requires
        is_plain(name),
        0 <= k <= i <= s.len(),
        s.len() == k + name.len(),
        s.subrange(k, s.len() as int) == name,
    ensures
        piece_end(style, false, s, i) == s.len(),
    decreases s.len() - i,
{
    if i < s.len() {
        assert(s[i] == name[i - k]);
        lemma_tail_piece_end(style, name, s, k, i + 1);
    }
}

proof fn lemma_body_glued(
    style: PathStyle,
    dot: bool,
    base: Seq<char>,
    name: Seq<char>,
    s: Seq<char>,
    k: int,
    i: int,
)
    requires
        glued(style, base, name, s, k),
        is_entry_name(name),
        0 <= i <= base.len(),
        i < base.len() || k == base.len(),
        base.len() > 0 && !needs_sep(style, base) ==> is_sep(style, base.last()) || i == base.len(),
    ensures
        body_parts(style, false, dot, s, i) == body_parts(style, false, dot, base, i).push(
            part(PartKind::Name, k, s.len() as int),
        ),
    decreases base.len() - i,
{
    lemma_piece_end(style, false, base, i);
    lemma_piece_end_glued(style, base, name, s, k, i);
    let e = piece_end(style, false, base, i);
    let last = part(PartKind::Name, k, s.len() as int);
    assert(s.subrange(k, s.len() as int) =~= name);
    lemma_name_piece(s, k, name);
    if i == base.len() {
        assert(body_parts(style, false, dot, base, i) =~= Seq::empty());
        assert(body_parts(style, false, dot, s, i) =~= seq![last]);
    } else if e < base.len() {
        assert forall|j: int| i <= j < e implies s[j] == base[j] by {}
        assert(piece_part(s, i, e, dot) == piece_part(base, i, e, dot));
        if e + 1 < base.len() {
            lemma_body_glued(style, false, base, name, s, k, e + 1);
        } else {
            assert(base.last() == base[e]);
            lemma_separator_found(style, base, i);
            assert(!needs_sep(style, base));
            lemma_body_glued(style, false, base, name, s, k, e + 1);
        }
        assert(body_parts(style, false, dot, s, i) =~= body_parts(style, false, dot, base, i).push(last));
    } else {
        lemma_no_separator(style, base, i);
        assert(!is_sep(style, base.last()));
        assert(needs_sep(style, base));
        assert forall|j: int| i <= j < base.len() implies s[j] == base[j] by {}
        assert(piece_part(s, i, e, dot) == piece_part(base, i, e, dot));
        assert(body_parts(style, false, false, s, k) =~= seq![last]);
        assert(body_parts(style, false, dot, s, i) =~= body_parts(style, false, dot, base, i).push(last));
    }
}

proof fn lemma_separator_found(style: PathStyle, s: Seq<char>, i: int)
    requires
        0 <= i,
        piece_end(style, false, s, i) < s.len(),
    ensures
        i <= piece_end(style, false, s, i),
        is_sep(style, s[piece_end(style, false, s, i)]),
    decreases s.len() - i,
{
    if i < s.len() && !is_sep(style, s[i]) {
        lemma_separator_found(style, s, i + 1);
    }
}

proof fn lemma_no_separator(style: PathStyle, s: Seq<char>, i: int)
    requires
        0 <= i < s.len(),
        piece_end(style, false, s, i) >= s.len(),
    ensures
        !is_sep(style, s.last()),
    decreases s.len() - i,
{
    if i + 1 < s.len() {
        lemma_no_separator(style, s, i + 1);
    }
}

proof fn lemma_prefix_glued(style: PathStyle, base: Seq<char>, name: Seq<char>, s: Seq<char>, k: int)
    requires
        glued(style, base, name, s, k),
        is_settled(style, base),
        is_plain(name),
        name.len() > 0,
    ensures
        prefix_of(style, s) == prefix_of(style, base),
        is_settled(style, s),
{
    assert forall|j: int| 0 <= j < base.len() implies s[j] == base[j] by {}
    assert(s[k] == name[0]);
    if style == PathStyle::Windows {
        let p = prefix_of(style, base);
        if p.kind == PrefixKind::Unc {
            lemma_two_names(style, PrefixKind::Unc, false, base, 2);
            lemma_piece_end(style, false, base, 2);
            assert(p == two_names(style, PrefixKind::Unc, false, base, 2));
            if p.b1 == base.len() {
                lemma_no_separator(style, base, p.b0);
            }
            lemma_piece_end_glued(style, base, name, s, k, 2);
            lemma_piece_end_glued(style, base, name, s, k, p.b0);
            assert(base.len() >= 4);
            assert(starts_verbatim(s) == starts_verbatim(base));
            assert(two_names(style, PrefixKind::Unc, false, s, 2) == p);
        } else if base.len() < 2 {
            if base.len() == 1 {
                assert(s[0] == base[0]);
                assert(s[1] == main_sep(style) || s[1] == name[0]);
            }
        }
    }
}

/// The parts of `s` are those of `base`, but for a root that becomes written,
/// and then the name.
spec fn extends(ps: Seq<Part>, qs: Seq<Part>, last: Part) -> bool {
    &&& qs.len() == ps.len() + 1
    &&& qs.last() == last
    &&& forall|i: int|
        0 <= i < ps.len() ==> (#[trigger] qs[i]).kind == ps[i].kind && (ps[i].kind == PartKind::Root || qs[i] == ps[i])
}

proof fn lemma_share_parts(style: PathStyle, base: Seq<char>, name: Seq<char>, s: Seq<char>, k: int)
    requires
        glued(style, base, name, s, k),
        is_entry_name(name),
        prefix_of(style, s) == prefix_of(style, base),
        prefix_of(style, base).kind == PrefixKind::Unc,
        prefix_of(style, base).end == base.len(),
    ensures
        extends(parts(style, base), parts(style, s), part(PartKind::Name, k, s.len() as int)),
{
    let p = prefix_of(style, base);
    let last = part(PartKind::Name, k, s.len() as int);
    lemma_two_names(style, PrefixKind::Unc, false, base, 2);
    assert(p.b1 == base.len());
    lemma_no_separator(style, base, p.b0);
    assert(needs_sep(style, base));
    assert(s.subrange(k, s.len() as int) =~= name);
    lemma_tail_piece_end(style, name, s, k, k);
    lemma_name_piece(s, k, name);
    assert(s[base.len() as int] == main_sep(style));
    assert(body_parts(style, false, false, s, k) =~= seq![last]);
    assert(body_parts(style, false, false, base, base.len() as int) =~= Seq::empty());
    assert(parts(style, base) =~= seq![part(PartKind::Prefix, 0, p.end), part(PartKind::Root, p.end, p.end)]);
    assert(parts(style, s) =~= seq![
        part(PartKind::Prefix, 0, p.end),
        part(PartKind::Root, p.end, p.end + 1),
        last,
    ]);
}

proof fn lemma_parts_glued(style: PathStyle, base: Seq<char>, name: Seq<char>, s: Seq<char>, k: int)
    requires
        glued(style, base, name, s, k),
        is_settled(style, base),
        is_entry_name(name),
        prefix_of(style, s) == prefix_of(style, base),
    ensures
        extends(parts(style, base), parts(style, s), part(PartKind::Name, k, s.len() as int)),
{
    let p = prefix_of(style, base);
    let last = part(PartKind::Name, k, s.len() as int);
    lemma_prefix_bounds(style, base);
    if p.kind == PrefixKind::Unc && p.end == base.len() {
        lemma_share_parts(style, base, name, s, k);
    } else {
        if p.end < base.len() {
            assert(s[p.end] == base[p.end]);
        } else {
            assert(s[k] == name[0]);
            assert(k == base.len());
        }
        assert(has_written_root(style, s) == has_written_root(style, base));
        assert(head_parts(style, s) == head_parts(style, base));
        lemma_body_glued(style, !has_root(style, base), base, name, s, k, body_start(style, base));
        assert(parts(style, s) =~= parts(style, base).push(last));
    }
}

/// A name joined to a folder lies in it: the parts of the folder come first, and
/// the name last.
pub proof fn law_joined_name_lies_inside(style: PathStyle, base: Seq<char>, name: Seq<char>)
    requires
        is_settled(style, base),
        is_entry_name(name),
    ensures
        components(style, join_spec(style, base, name)) == components(style, base).push(Meaning::Name(name)),
        file_name_spec(style, join_spec(style, base, name)) == Some(name),
        under(style, join_spec(style, base, name), base),
        is_settled(style, join_spec(style, base, name)),
{
    lemma_plain_is_its_name(style, name);
    let s = join_spec(style, base, name);
    let k: int = base.len() + (if needs_sep(style, base) {
        1int
    } else {
        0
    });
    assert(glued(style, base, name, s, k));
    lemma_prefix_glued(style, base, name, s, k);
    lemma_parts_glued(style, base, name, s, k);
    lemma_prefix_bounds(style, base);
    lemma_parts_in_order(style, base);
    let p = prefix_of(style, base);
    let ps = parts(style, base);
    let qs = parts(style, s);
    let a = components(style, base);
    let b = components(style, s);
    assert(s.subrange(k, s.len() as int) =~= name);
    assert(prefix_meaning(s, p) == prefix_meaning(base, p)) by {
        assert(s.subrange(p.a0, p.a1) =~= base.subrange(p.a0, p.a1));
        assert(s.subrange(p.b0, p.b1) =~= base.subrange(p.b0, p.b1));
    }
    assert forall|i: int| 0 <= i < a.len() implies b[i] == a[i] by {
        assert(0 <= ps[i].start <= ps[i].end <= base.len());
        assert(qs[i].kind == ps[i].kind);
        assert(s.subrange(ps[i].start, ps[i].end) =~= base.subrange(ps[i].start, ps[i].end));
    }
    assert(b =~= a.push(Meaning::Name(name)));
}

proof fn lemma_name_piece(s: Seq<char>, k: int, name: Seq<char>)
    requires
        0 <= k,
        s.len() == k + name.len(),
        s.subrange(k, s.len() as int) == name,
        name.len() > 0,
        name != "."@,
        name != ".."@,
    ensures
        forall|dot: bool| #[trigger] piece_part(s, k, s.len() as int, dot) == seq![part(PartKind::Name, k, s.len() as int)],
{
    reveal_strlit(".");
    reveal_strlit("..");
    assert(s[k] == name[0]);
    if name.len() == 1 && name[0] == '.' {
        assert(name =~= "."@);
    }
    if name.len() == 2 {
        assert(s[k + 1] == name[1]);
        if name[0] == '.' && name[1] == '.' {
            assert(name =~= ".."@);
        }
    }
}

/// What a piece without separators means; nothing where it is empty, or a `.`
/// that does not count.
pub open spec fn piece_meaning(piece: Seq<char>, dot: bool) -> Seq<Meaning> {
    if piece.len() == 0 {
        Seq::empty()
    } else if piece.len() == 1 && piece[0] == '.' {
        if dot {
            seq![Meaning::Current]
        } else {
            Seq::empty()
        }
    } else if piece.len() == 2 && piece[0] == '.' && piece[1] == '.' {
        seq![Meaning::Parent]
    } else {
        seq![Meaning::Name(piece)]
    }
}

/// What a text behind a root means, piece by piece.
spec fn body_meaning(style: PathStyle, dot: bool, s: Seq<char>) -> Seq<Meaning>
    decreases s.len(),
{
    let e = piece_end(style, false, s, 0);
    if s.len() == 0 || e < 0 {
        Seq::empty()
    } else if e >= s.len() {
        piece_meaning(s, dot)
    } else {
        piece_meaning(s.take(e), dot) + body_meaning(style, false, s.skip(e + 1))
    }
}

proof fn lemma_piece_end_moved(style: PathStyle, s: Seq<char>, i: int, j: int)
    requires
        0 <= i <= j <= s.len(),
    ensures
        piece_end(style, false, s, j) == i + piece_end(style, false, s.skip(i), j - i),
    decreases s.len() - j,
{
    if j < s.len() {
        assert(s.skip(i)[j - i] == s[j]);
        if !is_sep(style, s[j]) {
            lemma_piece_end_moved(style, s, i, j + 1);
        }
    }
}

/// A separator at `n`, and none from `i` up to it.
proof fn lemma_piece_ends_at(style: PathStyle, s: Seq<char>, i: int, n: int)
    requires
        0 <= i <= n <= s.len(),
        forall|j: int| i <= j < n ==> !is_sep(style, #[trigger] s[j]),
        n < s.len() ==> is_sep(style, s[n]),
    ensures
        piece_end(style, false, s, i) == n,
    decreases n - i,
{
    if i < n {
        assert(!is_sep(style, s[i]));
        lemma_piece_ends_at(style, s, i + 1, n);
    }
}

proof fn lemma_piece_holds_no_separator(style: PathStyle, s: Seq<char>, i: int)
    requires
        0 <= i <= s.len(),
    ensures
        i <= piece_end(style, false, s, i) <= s.len(),
        forall|j: int| i <= j < piece_end(style, false, s, i) ==> !is_sep(style, #[trigger] s[j]),
        piece_end(style, false, s, i) < s.len() ==> is_sep(style, s[piece_end(style, false, s, i)]),
    decreases s.len() - i,
{
    if i < s.len() && !is_sep(style, s[i]) {
        lemma_piece_holds_no_separator(style, s, i + 1);
    }
}

/// A body's meaning goes by the text from where it starts.
proof fn lemma_body_meaning(style: PathStyle, dot: bool, s: Seq<char>, i: int)
    requires
        0 <= i <= s.len(),
    ensures
        body_parts(style, false, dot, s, i).map_values(|p: Part| meaning(style, s, p)) == body_meaning(
            style,
            dot,
            s.skip(i),
        ),
    decreases s.len() - i,
{
    let f = |p: Part| meaning(style, s, p);
    let t = s.skip(i);
    let e = piece_end(style, false, s, i);
    lemma_piece_holds_no_separator(style, s, i);
    lemma_piece_end_moved(style, s, i, i);
    if i < s.len() {
        let head = piece_part(s, i, e, dot);
        assert(t.take(e - i) =~= s.subrange(i, e));
        assert(head.map_values(f) =~= piece_meaning(s.subrange(i, e), dot)) by {
            if e > i {
                assert(s.subrange(i, e)[0] == s[i]);
            }
            if e > i + 1 {
                assert(s.subrange(i, e)[1] == s[i + 1]);
            }
        }
        if e < s.len() {
            lemma_body_meaning(style, false, s, e + 1);
            assert(t.skip(e - i + 1) =~= s.skip(e + 1));
            let tail = body_parts(style, false, false, s, e + 1);
            assert((head + tail).map_values(f) =~= head.map_values(f) + tail.map_values(f));
        } else {
            assert(s.subrange(i, e) =~= t);
        }
    } else {
        assert(body_parts(style, false, dot, s, i).map_values(f) =~= Seq::empty());
    }
}

/// A separator parts a body.
#[verifier::spinoff_prover]
proof fn lemma_body_parted(style: PathStyle, dot: bool, x: Seq<char>, c: char, y: Seq<char>)
    requires
        is_sep(style, c),
    ensures
        body_meaning(style, dot, x.push(c) + y) == body_meaning(style, dot, x) + body_meaning(style, false, y),
    decreases x.len(),
{
    let s = x.push(c) + y;
    let e = piece_end(style, false, x, 0);
    lemma_piece_holds_no_separator(style, x, 0);
    assert forall|j: int| 0 <= j < x.len() implies s[j] == x[j] by {}
    assert(s[x.len() as int] == c);
    lemma_piece_ends_at(style, s, 0, e);
    assert(s.take(e) =~= x.take(e));
    if e < x.len() {
        lemma_body_parted(style, false, x.skip(e + 1), c, y);
        assert(s.skip(e + 1) =~= x.skip(e + 1).push(c) + y);
        let (p, q, r) = (
            piece_meaning(x.take(e), dot),
            body_meaning(style, false, x.skip(e + 1)),
            body_meaning(style, false, y),
        );
        assert(body_meaning(style, dot, s) == p + (q + r));
        assert(body_meaning(style, dot, x) == p + q);
        assert(p + (q + r) =~= (p + q) + r);
    } else {
        assert(s.skip(e + 1) =~= y);
        assert(x.take(e) =~= x);
        lemma_body_of_piece(style, dot, x);
        assert(body_meaning(style, dot, s) == piece_meaning(x, dot) + body_meaning(style, false, y));
    }
}

/// A text without separators is one piece.
proof fn lemma_body_of_piece(style: PathStyle, dot: bool, x: Seq<char>)
    requires
        forall|j: int| 0 <= j < x.len() ==> !is_sep(style, #[trigger] x[j]),
    ensures
        body_meaning(style, dot, x) == piece_meaning(x, dot),
{
    lemma_piece_ends_at(style, x, 0, x.len() as int);
    if x.len() == 0 {
        assert(body_meaning(style, dot, x) =~= piece_meaning(x, dot));
    }
}

/// What stands behind the last part of a body means nothing.
proof fn lemma_body_cut(style: PathStyle, s: Seq<char>, i: int)
    requires
        0 <= i <= s.len(),
        body_parts(style, false, false, s, i).len() > 0,
    ensures
        i < body_parts(style, false, false, s, i).last().end <= s.len(),
        body_meaning(style, false, s.subrange(i, body_parts(style, false, false, s, i).last().end)) == body_meaning(
            style,
            false,
            s.skip(i),
        ),
    decreases s.len() - i,
{
    let ps = body_parts(style, false, false, s, i);
    lemma_body_in_order(style, false, false, s, i);
    lemma_piece_holds_no_separator(style, s, i);
    let e = piece_end(style, false, s, i);
    let z = ps.last().end;
    let x = s.subrange(i, e);
    assert(i < s.len());
    if e >= s.len() {
        assert(s.subrange(i, z) =~= s.skip(i));
    } else {
        let tail = body_parts(style, false, false, s, e + 1);
        assert(s.skip(i) =~= x.push(s[e]) + s.skip(e + 1));
        lemma_body_parted(style, false, x, s[e], s.skip(e + 1));
        lemma_body_meaning(style, false, s, e + 1);
        if tail.len() == 0 {
            assert(s.subrange(i, z) =~= x);
            assert(body_meaning(style, false, s.skip(e + 1)) =~= Seq::empty());
            assert(body_meaning(style, false, s.skip(i)) =~= body_meaning(style, false, x));
        } else {
            lemma_body_cut(style, s, e + 1);
            assert(ps.last() == tail.last());
            assert(s.subrange(i, z) =~= x.push(s[e]) + s.subrange(e + 1, z));
            lemma_body_parted(style, false, x, s[e], s.subrange(e + 1, z));
        }
    }
}

/// Without its first piece a body lacks that piece's meaning alone.
proof fn lemma_body_step(style: PathStyle, s: Seq<char>, i: int, k: int)
    requires
        0 <= i <= s.len(),
        piece_end(style, false, s, i) < s.len(),
        piece_part(s, i, piece_end(style, false, s, i), false).len() <= k <= body_parts(style, false, false, s, i).len(),
    ensures
        body_meaning(style, false, s.skip(i)).skip(k) == body_meaning(
            style,
            false,
            s.skip(piece_end(style, false, s, i) + 1),
        ).skip(k - piece_part(s, i, piece_end(style, false, s, i), false).len()),
{
    let e = piece_end(style, false, s, i);
    let h = piece_part(s, i, e, false).len() as int;
    lemma_body_meaning(style, false, s, i);
    lemma_piece_holds_no_separator(style, s, i);
    let x = s.subrange(i, e);
    assert(s.skip(i) =~= x.push(s[e]) + s.skip(e + 1));
    lemma_body_parted(style, false, x, s[e], s.skip(e + 1));
    lemma_body_of_piece(style, false, x);
    if e > i {
        assert(x[0] == s[i]);
    }
    if e > i + 1 {
        assert(x[1] == s[i + 1]);
    }
    assert(piece_meaning(x, false).len() == h);
    assert(body_meaning(style, false, s.skip(i)).skip(k) =~= body_meaning(style, false, s.skip(e + 1)).skip(k - h));
}

/// Whether a `.` counts makes no difference where the first piece is none.
proof fn lemma_first_piece(style: PathStyle, s: Seq<char>, i: int, z: int)
    requires
        0 <= i <= s.len(),
        body_parts(style, false, false, s, i).len() > 0,
        z == body_parts(style, false, false, s, i).last().end,
        piece_part(s, i, piece_end(style, false, s, i), false).len() == 1,
    ensures
        body_meaning(style, true, s.subrange(i, z)) == body_meaning(style, false, s.subrange(i, z)),
{
    let ps = body_parts(style, false, false, s, i);
    let e = piece_end(style, false, s, i);
    lemma_piece_holds_no_separator(style, s, i);
    lemma_body_in_order(style, false, false, s, i);
    assert(ps[0] == piece_part(s, i, e, false)[0]);
    assert(e <= z <= s.len()) by {
        if ps.len() > 1 {
            assert(ps[0].end <= ps[ps.len() - 1].start);
        }
    }
    let rest = s.subrange(i, z);
    assert forall|j: int| 0 <= j < rest.len() implies rest[j] == s[i + j] by {}
    lemma_piece_ends_at(style, rest, 0, e - i);
    assert(rest[0] == s[i]);
    let x = rest.take(e - i);
    assert(x.len() == e - i && x[0] == s[i]);
    assert(piece_meaning(x, true) == piece_meaning(x, false));
    if e - i >= rest.len() {
        assert(x =~= rest);
    }
}

/// The text of a body from one of its parts on means what the parts from there
/// on mean, and starts with no separator.
proof fn lemma_body_tail(style: PathStyle, s: Seq<char>, i: int, k: int)
    requires
        0 <= i <= s.len(),
        0 <= k < body_parts(style, false, false, s, i).len(),
    ensures
        ({
            let ps = body_parts(style, false, false, s, i);
            let rest = s.subrange(ps[k].start, ps.last().end);
            &&& i <= ps[k].start < ps.last().end <= s.len()
            &&& !is_sep(style, s[ps[k].start])
            &&& body_meaning(style, false, rest) == body_meaning(style, false, s.skip(i)).skip(k)
            &&& body_meaning(style, true, rest) == body_meaning(style, false, rest)
        }),
    decreases s.len() - i,
{
    let ps = body_parts(style, false, false, s, i);
    lemma_piece_holds_no_separator(style, s, i);
    let e = piece_end(style, false, s, i);
    let head = piece_part(s, i, e, false);
    if head.len() == 1 && k == 0 {
        lemma_body_cut(style, s, i);
        assert(ps[0] == head[0]);
        lemma_first_piece(style, s, i, ps.last().end);
        assert(body_meaning(style, false, s.skip(i)).skip(0) =~= body_meaning(style, false, s.skip(i)));
    } else {
        let tail = body_parts(style, false, false, s, e + 1);
        assert(ps =~= head + tail);
        lemma_body_tail(style, s, e + 1, k - head.len());
        lemma_body_step(style, s, i, k);
        assert(ps[k] == tail[k - head.len()]);
        assert(ps.last() == tail.last());
    }
}

/// A rooted path that the next part is written behind, not into: one without a
/// prefix, with a drive, or with a share; a device path where it names a device.
/// A verbatim path is none: it reads the parts that it takes otherwise.
pub open spec fn is_rooted(style: PathStyle, s: Seq<char>) -> bool {
    let p = prefix_of(style, s);
    &&& has_root(style, s)
    &&& is_settled(style, s) || (p.kind == PrefixKind::Device && p.a0 < p.a1)
}

/// A name that starts like a drive: joined to a path it would stand for itself.
pub open spec fn like_drive(style: PathStyle, m: Meaning) -> bool {
    style == PathStyle::Windows && (m matches Meaning::Name(t) && t.len() >= 2 && is_letter(t[0]) && t[1] == ':')
}

proof fn lemma_stands_alone(style: PathStyle, rest: Seq<char>)
    requires
        rest.len() > 0,
        !is_sep(style, rest[0]),
        body_meaning(style, false, rest).len() > 0,
        !like_drive(style, body_meaning(style, false, rest)[0]),
    ensures
        !stands_alone(style, rest),
        !has_root(style, rest),
{
    let e = piece_end(style, false, rest, 0);
    lemma_piece_holds_no_separator(style, rest, 0);
    assert(prefix_of(style, rest).kind == PrefixKind::Absent) by {
        if style == PathStyle::Windows && rest.len() >= 2 && is_letter(rest[0]) && rest[1] == ':' {
            assert(!is_sep(style, rest[1]));
            lemma_piece_end_moved(style, rest, 0, 0);
            assert(piece_end(style, false, rest, 0) >= 2) by {
                reveal_with_fuel(piece_end, 3);
                lemma_piece_holds_no_separator(style, rest, 2);
            }
            let x = rest.take(e);
            assert(x[0] == rest[0] && x[1] == rest[1]);
            assert(piece_meaning(x, false) =~= seq![Meaning::Name(x)]);
            if e >= rest.len() {
                assert(x =~= rest);
            }
            assert(body_meaning(style, false, rest)[0] == Meaning::Name(x));
        }
    }
}

/// The meaning of prefix and root.
spec fn head_meaning(style: PathStyle, s: Seq<char>) -> Seq<Meaning> {
    head_parts(style, s).map_values(|p: Part| meaning(style, s, p))
}

proof fn lemma_components_by_body(style: PathStyle, s: Seq<char>)
    requires
        has_root(style, s),
        !is_verbatim(prefix_of(style, s).kind),
    ensures
        components(style, s) == head_meaning(style, s) + body_meaning(style, false, s.skip(body_start(style, s))),
        0 <= body_start(style, s) <= s.len(),
{
    lemma_prefix_bounds(style, s);
    lemma_body_meaning(style, false, s, body_start(style, s));
    let f = |p: Part| meaning(style, s, p);
    let (h, b) = (head_parts(style, s), body_parts(style, false, false, s, body_start(style, s)));
    assert((h + b).map_values(f) =~= h.map_values(f) + b.map_values(f));
}

/// A rooted path's prefix stays as it is when more is written behind it.
proof fn lemma_rooted_prefix(style: PathStyle, base: Seq<char>, rest: Seq<char>, s: Seq<char>, k: int)
    requires
        glued(style, base, rest, s, k),
        is_rooted(style, base),
        rest.len() > 0,
        !is_sep(style, rest[0]),
    ensures
        prefix_of(style, s) == prefix_of(style, base),
        prefix_meaning(s, prefix_of(style, s)) == prefix_meaning(base, prefix_of(style, base)),
        has_root(style, s),
{
    let p = prefix_of(style, base);
    lemma_prefix_bounds(style, base);
    assert forall|j: int| 0 <= j < base.len() implies s[j] == base[j] by {}
    assert(s[k] == rest[0]);
    if style == PathStyle::Windows {
        if p.kind == PrefixKind::Unc {
            assert(p == two_names(style, PrefixKind::Unc, false, base, 2));
            lemma_two_names(style, PrefixKind::Unc, false, base, 2);
            lemma_piece_holds_no_separator(style, base, 2);
            lemma_piece_holds_no_separator(style, base, p.b0);
            if p.b1 == base.len() {
                assert(!is_sep(style, base[base.len() - 1]));
                assert(s[base.len() as int] == main_sep(style));
            }
            lemma_piece_ends_at(style, s, 2, p.a1);
            lemma_piece_ends_at(style, s, p.b0, p.b1);
            assert(starts_verbatim(s) == starts_verbatim(base));
            assert(two_names(style, PrefixKind::Unc, false, s, 2) == p);
        } else if p.kind == PrefixKind::Device {
            lemma_piece_holds_no_separator(style, base, 4);
            if p.end == base.len() {
                assert(!is_sep(style, base[base.len() - 1]));
                assert(s[base.len() as int] == main_sep(style));
            }
            lemma_piece_ends_at(style, s, 4, p.a1);
            assert(starts_verbatim(s) == starts_verbatim(base));
        } else if p.kind == PrefixKind::Absent {
            assert(is_sep(style, base[0]));
            assert(s[1] == (if base.len() > 1 {
                base[1]
            } else {
                rest[0]
            }));
        }
    }
    assert(s.subrange(p.a0, p.a1) =~= base.subrange(p.a0, p.a1));
    assert(s.subrange(p.b0, p.b1) =~= base.subrange(p.b0, p.b1));
    if p.end < base.len() {
        assert(s[p.end] == base[p.end]);
    }
}

proof fn lemma_rooted_body(style: PathStyle, base: Seq<char>, rest: Seq<char>, s: Seq<char>, k: int)
    requires
        glued(style, base, rest, s, k),
        is_rooted(style, base),
        prefix_of(style, s) == prefix_of(style, base),
        rest.len() > 0,
        !is_sep(style, rest[0]),
    ensures
        body_meaning(style, false, s.skip(body_start(style, s))) == body_meaning(
            style,
            false,
            base.skip(body_start(style, base)),
        ) + body_meaning(style, false, rest),
        head_parts(style, s).len() == head_parts(style, base).len(),
{
    let p = prefix_of(style, base);
    lemma_prefix_bounds(style, base);
    let b = body_start(style, base);
    assert forall|j: int| 0 <= j < base.len() implies s[j] == base[j] by {}
    let (x, y) = (base.skip(b), s.skip(body_start(style, s)));
    if needs_sep(style, base) {
        assert(s[base.len() as int] == main_sep(style));
        if p.end == base.len() {
            assert(b == base.len());
            assert(x =~= Seq::empty());
            assert(y =~= rest);
            assert(body_meaning(style, false, x) =~= Seq::empty());
        } else {
            assert(s[p.end] == base[p.end]);
            assert(y =~= x.push(main_sep(style)) + rest);
            lemma_body_parted(style, false, x, main_sep(style), rest);
        }
    } else {
        assert(base.len() > 0);
        assert(is_sep(style, base.last()));
        assert(p.end < base.len()) by {
            lemma_rooted_end(style, base);
        }
        assert(s[p.end] == base[p.end]);
        if b == base.len() {
            assert(x =~= Seq::empty());
            assert(y =~= rest);
            assert(body_meaning(style, false, x) =~= Seq::empty());
        } else {
            let z = x.drop_last();
            assert(y =~= z.push(base.last()) + rest);
            assert(x =~= z.push(base.last()) + Seq::<char>::empty());
            lemma_body_parted(style, false, z, base.last(), rest);
            lemma_body_parted(style, false, z, base.last(), Seq::empty());
            assert(body_meaning(style, false, Seq::<char>::empty()) =~= Seq::empty());
            assert(body_meaning(style, false, x) =~= body_meaning(style, false, z));
        }
    }
}

/// A relative text joined to a rooted path: its parts come behind the path's.
proof fn lemma_rooted_join(style: PathStyle, base: Seq<char>, rest: Seq<char>)
    requires
        is_rooted(style, base),
        rest.len() > 0,
        !is_sep(style, rest[0]),
        !stands_alone(style, rest),
        !has_root(style, rest),
    ensures
        components(style, join_spec(style, base, rest)) == components(style, base) + body_meaning(style, false, rest),
        has_root(style, join_spec(style, base, rest)),
        !is_verbatim(prefix_of(style, join_spec(style, base, rest)).kind),
        head_parts(style, join_spec(style, base, rest)).len() == head_parts(style, base).len(),
{
    let s = join_spec(style, base, rest);
    let k: int = base.len() + (if needs_sep(style, base) {
        1int
    } else {
        0
    });
    let p = prefix_of(style, base);
    assert(!is_verbatim(p.kind));
    assert(glued(style, base, rest, s, k));
    lemma_rooted_prefix(style, base, rest, s, k);
    lemma_components_by_body(style, base);
    lemma_components_by_body(style, s);
    lemma_prefix_bounds(style, base);
    lemma_rooted_body(style, base, rest, s, k);
    assert(head_meaning(style, s) =~= head_meaning(style, base)) by {
        if p.end < base.len() {
            assert(s[p.end] == base[p.end]);
        }
    }
    assert(components(style, s) =~= components(style, base) + body_meaning(style, false, rest));
}

/// A rooted path that ends in a separator has it behind its prefix.
proof fn lemma_rooted_end(style: PathStyle, base: Seq<char>)
    requires
        is_rooted(style, base),
        base.len() > 0,
        is_sep(style, base.last()),
    ensures
        prefix_of(style, base).end < base.len(),
{
    let p = prefix_of(style, base);
    lemma_prefix_bounds(style, base);
    if p.kind == PrefixKind::Unc {
        assert(p == two_names(style, PrefixKind::Unc, false, base, 2));
        lemma_two_names(style, PrefixKind::Unc, false, base, 2);
        lemma_piece_holds_no_separator(style, base, p.b0);
        if p.end == base.len() {
            assert(!is_sep(style, base[base.len() - 1]));
        }
    } else if p.kind == PrefixKind::Device {
        lemma_piece_holds_no_separator(style, base, 4);
        if p.end == base.len() {
            assert(!is_sep(style, base[base.len() - 1]));
        }
    }
}

/// What is left of a path behind a rooted one that it is under: its text means
/// what the parts behind mean, and does not stand alone unless it starts like a
/// drive.
proof fn lemma_rest_of_rooted(style: PathStyle, path: Seq<char>, base: Seq<char>)
    requires
        is_rooted(style, base),
        under(style, path, base),
        components(style, base).len() < components(style, path).len(),
        !like_drive(style, components(style, path)[components(style, base).len() as int]),
    ensures
        ({
            let rest = tail_text(style, path, parts(style, base).len() as int);
            &&& rest.len() > 0
            &&& !is_sep(style, rest[0])
            &&& !stands_alone(style, rest)
            &&& !has_root(style, rest)
            &&& body_meaning(style, false, rest) == components(style, path).skip(components(style, base).len() as int)
            &&& body_meaning(style, true, rest) == body_meaning(style, false, rest)
        }),
{
    let n = parts(style, base).len() as int;
    let (a, c) = (components(style, base), components(style, path));
    lemma_prefix_bounds(style, base);
    lemma_prefix_bounds(style, path);
    let (hb, hp) = (head_parts(style, base), head_parts(style, path));
    assert(c.subrange(0, a.len() as int) == a);
    assert forall|i: int| 0 <= i < a.len() implies #[trigger] c[i] == a[i] by {
        assert(c.subrange(0, a.len() as int)[i] == c[i]);
    }
    lemma_same_head(style, path, base);
    let i0 = body_start(style, path);
    let ps = body_parts(style, false, false, path, i0);
    assert(parts(style, path) =~= hp + ps);
    lemma_components_by_body(style, path);
    let k = n - hp.len();
    assert(hb.len() <= n);
    assert(parts(style, path)[n] == ps[k]);
    assert(parts(style, path).last() == ps.last());
    lemma_body_tail(style, path, i0, k);
    let rest = tail_text(style, path, n);
    assert(head_meaning(style, path).len() == hp.len());
    assert(body_meaning(style, false, path.skip(i0)).skip(k) =~= c.skip(n));
    assert(c.skip(n)[0] == c[n]);
    lemma_stands_alone(style, rest);
}

/// A path under a rooted one has a head of the same kind.
proof fn lemma_same_head(style: PathStyle, path: Seq<char>, base: Seq<char>)
    requires
        has_root(style, base),
        components(style, base).len() < components(style, path).len(),
        forall|i: int|
            0 <= i < components(style, base).len() ==> #[trigger] components(style, path)[i] == components(style, base)[i],
    ensures
        has_root(style, path),
        prefix_of(style, path).kind == prefix_of(style, base).kind,
        head_parts(style, path).len() == head_parts(style, base).len(),
{
    let (a, c) = (components(style, base), components(style, path));
    let (hb, hp) = (head_parts(style, base), head_parts(style, path));
    lemma_prefix_bounds(style, base);
    lemma_prefix_bounds(style, path);
    let verbatim = is_verbatim(prefix_of(style, path).kind);
    let dot = verbatim || !has_root(style, path);
    lemma_body_in_order(style, verbatim, dot, path, body_start(style, path));
    let pb = body_parts(style, verbatim, dot, path, body_start(style, path));
    assert(parts(style, path) == hp + pb);
    assert forall|i: int| hp.len() <= i < c.len() implies !(#[trigger] c[i] is Prefix) && !(c[i] is Root) by {
        assert(parts(style, path)[i] == pb[i - hp.len()]);
    }
    assert(parts(style, base)[0] == hb[0]);
    assert(c[0] == a[0]);
    if prefix_of(style, base).kind == PrefixKind::Absent {
        assert(a[0] == Meaning::Root);
        assert(hp.len() > 0);
        assert(parts(style, path)[0] == hp[0]);
    } else {
        assert(a[0] is Prefix);
        assert(hb.len() == 2);
        assert(parts(style, base)[1] == hb[1]);
        assert(a[1] == Meaning::Root);
        assert(c[1] == a[1]);
        assert(parts(style, path)[0] == hp[0]);
        assert(hp.len() == 2);
        assert(prefix_meaning(path, prefix_of(style, path)) == prefix_meaning(base, prefix_of(style, base)));
    }
}

/// The text of a body up to the end of one of its parts means what the parts up
/// to there mean.
proof fn lemma_body_front(style: PathStyle, s: Seq<char>, i: int, k: int)
    requires
        0 <= i <= s.len(),
        0 <= k < body_parts(style, false, false, s, i).len(),
    ensures
        i < body_parts(style, false, false, s, i)[k].end <= s.len(),
        body_meaning(style, false, s.subrange(i, body_parts(style, false, false, s, i)[k].end)) == body_meaning(
            style,
            false,
            s.skip(i),
        ).take(k + 1),
    decreases s.len() - i,
{
    let ps = body_parts(style, false, false, s, i);
    lemma_piece_holds_no_separator(style, s, i);
    let e = piece_end(style, false, s, i);
    let head = piece_part(s, i, e, false);
    let x = s.subrange(i, e);
    let z = ps[k].end;
    lemma_body_of_piece(style, false, x);
    if e > i {
        assert(x[0] == s[i]);
    }
    if e > i + 1 {
        assert(x[1] == s[i + 1]);
    }
    assert(piece_meaning(x, false).len() == head.len());
    if e >= s.len() {
        assert(k == 0 && z == e);
        assert(s.skip(i) =~= x);
        assert(piece_meaning(x, false).take(1) =~= piece_meaning(x, false));
    } else {
        let tail = body_parts(style, false, false, s, e + 1);
        assert(ps =~= head + tail);
        assert(s.skip(i) =~= x.push(s[e]) + s.skip(e + 1));
        lemma_body_parted(style, false, x, s[e], s.skip(e + 1));
        let rest = body_meaning(style, false, s.skip(e + 1));
        if k < head.len() {
            assert(z == e);
            assert((piece_meaning(x, false) + rest).take(1) =~= piece_meaning(x, false));
        } else {
            let h = head.len() as int;
            lemma_body_front(style, s, e + 1, k - h);
            assert(ps[k] == tail[k - h]);
            assert(s.subrange(i, z) =~= x.push(s[e]) + s.subrange(e + 1, z));
            lemma_body_parted(style, false, x, s[e], s.subrange(e + 1, z));
            lemma_body_meaning(style, false, s, e + 1);
            assert((piece_meaning(x, false) + rest).take(k + 1) =~= piece_meaning(x, false) + rest.take(k + 1 - h));
        }
    }
}

/// A rooted path's prefix stays as it is when the text is cut behind its root.
proof fn lemma_prefix_cut(style: PathStyle, s: Seq<char>, z: int)
    requires
        is_rooted(style, s),
        prefix_of(style, s).end < z <= s.len(),
        is_sep(style, s[prefix_of(style, s).end]),
    ensures
        prefix_of(style, s.take(z)) == prefix_of(style, s),
        prefix_meaning(s.take(z), prefix_of(style, s)) == prefix_meaning(s, prefix_of(style, s)),
        is_rooted(style, s.take(z)),
{
    let p = prefix_of(style, s);
    let t = s.take(z);
    lemma_prefix_bounds(style, s);
    assert forall|j: int| 0 <= j < z implies t[j] == s[j] by {}
    if style == PathStyle::Windows {
        if p.kind == PrefixKind::Unc {
            assert(p == two_names(style, PrefixKind::Unc, false, s, 2));
            lemma_two_names(style, PrefixKind::Unc, false, s, 2);
            lemma_piece_holds_no_separator(style, s, 2);
            lemma_piece_holds_no_separator(style, s, p.b0);
            lemma_piece_ends_at(style, t, 2, p.a1);
            lemma_piece_ends_at(style, t, p.b0, p.b1);
            assert(starts_verbatim(t) == starts_verbatim(s));
            assert(two_names(style, PrefixKind::Unc, false, t, 2) == p);
        } else if p.kind == PrefixKind::Device {
            lemma_piece_holds_no_separator(style, s, 4);
            lemma_piece_ends_at(style, t, 4, p.a1);
            assert(starts_verbatim(t) == starts_verbatim(s));
        } else if p.kind == PrefixKind::Absent {
            assert(is_sep(style, s[0]));
        }
    }
    assert(t.subrange(p.a0, p.a1) =~= s.subrange(p.a0, p.a1));
    assert(t.subrange(p.b0, p.b1) =~= s.subrange(p.b0, p.b1));
    assert(t[p.end] == s[p.end]);
}

/// A rooted path with something behind its root has the root written.
proof fn lemma_root_is_written(style: PathStyle, s: Seq<char>)
    requires
        is_rooted(style, s),
        body_parts(style, false, false, s, body_start(style, s)).len() > 0,
    ensures
        has_written_root(style, s),
{
    let p = prefix_of(style, s);
    lemma_prefix_bounds(style, s);
    if p.kind == PrefixKind::Unc {
        assert(p == two_names(style, PrefixKind::Unc, false, s, 2));
        lemma_two_names(style, PrefixKind::Unc, false, s, 2);
        lemma_piece_holds_no_separator(style, s, p.b0);
    } else if p.kind == PrefixKind::Device {
        lemma_piece_holds_no_separator(style, s, 4);
    }
}

/// The parent of a rooted path that ends in a name has the parts of the path but
/// the last, and is rooted too.
proof fn lemma_parent_of_rooted(style: PathStyle, s: Seq<char>)
    requires
        is_rooted(style, s),
        file_name_spec(style, s) is Some,
    ensures
        parent_spec(style, s) is Some,
        is_rooted(style, parent_spec(style, s)->Some_0),
        components(style, parent_spec(style, s)->Some_0) == components(style, s).drop_last(),
{
    let ps = parts(style, s);
    let hs = head_parts(style, s);
    let i = body_start(style, s);
    let bs = body_parts(style, false, false, s, i);
    let p = prefix_of(style, s);
    assert(!is_verbatim(p.kind));
    assert(ps =~= hs + bs);
    lemma_prefix_bounds(style, s);
    lemma_components_by_body(style, s);
    assert(hs.len() > 0 && hs.last().kind == PartKind::Root);
    assert(bs.len() > 0);
    lemma_root_is_written(style, s);
    let z = ps[ps.len() - 2].end;
    let d = s.subrange(0, z);
    if bs.len() == 1 {
        assert(ps[ps.len() - 2] == hs.last());
        assert(z == i);
    } else {
        assert(ps[ps.len() - 2] == bs[bs.len() - 2]);
        lemma_body_front(style, s, i, bs.len() - 2);
    }
    assert(d =~= s.take(z));
    lemma_prefix_cut(style, s, z);
    lemma_components_by_body(style, d);
    assert(d[p.end] == s[p.end]);
    assert(body_start(style, d) == i);
    assert(head_meaning(style, d) =~= head_meaning(style, s));
    lemma_body_meaning(style, false, s, i);
    let whole = body_meaning(style, false, s.skip(i));
    assert(whole.len() == bs.len());
    if bs.len() == 1 {
        assert(d.skip(i) =~= Seq::empty());
        assert(body_meaning(style, false, d.skip(i)) =~= whole.drop_last());
    } else {
        assert(d.skip(i) =~= s.subrange(i, z));
        assert(whole.take(bs.len() - 1) =~= whole.drop_last());
    }
    assert(components(style, d) =~= components(style, s).drop_last());
}

/// The name of a rooted path, joined to the path's parent, leads where the path
/// does; a name that looks like a drive stands alone and leads elsewhere.
pub proof fn law_name_in_its_parent(style: PathStyle, s: Seq<char>)
    requires
        is_rooted(style, s),
        file_name_spec(style, s) is Some,
        !like_drive(style, components(style, s).last()),
    ensures
        parent_spec(style, s) is Some,
        components(style, join_spec(style, parent_spec(style, s)->Some_0, file_name_spec(style, s)->Some_0)) == components(
            style,
            s,
        ),
{
    let d = parent_spec(style, s)->Some_0;
    let name = file_name_spec(style, s)->Some_0;
    lemma_parent_of_rooted(style, s);
    lemma_components_by_body(style, s);
    let ps = parts(style, s);
    let hs = head_parts(style, s);
    let i = body_start(style, s);
    let bs = body_parts(style, false, false, s, i);
    assert(ps =~= hs + bs);
    assert(hs.len() > 0 && hs.last().kind == PartKind::Root);
    assert(bs.len() > 0);
    assert(ps.last() == bs.last());
    lemma_body_tail(style, s, i, bs.len() - 1);
    lemma_body_meaning(style, false, s, i);
    let whole = body_meaning(style, false, s.skip(i));
    assert(whole.len() == bs.len());
    assert(whole.skip(bs.len() - 1) =~= seq![whole.last()]);
    assert(components(style, s).last() == whole.last());
    assert(name == s.subrange(bs.last().start, bs.last().end));
    assert(name[0] == s[bs.last().start]);
    lemma_stands_alone(style, name);
    lemma_rooted_join(style, d, name);
    assert(components(style, s) =~= components(style, s).drop_last() + seq![components(style, s).last()]);
}

/// A verbatim path whose prefix does not change when a name is written behind
/// it: one with a drive or a share, or a name that is not the start of a share.
pub open spec fn is_settled_verbatim(style: PathStyle, s: Seq<char>) -> bool {
    let p = prefix_of(style, s);
    ||| p.kind == PrefixKind::VerbatimDisk
    ||| p.kind == PrefixKind::VerbatimUnc && p.b0 < p.b1
    ||| p.kind == PrefixKind::Verbatim && !(s.len() == 7 && s[4] == 'U' && s[5] == 'N' && s[6] == 'C')
}

/// A name that every path reads alike: a verbatim one keeps slashes in its names.
pub open spec fn is_common_name(m: Meaning) -> bool {
    m matches Meaning::Name(t) && !t.contains('/')
}

/// What the pieces of a verbatim body mean: nothing is left out but empty ones.
spec fn piece_means(piece: Seq<char>) -> Meaning {
    piece_meaning(piece, true)[0]
}

proof fn lemma_verbatim_piece_end(style: PathStyle, s: Seq<char>, i: int)
    requires
        0 <= i <= s.len(),
    ensures
        piece_end(style, true, s, i) == text::first_at(s, '\\', i),
    decreases s.len() - i,
{
    if i < s.len() && s[i] != '\\' {
        lemma_verbatim_piece_end(style, s, i + 1);
    }
}

/// A verbatim body by its pieces.
proof fn lemma_verbatim_body(style: PathStyle, s: Seq<char>, i: int)
    requires
        0 <= i <= s.len(),
    ensures
        body_parts(style, true, true, s, i).map_values(|p: Part| meaning(style, s, p)) == text::pieces_from(
            s,
            '\\',
            i,
        ).map_values(|x: Seq<char>| piece_means(x)),
        body_parts(style, true, true, s, i).map_values(|p: Part| s.subrange(p.start, p.end)) == text::pieces_from(
            s,
            '\\',
            i,
        ),
    decreases s.len() - i,
{
    let f = |p: Part| meaning(style, s, p);
    let g = |x: Seq<char>| piece_means(x);
    let t = |p: Part| s.subrange(p.start, p.end);
    let e = piece_end(style, true, s, i);
    lemma_verbatim_piece_end(style, s, i);
    lemma_piece_end(style, true, s, i);
    let all = body_parts(style, true, true, s, i);
    let ps = text::pieces_from(s, '\\', i);
    if i < s.len() {
        let head = piece_part(s, i, e, true);
        let x = s.subrange(i, e);
        let first = if i < e {
            seq![x]
        } else {
            Seq::<Seq<char>>::empty()
        };
        if i < e {
            assert(x[0] == s[i]);
            if e > i + 1 {
                assert(x[1] == s[i + 1]);
            }
        }
        assert(head.map_values(f) =~= first.map_values(g));
        assert(head.map_values(t) =~= first);
        if e < s.len() {
            lemma_verbatim_body(style, s, e + 1);
            let tail = body_parts(style, true, true, s, e + 1);
            let rest = text::pieces_from(s, '\\', e + 1);
            assert((head + tail).map_values(f) =~= head.map_values(f) + tail.map_values(f));
            assert((head + tail).map_values(t) =~= head.map_values(t) + tail.map_values(t));
            assert((first + rest).map_values(g) =~= first.map_values(g) + rest.map_values(g));
        } else {
            assert(first + Seq::<Seq<char>>::empty() =~= first);
        }
    } else {
        assert(all.map_values(f) =~= ps.map_values(g));
        assert(all.map_values(t) =~= ps);
    }
}

/// From one of its parts on, a verbatim body is the body that starts there.
proof fn lemma_verbatim_from(style: PathStyle, s: Seq<char>, i: int, k: int)
    requires
        0 <= i <= s.len(),
        0 <= k < body_parts(style, true, true, s, i).len(),
    ensures
        ({
            let ps = body_parts(style, true, true, s, i);
            i <= ps[k].start <= s.len() && body_parts(style, true, true, s, ps[k].start) == ps.skip(k)
        }),
    decreases s.len() - i,
{
    let ps = body_parts(style, true, true, s, i);
    let e = piece_end(style, true, s, i);
    lemma_piece_end(style, true, s, i);
    let head = piece_part(s, i, e, true);
    if head.len() == 1 && k == 0 {
        assert(ps[0] == head[0]);
        assert(ps.skip(0) =~= ps);
    } else {
        let tail = body_parts(style, true, true, s, e + 1);
        assert(ps =~= head + tail);
        lemma_verbatim_from(style, s, e + 1, k - head.len());
        assert(ps[k] == tail[k - head.len()]);
        assert(ps.skip(k) =~= tail.skip(k - head.len()));
    }
}

/// A verbatim body of common names is read alike as an ordinary one.
proof fn lemma_common_body(style: PathStyle, s: Seq<char>, i: int)
    requires
        0 <= i <= s.len(),
        style == PathStyle::Windows,
        forall|k: int|
            0 <= k < body_parts(style, true, true, s, i).len() ==> is_common_name(
                meaning(style, s, #[trigger] body_parts(style, true, true, s, i)[k]),
            ),
    ensures
        body_parts(style, false, false, s, i) == body_parts(style, true, true, s, i),
    decreases s.len() - i,
{
    let ps = body_parts(style, true, true, s, i);
    let e = piece_end(style, true, s, i);
    lemma_piece_end(style, true, s, i);
    lemma_verbatim_piece_end(style, s, i);
    text::lemma_first_at(s, '\\', i);
    if i < s.len() {
        let head = piece_part(s, i, e, true);
        if e > i {
            assert(ps[0] == head[0]);
            assert(is_common_name(meaning(style, s, ps[0])));
            let x = s.subrange(i, e);
            assert(meaning(style, s, ps[0]) == Meaning::Name(x));
            assert forall|j: int| i <= j < e implies !is_sep(style, #[trigger] s[j]) by {
                assert(x[j - i] == s[j]);
                assert(x.contains(x[j - i]));
            }
        }
        lemma_piece_ends_at(style, s, i, e);
        assert(piece_part(s, i, e, false) == head);
        if e < s.len() {
            let tail = body_parts(style, true, true, s, e + 1);
            assert forall|k: int| 0 <= k < tail.len() implies is_common_name(meaning(style, s, #[trigger] tail[k])) by {
                assert(ps[k + head.len()] == tail[k]);
            }
            lemma_common_body(style, s, e + 1);
        }
    }
}

/// What is left of a verbatim path behind one that it is under, where that is
/// common names alone.
proof fn lemma_rest_of_verbatim(style: PathStyle, path: Seq<char>, base: Seq<char>)
    requires
        is_verbatim(prefix_of(style, base).kind),
        under(style, path, base),
        components(style, base).len() < components(style, path).len(),
        !like_drive(style, components(style, path)[components(style, base).len() as int]),
        forall|k: int|
            components(style, base).len() <= k < components(style, path).len() ==> is_common_name(
                #[trigger] components(style, path)[k],
            ),
    ensures
        ({
            let rest = tail_text(style, path, parts(style, base).len() as int);
            &&& rest.len() > 0
            &&& !is_sep(style, rest[0])
            &&& !stands_alone(style, rest)
            &&& !has_root(style, rest)
            &&& body_meaning(style, false, rest) == components(style, path).skip(components(style, base).len() as int)
            &&& body_meaning(style, true, rest) == body_meaning(style, false, rest)
        }),
{
    let n = parts(style, base).len() as int;
    let (a, c) = (components(style, base), components(style, path));
    lemma_prefix_bounds(style, base);
    lemma_prefix_bounds(style, path);
    let (hb, hp) = (head_parts(style, base), head_parts(style, path));
    assert forall|i: int| 0 <= i < a.len() implies #[trigger] c[i] == a[i] by {
        assert(c.subrange(0, a.len() as int)[i] == c[i]);
    }
    lemma_same_head(style, path, base);
    let i0 = body_start(style, path);
    let ps = body_parts(style, true, true, path, i0);
    assert(parts(style, path) =~= hp + ps);
    let k = n - hp.len();
    assert(parts(style, path)[n] == ps[k]);
    assert(parts(style, path).last() == ps.last());
    lemma_verbatim_from(style, path, i0, k);
    let j = ps[k].start;
    let qs = body_parts(style, true, true, path, j);
    let f = |p: Part| meaning(style, path, p);
    assert forall|m: int| 0 <= m < qs.len() implies is_common_name(meaning(style, path, #[trigger] qs[m])) by {
        assert(qs[m] == ps[k + m]);
        assert(parts(style, path)[n + m] == ps[k + m]);
        assert(is_common_name(c[n + m]));
    }
    lemma_common_body(style, path, j);
    lemma_body_tail(style, path, j, 0);
    lemma_body_meaning(style, false, path, j);
    let rest = tail_text(style, path, n);
    assert(qs[0] == ps[k] && qs.last() == ps.last());
    assert(c.skip(n) =~= qs.map_values(f)) by {
        assert forall|m: int| 0 <= m < qs.len() implies c.skip(n)[m] == qs.map_values(f)[m] by {
            assert(parts(style, path)[n + m] == qs[m]);
        }
    }
    assert(body_meaning(style, false, path.skip(j)).skip(0) =~= body_meaning(style, false, path.skip(j)));
    assert(c.skip(n)[0] == c[n]);
    lemma_stands_alone(style, rest);
}

/// The names in a body's meaning are pieces.
proof fn lemma_names_are_pieces(style: PathStyle, dot: bool, s: Seq<char>)
    requires
        style == PathStyle::Windows,
    ensures
        forall|k: int|
            0 <= k < body_meaning(style, dot, s).len() ==> ((#[trigger] body_meaning(style, dot, s)[k]) matches Meaning::Name(
                t,
            ) ==> text::is_piece(t, '\\') && piece_means(t) == Meaning::Name(t)),
    decreases s.len(),
{
    let e = piece_end(style, false, s, 0);
    let all = body_meaning(style, dot, s);
    lemma_piece_holds_no_separator(style, s, 0);
    if s.len() > 0 {
        let x = s.take(e);
        let head = piece_meaning(x, dot);
        assert(!x.contains('\\')) by {
            assert forall|j: int| 0 <= j < x.len() implies x[j] != '\\' by {
                assert(!is_sep(style, s[j]));
            }
        }
        if e < s.len() {
            lemma_names_are_pieces(style, false, s.skip(e + 1));
            let tail = body_meaning(style, false, s.skip(e + 1));
            assert forall|k: int| 0 <= k < all.len() implies ((#[trigger] all[k]) matches Meaning::Name(t) ==> text::is_piece(
                t,
                '\\',
            ) && piece_means(t) == Meaning::Name(t)) by {
                if k >= head.len() {
                    assert(all[k] == tail[k - head.len()]);
                }
            }
        } else {
            assert(x =~= s);
        }
    }
}

/// The texts of items.
spec fn item_texts(v: Seq<Item>) -> Seq<Seq<char>> {
    v.map_values(|it: Item| it.text)
}

/// A prefix, a root and further items written out.
proof fn lemma_written(p: Item, l: Seq<Item>)
    requires
        p.kind == PartKind::Prefix,
        forall|k: int| 0 <= k < l.len() ==> (#[trigger] l[k]).kind != PartKind::Root,
    ensures
        written(seq![p, Item { kind: PartKind::Root, text: seq!['\\'] }] + l) == p.text.push('\\') + text::join(
            item_texts(l),
            seq!['\\'],
        ),
    decreases l.len(),
{
    let r = Item { kind: PartKind::Root, text: seq!['\\'] };
    let items = seq![p, r] + l;
    let want = p.text.push('\\') + text::join(item_texts(l), seq!['\\']);
    let before = items.drop_last();
    if l.len() == 0 {
        assert(before =~= seq![p]);
        assert(seq![p].drop_last() =~= Seq::empty());
        assert(written(seq![p]) =~= p.text) by {
            assert(written(Seq::<Item>::empty()) =~= Seq::empty());
        }
        assert(item_texts(l) =~= Seq::empty());
        assert(items.last() == r);
        assert(written(items) =~= want);
    } else {
        let less = l.drop_last();
        assert forall|k: int| 0 <= k < less.len() implies (#[trigger] less[k]).kind != PartKind::Root by {
            assert(less[k] == l[k]);
        }
        lemma_written(p, less);
        assert(before =~= seq![p, r] + less);
        assert(items.last() == l.last());
        assert(l[l.len() - 1].kind != PartKind::Root);
        let ts = item_texts(l);
        assert(ts.drop_last() =~= item_texts(less));
        assert(ts.last() == l.last().text);
        if less.len() == 0 {
            assert(before.last() == r);
            assert(item_texts(less) =~= Seq::empty());
        } else {
            assert(before.last() == less.last());
            assert(less.last() == l[l.len() - 2]);
        }
        assert(written(items) =~= want);
    }
}

proof fn lemma_names_absorbed(items: Seq<Item>, names: Seq<Item>)
    requires
        forall|k: int| 0 <= k < names.len() ==> (#[trigger] names[k]).kind == PartKind::Name,
    ensures
        absorb_all(items, names) == items + names,
    decreases names.len(),
{
    if names.len() > 0 {
        let less = names.drop_last();
        assert forall|k: int| 0 <= k < less.len() implies (#[trigger] less[k]).kind == PartKind::Name by {
            assert(less[k] == names[k]);
        }
        lemma_names_absorbed(items, less);
        assert(names[names.len() - 1].kind == PartKind::Name);
        assert(items + names =~= (items + less).push(names.last()));
    } else {
        assert(items + names =~= items);
    }
}

/// The prefix of a settled verbatim path stays as it is before a backslash.
proof fn lemma_verbatim_prefix(style: PathStyle, base: Seq<char>, s: Seq<char>)
    requires
        is_settled_verbatim(style, base),
        prefix_of(style, base).end < s.len(),
        forall|i: int| 0 <= i < prefix_of(style, base).end ==> s[i] == base[i],
        s[prefix_of(style, base).end] == '\\',
    ensures
        4 <= prefix_of(style, base).end <= base.len(),
        prefix_of(style, s) == prefix_of(style, base),
        prefix_meaning(s, prefix_of(style, base)) == prefix_meaning(base, prefix_of(style, base)),
{
    let p = prefix_of(style, base);
    lemma_prefix_bounds(style, base);
    lemma_piece_end(style, true, base, 4);
    if p.kind == PrefixKind::VerbatimUnc {
        lemma_share_prefix(style, base, s);
    } else if p.kind == PrefixKind::Verbatim {
        lemma_verbatim_piece_same(style, base, s, 4, p.end);
        lemma_verbatim_piece_end(style, base, 4);
        text::lemma_first_at(base, '\\', 4);
        assert(p == one_name(PrefixKind::Verbatim, 4, p.end));
        if p.end < base.len() {
            assert(base[p.end] == '\\');
        }
        assert(starts_verbatim(s));
        assert(!(s.len() >= 8 && s[4] == 'U' && s[5] == 'N' && s[6] == 'C' && is_sep(style, s[7]))) by {
            if p.end > 7 {
                assert(s[7] == base[7]);
            }
        }
        assert(!(s.len() >= 6 && is_letter(s[4]) && s[5] == ':' && (s.len() == 6 || is_sep(style, s[6])))) by {
            if p.end > 6 {
                assert(s[6] == base[6]);
            }
        }
        assert(prefix_of(style, s) == p);
    } else {
        assert(starts_verbatim(s));
        assert(prefix_of(style, s) == p);
    }
    assert(p.a1 <= p.end && p.b1 <= p.end) by {
        if p.kind == PrefixKind::VerbatimUnc {
            lemma_two_names(style, PrefixKind::VerbatimUnc, true, base, 8);
        }
    }
    assert(s.subrange(p.a0, p.a1) =~= base.subrange(p.a0, p.a1));
    assert(s.subrange(p.b0, p.b1) =~= base.subrange(p.b0, p.b1));
}

proof fn lemma_share_prefix(style: PathStyle, base: Seq<char>, s: Seq<char>)
    requires
        prefix_of(style, base).kind == PrefixKind::VerbatimUnc,
        prefix_of(style, base).b0 < prefix_of(style, base).b1,
        prefix_of(style, base).end < s.len(),
        forall|i: int| 0 <= i < prefix_of(style, base).end ==> s[i] == base[i],
        s[prefix_of(style, base).end] == '\\',
    ensures
        8 <= prefix_of(style, base).end,
        prefix_of(style, base).a1 <= prefix_of(style, base).end,
        prefix_of(style, base).b1 == prefix_of(style, base).end,
        prefix_of(style, s) == prefix_of(style, base),
{
    let p = prefix_of(style, base);
    let e1 = piece_end(style, true, base, 8);
    assert(base.len() >= 8);
    lemma_two_names(style, PrefixKind::VerbatimUnc, true, base, 8);
    assert(p == two_names(style, PrefixKind::VerbatimUnc, true, base, 8));
    lemma_piece_end(style, true, base, 8);
    lemma_verbatim_piece_end(style, base, 8);
    text::lemma_first_at(base, '\\', 8);
    assert(e1 < base.len());
    assert(base[e1] == '\\');
    assert(p.b0 == e1 + 1);
    lemma_verbatim_piece_same(style, base, s, 8, e1);
    lemma_verbatim_piece_same(style, base, s, p.b0, p.b1);
    assert(two_names(style, PrefixKind::VerbatimUnc, true, s, 8) == p);
    assert(starts_verbatim(s));
}

/// A piece ends alike in two texts that agree as far as it goes and a backslash
/// behind it.
proof fn lemma_verbatim_piece_same(style: PathStyle, base: Seq<char>, s: Seq<char>, i: int, e: int)
    requires
        0 <= i <= e <= base.len(),
        e == piece_end(style, true, base, i),
        e < s.len(),
        forall|k: int| 0 <= k < e ==> s[k] == base[k],
        s[e] == '\\',
    ensures
        piece_end(style, true, s, i) == e,
    decreases e - i,
{
    if i < e {
        assert(s[i] == base[i]);
        assert(base[i] != '\\');
        lemma_verbatim_piece_same(style, base, s, i + 1, e);
    }
}

/// The items of a verbatim path behind its root.
spec fn own_items(style: PathStyle, base: Seq<char>) -> Seq<Item> {
    body_parts(style, true, true, base, body_start(style, base)).map_values(|q: Part| item_of(base, q))
}

/// Common names joined to a verbatim path, as a text.
proof fn lemma_verbatim_join_text(style: PathStyle, base: Seq<char>, rest: Seq<char>)
    requires
        is_settled_verbatim(style, base),
        rest.len() > 0,
        !stands_alone(style, rest),
        !has_root(style, rest),
        body_meaning(style, true, rest) == body_meaning(style, false, rest),
        forall|k: int|
            0 <= k < body_meaning(style, false, rest).len() ==> is_common_name(
                #[trigger] body_meaning(style, false, rest)[k],
            ),
    ensures
        join_spec(style, base, rest) == base.subrange(0, prefix_of(style, base).end).push('\\') + text::join(
            item_texts(own_items(style, base) + items_of(style, rest)),
            seq!['\\'],
        ),
{
    let p = prefix_of(style, base);
    let b = body_start(style, base);
    lemma_prefix_bounds(style, base);
    let names = items_of(style, rest);
    lemma_rest_items(style, rest);
    let head = Item { kind: PartKind::Prefix, text: base.subrange(0, p.end) };
    let root = Item { kind: PartKind::Root, text: seq!['\\'] };
    let ps = body_parts(style, true, true, base, b);
    let own = own_items(style, base);
    lemma_body_in_order(style, true, true, base, b);
    assert(items_of(style, base) =~= seq![head, root] + own);
    lemma_names_absorbed(items_of(style, base), names);
    let l = own + names;
    assert forall|k: int| 0 <= k < l.len() implies (#[trigger] l[k]).kind != PartKind::Root by {
        if k < own.len() {
            assert(l[k] == item_of(base, ps[k]));
        } else {
            assert(l[k] == names[k - own.len()]);
        }
    }
    lemma_written(head, l);
    assert(seq![head, root] + own + names =~= seq![head, root] + l);
}

/// The parts of a verbatim path by the pieces behind its root.
proof fn lemma_verbatim_components(style: PathStyle, s: Seq<char>)
    requires
        is_verbatim(prefix_of(style, s).kind),
    ensures
        components(style, s) == seq![prefix_meaning(s, prefix_of(style, s)), Meaning::Root] + text::pieces_from(
            s,
            '\\',
            body_start(style, s),
        ).map_values(|x: Seq<char>| piece_means(x)),
{
    let b = body_start(style, s);
    lemma_prefix_bounds(style, s);
    lemma_verbatim_body(style, s, b);
    let f = |q: Part| meaning(style, s, q);
    let (h, ps) = (head_parts(style, s), body_parts(style, true, true, s, b));
    assert((h + ps).map_values(f) =~= h.map_values(f) + ps.map_values(f));
    assert(h.map_values(f) =~= seq![prefix_meaning(s, prefix_of(style, s)), Meaning::Root]);
}

/// Common names joined to a verbatim path come behind its parts.
proof fn lemma_verbatim_join(style: PathStyle, base: Seq<char>, rest: Seq<char>)
    requires
        is_settled_verbatim(style, base),
        rest.len() > 0,
        !stands_alone(style, rest),
        !has_root(style, rest),
        body_meaning(style, true, rest) == body_meaning(style, false, rest),
        forall|k: int|
            0 <= k < body_meaning(style, false, rest).len() ==> is_common_name(
                #[trigger] body_meaning(style, false, rest)[k],
            ),
    ensures
        components(style, join_spec(style, base, rest)) == components(style, base) + body_meaning(style, false, rest),
{
    let s = join_spec(style, base, rest);
    let p = prefix_of(style, base);
    let m = body_meaning(style, false, rest);
    let names = items_of(style, rest);
    let own = own_items(style, base);
    let ts = item_texts(own + names);
    let j = text::join(ts, seq!['\\']);
    lemma_prefix_bounds(style, base);
    lemma_verbatim_join_text(style, base, rest);
    lemma_verbatim_texts(style, base, rest);
    lemma_rest_items(style, rest);
    assert(s.len() == p.end + 1 + j.len());
    assert forall|i: int| 0 <= i < p.end implies s[i] == base[i] by {}
    assert(s[p.end] == '\\');
    lemma_verbatim_prefix(style, base, s);
    text::lemma_pieces_of_joined(ts, '\\');
    text::lemma_pieces_moved(s, '\\', p.end + 1, p.end + 1);
    assert(s.skip(p.end + 1) =~= j);
    assert(body_start(style, s) == p.end + 1);
    lemma_verbatim_components(style, s);
    lemma_verbatim_components(style, base);
    let g = |x: Seq<char>| piece_means(x);
    let own_texts = text::pieces_from(base, '\\', body_start(style, base));
    assert(ts =~= own_texts + item_texts(names));
    assert(ts.map_values(g) =~= own_texts.map_values(g) + item_texts(names).map_values(g));
    assert(item_texts(names).map_values(g) =~= m);
    assert(components(style, s) =~= components(style, base) + m);
}

/// The items of a relative text of common names.
proof fn lemma_rest_items(style: PathStyle, rest: Seq<char>)
    requires
        style == PathStyle::Windows,
        !stands_alone(style, rest),
        !has_root(style, rest),
        body_meaning(style, true, rest) == body_meaning(style, false, rest),
        forall|k: int|
            0 <= k < body_meaning(style, false, rest).len() ==> is_common_name(
                #[trigger] body_meaning(style, false, rest)[k],
            ),
    ensures
        ({
            let m = body_meaning(style, false, rest);
            let names = items_of(style, rest);
            &&& names.len() == m.len()
            &&& forall|k: int|
                0 <= k < m.len() ==> (#[trigger] names[k]).kind == PartKind::Name && m[k] == Meaning::Name(names[k].text)
                    && text::is_piece(names[k].text, '\\') && piece_means(names[k].text) == m[k]
        }),
{
    let m = body_meaning(style, false, rest);
    let names = items_of(style, rest);
    assert(prefix_of(style, rest) == no_prefix()) by {
        lemma_absent_prefix(style, rest);
    }
    let ps = body_parts(style, false, true, rest, 0);
    assert(head_parts(style, rest) =~= Seq::empty());
    assert(parts(style, rest) =~= ps);
    lemma_body_meaning(style, true, rest, 0);
    assert(rest.skip(0) =~= rest);
    lemma_names_are_pieces(style, false, rest);
    let f = |q: Part| meaning(style, rest, q);
    assert(ps.map_values(f) == m);
    assert forall|k: int| 0 <= k < m.len() implies (#[trigger] names[k]).kind == PartKind::Name && m[k] == Meaning::Name(
        names[k].text,
    ) && text::is_piece(names[k].text, '\\') && piece_means(names[k].text) == m[k] by {
        assert(ps.map_values(f)[k] == meaning(style, rest, ps[k]));
        assert(is_common_name(m[k]));
        assert(names[k] == item_of(rest, ps[k]));
    }
}

proof fn lemma_absent_prefix(style: PathStyle, s: Seq<char>)
    requires
        prefix_of(style, s).kind == PrefixKind::Absent,
    ensures
        prefix_of(style, s) == no_prefix(),
{
}

/// The texts behind the root of a joined verbatim path are pieces.
proof fn lemma_verbatim_texts(style: PathStyle, base: Seq<char>, rest: Seq<char>)
    requires
        style == PathStyle::Windows,
        !stands_alone(style, rest),
        !has_root(style, rest),
        body_meaning(style, true, rest) == body_meaning(style, false, rest),
        forall|k: int|
            0 <= k < body_meaning(style, false, rest).len() ==> is_common_name(
                #[trigger] body_meaning(style, false, rest)[k],
            ),
    ensures
        ({
            let b = body_start(style, base);
            let own = body_parts(style, true, true, base, b).map_values(|q: Part| item_of(base, q));
            let ts = item_texts(own + items_of(style, rest));
            &&& forall|k: int| 0 <= k < ts.len() ==> text::is_piece(#[trigger] ts[k], '\\')
            &&& item_texts(own) == text::pieces_from(base, '\\', b)
        }),
{
    let b = body_start(style, base);
    lemma_prefix_bounds(style, base);
    let ps = body_parts(style, true, true, base, b);
    let own = ps.map_values(|q: Part| item_of(base, q));
    let names = items_of(style, rest);
    lemma_rest_items(style, rest);
    lemma_verbatim_body(style, base, b);
    lemma_body_in_order(style, true, true, base, b);
    let pieces = text::pieces_from(base, '\\', b);
    assert(item_texts(own) =~= pieces) by {
        assert forall|k: int| 0 <= k < ps.len() implies item_texts(own)[k] == pieces[k] by {
            assert(ps[k].kind != PartKind::Root);
            assert(ps.map_values(|p: Part| base.subrange(p.start, p.end))[k] == base.subrange(ps[k].start, ps[k].end));
        }
    }
    text::lemma_pieces_moved(base, '\\', b, b);
    text::lemma_pieces_sound(base.skip(b), '\\', '/');
    let ts = item_texts(own + names);
    assert forall|k: int| 0 <= k < ts.len() implies text::is_piece(#[trigger] ts[k], '\\') by {
        if k < own.len() {
            assert(ts[k] == item_texts(own)[k]);
            assert(ts[k] == text::pieces(base.skip(b), '\\')[k]);
        } else {
            assert(ts[k] == names[k - own.len()].text);
        }
    }
}

/// What can be rerooted: a rooted path that the next part is written behind.
pub open spec fn is_settled_root(style: PathStyle, s: Seq<char>) -> bool {
    is_rooted(style, s) || is_settled_verbatim(style, s)
}

/// What lies behind `from` in `path` is read alike behind `from` and `to`: it
/// does not start like a drive, and next to a verbatim path it is common names
/// alone.
pub open spec fn is_movable(style: PathStyle, path: Seq<char>, from: Seq<char>, to: Seq<char>) -> bool {
    let c = components(style, path);
    let n = components(style, from).len() as int;
    &&& n < c.len() ==> !like_drive(style, c[n])
    &&& is_verbatim(prefix_of(style, from).kind) || is_verbatim(prefix_of(style, to).kind) ==> forall|k: int|
        n <= k < c.len() ==> is_common_name(#[trigger] c[k])
}

/// What is left of a path behind a root, joined to another one, gives that one's
/// parts and then the parts that were left.
pub proof fn lemma_moved_parts(style: PathStyle, path: Seq<char>, from: Seq<char>, to: Seq<char>)
    requires
        is_settled_root(style, from),
        is_settled_root(style, to),
        under(style, path, from),
        components(style, from).len() < components(style, path).len(),
        is_movable(style, path, from, to),
    ensures
        ({
            let rest = tail_text(style, path, parts(style, from).len() as int);
            &&& rest.len() > 0
            &&& components(style, join_spec(style, to, rest)) == components(style, to) + components(style, path).skip(
                components(style, from).len() as int,
            )
        }),
{
    let c = components(style, path);
    let n = components(style, from).len() as int;
    let rest = tail_text(style, path, parts(style, from).len() as int);
    if is_rooted(style, from) {
        lemma_rest_of_rooted(style, path, from);
    } else {
        lemma_rest_of_verbatim(style, path, from);
    }
    if is_rooted(style, to) {
        lemma_rooted_join(style, to, rest);
    } else {
        assert forall|k: int| 0 <= k < body_meaning(style, false, rest).len() implies is_common_name(
            #[trigger] body_meaning(style, false, rest)[k],
        ) by {
            assert(body_meaning(style, false, rest)[k] == c[n + k]);
        }
        lemma_verbatim_join(style, to, rest);
    }
}

/// The letter of the drive a path names, in upper case.
pub open spec fn drive_spec(style: PathStyle, s: Seq<char>) -> Option<char> {
    let p = prefix_of(style, s);
    if p.kind == PrefixKind::Disk || p.kind == PrefixKind::VerbatimDisk {
        Some(text::ascii_upper(s[p.a0]))
    } else {
        None
    }
}

/// The letter of the drive a path names, in upper case.
pub fn drive_of(style: PathStyle, path: &str) -> (r: Option<char>)
    ensures
        r == drive_spec(style, path@),
{
    let v = chars_of(path);
    let p = find_prefix(style, &v);
    proof {
        lemma_prefix_bounds(style, path@);
    }
    if p.kind == PrefixKind::Disk || p.kind == PrefixKind::VerbatimDisk {
        Some(to_ascii_upper(v[p.a0]))
    } else {
        None
    }
}

/// The root of the volume a path is on: its prefix and, where it is rooted, a
/// backslash.
pub open spec fn volume_root_spec(style: PathStyle, s: Seq<char>) -> Seq<char> {
    let head = s.subrange(0, prefix_of(style, s).end);
    if has_root(style, s) {
        head.push('\\')
    } else {
        head
    }
}

/// The root of the volume a path is on; empty for a path without prefix and
/// root.
pub fn volume_root(style: PathStyle, path: &str) -> (r: String)
    ensures
        r@ == volume_root_spec(style, path@),
{
    let v = chars_of(path);
    let p = find_prefix(style, &v);
    proof {
        lemma_prefix_bounds(style, path@);
    }
    let mut out = text_of(&v, 0, p.end);
    let written = p.end < v.len() && sep(style, v[p.end]);
    if written || (p.kind != PrefixKind::Absent && p.kind != PrefixKind::Disk) {
        out.push('\\');
    }
    out
}

/// A parent's text is shorter, so a walk up ends.
pub proof fn lemma_parent_is_shorter(style: PathStyle, s: Seq<char>)
    ensures
        parent_spec(style, s) matches Some(p) ==> p.len() < s.len(),
{
    lemma_parts_in_order(style, s);
    let ps = parts(style, s);
    let verbatim = is_verbatim(prefix_of(style, s).kind);
    let head = head_parts(style, s);
    let tail = body_parts(style, verbatim, verbatim || !has_root(style, s), s, body_start(style, s));
    lemma_prefix_bounds(style, s);
    lemma_body_in_order(style, verbatim, verbatim || !has_root(style, s), s, body_start(style, s));
    if ps.len() > 0 && ps.last().kind != PartKind::Prefix && ps.last().kind != PartKind::Root {
        let n = ps.len() as int;
        assert(n - 1 >= head.len());
        assert(ps[n - 1] == tail[n - 1 - head.len()]);
        assert(ps[n - 1].start < ps[n - 1].end <= s.len());
        if n > 1 {
            assert(ps[n - 2].end <= ps[n - 1].start);
        }
    }
}

/// The `k`-th folder above a path; the topmost where there are fewer.
pub open spec fn above(style: PathStyle, s: Seq<char>, k: nat) -> Seq<char>
    decreases k,
{
    if k == 0 {
        s
    } else {
        match parent_spec(style, above(style, s, (k - 1) as nat)) {
            Some(p) => p,
            None => above(style, s, (k - 1) as nat),
        }
    }
}

/// A part as text: a root as the separator, any other part as it is written.
pub open spec fn part_text(style: PathStyle, s: Seq<char>, p: Part) -> Seq<char> {
    if p.kind == PartKind::Root {
        seq![main_sep(style)]
    } else {
        s.subrange(p.start, p.end)
    }
}

/// The parts of a path as texts.
pub open spec fn part_texts(style: PathStyle, s: Seq<char>) -> Seq<Seq<char>> {
    parts(style, s).map_values(|p: Part| part_text(style, s, p))
}

/// The parts of a path as texts.
pub fn component_texts(style: PathStyle, path: &str) -> (r: Vec<String>)
    ensures
        text::texts(r@) == part_texts(style, path@),
{
    let sp = split(style, path);
    let ghost ps = parts(style, path@);
    let mut out: Vec<String> = Vec::new();
    let mut i: usize = 0;
    while i < sp.parts.len()
        invariant
            i <= sp.parts@.len(),
            sp.of(style, path@),
            ps == parts(style, path@),
            out@.len() == i,
            forall|k: int| 0 <= k < i ==> (#[trigger] out@[k])@ == part_text(style, path@, ps[k]),
        decreases sp.parts@.len() - i,
    {
        let part = sp.parts[i];
        assert(models(sp.parts@)[i as int] == part.model());
        assert(ps[i as int] == part.model());
        if part.kind == PartKind::Root {
            let mut s = String::new();
            s.push(
                if style == PathStyle::Windows {
                    '\\'
                } else {
                    '/'
                },
            );
            assert(s@ =~= seq![main_sep(style)]);
            out.push(s);
        } else {
            out.push(text_of(&sp.v, part.start, part.end));
        }
        i += 1;
    }
    assert(text::texts(out@) =~= part_texts(style, path@));
    out
}

/// What stands behind the last dot of a name is its extension; a name without a
/// dot, or with one that leads it alone, has none.
pub proof fn law_extension_stands_behind_the_last_dot(name: Seq<char>)
    ensures
        name_extension(name) is Some <==> exists|i: int| 0 < i < name.len() && #[trigger] name[i] == '.',
        name_extension(name) is Some ==> name == name_stem(name) + seq!['.'] + name_extension(name)->0
            && !name_extension(name)->0.contains('.') && name_stem(name).len() > 0,
        name_extension(name) is None ==> name_stem(name) == name,
{
    lemma_last_dot_is(name);
    let d = last_dot(name);
    if d > 0 {
        assert(name[d] == '.');
        assert(name =~= name.subrange(0, d) + seq!['.'] + name.subrange(d + 1, name.len() as int));
        let e = name.subrange(d + 1, name.len() as int);
        if e.contains('.') {
            let i = e.index_of('.');
            assert(name[d + 1 + i] == '.');
        }
    }
}

pub proof fn lemma_last_dot_is(s: Seq<char>)
    ensures
        -1 <= last_dot(s) < s.len(),
        last_dot(s) >= 0 ==> s[last_dot(s)] == '.',
        forall|i: int| last_dot(s) < i < s.len() ==> #[trigger] s[i] != '.',
    decreases s.len(),
{
    if s.len() > 0 && s.last() != '.' {
        lemma_last_dot_is(s.drop_last());
        assert forall|i: int| last_dot(s) < i < s.len() implies #[trigger] s[i] != '.' by {
            if i < s.len() - 1 {
                assert(s.drop_last()[i] == s[i]);
            }
        }
    }
}

/// A path that begins at a root of its own stays as it is when it is joined to
/// another: one with a leading slash on Unix, one with a drive on Windows.
pub proof fn law_absolute_path_stays(base: Seq<char>, rest: Seq<char>)
    ensures
        rest.len() > 0 && rest[0] == '/' ==> join_spec(PathStyle::Unix, base, rest) == rest,
        rest.len() > 1 && rest[1] == ':' && (('a' <= rest[0] && rest[0] <= 'z') || ('A' <= rest[0] && rest[0] <= 'Z'))
            ==> join_spec(PathStyle::Windows, base, rest) == rest,
{
}

/// The root of a drive is the drive and its root, whichever case its letter has
/// and whichever separator is written. It has no parent and no name.
pub proof fn law_root_of_a_drive(letter: char, sep: char)
    requires
        ('a' <= letter && letter <= 'z') || ('A' <= letter && letter <= 'Z'),
        sep == '\\' || sep == '/',
    ensures
        components(PathStyle::Windows, seq![letter, ':', sep]) == seq![
            Meaning::Prefix(PrefixKind::Disk, seq![text::ascii_upper(letter)], Seq::empty()),
            Meaning::Root,
        ],
        components(PathStyle::Windows, seq![letter, ':']) == seq![
            Meaning::Prefix(PrefixKind::Disk, seq![text::ascii_upper(letter)], Seq::empty()),
        ],
        parent_spec(PathStyle::Windows, seq![letter, ':', sep]) is None,
        file_name_spec(PathStyle::Windows, seq![letter, ':', sep]) is None,
{
    let w = PathStyle::Windows;
    let s = seq![letter, ':', sep];
    assert(prefix_of(w, s).kind == PrefixKind::Disk);
    assert(body_parts(w, false, false, s, 3) =~= Seq::empty());
    assert(parts(w, s) =~= seq![part(PartKind::Prefix, 0, 2), part(PartKind::Root, 2, 3)]);
    assert(components(w, s) =~= seq![
        Meaning::Prefix(PrefixKind::Disk, seq![text::ascii_upper(letter)], Seq::empty()),
        Meaning::Root,
    ]);
    let d = seq![letter, ':'];
    assert(prefix_of(w, d).kind == PrefixKind::Disk);
    assert(body_parts(w, false, true, d, 2) =~= Seq::empty());
    assert(parts(w, d) =~= seq![part(PartKind::Prefix, 0, 2)]);
    assert(components(w, d) =~= seq![
        Meaning::Prefix(PrefixKind::Disk, seq![text::ascii_upper(letter)], Seq::empty()),
    ]);
}

/// The root of a share is its server and its share together. It has no parent and
/// no name.
pub proof fn law_root_of_a_share(server: Seq<char>, share: Seq<char>)
    requires
        is_plain(server) && server.len() > 0 && server != seq!['?'] && server != seq!['.'],
        is_plain(share) && share.len() > 0,
    ensures
        components(PathStyle::Windows, seq!['\\', '\\'] + server + seq!['\\'] + share) == seq![
            Meaning::Prefix(PrefixKind::Unc, server, share),
            Meaning::Root,
        ],
        parent_spec(PathStyle::Windows, seq!['\\', '\\'] + server + seq!['\\'] + share) is None,
        file_name_spec(PathStyle::Windows, seq!['\\', '\\'] + server + seq!['\\'] + share) is None,
{
    let w = PathStyle::Windows;
    let s = seq!['\\', '\\'] + server + seq!['\\'] + share;
    let m = 2 + server.len() as int;
    assert(s[0] == '\\' && s[1] == '\\' && s[m] == '\\');
    assert forall|j: int| 2 <= j < m implies !is_sep(w, #[trigger] s[j]) by {
        assert(s[j] == server[j - 2]);
    }
    assert forall|j: int| m < j < s.len() implies !is_sep(w, #[trigger] s[j]) by {
        assert(s[j] == share[j - m - 1]);
    }
    lemma_piece_ends_at(w, s, 2, m);
    lemma_piece_ends_at(w, s, m + 1, s.len() as int);
    assert(s[2] == server[0]);
    if server.len() == 1 {
        assert(server =~= seq![server[0]]);
        assert(s[2] != '?' && s[2] != '.');
    } else {
        assert(s[3] == server[1]);
    }
    assert(prefix_of(w, s) == two_names(w, PrefixKind::Unc, false, s, 2));
    assert(prefix_of(w, s).end == s.len());
    assert(body_parts(w, false, false, s, s.len() as int) =~= Seq::empty());
    assert(parts(w, s) =~= seq![
        part(PartKind::Prefix, 0, s.len() as int),
        part(PartKind::Root, s.len() as int, s.len() as int),
    ]);
    assert(s.subrange(2, m) =~= server);
    assert(s.subrange(m + 1, s.len() as int) =~= share);
    assert(components(w, s) =~= seq![Meaning::Prefix(PrefixKind::Unc, server, share), Meaning::Root]);
}

/// Behind a root a `.` leads nowhere, and a `..` is a step up and no name.
pub proof fn law_dots_are_no_names(style: PathStyle, base: Seq<char>)
    requires
        is_rooted(style, base),
    ensures
        components(style, join_spec(style, base, seq!['.'])) == components(style, base),
        components(style, join_spec(style, base, seq!['.', '.'])) == components(style, base).push(Meaning::Parent),
        file_name_spec(style, join_spec(style, base, seq!['.', '.'])) is None,
{
    let one = seq!['.'];
    let two = seq!['.', '.'];
    lemma_rooted_join(style, base, one);
    lemma_rooted_join(style, base, two);
    lemma_body_of_piece(style, false, one);
    lemma_body_of_piece(style, false, two);
    assert(components(style, base) + Seq::<Meaning>::empty() =~= components(style, base));
    assert(components(style, base) + seq![Meaning::Parent] =~= components(style, base).push(Meaning::Parent));
    let up = join_spec(style, base, two);
    let c = components(style, up);
    assert(c.last() == Meaning::Parent);
    assert(c.len() == parts(style, up).len());
    assert(c.last() == meaning(style, up, parts(style, up).last()));
}

proof fn lemma_slash_piece_end(s: Seq<char>, t: Seq<char>, i: int)
    requires
        t == text::replaced(s, '/', '\\'),
        0 <= i <= s.len(),
    ensures
        piece_end(PathStyle::Windows, false, t, i) == piece_end(PathStyle::Windows, false, s, i),
    decreases s.len() - i,
{
    if i < s.len() {
        lemma_slash_piece_end(s, t, i + 1);
    }
}

proof fn lemma_slash_body(s: Seq<char>, t: Seq<char>, dot: bool, i: int)
    requires
        t == text::replaced(s, '/', '\\'),
        0 <= i <= s.len(),
    ensures
        body_parts(PathStyle::Windows, false, dot, t, i) == body_parts(PathStyle::Windows, false, dot, s, i),
    decreases s.len() - i,
{
    let w = PathStyle::Windows;
    lemma_slash_piece_end(s, t, i);
    lemma_piece_holds_no_separator(w, s, i);
    let e = piece_end(w, false, s, i);
    if i < s.len() {
        assert(!is_sep(w, s[i]) ==> t[i] == s[i]);
        if i + 1 < s.len() {
            assert(!is_sep(w, s[i + 1]) ==> t[i + 1] == s[i + 1]);
        }
        assert(i < e ==> !is_sep(w, s[i]));
        assert(i + 1 < e ==> !is_sep(w, s[i + 1]));
        if e < s.len() {
            lemma_slash_body(s, t, false, e + 1);
        }
    }
}

/// On Windows a slash parts a path as a backslash does: but for the paths that
/// start with `\\?\`, the text with every slash turned is the same path.
pub proof fn law_slashes_are_alike(s: Seq<char>)
    requires
        !starts_verbatim(text::replaced(s, '/', '\\')),
    ensures
        same_path_spec(PathStyle::Windows, text::replaced(s, '/', '\\'), s),
{
    let w = PathStyle::Windows;
    let t = text::replaced(s, '/', '\\');
    assert(t.len() == s.len());
    assert forall|i: int| 0 <= i < s.len() implies #[trigger] is_sep(w, t[i]) == is_sep(w, s[i]) && (!is_sep(w, s[i]) ==> t[i]
        == s[i]) by {}
    assert(!starts_verbatim(s));
    if s.len() >= 2 {
        lemma_slash_piece_end(s, t, 2);
        lemma_piece_holds_no_separator(w, s, 2);
        let e1 = piece_end(w, false, s, 2);
        let b0 = if e1 < s.len() {
            e1 + 1
        } else {
            s.len() as int
        };
        lemma_slash_piece_end(s, t, b0);
        assert(is_sep(w, t[0]) == is_sep(w, s[0]));
        assert(is_sep(w, t[1]) == is_sep(w, s[1]));
        assert(s[1] == ':' <==> t[1] == ':');
        assert(is_letter(s[0]) <==> is_letter(t[0]));
    }
    if s.len() >= 4 {
        lemma_slash_piece_end(s, t, 4);
        assert(is_sep(w, t[3]) == is_sep(w, s[3]));
        assert(s[2] == '.' <==> t[2] == '.');
    }
    let p = prefix_of(w, s);
    assert(prefix_of(w, t) == p);
    lemma_prefix_bounds(w, s);
    assert(has_written_root(w, t) == has_written_root(w, s)) by {
        if p.end < s.len() {
            assert(is_sep(w, t[p.end]) == is_sep(w, s[p.end]));
        }
    }
    lemma_slash_body(s, t, false, body_start(w, s));
    lemma_slash_body(s, t, true, body_start(w, s));
    assert(parts(w, t) == parts(w, s));
    lemma_prefix_has_no_slash(s, t);
    lemma_parts_in_order(w, s);
    let ps = parts(w, s);
    assert forall|i: int| 0 <= i < ps.len() implies #[trigger] meaning(w, t, ps[i]) == meaning(w, s, ps[i]) by {
        assert(0 <= ps[i].start <= ps[i].end <= s.len());
        if ps[i].kind == PartKind::Name {
            let h = head_parts(w, s).len();
            lemma_names_hold_no_separator(w, !has_root(w, s), s, body_start(w, s));
            assert(ps[i] == body_parts(w, false, !has_root(w, s), s, body_start(w, s))[i - h]);
            assert(t.subrange(ps[i].start, ps[i].end) =~= s.subrange(ps[i].start, ps[i].end)) by {
                assert forall|j: int| ps[i].start <= j < ps[i].end implies t[j] == s[j] by {
                    assert(!is_sep(w, s[j]));
                }
            }
        }
    }
    assert(components(w, t) =~= components(w, s));
}

proof fn lemma_prefix_has_no_slash(s: Seq<char>, t: Seq<char>)
    requires
        t == text::replaced(s, '/', '\\'),
        !starts_verbatim(t),
        prefix_of(PathStyle::Windows, t) == prefix_of(PathStyle::Windows, s),
    ensures
        prefix_meaning(t, prefix_of(PathStyle::Windows, s)) == prefix_meaning(s, prefix_of(PathStyle::Windows, s)),
{
    let w = PathStyle::Windows;
    let p = prefix_of(w, s);
    lemma_prefix_bounds(w, s);
    if s.len() >= 2 {
        lemma_piece_holds_no_separator(w, s, 2);
        let e1 = piece_end(w, false, s, 2);
        let b0 = if e1 < s.len() {
            e1 + 1
        } else {
            s.len() as int
        };
        lemma_piece_holds_no_separator(w, s, b0);
    }
    if s.len() >= 4 {
        lemma_piece_holds_no_separator(w, s, 4);
    }
    assert forall|j: int| p.a0 <= j < p.a1 implies t[j] == s[j] by {
        if p.kind != PrefixKind::Disk {
            assert(!is_sep(w, s[j]));
        }
    }
    assert forall|j: int| p.b0 <= j < p.b1 implies t[j] == s[j] by {
        assert(!is_sep(w, s[j]));
    }
    assert(t.subrange(p.a0, p.a1) =~= s.subrange(p.a0, p.a1));
    assert(t.subrange(p.b0, p.b1) =~= s.subrange(p.b0, p.b1));
}

proof fn lemma_names_hold_no_separator(style: PathStyle, dot: bool, s: Seq<char>, i: int)
    requires
        0 <= i <= s.len(),
    ensures
        forall|k: int, j: int|
            0 <= k < body_parts(style, false, dot, s, i).len() && (#[trigger] body_parts(style, false, dot, s, i)[k]).start <= j
                < body_parts(style, false, dot, s, i)[k].end ==> !is_sep(style, #[trigger] s[j]),
    decreases s.len() - i,
{
    lemma_piece_holds_no_separator(style, s, i);
    let e = piece_end(style, false, s, i);
    if i < s.len() && e < s.len() {
        lemma_names_hold_no_separator(style, false, s, e + 1);
        let first = piece_part(s, i, e, dot);
        let rest = body_parts(style, false, false, s, e + 1);
        let all = body_parts(style, false, dot, s, i);
        assert(all == first + rest);
        assert forall|k: int, j: int| 0 <= k < all.len() && (#[trigger] all[k]).start <= j < all[k].end implies !is_sep(
            style,
            #[trigger] s[j],
        ) by {
            if k >= first.len() {
                assert(all[k] == rest[k - first.len()]);
            }
        }
    }
}

/// The volume of a path with a drive is the drive: its letter as a capital, and as
/// its root the letter, a colon and a backslash. A path without a drive names none.
pub proof fn law_volume_of_a_drive(letter: char, rest: Seq<char>)
    requires
        ('a' <= letter && letter <= 'z') || ('A' <= letter && letter <= 'Z'),
    ensures
        drive_spec(PathStyle::Windows, seq![letter, ':'] + rest) == Some(text::ascii_upper(letter)),
        volume_root_spec(PathStyle::Windows, seq![letter, ':', '\\'] + rest) == seq![letter, ':', '\\'],
        drive_spec(PathStyle::Unix, rest) is None,
        rest.len() < 2 || (rest[1] != ':' && rest[0] != '\\') ==> rest.len() > 0 && rest[0] == '/' || drive_spec(
            PathStyle::Windows,
            rest,
        ) is None,
{
    let s = seq![letter, ':', '\\'] + rest;
    assert(s[0] == letter && s[1] == ':' && s[2] == '\\');
    let d = seq![letter, ':'] + rest;
    assert(d[0] == letter && d[1] == ':');
    assert(s.subrange(0, 2).push('\\') =~= seq![letter, ':', '\\']);
}

} // verus!
