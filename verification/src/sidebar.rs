//! The folder tree beside the list: quick access and the drives, with the
//! folders that are expanded in it.
//!
//! The subfolders of a folder are listed when they are first needed. The tree
//! says which listing it lacks and is given it, and is then drawn from what it
//! holds.
use vstd::prelude::*;
use crate::browse::Entry;
use crate::labels::{self, decimal};
use crate::listing;
use crate::location::{self, name_of, same_folder};
use crate::order::{self, Rows};
use crate::paths::{self, file_name, join, parent, same_path, PathStyle};
use crate::text::{self, cat3, chars_of, copy_texts, same_range, to_lower_text};

verus! {

/// A folder and its subfolders, in order.
pub struct Branch {
    pub path: String,
    pub children: Vec<String>,
}

/// The folder tree.
pub struct Sidebar {
    pub style: PathStyle,
    /// The roots of the drives.
    pub roots: Vec<String>,
    /// The system's own folders for quick access.
    pub known: Vec<String>,
    /// The folders that the user pinned to quick access.
    pub pins: Vec<String>,
    pub expanded: Vec<String>,
    /// The folders that have been listed.
    pub branches: Vec<Branch>,
    pub quick_open: bool,
    pub drives_open: bool,
    pub visible: bool,
    /// The tree should be scrolled to the folder one is in.
    pub scroll: bool,
}

/// How many subfolders of a folder the tree shows.
pub const MAX_CHILDREN: usize = 400;

/// One of the paths is `p`.
pub open spec fn holds(style: PathStyle, v: Seq<Seq<char>>, p: Seq<char>) -> bool {
    exists|i: int| 0 <= i < v.len() && paths::same_path_spec(style, #[trigger] v[i], p)
}

/// The paths with `p` among them.
pub open spec fn with_path(style: PathStyle, v: Seq<Seq<char>>, p: Seq<char>) -> Seq<Seq<char>> {
    if holds(style, v, p) {
        v
    } else {
        v.push(p)
    }
}

/// The paths without `p`.
pub open spec fn without_path(style: PathStyle, v: Seq<Seq<char>>, p: Seq<char>) -> Seq<Seq<char>>
    decreases v.len(),
{
    if v.len() == 0 {
        v
    } else {
        let rest = without_path(style, v.drop_last(), p);
        if paths::same_path_spec(style, v.last(), p) {
            rest
        } else {
            rest.push(v.last())
        }
    }
}

/// The paths with every folder above `p` among them.
pub open spec fn with_folders_above(style: PathStyle, v: Seq<Seq<char>>, p: Seq<char>) -> Seq<Seq<char>>
    decreases p.len(),
{
    proof {
        paths::lemma_parent_is_shorter(style, p);
    }
    match paths::parent_spec(style, p) {
        Some(up) => with_folders_above(style, with_path(style, v, up), up),
        None => v,
    }
}

fn find_path(style: PathStyle, v: &Vec<String>, p: &str) -> (r: Option<usize>)
    ensures
        match r {
            Some(i) => i < v@.len() && paths::same_path_spec(style, v@[i as int]@, p@) && forall|k: int|
                0 <= k < i ==> !paths::same_path_spec(style, #[trigger] text::texts(v@)[k], p@),
            None => !holds(style, text::texts(v@), p@),
        },
        r is Some <==> holds(style, text::texts(v@), p@),
{
    let mut i: usize = 0;
    while i < v.len()
        invariant
            i <= v@.len(),
            forall|k: int| 0 <= k < i ==> !paths::same_path_spec(style, #[trigger] text::texts(v@)[k], p@),
        decreases v@.len() - i,
    {
        if same_path(style, v[i].as_str(), p) {
            assert(text::texts(v@)[i as int] == v@[i as int]@);
            return Some(i);
        }
        i += 1;
    }
    None
}

/// Whether one of the paths is `p`.
pub fn has_path(style: PathStyle, v: &Vec<String>, p: &str) -> (r: bool)
    ensures
        r == holds(style, text::texts(v@), p@),
{
    find_path(style, v, p).is_some()
}

fn add_path(style: PathStyle, v: &mut Vec<String>, p: &str)
    ensures
        text::texts(final(v)@) == with_path(style, text::texts(old(v)@), p@),
{
    if find_path(style, v, p).is_none() {
        v.push(p.to_owned());
        assert(text::texts(v@) =~= text::texts(old(v)@).push(p@));
    }
}

fn remove_path(style: PathStyle, v: &mut Vec<String>, p: &str) -> (r: bool)
    ensures
        r == holds(style, text::texts(old(v)@), p@),
        text::texts(final(v)@) == without_path(style, text::texts(old(v)@), p@),
{
    let found = find_path(style, v, p).is_some();
    let mut out: Vec<String> = Vec::new();
    let mut i: usize = 0;
    while i < v.len()
        invariant
            i <= v@.len(),
            text::texts(out@) == without_path(style, text::texts(v@).take(i as int), p@),
        decreases v@.len() - i,
    {
        let ghost sofar = text::texts(out@);
        proof {
            let t = text::texts(v@).take(i + 1);
            assert(t.drop_last() =~= text::texts(v@).take(i as int));
            assert(t.last() == v@[i as int]@);
        }
        if !same_path(style, v[i].as_str(), p) {
            out.push(v[i].clone());
            assert(text::texts(out@) =~= sofar.push(v@[i as int]@));
        }
        i += 1;
    }
    assert(text::texts(v@).take(i as int) =~= text::texts(v@));
    *v = out;
    found
}

/// The first listing of `p` from the `i`-th branch on.
pub open spec fn branch_of(style: PathStyle, bs: Seq<Branch>, p: Seq<char>, i: int) -> Option<int>
    decreases bs.len() - i,
{
    if i < 0 || i >= bs.len() {
        None
    } else if paths::same_path_spec(style, bs[i].path@, p) {
        Some(i)
    } else {
        branch_of(style, bs, p, i + 1)
    }
}

/// The subfolders of `p`, where it has been listed.
pub open spec fn subfolders(sb: Sidebar, p: Seq<char>) -> Option<Seq<Seq<char>>> {
    match branch_of(sb.style, sb.branches@, p, 0) {
        Some(i) => Some(text::texts(sb.branches@[i].children@)),
        None => None,
    }
}

/// Whether `p` is expanded.
pub open spec fn is_open(sb: Sidebar, p: Seq<char>) -> bool {
    holds(sb.style, text::texts(sb.expanded@), p)
}

/// How many of `n` subfolders the tree shows.
pub open spec fn shown_count(n: nat) -> nat {
    if n <= MAX_CHILDREN {
        n
    } else {
        MAX_CHILDREN as nat
    }
}

/// The rows of `p`: the folder, and below it the rows of its subfolders where it
/// is expanded, down to `depth` folders below it.
pub open spec fn rows_of(sb: Sidebar, p: Seq<char>, depth: nat) -> Seq<Seq<char>>
    decreases depth, 1int, 0int,
{
    seq![p] + (match subfolders(sb, p) {
        Some(cs) => if is_open(sb, p) && depth > 0 {
            rows_of_all(sb, cs, shown_count(cs.len()), (depth - 1) as nat)
        } else {
            Seq::empty()
        },
        None => Seq::empty(),
    })
}

/// The rows of the first `k` folders, one after the other.
pub open spec fn rows_of_all(sb: Sidebar, cs: Seq<Seq<char>>, k: nat, depth: nat) -> Seq<Seq<char>>
    decreases depth, 2int, k,
{
    if k == 0 {
        Seq::empty()
    } else {
        rows_of_all(sb, cs, (k - 1) as nat, depth) + rows_of(sb, cs[k - 1], depth)
    }
}

/// The first expanded folder in the rows of `p` that has not been listed.
pub open spec fn unlisted_in(sb: Sidebar, p: Seq<char>, depth: nat) -> Option<Seq<char>>
    decreases depth, 1int, 0int,
{
    if !is_open(sb, p) {
        None
    } else {
        match subfolders(sb, p) {
            None => Some(p),
            Some(cs) => if depth > 0 {
                unlisted_in_all(sb, cs, shown_count(cs.len()), (depth - 1) as nat)
            } else {
                None
            },
        }
    }
}

/// The first such folder in the rows of the first `k` folders.
pub open spec fn unlisted_in_all(sb: Sidebar, cs: Seq<Seq<char>>, k: nat, depth: nat) -> Option<Seq<char>>
    decreases depth, 2int, k,
{
    if k == 0 {
        None
    } else {
        match unlisted_in_all(sb, cs, (k - 1) as nat, depth) {
            Some(p) => Some(p),
            None => unlisted_in(sb, cs[k - 1], depth),
        }
    }
}

/// A folder of quick access.
pub open spec fn same_as_one(v: Seq<Seq<char>>, p: Seq<char>) -> bool {
    exists|i: int| 0 <= i < v.len() && location::cache_key(#[trigger] v[i]) == location::cache_key(p)
}

/// The known folders and the first `k` pins, each folder once.
pub open spec fn quick_folders(known: Seq<Seq<char>>, pins: Seq<Seq<char>>, k: int) -> Seq<Seq<char>>
    decreases k,
{
    if k <= 0 {
        known
    } else {
        let v = quick_folders(known, pins, k - 1);
        if same_as_one(v, pins[k - 1]) {
            v
        } else {
            v.push(pins[k - 1])
        }
    }
}

/// The pins without those that are the folder `p`.
pub open spec fn without_pin(v: Seq<Seq<char>>, p: Seq<char>) -> Seq<Seq<char>>
    decreases v.len(),
{
    if v.len() == 0 {
        v
    } else {
        let rest = without_pin(v.drop_last(), p);
        if location::cache_key(v.last()) == location::cache_key(p) {
            rest
        } else {
            rest.push(v.last())
        }
    }
}

fn has_folder(v: &Vec<String>, p: &str) -> (r: bool)
    ensures
        r == same_as_one(text::texts(v@), p@),
{
    let mut i: usize = 0;
    while i < v.len()
        invariant
            i <= v@.len(),
            forall|k: int|
                0 <= k < i ==> location::cache_key(#[trigger] text::texts(v@)[k]) != location::cache_key(p@),
        decreases v@.len() - i,
    {
        if same_folder(v[i].as_str(), p) {
            assert(text::texts(v@)[i as int] == v@[i as int]@);
            return true;
        }
        i += 1;
    }
    false
}

/// A tree that shows nothing yet.
pub open spec fn is_new(s: Sidebar, style: PathStyle) -> bool {
    &&& s.style == style
    &&& s.roots@.len() == 0
    &&& s.known@.len() == 0
    &&& s.pins@.len() == 0
    &&& s.expanded@.len() == 0
    &&& s.branches@.len() == 0
    &&& s.quick_open && s.drives_open && s.visible && !s.scroll
}

impl Sidebar {
    /// The folders of quick access.
    pub open spec fn quick(&self) -> Seq<Seq<char>> {
        quick_folders(text::texts(self.known@), text::texts(self.pins@), self.pins@.len() as int)
    }

    /// The folders whose rows the tree shows, top to bottom.
    pub open spec fn tops(&self) -> Seq<Seq<char>> {
        (if self.quick_open {
            self.quick()
        } else {
            Seq::empty()
        }) + (if self.drives_open {
            text::texts(self.roots@)
        } else {
            Seq::empty()
        })
    }

    /// How far down rows can go: no further than there are listed folders.
    pub open spec fn reach(&self) -> nat {
        self.branches@.len()
    }

    /// All rows.
    pub open spec fn rows(&self) -> Seq<Seq<char>> {
        rows_of_all(*self, self.tops(), self.tops().len(), self.reach())
    }

    /// A tree that shows nothing yet.
    pub fn new(style: PathStyle) -> (r: Sidebar)
        ensures
            is_new(r, style),
    {
        Sidebar {
            style,
            roots: Vec::new(),
            known: Vec::new(),
            pins: Vec::new(),
            expanded: Vec::new(),
            branches: Vec::new(),
            quick_open: true,
            drives_open: true,
            visible: true,
            scroll: false,
        }
    }

    /// Whether a folder is expanded.
    pub fn is_expanded(&self, p: &str) -> (r: bool)
        ensures
            r == is_open(*self, p@),
    {
        find_path(self.style, &self.expanded, p).is_some()
    }

    /// Expands a folder.
    pub fn expand(&mut self, p: &str)
        ensures
            *final(self) == (Sidebar { expanded: final(self).expanded, ..*old(self) }),
            text::texts(final(self).expanded@) == with_path(old(self).style, text::texts(old(self).expanded@), p@),
    {
        let style = self.style;
        add_path(style, &mut self.expanded, p);
    }

    /// Collapses a folder. Whether it was expanded.
    pub fn collapse(&mut self, p: &str) -> (r: bool)
        ensures
            r == is_open(*old(self), p@),
            *final(self) == (Sidebar { expanded: final(self).expanded, ..*old(self) }),
            text::texts(final(self).expanded@) == without_path(old(self).style, text::texts(old(self).expanded@), p@),
    {
        let style = self.style;
        remove_path(style, &mut self.expanded, p)
    }

    /// Expands a collapsed folder and collapses an expanded one.
    pub fn toggle(&mut self, p: &str)
        ensures
            *final(self) == (Sidebar { expanded: final(self).expanded, ..*old(self) }),
            text::texts(final(self).expanded@) == (if is_open(*old(self), p@) {
                without_path(old(self).style, text::texts(old(self).expanded@), p@)
            } else {
                text::texts(old(self).expanded@).push(p@)
            }),
    {
        if self.is_expanded(p) {
            self.collapse(p);
        } else {
            self.expand(p);
        }
    }

    /// Expands every folder above `dir`, so that the tree shows it. The folder
    /// itself is left as it is.
    pub fn open_way_to(&mut self, dir: &str)
        ensures
            *final(self) == (Sidebar { expanded: final(self).expanded, ..*old(self) }),
            text::texts(final(self).expanded@) == with_folders_above(
                old(self).style,
                text::texts(old(self).expanded@),
                dir@,
            ),
    {
        let style = self.style;
        let mut cur = dir.to_owned();
        let mut up = parent(style, dir);
        while up.is_some()
            invariant
                style == self.style,
                *self == (Sidebar { expanded: self.expanded, ..*old(self) }),
                text::opt_text(up) == paths::parent_spec(style, cur@),
                with_folders_above(style, text::texts(self.expanded@), cur@) == with_folders_above(
                    style,
                    text::texts(old(self).expanded@),
                    dir@,
                ),
            decreases cur@.len(),
        {
            proof {
                paths::lemma_parent_is_shorter(style, cur@);
            }
            match up {
                Some(p) => {
                    add_path(style, &mut self.expanded, p.as_str());
                    up = parent(style, p.as_str());
                    cur = p;
                },
                None => {},
            }
        }
    }

    fn find_branch(&self, p: &str) -> (r: Option<usize>)
        ensures
            match r {
                Some(i) => i < self.branches@.len() && branch_of(self.style, self.branches@, p@, 0) == Some(i as int),
                None => branch_of(self.style, self.branches@, p@, 0) is None,
            },
    {
        let mut i: usize = 0;
        while i < self.branches.len()
            invariant
                i <= self.branches@.len(),
                branch_of(self.style, self.branches@, p@, 0) == branch_of(self.style, self.branches@, p@, i as int),
            decreases self.branches@.len() - i,
        {
            if same_path(self.style, self.branches[i].path.as_str(), p) {
                return Some(i);
            }
            i += 1;
        }
        None
    }

    /// The subfolders of a folder, where it has been listed.
    pub fn children(&self, p: &str) -> (r: Option<&Vec<String>>)
        ensures
            match r {
                Some(v) => subfolders(*self, p@) == Some(text::texts(v@)),
                None => subfolders(*self, p@) is None,
            },
    {
        match self.find_branch(p) {
            Some(i) => Some(&self.branches[i].children),
            None => None,
        }
    }

    /// Forgets all listings, so that they are made anew.
    pub fn forget(&mut self)
        ensures
            *final(self) == (Sidebar { branches: final(self).branches, ..*old(self) }),
            final(self).branches@.len() == 0,
    {
        self.branches.clear();
    }

    /// The folders of quick access: the known ones, then the pins, each folder
    /// once.
    pub fn quick_access(&self) -> (r: Vec<String>)
        ensures
            text::texts(r@) == self.quick(),
    {
        let mut out = copy_texts(&self.known);
        let mut i: usize = 0;
        while i < self.pins.len()
            invariant
                i <= self.pins@.len(),
                text::texts(out@) == quick_folders(text::texts(self.known@), text::texts(self.pins@), i as int),
            decreases self.pins@.len() - i,
        {
            let ghost before = text::texts(out@);
            if !has_folder(&out, self.pins[i].as_str()) {
                out.push(self.pins[i].clone());
                assert(text::texts(out@) =~= before.push(self.pins@[i as int]@));
            }
            assert(text::texts(self.pins@)[i as int] == self.pins@[i as int]@);
            i += 1;
        }
        out
    }

    /// Whether a folder is pinned.
    pub fn is_pinned(&self, p: &str) -> (r: bool)
        ensures
            r == same_as_one(text::texts(self.pins@), p@),
    {
        has_folder(&self.pins, p)
    }

    /// Pins a folder, unless it is pinned already.
    pub fn pin(&mut self, p: &str)
        ensures
            *final(self) == (Sidebar { pins: final(self).pins, ..*old(self) }),
            text::texts(final(self).pins@) == (if same_as_one(text::texts(old(self).pins@), p@) {
                text::texts(old(self).pins@)
            } else {
                text::texts(old(self).pins@).push(p@)
            }),
    {
        if !self.is_pinned(p) {
            self.pins.push(p.to_owned());
            assert(text::texts(self.pins@) =~= text::texts(old(self).pins@).push(p@));
        }
    }

    /// Unpins a folder.
    pub fn unpin(&mut self, p: &str)
        ensures
            *final(self) == (Sidebar { pins: final(self).pins, ..*old(self) }),
            text::texts(final(self).pins@) == without_pin(text::texts(old(self).pins@), p@),
    {
        let mut out: Vec<String> = Vec::new();
        let mut i: usize = 0;
        while i < self.pins.len()
            invariant
                i <= self.pins@.len(),
                *self == *old(self),
                text::texts(out@) == without_pin(text::texts(self.pins@).take(i as int), p@),
            decreases self.pins@.len() - i,
        {
            let ghost sofar = text::texts(out@);
            proof {
                let t = text::texts(self.pins@).take(i + 1);
                assert(t.drop_last() =~= text::texts(self.pins@).take(i as int));
                assert(t.last() == self.pins@[i as int]@);
            }
            if !same_folder(self.pins[i].as_str(), p) {
                out.push(self.pins[i].clone());
                assert(text::texts(out@) =~= sofar.push(self.pins@[i as int]@));
            }
            i += 1;
        }
        assert(text::texts(self.pins@).take(i as int) =~= text::texts(self.pins@));
        self.pins = out;
    }
}

/// An entry that the tree shows.
pub open spec fn is_subfolder(e: Entry, show_hidden: bool) -> bool {
    e.is_dir && !e.is_symlink && (show_hidden || !e.is_hidden)
}

/// The paths of the subfolders among the entries of the folder `p`.
pub open spec fn subfolder_paths(style: PathStyle, p: Seq<char>, es: Seq<Entry>, show_hidden: bool) -> Seq<Seq<char>>
    decreases es.len(),
{
    if es.len() == 0 {
        Seq::empty()
    } else {
        let rest = subfolder_paths(style, p, es.drop_last(), show_hidden);
        if is_subfolder(es.last(), show_hidden) {
            rest.push(paths::join_spec(style, p, es.last().name@))
        } else {
            rest
        }
    }
}

/// What folders are ordered by in the tree: the name without regard to case.
pub open spec fn folder_key(style: PathStyle, p: Seq<char>) -> Seq<int> {
    match paths::file_name_spec(style, p) {
        Some(n) => listing::codes(text::lower_text(n)),
        None => listing::codes(text::lower_text(Seq::empty())),
    }
}

/// `r` is `v` taken at the positions `p`, every one once.
pub open spec fn taken_at(v: Seq<Seq<char>>, r: Seq<Seq<char>>, p: Seq<usize>) -> bool {
    &&& r.len() == v.len()
    &&& p.len() == v.len()
    &&& forall|i: int| 0 <= i < p.len() ==> (#[trigger] p[i]) < v.len() && r[i] == v[p[i] as int]
}

/// Folders stand in their order, those with one name as they stood.
pub open spec fn in_name_order(style: PathStyle, v: Seq<Seq<char>>, p: Seq<usize>) -> bool {
    forall|i: int, j: int|
        0 <= i < j < p.len() ==> {
            let (x, y) = ((#[trigger] p[i]) as int, (#[trigger] p[j]) as int);
            let (a, b) = (folder_key(style, v[x]), folder_key(style, v[y]));
            order::lex_less(a, b) || (!order::lex_less(b, a) && x < y)
        }
}

/// `r` is `v` in the order of the names.
pub open spec fn sorted_by_name(style: PathStyle, v: Seq<Seq<char>>, r: Seq<Seq<char>>) -> bool {
    exists|p: Seq<usize>| #[trigger] taken_at(v, r, p) && in_name_order(style, v, p)
}

fn folder_row_key(style: PathStyle, p: &str) -> (r: Vec<i128>)
    ensures
        order::ints(r@) == folder_key(style, p@),
{
    match file_name(style, p) {
        Some(n) => listing::text_key(to_lower_text(n.as_str()).as_str()),
        None => {
            let none = String::new();
            assert(none@ =~= Seq::<char>::empty());
            listing::text_key(to_lower_text(none.as_str()).as_str())
        },
    }
}

fn sort_folders(style: PathStyle, v: &Vec<String>) -> (r: Vec<String>)
    ensures
        sorted_by_name(style, text::texts(v@), text::texts(r@)),
{
    let mut rows = Rows { ahead: Vec::new(), keys: Vec::new(), ascending: true };
    let ghost vs = text::texts(v@);
    let mut i: usize = 0;
    while i < v.len()
        invariant
            i <= v@.len(),
            vs == text::texts(v@),
            rows.ahead@.len() == i,
            rows.keys@.len() == i,
            rows.ascending,
            forall|k: int| 0 <= k < i ==> !(#[trigger] rows.ahead@[k]),
            forall|k: int| 0 <= k < i ==> rows.key(k) == #[trigger] folder_key(style, vs[k]),
        decreases v@.len() - i,
    {
        let ghost before = rows;
        let key = folder_row_key(style, v[i].as_str());
        rows.ahead.push(false);
        rows.keys.push(key);
        proof {
            assert forall|k: int| 0 <= k < i + 1 implies rows.key(k) == #[trigger] folder_key(style, vs[k]) by {
                if k < i {
                    assert(rows.keys@[k] == before.keys@[k]);
                    assert(before.key(k) == folder_key(style, vs[k]));
                }
            }
        }
        i += 1;
    }
    let p = rows.sorted();
    let mut out: Vec<String> = Vec::new();
    let mut j: usize = 0;
    while j < p.len()
        invariant
            j <= p@.len(),
            p@.len() == v@.len(),
            forall|k: int| 0 <= k < p@.len() ==> (#[trigger] p@[k]) < v@.len(),
            out@.len() == j,
            forall|k: int| 0 <= k < j ==> (#[trigger] out@[k])@ == v@[p@[k] as int]@,
        decreases p@.len() - j,
    {
        out.push(v[p[j]].clone());
        j += 1;
    }
    proof {
        assert(taken_at(vs, text::texts(out@), p@));
        assert forall|a: int, b: int| 0 <= a < b < p@.len() implies ({
            let (x, y) = ((#[trigger] p@[a]) as int, (#[trigger] p@[b]) as int);
            let (k, l) = (folder_key(style, vs[x]), folder_key(style, vs[y]));
            order::lex_less(k, l) || (!order::lex_less(l, k) && x < y)
        }) by {
            let (x, y) = (p@[a] as int, p@[b] as int);
            assert(rows.before(x, y));
            assert(rows.key(x) == folder_key(style, vs[x]));
            assert(rows.key(y) == folder_key(style, vs[y]));
            assert(!rows.ahead@[x] && !rows.ahead@[y]);
        }
    }
    out
}

/// What the tree learns from listing `p`: nothing where it could not be listed.
pub open spec fn is_branch(
    b: Branch,
    style: PathStyle,
    p: Seq<char>,
    listed: Option<Vec<Entry>>,
    show_hidden: bool,
) -> bool {
    &&& b.path@ == p
    &&& match listed {
        Some(es) => sorted_by_name(style, subfolder_paths(style, p, es@, show_hidden), text::texts(b.children@)),
        None => b.children@.len() == 0,
    }
}

impl Sidebar {
    /// Takes the entries of a folder as its listing; `None` where it could not be
    /// listed. A folder that has been listed keeps its listing.
    pub fn fill(&mut self, p: &str, listed: &Option<Vec<Entry>>, show_hidden: bool)
        ensures
            subfolders(*old(self), p@) is Some ==> *final(self) == *old(self),
            subfolders(*old(self), p@) is None ==> {
                &&& *final(self) == (Sidebar { branches: final(self).branches, ..*old(self) })
                &&& final(self).branches@.len() == old(self).branches@.len() + 1
                &&& final(self).branches@.drop_last() == old(self).branches@
                &&& is_branch(final(self).branches@.last(), old(self).style, p@, *listed, show_hidden)
            },
    {
        if self.find_branch(p).is_some() {
            return;
        }
        let mut dirs: Vec<String> = Vec::new();
        match listed {
            Some(es) => {
                let mut i: usize = 0;
                while i < es.len()
                    invariant
                        i <= es@.len(),
                        *self == *old(self),
                        text::texts(dirs@) == subfolder_paths(self.style, p@, es@.take(i as int), show_hidden),
                    decreases es@.len() - i,
                {
                    let ghost sofar = text::texts(dirs@);
                    proof {
                        assert(es@.take(i + 1).drop_last() =~= es@.take(i as int));
                    }
                    let e = &es[i];
                    if e.is_dir && !e.is_symlink && (show_hidden || !e.is_hidden) {
                        let q = join(self.style, p, e.name.as_str());
                        dirs.push(q);
                        assert(text::texts(dirs@) =~= sofar.push(q@));
                    }
                    i += 1;
                }
                assert(es@.take(i as int) =~= es@);
                dirs = sort_folders(self.style, &dirs);
            },
            None => {},
        }
        self.branches.push(Branch { path: p.to_owned(), children: dirs });
        assert(self.branches@.drop_last() =~= old(self).branches@);
    }

    fn shown_children(&self, p: &str) -> (r: Option<(&Vec<String>, usize)>)
        ensures
            match r {
                Some((v, n)) => is_open(*self, p@) && subfolders(*self, p@) == Some(text::texts(v@)) && n == shown_count(
                    v@.len(),
                ) && n <= v@.len(),
                None => !is_open(*self, p@) || subfolders(*self, p@) is None,
            },
    {
        if !self.is_expanded(p) {
            return None;
        }
        match self.children(p) {
            Some(v) => {
                let n: usize = if v.len() < MAX_CHILDREN {
                    v.len()
                } else {
                    MAX_CHILDREN
                };
                Some((v, n))
            },
            None => None,
        }
    }

    fn collect(&self, p: &str, depth: usize, out: &mut Vec<String>)
        ensures
            text::texts(final(out)@) == text::texts(old(out)@) + rows_of(*self, p@, depth as nat),
        decreases depth, 0int,
    {
        out.push(p.to_owned());
        assert(text::texts(out@) =~= text::texts(old(out)@) + seq![p@]);
        assert(seq![p@] + Seq::<Seq<char>>::empty() =~= seq![p@]);
        if depth > 0 {
            match self.shown_children(p) {
                Some((cs, n)) => {
                    self.collect_all(cs, n, depth - 1, out);
                    assert(text::texts(out@) =~= text::texts(old(out)@) + (seq![p@] + rows_of_all(
                        *self,
                        text::texts(cs@),
                        n as nat,
                        (depth - 1) as nat,
                    )));
                },
                None => {},
            }
        }
    }

    fn collect_all(&self, cs: &Vec<String>, n: usize, depth: usize, out: &mut Vec<String>)
        requires
            n <= cs@.len(),
        ensures
            text::texts(final(out)@) == text::texts(old(out)@) + rows_of_all(
                *self,
                text::texts(cs@),
                n as nat,
                depth as nat,
            ),
        decreases depth, 1int,
    {
        let mut i: usize = 0;
        while i < n
            invariant
                i <= n,
                n <= cs@.len(),
                text::texts(out@) == text::texts(old(out)@) + rows_of_all(
                    *self,
                    text::texts(cs@),
                    i as nat,
                    depth as nat,
                ),
            decreases n - i,
        {
            self.collect(cs[i].as_str(), depth, out);
            proof {
                let all = text::texts(cs@);
                assert(all[i as int] == cs@[i as int]@);
                assert(text::texts(out@) =~= text::texts(old(out)@) + (rows_of_all(*self, all, i as nat, depth as nat)
                    + rows_of(*self, all[i as int], depth as nat)));
            }
            i += 1;
        }
    }

    fn top_folders(&self) -> (r: Vec<String>)
        ensures
            text::texts(r@) == self.tops(),
    {
        let mut out: Vec<String> = if self.quick_open {
            self.quick_access()
        } else {
            Vec::new()
        };
        let ghost quick = text::texts(out@);
        assert(!self.quick_open ==> quick =~= Seq::<Seq<char>>::empty());
        if self.drives_open {
            let mut roots = copy_texts(&self.roots);
            out.append(&mut roots);
        }
        assert(text::texts(out@) =~= self.tops());
        out
    }

    /// The folders that the tree shows, top to bottom, as far as it has been
    /// listed.
    pub fn visible_nodes(&self) -> (r: Vec<String>)
        ensures
            text::texts(r@) == self.rows(),
    {
        let tops = self.top_folders();
        let mut out: Vec<String> = Vec::new();
        assert(text::texts(out@) =~= Seq::<Seq<char>>::empty());
        self.collect_all(&tops, tops.len(), self.branches.len(), &mut out);
        assert(text::texts(out@) =~= self.rows());
        out
    }

    fn first_unlisted(&self, p: &str, depth: usize) -> (r: Option<String>)
        ensures
            text::opt_text(r) == unlisted_in(*self, p@, depth as nat),
        decreases depth, 0int,
    {
        match self.shown_children(p) {
            Some((cs, n)) => {
                if depth > 0 {
                    self.first_unlisted_of(cs, n, depth - 1)
                } else {
                    None
                }
            },
            None => {
                if self.is_expanded(p) {
                    Some(p.to_owned())
                } else {
                    None
                }
            },
        }
    }

    fn first_unlisted_of(&self, cs: &Vec<String>, n: usize, depth: usize) -> (r: Option<String>)
        requires
            n <= cs@.len(),
        ensures
            text::opt_text(r) == unlisted_in_all(*self, text::texts(cs@), n as nat, depth as nat),
        decreases depth, 1int,
    {
        let mut found: Option<String> = None;
        let mut i: usize = 0;
        while i < n
            invariant
                i <= n,
                n <= cs@.len(),
                text::opt_text(found) == unlisted_in_all(*self, text::texts(cs@), i as nat, depth as nat),
            decreases n - i,
        {
            assert(text::texts(cs@)[i as int] == cs@[i as int]@);
            if found.is_none() {
                found = self.first_unlisted(cs[i].as_str(), depth);
            }
            i += 1;
        }
        found
    }

    /// The first expanded folder in the tree whose listing is lacking.
    pub fn unlisted(&self) -> (r: Option<String>)
        ensures
            text::opt_text(r) == unlisted_in_all(*self, self.tops(), self.tops().len(), self.reach()),
    {
        let tops = self.top_folders();
        self.first_unlisted_of(&tops, tops.len(), self.branches.len())
    }
}

/// A folder heads its own rows, and has no others while it is collapsed.
pub proof fn law_folder_heads_its_rows(sb: Sidebar, p: Seq<char>, depth: nat)
    ensures
        rows_of(sb, p, depth).len() > 0,
        rows_of(sb, p, depth)[0] == p,
        !is_open(sb, p) ==> rows_of(sb, p, depth) == seq![p],
{
    assert(seq![p] + Seq::<Seq<char>>::empty() =~= seq![p]);
}

/// The subfolders that were listed lie below their folders.
pub open spec fn nested(sb: Sidebar) -> bool {
    forall|i: int, j: int|
        0 <= i < sb.branches@.len() && 0 <= j < sb.branches@[i].children@.len() ==> paths::components(
            sb.style,
            (#[trigger] sb.branches@[i].children@[j])@,
        ).len() > paths::components(sb.style, sb.branches@[i].path@).len()
}

/// The subfolders of a listed folder lie below it.
pub proof fn law_listing_is_nested(
    b: Branch,
    style: PathStyle,
    p: Seq<char>,
    listed: Option<Vec<Entry>>,
    show_hidden: bool,
    j: int,
)
    requires
        is_branch(b, style, p, listed, show_hidden),
        paths::is_settled(style, p),
        listed matches Some(es) ==> forall|i: int| 0 <= i < es@.len() ==> paths::is_entry_name((#[trigger] es@[i]).name@),
        0 <= j < b.children@.len(),
    ensures
        paths::under(style, b.children@[j]@, p),
        paths::components(style, b.children@[j]@).len() == paths::components(style, b.path@).len() + 1,
{
    let es = listed->0@;
    let v = subfolder_paths(style, p, es, show_hidden);
    let r = text::texts(b.children@);
    let at = choose|at: Seq<usize>| #[trigger] taken_at(v, r, at) && in_name_order(style, v, at);
    assert(taken_at(v, r, at));
    assert(r[j] == b.children@[j]@);
    assert(r[j] == v[at[j] as int]);
    lemma_subfolder_joined(style, p, es, show_hidden, at[j] as int);
}

proof fn lemma_subfolder_joined(style: PathStyle, p: Seq<char>, es: Seq<Entry>, show_hidden: bool, j: int)
    requires
        paths::is_settled(style, p),
        forall|i: int| 0 <= i < es.len() ==> paths::is_entry_name((#[trigger] es[i]).name@),
        0 <= j < subfolder_paths(style, p, es, show_hidden).len(),
    ensures
        paths::under(style, subfolder_paths(style, p, es, show_hidden)[j], p),
        paths::components(style, subfolder_paths(style, p, es, show_hidden)[j]).len() == paths::components(
            style,
            p,
        ).len() + 1,
    decreases es.len(),
{
    let w = es.drop_last();
    let rest = subfolder_paths(style, p, w, show_hidden);
    if j < rest.len() {
        assert forall|i: int| 0 <= i < w.len() implies paths::is_entry_name((#[trigger] w[i]).name@) by {
            assert(w[i] == es[i]);
        }
        lemma_subfolder_joined(style, p, w, show_hidden, j);
    } else {
        assert(paths::is_entry_name(es[es.len() - 1].name@));
        paths::law_joined_name_lies_inside(style, p, es.last().name@);
    }
}

/// How many of the first `k` listed folders have `n` parts or more.
spec fn as_deep(style: PathStyle, bs: Seq<Branch>, n: nat, k: nat) -> nat
    decreases k,
{
    if k == 0 {
        0
    } else {
        as_deep(style, bs, n, (k - 1) as nat) + (if paths::components(style, bs[k - 1].path@).len() >= n {
            1nat
        } else {
            0
        })
    }
}

/// How many listed folders can lie in a chain from `p` down.
spec fn chain(sb: Sidebar, p: Seq<char>) -> nat {
    as_deep(sb.style, sb.branches@, paths::components(sb.style, p).len(), sb.branches@.len())
}

proof fn lemma_branch_found(style: PathStyle, bs: Seq<Branch>, p: Seq<char>, i: int)
    requires
        0 <= i,
        branch_of(style, bs, p, i) is Some,
    ensures
        i <= branch_of(style, bs, p, i)->0 < bs.len(),
        paths::same_path_spec(style, bs[branch_of(style, bs, p, i)->0].path@, p),
    decreases bs.len() - i,
{
    if i < bs.len() && !paths::same_path_spec(style, bs[i].path@, p) {
        lemma_branch_found(style, bs, p, i + 1);
    }
}

proof fn lemma_fewer_are_deeper(style: PathStyle, bs: Seq<Branch>, n: nat, m: nat, k: nat, b: int)
    requires
        n < m,
        k <= bs.len(),
    ensures
        as_deep(style, bs, m, k) <= as_deep(style, bs, n, k) <= k,
        0 <= b < k && paths::components(style, bs[b].path@).len() == n ==> as_deep(style, bs, m, k) < as_deep(
            style,
            bs,
            n,
            k,
        ),
    decreases k,
{
    if k > 0 {
        lemma_fewer_are_deeper(style, bs, n, m, (k - 1) as nat, b);
    }
}

proof fn lemma_children_chain(sb: Sidebar, p: Seq<char>, j: int)
    requires
        nested(sb),
        subfolders(sb, p) is Some,
        0 <= j < (subfolders(sb, p)->0).len(),
    ensures
        chain(sb, (subfolders(sb, p)->0)[j]) < chain(sb, p),
{
    lemma_branch_found(sb.style, sb.branches@, p, 0);
    let b = branch_of(sb.style, sb.branches@, p, 0)->0;
    let child = sb.branches@[b].children@[j];
    assert((subfolders(sb, p)->0)[j] == child@);
    lemma_fewer_are_deeper(
        sb.style,
        sb.branches@,
        paths::components(sb.style, p).len(),
        paths::components(sb.style, child@).len(),
        sb.branches@.len(),
        b,
    );
}

proof fn lemma_listed_chain(sb: Sidebar, p: Seq<char>)
    ensures
        subfolders(sb, p) is Some ==> chain(sb, p) > 0,
        chain(sb, p) <= sb.reach(),
{
    let n = paths::components(sb.style, p).len();
    lemma_fewer_are_deeper(sb.style, sb.branches@, n, n + 1, sb.branches@.len(), 0);
    if subfolders(sb, p) is Some {
        lemma_branch_found(sb.style, sb.branches@, p, 0);
        let b = branch_of(sb.style, sb.branches@, p, 0)->0;
        lemma_fewer_are_deeper(sb.style, sb.branches@, n, n + 1, sb.branches@.len(), b);
    }
}

proof fn lemma_depth_suffices(sb: Sidebar, p: Seq<char>, d: nat, e: nat)
    requires
        nested(sb),
        chain(sb, p) <= d,
        chain(sb, p) <= e,
    ensures
        rows_of(sb, p, d) == rows_of(sb, p, e),
        unlisted_in(sb, p, d) == unlisted_in(sb, p, e),
    decreases d, 1int, 0int,
{
    lemma_listed_chain(sb, p);
    match subfolders(sb, p) {
        Some(cs) => {
            assert forall|j: int| 0 <= j < shown_count(cs.len()) implies chain(sb, #[trigger] cs[j]) <= d - 1 && chain(
                sb,
                cs[j],
            ) <= e - 1 by {
                lemma_children_chain(sb, p, j);
            }
            lemma_depth_suffices_all(sb, cs, shown_count(cs.len()), (d - 1) as nat, (e - 1) as nat);
        },
        None => {},
    }
}

proof fn lemma_depth_suffices_all(sb: Sidebar, cs: Seq<Seq<char>>, k: nat, d: nat, e: nat)
    requires
        nested(sb),
        k <= cs.len(),
        forall|j: int| 0 <= j < k ==> chain(sb, #[trigger] cs[j]) <= d && chain(sb, cs[j]) <= e,
    ensures
        rows_of_all(sb, cs, k, d) == rows_of_all(sb, cs, k, e),
        unlisted_in_all(sb, cs, k, d) == unlisted_in_all(sb, cs, k, e),
    decreases d, 2int, k,
{
    if k > 0 {
        lemma_depth_suffices_all(sb, cs, (k - 1) as nat, d, e);
        lemma_depth_suffices(sb, cs[k - 1], d, e);
    }
}

/// The tree shows all its rows: looking further down than there are listed
/// folders finds no others, and no listing that is lacking.
pub proof fn law_rows_are_complete(sb: Sidebar, depth: nat)
    requires
        nested(sb),
        depth >= sb.reach(),
    ensures
        rows_of_all(sb, sb.tops(), sb.tops().len(), depth) == sb.rows(),
        unlisted_in_all(sb, sb.tops(), sb.tops().len(), depth) == unlisted_in_all(
            sb,
            sb.tops(),
            sb.tops().len(),
            sb.reach(),
        ),
{
    assert forall|j: int| 0 <= j < sb.tops().len() implies chain(sb, #[trigger] sb.tops()[j]) <= sb.reach() by {
        lemma_listed_chain(sb, sb.tops()[j]);
    }
    lemma_depth_suffices_all(sb, sb.tops(), sb.tops().len(), depth, sb.reach());
}

proof fn lemma_same_folder_kept(style: PathStyle, v: Seq<Seq<char>>, p: Seq<char>, q: Seq<char>)
    requires
        holds(style, v, q),
    ensures
        holds(style, with_path(style, v, p), q),
{
    let i = choose|i: int| 0 <= i < v.len() && paths::same_path_spec(style, #[trigger] v[i], q);
    assert(with_path(style, v, p)[i] == v[i]);
}

/// Opening the way to a folder expands every folder above it and collapses
/// none.
pub proof fn law_way_is_open(style: PathStyle, v: Seq<Seq<char>>, dir: Seq<char>, q: Seq<char>, k: nat)
    requires
        k > 0,
        q == paths::above(style, dir, k),
        paths::parent_spec(style, dir) is Some,
    ensures
        holds(style, with_folders_above(style, v, dir), q),
        forall|x: Seq<char>| holds(style, v, x) ==> #[trigger] holds(style, with_folders_above(style, v, dir), x),
    decreases dir.len(),
{
    paths::lemma_parent_is_shorter(style, dir);
    let up = paths::parent_spec(style, dir)->0;
    let w = with_path(style, v, up);
    assert(holds(style, w, up)) by {
        if !holds(style, v, up) {
            assert(w[v.len() as int] == up);
        }
    }
    lemma_way_kept(style, w, up);
    assert(with_folders_above(style, v, dir) == with_folders_above(style, w, up));
    assert(holds(style, with_folders_above(style, w, up), up));
    assert forall|x: Seq<char>| holds(style, v, x) implies #[trigger] holds(style, with_folders_above(style, v, dir), x) by {
        lemma_same_folder_kept(style, v, up, x);
        assert(holds(style, with_folders_above(style, w, up), x));
    }
    lemma_above_from_parent(style, dir, k);
    if k == 1 {
        assert(paths::above(style, dir, 0) == dir);
        assert(q == up);
    } else if paths::parent_spec(style, up) is Some {
        law_way_is_open(style, w, up, q, (k - 1) as nat);
    } else {
        lemma_above_of_top(style, up, (k - 1) as nat);
    }
}

proof fn lemma_way_kept(style: PathStyle, v: Seq<Seq<char>>, dir: Seq<char>)
    ensures
        forall|x: Seq<char>| holds(style, v, x) ==> #[trigger] holds(style, with_folders_above(style, v, dir), x),
    decreases dir.len(),
{
    paths::lemma_parent_is_shorter(style, dir);
    match paths::parent_spec(style, dir) {
        Some(up) => {
            let w = with_path(style, v, up);
            lemma_way_kept(style, w, up);
            assert(with_folders_above(style, v, dir) == with_folders_above(style, w, up));
            assert forall|x: Seq<char>| holds(style, v, x) implies #[trigger] holds(
                style,
                with_folders_above(style, v, dir),
                x,
            ) by {
                lemma_same_folder_kept(style, v, up, x);
                assert(holds(style, with_folders_above(style, w, up), x));
            }
        },
        None => {},
    }
}

proof fn lemma_above_of_top(style: PathStyle, s: Seq<char>, k: nat)
    requires
        paths::parent_spec(style, s) is None,
    ensures
        paths::above(style, s, k) == s,
    decreases k,
{
    if k > 0 {
        lemma_above_of_top(style, s, (k - 1) as nat);
    }
}

proof fn lemma_above_from_parent(style: PathStyle, s: Seq<char>, k: nat)
    requires
        k > 0,
        paths::parent_spec(style, s) is Some,
    ensures
        paths::above(style, s, k) == paths::above(style, paths::parent_spec(style, s)->0, (k - 1) as nat),
    decreases k,
{
    if k > 1 {
        lemma_above_from_parent(style, s, (k - 1) as nat);
    } else {
        assert(paths::above(style, s, 0) == s);
    }
}

/// Toggling a folder twice leaves it expanded or collapsed as it was, and no
/// other folder changes.
pub proof fn law_toggle_twice(style: PathStyle, v: Seq<Seq<char>>, p: Seq<char>, q: Seq<char>)
    ensures
        !holds(style, v, p) ==> (holds(style, without_path(style, v.push(p), p), q) <==> holds(style, v, q)),
        holds(style, v, p) ==> !holds(style, without_path(style, v, p), p),
        !paths::same_path_spec(style, p, q) ==> (holds(style, without_path(style, v, p), q) <==> holds(style, v, q)),
{
    lemma_without(style, v, p, q);
    lemma_without(style, v, p, p);
    lemma_without(style, v.push(p), p, q);
    if !holds(style, v, p) {
        assert(v.push(p).drop_last() =~= v);
        lemma_without_absent(style, v, p);
    }
}

proof fn lemma_without(style: PathStyle, v: Seq<Seq<char>>, p: Seq<char>, q: Seq<char>)
    ensures
        holds(style, without_path(style, v, p), q) <==> holds(style, v, q) && !paths::same_path_spec(style, p, q),
    decreases v.len(),
{
    if v.len() > 0 {
        let w = v.drop_last();
        let rest = without_path(style, w, p);
        lemma_without(style, w, p, q);
        assert(v =~= w.push(v.last()));
        lemma_holds_push(style, w, v.last(), q);
        lemma_holds_push(style, rest, v.last(), q);
    }
}

proof fn lemma_without_absent(style: PathStyle, v: Seq<Seq<char>>, p: Seq<char>)
    requires
        !holds(style, v, p),
    ensures
        without_path(style, v, p) == v,
    decreases v.len(),
{
    if v.len() > 0 {
        let w = v.drop_last();
        assert(v =~= w.push(v.last()));
        lemma_holds_push(style, w, v.last(), p);
        lemma_without_absent(style, w, p);
    }
}

proof fn lemma_holds_push(style: PathStyle, v: Seq<Seq<char>>, x: Seq<char>, q: Seq<char>)
    ensures
        holds(style, v.push(x), q) <==> holds(style, v, q) || paths::same_path_spec(style, x, q),
{
    let w = v.push(x);
    if holds(style, v, q) {
        let i = choose|i: int| 0 <= i < v.len() && paths::same_path_spec(style, #[trigger] v[i], q);
        assert(w[i] == v[i]);
    }
    if paths::same_path_spec(style, x, q) {
        assert(w[v.len() as int] == x);
    }
    if holds(style, w, q) {
        let i = choose|i: int| 0 <= i < w.len() && paths::same_path_spec(style, #[trigger] w[i], q);
        if i < v.len() {
            assert(v[i] == w[i]);
        }
    }
}

/// The first row of `p` from the `i`-th on.
pub open spec fn row_of(style: PathStyle, rows: Seq<Seq<char>>, p: Seq<char>, i: int) -> Option<int>
    decreases rows.len() - i,
{
    if i < 0 || i >= rows.len() {
        None
    } else if paths::same_path_spec(style, rows[i], p) {
        Some(i)
    } else {
        row_of(style, rows, p, i + 1)
    }
}

/// A key that moves in the tree.
#[derive(Clone, Copy, PartialEq, Eq, Structural)]
pub enum TreeKey {
    Down,
    Up,
    Home,
    End,
    Right,
    Left,
}

/// What a key does in the tree.
pub enum TreeMove {
    Stay,
    /// Goes to a folder.
    Go(String),
    /// Expands or collapses the folder one is in.
    Expand,
    Collapse,
}

/// What a move comes to, without the text of the path.
pub open spec fn goes_to(m: TreeMove, p: Seq<char>) -> bool {
    m matches TreeMove::Go(q) && q@ == p
}

/// What a key does with the folder `cur` in a tree of these rows: up and down go
/// to the next row, to the first from outside; right expands a folder that has
/// subfolders, and goes on into the first of an expanded one; left collapses an
/// expanded folder, and goes out of a collapsed one.
pub open spec fn moves(sb: Sidebar, rows: Seq<Seq<char>>, key: TreeKey, cur: Seq<char>, m: TreeMove) -> bool {
    let at = row_of(sb.style, rows, cur, 0);
    match key {
        TreeKey::Down => match at {
            Some(i) => goes_to(
                m,
                rows[if i + 1 < rows.len() {
                    i + 1
                } else {
                    rows.len() - 1
                }],
            ),
            None => goes_to(m, rows[0]),
        },
        TreeKey::Up => match at {
            Some(i) => if i > 0 {
                goes_to(m, rows[i - 1])
            } else {
                m is Stay
            },
            None => m is Stay,
        },
        TreeKey::Home => goes_to(m, rows[0]),
        TreeKey::End => goes_to(m, rows.last()),
        TreeKey::Right => match subfolders(sb, cur) {
            Some(cs) => if cs.len() == 0 {
                m is Stay
            } else if is_open(sb, cur) {
                goes_to(m, cs[0])
            } else {
                m is Expand
            },
            None => m is Stay,
        },
        TreeKey::Left => if is_open(sb, cur) {
            m is Collapse
        } else {
            match paths::parent_spec(sb.style, cur) {
                Some(up) => goes_to(m, up),
                None => m is Stay,
            }
        },
    }
}

fn find_row(style: PathStyle, rows: &Vec<String>, p: &str) -> (r: Option<usize>)
    ensures
        match r {
            Some(i) => i < rows@.len() && row_of(style, text::texts(rows@), p@, 0) == Some(i as int),
            None => row_of(style, text::texts(rows@), p@, 0) is None,
        },
{
    let mut i: usize = 0;
    while i < rows.len()
        invariant
            i <= rows@.len(),
            row_of(style, text::texts(rows@), p@, 0) == row_of(style, text::texts(rows@), p@, i as int),
        decreases rows@.len() - i,
    {
        assert(text::texts(rows@)[i as int] == rows@[i as int]@);
        if same_path(style, rows[i].as_str(), p) {
            return Some(i);
        }
        i += 1;
    }
    None
}

/// The name under which a folder is searched for.
pub open spec fn search_name(style: PathStyle, p: Seq<char>) -> Seq<char> {
    text::lower_text(location::name_spec(style, p))
}

/// The first of the rows from `start` on, round the end, whose name starts with
/// the text, `off` rows already passed.
pub open spec fn next_named(style: PathStyle, rows: Seq<Seq<char>>, q: Seq<char>, start: int, off: int) -> Option<int>
    decreases rows.len() - off,
{
    if off < 0 || off >= rows.len() {
        None
    } else {
        let i = (start + off) % (rows.len() as int);
        if q.is_prefix_of(search_name(style, rows[i])) {
            Some(i)
        } else {
            next_named(style, rows, q, start, off + 1)
        }
    }
}

/// Where a search in the tree starts: behind the row of the folder one is in.
pub open spec fn search_start(style: PathStyle, rows: Seq<Seq<char>>, cur: Seq<char>) -> int {
    match row_of(style, rows, cur, 0) {
        Some(i) => i + 1,
        None => 0,
    }
}

impl Sidebar {
    /// What a key does in the tree while one is in the folder `cur`; `None`
    /// where the tree shows nothing.
    pub fn tree_move(&self, key: TreeKey, cur: &str) -> (r: Option<TreeMove>)
        ensures
            match r {
                Some(m) => self.rows().len() > 0 && moves(*self, self.rows(), key, cur@, m),
                None => self.rows().len() == 0,
            },
    {
        let rows = self.visible_nodes();
        let n: usize = rows.len();
        assert(n == self.rows().len());
        assert forall|i: int| 0 <= i < n implies (#[trigger] rows@[i])@ == self.rows()[i] by {
            assert(text::texts(rows@)[i] == rows@[i]@);
        }
        if n == 0 {
            return None;
        }
        Some(
            match key {
                TreeKey::Down => {
                    let i: usize = match find_row(self.style, &rows, cur) {
                        Some(i) => if i + 1 < n {
                            i + 1
                        } else {
                            n - 1
                        },
                        None => 0,
                    };
                    TreeMove::Go(rows[i].clone())
                },
                TreeKey::Up => match find_row(self.style, &rows, cur) {
                    Some(i) => if i > 0 {
                        TreeMove::Go(rows[i - 1].clone())
                    } else {
                        TreeMove::Stay
                    },
                    None => TreeMove::Stay,
                },
                TreeKey::Home => TreeMove::Go(rows[0].clone()),
                TreeKey::End => TreeMove::Go(rows[n - 1].clone()),
                TreeKey::Right => match self.children(cur) {
                    Some(cs) => if cs.len() == 0 {
                        TreeMove::Stay
                    } else if self.is_expanded(cur) {
                        assert(text::texts(cs@)[0] == cs@[0]@);
                        TreeMove::Go(cs[0].clone())
                    } else {
                        TreeMove::Expand
                    },
                    None => TreeMove::Stay,
                },
                TreeKey::Left => if self.is_expanded(cur) {
                    TreeMove::Collapse
                } else {
                    match parent(self.style, cur) {
                        Some(up) => TreeMove::Go(up),
                        None => TreeMove::Stay,
                    }
                },
            },
        )
    }

    /// The next folder behind `cur`, round the end, whose name starts with `q`
    /// without regard to case.
    pub fn search(&self, q: &str, cur: &str) -> (r: Option<String>)
        ensures
            text::opt_text(r) == (match next_named(
                self.style,
                self.rows(),
                q@,
                search_start(self.style, self.rows(), cur@),
                0,
            ) {
                Some(i) => Some(self.rows()[i]),
                None => None,
            }),
    {
        let rows = self.visible_nodes();
        let n: usize = rows.len();
        if n == 0 {
            return None;
        }
        let start: usize = match find_row(self.style, &rows, cur) {
            Some(i) => i + 1,
            None => 0,
        };
        let qs = chars_of(q);
        assert(qs@.subrange(0, qs@.len() as int) =~= qs@);
        let mut i: usize = if start < n {
            start
        } else {
            0
        };
        let mut off: usize = 0;
        proof {
            if start < n {
                vstd::arithmetic::div_mod::lemma_small_mod(start as nat, n as nat);
            } else {
                vstd::arithmetic::div_mod::lemma_mod_self_0(n as int);
            }
        }
        while off < n
            invariant
                off <= n,
                n == rows@.len(),
                n > 0,
                text::texts(rows@) == self.rows(),
                start <= n,
                start == search_start(self.style, self.rows(), cur@),
                off < n ==> i == (start + off) % (n as int),
                i < n,
                qs@ == q@,
                qs@.subrange(0, qs@.len() as int) == qs@,
                next_named(self.style, self.rows(), q@, start as int, 0) == next_named(
                    self.style,
                    self.rows(),
                    q@,
                    start as int,
                    off as int,
                ),
            decreases n - off,
        {
            assert(text::texts(rows@)[i as int] == rows@[i as int]@);
            let low = chars_of(to_lower_text(name_of(self.style, rows[i].as_str()).as_str()).as_str());
            if qs.len() <= low.len() && same_range(&low, 0, qs.len(), &qs, 0, qs.len()) {
                return Some(rows[i].clone());
            }
            off += 1;
            i = if i + 1 < n {
                i + 1
            } else {
                0
            };
            proof {
                lemma_round(start as int, off as int, n as int, i as int);
            }
        }
        None
    }
}

proof fn lemma_round(start: int, off: int, n: int, i: int)
    requires
        0 <= start <= n,
        0 < off,
        off <= n,
        i == (if (start + off - 1) % n + 1 < n {
            (start + off - 1) % n + 1
        } else {
            0
        }),
        n > 0,
    ensures
        i == (start + off) % n,
{
    let a = start + off - 1;
    if a < n {
        vstd::arithmetic::div_mod::lemma_small_mod(a as nat, n as nat);
    } else {
        assert(a % n == a - n) by {
            vstd::arithmetic::div_mod::lemma_fundamental_div_mod_converse(a, n, 1, a - n);
        }
    }
    if start + off < n {
        vstd::arithmetic::div_mod::lemma_small_mod((start + off) as nat, n as nat);
    } else if start + off < 2 * n {
        vstd::arithmetic::div_mod::lemma_fundamental_div_mod_converse(start + off, n, 1, start + off - n);
    } else {
        vstd::arithmetic::div_mod::lemma_fundamental_div_mod_converse(start + off, n, 2, 0);
    }
}

/// The roots of the drives whose bits are set in `mask`, from the `i`-th letter
/// on.
pub open spec fn drives_from(mask: u32, i: nat) -> Seq<Seq<char>>
    decreases 26 - i,
{
    if i >= 26 {
        Seq::empty()
    } else {
        let rest = drives_from(mask, i + 1);
        if (mask as nat) / vstd::arithmetic::power2::pow2(i) % 2 == 1 {
            seq![seq![(65 + i) as char, ':', '\\']] + rest
        } else {
            rest
        }
    }
}

/// The roots of the drives whose bits are set: A the lowest bit, and so on.
pub fn drive_roots(mask: u32) -> (r: Vec<String>)
    ensures
        text::texts(r@) == drives_from(mask, 0),
{
    let letters = chars_of("ABCDEFGHIJKLMNOPQRSTUVWXYZ");
    proof {
        reveal_strlit("ABCDEFGHIJKLMNOPQRSTUVWXYZ");
        vstd::arithmetic::power2::lemma2_to64();
    }
    let mut out: Vec<String> = Vec::new();
    let mut rest: u32 = mask;
    let mut i: usize = 0;
    assert(text::texts(out@) + drives_from(mask, 0) =~= drives_from(mask, 0));
    while i < 26
        invariant
            i <= 26,
            letters@.len() == 26,
            forall|k: int| 0 <= k < 26 ==> #[trigger] letters@[k] as int == 65 + k,
            rest as nat == (mask as nat) / vstd::arithmetic::power2::pow2(i as nat),
            text::texts(out@) + drives_from(mask, i as nat) == drives_from(mask, 0),
        decreases 26 - i,
    {
        let ghost sofar = text::texts(out@);
        if rest % 2 == 1 {
            let mut s = String::new();
            s.push(letters[i]);
            s.push(':');
            s.push('\\');
            assert(s@ =~= seq![(65 + i) as char, ':', '\\']);
            out.push(s);
            assert(text::texts(out@) =~= sofar.push(s@));
            assert(sofar.push(s@) + drives_from(mask, (i + 1) as nat) =~= sofar + (seq![s@] + drives_from(
                mask,
                (i + 1) as nat,
            )));
        }
        proof {
            vstd::arithmetic::power2::lemma_pow2_unfold((i + 1) as nat);
            vstd::arithmetic::power2::lemma_pow2_pos(i as nat);
            vstd::arithmetic::div_mod::lemma_div_denominator(
                mask as int,
                vstd::arithmetic::power2::pow2(i as nat) as int,
                2,
            );
            assert(vstd::arithmetic::power2::pow2((i + 1) as nat) == vstd::arithmetic::power2::pow2(i as nat) * 2)
                by (nonlinear_arith)
                requires
                    vstd::arithmetic::power2::pow2((i + 1) as nat) == 2 * vstd::arithmetic::power2::pow2(i as nat),
            ;
        }
        rest = rest / 2;
        i += 1;
    }
    assert(text::texts(out@) =~= drives_from(mask, 0));
    out
}

/// What the space of a volume is asked with: a folder on it, with the separator
/// that the root of a share needs.
pub open spec fn space_query_spec(style: PathStyle, p: Seq<char>) -> Seq<char> {
    if paths::file_name_spec(style, p) is None && !(p.len() > 0 && p.last() == '\\') {
        p.push('\\')
    } else {
        p
    }
}

/// What the space of the volume of `p` is asked with.
pub fn space_query(style: PathStyle, p: &str) -> (r: String)
    ensures
        r@ == space_query_spec(style, p@),
{
    let mut out = p.to_owned();
    if file_name(style, p).is_none() {
        let n: usize = p.unicode_len();
        let slash = n > 0 && p.get_char(n - 1) == '\\';
        if !slash {
            out.push('\\');
        }
    }
    out
}

/// What stands below the shown subfolders of a folder that has more.
pub open spec fn more_line(n: nat) -> Option<Seq<char>> {
    if n > MAX_CHILDREN {
        Some("… "@ + labels::dec((n - MAX_CHILDREN) as nat) + " more — open in the list"@)
    } else {
        None
    }
}

/// What stands below the shown subfolders of a folder that has `n`.
pub fn more_note(n: usize) -> (r: Option<String>)
    ensures
        text::opt_text(r) == more_line(n as nat),
{
    if n > MAX_CHILDREN {
        Some(cat3("… ", decimal((n - MAX_CHILDREN) as u64).as_str(), " more — open in the list"))
    } else {
        None
    }
}

/// How many subfolders the menu beside a breadcrumb lists.
pub const MENU_CHILDREN: usize = 200;

/// What stands at the end of such a menu for a folder that has more.
pub open spec fn menu_more_line(n: nat) -> Option<Seq<char>> {
    if n > MENU_CHILDREN {
        Some("… "@ + labels::dec((n - MENU_CHILDREN) as nat) + " more"@)
    } else {
        None
    }
}

/// What stands at the end of the menu beside a breadcrumb for a folder that has
/// `n` subfolders.
pub fn menu_more(n: usize) -> (r: Option<String>)
    ensures
        text::opt_text(r) == menu_more_line(n as nat),
{
    if n > MENU_CHILDREN {
        Some(cat3("… ", decimal((n - MENU_CHILDREN) as u64).as_str(), " more"))
    } else {
        None
    }
}

/// A folder moved in the tree: it is expanded under its new path where it was
/// under the old one.
pub open spec fn branch_moved(s: Sidebar, t: Sidebar, from: Seq<char>, to: Seq<char>) -> bool {
    let v = text::texts(s.expanded@);
    &&& t == (Sidebar { expanded: t.expanded, ..s })
    &&& text::texts(t.expanded@) == (if holds(s.style, v, from) {
        with_path(s.style, without_path(s.style, v, from), to)
    } else {
        v
    })
}

impl Sidebar {
    /// A folder has another path now: it stays expanded if it was.
    pub fn move_branch(&mut self, from: &str, to: &str)
        ensures
            branch_moved(*old(self), *final(self), from@, to@),
    {
        if self.collapse(from) {
            self.expand(to);
        } else {
            proof {
                lemma_without_absent(self.style, text::texts(old(self).expanded@), from@);
            }
        }
    }
}

/// The folders that the tree shows of a listing: those that are no links, and
/// hidden ones only where they are asked for; each the name in the folder.
pub proof fn law_tree_shows_folders_alone(style: PathStyle, p: Seq<char>, es: Seq<Entry>, show_hidden: bool)
    ensures
        forall|x: Seq<char>| #[trigger]
            subfolder_paths(style, p, es, show_hidden).contains(x) <==> exists|i: int|
                0 <= i < es.len() && es[i].is_dir && !es[i].is_symlink && (show_hidden || !es[i].is_hidden) && x
                    == paths::join_spec(style, p, (#[trigger] es[i]).name@),
    decreases es.len(),
{
    let b = subfolder_paths(style, p, es, show_hidden);
    if es.len() > 0 {
        let rest = es.drop_last();
        law_tree_shows_folders_alone(style, p, rest, show_hidden);
        let a = subfolder_paths(style, p, rest, show_hidden);
        let e = es.last();
        assert forall|x: Seq<char>| #[trigger] b.contains(x) <==> exists|i: int|
            0 <= i < es.len() && es[i].is_dir && !es[i].is_symlink && (show_hidden || !es[i].is_hidden) && x
                == paths::join_spec(style, p, (#[trigger] es[i]).name@) by {
            if a.contains(x) {
                let j = choose|j: int| 0 <= j < a.len() && a[j] == x;
                assert(b[j] == x);
                let i = choose|i: int|
                    0 <= i < rest.len() && rest[i].is_dir && !rest[i].is_symlink && (show_hidden || !rest[i].is_hidden) && x
                        == paths::join_spec(style, p, (#[trigger] rest[i]).name@);
                assert(es[i] == rest[i]);
            }
            if e.is_dir && !e.is_symlink && (show_hidden || !e.is_hidden) {
                assert(b[b.len() - 1] == paths::join_spec(style, p, e.name@));
            }
            if b.contains(x) {
                let j = choose|j: int| 0 <= j < b.len() && b[j] == x;
                if j < a.len() {
                    assert(a[j] == x);
                } else {
                    assert(es[es.len() - 1] == e);
                }
            }
            if exists|i: int|
                0 <= i < es.len() && es[i].is_dir && !es[i].is_symlink && (show_hidden || !es[i].is_hidden) && x
                    == paths::join_spec(style, p, (#[trigger] es[i]).name@) {
                let i = choose|i: int|
                    0 <= i < es.len() && es[i].is_dir && !es[i].is_symlink && (show_hidden || !es[i].is_hidden) && x
                        == paths::join_spec(style, p, (#[trigger] es[i]).name@);
                if i < rest.len() {
                    assert(rest[i] == es[i]);
                    assert(a.contains(x));
                }
            }
        }
    }
}

/// A pinned folder stands in quick access once it is pinned, and is pinned no more
/// once it is unpinned; no other pin changes either way.
pub proof fn law_pins(v: Seq<Seq<char>>, p: Seq<char>, q: Seq<char>)
    ensures
        same_as_one(v.push(p), p),
        !same_as_one(without_pin(v, p), p),
        location::cache_key(p) != location::cache_key(q) ==> (same_as_one(without_pin(v, p), q) <==> same_as_one(v, q)),
        location::cache_key(p) != location::cache_key(q) ==> (same_as_one(v.push(p), q) <==> same_as_one(v, q)),
    decreases v.len(),
{
    let w = v.push(p);
    assert(w[v.len() as int] == p);
    if same_as_one(v, q) {
        let i = choose|i: int| 0 <= i < v.len() && location::cache_key(#[trigger] v[i]) == location::cache_key(q);
        assert(w[i] == v[i]);
    }
    if same_as_one(w, q) && location::cache_key(p) != location::cache_key(q) {
        let i = choose|i: int| 0 <= i < w.len() && location::cache_key(#[trigger] w[i]) == location::cache_key(q);
        assert(v[i] == w[i]);
    }
    if v.len() > 0 {
        let rest = v.drop_last();
        law_pins(rest, p, q);
        let (a, b) = (without_pin(rest, p), without_pin(v, p));
        if location::cache_key(v.last()) != location::cache_key(p) {
            assert(b == a.push(v.last()));
            assert forall|x: Seq<char>| same_as_one(b, x) <==> same_as_one(a, x) || location::cache_key(v.last())
                == location::cache_key(x) by {
                lemma_one_more(a, v.last(), x);
            }
        }
        lemma_one_more(rest, v.last(), q);
        assert(rest.push(v.last()) =~= v);
    }
}

proof fn lemma_one_more(v: Seq<Seq<char>>, p: Seq<char>, x: Seq<char>)
    ensures
        same_as_one(v.push(p), x) <==> same_as_one(v, x) || location::cache_key(p) == location::cache_key(x),
{
    let w = v.push(p);
    assert(w[v.len() as int] == p);
    if same_as_one(v, x) {
        let i = choose|i: int| 0 <= i < v.len() && location::cache_key(#[trigger] v[i]) == location::cache_key(x);
        assert(w[i] == v[i]);
    }
    if same_as_one(w, x) {
        let i = choose|i: int| 0 <= i < w.len() && location::cache_key(#[trigger] w[i]) == location::cache_key(x);
        if i < v.len() {
            assert(v[i] == w[i]);
        }
    }
}

/// Quick access starts with the known folders in their order, holds every pin, and
/// nothing else.
pub proof fn law_quick_access(known: Seq<Seq<char>>, pins: Seq<Seq<char>>, k: int)
    requires
        0 <= k <= pins.len(),
    ensures
        known.is_prefix_of(quick_folders(known, pins, k)),
        forall|i: int| 0 <= i < k ==> same_as_one(quick_folders(known, pins, k), #[trigger] pins[i]),
        forall|j: int|
            0 <= j < quick_folders(known, pins, k).len() ==> known.contains(#[trigger] quick_folders(known, pins, k)[j])
                || pins.contains(quick_folders(known, pins, k)[j]),
    decreases k,
{
    let b = quick_folders(known, pins, k);
    if k > 0 {
        law_quick_access(known, pins, k - 1);
        let a = quick_folders(known, pins, k - 1);
        assert(b.subrange(0, known.len() as int) =~= a.subrange(0, known.len() as int));
        assert forall|i: int| 0 <= i < k implies same_as_one(b, #[trigger] pins[i]) by {
            lemma_one_more(a, pins[k - 1], pins[i]);
        }
        assert forall|j: int| 0 <= j < b.len() implies known.contains(#[trigger] b[j]) || pins.contains(b[j]) by {
            if j < a.len() {
                assert(b[j] == a[j]);
            } else {
                assert(pins[k - 1] == b[j]);
            }
        }
    } else {
        assert(known.subrange(0, known.len() as int) =~= known);
        assert forall|j: int| 0 <= j < b.len() implies known.contains(#[trigger] b[j]) || pins.contains(b[j]) by {
            assert(known[j] == b[j]);
        }
    }
}

/// The tree shows up to four hundred subfolders of a folder and says how many more
/// there are.
pub proof fn law_long_folders_are_cut(n: nat)
    ensures
        n <= 400 ==> shown_count(n) == n && more_line(n) is None,
        n > 400 ==> shown_count(n) == 400 && more_line(n) == Some(
            "… "@ + labels::dec((n - 400) as nat) + " more — open in the list"@,
        ),
        n <= 200 ==> menu_more_line(n) is None,
        n > 200 ==> menu_more_line(n) == Some("… "@ + labels::dec((n - 200) as nat) + " more"@),
{
}

proof fn lemma_row_of(style: PathStyle, rows: Seq<Seq<char>>, p: Seq<char>, i: int, at: int)
    requires
        0 <= i <= at < rows.len(),
        paths::same_path_spec(style, rows[at], p),
        forall|k: int| i <= k < at ==> !paths::same_path_spec(style, #[trigger] rows[k], p),
    ensures
        row_of(style, rows, p, i) == Some(at),
    decreases at - i,
{
    if i < at {
        lemma_row_of(style, rows, p, i + 1, at);
    }
}

/// The arrows in the tree: with the folder one is in first shown in row `at`, Down
/// goes to the row below and Up to the row above as far as there is one, Home and
/// End to the first and the last; Right expands a collapsed folder that has
/// subfolders and goes to the first of an expanded one, Left collapses an expanded
/// one and goes to the parent of a collapsed one.
pub proof fn law_tree_keys(sb: Sidebar, rows: Seq<Seq<char>>, key: TreeKey, cur: Seq<char>, m: TreeMove, at: int)
    requires
        moves(sb, rows, key, cur, m),
        0 <= at < rows.len(),
        rows[at] == cur,
        forall|k: int| 0 <= k < at ==> !paths::same_path_spec(sb.style, #[trigger] rows[k], cur),
    ensures
        key == TreeKey::Down && at + 1 < rows.len() ==> (m matches TreeMove::Go(q) && q@ == rows[at + 1]),
        key == TreeKey::Up && at > 0 ==> (m matches TreeMove::Go(q) && q@ == rows[at - 1]),
        key == TreeKey::Up && at == 0 ==> m is Stay,
        key == TreeKey::Home ==> (m matches TreeMove::Go(q) && q@ == rows[0]),
        key == TreeKey::End ==> (m matches TreeMove::Go(q) && q@ == rows[rows.len() - 1]),
        key == TreeKey::Right ==> (m is Expand <==> subfolders(sb, cur) is Some && subfolders(sb, cur)->0.len() > 0
            && !is_open(sb, cur)),
        key == TreeKey::Right && is_open(sb, cur) && subfolders(sb, cur) is Some && subfolders(sb, cur)->0.len() > 0 ==> (
        m matches TreeMove::Go(q) && q@ == subfolders(sb, cur)->0[0]),
        key == TreeKey::Left ==> (m is Collapse <==> is_open(sb, cur)),
        key == TreeKey::Left && !is_open(sb, cur) && paths::parent_spec(sb.style, cur) is Some ==> (m matches TreeMove::Go(q)
            && q@ == paths::parent_spec(sb.style, cur)->0),
{
    lemma_row_of(sb.style, rows, cur, 0, at);
}

proof fn lemma_drives_in_order(mask: u32, i: nat)
    requires
        i <= 26,
    ensures
        forall|m: int|
            0 <= m < drives_from(mask, i).len() ==> {
                let p = #[trigger] drives_from(mask, i)[m];
                p.len() == 3 && 65 + i <= p[0] as int && p[0] as int <= 90 && p[1] == ':' && p[2] == '\\'
            },
        forall|m: int, n: int|
            0 <= m < n < drives_from(mask, i).len() ==> ((#[trigger] drives_from(mask, i)[m])[0] as int) < (
            #[trigger] drives_from(mask, i)[n])[0] as int,
    decreases 26 - i,
{
    if i < 26 {
        lemma_drives_in_order(mask, i + 1);
        let rest = drives_from(mask, i + 1);
        let now = drives_from(mask, i);
        let first = seq![(65 + i) as char, ':', '\\'];
        if (mask as nat) / vstd::arithmetic::power2::pow2(i) % 2 == 1 {
            assert(now == seq![first] + rest);
            assert forall|m: int| 0 <= m < now.len() implies {
                let p = #[trigger] now[m];
                p.len() == 3 && 65 + i <= p[0] as int && p[0] as int <= 90 && p[1] == ':' && p[2] == '\\'
            } by {
                if m > 0 {
                    assert(now[m] == rest[m - 1]);
                }
            }
            assert forall|m: int, n: int| 0 <= m < n < now.len() implies ((#[trigger] now[m])[0] as int) < (
            #[trigger] now[n])[0] as int by {
                assert(now[n] == rest[n - 1]);
                if m > 0 {
                    assert(now[m] == rest[m - 1]);
                }
            }
        }
    }
}

proof fn lemma_drive_by_its_bit(mask: u32, i: nat, k: u32)
    requires
        i <= k < 26,
    ensures
        drives_from(mask, i).contains(seq![(65 + k) as char, ':', '\\']) <==> (mask as nat)
            / vstd::arithmetic::power2::pow2(k as nat) % 2 == 1,
    decreases 26 - i,
{
    let now = drives_from(mask, i);
    let rest = drives_from(mask, i + 1);
    let first = seq![(65 + i) as char, ':', '\\'];
    let p = seq![(65 + k) as char, ':', '\\'];
    lemma_drives_in_order(mask, i + 1);
    if k == i {
        assert(p =~= first);
        if (mask as nat) / vstd::arithmetic::power2::pow2(i) % 2 == 1 {
            assert(now[0] == first);
        } else if now.contains(p) {
            assert(now[now.index_of(p)][0] as int == 65 + i);
        }
    } else {
        lemma_drive_by_its_bit(mask, i + 1, k);
        assert(p[0] != first[0]);
        if (mask as nat) / vstd::arithmetic::power2::pow2(i) % 2 == 1 {
            assert(now == seq![first] + rest);
            if now.contains(p) {
                let m = now.index_of(p);
                assert(rest[m - 1] == p);
            }
            if rest.contains(p) {
                assert(now[rest.index_of(p) + 1] == p);
            }
        }
    }
}

/// A drive is shown exactly where its bit is set, A for the lowest bit and Z for
/// the twenty-sixth, by its letter, a colon and a backslash, and in the order of
/// the letters.
pub proof fn law_drives_by_their_bits(mask: u32, k: u32)
    requires
        k < 26,
    ensures
        drives_from(mask, 0).contains(seq![(65 + k) as char, ':', '\\']) <==> (mask >> k) & 1 == 1,
        forall|m: int|
            0 <= m < drives_from(mask, 0).len() ==> {
                let p = #[trigger] drives_from(mask, 0)[m];
                p.len() == 3 && 'A' <= p[0] && p[0] <= 'Z' && p[1] == ':' && p[2] == '\\'
            },
        forall|m: int, n: int|
            0 <= m < n < drives_from(mask, 0).len() ==> (#[trigger] drives_from(mask, 0)[m])[0] < (
            #[trigger] drives_from(mask, 0)[n])[0],
{
    lemma_drives_in_order(mask, 0);
    lemma_drive_by_its_bit(mask, 0, k);
    vstd::bits::lemma_u32_shr_is_div(mask, k);
    let x: u32 = mask >> k;
    assert(x & 1 == x % 2) by (bit_vector);
}

/// A search in the tree finds a folder exactly where one's name starts with the
/// text, without regard to case.
pub proof fn law_search_finds_a_folder(style: PathStyle, rows: Seq<Seq<char>>, q: Seq<char>, start: int)
    requires
        0 <= start,
    ensures
        next_named(style, rows, q, start, 0) is Some ==> {
            let i = next_named(style, rows, q, start, 0)->0;
            0 <= i < rows.len() && q.is_prefix_of(text::lower_text(location::name_spec(style, rows[i])))
        },
        next_named(style, rows, q, start, 0) is None ==> forall|i: int|
            0 <= i < rows.len() ==> !q.is_prefix_of(text::lower_text(location::name_spec(style, #[trigger] rows[i]))),
        start < rows.len() && q.is_prefix_of(text::lower_text(location::name_spec(style, rows[start]))) ==> next_named(
            style,
            rows,
            q,
            start,
            0,
        ) == Some(start),
{
    let n = rows.len() as int;
    lemma_next_named(style, rows, q, start, 0);
    if next_named(style, rows, q, start, 0) is None {
        assert forall|i: int| 0 <= i < n implies !q.is_prefix_of(
            text::lower_text(location::name_spec(style, #[trigger] rows[i])),
        ) by {
            let m = (i - start) % n;
            vstd::arithmetic::div_mod::lemma_mod_bound(i - start, n);
            assert(0 <= m < n);
            vstd::arithmetic::div_mod::lemma_add_mod_noop_right(start, i - start, n);
            assert((start + m) % n == i % n);
            vstd::arithmetic::div_mod::lemma_small_mod(i as nat, n as nat);
            assert(crate::pane::wrapped(start, m, n) == i);
        }
    }
    if start < n {
        vstd::arithmetic::div_mod::lemma_small_mod(start as nat, n as nat);
    }
}

proof fn lemma_next_named(style: PathStyle, rows: Seq<Seq<char>>, q: Seq<char>, start: int, off: int)
    requires
        0 <= start,
        0 <= off,
    ensures
        next_named(style, rows, q, start, off) is Some ==> {
            let i = next_named(style, rows, q, start, off)->0;
            0 <= i < rows.len() && q.is_prefix_of(search_name(style, rows[i]))
        },
        next_named(style, rows, q, start, off) is None ==> forall|m: int|
            off <= m < rows.len() ==> !q.is_prefix_of(
                search_name(style, rows[#[trigger] crate::pane::wrapped(start, m, rows.len() as int)]),
            ),
    decreases rows.len() - off,
{
    if off < rows.len() {
        vstd::arithmetic::div_mod::lemma_mod_bound(start + off, rows.len() as int);
        lemma_next_named(style, rows, q, start, off + 1);
    }
}

/// A folder that gets another path is expanded there where it was expanded before,
/// and no other folder changes.
pub proof fn law_moved_folder_stays_expanded(s: Sidebar, t: Sidebar, from: Seq<char>, to: Seq<char>, q: Seq<char>)
    requires
        branch_moved(s, t, from, to),
    ensures
        holds(s.style, text::texts(s.expanded@), from) ==> holds(s.style, text::texts(t.expanded@), to),
        !holds(s.style, text::texts(s.expanded@), from) ==> text::texts(t.expanded@) == text::texts(s.expanded@),
        holds(s.style, text::texts(s.expanded@), from) && !paths::same_path_spec(s.style, from, to) ==> !holds(
            s.style,
            text::texts(t.expanded@),
            from,
        ),
        !paths::same_path_spec(s.style, from, q) && !paths::same_path_spec(s.style, to, q) ==> (holds(
            s.style,
            text::texts(t.expanded@),
            q,
        ) <==> holds(s.style, text::texts(s.expanded@), q)),
{
    let v = text::texts(s.expanded@);
    let w = without_path(s.style, v, from);
    lemma_without(s.style, v, from, from);
    lemma_without(s.style, v, from, q);
    lemma_without(s.style, v, from, to);
    lemma_holds_push(s.style, w, to, from);
    lemma_holds_push(s.style, w, to, q);
    lemma_holds_push(s.style, w, to, to);
}

/// The space of a volume is asked of the path itself where it ends in a name, and
/// of its root with a backslash at its end, one.
pub proof fn law_space_is_asked_with_a_backslash(style: PathStyle, p: Seq<char>)
    ensures
        paths::file_name_spec(style, p) is Some ==> space_query_spec(style, p) == p,
        paths::file_name_spec(style, p) is None ==> space_query_spec(style, p).last() == '\\',
        p.len() > 0 && p.last() == '\\' ==> space_query_spec(style, p) == p,
        space_query_spec(style, p) == p || space_query_spec(style, p) == p + seq!['\\'],
{
    assert(p.push('\\') =~= p + seq!['\\']);
}

/// A search starts at a row, or behind the last.
pub proof fn lemma_search_starts(style: PathStyle, rows: Seq<Seq<char>>, cur: Seq<char>)
    ensures
        0 <= search_start(style, rows, cur) <= rows.len(),
{
    lemma_row_in_range(style, rows, cur, 0);
}

proof fn lemma_row_in_range(style: PathStyle, rows: Seq<Seq<char>>, p: Seq<char>, i: int)
    ensures
        row_of(style, rows, p, i) is Some ==> 0 <= row_of(style, rows, p, i)->0 < rows.len(),
    decreases rows.len() - i,
{
    if 0 <= i < rows.len() && !paths::same_path_spec(style, rows[i], p) {
        lemma_row_in_range(style, rows, p, i + 1);
    }
}

/// A search in the tree goes on below the folder one is in: the first folder below
/// it whose name starts with the text is found.
pub proof fn law_search_goes_on_below(style: PathStyle, rows: Seq<Seq<char>>, q: Seq<char>, cur: Seq<char>, at: int, j: int)
    requires
        0 <= at < j < rows.len(),
        paths::same_path_spec(style, rows[at], cur),
        forall|k: int| 0 <= k < at ==> !paths::same_path_spec(style, #[trigger] rows[k], cur),
        q.is_prefix_of(text::lower_text(location::name_spec(style, rows[j]))),
        forall|k: int| at < k < j ==> !q.is_prefix_of(text::lower_text(location::name_spec(style, #[trigger] rows[k]))),
    ensures
        next_named(style, rows, q, search_start(style, rows, cur), 0) == Some(j),
{
    lemma_row_of(style, rows, cur, 0, at);
    lemma_named_at(style, rows, q, at + 1, 0, j);
}

proof fn lemma_named_at(style: PathStyle, rows: Seq<Seq<char>>, q: Seq<char>, start: int, off: int, j: int)
    requires
        0 <= start,
        0 <= off,
        start + off <= j < rows.len(),
        q.is_prefix_of(search_name(style, rows[j])),
        forall|k: int| start + off <= k < j ==> !q.is_prefix_of(search_name(style, #[trigger] rows[k])),
    ensures
        next_named(style, rows, q, start, off) == Some(j),
    decreases j - off,
{
    vstd::arithmetic::div_mod::lemma_small_mod((start + off) as nat, rows.len());
    if start + off < j {
        assert(!q.is_prefix_of(search_name(style, rows[start + off])));
        lemma_named_at(style, rows, q, start, off + 1, j);
    }
}

} // verus!
