//! The blocks of the city: which nodes take up space and in what order, which
//! tiles become blocks, their colors, and what is said of them.
//!
//! Where tiles go is computed elsewhere, in floating point; here is what that
//! rests on.
use vstd::prelude::*;
use crate::city::{City, Scan};
use crate::filetype::{self, categorize_in, FileCategory};
use crate::labels::{self, commas, human_size};
use crate::location::{self, joined_path};
use crate::order::{self, Rows};
use crate::paths::{self, join, same_path, PathStyle};
use crate::text::cat3;
use crate::tree::{self, Node, NodeId, NodeKind, Tree};
use crate::walk::{Progress, ScanStats};

verus! {

/// The sizes of all nodes.
pub open spec fn node_sizes(ns: Seq<Node>) -> Seq<u64> {
    ns.map_values(|n: Node| n.subtree_size)
}

/// Those of the first `k` nodes that are among the first `cutoff` of the tree and
/// take up space.
pub open spec fn occupying(ids: Seq<NodeId>, w: Seq<u64>, cutoff: int, k: int) -> Seq<NodeId>
    decreases k,
{
    if k <= 0 {
        Seq::empty()
    } else {
        let rest = occupying(ids, w, cutoff, k - 1);
        let id = ids[k - 1];
        if id.at() < cutoff && w[id.at()] > 0 {
            rest.push(id)
        } else {
            rest
        }
    }
}

/// Nodes stand largest first, those of one size as they stood.
pub open spec fn largest_first(v: Seq<NodeId>, w: Seq<u64>, p: Seq<usize>) -> bool {
    &&& p.len() == v.len()
    &&& forall|i: int| 0 <= i < p.len() ==> (#[trigger] p[i]) < v.len()
    &&& forall|i: int, j: int|
        0 <= i < j < p.len() ==> {
            let (x, y) = ((#[trigger] p[i]) as int, (#[trigger] p[j]) as int);
            w[v[x].at()] > w[v[y].at()] || (w[v[x].at()] == w[v[y].at()] && x < y)
        }
}

/// `r` is `v` largest first.
pub open spec fn ranked(v: Seq<NodeId>, w: Seq<u64>, r: Seq<NodeId>) -> bool {
    exists|p: Seq<usize>| #[trigger] largest_first(v, w, p) && r == p.map_values(|i: usize| v[i as int])
}

proof fn lemma_size_key(a: u64, b: u64)
    ensures
        order::lex_less(seq![a as int], seq![b as int]) <==> a < b,
{
    let x = seq![a as int];
    let y = seq![b as int];
    reveal_with_fuel(order::lex_less, 2);
    assert(x.drop_first() =~= Seq::<int>::empty());
    assert(y.drop_first() =~= Seq::<int>::empty());
}

fn rank(ids: &Vec<NodeId>, weights: &Vec<u64>, w: Ghost<Seq<u64>>) -> (r: Vec<NodeId>)
    requires
        ids@.len() == weights@.len(),
        forall|i: int| 0 <= i < ids@.len() ==> (#[trigger] weights@[i]) == w@[ids@[i].at()],
    ensures
        ranked(ids@, w@, r@),
{
    let mut rows = Rows { ahead: Vec::new(), keys: Vec::new(), ascending: false };
    let mut i: usize = 0;
    while i < ids.len()
        invariant
            i <= ids@.len(),
            ids@.len() == weights@.len(),
            rows.ahead@.len() == i,
            rows.keys@.len() == i,
            !rows.ascending,
            forall|k: int| 0 <= k < i ==> !(#[trigger] rows.ahead@[k]),
            forall|k: int| 0 <= k < i ==> rows.key(k) == seq![(#[trigger] weights@[k]) as int],
        decreases ids@.len() - i,
    {
        let ghost before = rows;
        let mut key: Vec<i128> = Vec::new();
        key.push(weights[i] as i128);
        assert(order::ints(key@) =~= seq![weights@[i as int] as int]);
        rows.ahead.push(false);
        rows.keys.push(key);
        proof {
            assert forall|k: int| 0 <= k < i + 1 implies rows.key(k) == seq![(#[trigger] weights@[k]) as int] by {
                if k < i {
                    assert(rows.keys@[k] == before.keys@[k]);
                    assert(before.key(k) == seq![weights@[k] as int]);
                }
            }
        }
        i += 1;
    }
    let p = rows.sorted();
    let mut out: Vec<NodeId> = Vec::new();
    let mut j: usize = 0;
    while j < p.len()
        invariant
            j <= p@.len(),
            p@.len() == ids@.len(),
            forall|k: int| 0 <= k < p@.len() ==> (#[trigger] p@[k]) < ids@.len(),
            out@.len() == j,
            forall|k: int| 0 <= k < j ==> (#[trigger] out@[k]) == ids@[p@[k] as int],
        decreases p@.len() - j,
    {
        out.push(ids[p[j]]);
        j += 1;
    }
    proof {
        assert forall|a: int, b: int| 0 <= a < b < p@.len() implies ({
            let (x, y) = ((#[trigger] p@[a]) as int, (#[trigger] p@[b]) as int);
            w@[ids@[x].at()] > w@[ids@[y].at()] || (w@[ids@[x].at()] == w@[ids@[y].at()] && x < y)
        }) by {
            let (x, y) = (p@[a] as int, p@[b] as int);
            assert(rows.before(x, y));
            assert(!rows.ahead@[x] && !rows.ahead@[y]);
            assert(weights@[x] == w@[ids@[x].at()] && weights@[y] == w@[ids@[y].at()]);
            lemma_size_key(weights@[x], weights@[y]);
            lemma_size_key(weights@[y], weights@[x]);
        }
        assert(largest_first(ids@, w@, p@));
        assert(out@ =~= p@.map_values(|i: usize| ids@[i as int]));
    }
    out
}

/// The children of a node that take up space, largest first.
pub fn ranked_children(t: &Tree, id: NodeId) -> (r: Vec<NodeId>)
    requires
        t.wf(),
        id.at() < t@.len(),
    ensures
        ranked(
            occupying(
                t@[id.at()].children@,
                node_sizes(t@),
                t@.len() as int,
                t@[id.at()].children@.len() as int,
            ),
            node_sizes(t@),
            r@,
        ),
        tree::sizes_live(t@) ==> draws_every_weight(t@, id, t@.len() as int, r@),
{
    let kids = t.children(id);
    proof {
        tree::lemma_children_exist(t@, id.at());
    }
    let ghost w = node_sizes(t@);
    let mut ids: Vec<NodeId> = Vec::new();
    let mut weights: Vec<u64> = Vec::new();
    let mut k: usize = 0;
    while k < kids.len()
        invariant
            t.wf(),
            k <= kids@.len(),
            w == node_sizes(t@),
            forall|i: int| 0 <= i < kids@.len() ==> (#[trigger] kids@[i]).at() < t@.len(),
            ids@ == occupying(kids@, w, t@.len() as int, k as int),
            ids@.len() == weights@.len(),
            forall|i: int| 0 <= i < ids@.len() ==> (#[trigger] weights@[i]) == w[ids@[i].at()],
        decreases kids@.len() - k,
    {
        let size: u64 = t.node(kids[k]).subtree_size;
        assert(w[kids@[k as int].at()] == size);
        if size > 0 {
            ids.push(kids[k]);
            weights.push(size);
        }
        k += 1;
    }
    let out = rank(&ids, &weights, Ghost(w));
    proof {
        if tree::sizes_live(t@) {
            law_every_child_with_bytes_is_drawn(t@, id, out@);
        }
    }
    out
}

/// The children of a node that took up space when the tree had its first `cutoff`
/// nodes, with the sizes they had then, largest first.
pub fn ranked_children_before(t: &Tree, id: NodeId, cutoff: usize, sizes: &Vec<u64>) -> (r: Vec<NodeId>)
    requires
        t.wf(),
        id.at() < t@.len(),
        sizes@.len() >= cutoff || sizes@.len() >= t@.len(),
    ensures
        ranked(
            occupying(
                t@[id.at()].children@,
                sizes@,
                cutoff as int,
                t@[id.at()].children@.len() as int,
            ),
            sizes@,
            r@,
        ),
{
    let kids = t.children(id);
    proof {
        tree::lemma_children_exist(t@, id.at());
    }
    let mut ids: Vec<NodeId> = Vec::new();
    let mut weights: Vec<u64> = Vec::new();
    let mut k: usize = 0;
    while k < kids.len()
        invariant
            t.wf(),
            k <= kids@.len(),
            sizes@.len() >= cutoff || sizes@.len() >= t@.len(),
            forall|i: int| 0 <= i < kids@.len() ==> (#[trigger] kids@[i]).at() < t@.len(),
            ids@ == occupying(kids@, sizes@, cutoff as int, k as int),
            ids@.len() == weights@.len(),
            forall|i: int| 0 <= i < ids@.len() ==> (#[trigger] weights@[i]) == sizes@[ids@[i].at()],
        decreases kids@.len() - k,
    {
        let i: usize = kids[k].index();
        if i < cutoff && sizes[i] > 0 {
            ids.push(kids[k]);
            weights.push(sizes[i]);
        }
        k += 1;
    }
    rank(&ids, &weights, Ghost(sizes@))
}

/// A tile: the node it is of, and how far below the top it lies.
#[derive(Clone, Copy, Debug, PartialEq, Eq, Structural)]
pub struct Placed {
    pub node: NodeId,
    pub depth: u16,
}

/// A tile is laid for the node.
pub open spec fn is_laid(tiles: Seq<Placed>, id: NodeId) -> bool {
    exists|i: int| 0 <= i < tiles.len() && (#[trigger] tiles[i]).node == id
}

/// A tile becomes a block where it is not the top one and no child of its node
/// has a tile.
pub open spec fn is_block(ns: Seq<Node>, tiles: Seq<Placed>, i: int) -> bool {
    let kids = ns[tiles[i].node.at()].children@;
    tiles[i].depth > 0 && forall|k: int| 0 <= k < kids.len() ==> !is_laid(tiles, #[trigger] kids[k])
}

/// The blocks among the first `k` tiles.
pub open spec fn blocks_among(ns: Seq<Node>, tiles: Seq<Placed>, k: int) -> Seq<usize>
    decreases k,
{
    if k <= 0 {
        Seq::empty()
    } else {
        let rest = blocks_among(ns, tiles, k - 1);
        if is_block(ns, tiles, k - 1) {
            rest.push((k - 1) as usize)
        } else {
            rest
        }
    }
}

fn laid_marks(n: usize, tiles: &Vec<Placed>) -> (r: Vec<bool>)
    requires
        forall|i: int| 0 <= i < tiles@.len() ==> (#[trigger] tiles@[i]).node.at() < n,
    ensures
        r@.len() == n,
        forall|x: NodeId| x.at() < n ==> r@[x.at()] == #[trigger] is_laid(tiles@, x),
{
    let mut marks: Vec<bool> = Vec::new();
    let mut i: usize = 0;
    while i < n
        invariant
            i <= n,
            marks@.len() == i,
            forall|k: int| 0 <= k < i ==> !(#[trigger] marks@[k]),
        decreases n - i,
    {
        marks.push(false);
        i += 1;
    }
    let mut j: usize = 0;
    while j < tiles.len()
        invariant
            j <= tiles@.len(),
            marks@.len() == n,
            forall|i: int| 0 <= i < tiles@.len() ==> (#[trigger] tiles@[i]).node.at() < n,
            forall|x: NodeId| x.at() < n ==> marks@[x.at()] == #[trigger] is_laid(tiles@.take(j as int), x),
        decreases tiles@.len() - j,
    {
        let ghost before = marks@;
        let k: usize = tiles[j].node.index();
        marks.set(k, true);
        proof {
            let a = tiles@.take(j as int);
            let b = tiles@.take(j + 1);
            assert forall|x: NodeId| x.at() < n implies marks@[x.at()] == #[trigger] is_laid(b, x) by {
                assert(before[x.at()] == is_laid(a, x));
                if x == tiles@[j as int].node {
                    assert(b[j as int].node == x);
                } else {
                    assert(x.at() != tiles@[j as int].node.at());
                    if is_laid(a, x) {
                        let i = choose|i: int| 0 <= i < a.len() && (#[trigger] a[i]).node == x;
                        assert(b[i].node == x);
                    }
                    if is_laid(b, x) {
                        let i = choose|i: int| 0 <= i < b.len() && (#[trigger] b[i]).node == x;
                        assert(i < j);
                        assert(a[i].node == x);
                    }
                }
            }
        }
        j += 1;
    }
    assert(tiles@.take(j as int) =~= tiles@);
    marks
}

/// The tiles that become blocks.
pub fn block_tiles(t: &Tree, tiles: &Vec<Placed>) -> (r: Vec<usize>)
    requires
        t.wf(),
        forall|i: int| 0 <= i < tiles@.len() ==> (#[trigger] tiles@[i]).node.at() < t@.len(),
    ensures
        r@ == blocks_among(t@, tiles@, tiles@.len() as int),
{
    let marks = laid_marks(t.len(), tiles);
    let mut out: Vec<usize> = Vec::new();
    let mut i: usize = 0;
    while i < tiles.len()
        invariant
            t.wf(),
            i <= tiles@.len(),
            marks@.len() == t@.len(),
            forall|i: int| 0 <= i < tiles@.len() ==> (#[trigger] tiles@[i]).node.at() < t@.len(),
            forall|x: NodeId| x.at() < t@.len() ==> marks@[x.at()] == #[trigger] is_laid(tiles@, x),
            out@ == blocks_among(t@, tiles@, i as int),
        decreases tiles@.len() - i,
    {
        let id = tiles[i].node;
        let kids = t.children(id);
        proof {
            tree::lemma_children_exist(t@, id.at());
        }
        let mut free = tiles[i].depth > 0;
        let mut k: usize = 0;
        while k < kids.len()
            invariant
                k <= kids@.len(),
                marks@.len() == t@.len(),
                forall|x: NodeId| x.at() < t@.len() ==> marks@[x.at()] == #[trigger] is_laid(tiles@, x),
                forall|j: int| 0 <= j < kids@.len() ==> (#[trigger] kids@[j]).at() < t@.len(),
                free ==> tiles@[i as int].depth > 0,
                free ==> forall|j: int| 0 <= j < k ==> !is_laid(tiles@, #[trigger] kids@[j]),
                !free ==> tiles@[i as int].depth == 0 || exists|j: int|
                    0 <= j < kids@.len() && is_laid(tiles@, #[trigger] kids@[j]),
            decreases kids@.len() - k,
        {
            let kid = kids[k];
            if marks[kid.index()] {
                assert(is_laid(tiles@, kids@[k as int]));
                free = false;
            } else {
                assert(!is_laid(tiles@, kids@[k as int]));
            }
            k += 1;
        }
        if free {
            out.push(i);
        }
        i += 1;
    }
    out
}

/// The files of a node, as counted then or now.
pub open spec fn files_of(ns: Seq<Node>, counts: Option<Seq<u64>>, id: NodeId) -> u64 {
    match counts {
        Some(c) => c[id.at()],
        None => ns[id.at()].file_count,
    }
}

/// The most files that one of the tiles has, and one at least.
pub open spec fn most_files(ns: Seq<Node>, counts: Option<Seq<u64>>, ids: Seq<NodeId>, k: int) -> u64
    decreases k,
{
    if k <= 0 {
        1
    } else {
        let rest = most_files(ns, counts, ids, k - 1);
        let n = files_of(ns, counts, ids[k - 1]);
        if n > rest {
            n
        } else {
            rest
        }
    }
}

/// The files of a node: as counted when the tree was smaller, or all.
pub fn block_files(t: &Tree, counts: Option<&Vec<u64>>, id: NodeId) -> (r: u64)
    requires
        t.wf(),
        id.at() < t@.len(),
        counts matches Some(c) ==> c@.len() == t@.len(),
    ensures
        r == files_of(
            t@,
            match counts {
                Some(c) => Some(c@),
                None => None,
            },
            id,
        ),
{
    match counts {
        Some(c) => c[id.index()],
        None => t.node(id).file_count,
    }
}

/// The most files that one of the nodes has: the height of the highest block.
pub fn tallest(t: &Tree, counts: Option<&Vec<u64>>, ids: &Vec<NodeId>) -> (r: u64)
    requires
        t.wf(),
        forall|i: int| 0 <= i < ids@.len() ==> (#[trigger] ids@[i]).at() < t@.len(),
        counts matches Some(c) ==> c@.len() == t@.len(),
    ensures
        r == most_files(
            t@,
            match counts {
                Some(c) => Some(c@),
                None => None,
            },
            ids@,
            ids@.len() as int,
        ),
        r >= 1,
{
    let mut best: u64 = 1;
    let mut i: usize = 0;
    while i < ids.len()
        invariant
            t.wf(),
            i <= ids@.len(),
            forall|i: int| 0 <= i < ids@.len() ==> (#[trigger] ids@[i]).at() < t@.len(),
            counts matches Some(c) ==> c@.len() == t@.len(),
            best >= 1,
            best == most_files(
                t@,
                match counts {
                    Some(c) => Some(c@),
                    None => None,
                },
                ids@,
                i as int,
            ),
        decreases ids@.len() - i,
    {
        let n = block_files(t, counts, ids[i]);
        if n > best {
            best = n;
        }
        i += 1;
    }
    best
}

/// A color by its red, green and blue.
#[derive(Clone, Copy, Debug, PartialEq, Eq, Structural)]
pub struct Rgb {
    pub r: u8,
    pub g: u8,
    pub b: u8,
}

/// The color of a category: amber, teal, violet, steel blue, paper, olive, rust
/// red, neutral grey.
pub open spec fn category_rgb(c: FileCategory) -> Rgb {
    match c {
        FileCategory::Video => Rgb { r: 0xcf, g: 0x8a, b: 0x3e },
        FileCategory::Image => Rgb { r: 0x4f, g: 0xa8, b: 0x8f },
        FileCategory::Audio => Rgb { r: 0x9a, g: 0x7c, b: 0xc4 },
        FileCategory::Archive => Rgb { r: 0x5b, g: 0x86, b: 0xb4 },
        FileCategory::Document => Rgb { r: 0xb2, g: 0xba, b: 0xc6 },
        FileCategory::Code => Rgb { r: 0x9f, g: 0xb1, b: 0x55 },
        FileCategory::System => Rgb { r: 0xb0, g: 0x5a, b: 0x4e },
        FileCategory::Other => Rgb { r: 0x6a, g: 0x72, b: 0x80 },
    }
}

/// The color of a category.
pub fn category_color(c: FileCategory) -> (r: Rgb)
    ensures
        r == category_rgb(c),
{
    match c {
        FileCategory::Video => Rgb { r: 0xcf, g: 0x8a, b: 0x3e },
        FileCategory::Image => Rgb { r: 0x4f, g: 0xa8, b: 0x8f },
        FileCategory::Audio => Rgb { r: 0x9a, g: 0x7c, b: 0xc4 },
        FileCategory::Archive => Rgb { r: 0x5b, g: 0x86, b: 0xb4 },
        FileCategory::Document => Rgb { r: 0xb2, g: 0xba, b: 0xc6 },
        FileCategory::Code => Rgb { r: 0x9f, g: 0xb1, b: 0x55 },
        FileCategory::System => Rgb { r: 0xb0, g: 0x5a, b: 0x4e },
        FileCategory::Other => Rgb { r: 0x6a, g: 0x72, b: 0x80 },
    }
}

/// No two categories share a color.
pub proof fn law_colors_tell_categories_apart(a: FileCategory, b: FileCategory)
    requires
        category_rgb(a) == category_rgb(b),
    ensures
        a == b,
{
}

/// What a block is colored by: the leading category at and under its node once it
/// is known; until then a file's own, and none for a folder.
pub open spec fn block_category(
    style: PathStyle,
    ns: Seq<Node>,
    dominant: Option<Seq<FileCategory>>,
    id: NodeId,
) -> Option<FileCategory> {
    match dominant {
        Some(d) => Some(d[id.at()]),
        None => if ns[id.at()].kind == NodeKind::Dir {
            None
        } else {
            Some(filetype::category_spec(style, ns[id.at()].name@))
        },
    }
}

/// The color of a block.
pub fn block_color(style: PathStyle, t: &Tree, dominant: Option<&Vec<FileCategory>>, id: NodeId) -> (r: Rgb)
    requires
        t.wf(),
        id.at() < t@.len(),
        dominant matches Some(d) ==> d@.len() == t@.len(),
    ensures
        r == (match block_category(
            style,
            t@,
            match dominant {
                Some(d) => Some(d@),
                None => None,
            },
            id,
        ) {
            Some(c) => category_rgb(c),
            None => Rgb { r: 0x22, g: 0x27, b: 0x30 },
        }),
{
    match dominant {
        Some(d) => category_color(d[id.index()]),
        None => {
            let n = t.node(id);
            if n.kind == NodeKind::Dir {
                Rgb { r: 0x22, g: 0x27, b: 0x30 }
            } else {
                category_color(categorize_in(style, n.name.as_str()))
            }
        },
    }
}

/// What a block is: a folder by what is in it, a file by its category.
pub open spec fn block_kind(style: PathStyle, n: Node) -> Seq<char> {
    if n.kind == NodeKind::Dir {
        labels::grouped(labels::dec(n.children@.len())) + " items · "@ + labels::grouped(
            labels::dec(n.file_count as nat),
        ) + " files"@
    } else {
        filetype::label_spec(filetype::category_spec(style, n.name@))
    }
}

/// What is said over a block: where it is, how large and what it is.
pub fn block_label(style: PathStyle, t: &Tree, id: NodeId) -> (r: (String, String))
    requires
        t.wf(),
        id.at() < t@.len(),
    ensures
        r.0@ == location::joined_path_spec(style, tree::names_to(t@, id.at())),
        r.1@ == labels::human_size_spec(t@[id.at()].subtree_size as nat) + "  ·  "@ + block_kind(style, t@[id.at()]),
{
    let names = t.path_components(id);
    let path = joined_path(style, names.as_slice());
    let n = t.node(id);
    let kind = if n.kind == NodeKind::Dir {
        let mut s = cat3(
            commas(t.children(id).len() as u64).as_str(),
            " items · ",
            commas(n.file_count).as_str(),
        );
        s.append(" files");
        s
    } else {
        categorize_in(style, n.name.as_str()).label().to_owned()
    };
    (path, cat3(human_size(n.subtree_size).as_str(), "  ·  ", kind.as_str()))
}

/// The first `k` names joined to a path.
pub open spec fn pushed(style: PathStyle, names: Seq<Seq<char>>, k: int) -> Seq<char>
    decreases k,
{
    if k <= 0 {
        Seq::empty()
    } else {
        paths::join_spec(style, pushed(style, names, k - 1), names[k - 1])
    }
}

/// The path of a block, and whether it is a folder.
pub fn block_path(style: PathStyle, t: &Tree, id: NodeId) -> (r: (String, bool))
    requires
        t.wf(),
        id.at() < t@.len(),
    ensures
        r.0@ == pushed(style, tree::names_to(t@, id.at()), tree::names_to(t@, id.at()).len() as int),
        r.1 == (t@[id.at()].kind == NodeKind::Dir),
{
    let names = t.path_components(id);
    let ghost all = tree::names_to(t@, id.at());
    let mut out = String::new();
    assert(out@ =~= Seq::<char>::empty());
    let mut i: usize = 0;
    while i < names.len()
        invariant
            i <= names@.len(),
            tree::borrowed(names@) == all,
            out@ == pushed(style, all, i as int),
        decreases names@.len() - i,
    {
        assert(tree::borrowed(names@)[i as int] == names@[i as int]@);
        out = join(style, out.as_str(), names[i]);
        i += 1;
    }
    assert(all.len() == names@.len());
    (out, t.node(id).kind == NodeKind::Dir)
}

/// How long a layout stands at least while a walk runs, in milliseconds.
pub const RELAYOUT_MILLIS: u64 = 600;

/// How long a step of a replay stands at least, in milliseconds.
pub const REPLAY_STEP_MILLIS: u64 = 110;

/// Whether the city is laid out anew: where something else is to be drawn or the
/// view changed (`moved`); in steps while the growth of a scan is replayed; else
/// while the city rises, once where it is to settle, and in steps while a walk
/// runs, so that it does not churn.
pub fn layout_due(
    moved: bool,
    replaying: bool,
    revealing: bool,
    settle: bool,
    running: bool,
    step_over: bool,
    throttle_over: bool,
) -> (r: bool)
    ensures
        r == (moved || (if replaying {
            step_over
        } else {
            revealing || settle || (running && throttle_over)
        })),
{
    if moved {
        true
    } else if replaying {
        step_over
    } else {
        revealing || settle || (running && throttle_over)
    }
}

/// The tally of a walk that runs; `secs` says how long it has run.
pub open spec fn running_text(p: Progress, secs: Seq<char>) -> Seq<char> {
    "Scanning… "@ + labels::grouped(labels::dec(p.dirs as nat)) + " dirs, "@ + labels::grouped(
        labels::dec(p.files as nat),
    ) + " files, "@ + labels::human_size_spec(p.bytes as nat) + " ("@ + secs + "s)"@
}

/// The line of a walk that runs.
pub fn running_line(p: &Progress, secs: &str) -> (r: String)
    ensures
        r@ == running_text(*p, secs@),
{
    let mut s = cat3("Scanning… ", commas(p.dirs).as_str(), " dirs, ");
    s.append(commas(p.files).as_str());
    s.append(" files, ");
    s.append(human_size(p.bytes).as_str());
    s.append(" (");
    s.append(secs);
    s.append("s)");
    s
}

/// What a walk did not see.
pub open spec fn gaps_text(st: ScanStats) -> Seq<char> {
    (if st.errors > 0 {
        " · "@ + labels::grouped(labels::dec(st.errors as nat)) + " unreadable"@
    } else {
        Seq::empty()
    }) + (if st.cancelled {
        " · (cancelled)"@
    } else {
        Seq::empty()
    })
}

/// The tally of a walk that is over; `secs` says how long it ran.
pub open spec fn done_text(st: ScanStats, secs: Seq<char>) -> Seq<char> {
    labels::grouped(labels::dec(st.dirs as nat)) + " dirs · "@ + labels::grouped(labels::dec(st.files as nat))
        + " files · "@ + labels::human_size_spec(st.bytes as nat) + " · "@ + secs + "s"@ + gaps_text(st)
}

/// The line of a walk that is over.
pub fn done_line(st: &ScanStats, secs: &str) -> (r: String)
    ensures
        r@ == done_text(*st, secs@),
{
    let mut s = cat3(commas(st.dirs).as_str(), " dirs · ", commas(st.files).as_str());
    s.append(" files · ");
    s.append(human_size(st.bytes).as_str());
    s.append(" · ");
    s.append(secs);
    s.append("s");
    let ghost head = s@;
    if st.errors > 0 {
        s.append(" · ");
        s.append(commas(st.errors).as_str());
        s.append(" unreadable");
    }
    if st.cancelled {
        s.append(" · (cancelled)");
    }
    assert(s@ =~= head + gaps_text(*st));
    s
}

impl City {
    /// Whether the city shows a finished scan of `dir` itself, so that scanning
    /// means scanning again.
    pub fn is_scanned(&self, dir: &str) -> (r: bool)
        ensures
            r == (self.scan is Done && (self.root matches Some(p) && paths::same_path_spec(self.style, p@, dir@))),
    {
        match &self.root {
            Some(p) => matches!(self.scan, Scan::Done(_)) && same_path(self.style, p.as_str(), dir),
            None => false,
        }
    }

    /// What the bar says while there is no scan.
    pub open spec fn idle_text(&self, dir: Seq<char>) -> Seq<char> {
        if self.loading is Some {
            "Loading the cached scan of "@ + dir + "…"@
        } else {
            match self.note {
                Some(n) => n@,
                None => "No cityscape for "@ + dir + " yet — press Scan to build one."@,
            }
        }
    }

    /// What the bar says while there is no scan.
    pub fn idle_line(&self, dir: &str) -> (r: String)
        ensures
            r@ == self.idle_text(dir@),
    {
        if self.loading.is_some() {
            cat3("Loading the cached scan of ", dir, "…")
        } else {
            match &self.note {
                Some(n) => n.clone(),
                None => cat3("No cityscape for ", dir, " yet — press Scan to build one."),
            }
        }
    }
}

proof fn lemma_occupying(ids: Seq<NodeId>, w: Seq<u64>, cutoff: int, k: int)
    requires
        0 <= k <= ids.len(),
    ensures
        forall|c: NodeId| #[trigger]
            occupying(ids, w, cutoff, k).contains(c) <==> ids.take(k).contains(c) && c.at() < cutoff && w[c.at()] > 0,
        (forall|i: int, j: int| 0 <= i < j < ids.len() ==> (#[trigger] ids[i]).0 < (#[trigger] ids[j]).0) ==> forall|
            i: int,
            j: int,
        |
            0 <= i < j < occupying(ids, w, cutoff, k).len() ==> (#[trigger] occupying(ids, w, cutoff, k)[i]).0 < (
            #[trigger] occupying(ids, w, cutoff, k)[j]).0,
    decreases k,
{
    let all = occupying(ids, w, cutoff, k);
    if k > 0 {
        lemma_occupying(ids, w, cutoff, k - 1);
        let rest = occupying(ids, w, cutoff, k - 1);
        let id = ids[k - 1];
        let front = ids.take(k - 1);
        assert forall|c: NodeId| ids.take(k).contains(c) <==> front.contains(c) || c == id by {
            if ids.take(k).contains(c) {
                let i = choose|i: int| 0 <= i < k && ids.take(k)[i] == c;
                if i < k - 1 {
                    assert(front[i] == c);
                }
            }
            if front.contains(c) {
                let i = choose|i: int| 0 <= i < front.len() && front[i] == c;
                assert(ids.take(k)[i] == c);
            }
            assert(ids.take(k)[k - 1] == id);
        }
        assert forall|c: NodeId| #[trigger] all.contains(c) <==> ids.take(k).contains(c) && c.at() < cutoff && w[c.at()] > 0 by {
            assert(rest.contains(c) <==> front.contains(c) && c.at() < cutoff && w[c.at()] > 0);
            if all != rest {
                assert(all[all.len() - 1] == id);
                if rest.contains(c) {
                    let i = choose|i: int| 0 <= i < rest.len() && rest[i] == c;
                    assert(all[i] == c);
                }
                if all.contains(c) {
                    let i = choose|i: int| 0 <= i < all.len() && all[i] == c;
                    if i < rest.len() {
                        assert(rest[i] == c);
                    }
                }
            }
        }
        if forall|i: int, j: int| 0 <= i < j < ids.len() ==> (#[trigger] ids[i]).0 < (#[trigger] ids[j]).0 {
            assert forall|i: int| 0 <= i < rest.len() && all != rest implies (#[trigger] rest[i]).0 < id.0 by {
                assert(rest.contains(rest[i]));
                let h = choose|h: int| 0 <= h < front.len() && front[h] == rest[i];
                assert(ids[h] == rest[i]);
                assert(ids[h].0 < ids[k - 1].0);
            }
        }
    } else {
        assert(ids.take(k) =~= Seq::empty());
    }
}

/// A list of nodes put in the order of their weights holds each of them once, the
/// heavier first and of equal ones the older.
proof fn lemma_ranked(v: Seq<NodeId>, w: Seq<u64>, r: Seq<NodeId>)
    requires
        ranked(v, w, r),
        forall|i: int, j: int| 0 <= i < j < v.len() ==> (#[trigger] v[i]).0 < (#[trigger] v[j]).0,
    ensures
        r.len() == v.len(),
        forall|c: NodeId| #[trigger] r.contains(c) <==> v.contains(c),
        forall|i: int, j: int|
            0 <= i < j < r.len() ==> w[(#[trigger] r[i]).at()] > w[(#[trigger] r[j]).at()] || (w[r[i].at()] == w[r[j].at()]
                && r[i].0 < r[j].0),
{
    let p = choose|p: Seq<usize>| #[trigger] largest_first(v, w, p) && r == p.map_values(|i: usize| v[i as int]);
    assert forall|i: int, j: int| 0 <= i < p.len() && 0 <= j < p.len() && i != j implies p[i] != p[j] by {
        if i < j {
            assert(p[i] != p[j]);
        } else {
            assert(p[j] != p[i]);
        }
    }
    order::lemma_every_position(p);
    assert forall|c: NodeId| #[trigger] r.contains(c) <==> v.contains(c) by {
        if v.contains(c) {
            let x = choose|x: int| 0 <= x < v.len() && v[x] == c;
            assert(order::positions(p).contains(x));
            let i = choose|i: int| 0 <= i < p.len() && order::positions(p)[i] == x;
            assert(r[i] == c);
        }
        if r.contains(c) {
            let i = choose|i: int| 0 <= i < r.len() && r[i] == c;
            assert(v[p[i] as int] == c);
        }
    }
    assert forall|i: int, j: int| 0 <= i < j < r.len() implies w[(#[trigger] r[i]).at()] > w[(#[trigger] r[j]).at()] || (
    w[r[i].at()] == w[r[j].at()] && r[i].0 < r[j].0) by {
        let (x, y) = (p[i] as int, p[j] as int);
        assert(r[i] == v[x] && r[j] == v[y]);
        if x < y {
            assert(v[x].0 < v[y].0);
        }
    }
}

/// What the city draws of a folder: every node in it with at least one byte at or
/// under it, folders and files alike, and nothing else; each once, the one that
/// holds more bytes before the one that holds fewer, and of two that hold the same
/// the one that was found first.
pub open spec fn draws_every_weight(ns: Seq<Node>, id: NodeId, k: int, r: Seq<NodeId>) -> bool {
    &&& forall|c: NodeId| #[trigger]
        r.contains(c) <==> 0 < c.0 < k && c.0 < ns.len() && ns[c.0 as int].parent == id && tree::bytes_under(
            ns,
            c.0 as int,
            k,
        ) > 0
    &&& r.no_duplicates()
    &&& forall|i: int, j: int|
        0 <= i < j < r.len() ==> tree::bytes_under(ns, (#[trigger] r[i]).0 as int, k) > tree::bytes_under(
            ns,
            (#[trigger] r[j]).0 as int,
            k,
        ) || (tree::bytes_under(ns, r[i].0 as int, k) == tree::bytes_under(ns, r[j].0 as int, k) && r[i].0 < r[j].0)
}

/// Where every node's weight is the bytes at and under it among the first `k`
/// nodes, what is ranked is what the city draws.
proof fn lemma_draws(ns: Seq<Node>, id: NodeId, cutoff: int, k: int, w: Seq<u64>, r: Seq<NodeId>)
    requires
        tree::nodes_ok(ns),
        id.at() < ns.len(),
        0 <= k <= ns.len(),
        cutoff == k || (k == ns.len() && k <= cutoff),
        forall|a: int| 0 <= a < ns.len() ==> #[trigger] w[a] == tree::bytes_under(ns, a, k),
        ranked(occupying(ns[id.at()].children@, w, cutoff, ns[id.at()].children@.len() as int), w, r),
    ensures
        draws_every_weight(ns, id, k, r),
{
    let kids = ns[id.at()].children@;
    let n = kids.len() as int;
    tree::law_children_name_their_parent(ns, id.at());
    lemma_occupying(kids, w, cutoff, n);
    assert(kids.take(n) =~= kids);
    let v = occupying(kids, w, cutoff, n);
    lemma_ranked(v, w, r);
    assert forall|c: NodeId| #[trigger] r.contains(c) <==> 0 < c.0 < k && c.0 < ns.len() && ns[c.0 as int].parent == id
        && tree::bytes_under(ns, c.0 as int, k) > 0 by {
        assert(v.contains(c) <==> kids.contains(c) && c.at() < cutoff && w[c.at()] > 0);
        if c.0 < ns.len() {
            assert(w[c.at()] == tree::bytes_under(ns, c.at(), k));
            assert(ns[c.at()].parent.0 == id.at() <==> ns[c.at()].parent == id);
        }
    }
    assert forall|i: int, j: int| 0 <= i < j < r.len() implies tree::bytes_under(ns, (#[trigger] r[i]).0 as int, k)
        > tree::bytes_under(ns, (#[trigger] r[j]).0 as int, k) || (tree::bytes_under(ns, r[i].0 as int, k)
        == tree::bytes_under(ns, r[j].0 as int, k) && r[i].0 < r[j].0) by {
        assert(r.contains(r[i]) && r.contains(r[j]));
        assert(w[r[i].at()] == tree::bytes_under(ns, r[i].at(), k));
        assert(w[r[j].at()] == tree::bytes_under(ns, r[j].at(), k));
    }
    assert forall|i: int, j: int| 0 <= i < r.len() && 0 <= j < r.len() && i != j implies r[i] != r[j] by {
        if i < j {
            assert(w[r[i].at()] > w[r[j].at()] || r[i].0 < r[j].0);
        } else {
            assert(w[r[j].at()] > w[r[i].at()] || r[j].0 < r[i].0);
        }
    }
}

/// In a tree whose totals are right, [`ranked_children`] gives every node of the
/// folder that holds a byte, itself or anywhere under it, folders included, and
/// the one that holds more comes first.
pub proof fn law_every_child_with_bytes_is_drawn(ns: Seq<Node>, id: NodeId, r: Seq<NodeId>)
    requires
        tree::nodes_ok(ns),
        tree::sizes_live(ns),
        id.at() < ns.len(),
        ranked(
            occupying(ns[id.at()].children@, node_sizes(ns), ns.len() as int, ns[id.at()].children@.len() as int),
            node_sizes(ns),
            r,
        ),
    ensures
        forall|c: NodeId|
            0 < c.0 < ns.len() && (#[trigger] ns[c.0 as int]).parent == id && tree::bytes_under(
                ns,
                c.0 as int,
                ns.len() as int,
            ) > 0 ==> r.contains(c),
        forall|i: int|
            0 <= i < r.len() ==> 0 < (#[trigger] r[i]).0 < ns.len() && ns[r[i].0 as int].parent == id
                && tree::bytes_under(ns, r[i].0 as int, ns.len() as int) > 0,
        forall|i: int, j: int|
            0 <= i < j < r.len() ==> r[i] != r[j] && tree::bytes_under(ns, (#[trigger] r[i]).0 as int, ns.len() as int)
                >= tree::bytes_under(ns, (#[trigger] r[j]).0 as int, ns.len() as int),
        draws_every_weight(ns, id, ns.len() as int, r),
{
    let w = node_sizes(ns);
    assert forall|a: int| 0 <= a < ns.len() implies #[trigger] w[a] == tree::bytes_under(ns, a, ns.len() as int) by {
        assert(ns[a].subtree_size == tree::bytes_under(ns, a, ns.len() as int));
    }
    lemma_draws(ns, id, ns.len() as int, ns.len() as int, w, r);
    assert forall|c: NodeId|
        0 < c.0 < ns.len() && (#[trigger] ns[c.0 as int]).parent == id && tree::bytes_under(
            ns,
            c.0 as int,
            ns.len() as int,
        ) > 0 implies r.contains(c) by {}
    assert forall|i: int| 0 <= i < r.len() implies 0 < (#[trigger] r[i]).0 < ns.len() && ns[r[i].0 as int].parent == id
        && tree::bytes_under(ns, r[i].0 as int, ns.len() as int) > 0 by {
        assert(r.contains(r[i]));
    }
}

/// Replayed, the city draws of a folder what it would have drawn when the tree
/// held its first nodes only: with the totals of that time,
/// [`ranked_children_before`] gives every node of the folder that held a byte then.
pub proof fn law_replay_draws_the_past(ns: Seq<Node>, id: NodeId, cutoff: usize, w: Seq<u64>, r: Seq<NodeId>)
    requires
        tree::nodes_ok(ns),
        id.at() < ns.len(),
        forall|a: int| 0 <= a < ns.len() ==> #[trigger] w[a] == tree::bytes_under(ns, a, tree::cut(ns, cutoff)),
        ranked(occupying(ns[id.at()].children@, w, cutoff as int, ns[id.at()].children@.len() as int), w, r),
    ensures
        draws_every_weight(
            ns,
            id,
            if cutoff < ns.len() {
                cutoff as int
            } else {
                ns.len() as int
            },
            r,
        ),
{
    lemma_draws(ns, id, cutoff as int, tree::cut(ns, cutoff), w, r);
}

proof fn lemma_blocks_hold(ns: Seq<Node>, tiles: Seq<Placed>, k: int)
    requires
        0 <= k <= tiles.len() <= usize::MAX,
    ensures
        forall|i: usize| #[trigger] blocks_among(ns, tiles, k).contains(i) <==> i < k && is_block(ns, tiles, i as int),
        forall|a: int, b: int|
            0 <= a < b < blocks_among(ns, tiles, k).len() ==> (#[trigger] blocks_among(ns, tiles, k)[a]) < (
            #[trigger] blocks_among(ns, tiles, k)[b]),
    decreases k,
{
    let now = blocks_among(ns, tiles, k);
    if k > 0 {
        let rest = blocks_among(ns, tiles, k - 1);
        lemma_blocks_hold(ns, tiles, k - 1);
        if is_block(ns, tiles, k - 1) {
            assert(now == rest.push((k - 1) as usize));
            assert forall|i: usize| #[trigger] now.contains(i) <==> i < k && is_block(ns, tiles, i as int) by {
                if now.contains(i) {
                    let a = now.index_of(i);
                    if a < rest.len() {
                        assert(rest[a] == i);
                        assert(rest.contains(i));
                    }
                }
                if i < k && is_block(ns, tiles, i as int) {
                    if i == k - 1 {
                        assert(now[rest.len() as int] == i);
                    } else {
                        assert(rest.contains(i));
                        assert(now[rest.index_of(i)] == i);
                    }
                }
            }
            assert forall|a: int, b: int| 0 <= a < b < now.len() implies (#[trigger] now[a]) < (#[trigger] now[b]) by {
                if b == rest.len() {
                    assert(rest.contains(rest[a]));
                }
            }
        } else {
            assert(now == rest);
        }
    }
}

/// A tile becomes a block exactly where it is not the root's and no tile was laid
/// for anything in its folder; the blocks come in the order of their tiles.
pub proof fn law_blocks_are_the_innermost_tiles(ns: Seq<Node>, tiles: Seq<Placed>, r: Seq<usize>)
    requires
        tree::nodes_ok(ns),
        tiles.len() <= usize::MAX,
        forall|i: int| 0 <= i < tiles.len() ==> (#[trigger] tiles[i]).node.at() < ns.len(),
        r == blocks_among(ns, tiles, tiles.len() as int),
    ensures
        forall|i: usize| #[trigger]
            r.contains(i) <==> i < tiles.len() && tiles[i as int].depth > 0 && !exists|j: int|
                0 <= j < tiles.len() && (#[trigger] tiles[j]).node.0 > 0 && ns[tiles[j].node.0 as int].parent
                    == tiles[i as int].node,
        forall|a: int, b: int| 0 <= a < b < r.len() ==> (#[trigger] r[a]) < (#[trigger] r[b]),
{
    lemma_blocks_hold(ns, tiles, tiles.len() as int);
    assert forall|i: usize| i < tiles.len() implies (#[trigger] is_block(ns, tiles, i as int) <==> tiles[i as int].depth > 0
        && !exists|j: int|
        0 <= j < tiles.len() && (#[trigger] tiles[j]).node.0 > 0 && ns[tiles[j].node.0 as int].parent
            == tiles[i as int].node) by {
        let p = tiles[i as int].node;
        let kids = ns[p.at()].children@;
        tree::law_children_name_their_parent(ns, p.at());
        if exists|j: int|
            0 <= j < tiles.len() && (#[trigger] tiles[j]).node.0 > 0 && ns[tiles[j].node.0 as int].parent == p {
            let j = choose|j: int|
                0 <= j < tiles.len() && (#[trigger] tiles[j]).node.0 > 0 && ns[tiles[j].node.0 as int].parent == p;
            assert(kids.contains(tiles[j].node));
            let m = kids.index_of(tiles[j].node);
            assert(is_laid(tiles, kids[m]));
        }
        if tiles[i as int].depth > 0 && !is_block(ns, tiles, i as int) {
            let m = choose|m: int| 0 <= m < kids.len() && is_laid(tiles, #[trigger] kids[m]);
            assert(kids.contains(kids[m]));
            let j = choose|j: int| 0 <= j < tiles.len() && (#[trigger] tiles[j]).node == kids[m];
            assert(tiles[j].node.0 > 0 && ns[tiles[j].node.0 as int].parent == p);
        }
    }
}

/// No block is taller than the tallest, and where that is more than one file
/// some block is as tall.
pub proof fn law_tallest_is_reached(ns: Seq<Node>, counts: Option<Seq<u64>>, ids: Seq<NodeId>, k: int)
    requires
        0 <= k <= ids.len(),
    ensures
        most_files(ns, counts, ids, k) >= 1,
        counts is None ==> forall|i: int|
            0 <= i < k ==> ns[(#[trigger] ids[i]).0 as int].file_count <= most_files(ns, counts, ids, k),
        counts is Some ==> forall|i: int| 0 <= i < k ==> counts->0[(#[trigger] ids[i]).0 as int] <= most_files(ns, counts, ids, k),
        most_files(ns, counts, ids, k) > 1 ==> exists|i: int|
            0 <= i < k && most_files(ns, counts, ids, k) == (if counts is Some {
                counts->0[(#[trigger] ids[i]).0 as int]
            } else {
                ns[ids[i].0 as int].file_count
            }),
    decreases k,
{
    if k > 0 {
        law_tallest_is_reached(ns, counts, ids, k - 1);
        let rest = most_files(ns, counts, ids, k - 1);
        if files_of(ns, counts, ids[k - 1]) > rest {
            assert(ids[k - 1] == ids[k - 1]);
        }
    }
}

/// A file's block has the color of its kind of file, and a folder's that of what
/// takes up most of it; a folder of which that is not known stays gray.
pub proof fn law_block_is_colored_by_its_category(
    style: PathStyle,
    ns: Seq<Node>,
    dominant: Option<Seq<FileCategory>>,
    id: NodeId,
)
    ensures
        block_category(style, ns, dominant, id) is None <==> dominant is None && ns[id.0 as int].kind is Dir,
        dominant is Some ==> block_category(style, ns, dominant, id) == Some(dominant->0[id.0 as int]),
        dominant is None && ns[id.0 as int].kind is File ==> block_category(style, ns, dominant, id) == Some(
            filetype::category_spec(style, ns[id.0 as int].name@),
        ),
{
}

/// The path of a block is the way to it in the tree: the parts of the scanned
/// folder, and then the names one by one.
pub proof fn law_block_path_is_the_way_to_it(style: PathStyle, names: Seq<Seq<char>>, k: int)
    requires
        1 <= k <= names.len(),
        paths::is_settled(style, names[0]),
        forall|i: int| 1 <= i < names.len() ==> paths::is_entry_name(#[trigger] names[i]),
    ensures
        paths::is_settled(style, pushed(style, names, k)),
        paths::components(style, pushed(style, names, k)).len() == paths::components(style, names[0]).len() + k - 1,
        paths::under(style, pushed(style, names, k), names[0]),
        forall|i: int|
            1 <= i < k ==> paths::components(style, pushed(style, names, k))[paths::components(style, names[0]).len() + i - 1]
                == paths::Meaning::Name(#[trigger] names[i]),
    decreases k,
{
    let head = paths::components(style, names[0]);
    if k == 1 {
        assert(pushed(style, names, 0) =~= Seq::empty());
        assert(pushed(style, names, 1) == paths::join_spec(style, Seq::empty(), names[0]));
        assert(Seq::<char>::empty() + names[0] =~= names[0]);
        assert(Seq::<char>::empty().subrange(0, 0) + names[0] =~= names[0]);
        assert(pushed(style, names, 1) =~= names[0]);
    } else {
        law_block_path_is_the_way_to_it(style, names, k - 1);
        paths::law_joined_name_lies_inside(style, pushed(style, names, k - 1), names[k - 1]);
        let a = paths::components(style, pushed(style, names, k - 1));
        let b = paths::components(style, pushed(style, names, k));
        assert(b == a.push(paths::Meaning::Name(names[k - 1])));
        assert(head.is_prefix_of(b));
        assert forall|i: int| 1 <= i < k implies b[head.len() + i - 1] == paths::Meaning::Name(#[trigger] names[i]) by {
            if i < k - 1 {
                assert(a[head.len() + i - 1] == paths::Meaning::Name(names[i]));
            }
        }
    }
}

/// What a finished scan says ends in its time, unless something could not be read
/// or it was cancelled.
pub proof fn law_gaps_are_told(st: ScanStats)
    ensures
        st.errors == 0 && !st.cancelled <==> gaps_text(st).len() == 0,
        st.errors == 0 && st.cancelled ==> gaps_text(st) == " · (cancelled)"@,
{
    reveal_strlit(" · ");
    reveal_strlit(" · (cancelled)");
    assert(" · "@.len() == 3);
    assert(" · (cancelled)"@.len() > 0);
    assert(Seq::<char>::empty() + " · (cancelled)"@ =~= " · (cancelled)"@);
}

} // verus!
