//! The arena tree of a scanned volume.
//!
//! Nodes live in one vector and refer to each other by index. A node is always
//! added behind its parent, so a parent's index is below its children's: a walk
//! up always ends, and one pass from the back folds every subtree.
use vstd::prelude::*;
use crate::filetype::{self, categorize_in, FileCategory};
use crate::paths::{self, native_style, PathStyle};
use crate::text::{self, replace_char, same_text, to_lower_text};

verus! {

/// A node of a [`Tree`], by its position in the arena.
#[derive(Clone, Copy, Debug, PartialEq, Eq, PartialOrd, Ord, Hash, Structural)]
pub struct NodeId(pub u32);

impl NodeId {
    pub open spec fn at(self) -> int {
        self.0 as int
    }

    /// The position in the arena.
    pub fn index(self) -> (r: usize)
        ensures
            r == self.at(),
    {
        self.0 as usize
    }
}

/// Whether a node is a directory or a file.
#[derive(Clone, Copy, Debug, PartialEq, Eq, Structural)]
pub enum NodeKind {
    Dir,
    File,
}

/// One file or directory.
#[derive(Debug)]
pub struct Node {
    /// The node's own name, not its path.
    pub name: String,
    /// The directory it is in; the root is its own parent.
    pub parent: NodeId,
    pub kind: NodeKind,
    /// Its own bytes, 0 for a directory.
    pub own_size: u64,
    /// Its own bytes and those of everything under it.
    pub subtree_size: u64,
    /// The files at and under it.
    pub file_count: u64,
    /// Its children, oldest first.
    pub children: Vec<NodeId>,
}

/// A tree of files and directories.
#[derive(Debug)]
pub struct Tree {
    nodes: Vec<Node>,
}

impl View for Tree {
    type V = Seq<Node>;

    closed spec fn view(&self) -> Seq<Node> {
        self.nodes@
    }
}

/// The index of a node's parent.
pub open spec fn parent_of(ns: Seq<Node>, i: int) -> int {
    ns[i].parent.0 as int
}

/// The root is its own parent and every other parent stands before its child.
pub open spec fn parents_ok(ns: Seq<Node>) -> bool {
    &&& 0 < ns.len() <= 0x1_0000_0000
    &&& parent_of(ns, 0) == 0
    &&& forall|i: int| 0 < i < ns.len() ==> #[trigger] parent_of(ns, i) < i
}

/// The nodes below `k` whose parent is `p`, oldest first.
pub open spec fn child_ids(ns: Seq<Node>, p: int, k: int) -> Seq<NodeId>
    decreases k,
{
    if k <= 1 {
        Seq::empty()
    } else if parent_of(ns, k - 1) == p {
        child_ids(ns, p, k - 1).push(NodeId((k - 1) as u32))
    } else {
        child_ids(ns, p, k - 1)
    }
}

/// Every node's list of children holds exactly the nodes whose parent it is.
pub open spec fn children_ok(ns: Seq<Node>) -> bool {
    forall|p: int| 0 <= p < ns.len() ==> (#[trigger] ns[p]).children@ == child_ids(ns, p, ns.len() as int)
}

/// What holds of every tree's nodes.
pub open spec fn nodes_ok(ns: Seq<Node>) -> bool {
    parents_ok(ns) && children_ok(ns)
}

/// `a` is `i` or an ancestor of it.
pub open spec fn above(ns: Seq<Node>, a: int, i: int) -> bool
    decreases i,
{
    if a == i {
        true
    } else if 0 < i && 0 <= parent_of(ns, i) < i {
        above(ns, a, parent_of(ns, i))
    } else {
        false
    }
}

/// The weights of the nodes below `k` that are `a` or under it, added up.
pub open spec fn subtree_sum(ns: Seq<Node>, w: Seq<nat>, a: int, k: int) -> nat
    decreases k,
{
    if k <= 0 {
        0
    } else {
        subtree_sum(ns, w, a, k - 1) + (if above(ns, a, k - 1) {
            w[k - 1]
        } else {
            0
        })
    }
}

/// Every node weighs its own bytes.
pub open spec fn sizes(ns: Seq<Node>) -> Seq<nat> {
    Seq::new(ns.len(), |i: int| ns[i].own_size as nat)
}

/// Every file weighs one.
pub open spec fn is_file(ns: Seq<Node>) -> Seq<nat> {
    Seq::new(ns.len(), |i: int| if ns[i].kind == NodeKind::File { 1nat } else { 0nat })
}

/// The bytes at and under `a`, counting the first `k` nodes only.
pub open spec fn bytes_under(ns: Seq<Node>, a: int, k: int) -> nat {
    subtree_sum(ns, sizes(ns), a, k)
}

/// The files at and under `a`, counting the first `k` nodes only.
pub open spec fn files_under(ns: Seq<Node>, a: int, k: int) -> nat {
    subtree_sum(ns, is_file(ns), a, k)
}

/// All bytes of the tree fit into 64 bits.
pub open spec fn bytes_fit(ns: Seq<Node>) -> bool {
    bytes_under(ns, 0, ns.len() as int) <= u64::MAX
}

/// Every node knows the bytes and files at and under it.
pub open spec fn sizes_live(ns: Seq<Node>) -> bool {
    forall|a: int|
        0 <= a < ns.len() ==> (#[trigger] ns[a]).subtree_size == bytes_under(ns, a, ns.len() as int)
            && ns[a].file_count == files_under(ns, a, ns.len() as int)
}

/// The two nodes differ in nothing but their totals.
pub open spec fn same_but_totals(x: Node, y: Node) -> bool {
    &&& x.name == y.name
    &&& x.parent == y.parent
    &&& x.kind == y.kind
    &&& x.own_size == y.own_size
    &&& x.children == y.children
}

/// The nearest of `i` and its ancestors that stands below `m`.
spec fn climb(ns: Seq<Node>, i: int, m: int) -> int
    decreases i,
{
    if i < m || i <= 0 || !(0 <= parent_of(ns, i) < i) {
        i
    } else {
        climb(ns, parent_of(ns, i), m)
    }
}

/// The weights below `k` that climb to `a` when all nodes from `m` on have been
/// folded into their parents.
spec fn folded(ns: Seq<Node>, w: Seq<nat>, a: int, m: int, k: int) -> nat
    decreases k,
{
    if k <= 0 {
        0
    } else {
        folded(ns, w, a, m, k - 1) + (if climb(ns, k - 1, m) == a {
            w[k - 1]
        } else {
            0
        })
    }
}

/// All weights of the first `k` nodes.
pub open spec fn total(w: Seq<nat>, k: int) -> nat
    decreases k,
{
    if k <= 0 {
        0
    } else {
        total(w, k - 1) + w[k - 1]
    }
}

proof fn lemma_climb_is_above(ns: Seq<Node>, i: int, m: int)
    requires
        parents_ok(ns),
        0 <= m,
        0 <= i < ns.len(),
    ensures
        climb(ns, i, m + 1) == m <==> above(ns, m, i),
    decreases i,
{
    if i > m {
        assert(parent_of(ns, i) < i);
        lemma_climb_is_above(ns, parent_of(ns, i), m);
    } else if i < m {
        lemma_above_is_below(ns, m, i);
    }
}

proof fn lemma_above_is_below(ns: Seq<Node>, a: int, i: int)
    ensures
        above(ns, a, i) ==> a <= i,
    decreases i,
{
    if a != i && 0 < i && 0 <= parent_of(ns, i) < i {
        lemma_above_is_below(ns, a, parent_of(ns, i));
    }
}

proof fn lemma_nothing_below(ns: Seq<Node>, w: Seq<nat>, a: int, k: int)
    requires
        k <= a,
    ensures
        subtree_sum(ns, w, a, k) == 0,
    decreases k,
{
    if k > 0 {
        lemma_nothing_below(ns, w, a, k - 1);
        lemma_above_is_below(ns, a, k - 1);
    }
}

proof fn lemma_climb_step(ns: Seq<Node>, i: int, m: int)
    requires
        parents_ok(ns),
        0 < m < ns.len(),
        0 <= i < ns.len(),
    ensures
        climb(ns, i, m) == (if climb(ns, i, m + 1) == m {
            parent_of(ns, m)
        } else {
            climb(ns, i, m + 1)
        }),
        0 <= climb(ns, i, m + 1) <= m,
    decreases i,
{
    assert(parent_of(ns, m) < m);
    if i > m {
        assert(parent_of(ns, i) < i);
        lemma_climb_step(ns, parent_of(ns, i), m);
    } else if i == m {
        assert(climb(ns, parent_of(ns, m), m) == parent_of(ns, m));
    }
}

proof fn lemma_folded_all(ns: Seq<Node>, w: Seq<nat>, a: int, k: int)
    requires
        parents_ok(ns),
        0 <= a,
        k <= ns.len(),
    ensures
        folded(ns, w, a, a + 1, k) == subtree_sum(ns, w, a, k),
    decreases k,
{
    if k > 0 {
        lemma_folded_all(ns, w, a, k - 1);
        lemma_climb_is_above(ns, k - 1, a);
    }
}

proof fn lemma_folded_none(ns: Seq<Node>, w: Seq<nat>, a: int, k: int, m: int)
    requires
        parents_ok(ns),
        0 <= a,
        0 <= k <= m,
        k <= ns.len(),
    ensures
        folded(ns, w, a, m, k) == (if a < k {
            w[a]
        } else {
            0
        }),
    decreases k,
{
    if k > 0 {
        lemma_folded_none(ns, w, a, k - 1, m);
    }
}

proof fn lemma_folded_step(ns: Seq<Node>, w: Seq<nat>, a: int, m: int, k: int)
    requires
        parents_ok(ns),
        0 < m < ns.len(),
        0 <= a < m,
        0 <= k <= ns.len(),
    ensures
        folded(ns, w, a, m, k) == folded(ns, w, a, m + 1, k) + (if parent_of(ns, m) == a {
            folded(ns, w, m, m + 1, k)
        } else {
            0
        }),
    decreases k,
{
    if k > 0 {
        lemma_folded_step(ns, w, a, m, k - 1);
        lemma_climb_step(ns, k - 1, m);
    }
}

proof fn lemma_two_folded(ns: Seq<Node>, w: Seq<nat>, a: int, b: int, m: int, k: int)
    requires
        a != b,
    ensures
        folded(ns, w, a, m, k) + folded(ns, w, b, m, k) <= total(w, k),
    decreases k,
{
    if k > 0 {
        lemma_two_folded(ns, w, a, b, m, k - 1);
    }
}

proof fn lemma_root_is_above(ns: Seq<Node>, i: int)
    requires
        parents_ok(ns),
        0 <= i < ns.len(),
    ensures
        above(ns, 0, i),
    decreases i,
{
    if i > 0 {
        assert(parent_of(ns, i) < i);
        lemma_root_is_above(ns, parent_of(ns, i));
    }
}

/// Everything lies under the root.
proof fn lemma_root_sum(ns: Seq<Node>, w: Seq<nat>, k: int)
    requires
        parents_ok(ns),
        k <= ns.len(),
    ensures
        subtree_sum(ns, w, 0, k) == total(w, k),
    decreases k,
{
    if k > 0 {
        lemma_root_sum(ns, w, k - 1);
        lemma_root_is_above(ns, k - 1);
    }
}

proof fn lemma_sum_of_part(ns: Seq<Node>, w: Seq<nat>, a: int, k: int)
    ensures
        subtree_sum(ns, w, a, k) <= total(w, k),
    decreases k,
{
    if k > 0 {
        lemma_sum_of_part(ns, w, a, k - 1);
    }
}

/// Folds the first `k` weights up the tree: what comes back is the weight of
/// every node's subtree, counting the first `k` nodes only.
fn fold_up(nodes: &Vec<Node>, w: Vec<u64>, k: usize) -> (r: Vec<u64>)
    requires
        parents_ok(nodes@),
        w@.len() == nodes@.len(),
        k <= nodes@.len(),
        forall|i: int| k <= i < w@.len() ==> w@[i] == 0,
        subtree_sum(nodes@, naturals(w@), 0, k as int) <= u64::MAX,
    ensures
        r@.len() == nodes@.len(),
        forall|a: int| 0 <= a < r@.len() ==> #[trigger] r@[a] == subtree_sum(nodes@, naturals(w@), a, k as int),
{
    let ghost ns = nodes@;
    let ghost nw = naturals(w@);
    let mut acc = w;
    proof {
        lemma_root_sum(ns, nw, k as int);
        assert forall|a: int| 0 <= a < acc@.len() implies #[trigger] acc@[a] == folded(ns, nw, a, k as int, k as int) by {
            lemma_folded_none(ns, nw, a, k as int, k as int);
        }
        assert forall|a: int| k <= a < acc@.len() implies #[trigger] acc@[a] == subtree_sum(ns, nw, a, k as int) by {
            lemma_nothing_below(ns, nw, a, k as int);
        }
    }
    let mut m: usize = k;
    while m > 1
        invariant
            ns == nodes@,
            parents_ok(ns),
            acc@.len() == ns.len(),
            m <= k <= ns.len(),
            total(nw, k as int) <= u64::MAX,
            forall|a: int| 0 <= a < m && a < ns.len() ==> #[trigger] acc@[a] == folded(ns, nw, a, m as int, k as int),
            forall|a: int| m <= a < ns.len() ==> #[trigger] acc@[a] == subtree_sum(ns, nw, a, k as int),
        decreases m,
    {
        let i: usize = m - 1;
        let p: usize = nodes[i].parent.index();
        assert(parent_of(ns, i as int) == p);
        proof {
            lemma_two_folded(ns, nw, p as int, i as int, m as int, k as int);
        }
        let ghost before = acc@;
        let sum: u64 = acc[p] + acc[i];
        acc.set(p, sum);
        proof {
            lemma_folded_all(ns, nw, i as int, k as int);
            assert forall|a: int| 0 <= a < i implies #[trigger] acc@[a] == folded(ns, nw, a, i as int, k as int) by {
                lemma_folded_step(ns, nw, a, i as int, k as int);
                assert(before[a] == folded(ns, nw, a, m as int, k as int));
            }
        }
        m = i;
    }
    proof {
        assert forall|a: int| 0 <= a < acc@.len() implies #[trigger] acc@[a] == subtree_sum(ns, nw, a, k as int) by {
            if a < m {
                if m == 1 {
                    lemma_folded_all(ns, nw, 0, k as int);
                }
            }
        }
    }
    acc
}

/// Machine integers as natural numbers.
pub open spec fn naturals(w: Seq<u64>) -> Seq<nat> {
    w.map_values(|x: u64| x as nat)
}

/// The arena after a child was added to `p`: its record at the end, its id at
/// the end of the parent's list, everything else as it was.
pub open spec fn child_added(
    ns: Seq<Node>,
    after: Seq<Node>,
    p: int,
    name: Seq<char>,
    kind: NodeKind,
    own_size: u64,
) -> bool {
    let n = ns.len() as int;
    &&& after.len() == n + 1
    &&& after[n].name@ == name
    &&& after[n].parent.0 == p
    &&& after[n].kind == kind
    &&& after[n].own_size == own_size
    &&& after[n].children@ == Seq::<NodeId>::empty()
    &&& forall|i: int|
        0 <= i < n ==> {
            &&& (#[trigger] after[i]).name == ns[i].name
            &&& after[i].parent == ns[i].parent
            &&& after[i].kind == ns[i].kind
            &&& after[i].own_size == ns[i].own_size
            &&& after[i].children@ == (if i == p {
                ns[i].children@.push(NodeId(n as u32))
            } else {
                ns[i].children@
            })
        }
}

proof fn lemma_child_ids_same(x: Seq<Node>, y: Seq<Node>, p: int, k: int)
    requires
        k <= x.len(),
        k <= y.len(),
        forall|i: int| 0 <= i < k ==> #[trigger] parent_of(x, i) == parent_of(y, i),
    ensures
        child_ids(x, p, k) == child_ids(y, p, k),
    decreases k,
{
    if k > 1 {
        assert(parent_of(x, k - 1) == parent_of(y, k - 1));
        lemma_child_ids_same(x, y, p, k - 1);
    }
}

proof fn lemma_above_same(x: Seq<Node>, y: Seq<Node>, a: int, i: int, k: int)
    requires
        i < k <= x.len(),
        k <= y.len(),
        forall|j: int| 0 <= j < k ==> #[trigger] parent_of(x, j) == parent_of(y, j),
    ensures
        above(x, a, i) == above(y, a, i),
    decreases i,
{
    if a != i && 0 < i && 0 <= parent_of(x, i) < i {
        assert(parent_of(x, i) == parent_of(y, i));
        lemma_above_same(x, y, a, parent_of(x, i), k);
    } else if 0 < i {
        assert(parent_of(x, i) == parent_of(y, i));
    }
}

proof fn lemma_sum_same(x: Seq<Node>, y: Seq<Node>, u: Seq<nat>, v: Seq<nat>, a: int, k: int)
    requires
        k <= x.len(),
        k <= y.len(),
        forall|j: int| 0 <= j < k ==> #[trigger] parent_of(x, j) == parent_of(y, j),
        forall|j: int| 0 <= j < k ==> #[trigger] u[j] == v[j],
    ensures
        subtree_sum(x, u, a, k) == subtree_sum(y, v, a, k),
    decreases k,
{
    if k > 0 {
        lemma_sum_same(x, y, u, v, a, k - 1);
        lemma_above_same(x, y, a, k - 1, k);
        assert(u[k - 1] == v[k - 1]);
    }
}

proof fn lemma_no_children_behind(ns: Seq<Node>, p: int, k: int)
    requires
        parents_ok(ns),
        p >= k - 1,
        k <= ns.len(),
    ensures
        child_ids(ns, p, k) == Seq::<NodeId>::empty(),
    decreases k,
{
    if k > 1 {
        assert(parent_of(ns, k - 1) < k - 1);
        lemma_no_children_behind(ns, p, k - 1);
    }
}

/// Adding a child keeps what holds of every tree.
proof fn lemma_child_added_ok(
    ns: Seq<Node>,
    after: Seq<Node>,
    p: int,
    name: Seq<char>,
    kind: NodeKind,
    own_size: u64,
)
    requires
        nodes_ok(ns),
        ns.len() <= u32::MAX,
        0 <= p < ns.len(),
        child_added(ns, after, p, name, kind, own_size),
    ensures
        nodes_ok(after),
{
    let n = ns.len() as int;
    assert forall|i: int| 0 < i < after.len() implies #[trigger] parent_of(after, i) < i by {
        if i < n {
            assert(parent_of(ns, i) < i);
        }
    }
    assert(parent_of(after, 0) == parent_of(ns, 0));
    assert forall|i: int| 0 <= i < n implies #[trigger] parent_of(after, i) == parent_of(ns, i) by {}
    assert forall|q: int| 0 <= q < after.len() implies (#[trigger] after[q]).children@ == child_ids(
        after,
        q,
        after.len() as int,
    ) by {
        lemma_child_ids_same(after, ns, q, n);
        if q == n {
            lemma_no_children_behind(after, n, n + 1);
        } else {
            assert(ns[q].children@ == child_ids(ns, q, n));
        }
    }
}

proof fn lemma_count_bound(ns: Seq<Node>, k: int)
    requires
        0 <= k <= ns.len(),
    ensures
        total(is_file(ns), k) <= k,
    decreases k,
{
    if k > 0 {
        lemma_count_bound(ns, k - 1);
    }
}

impl Tree {
    /// The root's id.
    pub fn root() -> (r: NodeId)
        ensures
            r == NodeId(0),
    {
        NodeId(0)
    }

    /// What holds of every tree.
    pub open spec fn wf(&self) -> bool {
        nodes_ok(self@)
    }

    /// A tree of one directory.
    pub fn new(root_name: &str) -> (r: Tree)
        ensures
            r.wf(),
            r@.len() == 1,
            r@[0].name@ == root_name@,
            r@[0].parent == NodeId(0),
            r@[0].kind == NodeKind::Dir,
            r@[0].own_size == 0,
            r@[0].children@ == Seq::<NodeId>::empty(),
            sizes_live(r@),
    {
        let root = Node {
            name: root_name.to_owned(),
            parent: NodeId(0),
            kind: NodeKind::Dir,
            own_size: 0,
            subtree_size: 0,
            file_count: 0,
            children: Vec::new(),
        };
        let mut nodes: Vec<Node> = Vec::new();
        nodes.push(root);
        let r = Tree { nodes };
        assert(child_ids(r@, 0, 1) =~= Seq::empty());
        proof {
            reveal_with_fuel(subtree_sum, 2);
        }
        r
    }

    /// Adds a child and leaves every ancestor's totals alone.
    pub fn add_child(&mut self, parent: NodeId, name: &str, kind: NodeKind, own_size: u64) -> (r: NodeId)
        requires
            old(self).wf(),
            parent.at() < old(self)@.len() <= u32::MAX,
        ensures
            final(self).wf(),
            r.at() == old(self)@.len(),
            child_added(old(self)@, final(self)@, parent.at(), name@, kind, own_size),
            final(self)@[r.at()].subtree_size == own_size,
            final(self)@[r.at()].file_count == (if kind == NodeKind::File {
                1int
            } else {
                0
            }),
            forall|i: int|
                0 <= i < old(self)@.len() ==> (#[trigger] final(self)@[i]).subtree_size == old(self)@[i].subtree_size
                    && final(self)@[i].file_count == old(self)@[i].file_count,
    {
        let id = NodeId(self.nodes.len() as u32);
        self.nodes.push(
            Node {
                name: name.to_owned(),
                parent,
                kind,
                own_size,
                subtree_size: own_size,
                file_count: if kind == NodeKind::File {
                    1
                } else {
                    0
                },
                children: Vec::new(),
            },
        );
        self.nodes[parent.index()].children.push(id);
        proof {
            lemma_child_added_ok(old(self)@, self@, parent.at(), name@, kind, own_size);
        }
        id
    }

    /// Adds a child and folds its bytes and file-ness into every ancestor, so
    /// that totals that were right stay right.
    pub fn add_child_propagating(&mut self, parent: NodeId, name: &str, kind: NodeKind, own_size: u64) -> (r: NodeId)
        requires
            old(self).wf(),
            parent.at() < old(self)@.len() <= u32::MAX,
            forall|i: int|
                0 <= i < old(self)@.len() && above(old(self)@, i, parent.at()) ==> (#[trigger] old(
                    self,
                )@[i]).subtree_size + own_size <= u64::MAX && old(self)@[i].file_count + file_weight(kind)
                    <= u64::MAX,
        ensures
            final(self).wf(),
            r.at() == old(self)@.len(),
            child_added(old(self)@, final(self)@, parent.at(), name@, kind, own_size),
            final(self)@[r.at()].subtree_size == own_size,
            final(self)@[r.at()].file_count == file_weight(kind),
            forall|i: int|
                0 <= i < old(self)@.len() ==> (#[trigger] final(self)@[i]).subtree_size == old(self)@[i].subtree_size
                    + (if above(old(self)@, i, parent.at()) {
                    own_size as int
                } else {
                    0
                }) && final(self)@[i].file_count == old(self)@[i].file_count + (if above(
                    old(self)@,
                    i,
                    parent.at(),
                ) {
                    file_weight(kind)
                } else {
                    0
                }),
            sizes_live(old(self)@) ==> sizes_live(final(self)@),
    {
        let ghost ns = self@;
        let ghost n = ns.len() as int;
        let id = self.add_child(parent, name, kind, own_size);
        let ghost mid = self@;
        let files: u64 = if kind == NodeKind::File {
            1
        } else {
            0
        };
        let ghost p = parent.at();
        if own_size > 0 || files > 0 {
            let mut cur: usize = parent.index();
            let mut done = false;
            proof {
                assert forall|i: int| above(ns, i, p) implies i <= p by {
                    lemma_above_is_below(ns, i, p);
                }
            }
            while !done
                invariant
                    nodes_ok(ns),
                    n == ns.len(),
                    0 <= p < n,
                    cur < n,
                    mid.len() == n + 1,
                    self@.len() == n + 1,
                    files == file_weight(kind),
                    forall|i: int| 0 <= i < n ==> (#[trigger] mid[i]).parent == ns[i].parent,
                    forall|i: int|
                        0 <= i < n ==> (#[trigger] mid[i]).subtree_size == ns[i].subtree_size && mid[i].file_count
                            == ns[i].file_count,
                    forall|i: int|
                        0 <= i < n && above(ns, i, p) ==> (#[trigger] ns[i]).subtree_size + own_size <= u64::MAX
                            && ns[i].file_count + files <= u64::MAX,
                    forall|i: int| 0 <= i <= n ==> same_but_totals(#[trigger] self@[i], mid[i]),
                    forall|i: int|
                        0 <= i < n ==> (#[trigger] self@[i]).subtree_size == mid[i].subtree_size + (if above(
                            ns,
                            i,
                            p,
                        ) && (i > cur || done) {
                            own_size as int
                        } else {
                            0
                        }) && self@[i].file_count == mid[i].file_count + (if above(ns, i, p) && (i > cur || done) {
                            files as int
                        } else {
                            0
                        }),
                    self@[n] == mid[n],
                    above(ns, cur as int, p),
                    !done ==> forall|i: int| 0 <= i <= cur && above(ns, i, p) ==> #[trigger] above(ns, i, cur as int),
                decreases cur, (if done { 0int } else { 1int }),
            {
                let ghost before = self@;
                assert(before[cur as int].subtree_size == ns[cur as int].subtree_size);
                self.nodes[cur].subtree_size = self.nodes[cur].subtree_size + own_size;
                self.nodes[cur].file_count = self.nodes[cur].file_count + files;
                let up: usize = self.nodes[cur].parent.index();
                assert(parent_of(ns, cur as int) == up);
                if up == cur {
                    done = true;
                    assert(cur == 0);
                } else {
                    proof {
                        lemma_above_parent(ns, cur as int, p);
                        assert forall|i: int| 0 <= i < cur && #[trigger] above(ns, i, p) implies i <= up && above(
                            ns,
                            i,
                            up as int,
                        ) by {
                            assert(above(ns, i, cur as int));
                            lemma_above_is_below(ns, i, up as int);
                        }
                    }
                    cur = up;
                }
            }
        }
        proof {
            let after = self@;
            assert(child_added(ns, after, p, name@, kind, own_size));
            lemma_child_added_ok(ns, after, p, name@, kind, own_size);
            if sizes_live(ns) {
                lemma_propagated_live(ns, after, p, name@, kind, own_size);
            }
        }
        id
    }
}

/// What a node adds to the number of files.
pub open spec fn file_weight(kind: NodeKind) -> int {
    if kind == NodeKind::File {
        1
    } else {
        0
    }
}

proof fn lemma_above_parent(ns: Seq<Node>, a: int, i: int)
    requires
        parents_ok(ns),
        0 < a < ns.len(),
        0 <= i < ns.len(),
        above(ns, a, i),
    ensures
        above(ns, parent_of(ns, a), i),
    decreases i,
{
    if a == i {
        assert(parent_of(ns, i) < i);
        assert(above(ns, parent_of(ns, a), parent_of(ns, i)));
    } else {
        lemma_above_parent(ns, a, parent_of(ns, i));
        if parent_of(ns, a) == i {
            lemma_above_is_below(ns, a, i);
            assert(parent_of(ns, a) < a);
        }
    }
}

proof fn lemma_sum_of_added(ns: Seq<Node>, after: Seq<Node>, u: Seq<nat>, v: Seq<nat>, p: int, a: int)
    requires
        nodes_ok(ns),
        0 <= p < ns.len(),
        after.len() == ns.len() + 1,
        parents_ok(after),
        u.len() == ns.len(),
        v.len() == after.len(),
        parent_of(after, ns.len() as int) == p,
        forall|j: int| 0 <= j < ns.len() ==> #[trigger] parent_of(after, j) == parent_of(ns, j),
        forall|j: int| 0 <= j < ns.len() ==> #[trigger] v[j] == u[j],
        0 <= a <= ns.len(),
    ensures
        subtree_sum(after, v, a, after.len() as int) == subtree_sum(ns, u, a, ns.len() as int) + (if a == ns.len()
            || above(ns, a, p) {
            v[ns.len() as int]
        } else {
            0
        }),
{
    let n = ns.len() as int;
    lemma_sum_same(after, ns, v, u, a, n);
    lemma_above_same(after, ns, a, p, n);
}

proof fn lemma_propagated_live(
    ns: Seq<Node>,
    after: Seq<Node>,
    p: int,
    name: Seq<char>,
    kind: NodeKind,
    own_size: u64,
)
    requires
        nodes_ok(ns),
        nodes_ok(after),
        0 <= p < ns.len(),
        sizes_live(ns),
        child_added(ns, after, p, name, kind, own_size),
        after[ns.len() as int].subtree_size == own_size,
        after[ns.len() as int].file_count == file_weight(kind),
        forall|i: int|
            0 <= i < ns.len() ==> (#[trigger] after[i]).subtree_size == ns[i].subtree_size + (if above(ns, i, p) {
                own_size as int
            } else {
                0
            }) && after[i].file_count == ns[i].file_count + (if above(ns, i, p) {
                file_weight(kind)
            } else {
                0
            }),
    ensures
        sizes_live(after),
{
    let n = ns.len() as int;
    assert forall|j: int| 0 <= j < n implies #[trigger] parent_of(after, j) == parent_of(ns, j) by {}
    assert forall|a: int| 0 <= a < after.len() implies (#[trigger] after[a]).subtree_size == bytes_under(
        after,
        a,
        after.len() as int,
    ) && after[a].file_count == files_under(after, a, after.len() as int) by {
        lemma_sum_of_added(ns, after, sizes(ns), sizes(after), p, a);
        lemma_sum_of_added(ns, after, is_file(ns), is_file(after), p, a);
        if a == n {
            lemma_nothing_below(ns, sizes(ns), n, n);
            lemma_nothing_below(ns, is_file(ns), n, n);
        } else {
            assert(ns[a].subtree_size == bytes_under(ns, a, n));
        }
    }
}

/// The bytes that each file of category `c` weighs.
pub open spec fn category_weights(ns: Seq<Node>, style: PathStyle, c: FileCategory) -> Seq<nat> {
    Seq::new(
        ns.len(),
        |i: int|
            if ns[i].kind == NodeKind::File && filetype::category_spec(style, ns[i].name@) == c {
                ns[i].own_size as nat
            } else {
                0nat
            },
    )
}

/// The bytes of category `c` at and under `a`.
pub open spec fn category_bytes(ns: Seq<Node>, style: PathStyle, a: int, c: FileCategory) -> nat {
    subtree_sum(ns, category_weights(ns, style, c), a, ns.len() as int)
}

/// The bytes of every category at and under `a`, in legend order.
pub open spec fn category_profile(ns: Seq<Node>, style: PathStyle, a: int) -> Seq<nat> {
    Seq::new(8, |c: int| category_bytes(ns, style, a, filetype::category_at(c)))
}

/// `c` has the most bytes, and is the first in the legend of those that do;
/// where no category has any, it is [`FileCategory::Other`].
pub open spec fn leads(profile: Seq<nat>, c: FileCategory) -> bool {
    let i = c.rank();
    if forall|j: int| 0 <= j < 8 ==> #[trigger] profile[j] == 0 {
        c == FileCategory::Other
    } else {
        &&& forall|j: int| 0 <= j < 8 ==> #[trigger] profile[j] <= profile[i]
        &&& forall|j: int| 0 <= j < i ==> #[trigger] profile[j] < profile[i]
    }
}

/// No category's bytes overflow 64 bits.
pub open spec fn categories_fit(ns: Seq<Node>, style: PathStyle) -> bool {
    forall|c: FileCategory| #[trigger] category_bytes(ns, style, 0, c) <= u64::MAX
}

/// The category with the most bytes; ties go to the first in the legend, and
/// nothing at all to [`FileCategory::Other`].
pub fn dominant_of(sums: &[u64; 8]) -> (r: FileCategory)
    ensures
        leads(naturals(sums@), r),
{
    let mut best_i: usize = 7;
    let mut best_v: u64 = 0;
    let mut i: usize = 0;
    let ghost prof = naturals(sums@);
    while i < 8
        invariant
            i <= 8,
            prof == naturals(sums@),
            sums@.len() == 8,
            best_i < 8,
            best_v == 0 ==> best_i == 7 && forall|j: int| 0 <= j < i ==> #[trigger] prof[j] == 0,
            best_v > 0 ==> best_i < i && prof[best_i as int] == best_v,
            forall|j: int| 0 <= j < i ==> #[trigger] prof[j] <= best_v,
            best_v > 0 ==> forall|j: int| 0 <= j < best_i ==> #[trigger] prof[j] < best_v,
        decreases 8 - i,
    {
        assert(prof[i as int] == sums@[i as int]);
        if sums[i] > best_v {
            best_v = sums[i];
            best_i = i;
        }
        i += 1;
    }
    assert(best_v > 0 ==> prof[best_i as int] != 0);
    FileCategory::ALL[best_i]
}

impl Tree {
    /// Sets every node's totals from the nodes' own bytes and kinds.
    pub fn recompute_sizes(&mut self)
        requires
            old(self).wf(),
            bytes_fit(old(self)@),
        ensures
            final(self).wf(),
            final(self)@.len() == old(self)@.len(),
            forall|i: int| 0 <= i < old(self)@.len() ==> same_but_totals(#[trigger] final(self)@[i], old(self)@[i]),
            sizes_live(final(self)@),
    {
        let ghost ns = self@;
        let n: usize = self.nodes.len();
        let (size, count) = self.partial_metrics(n);
        let mut i: usize = 0;
        while i < n
            invariant
                n == ns.len(),
                size@.len() == n,
                count@.len() == n,
                i <= n,
                self@.len() == n,
                forall|j: int| 0 <= j < n ==> same_but_totals(#[trigger] self@[j], ns[j]),
                forall|j: int|
                    0 <= j < i ==> (#[trigger] self@[j]).subtree_size == size@[j] && self@[j].file_count == count@[j],
            decreases n - i,
        {
            self.nodes[i].subtree_size = size[i];
            self.nodes[i].file_count = count[i];
            i += 1;
        }
        proof {
            lemma_totals_do_not_matter(ns, self@);
            assert forall|a: int| 0 <= a < self@.len() implies (#[trigger] self@[a]).subtree_size == bytes_under(
                self@,
                a,
                n as int,
            ) && self@[a].file_count == files_under(self@, a, n as int) by {}
        }
    }

    /// The bytes and files at and under every node as they were when the arena
    /// held its first `cutoff` nodes; 0 for the nodes that came later.
    pub fn partial_metrics(&self, cutoff: usize) -> (r: (Vec<u64>, Vec<u64>))
        requires
            self.wf(),
            bytes_under(self@, 0, cut(self@, cutoff)) <= u64::MAX,
        ensures
            r.0@.len() == self@.len(),
            r.1@.len() == self@.len(),
            forall|a: int| 0 <= a < self@.len() ==> #[trigger] r.0@[a] == bytes_under(self@, a, cut(self@, cutoff)),
            forall|a: int| 0 <= a < self@.len() ==> #[trigger] r.1@[a] == files_under(self@, a, cut(self@, cutoff)),
    {
        let ghost ns = self@;
        let n: usize = self.nodes.len();
        let k: usize = if cutoff < n {
            cutoff
        } else {
            n
        };
        let mut size: Vec<u64> = Vec::new();
        let mut count: Vec<u64> = Vec::new();
        let mut i: usize = 0;
        while i < n
            invariant
                ns == self.nodes@,
                n == ns.len(),
                k <= n,
                i <= n,
                size@.len() == i,
                count@.len() == i,
                forall|j: int| 0 <= j < i && j < k ==> #[trigger] size@[j] == ns[j].own_size,
                forall|j: int| 0 <= j < i && j < k ==> #[trigger] count@[j] == file_weight(ns[j].kind),
                forall|j: int| k <= j < i ==> #[trigger] size@[j] == 0,
                forall|j: int| k <= j < i ==> #[trigger] count@[j] == 0,
            decreases n - i,
        {
            if i < k {
                size.push(self.nodes[i].own_size);
                count.push(
                    if self.nodes[i].kind == NodeKind::File {
                        1
                    } else {
                        0
                    },
                );
            } else {
                size.push(0);
                count.push(0);
            }
            i += 1;
        }
        proof {
            let (sw, cw) = (naturals(size@), naturals(count@));
            assert forall|a: int| #[trigger] subtree_sum(ns, sw, a, k as int) == bytes_under(ns, a, k as int) by {
                lemma_sum_same(ns, ns, sw, sizes(ns), a, k as int);
            }
            assert forall|a: int| #[trigger] subtree_sum(ns, cw, a, k as int) == files_under(ns, a, k as int) by {
                lemma_sum_same(ns, ns, cw, is_file(ns), a, k as int);
            }
            lemma_sum_of_part(ns, is_file(ns), 0, k as int);
            lemma_count_bound(ns, k as int);
        }
        (fold_up(&self.nodes, size, k), fold_up(&self.nodes, count, k))
    }

    /// For every node the category that most of the bytes under it belong to; a
    /// leaf file's own, and `Other` for a directory without bytes. Names are read
    /// in the given style.
    pub fn dominant_categories_in(&self, style: PathStyle) -> (r: Vec<FileCategory>)
        requires
            self.wf(),
            categories_fit(self@, style),
        ensures
            dominants(self@, style, r@),
    {
        let ghost ns = self@;
        let n: usize = self.nodes.len();
        let mut cats: Vec<FileCategory> = Vec::new();
        let mut i: usize = 0;
        while i < n
            invariant
                ns == self.nodes@,
                n == ns.len(),
                i <= n,
                cats@.len() == i,
                forall|j: int|
                    0 <= j < i && ns[j].kind == NodeKind::File ==> #[trigger] cats@[j] == filetype::category_spec(
                        style,
                        ns[j].name@,
                    ),
            decreases n - i,
        {
            if self.nodes[i].kind == NodeKind::File {
                cats.push(categorize_in(style, self.nodes[i].name.as_str()));
            } else {
                cats.push(FileCategory::Other);
            }
            i += 1;
        }
        let mut sums: Vec<Vec<u64>> = Vec::new();
        let mut c: usize = 0;
        while c < 8
            invariant
                ns == self.nodes@,
                n == ns.len(),
                nodes_ok(ns),
                categories_fit(ns, style),
                c <= 8,
                cats@.len() == n,
                forall|j: int|
                    0 <= j < n && ns[j].kind == NodeKind::File ==> #[trigger] cats@[j] == filetype::category_spec(
                        style,
                        ns[j].name@,
                    ),
                sums@.len() == c,
                forall|d: int| 0 <= d < c ==> (#[trigger] sums@[d])@.len() == n,
                forall|d: int, a: int|
                    0 <= d < c && 0 <= a < n ==> (#[trigger] sums@[d]@[a]) == category_bytes(
                        ns,
                        style,
                        a,
                        filetype::category_at(d),
                    ),
            decreases 8 - c,
        {
            let cat = FileCategory::ALL[c];
            assert(cat == filetype::category_at(c as int));
            let mut w: Vec<u64> = Vec::new();
            let mut j: usize = 0;
            while j < n
                invariant
                    ns == self.nodes@,
                    n == ns.len(),
                    j <= n,
                    cats@.len() == n,
                    forall|q: int|
                        0 <= q < n && ns[q].kind == NodeKind::File ==> #[trigger] cats@[q] == filetype::category_spec(
                            style,
                            ns[q].name@,
                        ),
                    w@.len() == j,
                    forall|q: int| 0 <= q < j ==> #[trigger] w@[q] == category_weights(ns, style, cat)[q],
                decreases n - j,
            {
                if self.nodes[j].kind == NodeKind::File && cats[j] == cat {
                    w.push(self.nodes[j].own_size);
                } else {
                    w.push(0);
                }
                j += 1;
            }
            assert(naturals(w@) =~= category_weights(ns, style, cat));
            assert(category_bytes(ns, style, 0, cat) <= u64::MAX);
            let folded_up = fold_up(&self.nodes, w, n);
            sums.push(folded_up);
            c += 1;
        }
        let mut out: Vec<FileCategory> = Vec::new();
        let mut a: usize = 0;
        while a < n
            invariant
                ns == self.nodes@,
                n == ns.len(),
                a <= n,
                cats@.len() == n,
                forall|j: int|
                    0 <= j < n && ns[j].kind == NodeKind::File ==> #[trigger] cats@[j] == filetype::category_spec(
                        style,
                        ns[j].name@,
                    ),
                sums@.len() == 8,
                forall|d: int| 0 <= d < 8 ==> (#[trigger] sums@[d])@.len() == n,
                forall|d: int, b: int|
                    0 <= d < 8 && 0 <= b < n ==> (#[trigger] sums@[d]@[b]) == category_bytes(
                        ns,
                        style,
                        b,
                        filetype::category_at(d),
                    ),
                out@.len() == a,
                forall|b: int| 0 <= b < a ==> dominates(ns, style, b, #[trigger] out@[b]),
            decreases n - a,
        {
            let row: [u64; 8] = [
                sums[0][a],
                sums[1][a],
                sums[2][a],
                sums[3][a],
                sums[4][a],
                sums[5][a],
                sums[6][a],
                sums[7][a],
            ];
            assert(naturals(row@) =~= category_profile(ns, style, a as int)) by {
                assert forall|d: int| 0 <= d < 8 implies naturals(row@)[d] == category_profile(
                    ns,
                    style,
                    a as int,
                )[d] by {
                    assert(row@[d] == sums@[d]@[a as int]);
                }
            }
            if self.nodes[a].kind == NodeKind::File && self.nodes[a].children.len() == 0 {
                out.push(cats[a]);
            } else {
                out.push(dominant_of(&row));
            }
            a += 1;
        }
        out
    }

    /// For every node the category that most of the bytes under it belong to; a
    /// leaf file's own, and `Other` for a directory without bytes. Names are read
    /// as the system the program runs on reads them.
    pub fn dominant_categories(&self) -> (r: Vec<FileCategory>)
        requires
            self.wf(),
            categories_fit(self@, PathStyle::Unix),
            categories_fit(self@, PathStyle::Windows),
        ensures
            dominants(self@, PathStyle::Unix, r@) || dominants(self@, PathStyle::Windows, r@),
            plain_names(self@) ==> dominants(self@, PathStyle::Unix, r@) && dominants(
                self@,
                PathStyle::Windows,
                r@,
            ),
    {
        let style = native_style();
        let r = self.dominant_categories_in(style);
        proof {
            if plain_names(self@) {
                lemma_plain_profiles(self@, style, PathStyle::Unix, r@);
                lemma_plain_profiles(self@, style, PathStyle::Windows, r@);
            }
        }
        r
    }
}

/// A file with nothing under it.
pub open spec fn is_leaf_file(n: Node) -> bool {
    n.kind == NodeKind::File && n.children@.len() == 0
}

/// The category of a node: a leaf file's own, whatever its size; of any other
/// node the one that leads in its subtree.
pub open spec fn dominates(ns: Seq<Node>, style: PathStyle, a: int, c: FileCategory) -> bool {
    if is_leaf_file(ns[a]) {
        c == filetype::category_spec(style, ns[a].name@)
    } else {
        leads(category_profile(ns, style, a), c)
    }
}

/// Every node's entry is its category.
pub open spec fn dominants(ns: Seq<Node>, style: PathStyle, r: Seq<FileCategory>) -> bool {
    &&& r.len() == ns.len()
    &&& forall|a: int| 0 <= a < ns.len() ==> dominates(ns, style, a, #[trigger] r[a])
}

/// No node's name holds a separator or a drive.
pub open spec fn plain_names(ns: Seq<Node>) -> bool {
    forall|i: int| 0 <= i < ns.len() ==> paths::is_plain((#[trigger] ns[i]).name@)
}

proof fn lemma_plain_profiles(ns: Seq<Node>, s: PathStyle, t: PathStyle, r: Seq<FileCategory>)
    requires
        plain_names(ns),
        dominants(ns, s, r),
    ensures
        dominants(ns, t, r),
{
    assert forall|c: FileCategory| #[trigger] category_weights(ns, s, c) == category_weights(ns, t, c) by {
        assert forall|i: int| 0 <= i < ns.len() implies filetype::category_spec(s, (#[trigger] ns[i]).name@)
            == filetype::category_spec(t, ns[i].name@) by {
            filetype::lemma_plain_category(s, ns[i].name@);
            filetype::lemma_plain_category(t, ns[i].name@);
        }
        assert(category_weights(ns, s, c) =~= category_weights(ns, t, c));
    }
    assert forall|a: int| 0 <= a < ns.len() implies dominates(ns, t, a, #[trigger] r[a]) by {
        filetype::lemma_plain_category(s, ns[a].name@);
        filetype::lemma_plain_category(t, ns[a].name@);
        assert(dominates(ns, s, a, r[a]));
        assert(category_profile(ns, t, a) =~= category_profile(ns, s, a)) by {
            assert forall|c: int| 0 <= c < 8 implies category_profile(ns, t, a)[c] == category_profile(ns, s, a)[c] by {
                assert(category_weights(ns, s, filetype::category_at(c)) == category_weights(
                    ns,
                    t,
                    filetype::category_at(c),
                ));
            }
        }
    }
}

/// The first `cutoff` nodes, or all of them.
pub open spec fn cut(ns: Seq<Node>, cutoff: usize) -> int {
    if cutoff < ns.len() {
        cutoff as int
    } else {
        ns.len() as int
    }
}

/// Two arenas that differ in totals alone have the same shape and sums.
proof fn lemma_totals_do_not_matter(x: Seq<Node>, y: Seq<Node>)
    requires
        nodes_ok(x),
        x.len() == y.len(),
        forall|j: int| 0 <= j < x.len() ==> same_but_totals(#[trigger] y[j], x[j]),
    ensures
        nodes_ok(y),
        forall|a: int, k: int| k <= x.len() ==> #[trigger] bytes_under(y, a, k) == bytes_under(x, a, k),
        forall|a: int, k: int| k <= x.len() ==> #[trigger] files_under(y, a, k) == files_under(x, a, k),
{
    assert forall|j: int| 0 <= j < x.len() implies #[trigger] parent_of(y, j) == parent_of(x, j) by {}
    assert(sizes(x) =~= sizes(y));
    assert(is_file(x) =~= is_file(y));
    assert forall|p: int| 0 <= p < y.len() implies (#[trigger] y[p]).children@ == child_ids(y, p, y.len() as int) by {
        lemma_child_ids_same(x, y, p, x.len() as int);
        assert(x[p].children@ == child_ids(x, p, x.len() as int));
    }
    assert forall|a: int, k: int| k <= x.len() implies #[trigger] bytes_under(y, a, k) == bytes_under(x, a, k) by {
        lemma_sum_same(y, x, sizes(y), sizes(x), a, k);
    }
    assert forall|a: int, k: int| k <= x.len() implies #[trigger] files_under(y, a, k) == files_under(x, a, k) by {
        lemma_sum_same(y, x, is_file(y), is_file(x), a, k);
    }
}

/// A child's name matches a wanted one: they are the same in lower case, where
/// both forms of the small sigma are one letter.
pub open spec fn name_matches(name: Seq<char>, want: Seq<char>) -> bool {
    folded_name(name) == folded_name(want)
}

/// A name in lower case, with every sigma in the form that it has inside a word.
pub open spec fn folded_name(name: Seq<char>) -> Seq<char> {
    text::replaced(text::lower_text(name), 'ς', 'σ')
}

/// A name in lower case, with every sigma in the form that it has inside a word.
fn fold_name(name: &str) -> (r: String)
    ensures
        r@ == folded_name(name@),
{
    replace_char(to_lower_text(name).as_str(), 'ς', 'σ')
}

/// The first of the ids from `i` on whose name matches.
pub open spec fn first_match(ns: Seq<Node>, ids: Seq<NodeId>, want: Seq<char>, i: int) -> Option<NodeId>
    decreases ids.len() - i,
{
    if i < 0 || i >= ids.len() {
        None
    } else if name_matches(ns[ids[i].at()].name@, want) {
        Some(ids[i])
    } else {
        first_match(ns, ids, want, i + 1)
    }
}

/// The walk down from `start`, one component after the other.
pub open spec fn descend(ns: Seq<Node>, start: NodeId, comps: Seq<Seq<char>>) -> Option<NodeId>
    decreases comps.len(),
{
    if comps.len() == 0 {
        Some(start)
    } else {
        match first_match(ns, ns[start.at()].children@, comps[0], 0) {
            Some(next) => descend(ns, next, comps.drop_first()),
            None => None,
        }
    }
}

/// The names from the root down to `i`.
pub open spec fn names_to(ns: Seq<Node>, i: int) -> Seq<Seq<char>>
    decreases i,
{
    if 0 < i && 0 <= parent_of(ns, i) < i {
        names_to(ns, parent_of(ns, i)).push(ns[i].name@)
    } else {
        seq![ns[i].name@]
    }
}

/// Borrowed texts by their characters.
pub open spec fn borrowed(v: Seq<&str>) -> Seq<Seq<char>> {
    v.map_values(|s: &str| s@)
}

proof fn lemma_child_ids_in_range(ns: Seq<Node>, p: int, k: int, i: int)
    requires
        parents_ok(ns),
        0 <= p,
        k <= ns.len(),
        0 <= i < child_ids(ns, p, k).len(),
    ensures
        p < child_ids(ns, p, k)[i].at() < k,
        parent_of(ns, child_ids(ns, p, k)[i].at()) == p,
    decreases k,
{
    if k > 1 {
        assert(parent_of(ns, k - 1) < k - 1);
        if parent_of(ns, k - 1) == p && i == child_ids(ns, p, k).len() - 1 {
        } else {
            lemma_child_ids_in_range(ns, p, k - 1, i);
        }
    }
}

proof fn lemma_children_in_range(ns: Seq<Node>, p: int)
    requires
        nodes_ok(ns),
        0 <= p < ns.len(),
    ensures
        forall|i: int|
            0 <= i < ns[p].children@.len() ==> p < (#[trigger] ns[p].children@[i]).at() < ns.len() && parent_of(
                ns,
                ns[p].children@[i].at(),
            ) == p,
{
    assert forall|i: int| 0 <= i < ns[p].children@.len() implies p < (#[trigger] ns[p].children@[i]).at() < ns.len()
        && parent_of(ns, ns[p].children@[i].at()) == p by {
        assert(ns[p].children@ == child_ids(ns, p, ns.len() as int));
        lemma_child_ids_in_range(ns, p, ns.len() as int, i);
    }
}

/// The children of a node are nodes behind it.
pub proof fn lemma_children_exist(ns: Seq<Node>, p: int)
    requires
        nodes_ok(ns),
        0 <= p < ns.len(),
    ensures
        forall|i: int| 0 <= i < ns[p].children@.len() ==> p < (#[trigger] ns[p].children@[i]).at() < ns.len(),
{
    lemma_children_in_range(ns, p);
}

impl Tree {
    /// Number of nodes, the root among them.
    pub fn len(&self) -> (r: usize)
        ensures
            r == self@.len(),
    {
        self.nodes.len()
    }

    /// Never: a tree always has its root.
    pub fn is_empty(&self) -> (r: bool)
        requires
            self.wf(),
        ensures
            r == (self@.len() == 0),
            !r,
    {
        false
    }

    /// A node by its id.
    pub fn node(&self, id: NodeId) -> (r: &Node)
        requires
            id.at() < self@.len(),
        ensures
            *r == self@[id.at()],
    {
        &self.nodes[id.index()]
    }

    /// A node's children, oldest first.
    pub fn children(&self, id: NodeId) -> (r: &[NodeId])
        requires
            id.at() < self@.len(),
        ensures
            r@ == self@[id.at()].children@,
    {
        self.nodes[id.index()].children.as_slice()
    }

    /// The ids of all nodes, oldest first.
    pub fn ids(&self) -> (r: Vec<NodeId>)
        requires
            self.wf(),
        ensures
            r@.len() == self@.len(),
            forall|i: int| 0 <= i < r@.len() ==> (#[trigger] r@[i]).at() == i,
    {
        let n: usize = self.nodes.len();
        let mut r: Vec<NodeId> = Vec::new();
        let mut i: usize = 0;
        while i < n
            invariant
                n <= 0x1_0000_0000,
                i <= n,
                r@.len() == i,
                forall|j: int| 0 <= j < i ==> (#[trigger] r@[j]).at() == j,
            decreases n - i,
        {
            r.push(NodeId(i as u32));
            i += 1;
        }
        r
    }

    /// Walks down from `start` by name, without regard to case. Where several
    /// children match, the oldest is taken; a component that no child matches
    /// ends the walk with `None`.
    pub fn find_descendant(&self, start: NodeId, components: &[&str]) -> (r: Option<NodeId>)
        requires
            self.wf(),
            start.at() < self@.len(),
        ensures
            r == descend(self@, start, borrowed(components@)),
            r matches Some(id) ==> id.at() < self@.len(),
    {
        let ghost ns = self@;
        let ghost comps = borrowed(components@);
        let mut cur = start;
        let mut c: usize = 0;
        assert(comps.skip(0) =~= comps);
        while c < components.len()
            invariant
                ns == self.nodes@,
                nodes_ok(ns),
                comps == borrowed(components@),
                c <= components@.len(),
                cur.at() < ns.len(),
                descend(ns, start, comps) == descend(ns, cur, comps.skip(c as int)),
            decreases components@.len() - c,
        {
            assert(comps.skip(c as int)[0] == components@[c as int]@);
            assert(comps.skip(c as int).drop_first() =~= comps.skip(c + 1));
            let want = fold_name(components[c]);
            let kids = &self.nodes[cur.index()].children;
            proof {
                lemma_children_in_range(ns, cur.at());
            }
            let mut found: Option<NodeId> = None;
            let mut i: usize = 0;
            let ghost w = components@[c as int]@;
            while i < kids.len() && found.is_none()
                invariant
                    ns == self.nodes@,
                    kids@ == ns[cur.at()].children@,
                    want@ == folded_name(w),
                    i <= kids@.len(),
                    forall|j: int| 0 <= j < kids@.len() ==> (#[trigger] kids@[j]).at() < ns.len(),
                    found is None ==> first_match(ns, kids@, w, 0) == first_match(ns, kids@, w, i as int),
                    found is Some ==> first_match(ns, kids@, w, 0) == found && found->0.at() < ns.len(),
                decreases kids@.len() - i, (if found is None { 1int } else { 0 }),
            {
                let id = kids[i];
                let low = fold_name(self.nodes[id.index()].name.as_str());
                if same_text(low.as_str(), want.as_str()) {
                    found = Some(id);
                } else {
                    i += 1;
                }
            }
            match found {
                Some(id) => {
                    cur = id;
                },
                None => {
                    return None;
                },
            }
            c += 1;
        }
        assert(comps.skip(c as int).len() == 0);
        Some(cur)
    }

    /// The names from the root down to `id`.
    pub fn path_components(&self, id: NodeId) -> (r: Vec<&str>)
        requires
            self.wf(),
            id.at() < self@.len(),
        ensures
            borrowed(r@) == names_to(self@, id.at()),
    {
        let ghost ns = self@;
        let mut chain: Vec<usize> = Vec::new();
        let mut cur: usize = id.index();
        let mut done = false;
        while !done
            invariant
                ns == self.nodes@,
                nodes_ok(ns),
                id.at() < ns.len(),
                cur < ns.len(),
                forall|j: int| 0 <= j < chain@.len() ==> (#[trigger] chain@[j]) < ns.len(),
                !done ==> names_to(ns, id.at()) == names_to(ns, cur as int) + backwards(ns, chain@),
                done ==> names_to(ns, id.at()) == backwards(ns, chain@),
            decreases cur, (if done { 0int } else { 1int }),
        {
            let ghost before = chain@;
            chain.push(cur);
            assert(chain@.drop_last() =~= before);
            let up: usize = self.nodes[cur].parent.index();
            assert(parent_of(ns, cur as int) == up);
            if up == cur {
                done = true;
                assert(names_to(ns, id.at()) =~= backwards(ns, chain@));
            } else {
                assert(names_to(ns, id.at()) =~= names_to(ns, up as int) + backwards(ns, chain@));
                cur = up;
            }
        }
        let mut out: Vec<&str> = Vec::new();
        let mut k: usize = chain.len();
        assert(chain@.take(k as int) =~= chain@);
        assert(borrowed(out@) =~= Seq::empty());
        while k > 0
            invariant
                ns == self.nodes@,
                k <= chain@.len(),
                forall|j: int| 0 <= j < chain@.len() ==> (#[trigger] chain@[j]) < ns.len(),
                names_to(ns, id.at()) == borrowed(out@) + backwards(ns, chain@.take(k as int)),
            decreases k,
        {
            k -= 1;
            let ghost before = borrowed(out@);
            let name = self.nodes[chain[k]].name.as_str();
            out.push(name);
            assert(chain@.take(k + 1).drop_last() =~= chain@.take(k as int));
            assert(borrowed(out@) =~= before.push(name@));
            assert(names_to(ns, id.at()) =~= borrowed(out@) + backwards(ns, chain@.take(k as int)));
        }
        assert(names_to(ns, id.at()) =~= borrowed(out@));
        out
    }
}

/// The names of a chain, last first.
spec fn backwards(ns: Seq<Node>, chain: Seq<usize>) -> Seq<Seq<char>>
    decreases chain.len(),
{
    if chain.len() == 0 {
        Seq::empty()
    } else {
        seq![ns[chain.last() as int].name@] + backwards(ns, chain.drop_last())
    }
}

/// Totals are settled by the nodes' own bytes, kinds and parents: two live trees
/// that differ in totals at most do not differ at all. So setting the totals of
/// a tree whose totals are right changes nothing, once or many times over, and
/// inserts that keep them right leave what setting them anew would.
pub proof fn law_live_totals_are_unique(x: Seq<Node>, y: Seq<Node>)
    requires
        nodes_ok(x),
        x.len() == y.len(),
        forall|j: int| 0 <= j < x.len() ==> same_but_totals(#[trigger] y[j], x[j]),
        sizes_live(x),
        sizes_live(y),
    ensures
        forall|j: int| 0 <= j < x.len() ==> #[trigger] y[j] == x[j],
{
    lemma_totals_do_not_matter(x, y);
    assert forall|j: int| 0 <= j < x.len() implies #[trigger] y[j] == x[j] by {
        assert(bytes_under(y, j, x.len() as int) == bytes_under(x, j, x.len() as int));
        assert(files_under(y, j, x.len() as int) == files_under(x, j, x.len() as int));
        assert(same_but_totals(y[j], x[j]));
    }
}

/// The numbers of the listed nodes, added up.
pub open spec fn listed_sum(v: Seq<nat>, ids: Seq<NodeId>) -> nat
    decreases ids.len(),
{
    if ids.len() == 0 {
        0
    } else {
        listed_sum(v, ids.drop_last()) + v[ids.last().at()]
    }
}

/// The bytes that the nodes say are at and under them.
pub open spec fn byte_totals(ns: Seq<Node>) -> Seq<nat> {
    Seq::new(ns.len(), |i: int| ns[i].subtree_size as nat)
}

/// The files that the nodes say are at and under them.
pub open spec fn file_totals(ns: Seq<Node>) -> Seq<nat> {
    Seq::new(ns.len(), |i: int| ns[i].file_count as nat)
}

/// Every node's totals are its own bytes, and itself where it is a file, and its
/// children's totals.
pub open spec fn adds_up(ns: Seq<Node>) -> bool {
    forall|a: int|
        0 <= a < ns.len() ==> (#[trigger] ns[a]).subtree_size == ns[a].own_size + listed_sum(
            byte_totals(ns),
            ns[a].children@,
        ) && ns[a].file_count == file_weight(ns[a].kind) + listed_sum(file_totals(ns), ns[a].children@)
}

proof fn lemma_child_ids_behind(ns: Seq<Node>, p: int, k: int)
    requires
        parents_ok(ns),
        k <= p + 1,
        k <= ns.len(),
    ensures
        child_ids(ns, p, k).len() == 0,
    decreases k,
{
    if k > 1 {
        assert(parent_of(ns, k - 1) < k - 1);
        lemma_child_ids_behind(ns, p, k - 1);
    }
}

/// What is at and under a node is its own weight, what is under its children
/// below `m`, and what else folds up to it.
proof fn lemma_sum_by_children(ns: Seq<Node>, w: Seq<nat>, v: Seq<nat>, a: int, m: int)
    requires
        parents_ok(ns),
        0 <= a < m <= ns.len(),
        w.len() == ns.len(),
        forall|c: int| a < c < ns.len() ==> #[trigger] v[c] == subtree_sum(ns, w, c, ns.len() as int),
    ensures
        subtree_sum(ns, w, a, ns.len() as int) == folded(ns, w, a, m, ns.len() as int) + listed_sum(
            v,
            child_ids(ns, a, m),
        ),
    decreases m,
{
    let n = ns.len() as int;
    if m == a + 1 {
        lemma_folded_all(ns, w, a, n);
        lemma_child_ids_behind(ns, a, m);
    } else {
        lemma_sum_by_children(ns, w, v, a, m - 1);
        lemma_folded_step(ns, w, a, m - 1, n);
        lemma_folded_all(ns, w, m - 1, n);
        let ids = child_ids(ns, a, m);
        if parent_of(ns, m - 1) == a {
            assert(ids.drop_last() =~= child_ids(ns, a, m - 1));
            assert(v[m - 1] == subtree_sum(ns, w, m - 1, n));
        }
    }
}

proof fn lemma_sum_by_level(ns: Seq<Node>, w: Seq<nat>, v: Seq<nat>, a: int)
    requires
        nodes_ok(ns),
        0 <= a < ns.len(),
        w.len() == ns.len(),
        forall|c: int| a < c < ns.len() ==> #[trigger] v[c] == subtree_sum(ns, w, c, ns.len() as int),
    ensures
        subtree_sum(ns, w, a, ns.len() as int) == w[a] + listed_sum(v, ns[a].children@),
{
    let n = ns.len() as int;
    lemma_sum_by_children(ns, w, v, a, n);
    lemma_folded_none(ns, w, a, n, n);
}

proof fn lemma_level_totals(ns: Seq<Node>, w: Seq<nat>, v: Seq<nat>, a: int)
    requires
        nodes_ok(ns),
        0 <= a < ns.len(),
        w.len() == ns.len(),
        forall|c: int| 0 <= c < ns.len() ==> #[trigger] v[c] == w[c] + listed_sum(v, ns[c].children@),
    ensures
        v[a] == subtree_sum(ns, w, a, ns.len() as int),
    decreases ns.len() - a,
{
    assert forall|c: int| a < c < ns.len() implies #[trigger] v[c] == subtree_sum(ns, w, c, ns.len() as int) by {
        lemma_level_totals(ns, w, v, c);
    }
    lemma_sum_by_level(ns, w, v, a);
}

/// Totals are right exactly where they add up level by level: a node's bytes are
/// its own and its children's totals, and its files likewise. So whatever keeps
/// the totals right keeps both equations at every node.
pub proof fn law_totals_add_up(ns: Seq<Node>)
    requires
        nodes_ok(ns),
    ensures
        sizes_live(ns) <==> adds_up(ns),
{
    let (b, f) = (byte_totals(ns), file_totals(ns));
    if sizes_live(ns) {
        assert forall|a: int| 0 <= a < ns.len() implies (#[trigger] ns[a]).subtree_size == ns[a].own_size + listed_sum(
            b,
            ns[a].children@,
        ) && ns[a].file_count == file_weight(ns[a].kind) + listed_sum(f, ns[a].children@) by {
            assert forall|c: int| 0 <= c < ns.len() implies b[c] == bytes_under(ns, c, ns.len() as int) && f[c]
                == files_under(ns, c, ns.len() as int) by {
                assert(ns[c].subtree_size == bytes_under(ns, c, ns.len() as int));
            }
            lemma_sum_by_level(ns, sizes(ns), b, a);
            lemma_sum_by_level(ns, is_file(ns), f, a);
        }
    }
    if adds_up(ns) {
        assert forall|c: int| 0 <= c < ns.len() implies #[trigger] b[c] == sizes(ns)[c] + listed_sum(b, ns[c].children@) by {
            assert(ns[c].subtree_size == ns[c].own_size + listed_sum(b, ns[c].children@));
        }
        assert forall|c: int| 0 <= c < ns.len() implies #[trigger] f[c] == is_file(ns)[c] + listed_sum(f, ns[c].children@) by {
            assert(ns[c].subtree_size == ns[c].own_size + listed_sum(b, ns[c].children@));
        }
        assert forall|a: int| 0 <= a < ns.len() implies (#[trigger] ns[a]).subtree_size == bytes_under(
            ns,
            a,
            ns.len() as int,
        ) && ns[a].file_count == files_under(ns, a, ns.len() as int) by {
            lemma_level_totals(ns, sizes(ns), b, a);
            lemma_level_totals(ns, is_file(ns), f, a);
            assert(b[a] == ns[a].subtree_size && f[a] == ns[a].file_count);
        }
    }
}

/// What is under a node only grows as nodes are discovered.
pub proof fn law_metrics_grow_with_cutoff(ns: Seq<Node>, a: int, j: int, k: int)
    requires
        0 <= j <= k <= ns.len(),
    ensures
        bytes_under(ns, a, j) <= bytes_under(ns, a, k),
        files_under(ns, a, j) <= files_under(ns, a, k),
    decreases k,
{
    if j < k {
        law_metrics_grow_with_cutoff(ns, a, j, k - 1);
    }
}

/// Metrics at a cutoff are the totals of the tree as it was then: `then` holds
/// the first nodes of `now`.
pub proof fn law_cutoff_shows_the_past(then: Seq<Node>, now: Seq<Node>, a: int)
    requires
        then.len() <= now.len(),
        forall|i: int|
            0 <= i < then.len() ==> (#[trigger] now[i]).parent == then[i].parent && now[i].own_size
                == then[i].own_size && now[i].kind == then[i].kind,
    ensures
        bytes_under(now, a, then.len() as int) == bytes_under(then, a, then.len() as int),
        files_under(now, a, then.len() as int) == files_under(then, a, then.len() as int),
{
    let k = then.len() as int;
    assert forall|i: int| 0 <= i < k implies #[trigger] parent_of(now, i) == parent_of(then, i) by {}
    lemma_sum_same(now, then, sizes(now), sizes(then), a, k);
    lemma_sum_same(now, then, is_file(now), is_file(then), a, k);
}

/// Everything lies under the root: its totals are those of all nodes.
pub proof fn law_root_holds_everything(ns: Seq<Node>, k: int)
    requires
        parents_ok(ns),
        k <= ns.len(),
    ensures
        bytes_under(ns, 0, k) == total(sizes(ns), k),
        files_under(ns, 0, k) == total(is_file(ns), k),
{
    lemma_root_sum(ns, sizes(ns), k);
    lemma_root_sum(ns, is_file(ns), k);
}

/// No node holds more than its parent.
pub proof fn law_parent_holds_child(ns: Seq<Node>, i: int, k: int)
    requires
        parents_ok(ns),
        0 < i < ns.len(),
        k <= ns.len(),
    ensures
        bytes_under(ns, i, k) <= bytes_under(ns, parent_of(ns, i), k),
        files_under(ns, i, k) <= files_under(ns, parent_of(ns, i), k),
    decreases k,
{
    if k > 0 {
        law_parent_holds_child(ns, i, k - 1);
        if above(ns, i, k - 1) {
            lemma_above_parent(ns, i, k - 1);
        }
    }
}

/// A path starts at the root's name and ends at the node's own.
pub proof fn law_path_runs_from_root(ns: Seq<Node>, i: int)
    requires
        parents_ok(ns),
        0 <= i < ns.len(),
    ensures
        names_to(ns, i).len() > 0,
        names_to(ns, i)[0] == ns[0].name@,
        names_to(ns, i).last() == ns[i].name@,
    decreases i,
{
    if i > 0 {
        assert(parent_of(ns, i) < i);
        law_path_runs_from_root(ns, parent_of(ns, i));
    }
}

proof fn lemma_descend_further(ns: Seq<Node>, start: NodeId, comps: Seq<Seq<char>>, last: Seq<char>)
    ensures
        descend(ns, start, comps.push(last)) == (match descend(ns, start, comps) {
            Some(m) => first_match(ns, ns[m.at()].children@, last, 0),
            None => None,
        }),
    decreases comps.len(),
{
    if comps.len() == 0 {
        assert(comps.push(last).drop_first() =~= Seq::empty());
        match first_match(ns, ns[start.at()].children@, last, 0) {
            Some(next) => {
                assert(descend(ns, next, Seq::empty()) == Some(next));
            },
            None => {},
        }
    } else {
        assert(comps.push(last).drop_first() =~= comps.drop_first().push(last));
        match first_match(ns, ns[start.at()].children@, comps[0], 0) {
            Some(next) => {
                lemma_descend_further(ns, next, comps.drop_first(), last);
            },
            None => {},
        }
    }
}

proof fn lemma_child_is_listed(ns: Seq<Node>, i: int, k: int) -> (q: int)
    requires
        parents_ok(ns),
        0 < i < k <= ns.len(),
    ensures
        0 <= q < child_ids(ns, parent_of(ns, i), k).len(),
        child_ids(ns, parent_of(ns, i), k)[q].at() == i,
        forall|j: int| 0 <= j < q ==> (#[trigger] child_ids(ns, parent_of(ns, i), k)[j]).at() < i,
    decreases k,
{
    let p = parent_of(ns, i);
    assert(p < i);
    if i == k - 1 {
        let q = child_ids(ns, p, k).len() - 1;
        assert forall|j: int| 0 <= j < q implies (#[trigger] child_ids(ns, p, k)[j]).at() < i by {
            lemma_child_ids_in_range(ns, p, k - 1, j);
        }
        q
    } else {
        lemma_child_is_listed(ns, i, k - 1)
    }
}

proof fn lemma_first_match_at(ns: Seq<Node>, ids: Seq<NodeId>, want: Seq<char>, i: int, q: int)
    requires
        0 <= i <= q < ids.len(),
        name_matches(ns[ids[q].at()].name@, want),
        forall|j: int| i <= j < q ==> !name_matches(ns[(#[trigger] ids[j]).at()].name@, want),
    ensures
        first_match(ns, ids, want, i) == Some(ids[q]),
    decreases q - i,
{
    if i < q {
        lemma_first_match_at(ns, ids, want, i + 1, q);
    }
}

/// No two children of one directory have names that match each other.
pub open spec fn siblings_differ(ns: Seq<Node>) -> bool {
    forall|j: int, k: int|
        0 < j < k < ns.len() && ns[j].parent == ns[k].parent ==> !name_matches(
            (#[trigger] ns[j]).name@,
            (#[trigger] ns[k]).name@,
        )
}

/// Name by name, the texts match the way to node `i`.
pub open spec fn spells(ns: Seq<Node>, i: int, comps: Seq<Seq<char>>) -> bool {
    let way = names_to(ns, i).drop_first();
    &&& comps.len() == way.len()
    &&& forall|k: int| 0 <= k < way.len() ==> name_matches(#[trigger] way[k], comps[k])
}

/// A node is found by its own path in any case, where no two children of one
/// directory have matching names. A walk of no steps stays where it is.
pub proof fn law_found_by_own_path(ns: Seq<Node>, i: int, comps: Seq<Seq<char>>)
    requires
        nodes_ok(ns),
        0 <= i < ns.len(),
        siblings_differ(ns),
        spells(ns, i, comps),
    ensures
        descend(ns, NodeId(0), comps) == Some(NodeId(i as u32)),
        descend(ns, NodeId(0), names_to(ns, i).drop_first()) == Some(NodeId(i as u32)),
        descend(ns, NodeId(i as u32), Seq::empty()) == Some(NodeId(i as u32)),
{
    lemma_found_by_path(ns, i, comps);
    lemma_found_by_path(ns, i, names_to(ns, i).drop_first());
}

proof fn lemma_found_by_path(ns: Seq<Node>, i: int, comps: Seq<Seq<char>>)
    requires
        nodes_ok(ns),
        0 <= i < ns.len(),
        siblings_differ(ns),
        spells(ns, i, comps),
    ensures
        descend(ns, NodeId(0), comps) == Some(NodeId(i as u32)),
    decreases i,
{
    let way = names_to(ns, i).drop_first();
    if i == 0 {
        assert(comps =~= Seq::empty());
    } else {
        let p = parent_of(ns, i);
        assert(p < i);
        law_path_runs_from_root(ns, p);
        let up = names_to(ns, p).drop_first();
        assert(way =~= up.push(ns[i].name@));
        let last = comps.last();
        assert(spells(ns, p, comps.drop_last())) by {
            assert forall|k: int| 0 <= k < up.len() implies name_matches(#[trigger] up[k], comps.drop_last()[k]) by {
                assert(way[k] == up[k]);
            }
        }
        lemma_found_by_path(ns, p, comps.drop_last());
        let n = ns.len() as int;
        assert(comps =~= comps.drop_last().push(last));
        assert(name_matches(way[way.len() - 1], last));
        lemma_descend_further(ns, NodeId(0), comps.drop_last(), last);
        let ids = ns[p].children@;
        assert(ids == child_ids(ns, p, n));
        let q = lemma_child_is_listed(ns, i, n);
        assert forall|j: int| 0 <= j < q implies !name_matches(ns[(#[trigger] ids[j]).at()].name@, last) by {
            lemma_child_ids_in_range(ns, p, n, j);
            assert(parent_of(ns, ids[j].at()) == parent_of(ns, i));
            assert(!name_matches(ns[ids[j].at()].name@, ns[i].name@));
        }
        lemma_first_match_at(ns, ids, last, 0, q);
    }
}

proof fn lemma_ascii_folds(name: Seq<char>)
    requires
        text::all_ascii(name),
    ensures
        folded_name(name) == text::ascii_lower_text(name),
{
    text::lemma_lower_text(name, name);
    let low = text::ascii_lower_text(name);
    assert forall|i: int| 0 <= i < low.len() implies low[i] != 'ς' by {
        assert((name[i] as int) < 0x80);
    }
    assert(text::replaced(low, 'ς', 'σ') =~= low);
}

/// Texts that differ in the case of ASCII letters at most match, and ASCII texts
/// match only then: in a tree of ASCII names where no two children of one
/// directory differ in case alone, every node is found by its own path with the
/// case of its letters changed at will.
pub proof fn law_case_makes_no_difference(ns: Seq<Node>, i: int, comps: Seq<Seq<char>>)
    requires
        nodes_ok(ns),
        0 <= i < ns.len(),
        forall|j: int| 0 <= j < ns.len() ==> text::all_ascii((#[trigger] ns[j]).name@),
        forall|j: int, k: int|
            0 < j < k < ns.len() && ns[j].parent == ns[k].parent ==> !text::same_but_ascii_case(
                (#[trigger] ns[j]).name@,
                (#[trigger] ns[k]).name@,
            ),
        comps.len() == names_to(ns, i).len() - 1,
        forall|k: int|
            0 <= k < comps.len() ==> text::same_but_ascii_case(names_to(ns, i)[k + 1], #[trigger] comps[k]),
    ensures
        descend(ns, NodeId(0), comps) == Some(NodeId(i as u32)),
{
    assert forall|j: int, k: int| 0 < j < k < ns.len() && ns[j].parent == ns[k].parent implies !name_matches(
        (#[trigger] ns[j]).name@,
        (#[trigger] ns[k]).name@,
    ) by {
        text::lemma_lower_text(ns[j].name@, ns[k].name@);
        lemma_ascii_folds(ns[j].name@);
        lemma_ascii_folds(ns[k].name@);
    }
    let way = names_to(ns, i).drop_first();
    assert forall|k: int| 0 <= k < way.len() implies name_matches(#[trigger] way[k], comps[k]) by {
        text::lemma_lower_text(way[k], comps[k]);
        assert(way[k] == names_to(ns, i)[k + 1]);
    }
    law_found_by_own_path(ns, i, comps);
}

/// Arenas with the same parents have the same lists of children; with the same
/// own bytes and kinds besides, right totals are the same.
pub proof fn lemma_same_shape(x: Seq<Node>, y: Seq<Node>)
    requires
        nodes_ok(x),
        nodes_ok(y),
        x.len() == y.len(),
        forall|i: int|
            0 <= i < x.len() ==> (#[trigger] y[i]).parent.0 == x[i].parent.0 && y[i].own_size == x[i].own_size
                && y[i].kind == x[i].kind,
    ensures
        forall|i: int| 0 <= i < x.len() ==> (#[trigger] y[i]).children@ == x[i].children@,
        sizes_live(x) && sizes_live(y) ==> forall|i: int|
            0 <= i < x.len() ==> (#[trigger] y[i]).subtree_size == x[i].subtree_size && y[i].file_count
                == x[i].file_count,
{
    let n = x.len() as int;
    assert forall|j: int| 0 <= j < n implies #[trigger] parent_of(y, j) == parent_of(x, j) by {}
    assert(sizes(x) =~= sizes(y));
    assert(is_file(x) =~= is_file(y));
    assert forall|i: int| 0 <= i < n implies (#[trigger] y[i]).children@ == x[i].children@ by {
        lemma_child_ids_same(x, y, i, n);
    }
    assert forall|i: int| 0 <= i < n implies bytes_under(y, i, n) == bytes_under(x, i, n) && files_under(y, i, n)
        == files_under(x, i, n) && (#[trigger] y[i]).own_size == x[i].own_size by {
        lemma_sum_same(y, x, sizes(y), sizes(x), i, n);
        lemma_sum_same(y, x, is_file(y), is_file(x), i, n);
    }
}

impl Tree {
    /// A tree from its nodes column by column, totals and lists of children
    /// worked out anew.
    pub(crate) fn from_columns(
        name: &Vec<String>,
        parent: &Vec<u32>,
        kind: &Vec<NodeKind>,
        own_size: &Vec<u64>,
    ) -> (r: Tree)
        requires
            0 < name@.len() <= 0x1_0000_0000,
            parent@.len() == name@.len(),
            kind@.len() == name@.len(),
            own_size@.len() == name@.len(),
            parent@[0] == 0,
            forall|i: int| 0 < i < parent@.len() ==> (#[trigger] parent@[i]) < i,
            total(naturals(own_size@), own_size@.len() as int) <= u64::MAX,
        ensures
            r.wf(),
            sizes_live(r@),
            r@.len() == name@.len(),
            forall|i: int|
                0 <= i < r@.len() ==> {
                    &&& (#[trigger] r@[i]).name@ == name@[i]@
                    &&& r@[i].parent.0 == parent@[i]
                    &&& r@[i].kind == kind@[i]
                    &&& r@[i].own_size == own_size@[i]
                },
    {
        let n: usize = name.len();
        let mut nodes: Vec<Node> = Vec::new();
        let mut i: usize = 0;
        while i < n
            invariant
                n == name@.len(),
                parent@.len() == n,
                kind@.len() == n,
                own_size@.len() == n,
                i <= n,
                nodes@.len() == i,
                forall|j: int|
                    0 <= j < i ==> {
                        &&& (#[trigger] nodes@[j]).name@ == name@[j]@
                        &&& nodes@[j].parent.0 == parent@[j]
                        &&& nodes@[j].kind == kind@[j]
                        &&& nodes@[j].own_size == own_size@[j]
                        &&& nodes@[j].children@ == Seq::<NodeId>::empty()
                    },
            decreases n - i,
        {
            nodes.push(
                Node {
                    name: name[i].clone(),
                    parent: NodeId(parent[i]),
                    kind: kind[i],
                    own_size: own_size[i],
                    subtree_size: 0,
                    file_count: 0,
                    children: Vec::new(),
                },
            );
            i += 1;
        }
        let ghost bare = nodes@;
        assert(parents_ok(bare)) by {
            assert forall|j: int| 0 < j < bare.len() implies #[trigger] parent_of(bare, j) < j by {
                assert(parent@[j] < j);
            }
        }
        let mut c: usize = 1;
        assert forall|p: int| 0 <= p < n implies child_ids(bare, p, 1) == Seq::<NodeId>::empty() by {}
        while c < n
            invariant
                n == bare.len(),
                n <= 0x1_0000_0000,
                parents_ok(bare),
                1 <= c <= n,
                nodes@.len() == n,
                forall|j: int|
                    0 <= j < n ==> {
                        &&& (#[trigger] nodes@[j]).name == bare[j].name
                        &&& nodes@[j].parent == bare[j].parent
                        &&& nodes@[j].kind == bare[j].kind
                        &&& nodes@[j].own_size == bare[j].own_size
                        &&& nodes@[j].children@ == child_ids(bare, j, c as int)
                    },
            decreases n - c,
        {
            let p: usize = nodes[c].parent.index();
            assert(parent_of(bare, c as int) == p);
            nodes[p].children.push(NodeId(c as u32));
            c += 1;
        }
        let mut tree = Tree { nodes };
        proof {
            let ns = tree@;
            assert forall|j: int| 0 <= j < n implies #[trigger] parent_of(ns, j) == parent_of(bare, j) by {}
            assert(parents_ok(ns)) by {
                assert forall|j: int| 0 < j < ns.len() implies #[trigger] parent_of(ns, j) < j by {
                    assert(parent_of(bare, j) < j);
                }
                assert(parent_of(ns, 0) == parent_of(bare, 0));
            }
            assert forall|p: int| 0 <= p < ns.len() implies (#[trigger] ns[p]).children@ == child_ids(
                ns,
                p,
                ns.len() as int,
            ) by {
                lemma_child_ids_same(ns, bare, p, n as int);
            }
            lemma_root_sum(ns, sizes(ns), n as int);
            assert(sizes(ns) =~= naturals(own_size@));
        }
        tree.recompute_sizes();
        tree
    }

    /// A tree's nodes column by column.
    pub(crate) fn columns(&self) -> (r: (Vec<String>, Vec<u32>, Vec<NodeKind>, Vec<u64>))
        ensures
            r.0@.len() == self@.len(),
            r.1@.len() == self@.len(),
            r.2@.len() == self@.len(),
            r.3@.len() == self@.len(),
            forall|i: int| 0 <= i < self@.len() ==> (#[trigger] r.0@[i])@ == self@[i].name@,
            forall|i: int| 0 <= i < self@.len() ==> (#[trigger] r.1@[i]) == self@[i].parent.0,
            forall|i: int| 0 <= i < self@.len() ==> (#[trigger] r.2@[i]) == self@[i].kind,
            forall|i: int| 0 <= i < self@.len() ==> (#[trigger] r.3@[i]) == self@[i].own_size,
    {
        let n: usize = self.nodes.len();
        let mut name: Vec<String> = Vec::new();
        let mut parent: Vec<u32> = Vec::new();
        let mut kind: Vec<NodeKind> = Vec::new();
        let mut own_size: Vec<u64> = Vec::new();
        let mut i: usize = 0;
        while i < n
            invariant
                n == self.nodes@.len(),
                i <= n,
                name@.len() == i,
                parent@.len() == i,
                kind@.len() == i,
                own_size@.len() == i,
                forall|j: int| 0 <= j < i ==> (#[trigger] name@[j])@ == self.nodes@[j].name@,
                forall|j: int| 0 <= j < i ==> (#[trigger] parent@[j]) == self.nodes@[j].parent.0,
                forall|j: int| 0 <= j < i ==> (#[trigger] kind@[j]) == self.nodes@[j].kind,
                forall|j: int| 0 <= j < i ==> (#[trigger] own_size@[j]) == self.nodes@[j].own_size,
            decreases n - i,
        {
            name.push(self.nodes[i].name.clone());
            parent.push(self.nodes[i].parent.0);
            kind.push(self.nodes[i].kind);
            own_size.push(self.nodes[i].own_size);
            i += 1;
        }
        (name, parent, kind, own_size)
    }
}

/// In a live tree no ancestor holds more than the root, which counts no more
/// files than there are nodes.
pub proof fn lemma_room_for_child(ns: Seq<Node>, p: int)
    requires
        nodes_ok(ns),
        sizes_live(ns),
        0 <= p < ns.len(),
    ensures
        forall|i: int|
            0 <= i < ns.len() ==> (#[trigger] ns[i]).subtree_size <= bytes_under(ns, 0, ns.len() as int)
                && ns[i].file_count <= ns.len(),
{
    let n = ns.len() as int;
    lemma_root_sum(ns, sizes(ns), n);
    lemma_count_bound(ns, n);
    assert forall|i: int| 0 <= i < n implies (#[trigger] ns[i]).subtree_size <= bytes_under(ns, 0, n)
        && ns[i].file_count <= n by {
        lemma_sum_of_part(ns, sizes(ns), i, n);
        lemma_sum_of_part(ns, is_file(ns), i, n);
    }
}

/// A child that was added anywhere adds its own bytes to the root.
pub proof fn lemma_root_gains(ns: Seq<Node>, after: Seq<Node>, p: int)
    requires
        nodes_ok(ns),
        nodes_ok(after),
        0 <= p < ns.len(),
        after.len() == ns.len() + 1,
        parent_of(after, ns.len() as int) == p,
        forall|i: int|
            0 <= i < ns.len() ==> (#[trigger] after[i]).parent == ns[i].parent && after[i].own_size == ns[i].own_size,
    ensures
        above(ns, 0, p),
        bytes_under(after, 0, after.len() as int) == bytes_under(ns, 0, ns.len() as int)
            + after[ns.len() as int].own_size,
{
    assert forall|j: int| 0 <= j < ns.len() implies #[trigger] parent_of(after, j) == parent_of(ns, j) by {}
    lemma_root_is_above(ns, p);
    lemma_sum_of_added(ns, after, sizes(ns), sizes(after), p, 0);
}

proof fn lemma_sum_bounded(ns: Seq<Node>, small: Seq<nat>, big: Seq<nat>, a: int, k: int)
    requires
        k <= small.len(),
        small.len() == big.len(),
        forall|i: int| 0 <= i < small.len() ==> (#[trigger] small[i]) <= big[i],
    ensures
        subtree_sum(ns, small, a, k) <= subtree_sum(ns, big, a, k),
    decreases k,
{
    if k > 0 {
        lemma_sum_bounded(ns, small, big, a, k - 1);
        assert(small[k - 1] <= big[k - 1]);
    }
}

/// Where the totals of a tree are right, no category's bytes overflow.
pub proof fn lemma_live_categories_fit(ns: Seq<Node>, style: PathStyle)
    requires
        ns.len() > 0,
        sizes_live(ns),
    ensures
        categories_fit(ns, style),
{
    assert forall|c: FileCategory| #[trigger] category_bytes(ns, style, 0, c) <= u64::MAX by {
        let w = category_weights(ns, style, c);
        assert forall|i: int| 0 <= i < w.len() implies (#[trigger] w[i]) <= sizes(ns)[i] by {}
        lemma_sum_bounded(ns, w, sizes(ns), 0, ns.len() as int);
        assert(ns[0].subtree_size == bytes_under(ns, 0, ns.len() as int));
    }
}

proof fn lemma_child_ids_hold(ns: Seq<Node>, p: int, k: int)
    requires
        0 <= k <= ns.len(),
        ns.len() <= 0x1_0000_0000,
    ensures
        forall|c: NodeId| #[trigger]
            child_ids(ns, p, k).contains(c) <==> 0 < c.at() < k && parent_of(ns, c.at()) == p,
        forall|i: int, j: int|
            0 <= i < j < child_ids(ns, p, k).len() ==> (#[trigger] child_ids(ns, p, k)[i]).at() < (
            #[trigger] child_ids(ns, p, k)[j]).at(),
    decreases k,
{
    if k > 1 {
        lemma_child_ids_hold(ns, p, k - 1);
        let rest = child_ids(ns, p, k - 1);
        let all = child_ids(ns, p, k);
        let last = NodeId((k - 1) as u32);
        assert forall|i: int| 0 <= i < rest.len() implies (#[trigger] rest[i]).at() < k - 1 by {
            assert(rest.contains(rest[i]));
        }
        assert forall|c: NodeId| #[trigger] all.contains(c) <==> 0 < c.at() < k && parent_of(ns, c.at()) == p by {
            if parent_of(ns, k - 1) == p {
                assert(all[all.len() - 1] == last);
                if rest.contains(c) {
                    let i = choose|i: int| 0 <= i < rest.len() && rest[i] == c;
                    assert(all[i] == c);
                }
                if all.contains(c) {
                    let i = choose|i: int| 0 <= i < all.len() && all[i] == c;
                    if i < rest.len() {
                        assert(rest[i] == c);
                    }
                }
            }
            if c.at() == k - 1 {
                assert(c == last);
            }
            assert(rest.contains(c) <==> 0 < c.at() < k - 1 && parent_of(ns, c.at()) == p);
        }
    } else {
        assert(child_ids(ns, p, k) =~= Seq::empty());
    }
}

/// The children of a node are exactly the other nodes that name it as their
/// parent, each once and oldest first.
pub proof fn law_children_name_their_parent(ns: Seq<Node>, p: int)
    requires
        nodes_ok(ns),
        0 <= p < ns.len(),
    ensures
        forall|c: NodeId| #[trigger]
            ns[p].children@.contains(c) <==> 0 < c.at() < ns.len() && ns[c.at()].parent.0 == p,
        ns[p].children@.no_duplicates(),
        forall|i: int, j: int|
            0 <= i < j < ns[p].children@.len() ==> (#[trigger] ns[p].children@[i]).0 < (#[trigger] ns[p].children@[j]).0,
{
    lemma_child_ids_hold(ns, p, ns.len() as int);
    let v = ns[p].children@;
    assert forall|i: int, j: int| 0 <= i < v.len() && 0 <= j < v.len() && i != j implies v[i] != v[j] by {
        if i < j {
            assert(v[i].at() < v[j].at());
        } else {
            assert(v[j].at() < v[i].at());
        }
    }
}

/// The files that are counted are the nodes that are files, each once, and the
/// bytes are theirs: a node with nothing under it holds its own bytes, and counts
/// one file where it is one and none where it is a directory.
pub proof fn law_leaf_counts_itself(ns: Seq<Node>, i: int)
    requires
        nodes_ok(ns),
        sizes_live(ns),
        0 <= i < ns.len(),
        ns[i].children@.len() == 0,
    ensures
        ns[i].subtree_size == ns[i].own_size,
        ns[i].kind == NodeKind::File ==> ns[i].file_count == 1,
        ns[i].kind == NodeKind::Dir ==> ns[i].file_count == 0,
{
    law_totals_add_up(ns);
    assert(ns[i].children@ =~= Seq::empty());
}

/// A directory with one child holds what the child holds, and its own bytes; it is
/// no file itself. With several, each of them adds what it holds.
pub proof fn law_directory_holds_its_children(ns: Seq<Node>, i: int)
    requires
        nodes_ok(ns),
        sizes_live(ns),
        0 <= i < ns.len(),
        ns[i].kind == NodeKind::Dir,
        ns[i].children@.len() > 0,
    ensures
        ns[i].children@.len() == 1 ==> ns[i].subtree_size == ns[i].own_size + ns[ns[i].children@[0].at()].subtree_size
            && ns[i].file_count == ns[ns[i].children@[0].at()].file_count,
        ns[i].children@.len() == 2 ==> ns[i].subtree_size == ns[i].own_size + ns[ns[i].children@[0].at()].subtree_size
            + ns[ns[i].children@[1].at()].subtree_size && ns[i].file_count == ns[ns[i].children@[0].at()].file_count
            + ns[ns[i].children@[1].at()].file_count,
        forall|k: int|
            0 <= k < ns[i].children@.len() ==> ns[(#[trigger] ns[i].children@[k]).at()].subtree_size <= ns[i].subtree_size
                && ns[ns[i].children@[k].at()].file_count <= ns[i].file_count,
{
    law_totals_add_up(ns);
    lemma_children_exist(ns, i);
    let kids = ns[i].children@;
    let (b, f) = (byte_totals(ns), file_totals(ns));
    assert forall|k: int| 0 <= k < kids.len() implies ns[(#[trigger] kids[k]).at()].subtree_size <= ns[i].subtree_size
        && ns[kids[k].at()].file_count <= ns[i].file_count by {
        lemma_listed_part(b, kids, k);
        lemma_listed_part(f, kids, k);
    }
    if kids.len() == 1 {
        assert(kids.drop_last() =~= Seq::empty());
        assert(listed_sum(b, kids.drop_last()) == 0 && listed_sum(f, kids.drop_last()) == 0);
    }
    if kids.len() == 2 {
        let one = kids.drop_last();
        assert(one.drop_last() =~= Seq::empty());
        assert(listed_sum(b, one.drop_last()) == 0 && listed_sum(f, one.drop_last()) == 0);
        assert(one.last() == kids[0]);
        assert(listed_sum(b, one) == b[kids[0].at()] && listed_sum(f, one) == f[kids[0].at()]);
    }
}

proof fn lemma_listed_part(v: Seq<nat>, ids: Seq<NodeId>, k: int)
    requires
        0 <= k < ids.len(),
    ensures
        v[ids[k].at()] <= listed_sum(v, ids),
    decreases ids.len(),
{
    if k < ids.len() - 1 {
        lemma_listed_part(v, ids.drop_last(), k);
    }
}

/// The category of a directory is one that holds the most bytes of the files under
/// it: no other holds more, and of those that hold as many it is the first in the
/// legend. That of a file is its name's.
pub proof fn law_category_with_most_bytes_leads(ns: Seq<Node>, style: PathStyle, r: Seq<FileCategory>, a: int, c: FileCategory)
    requires
        dominants(ns, style, r),
        0 <= a < ns.len(),
    ensures
        ns[a].kind == NodeKind::Dir ==> category_bytes(ns, style, a, c) <= category_bytes(ns, style, a, r[a])
            || category_bytes(ns, style, a, c) == 0,
        ns[a].kind == NodeKind::Dir && category_bytes(ns, style, a, c) > 0 && category_bytes(ns, style, a, c)
            == category_bytes(ns, style, a, r[a]) ==> r[a].rank() <= c.rank(),
        ns[a].kind == NodeKind::File && ns[a].children@.len() == 0 ==> r[a] == filetype::category_spec(style, ns[a].name@),
        ns[a].kind == NodeKind::Dir && category_bytes(ns, style, a, FileCategory::Video) == 0 && category_bytes(
            ns,
            style,
            a,
            FileCategory::Image,
        ) == 0 && category_bytes(ns, style, a, FileCategory::Audio) == 0 && category_bytes(
            ns,
            style,
            a,
            FileCategory::Archive,
        ) == 0 && category_bytes(ns, style, a, FileCategory::Document) == 0 && category_bytes(
            ns,
            style,
            a,
            FileCategory::Code,
        ) == 0 && category_bytes(ns, style, a, FileCategory::System) == 0 ==> r[a] == FileCategory::Other,
{
    assert(dominates(ns, style, a, r[a]));
    let p = category_profile(ns, style, a);
    assert(filetype::category_at(c.rank()) == c);
    assert(filetype::category_at(r[a].rank()) == r[a]);
    assert(p[c.rank()] == category_bytes(ns, style, a, c));
    assert(p[r[a].rank()] == category_bytes(ns, style, a, r[a]));
    if ns[a].kind == NodeKind::Dir && r[a] != FileCategory::Other {
        let j = choose|j: int| 0 <= j < 8 && #[trigger] p[j] != 0;
        assert(p[j] == category_bytes(ns, style, a, filetype::category_at(j)));
        assert(p[j] <= p[r[a].rank()]);
    }
}

/// The bytes of the categories at and under a node are those of its files: where
/// only files have bytes of their own, all categories together hold what the node
/// holds, and a category holds as much as there is under it exactly where every
/// byte is of it.
pub proof fn law_categories_share_the_bytes(ns: Seq<Node>, style: PathStyle, a: int)
    requires
        forall|i: int| 0 <= i < ns.len() && ns[i].kind == NodeKind::Dir ==> (#[trigger] ns[i]).own_size == 0,
    ensures
        category_bytes(ns, style, a, FileCategory::Video) + category_bytes(ns, style, a, FileCategory::Image)
            + category_bytes(ns, style, a, FileCategory::Audio) + category_bytes(ns, style, a, FileCategory::Archive)
            + category_bytes(ns, style, a, FileCategory::Document) + category_bytes(ns, style, a, FileCategory::Code)
            + category_bytes(ns, style, a, FileCategory::System) + category_bytes(ns, style, a, FileCategory::Other)
            == bytes_under(ns, a, ns.len() as int),
{
    lemma_categories_share(ns, style, a, ns.len() as int);
}

proof fn lemma_categories_share(ns: Seq<Node>, style: PathStyle, a: int, k: int)
    requires
        0 <= k <= ns.len(),
        forall|i: int| 0 <= i < ns.len() && ns[i].kind == NodeKind::Dir ==> (#[trigger] ns[i]).own_size == 0,
    ensures
        subtree_sum(ns, category_weights(ns, style, FileCategory::Video), a, k) + subtree_sum(
            ns,
            category_weights(ns, style, FileCategory::Image),
            a,
            k,
        ) + subtree_sum(ns, category_weights(ns, style, FileCategory::Audio), a, k) + subtree_sum(
            ns,
            category_weights(ns, style, FileCategory::Archive),
            a,
            k,
        ) + subtree_sum(ns, category_weights(ns, style, FileCategory::Document), a, k) + subtree_sum(
            ns,
            category_weights(ns, style, FileCategory::Code),
            a,
            k,
        ) + subtree_sum(ns, category_weights(ns, style, FileCategory::System), a, k) + subtree_sum(
            ns,
            category_weights(ns, style, FileCategory::Other),
            a,
            k,
        ) == subtree_sum(ns, sizes(ns), a, k),
    decreases k,
{
    if k > 0 {
        lemma_categories_share(ns, style, a, k - 1);
        let n = ns[k - 1];
        assert(n.kind == NodeKind::Dir ==> n.own_size == 0);
    }
}

/// A node that is added comes last, under its parent and behind its other
/// children, and changes nothing of what is told of the nodes before it.
pub proof fn law_added_node_comes_last(
    ns: Seq<Node>,
    after: Seq<Node>,
    p: int,
    name: Seq<char>,
    kind: NodeKind,
    own_size: u64,
)
    requires
        child_added(ns, after, p, name, kind, own_size),
        0 <= p < ns.len() <= u32::MAX,
    ensures
        after.len() == ns.len() + 1,
        after.last().name@ == name && after.last().kind == kind && after.last().own_size == own_size,
        after.last().parent.0 == p && after.last().children@.len() == 0,
        after[p].children@.len() == ns[p].children@.len() + 1 && after[p].children@.last().0 == ns.len(),
        forall|i: int|
            0 <= i < ns.len() ==> (#[trigger] after[i]).name == ns[i].name && after[i].parent == ns[i].parent && after[i].kind
                == ns[i].kind && after[i].own_size == ns[i].own_size && (i != p ==> after[i].children@ == ns[i].children@),
{
}

/// Names match where they are the same in lower case, and both forms of the small
/// sigma are one letter.
pub proof fn law_both_sigmas_are_one(name: Seq<char>)
    ensures
        !folded_name(name).contains('ς'),
        folded_name(name).len() == text::lower_text(name).len(),
        forall|i: int|
            0 <= i < text::lower_text(name).len() ==> #[trigger] folded_name(name)[i] == (if text::lower_text(name)[i] == 'ς' {
                'σ'
            } else {
                text::lower_text(name)[i]
            }),
        forall|want: Seq<char>|
            text::lower_text(want) == text::lower_text(name) ==> #[trigger] name_matches(name, want),
{
}

} // verus!
