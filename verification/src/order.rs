//! Stable ordering: rows put in the order of their keys, ties left as they were.
use vstd::prelude::*;

verus! {

/// `a` comes before `b` in dictionary order.
pub open spec fn lex_less(a: Seq<int>, b: Seq<int>) -> bool
    decreases a.len(),
{
    if b.len() == 0 {
        false
    } else if a.len() == 0 {
        true
    } else if a[0] != b[0] {
        a[0] < b[0]
    } else {
        lex_less(a.drop_first(), b.drop_first())
    }
}

/// A key's numbers as integers.
pub open spec fn ints(k: Seq<i128>) -> Seq<int> {
    k.map_values(|x: i128| x as int)
}

/// Rows to be put in order.
pub struct Rows {
    /// The rows that come before all others whatever the direction.
    pub ahead: Vec<bool>,
    /// What each row is ordered by, in dictionary order.
    pub keys: Vec<Vec<i128>>,
    /// Small keys first.
    pub ascending: bool,
}

impl Rows {
    /// As many keys as rows.
    pub open spec fn wf(&self) -> bool {
        self.ahead@.len() == self.keys@.len()
    }

    /// The key of a row.
    pub open spec fn key(&self, i: int) -> Seq<int> {
        ints(self.keys@[i]@)
    }

    /// Row `i` has to come before row `j`.
    pub open spec fn precedes(&self, i: int, j: int) -> bool {
        if self.ahead@[i] != self.ahead@[j] {
            self.ahead@[i]
        } else if self.ascending {
            lex_less(self.key(i), self.key(j))
        } else {
            lex_less(self.key(j), self.key(i))
        }
    }

    /// Row `i` stands before row `j` in the order: it has to, or neither has to
    /// and it stood before it already.
    pub open spec fn before(&self, i: int, j: int) -> bool {
        self.precedes(i, j) || (!self.precedes(j, i) && i < j)
    }

    /// The rows' positions in their order: every position once.
    pub open spec fn is_order(&self, r: Seq<usize>) -> bool {
        &&& r.len() == self.keys@.len()
        &&& forall|i: int| 0 <= i < r.len() ==> (#[trigger] r[i]) < self.keys@.len()
        &&& in_line(self, r)
    }
}

/// Each stands before all behind it.
pub open spec fn in_line(rows: &Rows, r: Seq<usize>) -> bool {
    forall|i: int, j: int| 0 <= i < j < r.len() ==> rows.before((#[trigger] r[i]) as int, (#[trigger] r[j]) as int)
}

proof fn lemma_lex_total(a: Seq<int>, b: Seq<int>)
    ensures
        lex_less(a, b) ==> !lex_less(b, a),
        !lex_less(a, b) && !lex_less(b, a) ==> a == b,
    decreases a.len(),
{
    if a.len() > 0 && b.len() > 0 && a[0] == b[0] {
        lemma_lex_total(a.drop_first(), b.drop_first());
        if a.drop_first() == b.drop_first() {
            assert(a =~= seq![a[0]] + a.drop_first());
            assert(b =~= seq![b[0]] + b.drop_first());
        }
    } else if a.len() == 0 && b.len() == 0 {
        assert(a =~= b);
    }
}

proof fn lemma_lex_transitive(a: Seq<int>, b: Seq<int>, c: Seq<int>)
    requires
        lex_less(a, b),
        lex_less(b, c),
    ensures
        lex_less(a, c),
    decreases a.len(),
{
    if a.len() > 0 && a[0] == b[0] && b[0] == c[0] {
        lemma_lex_transitive(a.drop_first(), b.drop_first(), c.drop_first());
    }
}

/// The order is total and never circular, so a list has one order only.
pub proof fn law_order_is_total(rows: &Rows, i: int, j: int, k: int)
    ensures
        i != j ==> rows.before(i, j) || rows.before(j, i),
        !(rows.before(i, j) && rows.before(j, i)),
        rows.before(i, j) && rows.before(j, k) ==> rows.before(i, k),
{
    let (a, b, c) = (rows.key(i), rows.key(j), rows.key(k));
    lemma_lex_total(a, b);
    lemma_lex_total(b, c);
    lemma_lex_total(a, c);
    if lex_less(a, b) && lex_less(b, c) {
        lemma_lex_transitive(a, b, c);
    }
    if lex_less(c, b) && lex_less(b, a) {
        lemma_lex_transitive(c, b, a);
    }
}

fn key_less(a: &Vec<i128>, b: &Vec<i128>) -> (r: bool)
    ensures
        r == lex_less(ints(a@), ints(b@)),
{
    let ghost ka = ints(a@);
    let ghost kb = ints(b@);
    let mut i: usize = 0;
    assert(ka.skip(0) =~= ka);
    assert(kb.skip(0) =~= kb);
    while i < a.len() && i < b.len()
        invariant
            ka == ints(a@),
            kb == ints(b@),
            i <= a@.len(),
            i <= b@.len(),
            lex_less(ka, kb) == lex_less(ka.skip(i as int), kb.skip(i as int)),
        decreases a@.len() - i,
    {
        assert(ka.skip(i as int)[0] == a@[i as int]);
        assert(kb.skip(i as int)[0] == b@[i as int]);
        if a[i] != b[i] {
            return a[i] < b[i];
        }
        assert(ka.skip(i as int).drop_first() =~= ka.skip(i + 1));
        assert(kb.skip(i as int).drop_first() =~= kb.skip(i + 1));
        i += 1;
    }
    i < b.len()
}

impl Rows {
    fn must_precede(&self, i: usize, j: usize) -> (r: bool)
        requires
            self.wf(),
            i < self.keys@.len(),
            j < self.keys@.len(),
        ensures
            r == self.precedes(i as int, j as int),
    {
        if self.ahead[i] != self.ahead[j] {
            self.ahead[i]
        } else if self.ascending {
            key_less(&self.keys[i], &self.keys[j])
        } else {
            key_less(&self.keys[j], &self.keys[i])
        }
    }

    fn is_before(&self, i: usize, j: usize) -> (r: bool)
        requires
            self.wf(),
            i < self.keys@.len(),
            j < self.keys@.len(),
        ensures
            r == self.before(i as int, j as int),
    {
        self.must_precede(i, j) || (!self.must_precede(j, i) && i < j)
    }

    /// The rows from `lo` to `hi` in order.
    fn sort_range(&self, lo: usize, hi: usize) -> (r: Vec<usize>)
        requires
            self.wf(),
            lo <= hi <= self.keys@.len(),
        ensures
            r@.len() == hi - lo,
            forall|i: int| 0 <= i < r@.len() ==> lo <= (#[trigger] r@[i]) < hi,
            in_line(self, r@),
        decreases hi - lo,
    {
        let mut out: Vec<usize> = Vec::new();
        if hi - lo == 0 {
            return out;
        }
        if hi - lo == 1 {
            out.push(lo);
            return out;
        }
        let mid: usize = lo + (hi - lo) / 2;
        let a = self.sort_range(lo, mid);
        let b = self.sort_range(mid, hi);
        let mut i: usize = 0;
        let mut j: usize = 0;
        while i < a.len() || j < b.len()
            invariant
                self.wf(),
                lo < mid < hi <= self.keys@.len(),
                a@.len() == mid - lo,
                b@.len() == hi - mid,
                i <= a@.len(),
                j <= b@.len(),
                out@.len() == i + j,
                forall|k: int| 0 <= k < a@.len() ==> lo <= (#[trigger] a@[k]) < mid,
                forall|k: int| 0 <= k < b@.len() ==> mid <= (#[trigger] b@[k]) < hi,
                forall|k: int| 0 <= k < out@.len() ==> lo <= (#[trigger] out@[k]) < hi,
                in_line(self, a@),
                in_line(self, b@),
                in_line(self, out@),
                forall|k: int, l: int|
                    0 <= k < out@.len() && i <= l < a@.len() ==> self.before(
                        (#[trigger] out@[k]) as int,
                        (#[trigger] a@[l]) as int,
                    ),
                forall|k: int, l: int|
                    0 <= k < out@.len() && j <= l < b@.len() ==> self.before(
                        (#[trigger] out@[k]) as int,
                        (#[trigger] b@[l]) as int,
                    ),
            decreases a@.len() - i + b@.len() - j,
        {
            let from_a = j >= b.len() || (i < a.len() && self.is_before(a[i], b[j]));
            let ghost before = out@;
            if from_a {
                let x: usize = a[i];
                out.push(x);
                i += 1;
                proof {
                    if j < b@.len() {
                        assert forall|l: int| j <= l < b@.len() implies self.before(
                            x as int,
                            (#[trigger] b@[l]) as int,
                        ) by {
                            law_order_is_total(self, x as int, b@[j as int] as int, b@[l] as int);
                        }
                    }
                    assert forall|k: int, l: int| 0 <= k < out@.len() && i <= l < a@.len() implies self.before(
                        (#[trigger] out@[k]) as int,
                        (#[trigger] a@[l]) as int,
                    ) by {
                        if k < before.len() {
                            assert(out@[k] == before[k]);
                        }
                    }
                    assert forall|k: int, l: int| 0 <= k < out@.len() && j <= l < b@.len() implies self.before(
                        (#[trigger] out@[k]) as int,
                        (#[trigger] b@[l]) as int,
                    ) by {
                        if k < before.len() {
                            assert(out@[k] == before[k]);
                        }
                    }
                }
            } else {
                let x: usize = b[j];
                out.push(x);
                proof {
                    if i < a@.len() {
                        law_order_is_total(self, a@[i as int] as int, x as int, x as int);
                        assert forall|l: int| i <= l < a@.len() implies self.before(
                            x as int,
                            (#[trigger] a@[l]) as int,
                        ) by {
                            law_order_is_total(self, x as int, a@[i as int] as int, a@[l] as int);
                        }
                    }
                }
                j += 1;
                proof {
                    assert forall|k: int, l: int| 0 <= k < out@.len() && i <= l < a@.len() implies self.before(
                        (#[trigger] out@[k]) as int,
                        (#[trigger] a@[l]) as int,
                    ) by {
                        if k < before.len() {
                            assert(out@[k] == before[k]);
                        }
                    }
                    assert forall|k: int, l: int| 0 <= k < out@.len() && j <= l < b@.len() implies self.before(
                        (#[trigger] out@[k]) as int,
                        (#[trigger] b@[l]) as int,
                    ) by {
                        if k < before.len() {
                            assert(out@[k] == before[k]);
                        }
                    }
                }
            }
        }
        out
    }

    /// The rows' positions in their order.
    pub fn sorted(&self) -> (r: Vec<usize>)
        requires
            self.wf(),
        ensures
            self.is_order(r@),
    {
        self.sort_range(0, self.keys.len())
    }
}

/// A list in order holds every row once.
pub proof fn law_order_leaves_nothing_out(rows: &Rows, r: Seq<usize>)
    requires
        rows.is_order(r),
    ensures
        r.no_duplicates(),
        forall|i: int| 0 <= i < rows.keys@.len() ==> r.contains(#[trigger] (i as usize)),
{
    assert forall|i: int, j: int| 0 <= i < r.len() && 0 <= j < r.len() && i != j implies r[i] != r[j] by {
        if i < j {
            law_order_is_total(rows, r[i] as int, r[j] as int, r[j] as int);
        } else {
            law_order_is_total(rows, r[j] as int, r[i] as int, r[i] as int);
        }
    }
    lemma_every_position(r);
    assert forall|i: int| 0 <= i < rows.keys@.len() implies r.contains(#[trigger] (i as usize)) by {
        assert(positions(r).contains(i));
        let k = choose|k: int| 0 <= k < r.len() && positions(r)[k] == i;
        assert(r[k] == i as usize);
    }
}

/// Positions as integers.
pub open spec fn positions(p: Seq<usize>) -> Seq<int> {
    p.map_values(|x: usize| x as int)
}

/// As many different positions as there are leave none out.
pub proof fn lemma_every_position(p: Seq<usize>)
    requires
        p.no_duplicates(),
        forall|i: int| 0 <= i < p.len() ==> (#[trigger] p[i]) < p.len(),
    ensures
        forall|x: int| 0 <= x < p.len() ==> #[trigger] positions(p).contains(x),
{
    let n = p.len();
    let s = positions(p);
    assert(s.no_duplicates());
    s.unique_seq_to_set();
    let all = vstd::set_lib::set_int_range(0, n as int);
    vstd::set_lib::lemma_int_range(0, n as int);
    assert(s.to_set().subset_of(all)) by {
        assert forall|x: int| s.to_set().contains(x) implies all.contains(x) by {
            let k = choose|k: int| 0 <= k < s.len() && s[k] == x;
            assert(p[k] < n);
        }
    }
    vstd::set_lib::lemma_subset_equality(s.to_set(), all);
    assert forall|x: int| 0 <= x < n implies #[trigger] s.contains(x) by {
        assert(all.contains(x));
    }
}

/// No key comes before itself.
pub proof fn lemma_not_less_than_itself(a: Seq<int>)
    ensures
        !lex_less(a, a),
{
    lemma_lex_total(a, a);
}

/// Of two keys at most one comes before the other.
pub proof fn lemma_less_one_way(a: Seq<int>, b: Seq<int>)
    ensures
        lex_less(a, b) ==> !lex_less(b, a),
{
    lemma_lex_total(a, b);
}

} // verus!
