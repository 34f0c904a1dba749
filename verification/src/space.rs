//! Thresholded spaces: a free/blocked grid, the obstacles found in it, and the
//! signature that each move between neighbouring cells adds to a path.
use vstd::prelude::*;
use crate::grid::{
    Coord, Grid, coord_lt, coord_le, strictly_sorted, pick_elems, lemma_pick_elems_contains,
    lemma_pick_elems_sorted, lemma_contains_push, lemma_cell_index_bound,
};

verus! {

/// Endpoints of an undirected edge, smaller one (row-major) first.
pub open spec fn normalized_pair(a: Coord, b: Coord) -> (Coord, Coord) {
    if coord_lt(a, b) {
        (a, b)
    } else {
        (b, a)
    }
}

/// An undirected edge between two cells; the constructor orders the endpoints so
/// that the edge from `a` to `b` and the edge from `b` to `a` are the same value.
#[derive(Debug, Clone, Copy, PartialEq, Eq, Structural, PartialOrd, Ord, Hash)]
pub struct BiEdge {
    lo: Coord,
    hi: Coord,
}

impl BiEdge {
    pub closed spec fn ends(self) -> (Coord, Coord) {
        (self.lo, self.hi)
    }

    /// The edge value that `BiEdge::new(a, b)` returns.
    pub closed spec fn spec_new(a: Coord, b: Coord) -> BiEdge {
        BiEdge { lo: normalized_pair(a, b).0, hi: normalized_pair(a, b).1 }
    }

    pub fn new(from: Coord, to: Coord) -> (e: BiEdge)
        ensures
            e == BiEdge::spec_new(from, to),
            e.ends() == normalized_pair(from, to),
    {
        if from.is_before(&to) {
            BiEdge { lo: from, hi: to }
        } else {
            BiEdge { lo: to, hi: from }
        }
    }

    /// The endpoints of the edge.
    pub fn endpoints(&self) -> (r: (Coord, Coord))
        ensures
            r == self.ends(),
    {
        (self.lo, self.hi)
    }

    /// The edge from `a` to `b` is the edge from `b` to `a`.
    pub proof fn lemma_new_symmetric(a: Coord, b: Coord)
        ensures
            BiEdge::spec_new(a, b) == BiEdge::spec_new(b, a),
            BiEdge::spec_new(a, b).ends() == normalized_pair(a, b),
    {
    }
}

/// Remainder of `x` by two, rounded toward zero as Rust's `%` does.
pub open spec fn rem2(x: int) -> int {
    if x >= 0 {
        x % 2
    } else {
        -((-x) % 2)
    }
}

/// Position-wise sum modulo two of two signatures, as long as the shorter one.
pub open spec fn sig_add(a: Seq<i32>, b: Seq<i32>) -> Seq<i32> {
    Seq::new(
        if a.len() <= b.len() {
            a.len()
        } else {
            b.len()
        },
        |i: int| rem2(a[i] + b[i]) as i32,
    )
}

/// The all-zero signature of length `m`.
pub open spec fn zeros(m: nat) -> Seq<i32> {
    Seq::new(m, |i: int| 0i32)
}

/// Every entry is zero or one.
pub open spec fn is_binary(s: Seq<i32>) -> bool {
    forall|i: int| 0 <= i < s.len() ==> (#[trigger] s[i] == 0 || s[i] == 1)
}

/// The change in the signature of a path, one entry per obstacle.
#[derive(Debug, Clone, PartialEq, Eq, PartialOrd, Ord, Hash)]
pub struct EdgeSignature {
    inner: Vec<i32>,
}

impl View for EdgeSignature {
    type V = Seq<i32>;

    closed spec fn view(&self) -> Seq<i32> {
        self.inner@
    }
}

impl From<Vec<i32>> for EdgeSignature {
    fn from(inner: Vec<i32>) -> (s: EdgeSignature) {
        EdgeSignature { inner }
    }
}

impl vstd::std_specs::convert::FromSpecImpl<Vec<i32>> for EdgeSignature {
    open spec fn obeys_from_spec() -> bool {
        true
    }

    closed spec fn from_spec(v: Vec<i32>) -> EdgeSignature {
        EdgeSignature { inner: v }
    }
}

impl EdgeSignature {
    /// The signature with the given entries.
    pub fn from_vec(inner: Vec<i32>) -> (s: EdgeSignature)
        ensures
            s@ == inner@,
    {
        EdgeSignature { inner }
    }

    /// The all-zero signature with `m` entries.
    pub fn zeros(m: usize) -> (s: EdgeSignature)
        ensures
            s@ == zeros(m as nat),
    {
        let mut v: Vec<i32> = Vec::new();
        let mut i: usize = 0;
        while i < m
            invariant
                i <= m,
                v@ == zeros(i as nat),
            decreases m - i,
        {
            v.push(0);
            i += 1;
        }
        EdgeSignature { inner: v }
    }

    pub fn len(&self) -> (n: usize)
        ensures
            n == self@.len(),
    {
        self.inner.len()
    }

    /// The entry for obstacle `i`.
    pub fn get(&self, i: usize) -> (v: i32)
        requires
            i < self@.len(),
        ensures
            v == self@[i as int],
    {
        self.inner[i]
    }

    /// The entries as a vector.
    pub fn to_vec(&self) -> (v: Vec<i32>)
        ensures
            v@ == self@,
    {
        let mut v: Vec<i32> = Vec::new();
        let mut i: usize = 0;
        while i < self.inner.len()
            invariant
                i <= self.inner@.len(),
                v@ == self.inner@.take(i as int),
            decreases self.inner@.len() - i,
        {
            v.push(self.inner[i]);
            i += 1;
            assert(v@ =~= self.inner@.take(i as int));
        }
        assert(self.inner@.take(i as int) =~= self.inner@);
        v
    }

    /// A copy of this signature.
    pub fn duplicate(&self) -> (s: EdgeSignature)
        ensures
            s@ == self@,
    {
        EdgeSignature { inner: self.to_vec() }
    }

    /// Entry-wise equality of two signatures.
    pub fn same_as(&self, other: &EdgeSignature) -> (b: bool)
        ensures
            b == (self@ == other@),
    {
        if self.inner.len() != other.inner.len() {
            assert(self@.len() != other@.len());
            return false;
        }
        let mut i: usize = 0;
        while i < self.inner.len()
            invariant
                self.inner@.len() == other.inner@.len(),
                i <= self.inner@.len(),
                forall|j: int| 0 <= j < i ==> self.inner@[j] == other.inner@[j],
            decreases self.inner@.len() - i,
        {
            if self.inner[i] != other.inner[i] {
                assert(self@[i as int] != other@[i as int]);
                return false;
            }
            i += 1;
        }
        assert(self.inner@ =~= other.inner@);
        true
    }

    /// The signature after also traversing an edge with signature `other`: entry-wise
    /// sum modulo two, as long as the shorter of the two.
    pub fn update(&self, other: &EdgeSignature) -> (s: EdgeSignature)
        requires
            forall|i: int|
                0 <= i < self@.len() && i < other@.len() ==> i32::MIN <= #[trigger] self@[i]
                    + other@[i] <= i32::MAX,
        ensures
            s@ == sig_add(self@, other@),
    {
        let n = if self.inner.len() <= other.inner.len() {
            self.inner.len()
        } else {
            other.inner.len()
        };
        let mut v: Vec<i32> = Vec::new();
        let mut i: usize = 0;
        while i < n
            invariant
                n <= self@.len(),
                n <= other@.len(),
                n == sig_add(self@, other@).len(),
                i <= n,
                v@ == sig_add(self@, other@).take(i as int),
                forall|j: int|
                    0 <= j < self@.len() && j < other@.len() ==> i32::MIN <= #[trigger] self@[j]
                        + other@[j] <= i32::MAX,
            decreases n - i,
        {
            let l = self.inner[i];
            let r = other.inner[i];
            assert(i32::MIN <= self@[i as int] + other@[i as int] <= i32::MAX);
            let t = l + r;
            let x = t % 2;
            assert(x == rem2(t as int));
            v.push(x);
            i += 1;
            assert(v@ =~= sig_add(self@, other@).take(i as int));
        }
        assert(sig_add(self@, other@).take(n as int) =~= sig_add(self@, other@));
        EdgeSignature { inner: v }
    }
}


/// A cell inside the grid whose value is `true`.
pub open spec fn is_free(g: Grid<bool>, c: Coord) -> bool {
    g.contains_coord(c) && g.cell(c)
}

/// A cell inside the grid whose value is `false`.
pub open spec fn is_blocked(g: Grid<bool>, c: Coord) -> bool {
    g.contains_coord(c) && !g.cell(c)
}

/// A non-empty sequence of blocked cells, each a neighbour of the one before.
pub open spec fn blocked_path(g: Grid<bool>, p: Seq<Coord>) -> bool {
    &&& p.len() >= 1
    &&& forall|k: int| 0 <= k < p.len() ==> is_blocked(g, #[trigger] p[k])
    &&& forall|k: int|
        0 <= k < p.len() - 1 ==> #[trigger] g.neighbor_seq(p[k]).contains(p[k + 1])
}

/// `b` can be reached from `a` through blocked cells: both lie in the same obstacle.
pub open spec fn blocked_connected(g: Grid<bool>, a: Coord, b: Coord) -> bool {
    exists|p: Seq<Coord>| #[trigger] blocked_path(g, p) && p[0] == a && p.last() == b
}

pub proof fn lemma_connected_refl(g: Grid<bool>, a: Coord)
    requires
        is_blocked(g, a),
    ensures
        blocked_connected(g, a, a),
{
    let p = seq![a];
    assert(blocked_path(g, p));
}

pub proof fn lemma_connected_step(g: Grid<bool>, a: Coord, b: Coord, c: Coord)
    requires
        blocked_connected(g, a, b),
        is_blocked(g, c),
        g.neighbor_seq(b).contains(c),
    ensures
        blocked_connected(g, a, c),
{
    let p = choose|p: Seq<Coord>| #[trigger] blocked_path(g, p) && p[0] == a && p.last() == b;
    let q = p.push(c);
    assert forall|k: int| 0 <= k < q.len() - 1 implies #[trigger] g.neighbor_seq(q[k]).contains(
        q[k + 1],
    ) by {
        if k < p.len() - 1 {
            assert(q[k] == p[k] && q[k + 1] == p[k + 1]);
        }
    }
    assert(blocked_path(g, q));
}

pub proof fn lemma_connected_symmetric(g: Grid<bool>, a: Coord, b: Coord)
    requires
        blocked_connected(g, a, b),
    ensures
        blocked_connected(g, b, a),
{
    let p = choose|p: Seq<Coord>| #[trigger] blocked_path(g, p) && p[0] == a && p.last() == b;
    let q = p.reverse();
    assert forall|k: int| 0 <= k < q.len() implies is_blocked(g, #[trigger] q[k]) by {
        assert(q[k] == p[p.len() - 1 - k]);
    }
    assert forall|k: int| 0 <= k < q.len() - 1 implies #[trigger] g.neighbor_seq(q[k]).contains(
        q[k + 1],
    ) by {
        let j = p.len() - 2 - k;
        assert(q[k] == p[j + 1] && q[k + 1] == p[j]);
        assert(g.neighbor_seq(p[j]).contains(p[j + 1]));
        assert(is_blocked(g, p[j]));
        g.lemma_neighbors_symmetric(p[j], p[j + 1]);
    }
    assert(blocked_path(g, q));
}

pub proof fn lemma_connected_transitive(g: Grid<bool>, a: Coord, b: Coord, c: Coord)
    requires
        blocked_connected(g, a, b),
        blocked_connected(g, b, c),
    ensures
        blocked_connected(g, a, c),
{
    let p = choose|p: Seq<Coord>| #[trigger] blocked_path(g, p) && p[0] == a && p.last() == b;
    let q = choose|q: Seq<Coord>| #[trigger] blocked_path(g, q) && q[0] == b && q.last() == c;
    let r = p + q.drop_first();
    assert forall|k: int| 0 <= k < r.len() implies is_blocked(g, #[trigger] r[k]) by {
        if k >= p.len() {
            assert(r[k] == q[k - p.len() + 1]);
        }
    }
    assert forall|k: int| 0 <= k < r.len() - 1 implies #[trigger] g.neighbor_seq(r[k]).contains(
        r[k + 1],
    ) by {
        if k < p.len() - 1 {
            assert(r[k] == p[k] && r[k + 1] == p[k + 1]);
        } else if k == p.len() - 1 {
            assert(r[k] == q[0] && r[k + 1] == q[1]);
        } else {
            let j = k - p.len() + 1;
            assert(r[k] == q[j] && r[k + 1] == q[j + 1]);
        }
    }
    if q.len() == 1 {
        assert(r =~= p);
    } else {
        assert(r.last() == q.last());
    }
    assert(blocked_path(g, r));
}

/// Number of `true` entries.
pub open spec fn count_true(s: Seq<bool>) -> nat
    decreases s.len(),
{
    if s.len() == 0 {
        0
    } else {
        count_true(s.drop_last()) + if s.last() {
            1nat
        } else {
            0nat
        }
    }
}

pub proof fn lemma_count_true_bound(s: Seq<bool>)
    ensures
        count_true(s) <= s.len(),
    decreases s.len(),
{
    if s.len() > 0 {
        lemma_count_true_bound(s.drop_last());
    }
}

pub proof fn lemma_count_true_set(s: Seq<bool>, i: int)
    requires
        0 <= i < s.len(),
        !s[i],
    ensures
        count_true(s.update(i, true)) == count_true(s) + 1,
    decreases s.len(),
{
    let t = s.update(i, true);
    if i < s.len() - 1 {
        assert(t.drop_last() =~= s.drop_last().update(i, true));
        lemma_count_true_set(s.drop_last(), i);
    } else {
        assert(t.drop_last() =~= s.drop_last());
    }
}

/// Cell `c` of the grid is marked in `marks` (indexed row-major).
pub open spec fn marked(g: Grid<bool>, marks: Seq<bool>, c: Coord) -> bool {
    marks[g.index_of(c)]
}

/// Every blocked neighbour of `c` is marked.
pub open spec fn closed_at(g: Grid<bool>, marks: Seq<bool>, c: Coord) -> bool {
    forall|d: Coord|
        #[trigger] g.neighbor_seq(c).contains(d) && is_blocked(g, d) ==> marked(g, marks, d)
}

/// If the marks are closed under blocked neighbours at every marked cell, then
/// everything blocked-connected to a marked cell is marked.
pub proof fn lemma_closed_marks_reach(g: Grid<bool>, marks: Seq<bool>, p: Seq<Coord>)
    requires
        blocked_path(g, p),
        marked(g, marks, p[0]),
        forall|c: Coord|
            g.contains_coord(c) && #[trigger] marked(g, marks, c) ==> closed_at(g, marks, c),
    ensures
        marked(g, marks, p.last()),
    decreases p.len(),
{
    if p.len() > 1 {
        let q = p.drop_last();
        assert(blocked_path(g, q)) by {
            assert forall|k: int| 0 <= k < q.len() - 1 implies #[trigger] g.neighbor_seq(
                q[k],
            ).contains(q[k + 1]) by {
                assert(q[k] == p[k] && q[k + 1] == p[k + 1]);
            }
        }
        lemma_closed_marks_reach(g, marks, q);
        let k = p.len() - 2;
        assert(q.last() == p[k]);
        assert(g.neighbor_seq(p[k]).contains(p[k + 1]));
        assert(is_blocked(g, p[k]));
        assert(closed_at(g, marks, p[k]));
        assert(is_blocked(g, p[k + 1]));
    }
}


/// Marks only grow from `m0` to `m1`.
pub open spec fn marks_grow(g: Grid<bool>, m0: Seq<bool>, m1: Seq<bool>) -> bool {
    forall|c: Coord| g.contains_coord(c) && #[trigger] marked(g, m0, c) ==> marked(g, m1, c)
}

pub proof fn lemma_closed_at_grow(g: Grid<bool>, m0: Seq<bool>, m1: Seq<bool>, c: Coord)
    requires
        closed_at(g, m0, c),
        marks_grow(g, m0, m1),
    ensures
        closed_at(g, m1, c),
{
    assert forall|d: Coord|
        #[trigger] g.neighbor_seq(c).contains(d) && is_blocked(g, d) implies marked(g, m1, d) by {
        assert(marked(g, m0, d));
    }
}

/// Setting the mark of in-bounds cell `c` changes no other cell's mark.
pub proof fn lemma_mark_one(g: Grid<bool>, m: Seq<bool>, c: Coord)
    requires
        g.wf(),
        g.contains_coord(c),
        m.len() == g.cells().len(),
    ensures
        forall|d: Coord|
            g.contains_coord(d) ==> (#[trigger] marked(g, m.update(g.index_of(c), true), d) <==> (
            marked(g, m, d) || d == c)),
        marks_grow(g, m, m.update(g.index_of(c), true)),
{
    g.lemma_row_major();
    assert forall|d: Coord| g.contains_coord(d) implies (#[trigger] marked(
        g,
        m.update(g.index_of(c), true),
        d,
    ) <==> (marked(g, m, d) || d == c)) by {
        if g.index_of(d) == g.index_of(c) {
            assert(g.row_major()[g.index_of(d)] == d);
            assert(g.row_major()[g.index_of(c)] == c);
        }
    }
}

/// One reference cell per obstacle (maximal blocked-connected group of cells): its
/// smallest cell in row-major order.  The references come out in increasing order.
fn find_obstacles(free: &Grid<bool>) -> (refs: Vec<Coord>)
    requires
        free.wf(),
    ensures
        forall|k: int| 0 <= k < refs.len() ==> is_blocked(*free, #[trigger] refs@[k]),
        strictly_sorted(refs@),
        forall|c: Coord|
            is_blocked(*free, c) ==> exists|k: int|
                0 <= k < refs.len() && blocked_connected(*free, refs@[k], c),
        forall|k: int, c: Coord|
            0 <= k < refs.len() && #[trigger] blocked_connected(*free, refs@[k], c) ==> coord_le(
                refs@[k],
                c,
            ),
{
    let ghost g = *free;
    let is_blocked_cell = |b: &bool| -> (r: bool) ensures r == !*b { !*b };
    let obstacles = free.filter(is_blocked_cell);
    let ghost picks = choose|picks: Seq<bool>|
        picks.len() == g.cells().len() && (forall|i: int|
            0 <= i < picks.len() ==> call_ensures(
                is_blocked_cell,
                (&g.cells()[i],),
                #[trigger] picks[i],
            )) && obstacles@ == pick_elems(g.row_major(), picks);
    let ghost lst = obstacles@;
    proof {
        g.lemma_row_major();
        g.lemma_row_major_sorted();
        lemma_pick_elems_sorted(g.row_major(), picks);
        assert forall|c: Coord| #[trigger] lst.contains(c) <==> is_blocked(g, c) by {
            lemma_pick_elems_contains(g.row_major(), picks, c);
            if lst.contains(c) {
                let k = choose|k: int|
                    0 <= k < g.row_major().len() && picks[k] && g.row_major()[k] == c;
                assert(picks[k] == !g.cells()[k]);
            }
            if is_blocked(g, c) {
                let k = g.index_of(c);
                assert(picks[k] == !g.cells()[k]);
            }
        }
        g.lemma_len_fits();
    }
    let n = free.rows() * free.cols();
    let mut visited: Vec<bool> = Vec::new();
    let mut i: usize = 0;
    while i < n
        invariant
            i <= n,
            visited@ == Seq::new(i as nat, |k: int| false),
            count_true(visited@) == 0,
        decreases n - i,
    {
        let ghost before = visited@;
        visited.push(false);
        i += 1;
        proof {
            assert(visited@.drop_last() =~= before);
            assert(visited@ =~= Seq::new(i as nat, |k: int| false));
        }
    }
    proof {
        assert forall|c: Coord| g.contains_coord(c) implies !#[trigger] marked(g, visited@, c) by {}
    }
    let ghost mut owner: Seq<int> = Seq::new(n as nat, |k: int| 0);
    let ghost mut count: nat = 0;
    let mut refs: Vec<Coord> = Vec::new();
    let mut oi: usize = 0;
    while oi < obstacles.len()
        invariant
            forall|b: bool| call_requires(is_blocked_cell, (&b,)),
            forall|b: bool, r: bool| call_ensures(is_blocked_cell, (&b,), r) ==> r == !b,
            g == *free,
            g.wf(),
            n == g.cells().len(),
            lst == obstacles@,
            strictly_sorted(lst),
            forall|c: Coord| #[trigger] lst.contains(c) <==> is_blocked(g, c),
            visited@.len() == n,
            owner.len() == n,
            count == count_true(visited@),
            oi <= lst.len(),
            forall|c: Coord|
                g.contains_coord(c) && #[trigger] marked(g, visited@, c) ==> {
                    &&& is_blocked(g, c)
                    &&& closed_at(g, visited@, c)
                    &&& 0 <= owner[g.index_of(c)] < refs.len()
                    &&& blocked_connected(g, refs@[owner[g.index_of(c)]], c)
                },
            forall|j: int| 0 <= j < oi ==> marked(g, visited@, #[trigger] lst[j]),
            forall|k: int| 0 <= k < refs.len() ==> is_blocked(g, #[trigger] refs@[k]),
            strictly_sorted(refs@),
            forall|k: int, c: Coord|
                0 <= k < refs.len() && #[trigger] blocked_connected(g, refs@[k], c) ==> coord_le(
                    refs@[k],
                    c,
                ),
            forall|k: int, j: int|
                0 <= k < refs.len() && oi <= j < lst.len() ==> coord_lt(
                    #[trigger] refs@[k],
                    #[trigger] lst[j],
                ),
        decreases lst.len() - oi,
    {
        let o = obstacles[oi];
        proof {
            assert(lst.contains(lst[oi as int]));
        }
        let oidx = free.position(o);
        if visited[oidx] {
            oi += 1;
            proof {
                assert forall|k: int, j: int|
                    0 <= k < refs.len() && oi <= j < lst.len() implies coord_lt(
                    #[trigger] refs@[k],
                    #[trigger] lst[j],
                ) by {
                    assert(coord_lt(refs@[k], lst[j - 1]));
                    assert(coord_lt(lst[j - 1], lst[j]));
                }
            }
            continue;
        }
        let ghost vis0 = visited@;
        let ghost refs0 = refs@;
        proof {
            lemma_mark_one(g, visited@, o);
            lemma_count_true_set(visited@, oidx as int);
            lemma_count_true_bound(visited@.update(oidx as int, true));
            lemma_connected_refl(g, o);
        }
        visited.set(oidx, true);
        proof {
            count = count + 1;
        }
        let mut queue: Vec<Coord> = Vec::new();
        queue.push(o);
        proof {
            assert(queue@ =~= Seq::<Coord>::empty().push(o));
            assert(queue@[0] == o);
            assert(queue@.contains(o));
            assert forall|c: Coord| g.contains_coord(c) implies (#[trigger] marked(g, visited@, c) <==> (marked(
                g,
                vis0,
                c,
            ) || queue@.contains(c))) by {
                lemma_contains_push(Seq::<Coord>::empty(), o, c);
            }
        }
        let mut head: usize = 0;
        let mut ref_coord = o;
        while head < queue.len()
            invariant
                forall|b: bool| call_requires(is_blocked_cell, (&b,)),
                forall|b: bool, r: bool| call_ensures(is_blocked_cell, (&b,), r) ==> r == !b,
                g == *free,
                g.wf(),
                n == g.cells().len(),
                lst == obstacles@,
                strictly_sorted(lst),
                forall|c: Coord| #[trigger] lst.contains(c) <==> is_blocked(g, c),
                oi < lst.len(),
                o == lst[oi as int],
                refs@ == refs0,
                visited@.len() == n,
                vis0.len() == n,
                count == count_true(visited@),
                count <= n,
                !marked(g, vis0, o),
                forall|c: Coord|
                    g.contains_coord(c) && #[trigger] marked(g, vis0, c) ==> {
                        &&& is_blocked(g, c)
                        &&& closed_at(g, vis0, c)
                        &&& 0 <= owner[g.index_of(c)] < refs0.len()
                        &&& blocked_connected(g, refs0[owner[g.index_of(c)]], c)
                    },
                forall|j: int| 0 <= j < oi ==> marked(g, vis0, #[trigger] lst[j]),
                queue@.len() >= 1,
                queue@[0] == o,
                head <= queue@.len(),
                forall|c: Coord|
                    g.contains_coord(c) ==> (#[trigger] marked(g, visited@, c) <==> (marked(
                        g,
                        vis0,
                        c,
                    ) || queue@.contains(c))),
                marks_grow(g, vis0, visited@),
                forall|k: int|
                    0 <= k < queue@.len() ==> {
                        &&& is_blocked(g, #[trigger] queue@[k])
                        &&& !marked(g, vis0, queue@[k])
                        &&& blocked_connected(g, o, queue@[k])
                        &&& coord_le(o, queue@[k])
                        &&& coord_le(ref_coord, queue@[k])
                    },
                forall|k: int| 0 <= k < head ==> closed_at(g, visited@, #[trigger] queue@[k]),
                queue@.contains(ref_coord),
            decreases 2 * (n - count) + (queue@.len() - head),
        {
            let ghost m0 = 2 * (n - count) + (queue@.len() - head);
            let cur = queue[head];
            head += 1;
            let nbrs = free.filter_neighbors(cur, is_blocked_cell);
            let ghost nseq = g.neighbor_seq(cur);
            let ghost npicks = choose|npicks: Seq<bool>|
                npicks.len() == nseq.len() && (forall|i: int|
                    0 <= i < npicks.len() ==> call_ensures(
                        is_blocked_cell,
                        (&g.cell(nseq[i]),),
                        #[trigger] npicks[i],
                    )) && nbrs@ == pick_elems(nseq, npicks);
            proof {
                g.lemma_keep_in_bounds(crate::grid::dedup_runs(crate::grid::neighbor_candidates(cur)));
                assert forall|d: Coord| #[trigger] nbrs@.contains(d) <==> (nseq.contains(d) && is_blocked(g, d)) by {
                    lemma_pick_elems_contains(nseq, npicks, d);
                    if nbrs@.contains(d) {
                        let k = choose|k: int| 0 <= k < nseq.len() && npicks[k] && nseq[k] == d;
                        assert(npicks[k] == !g.cell(nseq[k]));
                        assert(nseq.contains(d));
                    }
                    if nseq.contains(d) && is_blocked(g, d) {
                        let k = choose|k: int| 0 <= k < nseq.len() && nseq[k] == d;
                        assert(npicks[k] == !g.cell(nseq[k]));
                    }
                }
            }
            let mut j: usize = 0;
            while j < nbrs.len()
                invariant
                    forall|b: bool| call_requires(is_blocked_cell, (&b,)),
                    forall|b: bool, r: bool| call_ensures(is_blocked_cell, (&b,), r) ==> r == !b,
                    g == *free,
                    g.wf(),
                    n == g.cells().len(),
                    lst == obstacles@,
                    strictly_sorted(lst),
                    forall|c: Coord| #[trigger] lst.contains(c) <==> is_blocked(g, c),
                    oi < lst.len(),
                    o == lst[oi as int],
                    visited@.len() == n,
                    vis0.len() == n,
                    count == count_true(visited@),
                    count <= n,
                    2 * (n - count) + (queue@.len() - head) < m0,
                    !marked(g, vis0, o),
                    forall|jj: int| 0 <= jj < oi ==> marked(g, vis0, #[trigger] lst[jj]),
                    queue@.len() >= 1,
                    queue@[0] == o,
                    1 <= head <= queue@.len(),
                    queue@[head - 1] == cur,
                    nseq == g.neighbor_seq(cur),
                    forall|d: Coord| #[trigger] nbrs@.contains(d) <==> (nseq.contains(d) && is_blocked(g, d)),
                    forall|c: Coord|
                        g.contains_coord(c) ==> (#[trigger] marked(g, visited@, c) <==> (marked(
                            g,
                            vis0,
                            c,
                        ) || queue@.contains(c))),
                    marks_grow(g, vis0, visited@),
                    forall|k: int|
                        0 <= k < queue@.len() ==> {
                            &&& is_blocked(g, #[trigger] queue@[k])
                            &&& !marked(g, vis0, queue@[k])
                            &&& blocked_connected(g, o, queue@[k])
                            &&& coord_le(o, queue@[k])
                            &&& coord_le(ref_coord, queue@[k])
                        },
                    forall|k: int| 0 <= k < head - 1 ==> closed_at(g, visited@, #[trigger] queue@[k]),
                    forall|jj: int| 0 <= jj < j ==> marked(g, visited@, #[trigger] nbrs@[jj]),
                    j <= nbrs@.len(),
                    queue@.contains(ref_coord),
                decreases nbrs@.len() - j,
            {
                let nb = nbrs[j];
                proof {
                    assert(nbrs@.contains(nbrs@[j as int]));
                }
                let nidx = free.position(nb);
                if !visited[nidx] {
                    let ghost vprev = visited@;
                    let ghost qprev = queue@;
                    proof {
                        assert(!marked(g, vis0, nb));
                        if coord_lt(nb, o) {
                            assert(lst.contains(nb));
                            let jj = choose|jj: int| 0 <= jj < lst.len() && lst[jj] == nb;
                            if jj >= oi {
                                if jj > oi {
                                    assert(coord_lt(lst[oi as int], lst[jj]));
                                }
                            } else {
                                assert(marked(g, vis0, lst[jj]));
                            }
                        }
                        assert(queue@.contains(cur));
                        assert(blocked_connected(g, o, cur));
                        lemma_connected_step(g, o, cur, nb);
                        lemma_mark_one(g, visited@, nb);
                        lemma_count_true_set(visited@, nidx as int);
                        lemma_count_true_bound(visited@.update(nidx as int, true));
                    }
                    if nb.is_before(&ref_coord) {
                        ref_coord = nb;
                    }
                    visited.set(nidx, true);
                    queue.push(nb);
                    proof {
                        count = count + 1;
                        assert forall|c: Coord| g.contains_coord(c) && #[trigger] marked(g, vis0, c) implies marked(g, visited@, c) by {
                            assert(marked(g, vprev, c));
                        }
                        assert forall|c: Coord|
                            g.contains_coord(c) implies (#[trigger] marked(g, visited@, c) <==> (
                            marked(g, vis0, c) || queue@.contains(c))) by {
                            lemma_contains_push(qprev, nb, c);
                        }
                        assert forall|k: int| 0 <= k < head - 1 implies closed_at(
                            g,
                            visited@,
                            #[trigger] queue@[k],
                        ) by {
                            assert(queue@[k] == qprev[k]);
                            lemma_closed_at_grow(g, vprev, visited@, qprev[k]);
                        }
                        assert forall|jj: int| 0 <= jj < j + 1 implies marked(
                            g,
                            visited@,
                            #[trigger] nbrs@[jj],
                        ) by {
                            assert(nbrs@.contains(nbrs@[jj]));
                            assert(is_blocked(g, nbrs@[jj]));
                            if jj < j {
                                assert(marked(g, vprev, nbrs@[jj]));
                            } else {
                                assert(nbrs@[jj] == nb);
                                assert(marked(g, visited@, nb));
                            }
                        }
                        lemma_contains_push(qprev, nb, ref_coord);
                        assert forall|k: int|
                            0 <= k < queue@.len() implies {
                                &&& is_blocked(g, #[trigger] queue@[k])
                                &&& !marked(g, vis0, queue@[k])
                                &&& blocked_connected(g, o, queue@[k])
                                &&& coord_le(o, queue@[k])
                                &&& coord_le(ref_coord, queue@[k])
                            } by {
                            if k < qprev.len() {
                                assert(queue@[k] == qprev[k]);
                            }
                        }
                    }
                }
                j += 1;
            }
            proof {
                assert(closed_at(g, visited@, cur)) by {
                    assert forall|d: Coord|
                        #[trigger] g.neighbor_seq(cur).contains(d) && is_blocked(g, d) implies marked(
                        g,
                        visited@,
                        d,
                    ) by {
                        assert(nbrs@.contains(d));
                        let jj = choose|jj: int| 0 <= jj < nbrs@.len() && nbrs@[jj] == d;
                        assert(marked(g, visited@, nbrs@[jj]));
                    }
                }
            }
        }
        // The round has marked exactly the obstacle of `o`.
        let ghost vis1 = visited@;
        let ghost q = queue@;
        let ghost r = refs0.len() as int;
        proof {
            assert forall|c: Coord|
                g.contains_coord(c) && #[trigger] marked(g, vis1, c) implies closed_at(g, vis1, c) by {
                if marked(g, vis0, c) {
                    lemma_closed_at_grow(g, vis0, vis1, c);
                } else {
                    assert(q.contains(c));
                    let k = choose|k: int| 0 <= k < q.len() && q[k] == c;
                    assert(closed_at(g, vis1, q[k]));
                }
            }
            assert forall|c: Coord| blocked_connected(g, o, c) implies q.contains(c) by {
                let p = choose|p: Seq<Coord>| #[trigger] blocked_path(g, p) && p[0] == o && p.last() == c;
                assert(q.contains(o)) by {
                    assert(q[0] == o);
                }
                lemma_closed_marks_reach(g, vis1, p);
                if marked(g, vis0, c) {
                    lemma_connected_symmetric(g, o, c);
                    let p2 = choose|p2: Seq<Coord>| #[trigger] blocked_path(g, p2) && p2[0] == c && p2.last() == o;
                    lemma_closed_marks_reach(g, vis0, p2);
                }
            }
            let kr = choose|kr: int| 0 <= kr < q.len() && q[kr] == ref_coord;
            assert(blocked_connected(g, o, ref_coord));
            lemma_connected_symmetric(g, o, ref_coord);
            assert(coord_le(o, ref_coord));
        }
        refs.push(ref_coord);
        proof {
            owner = Seq::new(n as nat, |k: int| if vis0[k] { owner[k] } else { r });
            assert forall|c: Coord|
                g.contains_coord(c) && #[trigger] marked(g, visited@, c) implies {
                    &&& is_blocked(g, c)
                    &&& closed_at(g, visited@, c)
                    &&& 0 <= owner[g.index_of(c)] < refs.len()
                    &&& blocked_connected(g, refs@[owner[g.index_of(c)]], c)
                } by {
                lemma_cell_index_bound(c.row as int, c.col as int, g.num_rows() as int, g.num_cols() as int);
                if marked(g, vis0, c) {
                    assert(refs@[owner[g.index_of(c)]] == refs0[owner[g.index_of(c)]]);
                } else {
                    assert(q.contains(c));
                    let k = choose|k: int| 0 <= k < q.len() && q[k] == c;
                    assert(blocked_connected(g, o, q[k]));
                    lemma_connected_transitive(g, ref_coord, o, c);
                    assert(refs@[r] == ref_coord);
                }
            }
            assert forall|j: int| 0 <= j < oi + 1 implies marked(g, visited@, #[trigger] lst[j]) by {
                assert(lst.contains(lst[j]));
                if j < oi {
                    assert(marked(g, vis0, lst[j]));
                    assert(marked(g, vis1, lst[j]));
                } else {
                    assert(q[0] == o);
                    assert(q.contains(o));
                    assert(lst.contains(lst[oi as int]));
                    assert(is_blocked(g, o));
                    assert(marked(g, vis1, o));
                    assert(visited@ == vis1);
                }
            }
            assert forall|k: int| 0 <= k < refs.len() implies is_blocked(g, #[trigger] refs@[k]) by {
                if k < r {
                    assert(refs@[k] == refs0[k]);
                }
            }
            assert forall|a: int, b: int| 0 <= a < b < refs@.len() implies coord_lt(
                #[trigger] refs@[a],
                #[trigger] refs@[b],
            ) by {
                assert(refs@[a] == refs0[a]);
                if b < r {
                    assert(refs@[b] == refs0[b]);
                } else {
                    assert(coord_lt(refs0[a], lst[oi as int]));
                }
            }
            assert forall|k: int, c: Coord|
                0 <= k < refs.len() && #[trigger] blocked_connected(g, refs@[k], c) implies coord_le(
                refs@[k],
                c,
            ) by {
                if k < r {
                    assert(refs@[k] == refs0[k]);
                } else {
                    lemma_connected_transitive(g, o, ref_coord, c);
                    assert(q.contains(c));
                    let kk = choose|kk: int| 0 <= kk < q.len() && q[kk] == c;
                    assert(coord_le(ref_coord, q[kk]));
                }
            }
            assert forall|k: int, j: int|
                0 <= k < refs.len() && oi + 1 <= j < lst.len() implies coord_lt(
                #[trigger] refs@[k],
                #[trigger] lst[j],
            ) by {
                assert(coord_lt(lst[oi as int], lst[j]));
                if k < r {
                    assert(refs@[k] == refs0[k]);
                    assert(coord_lt(refs0[k], lst[oi as int]));
                }
            }
        }
        oi += 1;
    }
    proof {
        assert forall|c: Coord| is_blocked(*free, c) implies exists|k: int|
            0 <= k < refs.len() && blocked_connected(*free, refs@[k], c) by {
            assert(lst.contains(c));
            let j = choose|j: int| 0 <= j < lst.len() && lst[j] == c;
            assert(marked(g, visited@, lst[j]));
        }
    }
    refs
}


/// Whether the move between `a` and `b` crosses the cut cast from the obstacle
/// reference `o`: the boundary just above `o`'s row, in the columns from `o`'s
/// column rightwards.  The move crosses it when neither end lies left of `o` and
/// exactly one end lies at or below `o`'s row.
pub open spec fn crosses(o: Coord, a: Coord, b: Coord) -> bool {
    !(o.col > b.col || o.col > a.col) && ((o.row <= a.row) != (o.row <= b.row))
}

/// Signature of the move between `a` and `b`: one for each obstacle reference whose
/// cut the move crosses, zero for the others.
pub open spec fn crossing_sig(obs: Seq<Coord>, a: Coord, b: Coord) -> Seq<i32> {
    Seq::new(obs.len(), |i: int| if crosses(obs[i], a, b) { 1i32 } else { 0i32 })
}

/// Some cut is crossed by the move between `a` and `b`.
pub open spec fn has_crossing(obs: Seq<Coord>, a: Coord, b: Coord) -> bool {
    exists|i: int| 0 <= i < obs.len() && #[trigger] crosses(obs[i], a, b)
}

pub proof fn lemma_crossing_symmetric(obs: Seq<Coord>, a: Coord, b: Coord)
    ensures
        crossing_sig(obs, a, b) == crossing_sig(obs, b, a),
        has_crossing(obs, a, b) == has_crossing(obs, b, a),
        is_binary(crossing_sig(obs, a, b)),
        !has_crossing(obs, a, b) ==> crossing_sig(obs, a, b) == zeros(obs.len()),
{
    assert(crossing_sig(obs, a, b) =~= crossing_sig(obs, b, a));
    if has_crossing(obs, a, b) {
        let i = choose|i: int| 0 <= i < obs.len() && #[trigger] crosses(obs[i], a, b);
        assert(crosses(obs[i], b, a));
    }
    if has_crossing(obs, b, a) {
        let i = choose|i: int| 0 <= i < obs.len() && #[trigger] crosses(obs[i], b, a);
        assert(crosses(obs[i], a, b));
    }
    if !has_crossing(obs, a, b) {
        assert(crossing_sig(obs, a, b) =~= zeros(obs.len()));
    }
}

/// Some entry of the table has key `e`.
pub open spec fn has_key(t: Seq<(BiEdge, EdgeSignature)>, e: BiEdge) -> bool {
    exists|i: int| 0 <= i < t.len() && (#[trigger] t[i]).0 == e
}

/// An entry of the edge table: an edge between two free neighbouring cells, smaller
/// end first, whose move crosses some cut, with the signature of that move (moves
/// that cross no cut are left out).
pub open spec fn entry_valid(g: Grid<bool>, obs: Seq<Coord>, e: BiEdge, s: Seq<i32>) -> bool {
    let (a, b) = e.ends();
    &&& coord_le(a, b)
    &&& is_free(g, a)
    &&& is_free(g, b)
    &&& g.neighbor_seq(a).contains(b)
    &&& has_crossing(obs, a, b)
    &&& s == crossing_sig(obs, a, b)
}

/// Keys are distinct and every entry is valid.
pub open spec fn table_valid(g: Grid<bool>, obs: Seq<Coord>, t: Seq<(BiEdge, EdgeSignature)>) -> bool {
    &&& forall|i: int, j: int| 0 <= i < j < t.len() ==> (#[trigger] t[i]).0 != (#[trigger] t[j]).0
    &&& forall|i: int| 0 <= i < t.len() ==> entry_valid(g, obs, (#[trigger] t[i]).0, t[i].1@)
}

/// Every move between free neighbouring cells that crosses some cut has an entry.
pub open spec fn table_complete(
    g: Grid<bool>,
    obs: Seq<Coord>,
    t: Seq<(BiEdge, EdgeSignature)>,
) -> bool {
    forall|a: Coord, b: Coord|
        is_free(g, a) && is_free(g, b) && #[trigger] g.neighbor_seq(a).contains(b)
            && #[trigger] has_crossing(obs, a, b) ==> has_key(t, BiEdge::spec_new(a, b))
}

/// Inserts `(e, s)`, replacing the value of an existing entry with key `e`.
fn table_insert(t: &mut Vec<(BiEdge, EdgeSignature)>, e: BiEdge, s: EdgeSignature)
    ensures
        final(t)@.len() >= old(t)@.len(),
        forall|i: int| 0 <= i < old(t)@.len() ==> (#[trigger] final(t)@[i]).0 == old(t)@[i].0,
        has_key(final(t)@, e),
        forall|i: int|
            0 <= i < final(t)@.len() ==> (#[trigger] final(t)@[i]).0 == e && final(t)@[i].1@
                == s@ || (exists|j: int| 0 <= j < old(t)@.len() && old(t)@[j] == final(t)@[i]),
        (forall|i: int, j: int|
            0 <= i < j < old(t)@.len() ==> (#[trigger] old(t)@[i]).0 != (#[trigger] old(t)@[j]).0)
            ==> (forall|i: int, j: int|
            0 <= i < j < final(t)@.len() ==> (#[trigger] final(t)@[i]).0 != (
            #[trigger] final(t)@[j]).0),
{
    let ghost t0 = t@;
    let mut i: usize = 0;
    while i < t.len()
        invariant
            t@ == t0,
            t0 == old(t)@,
            i <= t@.len(),
            forall|j: int| 0 <= j < i ==> (#[trigger] t@[j]).0 != e,
        decreases t@.len() - i,
    {
        if t[i].0 == e {
            t.set(i, (e, s));
            proof {
                assert(t@[i as int].0 == e);
                assert forall|k: int| 0 <= k < t0.len() implies (#[trigger] t@[k]).0 == t0[k].0 by {
                    if k != i {
                        assert(t0[k] == t@[k]);
                    }
                }
                assert forall|k: int| 0 <= k < t@.len() implies (#[trigger] t@[k]).0 == e && t@[k].1@
                    == s@ || (exists|j: int| 0 <= j < t0.len() && t0[j] == t@[k]) by {
                    if k != i {
                        assert(t0[k] == t@[k]);
                    }
                }
            }
            return;
        }
        i += 1;
    }
    t.push((e, s));
    proof {
        assert(t@[t0.len() as int].0 == e);
        assert forall|k: int| 0 <= k < t@.len() implies (#[trigger] t@[k]).0 == e && t@[k].1@ == s@
            || (exists|j: int| 0 <= j < t0.len() && t0[j] == t@[k]) by {
            if k < t0.len() {
                assert(t0[k] == t@[k]);
            }
        }
    }
}

/// The signature of the move between `from` and `to` against the obstacle references.
fn crossing_signature(refs: &Vec<Coord>, from: Coord, to: Coord) -> (r: (Vec<i32>, bool))
    ensures
        r.0@ == crossing_sig(refs@, from, to),
        r.1 == has_crossing(refs@, from, to),
{
    let mut sig: Vec<i32> = Vec::new();
    let mut nonzero = false;
    let mut i: usize = 0;
    while i < refs.len()
        invariant
            i <= refs@.len(),
            sig@ == crossing_sig(refs@.take(i as int), from, to),
            nonzero == has_crossing(refs@.take(i as int), from, to),
        decreases refs@.len() - i,
    {
        let o = refs[i];
        let ghost pre = refs@.take(i as int);
        let ghost post = refs@.take(i + 1);
        // A move crosses the cut of `o` unless an end lies left of `o`'s column or
        // both ends lie on the same side of its row.
        let crossed = if o.col > to.col || o.col > from.col {
            false
        } else if (o.row <= from.row) == (o.row <= to.row) {
            false
        } else {
            true
        };
        sig.push(if crossed { 1 } else { 0 });
        if crossed {
            nonzero = true;
        }
        i += 1;
        proof {
            assert(post[post.len() - 1] == o);
            assert(sig@ =~= crossing_sig(post, from, to));
            if has_crossing(post, from, to) && !crossed {
                let j = choose|j: int| 0 <= j < post.len() && #[trigger] crosses(post[j], from, to);
                assert(pre[j] == post[j]);
            }
            if has_crossing(pre, from, to) {
                let j = choose|j: int| 0 <= j < pre.len() && #[trigger] crosses(pre[j], from, to);
                assert(pre[j] == post[j]);
            }
            if crossed {
                assert(crosses(post[post.len() - 1], from, to));
            }
        }
    }
    assert(refs@.take(i as int) =~= refs@);
    (sig, nonzero)
}

/// The table of moves between free neighbouring cells that cross some cut, keyed by
/// edge, with the signature of each.
fn edge_table(free: &Grid<bool>, refs: &Vec<Coord>) -> (t: Vec<(BiEdge, EdgeSignature)>)
    requires
        free.wf(),
    ensures
        table_valid(*free, refs@, t@),
        table_complete(*free, refs@, t@),
{
    let ghost g = *free;
    let ghost obs = refs@;
    let is_free_cell = |b: &bool| -> (r: bool) ensures r == *b { *b };
    let froms = free.filter(is_free_cell);
    let ghost picks = choose|picks: Seq<bool>|
        picks.len() == g.cells().len() && (forall|i: int|
            0 <= i < picks.len() ==> call_ensures(
                is_free_cell,
                (&g.cells()[i],),
                #[trigger] picks[i],
            )) && froms@ == pick_elems(g.row_major(), picks);
    proof {
        g.lemma_row_major();
        assert forall|c: Coord| #[trigger] froms@.contains(c) <==> is_free(g, c) by {
            lemma_pick_elems_contains(g.row_major(), picks, c);
            if froms@.contains(c) {
                let k = choose|k: int|
                    0 <= k < g.row_major().len() && picks[k] && g.row_major()[k] == c;
                assert(picks[k] == g.cells()[k]);
            }
            if is_free(g, c) {
                let k = g.index_of(c);
                assert(picks[k] == g.cells()[k]);
            }
        }
    }
    let mut edges: Vec<(BiEdge, EdgeSignature)> = Vec::new();
    let mut fi: usize = 0;
    while fi < froms.len()
        invariant
            forall|b: bool| call_requires(is_free_cell, (&b,)),
            forall|b: bool, r: bool| call_ensures(is_free_cell, (&b,), r) ==> r == b,
            g == *free,
            g.wf(),
            obs == refs@,
            forall|c: Coord| #[trigger] froms@.contains(c) <==> is_free(g, c),
            fi <= froms@.len(),
            table_valid(g, obs, edges@),
            forall|k: int, b: Coord|
                0 <= k < fi && is_free(g, b) && #[trigger] g.neighbor_seq(froms@[k]).contains(b)
                    && has_crossing(obs, froms@[k], b) ==> has_key(
                    edges@,
                    BiEdge::spec_new(froms@[k], b),
                ),
        decreases froms@.len() - fi,
    {
        let from = froms[fi];
        proof {
            assert(froms@.contains(froms@[fi as int]));
        }
        let tos = free.filter_neighbors(from, is_free_cell);
        let ghost nseq = g.neighbor_seq(from);
        let ghost npicks = choose|npicks: Seq<bool>|
            npicks.len() == nseq.len() && (forall|i: int|
                0 <= i < npicks.len() ==> call_ensures(
                    is_free_cell,
                    (&g.cell(nseq[i]),),
                    #[trigger] npicks[i],
                )) && tos@ == pick_elems(nseq, npicks);
        proof {
            g.lemma_keep_in_bounds(crate::grid::dedup_runs(crate::grid::neighbor_candidates(from)));
            assert forall|d: Coord| #[trigger] tos@.contains(d) <==> (nseq.contains(d) && is_free(g, d)) by {
                lemma_pick_elems_contains(nseq, npicks, d);
                if tos@.contains(d) {
                    let k = choose|k: int| 0 <= k < nseq.len() && npicks[k] && nseq[k] == d;
                    assert(npicks[k] == g.cell(nseq[k]));
                    assert(nseq.contains(d));
                }
                if nseq.contains(d) && is_free(g, d) {
                    let k = choose|k: int| 0 <= k < nseq.len() && nseq[k] == d;
                    assert(npicks[k] == g.cell(nseq[k]));
                }
            }
        }
        let mut ti: usize = 0;
        while ti < tos.len()
            invariant
                g == *free,
                g.wf(),
                obs == refs@,
                is_free(g, from),
                nseq == g.neighbor_seq(from),
                forall|d: Coord| #[trigger] tos@.contains(d) <==> (nseq.contains(d) && is_free(g, d)),
                ti <= tos@.len(),
                table_valid(g, obs, edges@),
                forall|k: int, b: Coord|
                    0 <= k < fi && is_free(g, b) && #[trigger] g.neighbor_seq(froms@[k]).contains(b)
                        && has_crossing(obs, froms@[k], b) ==> has_key(
                        edges@,
                        BiEdge::spec_new(froms@[k], b),
                    ),
                forall|t: int|
                    0 <= t < ti && has_crossing(obs, from, #[trigger] tos@[t]) ==> has_key(
                        edges@,
                        BiEdge::spec_new(from, tos@[t]),
                    ),
            decreases tos@.len() - ti,
        {
            let to = tos[ti];
            proof {
                assert(tos@.contains(tos@[ti as int]));
            }
            let edge = BiEdge::new(from, to);
            let (sig, nonzero) = crossing_signature(refs, from, to);
            if nonzero {
                let ghost e0 = edges@;
                proof {
                    lemma_crossing_symmetric(obs, from, to);
                    if !coord_lt(from, to) && from != to {
                        g.lemma_neighbors_symmetric(from, to);
                    }
                    assert(entry_valid(g, obs, edge, sig@));
                }
                table_insert(&mut edges, edge, EdgeSignature::from_vec(sig));
                proof {
                    assert forall|i: int| 0 <= i < edges@.len() implies entry_valid(
                        g,
                        obs,
                        (#[trigger] edges@[i]).0,
                        edges@[i].1@,
                    ) by {
                        if !(edges@[i].0 == edge && edges@[i].1@ == sig@) {
                            let j = choose|j: int| 0 <= j < e0.len() && e0[j] == edges@[i];
                            assert(entry_valid(g, obs, e0[j].0, e0[j].1@));
                        }
                    }
                    assert forall|k: int, b: Coord|
                        0 <= k < fi && is_free(g, b) && #[trigger] g.neighbor_seq(froms@[k]).contains(b)
                            && has_crossing(obs, froms@[k], b) implies has_key(
                            edges@,
                            BiEdge::spec_new(froms@[k], b),
                        ) by {
                        assert(has_key(e0, BiEdge::spec_new(froms@[k], b)));
                        let j = choose|j: int| 0 <= j < e0.len() && (#[trigger] e0[j]).0 == BiEdge::spec_new(froms@[k], b);
                        assert(edges@[j].0 == e0[j].0);
                    }
                    assert forall|t: int|
                        0 <= t < ti + 1 && has_crossing(obs, from, #[trigger] tos@[t]) implies has_key(
                            edges@,
                            BiEdge::spec_new(from, tos@[t]),
                        ) by {
                        if t < ti {
                            assert(has_key(e0, BiEdge::spec_new(from, tos@[t])));
                            let j = choose|j: int| 0 <= j < e0.len() && (#[trigger] e0[j]).0 == BiEdge::spec_new(from, tos@[t]);
                            assert(edges@[j].0 == e0[j].0);
                        }
                    }
                }
            }
            ti += 1;
        }
        proof {
            assert forall|k: int, b: Coord|
                0 <= k < fi + 1 && is_free(g, b) && #[trigger] g.neighbor_seq(froms@[k]).contains(b)
                    && has_crossing(obs, froms@[k], b) implies has_key(
                    edges@,
                    BiEdge::spec_new(froms@[k], b),
                ) by {
                if k == fi {
                    assert(tos@.contains(b));
                    let t = choose|t: int| 0 <= t < tos@.len() && tos@[t] == b;
                    assert(has_crossing(obs, from, tos@[t]));
                }
            }
        }
        fi += 1;
    }
    proof {
        assert forall|a: Coord, b: Coord|
            is_free(g, a) && is_free(g, b) && #[trigger] g.neighbor_seq(a).contains(b)
                && #[trigger] has_crossing(obs, a, b) implies has_key(edges@, BiEdge::spec_new(a, b)) by {
            assert(froms@.contains(a));
            let k = choose|k: int| 0 <= k < froms@.len() && froms@[k] == a;
            assert(g.neighbor_seq(froms@[k]).contains(b));
        }
    }
    edges
}


/// A grid of free (`true`) and blocked (`false`) cells together with its obstacles
/// and the signatures of the moves between free cells.
#[derive(Debug)]
pub struct ThresholdedSpace {
    inner: Grid<bool>,
    obstacles: Vec<Coord>,
    edges: Vec<(BiEdge, EdgeSignature)>,
    default_signature: EdgeSignature,
}

impl ThresholdedSpace {
    /// The free/blocked grid.
    pub closed spec fn free_grid(&self) -> Grid<bool> {
        self.inner
    }

    /// One reference cell per obstacle.
    pub closed spec fn obstacle_refs(&self) -> Seq<Coord> {
        self.obstacles@
    }

    pub open spec fn num_obstacles(&self) -> nat {
        self.obstacle_refs().len()
    }

    /// Signature of the move from `a` to `b`: the crossing signature when both are
    /// free and `b` is a neighbour of `a`, all zeros otherwise.
    pub open spec fn edge_sig(&self, a: Coord, b: Coord) -> Seq<i32> {
        if is_free(self.free_grid(), a) && is_free(self.free_grid(), b)
            && self.free_grid().neighbor_seq(a).contains(b) {
            crossing_sig(self.obstacle_refs(), a, b)
        } else {
            zeros(self.num_obstacles())
        }
    }

    /// Signature stored for the edge `e`: that of the move between its ends when
    /// they are in order, all zeros otherwise.
    pub open spec fn stored_sig(&self, e: BiEdge) -> Seq<i32> {
        if coord_le(e.ends().0, e.ends().1) {
            self.edge_sig(e.ends().0, e.ends().1)
        } else {
            zeros(self.num_obstacles())
        }
    }

    pub closed spec fn wf(&self) -> bool {
        &&& self.inner.wf()
        &&& self.default_signature@ == zeros(self.obstacles@.len())
        &&& table_valid(self.inner, self.obstacles@, self.edges@)
        &&& table_complete(self.inner, self.obstacles@, self.edges@)
    }

    pub proof fn lemma_wf(&self)
        requires
            self.wf(),
        ensures
            self.free_grid().wf(),
    {
    }

    /// The space of the free/blocked grid `free`: its obstacles are found by flood
    /// fill, each represented by its smallest cell, and the signature of every move
    /// between free neighbouring cells is recorded.
    pub fn from_free_map(free: Grid<bool>) -> (s: ThresholdedSpace)
        requires
            free.wf(),
        ensures
            s.wf(),
            s.free_grid() == free,
            forall|k: int|
                0 <= k < s.num_obstacles() ==> is_blocked(free, #[trigger] s.obstacle_refs()[k]),
            strictly_sorted(s.obstacle_refs()),
            forall|c: Coord|
                is_blocked(free, c) ==> exists|k: int|
                    0 <= k < s.num_obstacles() && blocked_connected(free, s.obstacle_refs()[k], c),
            forall|k: int, c: Coord|
                0 <= k < s.num_obstacles() && #[trigger] blocked_connected(
                    free,
                    s.obstacle_refs()[k],
                    c,
                ) ==> coord_le(s.obstacle_refs()[k], c),
            forall|k: int, l: int|
                0 <= k < l < s.num_obstacles() ==> !#[trigger] blocked_connected(
                    free,
                    s.obstacle_refs()[k],
                    s.obstacle_refs()[l],
                ),
    {
        let obstacles = find_obstacles(&free);
        proof {
            assert forall|k: int, l: int| 0 <= k < l < obstacles@.len() implies !#[trigger] blocked_connected(
                free,
                obstacles@[k],
                obstacles@[l],
            ) by {
                if blocked_connected(free, obstacles@[k], obstacles@[l]) {
                    lemma_connected_symmetric(free, obstacles@[k], obstacles@[l]);
                    assert(coord_le(obstacles@[l], obstacles@[k]));
                    assert(coord_lt(obstacles@[k], obstacles@[l]));
                }
            }
        }
        let edges = edge_table(&free, &obstacles);
        let default_signature = EdgeSignature::zeros(obstacles.len());
        ThresholdedSpace { inner: free, obstacles, edges, default_signature }
    }

    /// The free/blocked grid.
    pub fn free_map(&self) -> (g: &Grid<bool>)
        ensures
            *g == self.free_grid(),
    {
        &self.inner
    }

    /// The obstacle reference cells.
    pub fn obstacles(&self) -> (o: &Vec<Coord>)
        ensures
            o@ == self.obstacle_refs(),
    {
        &self.obstacles
    }

    /// The all-zero signature, the signature of a path that has not moved.
    pub fn default_signature(&self) -> (s: EdgeSignature)
        requires
            self.wf(),
        ensures
            s@ == zeros(self.num_obstacles()),
    {
        self.default_signature.duplicate()
    }

    /// The signature stored for `edge`.
    pub fn sig(&self, edge: BiEdge) -> (s: EdgeSignature)
        requires
            self.wf(),
        ensures
            s@ == self.stored_sig(edge),
    {
        let mut i: usize = 0;
        while i < self.edges.len()
            invariant
                self.wf(),
                i <= self.edges@.len(),
                forall|j: int| 0 <= j < i ==> (#[trigger] self.edges@[j]).0 != edge,
            decreases self.edges@.len() - i,
        {
            if self.edges[i].0 == edge {
                proof {
                    assert(entry_valid(self.inner, self.obstacles@, self.edges@[i as int].0, self.edges@[i as int].1@));
                }
                return self.edges[i].1.duplicate();
            }
            i += 1;
        }
        proof {
            let (a, b) = edge.ends();
            lemma_crossing_symmetric(self.obstacles@, a, b);
            if coord_le(a, b) && is_free(self.inner, a) && is_free(self.inner, b)
                && self.inner.neighbor_seq(a).contains(b) && has_crossing(self.obstacles@, a, b) {
                assert(has_key(self.edges@, BiEdge::spec_new(a, b)));
                assert(BiEdge::spec_new(a, b) == edge);
                let j = choose|j: int| 0 <= j < self.edges@.len() && (#[trigger] self.edges@[j]).0 == BiEdge::spec_new(a, b);
            }
        }
        self.default_signature.duplicate()
    }
}


/// Whether `c` occurs in `path`.
pub(crate) fn path_contains(path: &[Coord], c: Coord) -> (b: bool)
    ensures
        b == path@.contains(c),
{
    let mut i: usize = 0;
    while i < path.len()
        invariant
            i <= path@.len(),
            forall|k: int| 0 <= k < i ==> path@[k] != c,
        decreases path@.len() - i,
    {
        if path[i] == c {
            assert(path@[i as int] == c);
            return true;
        }
        i += 1;
    }
    false
}

impl ThresholdedSpace {
    /// The character drawn for cell `c` when showing `path` over the grid: `s` at
    /// the path's first cell, `g` at its last, `*` on the rest of it, and elsewhere
    /// `.` for a free cell and `#` for a blocked one.
    pub open spec fn cell_char(&self, path: Seq<Coord>, c: Coord) -> char {
        if path.len() > 0 && c == path[0] {
            's'
        } else if path.len() > 0 && c == path.last() {
            'g'
        } else if path.contains(c) {
            '*'
        } else if self.free_grid().cell(c) {
            '.'
        } else {
            '#'
        }
    }

    /// The grid drawn row by row with `path` over it (see `cell_char`); with an empty
    /// path this is the plain map of free and blocked cells.
    pub fn render(&self, path: &[Coord]) -> (out: Vec<Vec<char>>)
        requires
            self.wf(),
        ensures
            out@.len() == self.free_grid().num_rows(),
            forall|r: int|
                0 <= r < out@.len() ==> (#[trigger] out@[r])@.len() == self.free_grid().num_cols()
                    && forall|c: int|
                    0 <= c < self.free_grid().num_cols() ==> #[trigger] out@[r]@[c]
                        == self.cell_char(path@, Coord { row: r as usize, col: c as usize }),
    {
        let rows = self.inner.rows_iter();
        let ghost g = self.inner;
        let mut out: Vec<Vec<char>> = Vec::new();
        let mut r: usize = 0;
        while r < rows.len()
            invariant
                g == self.free_grid(),
                g.wf(),
                rows@.len() == g.num_rows(),
                forall|rr: int|
                    0 <= rr < rows@.len() ==> (#[trigger] rows@[rr]).len() == g.num_cols() && forall|
                        c: int,
                    |
                        0 <= c < g.num_cols() ==> cloned::<bool>(
                            g.cells()[rr * g.num_cols() + c],
                            #[trigger] rows@[rr][c],
                        ),
                r <= rows@.len(),
                out@.len() == r,
                forall|rr: int|
                    0 <= rr < r ==> (#[trigger] out@[rr])@.len() == g.num_cols() && forall|c: int|
                        0 <= c < g.num_cols() ==> #[trigger] out@[rr]@[c] == self.cell_char(
                            path@,
                            Coord { row: rr as usize, col: c as usize },
                        ),
            decreases rows@.len() - r,
        {
            let row = &rows[r];
            let mut line: Vec<char> = Vec::new();
            let mut c: usize = 0;
            while c < row.len()
                invariant
                    g == self.free_grid(),
                    g.wf(),
                    r < rows@.len(),
                    rows@.len() == g.num_rows(),
                    *row == rows@[r as int],
                    row@.len() == g.num_cols(),
                    forall|cc: int|
                        0 <= cc < g.num_cols() ==> cloned::<bool>(
                            g.cells()[r * g.num_cols() + cc],
                            #[trigger] row@[cc],
                        ),
                    c <= row@.len(),
                    line@.len() == c,
                    forall|cc: int|
                        0 <= cc < c ==> #[trigger] line@[cc] == self.cell_char(
                            path@,
                            Coord { row: r, col: cc as usize },
                        ),
                decreases row@.len() - c,
            {
                let coord = Coord::new(r, c);
                let cell = row[c];
                assert(cell == g.cell(coord));
                let ch = if path.len() > 0 && coord == path[0] {
                    's'
                } else if path.len() > 0 && coord == path[path.len() - 1] {
                    'g'
                } else if path_contains(path, coord) {
                    '*'
                } else if cell {
                    '.'
                } else {
                    '#'
                };
                line.push(ch);
                c += 1;
            }
            out.push(line);
            r += 1;
        }
        out
    }
}


/// Adding a signature is commutative.
pub proof fn lemma_sig_add_commutative(a: Seq<i32>, b: Seq<i32>)
    ensures
        sig_add(a, b) == sig_add(b, a),
{
    assert(sig_add(a, b) =~= sig_add(b, a));
}

/// Adding the all-zero signature leaves a 0/1 signature unchanged.
pub proof fn lemma_sig_add_zeros(s: Seq<i32>)
    requires
        is_binary(s),
    ensures
        sig_add(s, zeros(s.len())) == s,
{
    assert forall|i: int| 0 <= i < s.len() implies #[trigger] sig_add(s, zeros(s.len()))[i] == s[i] by {
        assert(s[i] == 0 || s[i] == 1);
    }
    assert(sig_add(s, zeros(s.len())) =~= s);
}

/// Adding the same 0/1 signature twice cancels: crossing a cut and crossing it back
/// leaves the signature as it was.
pub proof fn lemma_sig_add_cancel(s: Seq<i32>, e: Seq<i32>)
    requires
        is_binary(s),
        is_binary(e),
        s.len() == e.len(),
    ensures
        sig_add(sig_add(s, e), e) == s,
{
    assert forall|i: int| 0 <= i < s.len() implies #[trigger] sig_add(sig_add(s, e), e)[i] == s[i] by {
        assert(s[i] == 0 || s[i] == 1);
        assert(e[i] == 0 || e[i] == 1);
    }
    assert(sig_add(sig_add(s, e), e) =~= s);
}

impl EdgeSignature {
    /// This signature with `x` appended.
    fn pushed(&self, x: i32) -> (s: EdgeSignature)
        ensures
            s@ == self@.push(x),
    {
        let mut v = self.to_vec();
        v.push(x);
        EdgeSignature { inner: v }
    }
}

impl ThresholdedSpace {
    /// Every 0/1 signature with one entry per obstacle, each exactly once.
    pub fn possible_signatures(&self) -> (out: Vec<EdgeSignature>)
        ensures
            forall|i: int|
                0 <= i < out@.len() ==> (#[trigger] out@[i])@.len() == self.num_obstacles()
                    && is_binary(out@[i]@),
            forall|s: Seq<i32>|
                s.len() == self.num_obstacles() && is_binary(s) ==> exists|i: int|
                    0 <= i < out@.len() && (#[trigger] out@[i])@ == s,
            forall|i: int, j: int|
                0 <= i < j < out@.len() ==> (#[trigger] out@[i])@ != (#[trigger] out@[j])@,
    {
        let m = self.obstacles.len();
        let mut acc: Vec<EdgeSignature> = Vec::new();
        acc.push(EdgeSignature { inner: Vec::new() });
        let mut k: usize = 0;
        proof {
            assert forall|s: Seq<i32>| s.len() == 0 && is_binary(s) implies exists|i: int|
                0 <= i < acc@.len() && (#[trigger] acc@[i])@ == s by {
                assert(acc@[0]@ =~= s);
            }
        }
        while k < m
            invariant
                m == self.num_obstacles(),
                k <= m,
                forall|i: int| 0 <= i < acc@.len() ==> (#[trigger] acc@[i])@.len() == k && is_binary(acc@[i]@),
                forall|s: Seq<i32>|
                    s.len() == k && is_binary(s) ==> exists|i: int|
                        0 <= i < acc@.len() && (#[trigger] acc@[i])@ == s,
                forall|i: int, j: int|
                    0 <= i < j < acc@.len() ==> (#[trigger] acc@[i])@ != (#[trigger] acc@[j])@,
            decreases m - k,
        {
            let mut next: Vec<EdgeSignature> = Vec::new();
            let mut t: usize = 0;
            while t < acc.len()
                invariant
                    t <= acc@.len(),
                    next@.len() == 2 * t,
                    forall|i: int| 0 <= i < acc@.len() ==> (#[trigger] acc@[i])@.len() == k && is_binary(acc@[i]@),
                    forall|i: int, j: int|
                        0 <= i < j < acc@.len() ==> (#[trigger] acc@[i])@ != (#[trigger] acc@[j])@,
                    forall|i: int| 0 <= i < t ==> (#[trigger] next@[2 * i])@ == acc@[i]@.push(0),
                    forall|i: int| 0 <= i < t ==> (#[trigger] next@[2 * i + 1])@ == acc@[i]@.push(1),
                decreases acc@.len() - t,
            {
                let a = acc[t].pushed(0);
                let b = acc[t].pushed(1);
                let ghost next0 = next@;
                next.push(a);
                next.push(b);
                proof {
                    assert forall|i: int| 0 <= i < t + 1 implies (#[trigger] next@[2 * i])@ == acc@[i]@.push(0) by {
                        if i < t {
                            assert(next@[2 * i] == next0[2 * i]);
                        }
                    }
                    assert forall|i: int| 0 <= i < t + 1 implies (#[trigger] next@[2 * i + 1])@ == acc@[i]@.push(1) by {
                        if i < t {
                            assert(next@[2 * i + 1] == next0[2 * i + 1]);
                        }
                    }
                }
                t += 1;
            }
            proof {
                let ghost kk = (k + 1) as nat;
                assert forall|i: int| 0 <= i < next@.len() implies (#[trigger] next@[i])@.len() == kk
                    && is_binary(next@[i]@) by {
                    let h = i / 2;
                    assert(i == 2 * h || i == 2 * h + 1);
                    assert(is_binary(acc@[h]@));
                    if i == 2 * h {
                        assert(next@[2 * h]@ == acc@[h]@.push(0));
                    } else {
                        assert(next@[2 * h + 1]@ == acc@[h]@.push(1));
                    }
                    assert forall|x: int| 0 <= x < next@[i]@.len() implies #[trigger] next@[i]@[x] == 0
                        || next@[i]@[x] == 1 by {
                        if x < k {
                            assert(next@[i]@[x] == acc@[h]@[x]);
                        }
                    }
                }
                assert forall|s: Seq<i32>| s.len() == kk && is_binary(s) implies exists|i: int|
                    0 <= i < next@.len() && (#[trigger] next@[i])@ == s by {
                    let pre = s.drop_last();
                    assert(is_binary(pre)) by {
                        assert forall|x: int| 0 <= x < pre.len() implies #[trigger] pre[x] == 0 || pre[x] == 1 by {
                            assert(pre[x] == s[x]);
                        }
                    }
                    let h = choose|h: int| 0 <= h < acc@.len() && (#[trigger] acc@[h])@ == pre;
                    assert(s[s.len() - 1] == 0 || s[s.len() - 1] == 1);
                    if s.last() == 0 {
                        assert(next@[2 * h]@ =~= s);
                    } else {
                        assert(next@[2 * h + 1]@ =~= s);
                    }
                }
                assert forall|i: int, j: int| 0 <= i < j < next@.len() implies (#[trigger] next@[i])@
                    != (#[trigger] next@[j])@ by {
                    let hi = i / 2;
                    let hj = j / 2;
                    assert(i == 2 * hi || i == 2 * hi + 1);
                    assert(j == 2 * hj || j == 2 * hj + 1);
                    let si = next@[i]@;
                    let sj = next@[j]@;
                    assert(si.drop_last() =~= acc@[hi]@) by {
                        if i == 2 * hi {
                            assert(next@[2 * hi]@ == acc@[hi]@.push(0));
                        } else {
                            assert(next@[2 * hi + 1]@ == acc@[hi]@.push(1));
                        }
                    }
                    assert(sj.drop_last() =~= acc@[hj]@) by {
                        if j == 2 * hj {
                            assert(next@[2 * hj]@ == acc@[hj]@.push(0));
                        } else {
                            assert(next@[2 * hj + 1]@ == acc@[hj]@.push(1));
                        }
                    }
                    if hi == hj {
                        assert(i == 2 * hi && j == 2 * hi + 1);
                        assert(next@[2 * hi]@ == acc@[hi]@.push(0));
                        assert(next@[2 * hi + 1]@ == acc@[hi]@.push(1));
                        assert(si.last() != sj.last());
                    } else {
                        assert(hi < hj);
                        assert(acc@[hi]@ != acc@[hj]@);
                    }
                }
            }
            acc = next;
            k += 1;
        }
        acc
    }
}


impl ThresholdedSpace {
    /// For every obstacle reference `o` and every move between free neighbours `a`
    /// and `b`, the move's signature entry for `o` (as used by the search and as
    /// stored for the edge) is 1 exactly when both ends lie in `o`'s column or to its
    /// right and exactly one end lies in `o`'s row or below it; in particular a move
    /// with an end left of `o`'s column has entry 0, whatever `o`'s row.
    pub proof fn lemma_move_signature_entries(&self, a: Coord, b: Coord, i: int)
        requires
            self.free_grid().wf(),
            is_free(self.free_grid(), a),
            is_free(self.free_grid(), b),
            self.free_grid().neighbor_seq(a).contains(b),
            0 <= i < self.num_obstacles(),
        ensures
            self.edge_sig(a, b).len() == self.num_obstacles(),
            self.stored_sig(BiEdge::spec_new(a, b)).len() == self.num_obstacles(),
            ({
                let o = self.obstacle_refs()[i];
                let expected: i32 = if a.col >= o.col && b.col >= o.col && ((a.row >= o.row) != (b.row
                    >= o.row)) {
                    1
                } else {
                    0
                };
                &&& self.edge_sig(a, b)[i] == expected
                &&& self.stored_sig(BiEdge::spec_new(a, b))[i] == expected
                &&& (a.col < o.col || b.col < o.col) ==> self.edge_sig(a, b)[i] == 0
                &&& (a.col < o.col || b.col < o.col) ==> self.stored_sig(BiEdge::spec_new(a, b))[i]
                    == 0
            }),
    {
        let g = self.free_grid();
        lemma_crossing_symmetric(self.obstacle_refs(), a, b);
        BiEdge::lemma_new_symmetric(a, b);
        if !coord_lt(a, b) && a != b {
            g.lemma_neighbors_symmetric(a, b);
        }
        let e = BiEdge::spec_new(a, b);
        assert(self.stored_sig(e) == self.edge_sig(a, b));
    }

    /// What `render` draws at an in-bounds cell `c`: `s` at the path's first cell,
    /// `g` at its last cell (when that is not the first), `*` at its other cells,
    /// and off the path `.` exactly when the cell is free and `#` exactly when it is
    /// blocked (the cell that `index` returns for `c`).
    pub proof fn lemma_render_cells(&self, path: Seq<Coord>, c: Coord)
        requires
            self.free_grid().wf(),
            self.free_grid().contains_coord(c),
        ensures
            path.len() > 0 && c == path[0] ==> self.cell_char(path, c) == 's',
            path.len() > 0 && c != path[0] && c == path.last() ==> self.cell_char(path, c) == 'g',
            path.contains(c) && c != path[0] && c != path.last() ==> self.cell_char(path, c)
                == '*',
            !path.contains(c) ==> (self.cell_char(path, c) == '.' <==> is_free(self.free_grid(), c)),
            !path.contains(c) ==> (self.cell_char(path, c) == '#' <==> is_blocked(
                self.free_grid(),
                c,
            )),
    {
        if path.len() > 0 {
            assert(path.contains(path[0]));
            assert(path.contains(path[path.len() - 1]));
        }
    }
}

} // verus!
