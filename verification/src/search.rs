//! Shortest paths with a prescribed signature: A* over (cell, signature) states.
use vstd::prelude::*;
use vstd::set_lib::{lemma_int_range, lemma_set_subset_finite, set_int_range};
use crate::grid::{Coord, adjacent, lemma_pick_elems_contains, pick_elems};
use crate::space::{
    BiEdge, EdgeSignature, ThresholdedSpace, is_binary, is_free, lemma_crossing_symmetric, sig_add,
    zeros, rem2, lemma_sig_add_cancel, path_contains,
};

verus! {

/// A search state: a cell and the signature accumulated on the way to it.
#[derive(Debug, Hash, PartialEq, Eq, PartialOrd, Ord, Clone)]
pub struct CoordSig {
    c: Coord,
    s: EdgeSignature,
}

impl View for CoordSig {
    type V = (Coord, Seq<i32>);

    closed spec fn view(&self) -> (Coord, Seq<i32>) {
        (self.c, self.s@)
    }
}

impl CoordSig {
    pub fn new(c: Coord, s: EdgeSignature) -> (r: CoordSig)
        ensures
            r@ == (c, s@),
    {
        CoordSig { c, s }
    }

    pub fn coord(&self) -> (c: Coord)
        ensures
            c == self@.0,
    {
        self.c
    }

    pub fn signature(&self) -> (s: EdgeSignature)
        ensures
            s@ == self@.1,
    {
        self.s.duplicate()
    }
}

/// Chebyshev distance: the number of moves between two cells on an open grid where
/// diagonal moves are allowed.
pub open spec fn cheb(a: Coord, b: Coord) -> int {
    let dr = if a.row >= b.row {
        a.row - b.row
    } else {
        b.row - a.row
    };
    let dc = if a.col >= b.col {
        a.col - b.col
    } else {
        b.col - a.col
    };
    if dr >= dc {
        dr
    } else {
        dc
    }
}

fn chebyshev(a: Coord, b: Coord) -> (d: usize)
    ensures
        d == cheb(a, b),
{
    let dr = if a.row >= b.row {
        a.row - b.row
    } else {
        b.row - a.row
    };
    let dc = if a.col >= b.col {
        a.col - b.col
    } else {
        b.col - a.col
    };
    if dr >= dc {
        dr
    } else {
        dc
    }
}

pub proof fn lemma_cheb_adjacent(a: Coord, b: Coord, goal: Coord)
    requires
        adjacent(a, b),
    ensures
        cheb(a, goal) <= cheb(b, goal) + 1,
{
}

impl ThresholdedSpace {
    /// `b` is a free neighbour of `a`: a move the planner may make.
    pub open spec fn step_ok(&self, a: Coord, b: Coord) -> bool {
        self.free_grid().neighbor_seq(a).contains(b) && is_free(self.free_grid(), b)
    }

    /// Signature after following `p`, starting with signature `s0` at `p[0]`.
    pub open spec fn fold_sig(&self, s0: Seq<i32>, p: Seq<Coord>) -> Seq<i32>
        decreases p.len(),
    {
        if p.len() <= 1 {
            s0
        } else {
            sig_add(self.fold_sig(s0, p.drop_last()), self.edge_sig(p[p.len() - 2], p.last()))
        }
    }

    /// Signature of the path `p`, starting from all zeros.
    pub open spec fn walk_sig(&self, p: Seq<Coord>) -> Seq<i32> {
        self.fold_sig(zeros(self.num_obstacles()), p)
    }

    /// `p` starts at `start` and every move goes to a free neighbour.
    pub open spec fn is_walk(&self, p: Seq<Coord>, start: Coord) -> bool {
        &&& p.len() >= 1
        &&& p[0] == start
        &&& forall|k: int| 0 <= k < p.len() - 1 ==> #[trigger] self.step_ok(p[k], p[k + 1])
    }

    /// `p` leads from `start` to `goal` and has signature `sig`.
    pub open spec fn solves(&self, p: Seq<Coord>, start: Coord, goal: Coord, sig: Seq<i32>) -> bool {
        self.is_walk(p, start) && p.last() == goal && self.walk_sig(p) == sig
    }

    /// The state reached at the end of `p`.
    pub open spec fn path_state(&self, p: Seq<Coord>) -> (Coord, Seq<i32>) {
        (p.last(), self.walk_sig(p))
    }

    /// The state reached from `st` by moving to `b`.
    pub open spec fn succ(&self, st: (Coord, Seq<i32>), b: Coord) -> (Coord, Seq<i32>) {
        (b, sig_add(st.1, self.edge_sig(st.0, b)))
    }

    /// The edge stored for a move is that of the move.
    pub proof fn lemma_stored_step(&self, a: Coord, b: Coord)
        requires
            self.free_grid().wf(),
            self.step_ok(a, b),
        ensures
            self.stored_sig(BiEdge::spec_new(a, b)) == self.edge_sig(a, b),
    {
        BiEdge::lemma_new_symmetric(a, b);
        lemma_crossing_symmetric(self.obstacle_refs(), a, b);
        let g = self.free_grid();
        if !crate::grid::coord_lt(a, b) && a != b && is_free(g, a) {
            g.lemma_neighbors_symmetric(a, b);
        }
        if !crate::grid::coord_lt(a, b) && a != b && is_free(g, b) && is_free(g, a) {
            assert(g.neighbor_seq(b).contains(a));
        }
    }

    pub proof fn lemma_edge_sig_binary(&self, a: Coord, b: Coord)
        ensures
            is_binary(self.edge_sig(a, b)),
            self.edge_sig(a, b).len() == self.num_obstacles(),
    {
        lemma_crossing_symmetric(self.obstacle_refs(), a, b);
    }

    /// Following one more move from a path's end adds that move's signature.
    pub proof fn lemma_walk_extend(&self, p: Seq<Coord>, start: Coord, b: Coord)
        requires
            self.is_walk(p, start),
            self.step_ok(p.last(), b),
        ensures
            self.is_walk(p.push(b), start),
            self.path_state(p.push(b)) == self.succ(self.path_state(p), b),
    {
        let q = p.push(b);
        assert(q.drop_last() =~= p);
        assert forall|k: int| 0 <= k < q.len() - 1 implies #[trigger] self.step_ok(q[k], q[k + 1]) by {
            if k < p.len() - 1 {
                assert(q[k] == p[k] && q[k + 1] == p[k + 1]);
            }
        }
    }

    /// A prefix of a walk is a walk, and the next prefix is reached by one move.
    pub proof fn lemma_walk_prefix(&self, q: Seq<Coord>, start: Coord, k: int)
        requires
            self.is_walk(q, start),
            0 <= k < q.len() - 1,
        ensures
            self.is_walk(q.take(k + 1), start),
            self.step_ok(q[k], q[k + 1]),
            q.take(k + 2) == q.take(k + 1).push(q[k + 1]),
            self.path_state(q.take(k + 2)) == self.succ(self.path_state(q.take(k + 1)), q[k + 1]),
    {
        let p = q.take(k + 1);
        assert forall|j: int| 0 <= j < p.len() - 1 implies #[trigger] self.step_ok(p[j], p[j + 1]) by {
            assert(p[j] == q[j] && p[j + 1] == q[j + 1]);
        }
        assert(self.step_ok(q[k], q[k + 1]));
        assert(q.take(k + 2) =~= p.push(q[k + 1]));
        self.lemma_walk_extend(p, start, q[k + 1]);
    }

    /// Starting a path one move earlier.
    pub proof fn lemma_fold_prepend(&self, s0: Seq<i32>, a: Coord, p: Seq<Coord>)
        requires
            p.len() >= 1,
        ensures
            self.fold_sig(s0, seq![a] + p) == self.fold_sig(sig_add(s0, self.edge_sig(a, p[0])), p),
        decreases p.len(),
    {
        let q = seq![a] + p;
        if p.len() == 1 {
            assert(q.drop_last() =~= seq![a]);
            assert(q[q.len() - 2] == a && q.last() == p[0]);
            assert(self.fold_sig(s0, seq![a]) == s0);
            assert(self.fold_sig(s0, q) == sig_add(self.fold_sig(s0, q.drop_last()), self.edge_sig(a, p[0])));
        } else {
            assert(q.drop_last() =~= seq![a] + p.drop_last());
            assert(q[q.len() - 2] == p[p.len() - 2] && q.last() == p.last());
            self.lemma_fold_prepend(s0, a, p.drop_last());
            assert(self.fold_sig(s0, q) == sig_add(
                self.fold_sig(s0, q.drop_last()),
                self.edge_sig(p[p.len() - 2], p.last()),
            ));
        }
    }

    /// The heuristic changes by at most one per move along a walk.
    pub proof fn lemma_cheb_walk(&self, q: Seq<Coord>, start: Coord, k: int, goal: Coord)
        requires
            self.is_walk(q, start),
            0 <= k < q.len(),
        ensures
            cheb(q[k], goal) <= (q.len() - 1 - k) + cheb(q.last(), goal),
        decreases q.len() - k,
    {
        if k < q.len() - 1 {
            self.lemma_cheb_walk(q, start, k + 1, goal);
            assert(self.step_ok(q[k], q[k + 1]));
            self.free_grid().lemma_neighbor_seq_contains(q[k], q[k + 1]);
            lemma_cheb_adjacent(q[k], q[k + 1], goal);
        }
    }
}

pub proof fn lemma_sig_add_binary(a: Seq<i32>, b: Seq<i32>, m: nat)
    requires
        a.len() == m,
        b.len() == m,
        is_binary(a),
        is_binary(b),
    ensures
        is_binary(sig_add(a, b)),
        sig_add(a, b).len() == m,
        forall|i: int| 0 <= i < m ==> i32::MIN <= #[trigger] a[i] + b[i] <= i32::MAX,
{
    assert forall|i: int| 0 <= i < m implies #[trigger] sig_add(a, b)[i] == 0 || sig_add(a, b)[i] == 1 by {
        assert(a[i] == 0 || a[i] == 1);
        assert(b[i] == 0 || b[i] == 1);
        assert(rem2(a[i] + b[i]) == 0 || rem2(a[i] + b[i]) == 1);
    }
    assert forall|i: int| 0 <= i < m implies i32::MIN <= #[trigger] a[i] + b[i] <= i32::MAX by {
        assert(a[i] == 0 || a[i] == 1);
        assert(b[i] == 0 || b[i] == 1);
    }
}


/// Index of a state equal to `(c, s)`, if any.
fn find_state(states: &Vec<CoordSig>, c: Coord, s: &EdgeSignature) -> (r: Option<usize>)
    ensures
        match r {
            Some(j) => j < states@.len() && states@[j as int]@ == (c, s@),
            None => forall|i: int| 0 <= i < states@.len() ==> states@[i]@ != (c, s@),
        },
{
    let mut i: usize = 0;
    while i < states.len()
        invariant
            i <= states@.len(),
            forall|k: int| 0 <= k < i ==> states@[k]@ != (c, s@),
        decreases states@.len() - i,
    {
        if states[i].c == c && states[i].s.same_as(s) {
            return Some(i);
        }
        i += 1;
    }
    None
}

/// An open (not closed) state with the least estimate `g + cheb(cell, goal)`, the
/// first such one; `None` when every state is closed.
fn select_open(states: &Vec<CoordSig>, g: &Vec<usize>, closed: &Vec<bool>, goal: Coord) -> (r: Option<usize>)
    requires
        states@.len() == g@.len(),
        g@.len() == closed@.len(),
    ensures
        match r {
            Some(m) => {
                &&& m < states@.len()
                &&& !closed@[m as int]
                &&& forall|i: int|
                    0 <= i < states@.len() && !closed@[i] ==> g@[m as int] + cheb(
                        states@[m as int]@.0,
                        goal,
                    ) <= g@[i] + cheb(states@[i]@.0, goal)
            },
            None => forall|i: int| 0 <= i < states@.len() ==> closed@[i],
        },
{
    let mut best: usize = 0;
    let mut best_f: u128 = 0;
    let mut found = false;
    let mut i: usize = 0;
    while i < states.len()
        invariant
            states@.len() == g@.len(),
            g@.len() == closed@.len(),
            i <= states@.len(),
            found ==> best < i && !closed@[best as int] && best_f == g@[best as int] + cheb(
                states@[best as int]@.0,
                goal,
            ),
            forall|k: int|
                0 <= k < i && !closed@[k] ==> found && best_f <= g@[k] + cheb(states@[k]@.0, goal),
        decreases states@.len() - i,
    {
        if !closed[i] {
            let f = g[i] as u128 + chebyshev(states[i].coord(), goal) as u128;
            if !found || f < best_f {
                best = i;
                best_f = f;
                found = true;
            }
        }
        i += 1;
    }
    if found {
        Some(best)
    } else {
        None
    }
}

impl ThresholdedSpace {
    /// The bookkeeping of the search.  `sts` are the states found so far (the first
    /// is the start), `g` the length of the best known path to each, `par` the state
    /// it was reached from, `closed` which states are done, `wit` a path realising
    /// `g`.  Every closed state except `pending` has all its successors recorded.
    spec fn search_inv(
        &self,
        start: Coord,
        goal_st: (Coord, Seq<i32>),
        sts: Seq<(Coord, Seq<i32>)>,
        g: Seq<usize>,
        par: Seq<usize>,
        closed: Seq<bool>,
        wit: Seq<Seq<Coord>>,
        pending: int,
    ) -> bool {
        let d = sts.len();
        let m = self.num_obstacles();
        &&& d >= 1
        &&& g.len() == d
        &&& par.len() == d
        &&& closed.len() == d
        &&& wit.len() == d
        &&& sts[0] == (start, zeros(m))
        &&& g[0] == 0
        &&& forall|i: int, j: int| 0 <= i < j < d ==> #[trigger] sts[i] != #[trigger] sts[j]
        &&& forall|i: int|
            0 <= i < d ==> {
                &&& self.is_walk(#[trigger] wit[i], start)
                &&& wit[i].len() == g[i] + 1
                &&& self.path_state(wit[i]) == sts[i]
                &&& g[i] < d
                &&& (self.free_grid().contains_coord(sts[i].0) || sts[i].0 == start)
                &&& sts[i].1.len() == m
                &&& is_binary(sts[i].1)
            }
        &&& forall|i: int|
            1 <= i < d ==> {
                &&& 0 <= #[trigger] par[i] < d
                &&& closed[par[i] as int]
                &&& g[i] == g[par[i] as int] + 1
                &&& self.step_ok(sts[par[i] as int].0, sts[i].0)
                &&& sts[i] == self.succ(sts[par[i] as int], sts[i].0)
            }
        &&& forall|i: int, b: Coord|
            0 <= i < d && closed[i] && i != pending && #[trigger] self.step_ok(sts[i].0, b)
                ==> exists|j: int|
                0 <= j < d && #[trigger] sts[j] == self.succ(sts[i], b) && g[j] <= g[i] + 1
        &&& forall|i: int, q: Seq<Coord>|
            #![trigger self.is_walk(q, start), closed[i]]
            0 <= i < d && closed[i] && self.is_walk(q, start) && self.path_state(q) == sts[i]
                ==> g[i] + 1 <= q.len()
        &&& forall|i: int| 0 <= i < d && #[trigger] closed[i] ==> sts[i] != goal_st
    }

    /// On any walk whose end state is not closed, some prefix ends in an open state
    /// whose recorded length is at most that prefix's.
    proof fn lemma_frontier(
        &self,
        start: Coord,
        goal_st: (Coord, Seq<i32>),
        sts: Seq<(Coord, Seq<i32>)>,
        g: Seq<usize>,
        par: Seq<usize>,
        closed: Seq<bool>,
        wit: Seq<Seq<Coord>>,
        q: Seq<Coord>,
        k: int,
        x: int,
    ) -> (r: (int, int))
        requires
            self.free_grid().wf(),
            self.search_inv(start, goal_st, sts, g, par, closed, wit, -1),
            self.is_walk(q, start),
            forall|i: int| 0 <= i < sts.len() && closed[i] ==> sts[i] != self.path_state(q),
            0 <= k < q.len(),
            0 <= x < sts.len(),
            sts[x] == self.path_state(q.take(k + 1)),
            g[x] <= k,
        ensures
            0 <= r.0 < q.len(),
            0 <= r.1 < sts.len(),
            !closed[r.1],
            sts[r.1] == self.path_state(q.take(r.0 + 1)),
            g[r.1] <= r.0,
        decreases q.len() - k,
    {
        if !closed[x] {
            (k, x)
        } else {
            if k == q.len() - 1 {
                assert(q.take(k + 1) =~= q);
                assert(false);
            }
            self.lemma_walk_prefix(q, start, k);
            assert(sts[x].0 == q[k]);
            assert(self.step_ok(sts[x].0, q[k + 1]));
            let j = choose|j: int|
                0 <= j < sts.len() && #[trigger] sts[j] == self.succ(sts[x], q[k + 1]) && g[j] <= g[x] + 1;
            self.lemma_frontier(start, goal_st, sts, g, par, closed, wit, q, k + 1, j)
        }
    }

    /// Rebuilds the path to state `m` by following the recorded predecessors.
    fn reconstruct(
        &self,
        states: &Vec<CoordSig>,
        par: &Vec<usize>,
        g: &Vec<usize>,
        m: usize,
        Ghost(start): Ghost<Coord>,
    ) -> (p: Vec<Coord>)
        requires
            self.free_grid().wf(),
            states@.len() == par@.len(),
            states@.len() == g@.len(),
            m < states@.len(),
            states@[0]@ == (start, zeros(self.num_obstacles())),
            g@[0] == 0,
            forall|i: int|
                1 <= i < states@.len() ==> {
                    &&& 0 <= #[trigger] par@[i] < states@.len()
                    &&& g@[i] == g@[par@[i] as int] + 1
                    &&& self.step_ok(states@[par@[i] as int]@.0, states@[i]@.0)
                    &&& states@[i]@ == self.succ(states@[par@[i] as int]@, states@[i]@.0)
                },
        ensures
            self.is_walk(p@, start),
            p@.last() == states@[m as int]@.0,
            self.walk_sig(p@) == states@[m as int]@.1,
            p@.len() == g@[m as int] + 1,
    {
        let mut rev: Vec<Coord> = Vec::new();
        let mut cur = m;
        rev.push(states[cur].coord());
        let ghost mut sfx: Seq<Coord> = seq![states@[m as int]@.0];
        while cur != 0
            invariant
                states@.len() == par@.len(),
                states@.len() == g@.len(),
                states@[0]@ == (start, zeros(self.num_obstacles())),
                g@[0] == 0,
                forall|i: int|
                    1 <= i < states@.len() ==> {
                        &&& 0 <= #[trigger] par@[i] < states@.len()
                        &&& g@[i] == g@[par@[i] as int] + 1
                        &&& self.step_ok(states@[par@[i] as int]@.0, states@[i]@.0)
                        &&& states@[i]@ == self.succ(states@[par@[i] as int]@, states@[i]@.0)
                    },
                m < states@.len(),
                cur < states@.len(),
                g@[cur as int] <= g@[m as int],
                sfx.len() == g@[m as int] - g@[cur as int] + 1,
                rev@.len() == sfx.len(),
                forall|i: int| 0 <= i < rev@.len() ==> rev@[i] == sfx[sfx.len() - 1 - i],
                sfx[0] == states@[cur as int]@.0,
                sfx.last() == states@[m as int]@.0,
                forall|k: int| 0 <= k < sfx.len() - 1 ==> #[trigger] self.step_ok(sfx[k], sfx[k + 1]),
                self.fold_sig(states@[cur as int]@.1, sfx) == states@[m as int]@.1,
            decreases g@[cur as int],
        {
            let pc = par[cur];
            assert(1 <= cur < states@.len());
            rev.push(states[pc].coord());
            proof {
                let old_sfx = sfx;
                let a = states@[pc as int]@.0;
                sfx = seq![a] + old_sfx;
                self.lemma_fold_prepend(states@[pc as int]@.1, a, old_sfx);
                assert forall|k: int| 0 <= k < sfx.len() - 1 implies #[trigger] self.step_ok(
                    sfx[k],
                    sfx[k + 1],
                ) by {
                    if k > 0 {
                        let j = k - 1;
                        assert(self.step_ok(old_sfx[j], old_sfx[j + 1]));
                        assert(sfx[k] == old_sfx[j] && sfx[k + 1] == old_sfx[j + 1]);
                    } else {
                        assert(sfx[0] == a && sfx[1] == old_sfx[0]);
                        assert(self.step_ok(states@[pc as int]@.0, states@[cur as int]@.0));
                    }
                }
                assert forall|i: int| 0 <= i < rev@.len() implies rev@[i] == sfx[sfx.len() - 1 - i] by {
                    if i < rev@.len() - 1 {
                        assert(sfx[sfx.len() - 1 - i] == old_sfx[old_sfx.len() - 1 - i]);
                    }
                }
            }
            cur = pc;
        }
        let mut path: Vec<Coord> = Vec::new();
        let mut k = rev.len();
        while k > 0
            invariant
                k <= rev@.len(),
                rev@.len() == sfx.len(),
                forall|i: int| 0 <= i < rev@.len() ==> rev@[i] == sfx[sfx.len() - 1 - i],
                path@ == sfx.take(rev@.len() - k),
            decreases k,
        {
            k -= 1;
            path.push(rev[k]);
            assert(path@ =~= sfx.take(rev@.len() - k));
        }
        assert(path@ =~= sfx);
        path
    }
}


impl ThresholdedSpace {
    /// All states the search can meet: a cell inside the grid (or the start) with a
    /// 0/1 signature of length `k`.
    pub open spec fn state_universe(&self, start: Coord, k: nat) -> Set<(Coord, Seq<i32>)> {
        Set::new(
            |st: (Coord, Seq<i32>)|
                (self.free_grid().contains_coord(st.0) || st.0 == start) && st.1.len() == k
                    && is_binary(st.1),
        )
    }

    pub proof fn lemma_universe_finite(&self, start: Coord, k: nat)
        requires
            self.free_grid().wf(),
        ensures
            self.state_universe(start, k).finite(),
        decreases k,
    {
        let g = self.free_grid();
        if k == 0 {
            let cols = g.num_cols();
            let n = g.cells().len() as int;
            lemma_int_range(0, n);
            let f = |i: int| crate::grid::coord_at(i, cols);
            let r = set_int_range(0, n);
            r.lemma_map_finite(f);
            let cells = r.map(f).insert(start);
            g.lemma_row_major();
            let h = |c: Coord| (c, Seq::<i32>::empty());
            cells.lemma_map_finite(h);
            assert(self.state_universe(start, 0).subset_of(cells.map(h))) by {
                assert forall|st: (Coord, Seq<i32>)| #[trigger] self.state_universe(start, 0).contains(
                    st,
                ) implies cells.map(h).contains(st) by {
                    assert(st.1 =~= Seq::<i32>::empty());
                    if st.0 != start {
                        let i = g.index_of(st.0);
                        assert(r.contains(i));
                        assert(f(i) == st.0);
                        assert(r.map(f).contains(st.0));
                    }
                    assert(cells.contains(st.0));
                    assert(h(st.0) == st);
                }
            }
            lemma_set_subset_finite(cells.map(h), self.state_universe(start, 0));
        } else {
            let k0 = (k - 1) as nat;
            self.lemma_universe_finite(start, k0);
            let u = self.state_universe(start, k0);
            let f0 = |st: (Coord, Seq<i32>)| (st.0, st.1.push(0i32));
            let f1 = |st: (Coord, Seq<i32>)| (st.0, st.1.push(1i32));
            u.lemma_map_finite(f0);
            u.lemma_map_finite(f1);
            let w = u.map(f0).union(u.map(f1));
            assert(self.state_universe(start, k).subset_of(w)) by {
                assert forall|st: (Coord, Seq<i32>)| #[trigger] self.state_universe(start, k).contains(
                    st,
                ) implies w.contains(st) by {
                    let pre = (st.0, st.1.drop_last());
                    assert(is_binary(pre.1)) by {
                        assert forall|i: int| 0 <= i < pre.1.len() implies #[trigger] pre.1[i] == 0
                            || pre.1[i] == 1 by {
                            assert(pre.1[i] == st.1[i]);
                        }
                    }
                    assert(u.contains(pre));
                    assert(st.1[st.1.len() - 1] == 0 || st.1[st.1.len() - 1] == 1);
                    if st.1.last() == 0 {
                        assert(f0(pre).1 =~= st.1);
                        assert(u.map(f0).contains(st));
                    } else {
                        assert(f1(pre).1 =~= st.1);
                        assert(u.map(f1).contains(st));
                    }
                }
            }
            lemma_set_subset_finite(w, self.state_universe(start, k));
        }
    }
}


impl ThresholdedSpace {
    /// A shortest path from `start` to `goal` whose signature is `sig`: the path
    /// starts at `start`, every move goes to a free neighbour, it ends at `goal`,
    /// the signature accumulated along it (starting from all zeros) is `sig`, and no
    /// such path is shorter.  `None` when no such path exists.
    ///
    /// The search is A* over (cell, signature) states, each move costing one, with
    /// the Chebyshev distance to `goal` as estimate.
    pub fn a_star(&self, start: Coord, goal: Coord, sig: EdgeSignature) -> (r: Option<Vec<Coord>>)
        requires
            self.wf(),
        ensures
            match r {
                Some(p) => self.solves(p@, start, goal, sig@) && forall|q: Seq<Coord>|
                    self.solves(q, start, goal, sig@) ==> p@.len() <= q.len(),
                None => forall|q: Seq<Coord>| !self.solves(q, start, goal, sig@),
            },
    {
        proof {
            self.lemma_wf();
        }
        let grid = self.free_map();
        let ghost mo = self.num_obstacles();
        let ghost goal_st = (goal, sig@);
        let zero = self.default_signature();
        let mut states: Vec<CoordSig> = Vec::new();
        states.push(CoordSig::new(start, zero));
        let mut g: Vec<usize> = Vec::new();
        g.push(0);
        let mut par: Vec<usize> = Vec::new();
        par.push(0);
        let mut closed: Vec<bool> = Vec::new();
        closed.push(false);
        let ghost mut sts: Seq<(Coord, Seq<i32>)> = seq![(start, zeros(mo))];
        let ghost mut wit: Seq<Seq<Coord>> = seq![seq![start]];
        let ghost mut cset: Set<(Coord, Seq<i32>)> = Set::empty();
        let ghost univ = self.state_universe(start, mo);
        proof {
            self.lemma_universe_finite(start, mo);
            assert(is_binary(zeros(mo)));
            assert(self.is_walk(seq![start], start));
            assert(self.path_state(seq![start]) == (start, zeros(mo)));
            assert(states@[0]@ == sts[0]);
            assert(self.search_inv(start, goal_st, sts, g@, par@, closed@, wit, -1));
        }
        let is_free_cell = |b: &bool| -> (r: bool) ensures r == *b { *b };
        loop
            invariant
                forall|b: bool| call_requires(is_free_cell, (&b,)),
                forall|b: bool, r: bool| call_ensures(is_free_cell, (&b,), r) ==> r == b,
                self.wf(),
                self.free_grid().wf(),
                *grid == self.free_grid(),
                goal_st == (goal, sig@),
                mo == self.num_obstacles(),
                states@.len() == sts.len(),
                forall|i: int| 0 <= i < sts.len() ==> (#[trigger] states@[i])@ == sts[i],
                self.search_inv(start, goal_st, sts, g@, par@, closed@, wit, -1),
                univ == self.state_universe(start, mo),
                univ.finite(),
                cset.subset_of(univ),
                forall|st: (Coord, Seq<i32>)|
                    #[trigger] cset.contains(st) ==> exists|i: int|
                        0 <= i < sts.len() && closed@[i] && sts[i] == st,
            decreases univ.difference(cset).len(),
        {
            let sel = select_open(&states, &g, &closed, goal);
            if sel.is_none() {
                proof {
                    assert forall|q: Seq<Coord>| !self.solves(q, start, goal, sig@) by {
                        if self.solves(q, start, goal, sig@) {
                            assert(q.take(1) =~= seq![start]);
                            assert(self.path_state(q.take(1)) == sts[0]);
                            let r = self.lemma_frontier(start, goal_st, sts, g@, par@, closed@, wit, q, 0, 0);
                            assert(closed@[r.1]);
                        }
                    }
                }
                return None;
            }
            let m = sel.unwrap();
            let m_coord = states[m].coord();
            let m_sig = states[m].signature();
            let gm = g[m];
            proof {
                assert(self.is_walk(wit[m as int], start));
                assert(gm < sts.len());
                assert(states@[m as int]@ == sts[m as int]);
                assert forall|q: Seq<Coord>|
                    self.is_walk(q, start) && self.path_state(q) == sts[m as int] implies g@[m as int] + 1
                    <= q.len() by {
                    if q.len() < g@[m as int] + 1 {
                        assert forall|i: int| 0 <= i < sts.len() && closed@[i] implies sts[i]
                            != self.path_state(q) by {
                            if i != m {
                                assert(sts[i] != sts[m as int]);
                            }
                        }
                        assert(q.take(1) =~= seq![start]);
                        assert(self.path_state(q.take(1)) == sts[0]);
                        let r = self.lemma_frontier(start, goal_st, sts, g@, par@, closed@, wit, q, 0, 0);
                        let k = r.0;
                        let o = r.1;
                        self.lemma_cheb_walk(q, start, k, goal);
                        assert(q.take(k + 1).last() == q[k]);
                        assert(states@[o]@ == sts[o]);
                        assert(g@[m as int] + cheb(sts[m as int].0, goal) <= g@[o] + cheb(sts[o].0, goal));
                    }
                }
            }
            if m_coord == goal && m_sig.same_as(&sig) {
                let path = self.reconstruct(&states, &par, &g, m, Ghost(start));
                proof {
                    assert(states@[m as int]@ == goal_st);
                    assert forall|q: Seq<Coord>| self.solves(q, start, goal, sig@) implies path@.len()
                        <= q.len() by {
                        assert(self.path_state(q) == sts[m as int]);
                    }
                }
                return Some(path);
            }
            let ghost cset0 = cset;
            let ghost closed0 = closed@;
            proof {
                assert(sts[m as int] != goal_st);
                assert(!cset.contains(sts[m as int])) by {
                    if cset.contains(sts[m as int]) {
                        let i = choose|i: int| 0 <= i < sts.len() && closed@[i] && sts[i] == sts[m as int];
                        if i != m {
                            assert(sts[i] != sts[m as int]);
                        }
                    }
                }
                assert(self.is_walk(wit[m as int], start));
                assert(univ.contains(sts[m as int]));
            }
            closed.set(m, true);
            proof {
                cset = cset.insert(sts[m as int]);
                assert forall|st: (Coord, Seq<i32>)| #[trigger] cset.contains(st) implies exists|i: int|
                    0 <= i < sts.len() && closed@[i] && sts[i] == st by {
                    if st != sts[m as int] {
                        assert(cset0.contains(st));
                        let j = choose|j: int| 0 <= j < sts.len() && closed0[j] && sts[j] == st;
                        assert(closed@[j]);
                    } else {
                        assert(closed@[m as int]);
                    }
                }
                assert(self.search_inv(start, goal_st, sts, g@, par@, closed@, wit, m as int));
            }
            let nbrs = grid.filter_neighbors(m_coord, is_free_cell);
            let ghost nseq = self.free_grid().neighbor_seq(m_coord);
            let ghost npicks = choose|npicks: Seq<bool>|
                npicks.len() == nseq.len() && (forall|i: int|
                    0 <= i < npicks.len() ==> call_ensures(
                        is_free_cell,
                        (&self.free_grid().cell(nseq[i]),),
                        #[trigger] npicks[i],
                    )) && nbrs@ == pick_elems(nseq, npicks);
            proof {
                let fg = self.free_grid();
                fg.lemma_keep_in_bounds(crate::grid::dedup_runs(crate::grid::neighbor_candidates(m_coord)));
                assert forall|d: Coord| #[trigger] nbrs@.contains(d) <==> self.step_ok(m_coord, d) by {
                    lemma_pick_elems_contains(nseq, npicks, d);
                    if nbrs@.contains(d) {
                        let k = choose|k: int| 0 <= k < nseq.len() && npicks[k] && nseq[k] == d;
                        assert(npicks[k] == fg.cell(nseq[k]));
                        assert(nseq.contains(d));
                    }
                    if self.step_ok(m_coord, d) {
                        let k = choose|k: int| 0 <= k < nseq.len() && nseq[k] == d;
                        assert(npicks[k] == fg.cell(nseq[k]));
                    }
                }
            }
            let mut ti: usize = 0;
            while ti < nbrs.len()
                invariant
                    self.wf(),
                    self.free_grid().wf(),
                    mo == self.num_obstacles(),
                    m < sts.len(),
                    sts[m as int] == (m_coord, m_sig@),
                    m_sig@.len() == mo,
                    is_binary(m_sig@),
                    gm < sts.len(),
                    closed@[m as int],
                    g@[m as int] == gm,
                    forall|d: Coord| #[trigger] nbrs@.contains(d) <==> self.step_ok(m_coord, d),
                    states@.len() == sts.len(),
                    forall|i: int| 0 <= i < sts.len() ==> (#[trigger] states@[i])@ == sts[i],
                    self.search_inv(start, goal_st, sts, g@, par@, closed@, wit, m as int),
                    univ == self.state_universe(start, mo),
                    cset.subset_of(univ),
                    forall|st: (Coord, Seq<i32>)|
                        #[trigger] cset.contains(st) ==> exists|i: int|
                            0 <= i < sts.len() && closed@[i] && sts[i] == st,
                    ti <= nbrs@.len(),
                    forall|t: int|
                        #![trigger nbrs@[t]]
                        0 <= t < ti ==> exists|j: int|
                            0 <= j < sts.len() && #[trigger] sts[j] == self.succ(
                                sts[m as int],
                                nbrs@[t],
                            ) && g@[j] <= gm + 1,
                decreases nbrs@.len() - ti,
            {
                let nb = nbrs[ti];
                proof {
                    assert(nbrs@.contains(nbrs@[ti as int]));
                    self.lemma_stored_step(m_coord, nb);
                    self.lemma_edge_sig_binary(m_coord, nb);
                    lemma_sig_add_binary(m_sig@, self.edge_sig(m_coord, nb), mo);
                    assert(wit[m as int].last() == m_coord);
                    self.lemma_walk_extend(wit[m as int], start, nb);
                }
                let es = self.sig(BiEdge::new(m_coord, nb));
                let ns = m_sig.update(&es);
                assert(states.len() == states@.len());
                let tentative = gm + 1;
                let ghost nst = (nb, ns@);
                let ghost sts_prev = sts;
                let ghost g_prev = g@;
                let ghost states_prev = states@;
                let ghost closed_prev = closed@;
                let ghost par_prev = par@;
                assert(nst == self.succ(sts[m as int], nb));
                match find_state(&states, nb, &ns) {
                    None => {
                        states.push(CoordSig::new(nb, ns));
                        g.push(tentative);
                        par.push(m);
                        closed.push(false);
                        proof {
                            sts = sts.push(nst);
                            wit = wit.push(wit[m as int].push(nb));
                            assert forall|i: int| 0 <= i < sts.len() implies (#[trigger] states@[i])@ == sts[i] by {
                                if i < sts_prev.len() {
                                    assert(states@[i] == states_prev[i]);
                                }
                            }
                            assert(self.search_inv(start, goal_st, sts, g@, par@, closed@, wit, m as int)) by {
                                let d = sts.len();
                                assert forall|i: int, j: int| 0 <= i < j < d implies #[trigger] sts[i]
                                    != #[trigger] sts[j] by {
                                    if j == d - 1 {
                                        assert(states@[i]@ == sts_prev[i]);
                                    }
                                }
                                assert forall|i: int, b: Coord|
                                    0 <= i < d && closed@[i] && i != m && #[trigger] self.step_ok(
                                        sts[i].0,
                                        b,
                                    ) implies exists|j: int|
                                    0 <= j < d && #[trigger] sts[j] == self.succ(sts[i], b) && g@[j]
                                        <= g@[i] + 1 by {
                                    assert(i < d - 1);
                                    let j = choose|j: int|
                                        0 <= j < d - 1 && #[trigger] sts_prev[j] == self.succ(
                                            sts_prev[i],
                                            b,
                                        ) && g_prev[j] <= g_prev[i] + 1;
                                    assert(sts[j] == sts_prev[j]);
                                }
                            }
                            assert forall|st: (Coord, Seq<i32>)| #[trigger] cset.contains(st) implies exists|i: int|
                                0 <= i < sts.len() && closed@[i] && sts[i] == st by {
                                let i = choose|i: int| 0 <= i < sts_prev.len() && closed_prev[i] && sts_prev[i] == st;
                                assert(sts[i] == sts_prev[i]);
                            }
                            assert forall|t: int| #![trigger nbrs@[t]] 0 <= t < ti + 1 implies exists|j: int|
                                0 <= j < sts.len() && #[trigger] sts[j] == self.succ(
                                    sts[m as int],
                                    nbrs@[t],
                                ) && g@[j] <= gm + 1 by {
                                if t < ti {
                                    let j = choose|j: int|
                                        0 <= j < sts_prev.len() && #[trigger] sts_prev[j] == self.succ(
                                            sts_prev[m as int],
                                            nbrs@[t],
                                        ) && g_prev[j] <= gm + 1;
                                    assert(sts[j] == sts_prev[j]);
                                } else {
                                    assert(sts[sts.len() - 1] == nst);
                                }
                            }
                        }
                    },
                    Some(j) => {
                        proof {
                            assert(states@[j as int]@ == sts[j as int]);
                            if closed@[j as int] {
                                assert(self.path_state(wit[m as int].push(nb)) == sts[j as int]);
                                assert(g@[j as int] + 1 <= wit[m as int].push(nb).len());
                            }
                        }
                        if tentative < g[j] {
                            g.set(j, tentative);
                            par.set(j, m);
                            proof {
                                let wit_prev = wit;
                                wit = wit.update(j as int, wit[m as int].push(nb));
                                assert(self.search_inv(start, goal_st, sts, g@, par@, closed@, wit, m as int)) by {
                                    let d = sts.len();
                                    assert(!closed@[j as int]);
                                    assert forall|i: int|
                                        0 <= i < d implies {
                                            &&& self.is_walk(#[trigger] wit[i], start)
                                            &&& wit[i].len() == g@[i] + 1
                                            &&& self.path_state(wit[i]) == sts[i]
                                            &&& g@[i] < d
                                            &&& (self.free_grid().contains_coord(sts[i].0) || sts[i].0 == start)
                                            &&& sts[i].1.len() == mo
                                            &&& is_binary(sts[i].1)
                                        } by {
                                        assert(self.is_walk(wit_prev[i], start));
                                    }
                                    assert forall|i: int, q: Seq<Coord>|
                                        #![trigger self.is_walk(q, start), closed@[i]]
                                        0 <= i < d && closed@[i] && self.is_walk(q, start) && self.path_state(q) == sts[i]
                                            implies g@[i] + 1 <= q.len() by {
                                        assert(i != j);
                                        assert(g@[i] == g_prev[i]);
                                    }
                                    assert forall|i: int, b: Coord|
                                        0 <= i < d && closed@[i] && i != m && #[trigger] self.step_ok(
                                            sts[i].0,
                                            b,
                                        ) implies exists|jj: int|
                                        0 <= jj < d && #[trigger] sts[jj] == self.succ(sts[i], b) && g@[jj]
                                            <= g@[i] + 1 by {
                                        let jj = choose|jj: int|
                                            0 <= jj < d && #[trigger] sts[jj] == self.succ(
                                                sts[i],
                                                b,
                                            ) && g_prev[jj] <= g_prev[i] + 1;
                                        assert(g@[jj] <= g_prev[jj]);
                                        assert(i != j);
                                    }
                                    assert forall|i: int|
                                        1 <= i < d implies {
                                            &&& 0 <= #[trigger] par@[i] < d
                                            &&& closed@[par@[i] as int]
                                            &&& g@[i] == g@[par@[i] as int] + 1
                                            &&& self.step_ok(sts[par@[i] as int].0, sts[i].0)
                                            &&& sts[i] == self.succ(sts[par@[i] as int], sts[i].0)
                                        } by {
                                        if i != j {
                                            assert(par@[i] == par_prev[i]);
                                            assert(par@[i] != j);
                                        }
                                    }
                                }
                                assert forall|t: int| #![trigger nbrs@[t]] 0 <= t < ti + 1 implies exists|jj: int|
                                    0 <= jj < sts.len() && #[trigger] sts[jj] == self.succ(
                                        sts[m as int],
                                        nbrs@[t],
                                    ) && g@[jj] <= gm + 1 by {
                                    if t < ti {
                                        let jj = choose|jj: int|
                                            0 <= jj < sts.len() && #[trigger] sts[jj] == self.succ(
                                                sts[m as int],
                                                nbrs@[t],
                                            ) && g_prev[jj] <= gm + 1;
                                        assert(g@[jj] <= g_prev[jj]);
                                    } else {
                                        assert(sts[j as int] == nst);
                                    }
                                }
                            }
                        } else {
                            proof {
                                assert(sts[j as int] == self.succ(sts[m as int], nbrs@[ti as int]));
                            }
                        }
                    },
                }
                ti += 1;
            }
            proof {
                assert forall|b: Coord| #[trigger] self.step_ok(sts[m as int].0, b) implies exists|j: int|
                    0 <= j < sts.len() && #[trigger] sts[j] == self.succ(sts[m as int], b) && g@[j]
                        <= g@[m as int] + 1 by {
                    assert(nbrs@.contains(b));
                    let t = choose|t: int| 0 <= t < nbrs@.len() && nbrs@[t] == b;
                }
                assert(self.search_inv(start, goal_st, sts, g@, par@, closed@, wit, -1)) by {
                    let d = sts.len();
                    assert forall|i: int, b: Coord|
                        0 <= i < d && closed@[i] && i != -1 && #[trigger] self.step_ok(sts[i].0, b)
                            implies exists|j: int|
                            0 <= j < d && #[trigger] sts[j] == self.succ(sts[i], b) && g@[j] <= g@[i] + 1 by {
                        if i == m {
                            assert(self.step_ok(sts[m as int].0, b));
                        } else {
                            assert(i != m as int);
                        }
                    }
                }
                assert(univ.difference(cset) =~= univ.difference(cset0).remove(sts[m as int]));
            }
        }
    }
}


impl ThresholdedSpace {
    /// The signature of any path has one 0/1 entry per obstacle.
    pub proof fn lemma_walk_sig_binary(&self, p: Seq<Coord>)
        ensures
            is_binary(self.walk_sig(p)),
            self.walk_sig(p).len() == self.num_obstacles(),
        decreases p.len(),
    {
        if p.len() > 1 {
            self.lemma_walk_sig_binary(p.drop_last());
            self.lemma_edge_sig_binary(p[p.len() - 2], p.last());
            lemma_sig_add_binary(
                self.walk_sig(p.drop_last()),
                self.edge_sig(p[p.len() - 2], p.last()),
                self.num_obstacles(),
            );
        } else {
            assert(is_binary(zeros(self.num_obstacles())));
        }
    }

    /// Moving from a free cell to a neighbour and straight back is allowed and leaves
    /// the signature of the path unchanged.
    pub proof fn lemma_back_and_forth(&self, p: Seq<Coord>, start: Coord, b: Coord)
        requires
            self.free_grid().wf(),
            self.is_walk(p, start),
            is_free(self.free_grid(), p.last()),
            self.step_ok(p.last(), b),
        ensures
            self.is_walk(p.push(b).push(p.last()), start),
            self.walk_sig(p.push(b).push(p.last())) == self.walk_sig(p),
    {
        let a = p.last();
        let g = self.free_grid();
        self.lemma_walk_extend(p, start, b);
        g.lemma_neighbors_symmetric(a, b);
        assert(p.push(b).last() == b);
        self.lemma_walk_extend(p.push(b), start, a);
        lemma_crossing_symmetric(self.obstacle_refs(), a, b);
        assert(self.edge_sig(b, a) == self.edge_sig(a, b));
        self.lemma_walk_sig_binary(p);
        self.lemma_edge_sig_binary(a, b);
        lemma_sig_add_cancel(self.walk_sig(p), self.edge_sig(a, b));
    }

    /// Whether moving from `a` to `b` is allowed (see `step_ok`).
    pub fn is_step(&self, a: Coord, b: Coord) -> (r: bool)
        requires
            self.wf(),
        ensures
            r == self.step_ok(a, b),
    {
        proof {
            self.lemma_wf();
        }
        let grid = self.free_map();
        if !grid.in_bounds(b) {
            return false;
        }
        proof {
            crate::grid::lemma_cell_index_bound(
                b.row as int,
                b.col as int,
                grid.num_rows() as int,
                grid.num_cols() as int,
            );
        }
        if !*grid.index(b) {
            return false;
        }
        let nbrs = grid.neighbors(a);
        path_contains(nbrs.as_slice(), b)
    }

    /// The signature of `path` in this space, provided every move along it is
    /// allowed; `None` for an empty path or one with a move that is not allowed.
    pub fn project_path(&self, path: &[Coord]) -> (r: Option<EdgeSignature>)
        requires
            self.wf(),
        ensures
            r is Some <==> (path@.len() >= 1 && self.is_walk(path@, path@[0])),
            r matches Some(s) ==> s@ == self.walk_sig(path@),
    {
        proof {
            self.lemma_wf();
        }
        if path.len() == 0 {
            return None;
        }
        let mut acc = self.default_signature();
        let mut i: usize = 1;
        proof {
            assert(path@.take(1).len() == 1);
        }
        while i < path.len()
            invariant
                self.wf(),
                self.free_grid().wf(),
                1 <= i <= path@.len(),
                acc@ == self.walk_sig(path@.take(i as int)),
                forall|k: int| 0 <= k < i - 1 ==> #[trigger] self.step_ok(path@[k], path@[k + 1]),
            decreases path@.len() - i,
        {
            let a = path[i - 1];
            let b = path[i];
            if !self.is_step(a, b) {
                proof {
                    assert(!self.step_ok(path@[i - 1], path@[(i - 1) + 1]));
                }
                return None;
            }
            proof {
                self.lemma_stored_step(a, b);
                self.lemma_walk_sig_binary(path@.take(i as int));
                self.lemma_edge_sig_binary(a, b);
                lemma_sig_add_binary(acc@, self.edge_sig(a, b), self.num_obstacles());
            }
            let es = self.sig(BiEdge::new(a, b));
            acc = acc.update(&es);
            proof {
                let q = path@.take(i + 1);
                assert(q.drop_last() =~= path@.take(i as int));
                assert(q[q.len() - 2] == a && q.last() == b);
            }
            i += 1;
        }
        proof {
            assert(path@.take(i as int) =~= path@);
        }
        Some(acc)
    }
}

} // verus!
