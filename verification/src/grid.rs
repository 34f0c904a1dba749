//! Dense two-dimensional grids addressed by `Coord`, stored row-major.
use vstd::prelude::*;
use itertools::Itertools;
use vstd::arithmetic::div_mod::{
    lemma_fundamental_div_mod, lemma_fundamental_div_mod_converse, lemma_mod_pos_bound,
};

verus! {

/// A cell position: row first, then column.
#[derive(Debug, Clone, Copy, PartialEq, Eq, Structural, PartialOrd, Ord, Hash)]
pub struct Coord {
    pub row: usize,
    pub col: usize,
}

/// Row-major strict order on coordinates (the order of the derived `Ord`).
pub open spec fn coord_lt(a: Coord, b: Coord) -> bool {
    a.row < b.row || (a.row == b.row && a.col < b.col)
}

/// Row-major order, non-strict.
pub open spec fn coord_le(a: Coord, b: Coord) -> bool {
    a == b || coord_lt(a, b)
}

/// Two cells that differ by at most one in each direction (a cell is adjacent to itself).
pub open spec fn adjacent(a: Coord, b: Coord) -> bool {
    -1 <= a.row - b.row <= 1 && -1 <= a.col - b.col <= 1
}

/// Increment that sticks at the largest value.
pub open spec fn sat_inc(x: usize) -> usize {
    if x == usize::MAX {
        x
    } else {
        (x + 1) as usize
    }
}

/// Decrement that sticks at zero.
pub open spec fn sat_dec(x: usize) -> usize {
    if x == 0 {
        0
    } else {
        (x - 1) as usize
    }
}

/// The eight cells around `c`, in the order the neighbourhood is scanned,
/// computed with saturating arithmetic (so at a border some of them repeat `c`
/// or each other).
pub open spec fn neighbor_candidates(c: Coord) -> Seq<Coord> {
    let r = c.row;
    let k = c.col;
    seq![
        Coord { row: sat_inc(r), col: k },
        Coord { row: sat_inc(r), col: sat_inc(k) },
        Coord { row: r, col: sat_inc(k) },
        Coord { row: sat_dec(r), col: k },
        Coord { row: sat_dec(r), col: sat_dec(k) },
        Coord { row: r, col: sat_dec(k) },
        Coord { row: sat_inc(r), col: sat_dec(k) },
        Coord { row: sat_dec(r), col: sat_inc(k) },
    ]
}

/// `s` with every run of equal consecutive elements collapsed to its first element.
pub open spec fn dedup_runs<A>(s: Seq<A>) -> Seq<A>
    decreases s.len(),
{
    if s.len() == 0 {
        s
    } else {
        let prev = dedup_runs(s.drop_last());
        if s.len() >= 2 && s[s.len() - 2] == s.last() {
            prev
        } else {
            prev.push(s.last())
        }
    }
}

/// The elements of `s` whose flag in `picks` is set, in order.
pub open spec fn pick_elems<A>(s: Seq<A>, picks: Seq<bool>) -> Seq<A>
    recommends
        s.len() == picks.len(),
    decreases s.len(),
{
    if s.len() == 0 {
        s
    } else {
        let prev = pick_elems(s.drop_last(), picks.drop_last());
        if picks.last() {
            prev.push(s.last())
        } else {
            prev
        }
    }
}

/// The coordinate of the `i`-th cell of a row-major layout with `cols` columns.
pub open spec fn coord_at(i: int, cols: nat) -> Coord {
    Coord { row: (i / (cols as int)) as usize, col: (i % (cols as int)) as usize }
}

/// Calls `itertools::Itertools::dedup` on the coordinates and collects the result.
/// Trusted, not proved: the contract claims that the result is the input with each
/// run of equal consecutive coordinates collapsed to its first element, which is what
/// the adaptor does with its `DedupEq` predicate (`==` of the derived `PartialEq`,
/// which compares both fields).
#[verifier::external_body]
fn dedup_coords(v: Vec<Coord>) -> (r: Vec<Coord>)
    ensures
        r@ == dedup_runs(v@),
{
    v.into_iter().dedup().collect()
}

impl Coord {
    pub fn new(row: usize, col: usize) -> (c: Coord)
        ensures
            c.row == row,
            c.col == col,
    {
        Coord { row, col }
    }

    /// Signed difference `self - other`, per component.
    pub fn diff(&self, other: &Coord) -> (d: (i64, i64))
        requires
            i64::MIN <= (self.row as i64) - (other.row as i64) <= i64::MAX,
            i64::MIN <= (self.col as i64) - (other.col as i64) <= i64::MAX,
        ensures
            d.0 == (self.row as i64) - (other.row as i64),
            d.1 == (self.col as i64) - (other.col as i64),
    {
        (self.row as i64 - other.row as i64, self.col as i64 - other.col as i64)
    }

    /// Whether `self` comes strictly before `other` in row-major order.
    pub fn is_before(&self, other: &Coord) -> (b: bool)
        ensures
            b == coord_lt(*self, *other),
    {
        self.row < other.row || (self.row == other.row && self.col < other.col)
    }
}

impl From<(usize, usize)> for Coord {
    fn from(rc: (usize, usize)) -> (c: Coord) {
        Coord::new(rc.0, rc.1)
    }
}

impl vstd::std_specs::convert::FromSpecImpl<(usize, usize)> for Coord {
    open spec fn obeys_from_spec() -> bool {
        true
    }

    open spec fn from_spec(v: (usize, usize)) -> Coord {
        Coord { row: v.0, col: v.1 }
    }
}

/// A `rows` by `cols` grid of values, stored row-major.
#[derive(Debug)]
pub struct Grid<T> {
    inner: Vec<T>,
    rows: usize,
    cols: usize,
}

pub proof fn lemma_cell_index_bound(r: int, c: int, rows: int, cols: int)
    requires
        0 <= r < rows,
        0 <= c < cols,
    ensures
        0 <= r * cols + c < rows * cols,
{
    assert(0 <= r * cols) by (nonlinear_arith)
        requires
            0 <= r,
            0 <= c < cols,
    ;
    assert(r * cols + cols <= rows * cols) by (nonlinear_arith)
        requires
            0 <= r < rows,
            0 <= c < cols,
    ;
}

impl<T> Grid<T> {
    pub closed spec fn num_rows(&self) -> nat {
        self.rows as nat
    }

    pub closed spec fn num_cols(&self) -> nat {
        self.cols as nat
    }

    /// The cells in row-major order.
    pub closed spec fn cells(&self) -> Seq<T> {
        self.inner@
    }

    pub open spec fn wf(&self) -> bool {
        self.cells().len() == self.num_rows() * self.num_cols()
    }

    pub open spec fn contains_coord(&self, c: Coord) -> bool {
        c.row < self.num_rows() && c.col < self.num_cols()
    }

    /// Position of `c` in the row-major cell sequence.
    pub open spec fn index_of(&self, c: Coord) -> int {
        c.row * self.num_cols() + c.col
    }

    pub open spec fn cell(&self, c: Coord) -> T {
        self.cells()[self.index_of(c)]
    }

    /// The coordinates of all cells, in row-major order.
    pub open spec fn row_major(&self) -> Seq<Coord> {
        Seq::new(self.cells().len(), |i: int| coord_at(i, self.num_cols()))
    }

    /// The elements of `s` that lie inside the grid, in order.
    pub open spec fn keep_in_bounds(&self, s: Seq<Coord>) -> Seq<Coord>
        decreases s.len(),
    {
        if s.len() == 0 {
            s
        } else {
            let prev = self.keep_in_bounds(s.drop_last());
            if self.contains_coord(s.last()) {
                prev.push(s.last())
            } else {
                prev
            }
        }
    }

    /// The in-bounds cells among the candidates around `c`, after collapsing repeats.
    pub open spec fn neighbor_seq(&self, c: Coord) -> Seq<Coord> {
        self.keep_in_bounds(dedup_runs(neighbor_candidates(c)))
    }

    pub fn in_bounds(&self, c: Coord) -> (b: bool)
        ensures
            b == self.contains_coord(c),
    {
        c.row < self.rows && c.col < self.cols
    }

    /// Position of the in-bounds cell `c` in the row-major cell sequence.
    pub fn position(&self, c: Coord) -> (i: usize)
        requires
            self.wf(),
            self.contains_coord(c),
        ensures
            i == self.index_of(c),
            i < self.cells().len(),
    {
        proof {
            lemma_cell_index_bound(c.row as int, c.col as int, self.rows as int, self.cols as int);
            self.lemma_len_fits();
        }
        c.row * self.cols + c.col
    }

    pub fn rows(&self) -> (r: usize)
        ensures
            r == self.num_rows(),
    {
        self.rows
    }

    pub fn cols(&self) -> (c: usize)
        ensures
            c == self.num_cols(),
    {
        self.cols
    }

    /// The cells around `coord` (see `neighbor_seq`).
    pub fn neighbors(&self, coord: Coord) -> (out: Vec<Coord>)
        ensures
            out@ == self.neighbor_seq(coord),
    {
        let r = coord.row;
        let c = coord.col;
        let check = vec![
            Coord::new(r.saturating_add(1), c),
            Coord::new(r.saturating_add(1), c.saturating_add(1)),
            Coord::new(r, c.saturating_add(1)),
            Coord::new(r.saturating_sub(1), c),
            Coord::new(r.saturating_sub(1), c.saturating_sub(1)),
            Coord::new(r, c.saturating_sub(1)),
            Coord::new(r.saturating_add(1), c.saturating_sub(1)),
            Coord::new(r.saturating_sub(1), c.saturating_add(1)),
        ];
        assert(check@ =~= neighbor_candidates(coord));
        let deduped = dedup_coords(check);
        let mut out: Vec<Coord> = Vec::new();
        let mut i: usize = 0;
        while i < deduped.len()
            invariant
                i <= deduped@.len(),
                out@ == self.keep_in_bounds(deduped@.take(i as int)),
            decreases deduped@.len() - i,
        {
            let d = deduped[i];
            proof {
                assert(deduped@.take(i + 1).drop_last() =~= deduped@.take(i as int));
            }
            if self.in_bounds(d) {
                out.push(d);
            }
            i += 1;
        }
        assert(deduped@.take(i as int) =~= deduped@);
        out
    }
}


impl<T: Default + Clone> Grid<T> {
    /// A `rows` by `cols` grid whose cells are clones of one default value.
    pub fn new(rows: usize, cols: usize) -> (g: Grid<T>)
        requires
            rows * cols <= usize::MAX,
        ensures
            g.wf(),
            g.num_rows() == rows,
            g.num_cols() == cols,
            exists|d: T|
                call_ensures(T::default, (), d) && forall|i: int|
                    0 <= i < g.cells().len() ==> cloned::<T>(d, #[trigger] g.cells()[i]),
    {
        let n = rows * cols;
        let d = T::default();
        let mut inner: Vec<T> = Vec::new();
        let mut i: usize = 0;
        while i < n
            invariant
                i <= n,
                inner@.len() == i,
                forall|j: int| 0 <= j < i ==> cloned::<T>(d, #[trigger] inner@[j]),
            decreases n - i,
        {
            inner.push(d.clone());
            i += 1;
        }
        Grid { inner, rows, cols }
    }
}

impl<T: Clone> Grid<T> {
    /// The rows of the grid, each as the clones of its cells from left to right.
    pub fn rows_iter(&self) -> (out: Vec<Vec<T>>)
        requires
            self.wf(),
        ensures
            out.len() == self.num_rows(),
            forall|r: int|
                0 <= r < out.len() ==> (#[trigger] out[r]).len() == self.num_cols() && forall|c: int|
                    0 <= c < self.num_cols() ==> cloned::<T>(
                        self.cells()[r * self.num_cols() + c],
                        #[trigger] out[r][c],
                    ),
    {
        let mut out: Vec<Vec<T>> = Vec::new();
        let mut r: usize = 0;
        while r < self.rows
            invariant
                self.wf(),
                r <= self.rows,
                out.len() == r,
                forall|rr: int|
                    0 <= rr < r ==> (#[trigger] out[rr]).len() == self.num_cols() && forall|c: int|
                        0 <= c < self.num_cols() ==> cloned::<T>(
                            self.cells()[rr * self.num_cols() + c],
                            #[trigger] out[rr][c],
                        ),
            decreases self.rows - r,
        {
            let mut row: Vec<T> = Vec::new();
            let mut c: usize = 0;
            while c < self.cols
                invariant
                    self.wf(),
                    r < self.rows,
                    c <= self.cols,
                    row.len() == c,
                    forall|cc: int|
                        0 <= cc < c ==> cloned::<T>(
                            self.cells()[r * self.num_cols() + cc],
                            #[trigger] row[cc],
                        ),
                decreases self.cols - c,
            {
                proof {
                    lemma_cell_index_bound(r as int, c as int, self.rows as int, self.cols as int);
                    self.lemma_len_fits();
                }
                let v = self.inner[r * self.cols + c].clone();
                row.push(v);
                c += 1;
            }
            out.push(row);
            r += 1;
        }
        out
    }
}

impl<T> Grid<T> {
    /// The grid of `f` applied to every cell.
    pub fn map<U, F: Fn(&T) -> U>(&self, f: F) -> (g: Grid<U>)
        requires
            self.wf(),
            forall|i: int| 0 <= i < self.cells().len() ==> call_requires(f, (&self.cells()[i],)),
        ensures
            g.wf(),
            g.num_rows() == self.num_rows(),
            g.num_cols() == self.num_cols(),
            forall|i: int|
                0 <= i < self.cells().len() ==> call_ensures(
                    f,
                    (&self.cells()[i],),
                    #[trigger] g.cells()[i],
                ),
    {
        let mut inner: Vec<U> = Vec::new();
        let mut i: usize = 0;
        while i < self.inner.len()
            invariant
                i <= self.inner@.len(),
                inner@.len() == i,
                forall|j: int| 0 <= j < self.cells().len() ==> call_requires(f, (&self.cells()[j],)),
                forall|j: int|
                    0 <= j < i ==> call_ensures(f, (&self.cells()[j],), #[trigger] inner@[j]),
            decreases self.inner@.len() - i,
        {
            proof {
                assert(call_requires(f, (&self.cells()[i as int],)));
            }
            let v = f(&self.inner[i]);
            inner.push(v);
            i += 1;
        }
        Grid { inner, rows: self.rows, cols: self.cols }
    }

    /// The coordinates, in row-major order, of the cells for which `f` holds.
    pub fn filter<F: Fn(&T) -> bool>(&self, f: F) -> (out: Vec<Coord>)
        requires
            self.wf(),
            forall|i: int| 0 <= i < self.cells().len() ==> call_requires(f, (&self.cells()[i],)),
        ensures
            exists|picks: Seq<bool>|
                picks.len() == self.cells().len() && (forall|i: int|
                    0 <= i < picks.len() ==> call_ensures(
                        f,
                        (&self.cells()[i],),
                        #[trigger] picks[i],
                    )) && out@ == pick_elems(self.row_major(), picks),
    {
        let ghost mut picks: Seq<bool> = Seq::empty();
        let mut out: Vec<Coord> = Vec::new();
        let mut i: usize = 0;
        while i < self.inner.len()
            invariant
                self.wf(),
                i <= self.inner@.len(),
                picks.len() == i,
                forall|j: int| 0 <= j < self.cells().len() ==> call_requires(f, (&self.cells()[j],)),
                forall|j: int|
                    0 <= j < i ==> call_ensures(f, (&self.cells()[j],), #[trigger] picks[j]),
                out@ == pick_elems(self.row_major().take(i as int), picks),
            decreases self.inner@.len() - i,
        {
            let b = f(&self.inner[i]);
            proof {
                assert(self.cols > 0) by (nonlinear_arith)
                    requires
                        i < self.rows * self.cols,
                ;
                assert(self.row_major().take(i + 1).drop_last() =~= self.row_major().take(i as int));
                assert(picks.push(b).drop_last() =~= picks);
            }
            if b {
                out.push(Coord::new(i / self.cols, i % self.cols));
            }
            proof {
                picks = picks.push(b);
            }
            i += 1;
        }
        assert(self.row_major().take(i as int) =~= self.row_major());
        out
    }

    /// The neighbours of `coord` (see `neighbor_seq`) whose cell satisfies `f`.
    pub fn filter_neighbors<F: Fn(&T) -> bool>(&self, coord: Coord, f: F) -> (out: Vec<Coord>)
        requires
            self.wf(),
            forall|c: Coord| self.contains_coord(c) ==> call_requires(f, (&self.cell(c),)),
        ensures
            exists|picks: Seq<bool>|
                picks.len() == self.neighbor_seq(coord).len() && (forall|i: int|
                    0 <= i < picks.len() ==> call_ensures(
                        f,
                        (&self.cell(self.neighbor_seq(coord)[i]),),
                        #[trigger] picks[i],
                    )) && out@ == pick_elems(self.neighbor_seq(coord), picks),
    {
        let nbrs = self.neighbors(coord);
        let ghost mut picks: Seq<bool> = Seq::empty();
        let mut out: Vec<Coord> = Vec::new();
        let mut i: usize = 0;
        while i < nbrs.len()
            invariant
                self.wf(),
                nbrs@ == self.neighbor_seq(coord),
                i <= nbrs@.len(),
                picks.len() == i,
                forall|c: Coord| self.contains_coord(c) ==> call_requires(f, (&self.cell(c),)),
                forall|j: int|
                    0 <= j < i ==> call_ensures(f, (&self.cell(nbrs@[j]),), #[trigger] picks[j]),
                out@ == pick_elems(nbrs@.take(i as int), picks),
            decreases nbrs@.len() - i,
        {
            let n = nbrs[i];
            proof {
                self.lemma_keep_in_bounds(dedup_runs(neighbor_candidates(coord)));
                assert(self.contains_coord(nbrs@[i as int]));
                lemma_cell_index_bound(n.row as int, n.col as int, self.rows as int, self.cols as int);
                self.lemma_len_fits();
            }
            let b = f(&self.inner[n.row * self.cols + n.col]);
            proof {
                assert(nbrs@.take(i + 1).drop_last() =~= nbrs@.take(i as int));
                assert(picks.push(b).drop_last() =~= picks);
            }
            if b {
                out.push(n);
            }
            proof {
                picks = picks.push(b);
            }
            i += 1;
        }
        assert(nbrs@.take(i as int) =~= nbrs@);
        out
    }

    /// The cell at `c`; the position `c.row * cols + c.col` must lie inside the grid.
    pub fn index(&self, c: Coord) -> (r: &T)
        requires
            self.wf(),
            self.index_of(c) < self.cells().len(),
        ensures
            *r == self.cell(c),
    {
        proof {
            self.lemma_len_fits();
            assert(c.row * self.cols <= c.row * self.cols + c.col);
        }
        &self.inner[c.row * self.cols + c.col]
    }

    /// Mutable access to the cell at `c`; the position `c.row * cols + c.col` must lie
    /// inside the grid.
    pub fn index_mut(&mut self, c: Coord) -> (r: &mut T)
        requires
            old(self).wf(),
            old(self).index_of(c) < old(self).cells().len(),
        ensures
            *r == old(self).cell(c),
            final(self).wf(),
            final(self).num_rows() == old(self).num_rows(),
            final(self).num_cols() == old(self).num_cols(),
            final(self).cells() == old(self).cells().update(old(self).index_of(c), *final(r)),
    {
        proof {
            self.lemma_len_fits();
            assert(c.row * self.cols <= c.row * self.cols + c.col);
        }
        &mut self.inner[c.row * self.cols + c.col]
    }

    pub proof fn lemma_len_fits(&self)
        ensures
            self.cells().len() <= usize::MAX,
    {
        assert(self.inner.len() == self.inner@.len());
    }

    pub proof fn lemma_keep_in_bounds(&self, s: Seq<Coord>)
        ensures
            forall|k: int|
                0 <= k < self.keep_in_bounds(s).len() ==> self.contains_coord(
                    #[trigger] self.keep_in_bounds(s)[k],
                ),
            forall|x: Coord|
                #[trigger] self.keep_in_bounds(s).contains(x) <==> (s.contains(x)
                    && self.contains_coord(x)),
        decreases s.len(),
    {
        if s.len() > 0 {
            self.lemma_keep_in_bounds(s.drop_last());
            let prev = self.keep_in_bounds(s.drop_last());
            assert forall|x: Coord| #[trigger] s.contains(x) <==> (s.drop_last().contains(x) || x == s.last()) by {
                if s.contains(x) {
                    let k = choose|k: int| 0 <= k < s.len() && s[k] == x;
                    if k < s.len() - 1 {
                        assert(s.drop_last()[k] == x);
                    }
                }
                if x == s.last() {
                    assert(s[s.len() - 1] == x);
                }
                if s.drop_last().contains(x) {
                    let k = choose|k: int| 0 <= k < s.len() - 1 && s.drop_last()[k] == x;
                    assert(s[k] == x);
                }
            }
            if self.contains_coord(s.last()) {
                assert(self.keep_in_bounds(s) == prev.push(s.last()));
                assert forall|x: Coord| #[trigger] prev.push(s.last()).contains(x) <==> (prev.contains(x) || x == s.last()) by {
                    if prev.push(s.last()).contains(x) {
                        let k = choose|k: int| 0 <= k < prev.len() + 1 && prev.push(s.last())[k] == x;
                        if k < prev.len() {
                            assert(prev[k] == x);
                        }
                    }
                    if x == s.last() {
                        assert(prev.push(s.last())[prev.len() as int] == x);
                    }
                    if prev.contains(x) {
                        let k = choose|k: int| 0 <= k < prev.len() && prev[k] == x;
                        assert(prev.push(s.last())[k] == x);
                    }
                }
            }
        }
    }
}


/// Membership in a sequence with one more element at the end.
pub proof fn lemma_contains_push<A>(s: Seq<A>, a: A, x: A)
    ensures
        s.push(a).contains(x) <==> (s.contains(x) || x == a),
{
    if s.push(a).contains(x) {
        let k = choose|k: int| 0 <= k < s.len() + 1 && s.push(a)[k] == x;
        if k < s.len() {
            assert(s[k] == x);
        }
    }
    if x == a {
        assert(s.push(a)[s.len() as int] == x);
    }
    if s.contains(x) {
        let k = choose|k: int| 0 <= k < s.len() && s[k] == x;
        assert(s.push(a)[k] == x);
    }
}

/// Membership in a non-empty sequence, split at its last element.
pub proof fn lemma_contains_drop_last<A>(s: Seq<A>, x: A)
    requires
        s.len() > 0,
    ensures
        s.contains(x) <==> (s.drop_last().contains(x) || x == s.last()),
{
    assert(s.drop_last().push(s.last()) =~= s);
    lemma_contains_push(s.drop_last(), s.last(), x);
}

/// Collapsing runs keeps exactly the same elements.
pub proof fn lemma_dedup_runs_contains<A>(s: Seq<A>, x: A)
    ensures
        dedup_runs(s).contains(x) <==> s.contains(x),
    decreases s.len(),
{
    if s.len() > 0 {
        lemma_dedup_runs_contains(s.drop_last(), x);
        lemma_contains_drop_last(s, x);
        let prev = dedup_runs(s.drop_last());
        lemma_contains_push(prev, s.last(), x);
        if s.len() >= 2 && s[s.len() - 2] == s.last() {
            if x == s.last() {
                assert(s.drop_last()[s.len() - 2] == x);
            }
        }
    }
}

/// The neighbourhood candidates of `c` are adjacent to `c`, and every cell other
/// than `c` that is adjacent to it is a candidate.
pub proof fn lemma_candidates_adjacent(c: Coord, x: Coord)
    ensures
        neighbor_candidates(c).contains(x) ==> adjacent(c, x),
        (x != c && adjacent(c, x)) ==> neighbor_candidates(c).contains(x),
{
    let s = neighbor_candidates(c);
    assert(s.len() == 8);
    if s.contains(x) {
        let k = choose|k: int| 0 <= k < s.len() && s[k] == x;
        assert(adjacent(c, s[k]));
    }
    if x != c && adjacent(c, x) {
        let dr = x.row - c.row;
        let dc = x.col - c.col;
        if dr == 1 && dc == 0 {
            assert(s[0] == x);
        } else if dr == 1 && dc == 1 {
            assert(s[1] == x);
        } else if dr == 0 && dc == 1 {
            assert(s[2] == x);
        } else if dr == -1 && dc == 0 {
            assert(s[3] == x);
        } else if dr == -1 && dc == -1 {
            assert(s[4] == x);
        } else if dr == 0 && dc == -1 {
            assert(s[5] == x);
        } else if dr == 1 && dc == -1 {
            assert(s[6] == x);
        } else {
            assert(dr == -1 && dc == 1);
            assert(s[7] == x);
        }
    }
}

impl<T> Grid<T> {
    /// A neighbour is an in-bounds cell that differs from `a` by at most one in each
    /// direction; every other such cell is a neighbour.
    pub proof fn lemma_neighbor_seq_contains(&self, a: Coord, b: Coord)
        ensures
            self.neighbor_seq(a).contains(b) ==> self.contains_coord(b) && adjacent(a, b),
            (self.contains_coord(b) && adjacent(a, b) && a != b) ==> self.neighbor_seq(
                a,
            ).contains(b),
    {
        self.lemma_keep_in_bounds(dedup_runs(neighbor_candidates(a)));
        lemma_dedup_runs_contains(neighbor_candidates(a), b);
        lemma_candidates_adjacent(a, b);
    }

    /// Within the grid, the neighbour relation is symmetric.
    pub proof fn lemma_neighbors_symmetric(&self, a: Coord, b: Coord)
        requires
            self.contains_coord(a),
            self.neighbor_seq(a).contains(b),
        ensures
            self.neighbor_seq(b).contains(a),
    {
        self.lemma_neighbor_seq_contains(a, b);
        self.lemma_neighbor_seq_contains(b, a);
    }
}


/// Strictly increasing in row-major order.
pub open spec fn strictly_sorted(s: Seq<Coord>) -> bool {
    forall|i: int, j: int| 0 <= i < j < s.len() ==> coord_lt(#[trigger] s[i], #[trigger] s[j])
}

/// Cell `i` of a row-major layout with `cols` columns lies inside a `rows` by
/// `cols` grid, at position `i`.
pub proof fn lemma_coord_at(i: int, rows: nat, cols: nat)
    requires
        0 <= i < rows * cols,
        rows * cols <= usize::MAX,
    ensures
        coord_at(i, cols).row < rows,
        coord_at(i, cols).col < cols,
        coord_at(i, cols).row * cols + coord_at(i, cols).col == i,
{
    assert(cols > 0) by (nonlinear_arith)
        requires
            0 <= i < rows * cols,
    ;
    let c = cols as int;
    lemma_fundamental_div_mod(i, c);
    lemma_mod_pos_bound(i, c);
    let q = i / c;
    let r = i % c;
    assert(0 <= q <= i && q < rows) by (nonlinear_arith)
        requires
            i == c * q + r,
            0 <= r < c,
            0 <= i < rows * c,
            c > 0,
    ;
    assert(q * c + r == i) by (nonlinear_arith)
        requires
            i == c * q + r,
    ;
}

/// The in-bounds cell `c` is cell `c.row * cols + c.col` of the row-major layout.
pub proof fn lemma_coord_at_index(c: Coord, rows: nat, cols: nat)
    requires
        c.row < rows,
        c.col < cols,
    ensures
        coord_at(c.row * cols + c.col, cols) == c,
{
    lemma_fundamental_div_mod_converse(
        c.row * cols + c.col,
        cols as int,
        c.row as int,
        c.col as int,
    );
}

/// Later cells of a row-major layout come later in row-major order.
pub proof fn lemma_coord_at_monotone(i: int, j: int, rows: nat, cols: nat)
    requires
        0 <= i < j < rows * cols,
        rows * cols <= usize::MAX,
    ensures
        coord_lt(coord_at(i, cols), coord_at(j, cols)),
{
    lemma_coord_at(i, rows, cols);
    lemma_coord_at(j, rows, cols);
    let a = coord_at(i, cols);
    let b = coord_at(j, cols);
    let c = cols as int;
    assert(a.row < b.row || (a.row == b.row && a.col < b.col)) by (nonlinear_arith)
        requires
            a.row * c + a.col == i,
            b.row * c + b.col == j,
            0 <= a.col < c,
            0 <= b.col < c,
            0 <= a.row,
            0 <= b.row,
            i < j,
    ;
}

/// An element is picked exactly when some picked position holds it.
pub proof fn lemma_pick_elems_contains<A>(s: Seq<A>, picks: Seq<bool>, x: A)
    requires
        s.len() == picks.len(),
    ensures
        pick_elems(s, picks).contains(x) <==> exists|k: int|
            0 <= k < s.len() && picks[k] && s[k] == x,
    decreases s.len(),
{
    if s.len() > 0 {
        let s0 = s.drop_last();
        let p0 = picks.drop_last();
        lemma_pick_elems_contains(s0, p0, x);
        let prev = pick_elems(s0, p0);
        lemma_contains_push(prev, s.last(), x);
        if exists|k: int| 0 <= k < s.len() && picks[k] && s[k] == x {
            let k = choose|k: int| 0 <= k < s.len() && picks[k] && s[k] == x;
            if k < s.len() - 1 {
                assert(0 <= k < s0.len() && p0[k] && s0[k] == x);
            }
        }
        if exists|k: int| 0 <= k < s0.len() && p0[k] && s0[k] == x {
            let k = choose|k: int| 0 <= k < s0.len() && p0[k] && s0[k] == x;
            assert(0 <= k < s.len() && picks[k] && s[k] == x);
        }
        if picks.last() {
            assert(0 <= s.len() - 1 < s.len() && picks[s.len() - 1] && s[s.len() - 1] == s.last());
        }
    }
}

/// Picking from a strictly sorted sequence gives a strictly sorted sequence.
pub proof fn lemma_pick_elems_sorted(s: Seq<Coord>, picks: Seq<bool>)
    requires
        s.len() == picks.len(),
        strictly_sorted(s),
    ensures
        strictly_sorted(pick_elems(s, picks)),
    decreases s.len(),
{
    if s.len() > 0 {
        let s0 = s.drop_last();
        let p0 = picks.drop_last();
        assert(strictly_sorted(s0)) by {
            assert forall|i: int, j: int| 0 <= i < j < s0.len() implies coord_lt(
                #[trigger] s0[i],
                #[trigger] s0[j],
            ) by {
                assert(s0[i] == s[i] && s0[j] == s[j]);
            }
        }
        lemma_pick_elems_sorted(s0, p0);
        let prev = pick_elems(s0, p0);
        if picks.last() {
            let q = prev.push(s.last());
            assert forall|i: int, j: int| 0 <= i < j < q.len() implies coord_lt(
                #[trigger] q[i],
                #[trigger] q[j],
            ) by {
                if j == q.len() - 1 {
                    assert(prev.contains(q[i]));
                    lemma_pick_elems_contains(s0, p0, q[i]);
                    let k = choose|k: int| 0 <= k < s0.len() && p0[k] && s0[k] == q[i];
                    assert(s[k] == q[i]);
                    assert(coord_lt(s[k], s[s.len() - 1]));
                } else {
                    assert(q[i] == prev[i] && q[j] == prev[j]);
                }
            }
        }
    }
}

impl<T> Grid<T> {
    /// The row-major listing of the cells is strictly sorted.
    pub proof fn lemma_row_major_sorted(&self)
        requires
            self.wf(),
        ensures
            strictly_sorted(self.row_major()),
    {
        let rm = self.row_major();
        assert forall|i: int, j: int| 0 <= i < j < rm.len() implies coord_lt(
            #[trigger] rm[i],
            #[trigger] rm[j],
        ) by {
            self.lemma_len_fits();
            lemma_coord_at_monotone(i, j, self.num_rows(), self.num_cols());
        }
    }

    /// Every entry of the row-major listing is an in-bounds cell at its own position,
    /// and every in-bounds cell is listed at its position.
    pub proof fn lemma_row_major(&self)
        requires
            self.wf(),
        ensures
            forall|i: int|
                0 <= i < self.row_major().len() ==> self.contains_coord(
                    #[trigger] self.row_major()[i],
                ) && self.index_of(self.row_major()[i]) == i,
            forall|c: Coord|
                #[trigger] self.contains_coord(c) ==> 0 <= self.index_of(c) < self.cells().len()
                    && self.row_major()[self.index_of(c)] == c,
    {
        self.lemma_len_fits();
        assert forall|i: int| 0 <= i < self.row_major().len() implies self.contains_coord(
            #[trigger] self.row_major()[i],
        ) && self.index_of(self.row_major()[i]) == i by {
            lemma_coord_at(i, self.num_rows(), self.num_cols());
        }
        assert forall|c: Coord| #[trigger] self.contains_coord(c) implies 0 <= self.index_of(c)
            < self.cells().len() && self.row_major()[self.index_of(c)] == c by {
            lemma_cell_index_bound(c.row as int, c.col as int, self.rows as int, self.cols as int);
            lemma_coord_at_index(c, self.num_rows(), self.num_cols());
        }
    }
}

} // verus!
