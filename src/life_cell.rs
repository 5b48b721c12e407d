//! The cells of the world and the rule that advances them.

use vstd::prelude::*;
use crate::torus::{
    lemma_join_pos, lemma_neighbour_symmetric, lemma_split_pos, lemma_step_mod,
    lemma_wrap_pos_bounds, neighbour_pos, offset_x, offset_y, wrap_pos,
};

verus! {

/// Liveness of one cell.
#[derive(Clone, Copy, Debug, PartialEq, Eq, Structural)]
pub enum CellState {
    Dead,
    Live,
}

impl Default for CellState {
    fn default() -> (r: Self)
        ensures
            r == CellState::Dead,
    {
        CellState::Dead
    }
}

/// The other state.
pub open spec fn opposite(c: CellState) -> CellState {
    match c {
        CellState::Dead => CellState::Live,
        CellState::Live => CellState::Dead,
    }
}

impl CellState {
    pub fn invert(self) -> (r: Self)
        ensures
            r == opposite(self),
    {
        if self == CellState::Dead {
            CellState::Live
        } else {
            CellState::Dead
        }
    }
}

/// One grid element: its state and the number of live cells among its eight
/// neighbours.
#[derive(Clone, Copy, Debug, PartialEq, Eq, Structural)]
pub struct Cell {
    pub state: CellState,
    pub neighbours: i32,
}

impl Default for Cell {
    fn default() -> (r: Self)
        ensures
            r == dead_cell(),
    {
        Cell { state: CellState::Dead, neighbours: 0 }
    }
}

/// A dead cell with no live neighbour.
pub open spec fn dead_cell() -> Cell {
    Cell { state: CellState::Dead, neighbours: 0 }
}

/// 1 for a live cell, 0 for a dead one.
pub open spec fn live(c: CellState) -> int {
    if c == CellState::Live {
        1
    } else {
        0
    }
}

/// Number of live cells among the first `k` neighbours of position `p`.
pub open spec fn live_among(s: Seq<CellState>, w: int, h: int, p: int, k: int) -> int
    decreases k,
{
    if k <= 0 {
        0
    } else {
        live_among(s, w, h, p, k - 1) + live(s[neighbour_pos(w, h, p, k - 1)])
    }
}

/// Number of live cells among the eight toroidal neighbours of position `p`,
/// a cell that neighbours `p` in several directions counted once for each.
pub open spec fn live_neighbours(s: Seq<CellState>, w: int, h: int, p: int) -> int {
    live_among(s, w, h, p, 8)
}

/// Number of the first `k` neighbour directions of `p` that lead to `q`.
pub open spec fn hits(w: int, h: int, p: int, q: int, k: int) -> int
    decreases k,
{
    if k <= 0 {
        0
    } else {
        hits(w, h, p, q, k - 1) + if neighbour_pos(w, h, p, k - 1) == q {
            1int
        } else {
            0
        }
    }
}

/// Conway's rule: the next state of a cell in state `c` with `n` live
/// neighbours.
pub open spec fn next_state(c: CellState, n: int) -> CellState {
    match c {
        CellState::Live => if n == 2 || n == 3 {
            CellState::Live
        } else {
            CellState::Dead
        },
        CellState::Dead => if n == 3 {
            CellState::Live
        } else {
            CellState::Dead
        },
    }
}

/// The grid `s` one generation later.
pub open spec fn next_generation(s: Seq<CellState>, w: int, h: int) -> Seq<CellState> {
    Seq::new(s.len(), |p: int| next_state(s[p], live_neighbours(s, w, h, p)))
}

/// Number of live cells in `s`.
pub open spec fn population(s: Seq<CellState>) -> int
    decreases s.len(),
{
    if s.len() == 0 {
        0
    } else {
        population(s.drop_last()) + live(s.last())
    }
}

/// Setting one cell changes the population by the change in that cell alone.
pub proof fn lemma_population_update(s: Seq<CellState>, i: int, c: CellState)
    requires
        0 <= i < s.len(),
    ensures
        population(s.update(i, c)) == population(s) - live(s[i]) + live(c),
    decreases s.len(),
{
    let t = s.update(i, c);
    if i == s.len() - 1 {
        assert(t.drop_last() =~= s.drop_last());
    } else {
        assert(t.drop_last() =~= s.drop_last().update(i, c));
        lemma_population_update(s.drop_last(), i, c);
    }
}

/// A grid with no live cell has population zero.
pub proof fn lemma_population_all_dead(s: Seq<CellState>)
    requires
        forall|i: int| 0 <= i < s.len() ==> s[i] == CellState::Dead,
    ensures
        population(s) == 0,
    decreases s.len(),
{
    if s.len() > 0 {
        lemma_population_all_dead(s.drop_last());
    }
}

/// The population lies between zero and the number of cells.
pub proof fn lemma_population_bounds(s: Seq<CellState>)
    ensures
        0 <= population(s) <= s.len(),
    decreases s.len(),
{
    if s.len() > 0 {
        lemma_population_bounds(s.drop_last());
    }
}

/// Sum of `d`.
pub open spec fn sum(d: Seq<int>) -> int
    decreases d.len(),
{
    if d.len() == 0 {
        0
    } else {
        sum(d.drop_last()) + d.last()
    }
}

/// Seeding from an empty grid: where each call's delta is the change in
/// population that it made, the deltas add up to the population reached.
pub proof fn lemma_seeding_deltas(grids: Seq<Seq<CellState>>, deltas: Seq<int>)
    requires
        grids.len() == deltas.len() + 1,
        population(grids[0]) == 0,
        forall|i: int|
            0 <= i < deltas.len() ==> #[trigger] deltas[i] == population(grids[i + 1]) - population(
                grids[i],
            ),
    ensures
        sum(deltas) == population(grids.last()),
    decreases deltas.len(),
{
    if deltas.len() > 0 {
        lemma_seeding_deltas(grids.drop_last(), deltas.drop_last());
        assert(deltas[deltas.len() - 1] == population(grids[deltas.len() as int]) - population(
            grids[deltas.len() - 1],
        ));
    }
}

proof fn lemma_live_among_bounds(s: Seq<CellState>, w: int, h: int, p: int, k: int)
    requires
        0 <= k,
    ensures
        0 <= live_among(s, w, h, p, k) <= k,
    decreases k,
{
    if k > 0 {
        lemma_live_among_bounds(s, w, h, p, k - 1);
    }
}

/// Between zero and eight neighbours are live.
pub proof fn lemma_live_neighbours_bounds(s: Seq<CellState>, w: int, h: int, p: int)
    ensures
        0 <= live_neighbours(s, w, h, p) <= 8,
{
    lemma_live_among_bounds(s, w, h, p, 8);
}

proof fn lemma_hits_bounds(w: int, h: int, p: int, q: int, k: int)
    requires
        0 <= k,
    ensures
        0 <= hits(w, h, p, q, k) <= k,
    decreases k,
{
    if k > 0 {
        lemma_hits_bounds(w, h, p, q, k - 1);
    }
}

proof fn lemma_live_among_all_dead(s: Seq<CellState>, w: int, h: int, p: int, k: int)
    requires
        w >= 1,
        h >= 1,
        s.len() == w * h,
        forall|i: int| 0 <= i < s.len() ==> s[i] == CellState::Dead,
    ensures
        live_among(s, w, h, p, k) == 0,
    decreases k,
{
    if k > 0 {
        lemma_live_among_all_dead(s, w, h, p, k - 1);
        lemma_wrap_pos_bounds(w, h, p % w + offset_x(k - 1), p / w + offset_y(k - 1));
    }
}

/// Changing the state at `q` changes the live count around `p` by the change
/// at `q` once for each direction from `p` that leads to `q`.
proof fn lemma_live_among_update(
    s: Seq<CellState>,
    w: int,
    h: int,
    p: int,
    q: int,
    c: CellState,
    k: int,
)
    requires
        w >= 1,
        h >= 1,
        s.len() == w * h,
        0 <= q < s.len(),
        0 <= k,
    ensures
        live_among(s.update(q, c), w, h, p, k) == live_among(s, w, h, p, k) + (live(c) - live(
            s[q],
        )) * hits(w, h, p, q, k),
    decreases k,
{
    if k > 0 {
        lemma_live_among_update(s, w, h, p, q, c, k - 1);
        lemma_wrap_pos_bounds(w, h, p % w + offset_x(k - 1), p / w + offset_y(k - 1));
        let d = live(c) - live(s[q]);
        let a = hits(w, h, p, q, k - 1);
        assert(d * (a + 1) == d * a + d) by (nonlinear_arith);
    }
}

/// As many directions lead from `p` to `q` as from `q` to `p`.
proof fn lemma_hits_symmetric(w: int, h: int, p: int, q: int)
    requires
        w >= 1,
        h >= 1,
        0 <= p < w * h,
        0 <= q < w * h,
    ensures
        hits(w, h, p, q, 8) == hits(w, h, q, p, 8),
{
    assert forall|k: int| 0 <= k < 8 implies (neighbour_pos(w, h, p, k) == q) == (neighbour_pos(
        w,
        h,
        q,
        7 - k,
    ) == p) by {
        lemma_neighbour_symmetric(w, h, p, q, k);
    }
    reveal_with_fuel(hits, 9);
}

/// The world: a `width` x `height` torus of cells, stored row-major, each
/// cell carrying the count of its live neighbours.
pub struct World {
    size: (usize, usize),
    linear_size: usize,
    grid: Vec<Cell>,
    changes: Vec<usize>,
}

impl World {
    /// Number of columns.
    pub closed spec fn width(&self) -> int {
        self.size.0 as int
    }

    /// Number of rows.
    pub closed spec fn height(&self) -> int {
        self.size.1 as int
    }

    /// The cells, row-major.
    pub closed spec fn cells(&self) -> Seq<Cell> {
        self.grid@
    }

    /// The states of the cells, row-major.
    pub open spec fn states(&self) -> Seq<CellState> {
        self.cells().map_values(|c: Cell| c.state)
    }

    /// Dimensions at least one, the cell count fits an `i32`, and every
    /// stored neighbour count is exact.
    pub closed spec fn wf(&self) -> bool {
        &&& self.wf_dims()
        &&& forall|p: int|
            0 <= p < self.grid@.len() ==> #[trigger] self.grid@[p].neighbours
                == live_neighbours(self.states(), self.width(), self.height(), p)
    }

    /// In every world that `new`, `set_cell` and `update_world` produce,
    /// the neighbour count stored in each cell equals the number of live
    /// cells among its eight toroidal neighbours.
    pub proof fn lemma_counts_exact(&self)
        requires
            self.wf(),
        ensures
            forall|p: int|
                0 <= p < self.cells().len() ==> #[trigger] self.cells()[p].neighbours
                    == live_neighbours(self.states(), self.width(), self.height(), p),
    {
    }

    /// A world of `size.0` columns and `size.1` rows, every cell dead.
    pub fn new(size: (usize, usize)) -> (r: Self)
        requires
            size.0 >= 1,
            size.1 >= 1,
            size.0 * size.1 <= i32::MAX,
        ensures
            r.wf(),
            r.width() == size.0,
            r.height() == size.1,
            r.states() == Seq::new((size.0 * size.1) as nat, |i: int| CellState::Dead),
            r.cells() == Seq::new((size.0 * size.1) as nat, |i: int| dead_cell()),
            population(r.states()) == 0,
    {
        let linear_size = size.0 * size.1;
        let mut grid: Vec<Cell> = Vec::with_capacity(linear_size);
        let mut i: usize = 0;
        while i < linear_size
            invariant
                i <= linear_size,
                grid@.len() == i,
                forall|j: int| 0 <= j < i ==> grid@[j] == dead_cell(),
            decreases linear_size - i,
        {
            grid.push(Cell::default());
            i += 1;
        }
        let r = World { size, linear_size, grid, changes: Vec::with_capacity(linear_size / 8) };
        proof {
            assert(r.states() =~= Seq::new((size.0 * size.1) as nat, |i: int| CellState::Dead));
            assert(r.cells() =~= Seq::new((size.0 * size.1) as nat, |i: int| dead_cell()));
            assert forall|p: int| 0 <= p < r.grid@.len() implies #[trigger] r.grid@[p].neighbours
                == live_neighbours(r.states(), r.width(), r.height(), p) by {
                lemma_live_among_all_dead(r.states(), r.width(), r.height(), p, 8);
            }
            lemma_population_all_dead(r.states());
        }
        r
    }

    /// Linear position of the cell at `pos`, each coordinate wrapped.
    fn linear_pos(&self, pos: (usize, usize)) -> (r: usize)
        requires
            self.wf(),
        ensures
            r == wrap_pos(self.width(), self.height(), pos.0 as int, pos.1 as int),
            r < self.grid@.len(),
    {
        let x = pos.0 % self.size.0;
        let y = pos.1 % self.size.1;
        proof {
            lemma_join_pos(self.width(), self.height(), x as int, y as int);
        }
        x + y * self.size.0
    }

    /// The cell at `pos`, each coordinate taken modulo its dimension.
    pub fn read_cell(&self, pos: (usize, usize)) -> (r: Cell)
        requires
            self.wf(),
        ensures
            r == self.cells()[wrap_pos(self.width(), self.height(), pos.0 as int, pos.1 as int)],
            r.neighbours == live_neighbours(
                self.states(),
                self.width(),
                self.height(),
                wrap_pos(self.width(), self.height(), pos.0 as int, pos.1 as int),
            ),
    {
        let p = self.linear_pos(pos);
        self.grid[p]
    }

    /// Linear position of neighbour `k` of the cell at linear position `p`.
    fn neighbour_index(&self, p: usize, k: usize) -> (r: usize)
        requires
            self.wf_dims(),
            p < self.grid@.len(),
            k < 8,
        ensures
            r == neighbour_pos(self.width(), self.height(), p as int, k as int),
            r < self.grid@.len(),
    {
        let (w, h) = self.size;
        proof {
            lemma_split_pos(w as int, h as int, p as int);
        }
        let x = p % w;
        let y = p / w;
        let nx = if k == 0 || k == 3 || k == 5 {
            if x == 0 { w - 1 } else { x - 1 }
        } else if k == 1 || k == 6 {
            x
        } else {
            if x + 1 == w { 0 } else { x + 1 }
        };
        let ny = if k < 3 {
            if y == 0 { h - 1 } else { y - 1 }
        } else if k < 5 {
            y
        } else {
            if y + 1 == h { 0 } else { y + 1 }
        };
        proof {
            lemma_step_mod(x as int, offset_x(k as int), w as int);
            lemma_step_mod(y as int, offset_y(k as int), h as int);
            lemma_join_pos(w as int, h as int, nx as int, ny as int);
        }
        nx + ny * w
    }
    /// Flips the cell at linear position `p` and adjusts the counts of its
    /// eight neighbours. Returns the change in population.
    fn change_cell(&mut self, p: usize) -> (r: i32)
        requires
            old(self).wf(),
            p < old(self).grid@.len(),
        ensures
            final(self).wf(),
            final(self).size == old(self).size,
            final(self).changes == old(self).changes,
            final(self).states() == old(self).states().update(p as int, opposite(old(self).states()[p as int])),
            r == live(opposite(old(self).states()[p as int])) - live(old(self).states()[p as int]),
    {
        let ghost s0 = self.states();
        let ghost g0 = self.grid@;
        let ghost w = self.width();
        let ghost h = self.height();
        let cell = self.grid[p];
        let state = cell.state.invert();
        self.grid.set(p, Cell { state, neighbours: cell.neighbours });
        let d: i32 = if state == CellState::Live { 1 } else { -1 };
        proof {
            assert(self.states() =~= s0.update(p as int, state));
            assert forall|i: int| 0 <= i < g0.len() implies 0 <= #[trigger] g0[i].neighbours <= 8 by {
                lemma_live_neighbours_bounds(s0, w, h, i);
            }
        }
        let mut k: usize = 0;
        while k < 8
            invariant
                self.wf_dims(),
                self.size == old(self).size,
                w == self.width(),
                h == self.height(),
                self.linear_size == old(self).linear_size,
                self.changes == old(self).changes,
                self.grid@.len() == g0.len(),
                self.states() == s0.update(p as int, state),
                p < g0.len(),
                s0.len() == g0.len(),
                d == 1 || d == -1,
                k <= 8,
                forall|i: int| 0 <= i < g0.len() ==> 0 <= #[trigger] g0[i].neighbours <= 8,
                forall|i: int|
                    0 <= i < g0.len() ==> #[trigger] self.grid@[i].neighbours == g0[i].neighbours
                        + d * hits(w, h, p as int, i, k as int),
            decreases 8 - k,
        {
            let q = self.neighbour_index(p, k);
            let c = self.grid[q];
            proof {
                lemma_hits_bounds(w, h, p as int, q as int, k as int);
                let a = hits(w, h, p as int, q as int, k as int);
                assert(-8 <= d * a <= 8) by (nonlinear_arith)
                    requires
                        d == 1 || d == -1,
                        0 <= a <= 8,
                ;
                assert(0 <= g0[q as int].neighbours <= 8);
            }
            let ghost g1 = self.grid@;
            self.grid.set(q, Cell { state: c.state, neighbours: c.neighbours + d });
            proof {
                assert forall|i: int| 0 <= i < g0.len() implies #[trigger] self.grid@[i].neighbours
                    == g0[i].neighbours + d * hits(w, h, p as int, i, k + 1) by {
                    let a = hits(w, h, p as int, i, k as int);
                    assert(g1[i].neighbours == g0[i].neighbours + d * a);
                    assert(hits(w, h, p as int, i, k + 1) == a + if neighbour_pos(w, h, p as int, k as int) == i {
                        1int
                    } else {
                        0
                    });
                    if i == q {
                        assert(hits(w, h, p as int, i, k + 1) == a + 1);
                        assert(d * (a + 1) == d * a + d) by (nonlinear_arith);
                    } else {
                        assert(hits(w, h, p as int, i, k + 1) == a);
                    }
                }
                assert(self.states() =~= s0.update(p as int, state));
            }
            k += 1;
        }
        proof {
            assert forall|i: int| 0 <= i < self.grid@.len() implies #[trigger] self.grid@[i].neighbours
                == live_neighbours(self.states(), w, h, i) by {
                lemma_hits_symmetric(w, h, p as int, i);
                lemma_live_among_update(s0, w, h, i, p as int, state, 8);
            }
        }
        d
    }

    /// The dimension fields are consistent.
    closed spec fn wf_dims(&self) -> bool {
        &&& self.size.0 >= 1
        &&& self.size.1 >= 1
        &&& self.linear_size == self.size.0 * self.size.1
        &&& self.linear_size <= i32::MAX
        &&& self.grid@.len() == self.linear_size
    }

    /// Sets the cell at `pos` (each coordinate wrapped) to `state`, adjusting
    /// its neighbours' counts. Returns the change in population: 0 when the
    /// cell already had that state, else +1 or -1.
    pub fn set_cell(&mut self, pos: (usize, usize), state: CellState) -> (r: i32)
        requires
            old(self).wf(),
        ensures
            final(self).wf(),
            final(self).width() == old(self).width(),
            final(self).height() == old(self).height(),
            final(self).states() == old(self).states().update(
                wrap_pos(old(self).width(), old(self).height(), pos.0 as int, pos.1 as int),
                state,
            ),
            r == live(state) - live(
                old(self).states()[wrap_pos(
                    old(self).width(),
                    old(self).height(),
                    pos.0 as int,
                    pos.1 as int,
                )],
            ),
            r == population(final(self).states()) - population(old(self).states()),
            state == old(self).states()[wrap_pos(
                old(self).width(),
                old(self).height(),
                pos.0 as int,
                pos.1 as int,
            )] ==> final(self).cells() == old(self).cells(),
    {
        let p = self.linear_pos(pos);
        let ghost s0 = self.states();
        proof {
            lemma_population_update(s0, p as int, state);
        }
        if self.grid[p].state != state {
            self.change_cell(p)
        } else {
            proof {
                assert(s0.update(p as int, state) =~= s0);
            }
            0
        }
    }
    /// Advances one generation by Conway's rule, read from the stored
    /// neighbour counts. Returns the change in population.
    pub fn update_world(&mut self) -> (r: i32)
        requires
            old(self).wf(),
        ensures
            final(self).wf(),
            final(self).width() == old(self).width(),
            final(self).height() == old(self).height(),
            final(self).states() == next_generation(
                old(self).states(),
                old(self).width(),
                old(self).height(),
            ),
            r == population(final(self).states()) - population(old(self).states()),
    {
        let ghost s0 = self.states();
        let ghost w = self.width();
        let ghost h = self.height();
        let ghost next = next_generation(s0, w, h);
        let ghost n = self.grid@.len();
        self.changes.clear();
        let mut p: usize = 0;
        while p < self.linear_size
            invariant
                self.wf(),
                self.size == old(self).size,
                self.states() == s0,
                w == self.width(),
                h == self.height(),
                next == next_generation(s0, w, h),
                s0.len() == n,
                n == self.grid@.len(),
                p <= n,
                self.changes@.no_duplicates(),
                forall|j: int| 0 <= j < self.changes@.len() ==> #[trigger] self.changes@[j] < p,
                forall|i: int|
                    0 <= i < n ==> (self.changes@.contains(i as usize) <==> (i < p && next[i]
                        != s0[i])),
            decreases n - p,
        {
            let cell = self.grid[p];
            let flip = match cell.state {
                CellState::Live => !(cell.neighbours == 2 || cell.neighbours == 3),
                CellState::Dead => cell.neighbours == 3,
            };
            proof {
                assert(self.grid@[p as int].neighbours == live_neighbours(s0, w, h, p as int));
                assert(s0[p as int] == cell.state);
                assert(flip == (next[p as int] != s0[p as int]));
            }
            let ghost c0 = self.changes@;
            if flip {
                self.changes.push(p);
                proof {
                    assert forall|i: int| 0 <= i < n implies (#[trigger] self.changes@.contains(i as usize)
                        <==> (c0.contains(i as usize) || i == p)) by {
                        if i == p {
                            assert(self.changes@[c0.len() as int] == p);
                        }
                        if c0.contains(i as usize) {
                            let j = choose|j: int| 0 <= j < c0.len() && c0[j] == i as usize;
                            assert(self.changes@[j] == i as usize);
                        }
                    }
                }
            }
            p += 1;
        }
        let mut growth: i32 = 0;
        while self.changes.len() > 0
            invariant
                self.wf(),
                self.size == old(self).size,
                n == self.grid@.len(),
                self.changes@.no_duplicates(),
                forall|j: int| 0 <= j < self.changes@.len() ==> #[trigger] self.changes@[j] < n,
                forall|i: int|
                    0 <= i < n ==> #[trigger] self.states()[i] == if self.changes@.contains(
                        i as usize,
                    ) {
                        s0[i]
                    } else {
                        next[i]
                    },
                forall|i: int| 0 <= i < n && self.changes@.contains(i as usize) ==> next[i] != s0[i],
                growth == population(self.states()) - population(s0),
                s0.len() == n,
                n <= i32::MAX,
            decreases self.changes@.len(),
        {
            let ghost c0 = self.changes@;
            let ghost s1 = self.states();
            let q = match self.changes.pop() {
                Some(q) => q,
                None => 0,
            };
            proof {
                assert(q == c0.last());
                assert(self.changes@ =~= c0.drop_last());
                assert(c0.contains(q));
                assert forall|i: int| 0 <= i < n implies (#[trigger] self.changes@.contains(i as usize)
                    <==> (c0.contains(i as usize) && i != q)) by {
                    if self.changes@.contains(i as usize) {
                        let j = choose|j: int|
                            0 <= j < self.changes@.len() && self.changes@[j] == i as usize;
                        assert(c0[j] == i as usize);
                        assert(j != c0.len() - 1);
                    }
                    if c0.contains(i as usize) && i != q {
                        let j = choose|j: int| 0 <= j < c0.len() && c0[j] == i as usize;
                        assert(j != c0.len() - 1);
                        assert(self.changes@[j] == i as usize);
                    }
                }
                lemma_population_update(s1, q as int, opposite(s1[q as int]));
                lemma_population_bounds(s0);
                lemma_population_bounds(s1.update(q as int, opposite(s1[q as int])));
            }
            let d = self.change_cell(q);
            growth = growth + d;
        }
        proof {
            assert(self.states() =~= next);
        }
        growth
    }
}

} // verus!
