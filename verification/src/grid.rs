//! The simulation core: a toroidal grid of boolean cells.

use vstd::prelude::*;

verus! {

use vstd::arithmetic::div_mod::{
    lemma_fundamental_div_mod,
    lemma_fundamental_div_mod_converse_div,
    lemma_fundamental_div_mod_converse_mod,
    lemma_mod_division_less_than_divisor,
    lemma_mod_twice,
    lemma_multiply_divide_lt,
    lemma_small_mod,
};

/// A cell position. Coordinates may lie anywhere; every grid access
/// normalizes them modulo the grid dimensions (toroidal wrap).
#[derive(Debug, Clone, Copy, PartialEq, Eq, Structural)]
pub struct Coords {
    pub x: usize,
    pub y: usize,
}

/// A toroidal two-dimensional field of boolean cells (`true` = alive),
/// stored row-major in a flat buffer: the cell at `(x, y)` lives at
/// index `x + y * width`.
#[derive(Debug)]
pub struct Grid {
    width: usize,
    height: usize,
    cells: Vec<bool>,
}

impl Grid {
    /// Number of columns.
    pub closed spec fn spec_width(&self) -> int {
        self.width as int
    }

    /// Number of rows.
    pub closed spec fn spec_height(&self) -> int {
        self.height as int
    }

    /// Both dimensions are positive and the flat buffer covers the whole
    /// grid, one entry per coordinate.
    pub closed spec fn well_formed(&self) -> bool {
        &&& 0 < self.width
        &&& 0 < self.height
        &&& self.width * self.height <= usize::MAX
        &&& self.cells@.len() == self.width * self.height
    }

    /// The state of the cell addressed by `(x, y)`, with each coordinate
    /// wrapped toroidally. The wrap is Euclidean modulo, so negative
    /// coordinates wrap upward: on a grid of width `w`, `x == -1`
    /// addresses column `w - 1`.
    pub closed spec fn cell(&self, x: int, y: int) -> bool {
        self.cells@[x % self.spec_width() + (y % self.spec_height()) * self.spec_width()]
    }

    /// A row-major flat index stays inside the buffer.
    proof fn lemma_flat_index_in_range(&self, x: int, y: int)
        requires
            self.well_formed(),
            0 <= x < self.spec_width(),
            0 <= y < self.spec_height(),
        ensures
            0 <= x + y * self.spec_width() < self.cells@.len(),
    {
        let w = self.spec_width();
        let h = self.spec_height();
        assert(0 <= x + y * w < w * h) by (nonlinear_arith)
            requires
                0 <= x < w,
                0 <= y < h,
        ;
    }

    /// `cell` at an in-range coordinate reads the buffer at `x + y * width`.
    proof fn lemma_cell_in_range(&self, x: int, y: int)
        requires
            self.well_formed(),
            0 <= x < self.spec_width(),
            0 <= y < self.spec_height(),
        ensures
            0 <= x + y * self.spec_width() < self.cells@.len(),
            self.cell(x, y) == self.cells@[x + y * self.spec_width()],
    {
        lemma_small_mod(x as nat, self.spec_width() as nat);
        lemma_small_mod(y as nat, self.spec_height() as nat);
        self.lemma_flat_index_in_range(x, y);
    }

    /// Looking a coordinate up is the same as looking its normalized form
    /// up: the grid is a torus, and normalization is idempotent.
    pub proof fn lemma_cell_normalizes(&self, x: int, y: int)
        requires
            self.well_formed(),
        ensures
            self.cell(x, y) == self.cell(
                x % self.spec_width(),
                y % self.spec_height(),
            ),
            0 <= x % self.spec_width() < self.spec_width(),
            0 <= y % self.spec_height() < self.spec_height(),
    {
        lemma_mod_twice(x, self.spec_width());
        lemma_mod_twice(y, self.spec_height());
        lemma_mod_division_less_than_divisor(x, self.spec_width());
        lemma_mod_division_less_than_divisor(y, self.spec_height());
    }

    /// Builds a grid with every cell dead.
    ///
    /// Zero dimensions are a precondition violation: a grid is created
    /// only with positive width and height.
    pub fn new(width: usize, height: usize) -> (g: Grid)
        requires
            0 < width,
            0 < height,
            width * height <= usize::MAX,
        ensures
            g.well_formed(),
            g.spec_width() == width,
            g.spec_height() == height,
            forall|x: int, y: int| !g.cell(x, y),
    {
        let len = width * height;
        let mut cells: Vec<bool> = Vec::new();
        let mut i: usize = 0;
        while i < len
            invariant
                i <= len,
                cells@.len() == i,
                forall|j: int| 0 <= j < i ==> !cells@[j],
            decreases len - i,
        {
            cells.push(false);
            i = i + 1;
        }
        let g = Grid { width, height, cells };
        proof {
            assert forall|x: int, y: int| !g.cell(x, y) by {
                g.lemma_cell_normalizes(x, y);
                g.lemma_cell_in_range(
                    x % g.spec_width(),
                    y % g.spec_height(),
                );
            }
        }
        g
    }

    /// Builds a grid if the dimensions admit one: both must be positive,
    /// and the cell count must fit the machine. Returns `None` exactly on
    /// the rejected dimensions, instead of producing a malformed buffer.
    pub fn try_new(width: usize, height: usize) -> (g: Option<Grid>)
        ensures
            match g {
                Some(grid) => {
                    &&& 0 < width
                    &&& 0 < height
                    &&& width * height <= usize::MAX
                    &&& grid.well_formed()
                    &&& grid.spec_width() == width
                    &&& grid.spec_height() == height
                    &&& forall|x: int, y: int| !grid.cell(x, y)
                },
                None => width == 0 || height == 0 || width * height > usize::MAX,
            },
    {
        if width == 0 || height == 0 {
            return None;
        }
        match width.checked_mul(height) {
            Some(_) => Some(Grid::new(width, height)),
            None => None,
        }
    }

    /// Builds an all-dead grid, then sets every seed coordinate alive.
    /// Each seed is normalized like any other write, so an out-of-range
    /// seed wraps around the torus rather than failing.
    pub fn from_seed(width: usize, height: usize, seed: &[Coords]) -> (g: Grid)
        requires
            0 < width,
            0 < height,
            width * height <= usize::MAX,
        ensures
            g.well_formed(),
            g.spec_width() == width,
            g.spec_height() == height,
            forall|x: int, y: int|
                #[trigger] g.cell(x, y) == any_seed_covers(
                    seed@,
                    seed@.len() as int,
                    width as int,
                    height as int,
                    x,
                    y,
                ),
    {
        let ghost w = width as int;
        let ghost h = height as int;
        let mut g = Grid::new(width, height);
        let mut k: usize = 0;
        while k < seed.len()
            invariant
                w == width as int,
                h == height as int,
                g.well_formed(),
                g.spec_width() == width,
                g.spec_height() == height,
                k <= seed@.len(),
                forall|x: int, y: int|
                    #[trigger] g.cell(x, y) == any_seed_covers(seed@, k as int, w, h, x, y),
            decreases seed@.len() - k,
        {
            let c = seed[k];
            let ghost before = g;
            g.set(c, true);
            proof {
                assert forall|x: int, y: int|
                    #[trigger] g.cell(x, y) == any_seed_covers(
                        seed@,
                        k + 1,
                        w,
                        h,
                        x,
                        y,
                    ) by {
                    if seed_covers(c, w, h, x, y) {
                        assert(seed_covers(seed@[k as int], w, h, x, y));
                    } else {
                        if any_seed_covers(seed@, k as int, w, h, x, y) {
                            let i = choose|i: int|
                                0 <= i < k && #[trigger] seed_covers(seed@[i], w, h, x, y);
                            assert(0 <= i < k + 1 && seed_covers(seed@[i], w, h, x, y));
                        }
                        if any_seed_covers(seed@, k + 1, w, h, x, y) {
                            let i = choose|i: int|
                                0 <= i < k + 1 && #[trigger] seed_covers(seed@[i], w, h, x, y);
                            assert(i < k && seed_covers(seed@[i], w, h, x, y));
                        }
                    }
                }
            }
            k = k + 1;
        }
        g
    }

    /// Number of columns.
    pub fn width(&self) -> (w: usize)
        ensures
            w == self.spec_width(),
    {
        self.width
    }

    /// Number of rows.
    pub fn height(&self) -> (h: usize)
        ensures
            h == self.spec_height(),
    {
        self.height
    }

    /// Reads the cell at an already-normalized coordinate.
    fn at_in(&self, x: usize, y: usize) -> (alive: bool)
        requires
            self.well_formed(),
            x < self.spec_width(),
            y < self.spec_height(),
        ensures
            alive == self.cell(x as int, y as int),
    {
        proof {
            self.lemma_cell_in_range(x as int, y as int);
        }
        self.cells[x + y * self.width]
    }

    /// Returns the state of the cell at `c`, wrapping both coordinates
    /// modulo the grid dimensions. Never fails.
    pub fn at(&self, c: Coords) -> (alive: bool)
        requires
            self.well_formed(),
        ensures
            alive == self.cell(c.x as int, c.y as int),
    {
        let x = c.x % self.width;
        let y = c.y % self.height;
        proof {
            self.lemma_cell_normalizes(c.x as int, c.y as int);
        }
        self.at_in(x, y)
    }

    /// Writes the cell at `c`, wrapping both coordinates modulo the grid
    /// dimensions. Never fails; exactly the one addressed cell changes.
    pub fn set(&mut self, c: Coords, alive: bool)
        requires
            old(self).well_formed(),
        ensures
            final(self).well_formed(),
            final(self).spec_width() == old(self).spec_width(),
            final(self).spec_height() == old(self).spec_height(),
            forall|x: int, y: int|
                #[trigger] final(self).cell(x, y) == if x % old(self).spec_width() == c.x as int
                    % old(self).spec_width() && y % old(self).spec_height() == c.y as int
                    % old(self).spec_height() {
                    alive
                } else {
                    old(self).cell(x, y)
                },
    {
        let xi = c.x % self.width;
        let yi = c.y % self.height;
        proof {
            self.lemma_cell_in_range(xi as int, yi as int);
        }
        let idx = xi + yi * self.width;
        let ghost prev = *self;
        self.cells[idx] = alive;
        proof {
            assert forall|x: int, y: int|
                #[trigger] self.cell(x, y) == if x % self.spec_width() == c.x as int
                    % self.spec_width() && y % self.spec_height() == c.y as int
                    % self.spec_height() {
                    alive
                } else {
                    prev.cell(x, y)
                } by {
                let xm = x % self.spec_width();
                let ym = y % self.spec_height();
                self.lemma_cell_normalizes(x, y);
                prev.lemma_cell_normalizes(x, y);
                self.lemma_cell_in_range(xm, ym);
                prev.lemma_cell_in_range(xm, ym);
                if xm == c.x as int % self.spec_width() && ym == c.y as int
                    % self.spec_height() {
                    assert(xm + ym * self.spec_width() == idx);
                } else {
                    assert(xm + ym * self.spec_width() != idx) by {
                        if xm + ym * self.spec_width() == idx {
                            lemma_two_coords_one_index(
                                self.spec_width(),
                                self.spec_height(),
                                xm,
                                ym,
                                xi as int,
                                yi as int,
                            );
                        }
                    }
                }
            }
        }
    }
    /// The 8 Moore-neighborhood cells of `c`, in a fixed order: the west
    /// column top to bottom, then the north and south cells, then the east
    /// column top to bottom. Each coordinate wraps toroidally on its own,
    /// with Euclidean semantics: one step left of column 0 is the last
    /// column, never a negative index.
    pub fn neighbors(&self, c: Coords) -> (r: [bool; 8])
        requires
            self.well_formed(),
        ensures
            r@[0] == self.cell(c.x - 1, c.y - 1),
            r@[1] == self.cell(c.x - 1, c.y as int),
            r@[2] == self.cell(c.x - 1, c.y + 1),
            r@[3] == self.cell(c.x as int, c.y - 1),
            r@[4] == self.cell(c.x as int, c.y + 1),
            r@[5] == self.cell(c.x + 1, c.y - 1),
            r@[6] == self.cell(c.x + 1, c.y as int),
            r@[7] == self.cell(c.x + 1, c.y + 1),
    {
        let x0 = c.x % self.width;
        let y0 = c.y % self.height;
        let xm = wrap_dec(x0, self.width);
        let xp = wrap_inc(x0, self.width);
        let ym = wrap_dec(y0, self.height);
        let yp = wrap_inc(y0, self.height);
        proof {
            let w = self.spec_width();
            let h = self.spec_height();
            lemma_small_mod(x0 as nat, w as nat);
            lemma_small_mod(y0 as nat, h as nat);
            lemma_wrap_dec(c.x as int, w);
            lemma_wrap_dec(x0 as int, w);
            lemma_wrap_inc(c.x as int, w);
            lemma_wrap_inc(x0 as int, w);
            lemma_wrap_dec(c.y as int, h);
            lemma_wrap_dec(y0 as int, h);
            lemma_wrap_inc(c.y as int, h);
            lemma_wrap_inc(y0 as int, h);
            assert(xm == (c.x - 1) % w);
            assert(xp == (c.x + 1) % w);
            assert(ym == (c.y - 1) % h);
            assert(yp == (c.y + 1) % h);
            self.lemma_cell_normalizes(c.x - 1, c.y - 1);
            self.lemma_cell_normalizes(c.x - 1, c.y as int);
            self.lemma_cell_normalizes(c.x - 1, c.y + 1);
            self.lemma_cell_normalizes(c.x as int, c.y - 1);
            self.lemma_cell_normalizes(c.x as int, c.y + 1);
            self.lemma_cell_normalizes(c.x + 1, c.y - 1);
            self.lemma_cell_normalizes(c.x + 1, c.y as int);
            self.lemma_cell_normalizes(c.x + 1, c.y + 1);
        }
        [
            self.at_in(xm, ym),
            self.at_in(xm, y0),
            self.at_in(xm, yp),
            self.at_in(x0, ym),
            self.at_in(x0, yp),
            self.at_in(xp, ym),
            self.at_in(xp, y0),
            self.at_in(xp, yp),
        ]
    }

    /// How many of the 8 neighbors of `(x, y)` are alive.
    pub open spec fn live_neighbor_count(&self, x: int, y: int) -> int {
        live_as_int(self.cell(x - 1, y - 1)) + live_as_int(self.cell(x - 1, y)) + live_as_int(
            self.cell(x - 1, y + 1),
        ) + live_as_int(self.cell(x, y - 1)) + live_as_int(self.cell(x, y + 1)) + live_as_int(
            self.cell(x + 1, y - 1),
        ) + live_as_int(self.cell(x + 1, y)) + live_as_int(self.cell(x + 1, y + 1))
    }

    /// Counts the live cells among the 8 neighbors of `c`, read from this
    /// grid as it stands.
    fn count_live_neighbors(&self, c: Coords) -> (n: u8)
        requires
            self.well_formed(),
        ensures
            n == self.live_neighbor_count(c.x as int, c.y as int),
    {
        let ns = self.neighbors(c);
        let mut n: u8 = 0;
        if ns[0] {
            n = n + 1;
        }
        if ns[1] {
            n = n + 1;
        }
        if ns[2] {
            n = n + 1;
        }
        if ns[3] {
            n = n + 1;
        }
        if ns[4] {
            n = n + 1;
        }
        if ns[5] {
            n = n + 1;
        }
        if ns[6] {
            n = n + 1;
        }
        if ns[7] {
            n = n + 1;
        }
        n
    }

    /// Conway's rule, read from this grid as the pre-advance snapshot: a
    /// live cell survives iff it has exactly 2 or 3 live neighbors; a dead
    /// cell becomes alive iff it has exactly 3; every other combination
    /// yields a dead cell.
    pub open spec fn next_cell(&self, x: int, y: int) -> bool {
        if self.cell(x, y) {
            self.live_neighbor_count(x, y) == 2 || self.live_neighbor_count(x, y) == 3
        } else {
            self.live_neighbor_count(x, y) == 3
        }
    }

    /// Advances the grid by one generation of Conway's rule.
    ///
    /// The whole new buffer is computed from the pre-advance snapshot — no
    /// cell's update observes another cell's already-updated value, so the
    /// result cannot depend on the order in which cells are visited — and
    /// replaces the old buffer as one indivisible assignment at the end.
    /// This operation cannot fail on a well-formed grid.
    pub fn advance(&mut self)
        requires
            old(self).well_formed(),
        ensures
            final(self).well_formed(),
            final(self).spec_width() == old(self).spec_width(),
            final(self).spec_height() == old(self).spec_height(),
            forall|x: int, y: int|
                0 <= x < old(self).spec_width() && 0 <= y < old(self).spec_height()
                    ==> #[trigger] final(self).cell(x, y) == old(self).next_cell(x, y),
    {
        let width = self.width;
        let height = self.height;
        let mut next: Vec<bool> = Vec::new();
        let mut y: usize = 0;
        while y < height
            invariant
                *self == *old(self),
                self.well_formed(),
                width == self.spec_width(),
                height == self.spec_height(),
                y <= height,
                next@.len() == y * width,
                forall|i: int|
                    0 <= i < next@.len() ==> #[trigger] next@[i] == self.next_cell(
                        i % width as int,
                        i / width as int,
                    ),
            decreases height - y,
        {
            let mut x: usize = 0;
            while x < width
                invariant
                    *self == *old(self),
                    self.well_formed(),
                    width == self.spec_width(),
                    height == self.spec_height(),
                    y < height,
                    x <= width,
                    next@.len() == y * width + x,
                    forall|i: int|
                        0 <= i < next@.len() ==> #[trigger] next@[i] == self.next_cell(
                            i % width as int,
                            i / width as int,
                        ),
                decreases width - x,
            {
                let n = self.count_live_neighbors(Coords { x, y });
                let alive = self.at_in(x, y);
                let lives = if alive {
                    n == 2 || n == 3
                } else {
                    n == 3
                };
                proof {
                    let i = y * width + x;
                    lemma_fundamental_div_mod_converse_mod(i as int, width as int, y as int, x as int);
                    lemma_fundamental_div_mod_converse_div(i as int, width as int, y as int, x as int);
                }
                next.push(lives);
                x = x + 1;
            }
            proof {
                assert((y + 1) * width == y * width + width) by (nonlinear_arith);
            }
            y = y + 1;
        }
        proof {
            assert(height * width == width * height) by (nonlinear_arith);
        }
        let ghost prev = *self;
        self.cells = next;
        proof {
            assert(self.cells@.len() == self.width * self.height);
            assert forall|x: int, y: int|
                0 <= x < prev.spec_width() && 0 <= y < prev.spec_height()
                    implies #[trigger] self.cell(x, y) == prev.next_cell(x, y) by {
                self.lemma_cell_in_range(x, y);
                let i = x + y * self.spec_width();
                lemma_fundamental_div_mod_converse_mod(i, width as int, y, x);
                lemma_fundamental_div_mod_converse_div(i, width as int, y, x);
            }
        }
    }

    /// One driver tick's worth of simulation: advances the grid exactly
    /// once when the step signal is asserted, and leaves it untouched
    /// otherwise.
    pub fn tick(&mut self, step: bool)
        requires
            old(self).well_formed(),
        ensures
            final(self).well_formed(),
            final(self).spec_width() == old(self).spec_width(),
            final(self).spec_height() == old(self).spec_height(),
            step ==> forall|x: int, y: int|
                0 <= x < old(self).spec_width() && 0 <= y < old(self).spec_height()
                    ==> #[trigger] final(self).cell(x, y) == old(self).next_cell(x, y),
            !step ==> *final(self) == *old(self),
    {
        if step {
            self.advance();
        }
    }

    /// The cells in row-major order: entry `i` is the cell at
    /// `(i mod width, i div width)`, mirroring the flat storage layout.
    pub fn cells_row_major(&self) -> (r: Vec<bool>)
        requires
            self.well_formed(),
        ensures
            r@.len() == self.spec_width() * self.spec_height(),
            forall|i: int|
                0 <= i < r@.len() ==> #[trigger] r@[i] == self.cell(
                    i % self.spec_width(),
                    i / self.spec_width(),
                ),
    {
        let len = self.cells.len();
        let mut r: Vec<bool> = Vec::new();
        let mut i: usize = 0;
        while i < len
            invariant
                self.well_formed(),
                len == self.spec_width() * self.spec_height(),
                i <= len,
                r@.len() == i,
                forall|j: int|
                    0 <= j < i ==> #[trigger] r@[j] == self.cell(
                        j % self.spec_width(),
                        j / self.spec_width(),
                    ),
            decreases len - i,
        {
            let x = i % self.width;
            proof {
                lemma_mod_division_less_than_divisor(i as int, self.spec_width());
                lemma_multiply_divide_lt(i as int, self.spec_width(), self.spec_height());
                assert(i < self.spec_width() * self.spec_height());
            }
            let y = i / self.width;
            r.push(self.at_in(x, y));
            proof {
                self.lemma_cell_normalizes(i as int % self.spec_width(), i as int / self.spec_width());
                lemma_mod_twice(i as int, self.spec_width());
                lemma_small_mod(
                    (i as int / self.spec_width()) as nat,
                    self.spec_height() as nat,
                );
            }
            i = i + 1;
        }
        r
    }

    /// No live cell anywhere on the grid.
    pub open spec fn is_dead(&self) -> bool {
        forall|x: int, y: int|
            0 <= x < self.spec_width() && 0 <= y < self.spec_height() ==> !#[trigger] self.cell(
                x,
                y,
            )
    }

    /// A live cell with no live neighbors dies in the next generation:
    /// isolation never sustains life under Conway's rule.
    pub proof fn lemma_isolated_cell_dies(&self, x: int, y: int)
        requires
            self.well_formed(),
            self.cell(x, y),
            self.live_neighbor_count(x, y) == 0,
        ensures
            !self.next_cell(x, y),
    {
    }

    /// A fully dead grid stays fully dead: no cell has a live neighbor,
    /// so Conway's rule yields a dead cell at every coordinate. Applied
    /// after each `advance`, this extends to any number of generations.
    pub proof fn lemma_dead_grid_stays_dead(&self)
        requires
            self.well_formed(),
            self.is_dead(),
        ensures
            forall|x: int, y: int| !#[trigger] self.next_cell(x, y),
    {
        assert forall|x: int, y: int| !#[trigger] self.next_cell(x, y) by {
            self.lemma_cell_normalizes(x - 1, y - 1);
            self.lemma_cell_normalizes(x - 1, y);
            self.lemma_cell_normalizes(x - 1, y + 1);
            self.lemma_cell_normalizes(x, y - 1);
            self.lemma_cell_normalizes(x, y);
            self.lemma_cell_normalizes(x, y + 1);
            self.lemma_cell_normalizes(x + 1, y - 1);
            self.lemma_cell_normalizes(x + 1, y);
            self.lemma_cell_normalizes(x + 1, y + 1);
        }
    }

}

/// The seed coordinate `c`, taken modulo the dimensions `(w, h)`,
/// addresses the same cell as `(x, y)`.
pub open spec fn seed_covers(c: Coords, w: int, h: int, x: int, y: int) -> bool {
    c.x as int % w == x % w && c.y as int % h == y % h
}

/// Some coordinate among the first `n` seeds addresses the cell `(x, y)`
/// on a torus with dimensions `(w, h)`.
pub open spec fn any_seed_covers(seed: Seq<Coords>, n: int, w: int, h: int, x: int, y: int) -> bool {
    exists|i: int| 0 <= i < n && #[trigger] seed_covers(seed[i], w, h, x, y)
}

/// `1` for a live cell, `0` for a dead one.
pub open spec fn live_as_int(alive: bool) -> int {
    if alive {
        1
    } else {
        0
    }
}

/// The place one step down from `v` on a ring of `m` places:
/// `(v - 1) mod m`, computed without leaving `usize`.
fn wrap_dec(v: usize, m: usize) -> (r: usize)
    requires
        0 < m,
        v < m,
    ensures
        r == (v - 1) % (m as int),
        r < m,
{
    proof {
        lemma_small_mod(v as nat, m as nat);
        lemma_wrap_dec(v as int, m as int);
    }
    if v == 0 {
        m - 1
    } else {
        v - 1
    }
}

/// The place one step up from `v` on a ring of `m` places:
/// `(v + 1) mod m`, computed without leaving `usize`.
fn wrap_inc(v: usize, m: usize) -> (r: usize)
    requires
        0 < m,
        v < m,
    ensures
        r == (v + 1) % (m as int),
        r < m,
{
    proof {
        lemma_small_mod(v as nat, m as nat);
        lemma_wrap_inc(v as int, m as int);
    }
    if v == m - 1 {
        0
    } else {
        v + 1
    }
}

/// Stepping one place down from `v` and wrapping is Euclidean modulo:
/// `(v - 1) mod m` is `m - 1` when `v` sits on a multiple of `m`, and
/// `v mod m - 1` otherwise. In particular `-1 mod m == m - 1`, never a
/// negative value.
proof fn lemma_wrap_dec(v: int, m: int)
    requires
        0 <= v,
        0 < m,
    ensures
        (v - 1) % m == if v % m == 0 {
            m - 1
        } else {
            v % m - 1
        },
{
    lemma_fundamental_div_mod(v, m);
    lemma_mod_division_less_than_divisor(v, m);
    let q = v / m;
    let r = v % m;
    if r == 0 {
        assert(v - 1 == (q - 1) * m + (m - 1)) by (nonlinear_arith)
            requires
                v == m * q + r,
                r == 0,
        ;
        lemma_fundamental_div_mod_converse_mod(v - 1, m, q - 1, m - 1);
    } else {
        assert(v - 1 == q * m + (r - 1)) by (nonlinear_arith)
            requires
                v == m * q + r,
        ;
        lemma_fundamental_div_mod_converse_mod(v - 1, m, q, r - 1);
    }
}

/// Stepping one place up from `v` and wrapping is Euclidean modulo:
/// `(v + 1) mod m` is `0` when `v mod m` is the last place, and
/// `v mod m + 1` otherwise.
proof fn lemma_wrap_inc(v: int, m: int)
    requires
        0 <= v,
        0 < m,
    ensures
        (v + 1) % m == if v % m == m - 1 {
            0
        } else {
            v % m + 1
        },
{
    lemma_fundamental_div_mod(v, m);
    lemma_mod_division_less_than_divisor(v, m);
    let q = v / m;
    let r = v % m;
    if r == m - 1 {
        assert(v + 1 == (q + 1) * m + 0) by (nonlinear_arith)
            requires
                v == m * q + r,
                r == m - 1,
        ;
        lemma_fundamental_div_mod_converse_mod(v + 1, m, q + 1, 0);
    } else {
        assert(v + 1 == q * m + (r + 1)) by (nonlinear_arith)
            requires
                v == m * q + r,
        ;
        lemma_fundamental_div_mod_converse_mod(v + 1, m, q, r + 1);
    }
}

/// Row-major indexing is injective: two in-range coordinate pairs that map
/// to the same flat index are the same pair.
proof fn lemma_two_coords_one_index(w: int, h: int, x1: int, y1: int, x2: int, y2: int)
    requires
        0 < w,
        0 < h,
        0 <= x1 < w,
        0 <= y1 < h,
        0 <= x2 < w,
        0 <= y2 < h,
        x1 + y1 * w == x2 + y2 * w,
    ensures
        x1 == x2,
        y1 == y2,
{
    assert(x1 == x2 && y1 == y2) by (nonlinear_arith)
        requires
            0 < w,
            0 <= x1 < w,
            0 <= x2 < w,
            x1 + y1 * w == x2 + y2 * w,
    ;
}

} // verus!
