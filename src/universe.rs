//! The universe: a toroidal grid of cell ages, stored row by row.
use vstd::prelude::*;
use vstd::arithmetic::div_mod::{lemma_fundamental_div_mod_converse, lemma_mod_self_0, lemma_small_mod};
use vstd::string::StringExecFns;
use crate::rules::{count_alive, is_alive, lemma_count_all_dead, lemma_next_age_capped, lemma_count_bounded, next_age, next_cell, MAX_AGE};

verus! {

/// The mathematical state of a universe.
pub struct UniverseView {
    pub width: nat,
    pub height: nat,
    pub cells: Seq<u8>,
}

impl UniverseView {
    /// The buffer has one cell per grid position, every flat index fits the
    /// 32-bit index arithmetic, and every age lies in `0..=MAX_AGE`.
    pub open spec fn wf(self) -> bool {
        &&& self.cells.len() == self.width * self.height
        &&& self.width * self.height <= u32::MAX
        &&& forall|i: int| 0 <= i < self.cells.len() ==> #[trigger] self.cells[i] <= MAX_AGE
    }

    /// 1 when the cell at `(row, col)` is alive, else 0.
    pub open spec fn alive_at(self, pos: (int, int)) -> int {
        if is_alive(self.cells[pos.0 * self.width + pos.1]) { 1 } else { 0 }
    }

    /// The number of living cells among the eight neighbours of `(row, col)`.
    pub open spec fn live_neighbors(self, row: int, col: int) -> int {
        self.alive_at(neighbor(self.width, self.height, row, col, 0))
            + self.alive_at(neighbor(self.width, self.height, row, col, 1))
            + self.alive_at(neighbor(self.width, self.height, row, col, 2))
            + self.alive_at(neighbor(self.width, self.height, row, col, 3))
            + self.alive_at(neighbor(self.width, self.height, row, col, 4))
            + self.alive_at(neighbor(self.width, self.height, row, col, 5))
            + self.alive_at(neighbor(self.width, self.height, row, col, 6))
            + self.alive_at(neighbor(self.width, self.height, row, col, 7))
    }

    /// The state one generation later: every cell takes its next age from its
    /// own age and its neighbour count in this state.
    pub open spec fn step(self) -> UniverseView {
        UniverseView {
            width: self.width,
            height: self.height,
            cells: Seq::new(
                self.cells.len(),
                |i: int| next_age(self.cells[i], self.live_neighbors(i / self.width as int, i % self.width as int)),
            ),
        }
    }
}

/// The offset `(row, col)` of the `k`-th neighbour, `k` in `0..8`. A step of
/// -1 is written as a step of `size - 1`, which wraps to the same place.
pub open spec fn neighbor_offset(width: nat, height: nat, k: int) -> (int, int) {
    let up = height - 1;
    let left = width - 1;
    if k == 0 {
        (up, left)
    } else if k == 1 {
        (up, 0)
    } else if k == 2 {
        (up, 1)
    } else if k == 3 {
        (0, left)
    } else if k == 4 {
        (0, 1)
    } else if k == 5 {
        (1, left)
    } else if k == 6 {
        (1, 0)
    } else {
        (1, 1)
    }
}

/// The position of the `k`-th neighbour of `(row, col)`, wrapped round the edges.
pub open spec fn neighbor(width: nat, height: nat, row: int, col: int, k: int) -> (int, int) {
    let off = neighbor_offset(width, height, k);
    ((row + off.0) % (height as int), (col + off.1) % (width as int))
}

/// `(r, c)` is one of the eight neighbours of `(row, col)`.
pub open spec fn is_neighbor(width: nat, height: nat, row: int, col: int, r: int, c: int) -> bool {
    exists|k: int| 0 <= k < 8 && #[trigger] neighbor(width, height, row, col, k) == (r, c)
}

/// Why a request on a universe was refused.
#[derive(Debug, Clone, Copy, PartialEq, Eq, Structural)]
pub enum GridError {
    /// A coordinate lies outside the grid.
    IndexOutOfRange,
    /// The dimensions do not fit the buffer, or their product does not fit in
    /// 32 bits. A zero dimension is not refused: it gives an empty grid.
    InvalidDimension,
    /// An age above the cap.
    InvalidAge,
}

/// A buffer of `n` dead cells.
pub open spec fn dead_cells(n: nat) -> Seq<u8> {
    Seq::new(n, |i: int| 0u8)
}

/// `(row, col)` lies on a grid of the given size.
pub open spec fn in_bounds(width: nat, height: nat, pos: (u32, u32)) -> bool {
    pos.0 < height && pos.1 < width
}

/// `cells` with each listed position, taken in order, set to age 1.
pub open spec fn mark_alive(cells: Seq<u8>, width: nat, coords: Seq<(u32, u32)>) -> Seq<u8>
    decreases coords.len(),
{
    if coords.len() == 0 {
        cells
    } else {
        let pos = coords.last();
        let before = mark_alive(cells, width, coords.drop_last());
        let idx = pos.0 * width + pos.1;
        if idx < before.len() { before.update(idx, 1u8) } else { before }
    }
}

/// The glyph that shows a cell: a skull when dead, a laughing face when alive.
pub open spec fn glyph(age: u8) -> char {
    if age == 0 { '\u{1F480}' } else { '\u{1F602}' }
}

/// The text of the first `count` cells: one glyph per cell, and a newline
/// after the last cell of each row.
pub open spec fn render_text(cells: Seq<u8>, width: nat, count: nat) -> Seq<char>
    decreases count,
{
    if count == 0 {
        Seq::empty()
    } else {
        let line = render_text(cells, width, (count - 1) as nat).push(glyph(cells[count - 1]));
        if count % width == 0 { line.push('\n') } else { line }
    }
}

/// Relies on rand's `thread_rng` and `Rng::gen_range`: a value in `low..high`.
#[verifier::external_body]
fn random_in_range(low: u8, high: u8) -> (r: u8)
    requires
        low < high,
    ensures
        low <= r < high,
{
    rand::Rng::gen_range(&mut rand::thread_rng(), low, high)
}

proof fn lemma_mark_alive_wf(cells: Seq<u8>, width: nat, coords: Seq<(u32, u32)>)
    requires
        forall|i: int| 0 <= i < cells.len() ==> #[trigger] cells[i] <= MAX_AGE,
    ensures
        mark_alive(cells, width, coords).len() == cells.len(),
        forall|i: int| 0 <= i < cells.len() ==> #[trigger] mark_alive(cells, width, coords)[i] <= MAX_AGE,
    decreases coords.len(),
{
    if coords.len() > 0 {
        lemma_mark_alive_wf(cells, width, coords.drop_last());
    }
}

/// A grid of `width * height` cells whose edges wrap round.
pub struct Universe {
    width: u32,
    height: u32,
    cells: Vec<u8>,
}

impl View for Universe {
    type V = UniverseView;

    closed spec fn view(&self) -> UniverseView {
        UniverseView { width: self.width as nat, height: self.height as nat, cells: self.cells@ }
    }
}

/// `(i + d) % n`, computed without overflow.
fn wrap(i: u32, d: u32, n: u32) -> (r: u32)
    requires
        i < n,
        d < n,
    ensures
        r as int == (i + d) % (n as int),
        r < n,
{
    ((i as u64 + d as u64) % (n as u64)) as u32
}

proof fn lemma_index_in_grid(row: int, col: int, width: int, height: int)
    requires
        0 <= row < height,
        0 <= col < width,
    ensures
        0 <= row * width + col < width * height,
{
    assert(row * width + col < width * height) by (nonlinear_arith)
        requires 0 <= row < height, 0 <= col < width;
    assert(0 <= row * width) by (nonlinear_arith)
        requires 0 <= row, 0 <= width;
}

impl Universe {
    /// The number of columns.
    pub fn width(&self) -> (r: u32)
        ensures
            r == self@.width,
    {
        self.width
    }

    /// The number of rows.
    pub fn height(&self) -> (r: u32)
        ensures
            r == self@.height,
    {
        self.height
    }

    /// The flat index of the cell at `(row, col)`: `row * width + col`.
    pub fn get_index(&self, row: u32, col: u32) -> (r: usize)
        requires
            self@.wf(),
            row < self@.height,
            col < self@.width,
        ensures
            r == row * self@.width + col,
            r < self@.cells.len(),
    {
        proof {
            lemma_index_in_grid(row as int, col as int, self.width as int, self.height as int);
        }
        (row * self.width + col) as usize
    }

    fn alive_at(&self, row: u32, col: u32) -> (r: u8)
        requires
            self@.wf(),
            row < self@.height,
            col < self@.width,
        ensures
            r as int == self@.alive_at((row as int, col as int)),
    {
        let idx = self.get_index(row, col);
        if self.cells[idx] != 0 { 1 } else { 0 }
    }

    /// The number of living cells among the eight neighbours of `(row, col)`,
    /// the grid's edges wrapping round. On a grid one cell wide or high a
    /// cell can be its own neighbour.
    pub fn live_neighbor_count(&self, row: u32, col: u32) -> (r: u8)
        requires
            self@.wf(),
            row < self@.height,
            col < self@.width,
        ensures
            r as int == self@.live_neighbors(row as int, col as int),
            r <= 8,
    {
        let w = self.width;
        let h = self.height;
        let up = wrap(row, h - 1, h);
        let down = wrap(row, 1 % h, h);
        let left = wrap(col, w - 1, w);
        let right = wrap(col, 1 % w, w);
        proof {
            lemma_small_mod(row as nat, h as nat);
            lemma_small_mod(col as nat, w as nat);
            if h > 1 {
                lemma_small_mod(1, h as nat);
            }
            if w > 1 {
                lemma_small_mod(1, w as nat);
            }
            assert((row as int + 1int % (h as int)) % (h as int) == (row as int + 1) % (h as int)) by {
                if h == 1 {
                    assert(row == 0);
                }
            }
            assert((col as int + 1int % (w as int)) % (w as int) == (col as int + 1) % (w as int)) by {
                if w == 1 {
                    assert(col == 0);
                }
            }
        }
        self.alive_at(up, left) + self.alive_at(up, col) + self.alive_at(up, right)
            + self.alive_at(row, left) + self.alive_at(row, right)
            + self.alive_at(down, left) + self.alive_at(down, col) + self.alive_at(down, right)
    }

    /// Advances the universe by one generation. Every cell's next age is
    /// computed from the current state alone, and the new buffer then
    /// replaces the old one.
    pub fn tick(&mut self)
        requires
            old(self)@.wf(),
        ensures
            final(self)@.wf(),
            final(self)@ == old(self)@.step(),
    {
        let n = self.cells.len();
        let mut next: Vec<u8> = Vec::with_capacity(n);
        let mut i: usize = 0;
        let mut row: u32 = 0;
        let mut col: u32 = 0;
        while i < n
            invariant
                self@.wf(),
                n == self@.cells.len(),
                i <= n,
                next@.len() == i,
                i == row * self@.width + col,
                i < n ==> col < self@.width,
                forall|j: int|
                    0 <= j < i ==> #[trigger] next@[j] == self@.step().cells[j] && next@[j] <= MAX_AGE,
            decreases n - i,
        {
            proof {
                let w = self.width as int;
                let h = self.height as int;
                assert(row < h) by (nonlinear_arith)
                    requires i == row * w + col, i < n, n == w * h, 0 <= col < w;
                lemma_fundamental_div_mod_converse(i as int, w, row as int, col as int);
            }
            let count = self.live_neighbor_count(row, col);
            let age = next_cell(self.cells[i], count);
            next.push(age);
            proof {
                assert(self@.step().cells[i as int] == next_age(
                    self@.cells[i as int],
                    self@.live_neighbors(row as int, col as int),
                ));
            }
            i = i + 1;
            if col + 1 < self.width {
                col = col + 1;
            } else {
                proof {
                    assert((row + 1) * self@.width == row * self@.width + self@.width) by (nonlinear_arith);
                }
                col = 0;
                row = row + 1;
            }
        }
        proof {
            assert(next@ =~= self@.step().cells);
        }
        self.cells = next;
    }

    /// The number of living cells.
    pub fn living_cells_count(&self) -> (r: usize)
        requires
            self@.wf(),
        ensures
            r == count_alive(self@.cells),
    {
        let mut count: usize = 0;
        let mut i: usize = 0;
        while i < self.cells.len()
            invariant
                i <= self@.cells.len(),
                self@.cells.len() <= u32::MAX,
                count == count_alive(self@.cells.subrange(0, i as int)),
            decreases self@.cells.len() - i,
        {
            proof {
                let s = self@.cells.subrange(0, i as int + 1);
                assert(s.drop_last() =~= self@.cells.subrange(0, i as int));
                lemma_count_bounded(self@.cells.subrange(0, i as int));
            }
            if self.cells[i] > 0 {
                count = count + 1;
            }
            i = i + 1;
        }
        proof {
            assert(self@.cells.subrange(0, i as int) =~= self@.cells);
        }
        count
    }

    /// A universe of the given size over the given ages, row by row. A zero
    /// dimension is allowed and gives an empty grid.
    pub fn from_cells(width: u32, height: u32, cells: Vec<u8>) -> (r: Result<Universe, GridError>)
        ensures
            (width * height > u32::MAX || cells@.len() != width * height) <==> r == Err::<Universe, GridError>(GridError::InvalidDimension),
            r == Err::<Universe, GridError>(GridError::InvalidAge) <==> (width * height <= u32::MAX
                && cells@.len() == width * height && exists|i: int| 0 <= i < cells@.len() && #[trigger] cells@[i] > MAX_AGE),
            r is Ok ==> r->Ok_0@ == (UniverseView { width: width as nat, height: height as nat, cells: cells@ }) && r->Ok_0@.wf(),
    {
        proof {
            assert(width as u64 * height as u64 <= u64::MAX) by (nonlinear_arith)
                requires width <= u32::MAX, height <= u32::MAX;
        }
        let size = width as u64 * height as u64;
        if size > u32::MAX as u64 || cells.len() as u64 != size {
            return Err(GridError::InvalidDimension);
        }
        let mut i: usize = 0;
        while i < cells.len()
            invariant
                i <= cells@.len(),
                width * height <= u32::MAX,
                cells@.len() == width * height,
                forall|j: int| 0 <= j < i ==> #[trigger] cells@[j] <= MAX_AGE,
            decreases cells@.len() - i,
        {
            if cells[i] > MAX_AGE {
                proof {
                    assert(cells@[i as int] > MAX_AGE);
                }
                return Err(GridError::InvalidAge);
            }
            i = i + 1;
        }
        Ok(Universe { width, height, cells })
    }

    /// A `width` by `height` universe whose cell `i`, row by row, is alive
    /// with age 1 when `draws[i]` holds and dead otherwise.
    pub fn from_draws(width: u32, height: u32, draws: &Vec<bool>) -> (r: Universe)
        requires
            width * height <= u32::MAX,
            draws@.len() == width * height,
        ensures
            r@.wf(),
            r@.width == width,
            r@.height == height,
            r@.cells.len() == draws@.len(),
            forall|i: int| 0 <= i < draws@.len() ==> #[trigger] r@.cells[i] == if draws@[i] { 1u8 } else { 0u8 },
    {
        let mut cells: Vec<u8> = Vec::with_capacity(draws.len());
        let mut i: usize = 0;
        while i < draws.len()
            invariant
                i <= draws@.len(),
                cells@.len() == i,
                forall|j: int| 0 <= j < i ==> #[trigger] cells@[j] == if draws@[j] { 1u8 } else { 0u8 },
            decreases draws@.len() - i,
        {
            cells.push(if draws[i] { 1 } else { 0 });
            i = i + 1;
        }
        Universe { width, height, cells }
    }

    /// A `width` by `height` universe in which each cell is, independently
    /// and at random, alive with age 1 or dead. Refused with
    /// `InvalidDimension` when `width * height` does not fit in 32 bits; a
    /// zero dimension gives an empty grid.
    pub fn new(width: u32, height: u32) -> (r: Result<Universe, GridError>)
        ensures
            (width * height > u32::MAX) <==> r == Err::<Universe, GridError>(GridError::InvalidDimension),
            r is Ok ==> r->Ok_0@.wf() && r->Ok_0@.width == width && r->Ok_0@.height == height,
            r is Ok ==> forall|i: int| 0 <= i < r->Ok_0@.cells.len() ==> #[trigger] r->Ok_0@.cells[i] <= 1,
    {
        proof {
            assert(width as u64 * height as u64 <= u64::MAX) by (nonlinear_arith)
                requires width <= u32::MAX, height <= u32::MAX;
        }
        let size = width as u64 * height as u64;
        if size > u32::MAX as u64 {
            return Err(GridError::InvalidDimension);
        }
        let n = size as usize;
        let mut draws: Vec<bool> = Vec::with_capacity(n);
        let mut i: usize = 0;
        while i < n
            invariant
                i <= n,
                draws@.len() == i,
            decreases n - i,
        {
            draws.push(random_in_range(0, 2) == 1);
            i = i + 1;
        }
        let universe = Universe::from_draws(width, height, &draws);
        proof {
            assert forall|i: int| 0 <= i < universe@.cells.len() implies #[trigger] universe@.cells[i] <= 1 by {
                assert(universe@.cells[i] == if draws@[i] { 1u8 } else { 0u8 });
            }
        }
        Ok(universe)
    }

    /// Sets every cell to dead; the size stays.
    pub fn kill_all(&mut self)
        requires
            old(self)@.width * old(self)@.height <= u32::MAX,
        ensures
            final(self)@ == (UniverseView {
                width: old(self)@.width,
                height: old(self)@.height,
                cells: dead_cells(old(self)@.width * old(self)@.height),
            }),
            final(self)@.wf(),
            count_alive(final(self)@.cells) == 0,
    {
        let n: u32 = self.width * self.height;
        let mut cells: Vec<u8> = Vec::with_capacity(n as usize);
        let mut i: u32 = 0;
        while i < n
            invariant
                i <= n,
                cells@.len() == i,
                forall|j: int| 0 <= j < i ==> #[trigger] cells@[j] == 0,
            decreases n - i,
        {
            cells.push(0);
            i = i + 1;
        }
        proof {
            assert(cells@ =~= dead_cells(n as nat));
            lemma_count_all_dead(cells@);
        }
        self.cells = cells;
    }

    /// Changes the number of columns; every cell is then dead. A width of
    /// zero is allowed and leaves an empty grid.
    pub fn set_width(&mut self, width: u32)
        requires
            width * old(self)@.height <= u32::MAX,
        ensures
            final(self)@ == (UniverseView {
                width: width as nat,
                height: old(self)@.height,
                cells: dead_cells(width as nat * old(self)@.height),
            }),
            final(self)@.wf(),
            count_alive(final(self)@.cells) == 0,
    {
        self.width = width;
        self.kill_all();
    }

    /// Changes the number of rows; every cell is then dead. A height of zero
    /// is allowed and leaves an empty grid.
    pub fn set_height(&mut self, height: u32)
        requires
            old(self)@.width * height <= u32::MAX,
        ensures
            final(self)@ == (UniverseView {
                width: old(self)@.width,
                height: height as nat,
                cells: dead_cells(old(self)@.width * height as nat),
            }),
            final(self)@.wf(),
            count_alive(final(self)@.cells) == 0,
    {
        self.height = height;
        self.kill_all();
    }

    /// The ages of all cells, row by row.
    pub fn get_cells(&self) -> (r: &[u8])
        ensures
            r@ == self@.cells,
    {
        self.cells.as_slice()
    }

    /// Sets each listed `(row, col)` alive with age 1; other cells keep their
    /// age. Refused, with nothing changed, when a position is off the grid.
    pub fn set_cells_alive(&mut self, cells: &[(u32, u32)]) -> (r: Result<(), GridError>)
        requires
            old(self)@.wf(),
        ensures
            final(self)@.wf(),
            r is Err <==> exists|k: int| 0 <= k < cells@.len() && !in_bounds(old(self)@.width, old(self)@.height, #[trigger] cells@[k]),
            r is Err ==> r == Err::<(), GridError>(GridError::IndexOutOfRange) && final(self)@ == old(self)@,
            r is Ok ==> final(self)@ == (UniverseView {
                width: old(self)@.width,
                height: old(self)@.height,
                cells: mark_alive(old(self)@.cells, old(self)@.width, cells@),
            }),
    {
        let mut k: usize = 0;
        while k < cells.len()
            invariant
                k <= cells@.len(),
                self@ == old(self)@,
                self@.wf(),
                forall|j: int| 0 <= j < k ==> in_bounds(self@.width, self@.height, #[trigger] cells@[j]),
            decreases cells@.len() - k,
        {
            let (row, col) = cells[k];
            if row >= self.height || col >= self.width {
                proof {
                    assert(!in_bounds(self@.width, self@.height, cells@[k as int]));
                }
                return Err(GridError::IndexOutOfRange);
            }
            k = k + 1;
        }
        let ghost start = self@;
        let mut k: usize = 0;
        while k < cells.len()
            invariant
                k <= cells@.len(),
                start.wf(),
                self@.wf(),
                forall|j: int| 0 <= j < cells@.len() ==> in_bounds(start.width, start.height, #[trigger] cells@[j]),
                self@ == (UniverseView {
                    width: start.width,
                    height: start.height,
                    cells: mark_alive(start.cells, start.width, cells@.subrange(0, k as int)),
                }),
            decreases cells@.len() - k,
        {
            let (row, col) = cells[k];
            let idx = self.get_index(row, col);
            proof {
                let done = cells@.subrange(0, k as int + 1);
                assert(done.drop_last() =~= cells@.subrange(0, k as int));
                lemma_mark_alive_wf(start.cells, start.width, cells@.subrange(0, k as int));
            }
            self.cells.set(idx, 1);
            proof {
                lemma_mark_alive_wf(start.cells, start.width, cells@.subrange(0, k as int + 1));
            }
            k = k + 1;
        }
        proof {
            assert(cells@.subrange(0, k as int) =~= cells@);
        }
        Ok(())
    }

    /// The grid as text: one glyph per cell (a skull for a dead cell, a
    /// laughing face for a living one) and a newline after each row.
    pub fn render(&self) -> (r: String)
        requires
            self@.wf(),
        ensures
            r@ == render_text(self@.cells, self@.width, self@.cells.len()),
    {
        let mut out = String::new();
        let n = self.cells.len();
        let mut i: usize = 0;
        let mut row: u32 = 0;
        let mut col: u32 = 0;
        while i < n
            invariant
                self@.wf(),
                n == self@.cells.len(),
                i <= n,
                i == row * self@.width + col,
                i < n ==> col < self@.width,
                out@ == render_text(self@.cells, self@.width, i as nat),
            decreases n - i,
        {
            let ghost w = self.width as int;
            proof {
                assert(row < self@.height) by (nonlinear_arith)
                    requires i == row * w + col, i < n, n == w * self@.height, 0 <= col < w;
            }
            if self.cells[i] == 0 {
                proof { reveal_strlit("\u{1F480}"); }
                out.append("\u{1F480}");
            } else {
                proof { reveal_strlit("\u{1F602}"); }
                out.append("\u{1F602}");
            }
            proof {
                assert(out@ =~= render_text(self@.cells, self@.width, i as nat).push(glyph(self@.cells[i as int])));
            }
            if col + 1 < self.width {
                proof {
                    lemma_fundamental_div_mod_converse(i + 1, w, row as int, col + 1);
                }
                col = col + 1;
            } else {
                proof {
                    assert((row + 1) * w == row * w + w) by (nonlinear_arith);
                    lemma_fundamental_div_mod_converse(i + 1, w, row + 1, 0);
                }
                proof { reveal_strlit("\n"); }
                out.append("\n");
                col = 0;
                row = row + 1;
            }
            i = i + 1;
        }
        out
    }
}

/// Every state that a step reaches from a well-formed state is well formed:
/// the buffer keeps one cell per position and every age stays within the cap.
pub proof fn lemma_step_preserves_wf(v: UniverseView)
    requires
        v.wf(),
    ensures
        v.step().wf(),
        v.step().width == v.width,
        v.step().height == v.height,
{
    assert forall|i: int| 0 <= i < v.step().cells.len() implies #[trigger] v.step().cells[i] <= MAX_AGE by {
        lemma_next_age_capped(v.cells[i], v.live_neighbors(i / v.width as int, i % v.width as int));
    }
}

/// The edges of the grid wrap round: row 0 and the last row are neighbours in
/// every column, and so are column 0 and the last column in every row.
pub proof fn lemma_toroidal_adjacency(width: nat, height: nat, row: int, col: int)
    requires
        width > 0,
        height > 0,
        0 <= row < height,
        0 <= col < width,
    ensures
        is_neighbor(width, height, 0, col, height - 1, col),
        is_neighbor(width, height, height - 1, col, 0, col),
        is_neighbor(width, height, row, 0, row, width - 1),
        is_neighbor(width, height, row, width - 1, row, 0),
{
    lemma_small_mod((height - 1) as nat, height);
    lemma_small_mod((width - 1) as nat, width);
    lemma_small_mod(row as nat, height);
    lemma_small_mod(col as nat, width);
    lemma_mod_self_0(height as int);
    lemma_mod_self_0(width as int);
    assert(neighbor(width, height, 0, col, 1) == (height - 1, col));
    assert(neighbor(width, height, height - 1, col, 6) == (0int, col));
    assert(neighbor(width, height, row, 0, 3) == (row, width - 1));
    assert(neighbor(width, height, row, width - 1, 4) == (row, 0int));
}

/// After a reset, whatever the state before it, no cell is alive.
pub proof fn lemma_reset_leaves_none_alive(n: nat)
    ensures
        count_alive(dead_cells(n)) == 0,
{
    lemma_count_all_dead(dead_cells(n));
}

/// A step is a function of the state alone: two equal states step to equal
/// states, so stepping again from a saved state repeats the same result.
pub proof fn lemma_step_deterministic(a: UniverseView, b: UniverseView)
    requires
        a.width == b.width,
        a.height == b.height,
        a.cells == b.cells,
    ensures
        a.step() == b.step(),
{
}

} // verus!
