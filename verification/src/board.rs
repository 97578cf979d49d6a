//! The board engine: a grid of cells with mine flags, revealed flags and
//! neighbor-mine counts, plus the reveal operation with its flood fill.

use vstd::prelude::*;
use crate::counting::{b2i, count_where, lemma_count_bounds, lemma_count_none, lemma_count_update};
use crate::rng::{rng_below, rng_from_seed};

verus! {

/// One grid position: mine flag, revealed flag, and the number of in-bounds
/// 8-neighbors that are mines.
#[derive(Clone, Copy)]
pub struct Cell {
    pub is_mine: bool,
    pub revealed: bool,
    pub adjacent: u8,
}

/// The two failures the engine can report: a coordinate outside the grid, and
/// a construction request that no grid can satisfy.
#[derive(Debug, Clone, Copy, PartialEq, Eq, Structural)]
pub enum BoardError {
    OutOfBounds,
    InvalidConfiguration,
}

/// What a call to `reveal_cell` did.
#[derive(Debug)]
pub enum RevealOutcome {
    /// The cell was already revealed; nothing changed.
    AlreadyRevealed,
    /// A single non-mine cell with a positive neighbor count was revealed.
    Revealed,
    /// A mine was revealed; the triggered-mine counter went up by one.
    MineTriggered,
    /// A zero-count cell was revealed and its region flood filled; the list
    /// holds every cell that went from unrevealed to revealed, each once.
    Expanded { revealed_cells: Vec<(usize, usize)> },
}

/// The grid plus the count of mines revealed so far. Mines and neighbor
/// counts are fixed at construction; `reveal_cell` is the only mutation.
pub struct BoardEngine {
    width: usize,
    height: usize,
    cells: Vec<Cell>,
    triggered: usize,
}

impl BoardEngine {
    /// Grid width.
    pub closed spec fn width_spec(self) -> int {
        self.width as int
    }

    /// Grid height.
    pub closed spec fn height_spec(self) -> int {
        self.height as int
    }

    /// How many mine cells have been revealed over the engine's lifetime.
    pub closed spec fn triggered_spec(self) -> int {
        self.triggered as int
    }

    /// Whether `(x, y)` lies on the grid.
    pub open spec fn in_bounds(self, x: int, y: int) -> bool {
        0 <= x < self.width_spec() && 0 <= y < self.height_spec()
    }

    /// Whether the in-bounds cell `(x, y)` is a mine.
    pub closed spec fn mine_at(self, x: int, y: int) -> bool {
        self.in_bounds(x, y) && self.cells@[y * self.width + x].is_mine
    }

    /// Whether the in-bounds cell `(x, y)` has been revealed.
    pub closed spec fn revealed_at(self, x: int, y: int) -> bool {
        self.in_bounds(x, y) && self.cells@[y * self.width + x].revealed
    }

    /// The stored neighbor-mine count of `(x, y)`; 0 off the grid.
    pub closed spec fn count_at(self, x: int, y: int) -> int {
        if self.in_bounds(x, y) {
            self.cells@[y * self.width + x].adjacent as int
        } else {
            0
        }
    }

    /// Total number of mine cells.
    pub closed spec fn mine_total(self) -> int {
        count_where(self.cells@, |c: Cell| c.is_mine)
    }

    /// Number of mine cells that are revealed.
    pub closed spec fn revealed_mine_total(self) -> int {
        count_where(self.cells@, |c: Cell| c.is_mine && c.revealed)
    }

    /// Whether two distinct in-bounds cells are 8-neighbors (Chebyshev
    /// distance 1).
    pub open spec fn adj(self, ax: int, ay: int, bx: int, by: int) -> bool {
        &&& self.in_bounds(ax, ay)
        &&& self.in_bounds(bx, by)
        &&& !(ax == bx && ay == by)
        &&& -1 <= ax - bx <= 1
        &&& -1 <= ay - by <= 1
    }

    /// The exact number of in-bounds 8-neighbors of `(x, y)` that are mines.
    pub open spec fn neighbor_mines(self, x: int, y: int) -> int {
        b2i(self.mine_at(x - 1, y - 1)) + b2i(self.mine_at(x, y - 1)) + b2i(
            self.mine_at(x + 1, y - 1),
        ) + b2i(self.mine_at(x - 1, y)) + b2i(self.mine_at(x + 1, y)) + b2i(
            self.mine_at(x - 1, y + 1),
        ) + b2i(self.mine_at(x, y + 1)) + b2i(self.mine_at(x + 1, y + 1))
    }

    /// The private representation is consistent: positive dimensions, the
    /// cell vector covers the grid, and the triggered counter counts the
    /// revealed mines.
    pub closed spec fn rep_inv(self) -> bool {
        &&& 1 <= self.width
        &&& 1 <= self.height
        &&& self.width * self.height <= usize::MAX
        &&& self.cells@.len() == self.width * self.height
        &&& self.triggered == self.revealed_mine_total()
    }

    /// Every stored count equals the true neighbor-mine count.
    pub open spec fn counts_ok(self) -> bool {
        forall|x: int, y: int|
            self.in_bounds(x, y) ==> #[trigger] self.count_at(x, y) == self.neighbor_mines(x, y)
    }

    /// A revealed zero-count non-mine cell has every in-bounds neighbor
    /// revealed: flood fills never stop halfway through a zero region.
    pub open spec fn zero_closure(self) -> bool {
        forall|x: int, y: int, nx: int, ny: int|
            self.revealed_at(x, y) && !self.mine_at(x, y) && self.count_at(x, y) == 0
                && #[trigger] self.adj(x, y, nx, ny) ==> self.revealed_at(nx, ny)
    }

    /// An unrevealed in-bounds non-mine cell with no mine neighbors: the
    /// cells a flood fill expands through.
    pub open spec fn unrevealed_zero(self, x: int, y: int) -> bool {
        &&& self.in_bounds(x, y)
        &&& !self.revealed_at(x, y)
        &&& !self.mine_at(x, y)
        &&& self.count_at(x, y) == 0
    }

    /// There is a chain of at most `k` neighbor steps from `(sx, sy)` to
    /// `(x, y)` in which every cell before the last is an unrevealed
    /// zero-count cell.
    pub open spec fn reach_in(self, sx: int, sy: int, x: int, y: int, k: nat) -> bool
        decreases k,
    {
        (sx == x && sy == y) || (k > 0 && exists|px: int, py: int|
            #[trigger] self.adj(px, py, x, y) && self.unrevealed_zero(px, py) && self.reach_in(
                sx,
                sy,
                px,
                py,
                (k - 1) as nat,
            ))
    }

    /// `(x, y)` is what a flood fill started at `(sx, sy)` must reveal: it
    /// is reachable through a chain of unrevealed zero-count cells.
    pub open spec fn reaches(self, sx: int, sy: int, x: int, y: int) -> bool {
        exists|k: nat| self.reach_in(sx, sy, x, y, k)
    }

    /// Every cell reaches itself.
    pub proof fn lemma_reach_here(self, sx: int, sy: int)
        ensures
            self.reaches(sx, sy, sx, sy),
    {
        assert(self.reach_in(sx, sy, sx, sy, 0));
    }

    /// One more step through an unrevealed zero-count cell keeps a cell
    /// reachable.
    pub proof fn lemma_reach_step(self, sx: int, sy: int, px: int, py: int, x: int, y: int)
        requires
            self.reaches(sx, sy, px, py),
            self.unrevealed_zero(px, py),
            self.adj(px, py, x, y),
        ensures
            self.reaches(sx, sy, x, y),
    {
        let k = choose|k: nat| self.reach_in(sx, sy, px, py, k);
        assert(self.reach_in(sx, sy, x, y, (k + 1) as nat));
    }

    /// A neighbor of a cell with a zero stored count is not a mine, as long
    /// as stored counts are exact.
    pub proof fn lemma_zero_neighbor_not_mine(self, px: int, py: int, x: int, y: int)
        requires
            self.counts_ok(),
            self.adj(px, py, x, y),
            self.count_at(px, py) == 0,
        ensures
            !self.mine_at(x, y),
    {
        assert(self.count_at(px, py) == self.neighbor_mines(px, py));
    }

    /// A reached cell other than the start is the neighbor of some
    /// zero-count cell, so it is not a mine.
    pub proof fn lemma_reach_not_mine(self, sx: int, sy: int, x: int, y: int)
        requires
            self.counts_ok(),
            self.reaches(sx, sy, x, y),
            !(x == sx && y == sy),
        ensures
            !self.mine_at(x, y),
    {
        let k = choose|k: nat| self.reach_in(sx, sy, x, y, k);
        let (px, py) = choose|px: int, py: int|
            #[trigger] self.adj(px, py, x, y) && self.unrevealed_zero(px, py) && self.reach_in(
                sx,
                sy,
                px,
                py,
                (k - 1) as nat,
            );
        self.lemma_zero_neighbor_not_mine(px, py, x, y);
    }

    /// In a state whose revealed set includes the start and is closed under
    /// zero-region expansion, every cell the old state could reach is
    /// revealed. `pre` is the state the chain condition speaks of; `post`
    /// has the same grid and at least `pre`'s revealed cells.
    pub proof fn lemma_reach_revealed(
        pre: BoardEngine,
        post: BoardEngine,
        sx: int,
        sy: int,
        x: int,
        y: int,
        k: nat,
    )
        requires
            post.zero_closure(),
            pre.width_spec() == post.width_spec(),
            pre.height_spec() == post.height_spec(),
            forall|i: int, j: int| pre.mine_at(i, j) == post.mine_at(i, j),
            forall|i: int, j: int| pre.count_at(i, j) == post.count_at(i, j),
            forall|i: int, j: int| pre.revealed_at(i, j) ==> post.revealed_at(i, j),
            post.revealed_at(sx, sy),
            pre.reach_in(sx, sy, x, y, k),
        ensures
            post.revealed_at(x, y),
        decreases k,
    {
        if !(sx == x && sy == y) {
            let (px, py) = choose|px: int, py: int|
                #[trigger] pre.adj(px, py, x, y) && pre.unrevealed_zero(px, py) && pre.reach_in(
                    sx,
                    sy,
                    px,
                    py,
                    (k - 1) as nat,
                );
            Self::lemma_reach_revealed(pre, post, sx, sy, px, py, (k - 1) as nat);
            assert(post.adj(px, py, x, y));
            assert(post.revealed_at(px, py) && !post.mine_at(px, py) && post.count_at(px, py)
                == 0);
        }
    }

    /// The engine's invariant: constructors establish it and `reveal_cell`
    /// preserves it.
    pub open spec fn wf(self) -> bool {
        &&& self.width_spec() >= 1
        &&& self.height_spec() >= 1
        &&& self.width_spec() * self.height_spec() <= usize::MAX
        &&& (forall|x: int, y: int| #[trigger] self.mine_at(x, y) ==> self.in_bounds(x, y))
        &&& (forall|x: int, y: int| #[trigger] self.revealed_at(x, y) ==> self.in_bounds(x, y))
        &&& self.counts_ok()
        &&& self.zero_closure()
        &&& self.triggered_spec() == self.revealed_mine_total()
        &&& self.rep_inv()
    }
}

/// Whether the coordinate list `ms` holds `(x, y)`.
pub open spec fn mine_listed(ms: Seq<(usize, usize)>, x: int, y: int) -> bool {
    exists|k: int| 0 <= k < ms.len() && (#[trigger] ms[k]).0 as int == x && ms[k].1 as int == y
}

/// A mine list a `width` by `height` grid can hold: positive dimensions,
/// fewer mines than cells, every coordinate on the grid, no duplicates.
pub open spec fn valid_mine_list(width: int, height: int, ms: Seq<(usize, usize)>) -> bool {
    &&& 1 <= width
    &&& 1 <= height
    &&& ms.len() < width * height
    &&& (forall|k: int|
        0 <= k < ms.len() ==> ((#[trigger] ms[k]).0 as int) < width && (ms[k].1 as int) < height)
    &&& (forall|k1: int, k2: int|
        0 <= k1 < k2 < ms.len() ==> !((#[trigger] ms[k1]).0 == (#[trigger] ms[k2]).0 && ms[k1].1
            == ms[k2].1))
}

/// The digit character for a neighbor-mine count between 1 and 8.
pub open spec fn digit_char(d: int) -> char {
    if d == 1 {
        '1'
    } else if d == 2 {
        '2'
    } else if d == 3 {
        '3'
    } else if d == 4 {
        '4'
    } else if d == 5 {
        '5'
    } else if d == 6 {
        '6'
    } else if d == 7 {
        '7'
    } else {
        '8'
    }
}

/// How many cells are still hidden (not revealed).
pub closed spec fn hidden_count(s: Seq<Cell>) -> int
    decreases s.len(),
{
    if s.len() == 0 {
        0
    } else {
        hidden_count(s.drop_last()) + b2i(!s.last().revealed)
    }
}

/// The hidden count is between 0 and the length of the sequence.
proof fn lemma_hidden_bounds(s: Seq<Cell>)
    ensures
        0 <= hidden_count(s) <= s.len(),
    decreases s.len(),
{
    if s.len() > 0 {
        lemma_hidden_bounds(s.drop_last());
    }
}

/// Updating one element changes the hidden count by the difference of the
/// two elements' hidden flags.
proof fn lemma_hidden_update(s: Seq<Cell>, i: int, v: Cell)
    requires
        0 <= i < s.len(),
    ensures
        hidden_count(s.update(i, v)) == hidden_count(s) - b2i(!s[i].revealed) + b2i(!v.revealed),
    decreases s.len(),
{
    let t = s.update(i, v);
    if i == s.len() - 1 {
        assert(t.drop_last() =~= s.drop_last());
    } else {
        assert(t.drop_last() =~= s.drop_last().update(i, v));
        lemma_hidden_update(s.drop_last(), i, v);
    }
}

/// An in-bounds coordinate maps to an index inside the cell vector.
proof fn lemma_idx_bounds(w: int, h: int, x: int, y: int)
    requires
        0 <= x < w,
        0 <= y < h,
    ensures
        0 <= y * w + x < w * h,
{
    assert(y * w + x < w * h) by (nonlinear_arith)
        requires
            0 <= x < w,
            0 <= y < h,
    ;
    assert(0 <= y * w + x) by (nonlinear_arith)
        requires
            0 <= x,
            0 <= y,
            0 < w,
    ;
}

/// Distinct in-bounds coordinates map to distinct indices.
proof fn lemma_idx_inj(w: int, h: int, x1: int, y1: int, x2: int, y2: int)
    requires
        0 <= x1 < w,
        0 <= y1 < h,
        0 <= x2 < w,
        0 <= y2 < h,
        y1 * w + x1 == y2 * w + x2,
    ensures
        x1 == x2 && y1 == y2,
{
    assert(x1 == x2 && y1 == y2) by (nonlinear_arith)
        requires
            0 <= x1 < w,
            0 <= y1 < h,
            0 <= x2 < w,
            0 <= y2 < h,
            y1 * w + x1 == y2 * w + x2,
    ;
}

impl BoardEngine {
    /// The cell at `(x, y)`, or `None` off the grid.
    fn cell_probe(&self, x: usize, y: usize) -> (r: Option<Cell>)
        requires
            self.rep_inv(),
        ensures
            match r {
                Some(c) => self.in_bounds(x as int, y as int) && c.is_mine == self.mine_at(
                    x as int,
                    y as int,
                ) && c.revealed == self.revealed_at(x as int, y as int) && c.adjacent as int
                    == self.count_at(x as int, y as int),
                None => !self.in_bounds(x as int, y as int),
            },
    {
        if x < self.width && y < self.height {
            proof {
                lemma_idx_bounds(self.width as int, self.height as int, x as int, y as int);
            }
            Some(self.cells[y * self.width + x])
        } else {
            None
        }
    }

    /// Whether `(x, y)` is an in-bounds mine; `false` off the grid.
    fn mine_probe(&self, x: usize, y: usize) -> (b: bool)
        requires
            self.rep_inv(),
        ensures
            b == self.mine_at(x as int, y as int),
    {
        match self.cell_probe(x, y) {
            Some(c) => c.is_mine,
            None => false,
        }
    }

    /// Whether the cell at `(x, y)` has been revealed.
    pub fn is_revealed(&self, x: usize, y: usize) -> (r: Result<bool, BoardError>)
        requires
            self.wf(),
        ensures
            match r {
                Ok(b) => self.in_bounds(x as int, y as int) && b == self.revealed_at(
                    x as int,
                    y as int,
                ),
                Err(e) => e == BoardError::OutOfBounds && !self.in_bounds(x as int, y as int),
            },
    {
        match self.cell_probe(x, y) {
            Some(c) => Ok(c.revealed),
            None => Err(BoardError::OutOfBounds),
        }
    }

    /// Whether the cell at `(x, y)` is a mine.
    pub fn is_mine(&self, x: usize, y: usize) -> (r: Result<bool, BoardError>)
        requires
            self.wf(),
        ensures
            match r {
                Ok(b) => self.in_bounds(x as int, y as int) && b == self.mine_at(
                    x as int,
                    y as int,
                ),
                Err(e) => e == BoardError::OutOfBounds && !self.in_bounds(x as int, y as int),
            },
    {
        match self.cell_probe(x, y) {
            Some(c) => Ok(c.is_mine),
            None => Err(BoardError::OutOfBounds),
        }
    }

    /// The number of in-bounds 8-neighbors of `(x, y)` that are mines.
    pub fn adjacent_count(&self, x: usize, y: usize) -> (r: Result<u8, BoardError>)
        requires
            self.wf(),
        ensures
            match r {
                Ok(n) => self.in_bounds(x as int, y as int) && n as int == self.count_at(
                    x as int,
                    y as int,
                ) && n as int == self.neighbor_mines(x as int, y as int),
                Err(e) => e == BoardError::OutOfBounds && !self.in_bounds(x as int, y as int),
            },
    {
        match self.cell_probe(x, y) {
            Some(c) => Ok(c.adjacent),
            None => Err(BoardError::OutOfBounds),
        }
    }

    /// How many mine cells have been revealed so far.
    pub fn triggered_mine_count(&self) -> (r: usize)
        ensures
            r as int == self.triggered_spec(),
    {
        self.triggered
    }

    /// Grid width.
    pub fn width(&self) -> (r: usize)
        ensures
            r as int == self.width_spec(),
    {
        self.width
    }

    /// Grid height.
    pub fn height(&self) -> (r: usize)
        ensures
            r as int == self.height_spec(),
    {
        self.height
    }

    /// An all-hidden, mine-free grid with every count zero.
    fn blank(width: usize, height: usize) -> (b: BoardEngine)
        requires
            1 <= width,
            1 <= height,
            width * height <= usize::MAX,
        ensures
            b.rep_inv(),
            b.width_spec() == width,
            b.height_spec() == height,
            b.triggered_spec() == 0,
            b.mine_total() == 0,
            forall|x: int, y: int| !b.mine_at(x, y),
            forall|x: int, y: int| !b.revealed_at(x, y),
            forall|x: int, y: int| b.count_at(x, y) == 0,
    {
        let n = width * height;
        let mut cells: Vec<Cell> = Vec::new();
        let mut i: usize = 0;
        while i < n
            invariant
                i <= n,
                cells@.len() == i,
                forall|k: int|
                    0 <= k < i ==> !(#[trigger] cells@[k]).is_mine && !cells@[k].revealed
                        && cells@[k].adjacent == 0,
            decreases n - i,
        {
            cells.push(Cell { is_mine: false, revealed: false, adjacent: 0 });
            i += 1;
        }
        let b = BoardEngine { width, height, cells, triggered: 0 };
        proof {
            lemma_count_none(b.cells@, |c: Cell| c.is_mine && c.revealed);
            lemma_count_none(b.cells@, |c: Cell| c.is_mine);
            assert forall|x: int, y: int| !b.mine_at(x, y) && !b.revealed_at(x, y) && b.count_at(
                x,
                y,
            ) == 0 by {
                if b.in_bounds(x, y) {
                    lemma_idx_bounds(width as int, height as int, x, y);
                }
            }
        }
        b
    }

    /// Recomputes the neighbor-mine count of one in-bounds cell from the
    /// current mine layout.
    fn count_neighbors(&self, x: usize, y: usize) -> (cnt: u8)
        requires
            self.rep_inv(),
            self.in_bounds(x as int, y as int),
        ensures
            cnt as int == self.neighbor_mines(x as int, y as int),
            cnt <= 8,
    {
        let mut cnt: u8 = 0;
        if x > 0 && y > 0 && self.mine_probe(x - 1, y - 1) {
            cnt += 1;
        }
        if y > 0 && self.mine_probe(x, y - 1) {
            cnt += 1;
        }
        if y > 0 && self.mine_probe(x + 1, y - 1) {
            cnt += 1;
        }
        if x > 0 && self.mine_probe(x - 1, y) {
            cnt += 1;
        }
        if self.mine_probe(x + 1, y) {
            cnt += 1;
        }
        if x > 0 && self.mine_probe(x - 1, y + 1) {
            cnt += 1;
        }
        if self.mine_probe(x, y + 1) {
            cnt += 1;
        }
        if self.mine_probe(x + 1, y + 1) {
            cnt += 1;
        }
        cnt
    }

    /// Writes the exact neighbor-mine count into every cell; mines and
    /// revealed flags stay as they are.
    fn fill_counts(&mut self)
        requires
            old(self).rep_inv(),
        ensures
            final(self).rep_inv(),
            final(self).width_spec() == old(self).width_spec(),
            final(self).height_spec() == old(self).height_spec(),
            final(self).triggered_spec() == old(self).triggered_spec(),
            final(self).mine_total() == old(self).mine_total(),
            final(self).revealed_mine_total() == old(self).revealed_mine_total(),
            forall|x: int, y: int| final(self).mine_at(x, y) == old(self).mine_at(x, y),
            forall|x: int, y: int| final(self).revealed_at(x, y) == old(self).revealed_at(x, y),
            final(self).counts_ok(),
    {
        let w = self.width;
        let h = self.height;
        let mut y: usize = 0;
        while y < h
            invariant
                y <= h,
                w == self.width,
                h == self.height,
                self.rep_inv(),
                self.width == old(self).width,
                self.height == old(self).height,
                self.triggered == old(self).triggered,
                self.mine_total() == old(self).mine_total(),
                self.revealed_mine_total() == old(self).revealed_mine_total(),
                forall|i: int, j: int| self.mine_at(i, j) == old(self).mine_at(i, j),
                forall|i: int, j: int| self.revealed_at(i, j) == old(self).revealed_at(i, j),
                forall|i: int, j: int|
                    self.in_bounds(i, j) && j < y ==> #[trigger] self.count_at(i, j)
                        == self.neighbor_mines(i, j),
            decreases h - y,
        {
            let mut x: usize = 0;
            while x < w
                invariant
                    x <= w,
                    y < h,
                    w == self.width,
                    h == self.height,
                    self.rep_inv(),
                    self.width == old(self).width,
                    self.height == old(self).height,
                    self.triggered == old(self).triggered,
                    self.mine_total() == old(self).mine_total(),
                    self.revealed_mine_total() == old(self).revealed_mine_total(),
                    forall|i: int, j: int| self.mine_at(i, j) == old(self).mine_at(i, j),
                    forall|i: int, j: int| self.revealed_at(i, j) == old(self).revealed_at(i, j),
                    forall|i: int, j: int|
                        self.in_bounds(i, j) && (j < y || (j == y && i < x)) ==> #[trigger] self
                            .count_at(i, j) == self.neighbor_mines(i, j),
                decreases w - x,
            {
                let cnt = self.count_neighbors(x, y);
                proof {
                    lemma_idx_bounds(w as int, h as int, x as int, y as int);
                }
                let ci = y * w + x;
                let c = self.cells[ci];
                let ghost prev = *self;
                self.cells[ci] = Cell { is_mine: c.is_mine, revealed: c.revealed, adjacent: cnt };
                proof {
                    lemma_count_update(prev.cells@, |cc: Cell| cc.is_mine, ci as int, self.cells@[ci as int]);
                    lemma_count_update(
                        prev.cells@,
                        |cc: Cell| cc.is_mine && cc.revealed,
                        ci as int,
                        self.cells@[ci as int],
                    );
                    assert forall|i: int, j: int|
                        self.mine_at(i, j) == prev.mine_at(i, j) && self.revealed_at(i, j)
                            == prev.revealed_at(i, j) by {
                        if self.in_bounds(i, j) {
                            lemma_idx_bounds(w as int, h as int, i, j);
                            if j * w + i != ci as int {
                            } else {
                                lemma_idx_inj(w as int, h as int, i, j, x as int, y as int);
                            }
                        }
                    }
                    assert forall|i: int, j: int|
                        self.in_bounds(i, j) && (j < y || (j == y && i <= x)) implies #[trigger] self
                        .count_at(i, j) == self.neighbor_mines(i, j) by {
                        lemma_idx_bounds(w as int, h as int, i, j);
                        if i == x as int && j == y as int {
                            assert(self.count_at(i, j) == cnt as int);
                            assert(prev.neighbor_mines(i, j) == cnt as int);
                        } else {
                            if j * w + i == ci as int {
                                lemma_idx_inj(w as int, h as int, i, j, x as int, y as int);
                            }
                            assert(self.count_at(i, j) == prev.count_at(i, j));
                        }
                    }
                }
                x += 1;
            }
            y += 1;
        }
    }

    /// Marks `(x, y)` as a mine; every other cell keeps its state.
    fn set_mine(&mut self, x: usize, y: usize)
        requires
            old(self).rep_inv(),
            old(self).in_bounds(x as int, y as int),
            !old(self).mine_at(x as int, y as int),
            forall|i: int, j: int| !old(self).revealed_at(i, j),
        ensures
            final(self).rep_inv(),
            final(self).width_spec() == old(self).width_spec(),
            final(self).height_spec() == old(self).height_spec(),
            final(self).triggered_spec() == old(self).triggered_spec(),
            final(self).mine_total() == old(self).mine_total() + 1,
            forall|i: int, j: int| !final(self).revealed_at(i, j),
            forall|i: int, j: int|
                #[trigger] final(self).mine_at(i, j) == (old(self).mine_at(i, j) || (i == x as int
                    && j == y as int)),
    {
        let w = self.width;
        let h = self.height;
        proof {
            lemma_idx_bounds(w as int, h as int, x as int, y as int);
        }
        let ci = y * w + x;
        let c = self.cells[ci];
        let ghost prev = *self;
        self.cells[ci] = Cell { is_mine: true, revealed: c.revealed, adjacent: c.adjacent };
        proof {
            lemma_count_update(prev.cells@, |cc: Cell| cc.is_mine, ci as int, self.cells@[ci as int]);
            lemma_count_update(
                prev.cells@,
                |cc: Cell| cc.is_mine && cc.revealed,
                ci as int,
                self.cells@[ci as int],
            );
            assert(prev.cells@[ci as int].revealed == false) by {
                assert(!prev.revealed_at(x as int, y as int));
            }
            assert forall|i: int, j: int| !self.revealed_at(i, j) by {
                assert(!old(self).revealed_at(i, j));
                if self.in_bounds(i, j) {
                    lemma_idx_bounds(w as int, h as int, i, j);
                    if j * w + i == ci as int {
                        lemma_idx_inj(w as int, h as int, i, j, x as int, y as int);
                    }
                }
            }
            assert forall|i: int, j: int| #[trigger]
                self.mine_at(i, j) == (old(self).mine_at(i, j) || (i == x as int
                    && j == y as int)) by {
                if self.in_bounds(i, j) {
                    lemma_idx_bounds(w as int, h as int, i, j);
                    if j * w + i == ci as int {
                        lemma_idx_inj(w as int, h as int, i, j, x as int, y as int);
                    }
                }
            }
        }
    }

    /// Places `mine_count` mines by sampling grid cells without replacement,
    /// drawing from `rng`.
    fn place_mines(&mut self, mine_count: usize, rng: &mut rand::rngs::SmallRng)
        requires
            old(self).rep_inv(),
            mine_count < old(self).width_spec() * old(self).height_spec(),
            old(self).mine_total() == 0,
            forall|x: int, y: int| !old(self).mine_at(x, y),
            forall|x: int, y: int| !old(self).revealed_at(x, y),
        ensures
            final(self).rep_inv(),
            final(self).width_spec() == old(self).width_spec(),
            final(self).height_spec() == old(self).height_spec(),
            final(self).triggered_spec() == old(self).triggered_spec(),
            final(self).mine_total() == mine_count,
            forall|x: int, y: int| !final(self).revealed_at(x, y),
    {
        let w = self.width;
        let h = self.height;
        let n = w * h;
        let mut candidates: Vec<(usize, usize)> = Vec::new();
        let mut x: usize = 0;
        while x < w
            invariant
                x <= w,
                w == self.width,
                h == self.height,
                self.rep_inv(),
                candidates@.len() == x * h,
                forall|k: int|
                    0 <= k < candidates@.len() ==> (#[trigger] candidates@[k]).0 < w
                        && candidates@[k].1 < h,
                forall|k1: int, k2: int|
                    0 <= k1 < k2 < candidates@.len() ==> !((#[trigger] candidates@[k1]).0 == (
                    #[trigger] candidates@[k2]).0 && candidates@[k1].1 == candidates@[k2].1),
                forall|k: int| 0 <= k < candidates@.len() ==> (#[trigger] candidates@[k]).0 < x,
            decreases w - x,
        {
            let mut y: usize = 0;
            while y < h
                invariant
                    y <= h,
                    x < w,
                    w == self.width,
                    h == self.height,
                    self.rep_inv(),
                    candidates@.len() == x * h + y,
                    forall|k: int|
                        0 <= k < candidates@.len() ==> (#[trigger] candidates@[k]).0 < w
                            && candidates@[k].1 < h,
                    forall|k1: int, k2: int|
                        0 <= k1 < k2 < candidates@.len() ==> !((#[trigger] candidates@[k1]).0 == (
                        #[trigger] candidates@[k2]).0 && candidates@[k1].1 == candidates@[k2].1),
                    forall|k: int|
                        0 <= k < candidates@.len() ==> (#[trigger] candidates@[k]).0 < x || (
                        candidates@[k].0 == x && candidates@[k].1 < y),
                decreases h - y,
            {
                proof {
                    lemma_idx_bounds(h as int, w as int, y as int, x as int);
                }
                candidates.push((x, y));
                y += 1;
            }
            proof {
                assert((x as int + 1) * (h as int) == (x as int) * (h as int) + (h as int))
                    by (nonlinear_arith);
            }
            x += 1;
        }
        assert(candidates@.len() == n);
        let mut placed: usize = 0;
        while placed < mine_count
            invariant
                placed <= mine_count,
                w == self.width,
                h == self.height,
                n == w * h,
                mine_count < n,
                self.rep_inv(),
                self.width == old(self).width,
                self.height == old(self).height,
                self.triggered == old(self).triggered,
                candidates@.len() == n - placed,
                self.mine_total() == placed,
                forall|x2: int, y2: int| !self.revealed_at(x2, y2),
                forall|k: int|
                    0 <= k < candidates@.len() ==> (#[trigger] candidates@[k]).0 < w
                        && candidates@[k].1 < h,
                forall|k1: int, k2: int|
                    0 <= k1 < k2 < candidates@.len() ==> !((#[trigger] candidates@[k1]).0 == (
                    #[trigger] candidates@[k2]).0 && candidates@[k1].1 == candidates@[k2].1),
                forall|k: int|
                    0 <= k < candidates@.len() ==> !self.mine_at(
                        (#[trigger] candidates@[k]).0 as int,
                        candidates@[k].1 as int,
                    ),
            decreases mine_count - placed,
        {
            let len = candidates.len();
            let r = rng_below(rng, len);
            let (mx, my) = candidates[r];
            self.set_mine(mx, my);
            let ghost before_remove = candidates@;
            candidates.remove(r);
            placed += 1;
            proof {
                before_remove.remove_ensures(r as int);
                assert forall|k: int|
                    0 <= k < candidates@.len() implies !self.mine_at(
                    (#[trigger] candidates@[k]).0 as int,
                    candidates@[k].1 as int,
                ) by {
                    if k < r {
                        assert(candidates@[k] == before_remove[k]);
                    } else {
                        assert(candidates@[k] == before_remove[k + 1]);
                    }
                }
            }
        }
    }

    /// Builds a board of the given dimensions with exactly `mine_count`
    /// mines placed by sampling without replacement from a generator seeded
    /// with `rng_seed`, then computes every neighbor-mine count. Rejects a
    /// zero-sized grid and a mine count the grid cannot hold.
    pub fn new(width: usize, height: usize, mine_count: usize, rng_seed: u64) -> (r: Result<
        BoardEngine,
        BoardError,
    >)
        requires
            width * height <= usize::MAX,
        ensures
            match r {
                Ok(b) => {
                    &&& 1 <= width
                    &&& 1 <= height
                    &&& mine_count < width * height
                    &&& b.wf()
                    &&& b.width_spec() == width
                    &&& b.height_spec() == height
                    &&& b.mine_total() == mine_count
                    &&& b.triggered_spec() == 0
                    &&& forall|x: int, y: int| !b.revealed_at(x, y)
                },
                Err(e) => {
                    &&& e == BoardError::InvalidConfiguration
                    &&& (width == 0 || height == 0 || mine_count >= width * height)
                },
            },
    {
        if width == 0 || height == 0 {
            return Err(BoardError::InvalidConfiguration);
        }
        let total = width * height;
        if mine_count >= total {
            return Err(BoardError::InvalidConfiguration);
        }
        let mut b = Self::blank(width, height);
        let mut rng = rng_from_seed(rng_seed);
        b.place_mines(mine_count, &mut rng);
        b.fill_counts();
        Ok(b)
    }

    /// Builds a board with mines exactly at the listed coordinates, then
    /// computes every neighbor-mine count. Rejects a list the grid cannot
    /// hold (zero-sized grid, too many mines, an off-grid coordinate, or a
    /// duplicate).
    pub fn from_mines(width: usize, height: usize, mines: &Vec<(usize, usize)>) -> (r: Result<
        BoardEngine,
        BoardError,
    >)
        requires
            width * height <= usize::MAX,
        ensures
            match r {
                Ok(b) => {
                    &&& valid_mine_list(width as int, height as int, mines@)
                    &&& b.wf()
                    &&& b.width_spec() == width
                    &&& b.height_spec() == height
                    &&& b.mine_total() == mines@.len()
                    &&& b.triggered_spec() == 0
                    &&& forall|x: int, y: int| !b.revealed_at(x, y)
                    &&& forall|x: int, y: int|
                        #[trigger] b.mine_at(x, y) <==> mine_listed(mines@, x, y)
                },
                Err(e) => {
                    &&& e == BoardError::InvalidConfiguration
                    &&& !valid_mine_list(width as int, height as int, mines@)
                },
            },
    {
        if width == 0 || height == 0 {
            return Err(BoardError::InvalidConfiguration);
        }
        let total = width * height;
        if mines.len() >= total {
            return Err(BoardError::InvalidConfiguration);
        }
        let mut k: usize = 0;
        while k < mines.len()
            invariant
                k <= mines@.len(),
                1 <= width,
                1 <= height,
                forall|k2: int|
                    0 <= k2 < k ==> ((#[trigger] mines@[k2]).0 as int) < width && (mines@[k2].1 as int)
                        < height,
            decreases mines@.len() - k,
        {
            let (mx, my) = mines[k];
            if mx >= width || my >= height {
                return Err(BoardError::InvalidConfiguration);
            }
            k += 1;
        }
        let mut i: usize = 0;
        while i < mines.len()
            invariant
                i <= mines@.len(),
                forall|k1: int, k2: int|
                    0 <= k1 < k2 < i ==> !((#[trigger] mines@[k1]).0 == (#[trigger] mines@[k2]).0
                        && mines@[k1].1 == mines@[k2].1),
            decreases mines@.len() - i,
        {
            let (mx, my) = mines[i];
            let mut j: usize = 0;
            while j < i
                invariant
                    j <= i,
                    i < mines@.len(),
                    (mx, my) == mines@[i as int],
                    forall|k1: int|
                        0 <= k1 < j ==> !((#[trigger] mines@[k1]).0 == mines@[i as int].0
                            && mines@[k1].1 == mines@[i as int].1),
                decreases i - j,
            {
                let (px, py) = mines[j];
                if px == mx && py == my {
                    return Err(BoardError::InvalidConfiguration);
                }
                j += 1;
            }
            i += 1;
        }
        let mut b = Self::blank(width, height);
        let mut t: usize = 0;
        while t < mines.len()
            invariant
                t <= mines@.len(),
                mines@.len() < width * height,
                b.rep_inv(),
                b.width_spec() == width,
                b.height_spec() == height,
                b.triggered_spec() == 0,
                b.mine_total() == t,
                forall|x: int, y: int| !b.revealed_at(x, y),
                forall|k2: int|
                    0 <= k2 < mines@.len() ==> ((#[trigger] mines@[k2]).0 as int) < width
                        && (mines@[k2].1 as int) < height,
                forall|k1: int, k2: int|
                    0 <= k1 < k2 < mines@.len() ==> !((#[trigger] mines@[k1]).0 == (
                    #[trigger] mines@[k2]).0 && mines@[k1].1 == mines@[k2].1),
                forall|x: int, y: int|
                    #[trigger] b.mine_at(x, y) <==> (exists|k2: int|
                        0 <= k2 < t && (#[trigger] mines@[k2]).0 as int == x && mines@[k2].1 as int
                            == y),
            decreases mines@.len() - t,
        {
            let (mx, my) = mines[t];
            proof {
                if b.mine_at(mx as int, my as int) {
                    let k2 = choose|k2: int|
                        0 <= k2 < t && (#[trigger] mines@[k2]).0 as int == mx as int
                            && mines@[k2].1 as int == my as int;
                    assert(!(mines@[k2].0 == mines@[t as int].0 && mines@[k2].1
                        == mines@[t as int].1));
                }
            }
            let ghost prev = b;
            b.set_mine(mx, my);
            proof {
                assert forall|x: int, y: int| #[trigger]
                    b.mine_at(x, y) <==> (exists|k2: int|
                        0 <= k2 < t + 1 && (#[trigger] mines@[k2]).0 as int == x && mines@[k2].1
                            as int == y) by {
                    if b.mine_at(x, y) {
                        if prev.mine_at(x, y) {
                            let k2 = choose|k2: int|
                                0 <= k2 < t && (#[trigger] mines@[k2]).0 as int == x
                                    && mines@[k2].1 as int == y;
                            assert(0 <= k2 < t + 1 && mines@[k2].0 as int == x && mines@[k2].1
                                as int == y);
                        } else {
                            assert(mines@[t as int].0 as int == x && mines@[t as int].1 as int
                                == y);
                        }
                    }
                    if exists|k2: int|
                        0 <= k2 < t + 1 && (#[trigger] mines@[k2]).0 as int == x && mines@[k2].1
                            as int == y {
                        let k2 = choose|k2: int|
                            0 <= k2 < t + 1 && (#[trigger] mines@[k2]).0 as int == x
                                && mines@[k2].1 as int == y;
                        if k2 < t {
                            assert(prev.mine_at(x, y));
                        }
                        assert(b.mine_at(x, y));
                    }
                }
            }
            t += 1;
        }
        b.fill_counts();
        Ok(b)
    }

    /// Queues an in-bounds neighbor for the flood fill unless it is already
    /// revealed; earlier queue entries keep their places.
    fn consider(work: &mut Vec<(usize, usize)>, board: &BoardEngine, nx: usize, ny: usize)
        requires
            board.rep_inv(),
            board.in_bounds(nx as int, ny as int),
        ensures
            old(work)@.len() <= final(work)@.len(),
            forall|k: int| 0 <= k < old(work)@.len() ==> final(work)@[k] == old(work)@[k],
            board.revealed_at(nx as int, ny as int) ==> final(work)@ == old(work)@,
            !board.revealed_at(nx as int, ny as int) ==> final(work)@ == old(work)@.push(
                (nx, ny),
            ) && final(work)@.contains((nx, ny)),
            forall|p: (usize, usize)|
                old(work)@.contains(p) ==> #[trigger] final(work)@.contains(p),
    {
        proof {
            lemma_idx_bounds(board.width as int, board.height as int, nx as int, ny as int);
        }
        if !board.cells[ny * board.width + nx].revealed {
            let ghost before = work@;
            work.push((nx, ny));
            proof {
                assert(work@[before.len() as int] == (nx, ny));
                assert forall|p: (usize, usize)| before.contains(p) implies work@.contains(p) by {
                    let k0 = choose|k0: int| 0 <= k0 < before.len() && before[k0] == p;
                    assert(work@[k0] == p);
                }
            }
        }
    }


    /// The text a renderer shows for `(x, y)`: the neighbor count's digit
    /// on a revealed cell with a positive count, the empty string otherwise.
    pub fn cell_text(&self, x: usize, y: usize) -> (r: Result<&'static str, BoardError>)
        requires
            self.wf(),
        ensures
            match r {
                Ok(s) => {
                    &&& self.in_bounds(x as int, y as int)
                    &&& (self.revealed_at(x as int, y as int) && self.count_at(x as int, y as int)
                        > 0) ==> s@ =~= seq![digit_char(self.count_at(x as int, y as int))]
                    &&& !(self.revealed_at(x as int, y as int) && self.count_at(x as int, y as int)
                        > 0) ==> s@ =~= Seq::<char>::empty()
                },
                Err(e) => e == BoardError::OutOfBounds && !self.in_bounds(x as int, y as int),
            },
    {
        match self.cell_probe(x, y) {
            None => Err(BoardError::OutOfBounds),
            Some(c) => {
                if !c.revealed || c.adjacent == 0 {
                    proof {
                        reveal_strlit("");
                    }
                    Ok("")
                } else {
                    proof {
                        assert(self.count_at(x as int, y as int) == self.neighbor_mines(
                            x as int,
                            y as int,
                        ));
                    }
                    let ghost d = self.count_at(x as int, y as int);
                    match c.adjacent {
                        1 => {
                            proof {
                                reveal_strlit("1");
                                assert("1"@ =~= seq![digit_char(d)]);
                            }
                            Ok("1")
                        },
                        2 => {
                            proof {
                                reveal_strlit("2");
                                assert("2"@ =~= seq![digit_char(d)]);
                            }
                            Ok("2")
                        },
                        3 => {
                            proof {
                                reveal_strlit("3");
                                assert("3"@ =~= seq![digit_char(d)]);
                            }
                            Ok("3")
                        },
                        4 => {
                            proof {
                                reveal_strlit("4");
                                assert("4"@ =~= seq![digit_char(d)]);
                            }
                            Ok("4")
                        },
                        5 => {
                            proof {
                                reveal_strlit("5");
                                assert("5"@ =~= seq![digit_char(d)]);
                            }
                            Ok("5")
                        },
                        6 => {
                            proof {
                                reveal_strlit("6");
                                assert("6"@ =~= seq![digit_char(d)]);
                            }
                            Ok("6")
                        },
                        7 => {
                            proof {
                                reveal_strlit("7");
                                assert("7"@ =~= seq![digit_char(d)]);
                            }
                            Ok("7")
                        },
                        _ => {
                            proof {
                                assert(c.adjacent == 8);
                                reveal_strlit("8");
                                assert("8"@ =~= seq![digit_char(d)]);
                            }
                            Ok("8")
                        },
                    }
                }
            },
        }
    }

    /// Whether every non-mine cell has been revealed: the fact a caller's
    /// win rule would read.
    pub fn all_safe_revealed(&self) -> (r: bool)
        requires
            self.wf(),
        ensures
            r <==> (forall|i: int, j: int|
                self.in_bounds(i, j) && !self.mine_at(i, j) ==> #[trigger] self.revealed_at(i, j)),
    {
        let w = self.width;
        let h = self.height;
        let mut yy: usize = 0;
        while yy < h
            invariant
                yy <= h,
                w == self.width,
                h == self.height,
                self.rep_inv(),
                forall|i: int, j: int|
                    self.in_bounds(i, j) && j < yy && !self.mine_at(i, j)
                        ==> #[trigger] self.revealed_at(i, j),
            decreases h - yy,
        {
            let mut xx: usize = 0;
            while xx < w
                invariant
                    xx <= w,
                    yy < h,
                    w == self.width,
                    h == self.height,
                    self.rep_inv(),
                    forall|i: int, j: int|
                        self.in_bounds(i, j) && (j < yy || (j == yy && i < xx)) && !self.mine_at(
                            i,
                            j,
                        ) ==> #[trigger] self.revealed_at(i, j),
                decreases w - xx,
            {
                proof {
                    lemma_idx_bounds(w as int, h as int, xx as int, yy as int);
                }
                let c = self.cells[yy * w + xx];
                if !c.is_mine && !c.revealed {
                    proof {
                        assert(self.in_bounds(xx as int, yy as int));
                        assert(!self.mine_at(xx as int, yy as int));
                        assert(!self.revealed_at(xx as int, yy as int));
                    }
                    return false;
                }
                xx += 1;
            }
            yy += 1;
        }
        true
    }

    /// Queues every still-hidden in-bounds neighbor of the just-revealed
    /// zero-count cell `(cx, cy)`: after it, each such neighbor is revealed
    /// or queued, and every queued cell is on the grid, reachable from the
    /// fill's start `(x, y)`, and mine-free.
    #[verifier::rlimit(100)]
    fn expand_neighbors(
        &self,
        work: &mut Vec<(usize, usize)>,
        cx: usize,
        cy: usize,
        x: usize,
        y: usize,
        Ghost(pre): Ghost<BoardEngine>,
    )
        requires
            self.rep_inv(),
            pre.wf(),
            self.width_spec() == pre.width_spec(),
            self.height_spec() == pre.height_spec(),
            forall|i: int, j: int| self.mine_at(i, j) == pre.mine_at(i, j),
            forall|i: int, j: int| self.count_at(i, j) == pre.count_at(i, j),
            (cx as int) < pre.width_spec(),
            (cy as int) < pre.height_spec(),
            pre.unrevealed_zero(cx as int, cy as int),
            pre.reaches(x as int, y as int, cx as int, cy as int),
            forall|k: int|
                0 <= k < old(work)@.len() ==> {
                    &&& ((#[trigger] old(work)@[k]).0 as int) < pre.width_spec()
                    &&& (old(work)@[k].1 as int) < pre.height_spec()
                    &&& pre.reaches(x as int, y as int, old(work)@[k].0 as int, old(work)@[k].1 as int)
                    &&& !pre.mine_at(old(work)@[k].0 as int, old(work)@[k].1 as int)
                },
        ensures
            final(work)@.len() <= old(work)@.len() + 8,
            forall|p: (usize, usize)|
                old(work)@.contains(p) ==> #[trigger] final(work)@.contains(p),
            forall|k: int|
                0 <= k < final(work)@.len() ==> {
                    &&& ((#[trigger] final(work)@[k]).0 as int) < pre.width_spec()
                    &&& (final(work)@[k].1 as int) < pre.height_spec()
                    &&& pre.reaches(x as int, y as int, final(work)@[k].0 as int, final(work)@[k].1 as int)
                    &&& !pre.mine_at(final(work)@[k].0 as int, final(work)@[k].1 as int)
                },
            forall|ni: int, nj: int| #[trigger]
                self.adj(cx as int, cy as int, ni, nj) ==> self.revealed_at(ni, nj)
                    || final(work)@.contains((ni as usize, nj as usize)),
    {
        let w = self.width;
        let h = self.height;
        let ghost work_in = work@;
        if cx > 0 && cy > 0 {
            Self::consider(work, self, cx - 1, cy - 1);
        }
        if cy > 0 {
            Self::consider(work, self, cx, cy - 1);
        }
        if cx + 1 < w && cy > 0 {
            Self::consider(work, self, cx + 1, cy - 1);
        }
        if cx > 0 {
            Self::consider(work, self, cx - 1, cy);
        }
        if cx + 1 < w {
            Self::consider(work, self, cx + 1, cy);
        }
        if cx > 0 && cy + 1 < h {
            Self::consider(work, self, cx - 1, cy + 1);
        }
        if cy + 1 < h {
            Self::consider(work, self, cx, cy + 1);
        }
        if cx + 1 < w && cy + 1 < h {
            Self::consider(work, self, cx + 1, cy + 1);
        }
        proof {
            assert forall|k: int|
                0 <= k < work@.len() implies {
                &&& ((#[trigger] work@[k]).0 as int) < pre.width_spec()
                &&& (work@[k].1 as int) < pre.height_spec()
                &&& pre.reaches(x as int, y as int, work@[k].0 as int, work@[k].1 as int)
                &&& !pre.mine_at(work@[k].0 as int, work@[k].1 as int)
            } by {
                if k < work_in.len() {
                    assert(work@[k] == work_in[k]);
                } else {
                    let p = work@[k];
                    assert(pre.adj(cx as int, cy as int, p.0 as int, p.1 as int));
                    pre.lemma_reach_step(
                        x as int,
                        y as int,
                        cx as int,
                        cy as int,
                        p.0 as int,
                        p.1 as int,
                    );
                    pre.lemma_zero_neighbor_not_mine(
                        cx as int,
                        cy as int,
                        p.0 as int,
                        p.1 as int,
                    );
                }
            }
            assert forall|ni: int, nj: int| #[trigger]
                self.adj(cx as int, cy as int, ni, nj) implies (self.revealed_at(ni, nj)
                || work@.contains((ni as usize, nj as usize))) by {
                assert(self.in_bounds(ni, nj));
                assert((ni as usize) as int == ni && (nj as usize) as int == nj);
            }
        }
    }

    /// One step of the flood fill: pops a queued cell; if it is still
    /// hidden, reveals it, records it, and, when its count is zero, queues
    /// its hidden in-bounds neighbors. `pre` is the state the surrounding
    /// reveal call started from.
    #[verifier::rlimit(100)]
    fn flood_step(
        &mut self,
        work: &mut Vec<(usize, usize)>,
        out: &mut Vec<(usize, usize)>,
        x: usize,
        y: usize,
        Ghost(pre): Ghost<BoardEngine>,
    )
        requires
            pre.wf(),
            pre.unrevealed_zero(x as int, y as int),
            old(self).rep_inv(),
            old(self).width_spec() == pre.width_spec(),
            old(self).height_spec() == pre.height_spec(),
            (x as int) < pre.width_spec(),
            (y as int) < pre.height_spec(),
            old(self).triggered_spec() == pre.triggered_spec(),
            old(self).mine_total() == pre.mine_total(),
            forall|i: int, j: int| old(self).mine_at(i, j) == pre.mine_at(i, j),
            forall|i: int, j: int| old(self).count_at(i, j) == pre.count_at(i, j),
            forall|i: int, j: int| pre.revealed_at(i, j) ==> #[trigger] old(self).revealed_at(i, j),
            forall|k: int|
                0 <= k < old(work)@.len() ==> {
                    &&& ((#[trigger] old(work)@[k]).0 as int) < pre.width_spec()
                    &&& (old(work)@[k].1 as int) < pre.height_spec()
                    &&& pre.reaches(x as int, y as int, old(work)@[k].0 as int, old(work)@[k].1 as int)
                    &&& !pre.mine_at(old(work)@[k].0 as int, old(work)@[k].1 as int)
                },
            old(self).revealed_at(x as int, y as int) || old(work)@.contains((x, y)),
            forall|i: int, j: int|
                #[trigger] old(self).revealed_at(i, j) && !pre.revealed_at(i, j) ==> pre.reaches(
                    x as int,
                    y as int,
                    i,
                    j,
                ),
            forall|i: int, j: int, ni: int, nj: int|
                old(self).revealed_at(i, j) && !pre.revealed_at(i, j) && old(self).count_at(i, j)
                    == 0 && #[trigger] old(self).adj(i, j, ni, nj) ==> old(self).revealed_at(ni, nj)
                    || old(work)@.contains((ni as usize, nj as usize)),
            old(out)@.no_duplicates(),
            forall|k: int|
                0 <= k < old(out)@.len() ==> old(self).revealed_at(
                    (#[trigger] old(out)@[k]).0 as int,
                    old(out)@[k].1 as int,
                ) && !pre.revealed_at(old(out)@[k].0 as int, old(out)@[k].1 as int),
            forall|i: int, j: int|
                #[trigger] old(self).revealed_at(i, j) && !pre.revealed_at(i, j) ==> old(out)@.contains((i as usize, j as usize)),
            old(work)@.len() > 0,
        ensures
            final(self).rep_inv(),
            final(self).width_spec() == pre.width_spec(),
            final(self).height_spec() == pre.height_spec(),
            final(self).triggered_spec() == pre.triggered_spec(),
            final(self).mine_total() == pre.mine_total(),
            forall|i: int, j: int| final(self).mine_at(i, j) == pre.mine_at(i, j),
            forall|i: int, j: int| final(self).count_at(i, j) == pre.count_at(i, j),
            forall|i: int, j: int|
                pre.revealed_at(i, j) ==> #[trigger] final(self).revealed_at(i, j),
            forall|k: int|
                0 <= k < final(work)@.len() ==> {
                    &&& ((#[trigger] final(work)@[k]).0 as int) < pre.width_spec()
                    &&& (final(work)@[k].1 as int) < pre.height_spec()
                    &&& pre.reaches(x as int, y as int, final(work)@[k].0 as int, final(work)@[k].1 as int)
                    &&& !pre.mine_at(final(work)@[k].0 as int, final(work)@[k].1 as int)
                },
            final(self).revealed_at(x as int, y as int) || final(work)@.contains((x, y)),
            forall|i: int, j: int|
                #[trigger] final(self).revealed_at(i, j) && !pre.revealed_at(i, j) ==> pre.reaches(
                    x as int,
                    y as int,
                    i,
                    j,
                ),
            forall|i: int, j: int, ni: int, nj: int|
                final(self).revealed_at(i, j) && !pre.revealed_at(i, j) && final(self).count_at(
                    i,
                    j,
                ) == 0 && #[trigger] final(self).adj(i, j, ni, nj) ==> final(self).revealed_at(
                    ni,
                    nj,
                ) || final(work)@.contains((ni as usize, nj as usize)),
            final(out)@.no_duplicates(),
            forall|k: int|
                0 <= k < final(out)@.len() ==> final(self).revealed_at(
                    (#[trigger] final(out)@[k]).0 as int,
                    final(out)@[k].1 as int,
                ) && !pre.revealed_at(final(out)@[k].0 as int, final(out)@[k].1 as int),
            forall|i: int, j: int|
                #[trigger] final(self).revealed_at(i, j) && !pre.revealed_at(i, j) ==> final(out)@.contains((i as usize, j as usize)),
            0 <= hidden_count(final(self).cells@),
            hidden_count(final(self).cells@) * 9 + final(work)@.len() < hidden_count(
                old(self).cells@,
            ) * 9 + old(work)@.len(),
    {
        let w = self.width;
        let h = self.height;
        let ghost entry = *self;
        let ghost work_entry = work@;
        let (cx, cy) = work.pop().unwrap();
        let ghost work_popped = work@;
        proof {
            lemma_idx_bounds(w as int, h as int, cx as int, cy as int);
            lemma_hidden_bounds(self.cells@);
            assert(work_entry[work_entry.len() - 1] == (cx, cy));
            assert forall|k: int| 0 <= k < work_popped.len() implies work_popped[k]
                == work_entry[k] by {}
        }
        let ci = cy * w + cx;
        let cc = self.cells[ci];
        if !cc.revealed {
            let ghost prev = *self;
            self.cells[ci] = Cell { is_mine: cc.is_mine, revealed: true, adjacent: cc.adjacent };
            proof {
                lemma_count_update(
                    prev.cells@,
                    |c2: Cell| c2.is_mine,
                    ci as int,
                    self.cells@[ci as int],
                );
                lemma_count_update(
                    prev.cells@,
                    |c2: Cell| c2.is_mine && c2.revealed,
                    ci as int,
                    self.cells@[ci as int],
                );
                lemma_hidden_update(prev.cells@, ci as int, self.cells@[ci as int]);
                lemma_hidden_bounds(self.cells@);
                self.lemma_point_update(prev, cx as int, cy as int);
                assert forall|k: int| 0 <= k < out@.len() implies !((#[trigger] out@[k]).0 == cx
                    && out@[k].1 == cy) by {
                    assert(prev.revealed_at(out@[k].0 as int, out@[k].1 as int));
                }
            }
            let ghost out_entry = out@;
            out.push((cx, cy));
            proof {
                assert(!entry.revealed_at(cx as int, cy as int));
                assert(!pre.revealed_at(cx as int, cy as int));
                assert(out@[out_entry.len() as int] == (cx, cy));
                assert forall|k: int|
                    0 <= k < out@.len() implies self.revealed_at(
                    (#[trigger] out@[k]).0 as int,
                    out@[k].1 as int,
                ) && !pre.revealed_at(out@[k].0 as int, out@[k].1 as int) by {
                    if k < out_entry.len() {
                        assert(out@[k] == out_entry[k]);
                        assert(entry.revealed_at(out_entry[k].0 as int, out_entry[k].1 as int));
                        assert(self.revealed_at(out@[k].0 as int, out@[k].1 as int));
                    }
                }
                assert forall|i: int, j: int|
                    #[trigger] self.revealed_at(i, j) && !pre.revealed_at(i, j) implies
                    out@.contains((i as usize, j as usize)) by {
                    if i == cx as int && j == cy as int {
                        assert((i as usize, j as usize) == (cx, cy));
                        assert(out@.contains((cx, cy)));
                    } else {
                        assert(entry.revealed_at(i, j));
                        assert(out_entry.contains((i as usize, j as usize)));
                        let k0 = choose|k0: int|
                            0 <= k0 < out_entry.len() && out_entry[k0] == (
                            i as usize,
                            j as usize,
                            );
                        assert(out@[k0] == out_entry[k0]);
                    }
                }
            }
            if cc.adjacent == 0 {
                proof {
                    assert(!entry.revealed_at(cx as int, cy as int));
                    assert(!pre.revealed_at(cx as int, cy as int));
                    assert(entry.unrevealed_zero(cx as int, cy as int));
                    assert(pre.unrevealed_zero(cx as int, cy as int));
                }
                self.expand_neighbors(work, cx, cy, x, y, Ghost(pre));
                proof {
                    assert forall|i: int, j: int, ni: int, nj: int|
                        self.revealed_at(i, j) && !pre.revealed_at(i, j) && self.count_at(
                            i,
                            j,
                        ) == 0 && #[trigger] self.adj(i, j, ni, nj) implies (self.revealed_at(
                        ni,
                        nj,
                    ) || work@.contains((ni as usize, nj as usize))) by {
                        if i == cx as int && j == cy as int {
                        } else {
                            assert(entry.revealed_at(i, j));
                            assert(entry.adj(i, j, ni, nj));
                            if entry.revealed_at(ni, nj) {
                                assert(self.revealed_at(ni, nj));
                            } else {
                                let p = (ni as usize, nj as usize);
                                assert(work_entry.contains(p));
                                let k0 = choose|k0: int|
                                    0 <= k0 < work_entry.len() && work_entry[k0] == p;
                                if k0 == work_entry.len() - 1 {
                                    assert(ni == cx as int && nj == cy as int);
                                    assert(self.revealed_at(ni, nj));
                                } else {
                                    assert(work_popped[k0] == p);
                                    assert(work_popped.contains(p));
                                }
                            }
                        }
                    }
                }
            } else {
                proof {
                    assert(self.count_at(cx as int, cy as int) != 0);
                    assert forall|i: int, j: int, ni: int, nj: int|
                        self.revealed_at(i, j) && !pre.revealed_at(i, j) && self.count_at(
                            i,
                            j,
                        ) == 0 && #[trigger] self.adj(i, j, ni, nj) implies (self.revealed_at(
                        ni,
                        nj,
                    ) || work@.contains((ni as usize, nj as usize))) by {
                        if i == cx as int && j == cy as int {
                        } else {
                            assert(entry.revealed_at(i, j));
                            assert(entry.adj(i, j, ni, nj));
                            if entry.revealed_at(ni, nj) {
                                assert(self.revealed_at(ni, nj));
                            } else {
                                let p = (ni as usize, nj as usize);
                                assert(work_entry.contains(p));
                                let k0 = choose|k0: int|
                                    0 <= k0 < work_entry.len() && work_entry[k0] == p;
                                if k0 == work_entry.len() - 1 {
                                    assert(ni == cx as int && nj == cy as int);
                                    assert(self.revealed_at(ni, nj));
                                } else {
                                    assert(work@[k0] == p);
                                    assert(work@.contains(p));
                                }
                            }
                        }
                    }
                }
            }
        } else {
            proof {
                assert(self.revealed_at(cx as int, cy as int));
                assert forall|i: int, j: int, ni: int, nj: int|
                    self.revealed_at(i, j) && !pre.revealed_at(i, j) && self.count_at(
                        i,
                        j,
                    ) == 0 && #[trigger] self.adj(i, j, ni, nj) implies (self.revealed_at(
                    ni,
                    nj,
                ) || work@.contains((ni as usize, nj as usize))) by {
                    if entry.revealed_at(ni, nj) {
                    } else {
                        let p = (ni as usize, nj as usize);
                        assert(work_entry.contains(p));
                        let k0 = choose|k0: int|
                            0 <= k0 < work_entry.len() && work_entry[k0] == p;
                        if k0 == work_entry.len() - 1 {
                            assert(ni == cx as int && nj == cy as int);
                            assert(self.revealed_at(ni, nj));
                        } else {
                            assert(work@[k0] == p);
                            assert(work@.contains(p));
                        }
                    }
                }
            }
        }
    }

    /// Reveals the cell at `(x, y)`. An already-revealed cell is a no-op; a
    /// mine bumps the triggered-mine counter; a zero-count non-mine cell
    /// flood fills its region, revealing exactly the cells reachable through
    /// chains of unrevealed zero-count cells and never a mine.
    #[verifier::rlimit(100)]
    pub fn reveal_cell(&mut self, x: usize, y: usize) -> (r: Result<RevealOutcome, BoardError>)
        requires
            old(self).wf(),
        ensures
            final(self).wf(),
            final(self).width_spec() == old(self).width_spec(),
            final(self).height_spec() == old(self).height_spec(),
            forall|i: int, j: int| final(self).mine_at(i, j) == old(self).mine_at(i, j),
            forall|i: int, j: int| final(self).count_at(i, j) == old(self).count_at(i, j),
            final(self).mine_total() == old(self).mine_total(),
            forall|i: int, j: int| old(self).revealed_at(i, j) ==> final(self).revealed_at(i, j),
            match r {
                Err(e) => {
                    &&& e == BoardError::OutOfBounds
                    &&& !old(self).in_bounds(x as int, y as int)
                    &&& forall|i: int, j: int|
                        final(self).revealed_at(i, j) == old(self).revealed_at(i, j)
                    &&& final(self).triggered_spec() == old(self).triggered_spec()
                },
                Ok(RevealOutcome::AlreadyRevealed) => {
                    &&& old(self).revealed_at(x as int, y as int)
                    &&& forall|i: int, j: int|
                        final(self).revealed_at(i, j) == old(self).revealed_at(i, j)
                    &&& final(self).triggered_spec() == old(self).triggered_spec()
                },
                Ok(RevealOutcome::MineTriggered) => {
                    &&& old(self).in_bounds(x as int, y as int)
                    &&& !old(self).revealed_at(x as int, y as int)
                    &&& old(self).mine_at(x as int, y as int)
                    &&& forall|i: int, j: int|
                        final(self).revealed_at(i, j) == (old(self).revealed_at(i, j) || (i
                            == x as int && j == y as int))
                    &&& final(self).triggered_spec() == old(self).triggered_spec() + 1
                },
                Ok(RevealOutcome::Revealed) => {
                    &&& old(self).in_bounds(x as int, y as int)
                    &&& !old(self).revealed_at(x as int, y as int)
                    &&& !old(self).mine_at(x as int, y as int)
                    &&& old(self).count_at(x as int, y as int) > 0
                    &&& forall|i: int, j: int|
                        final(self).revealed_at(i, j) == (old(self).revealed_at(i, j) || (i
                            == x as int && j == y as int))
                    &&& final(self).triggered_spec() == old(self).triggered_spec()
                },
                Ok(RevealOutcome::Expanded { revealed_cells }) => {
                    &&& old(self).unrevealed_zero(x as int, y as int)
                    &&& final(self).triggered_spec() == old(self).triggered_spec()
                    &&& forall|i: int, j: int|
                        final(self).revealed_at(i, j) <==> (old(self).revealed_at(i, j) || old(
                            self,
                        ).reaches(x as int, y as int, i, j))
                    &&& forall|i: int, j: int|
                        final(self).revealed_at(i, j) && !old(self).revealed_at(i, j) && !(i
                            == x as int && j == y as int) ==> !old(self).mine_at(i, j)
                    &&& revealed_cells@.no_duplicates()
                    &&& forall|k: int|
                        0 <= k < revealed_cells@.len() ==> final(self).revealed_at(
                            (#[trigger] revealed_cells@[k]).0 as int,
                            revealed_cells@[k].1 as int,
                        ) && !old(self).revealed_at(
                            revealed_cells@[k].0 as int,
                            revealed_cells@[k].1 as int,
                        )
                    &&& forall|i: int, j: int|
                        final(self).revealed_at(i, j) && !old(self).revealed_at(i, j)
                            ==> revealed_cells@.contains((i as usize, j as usize))
                },
            },
    {
        let w = self.width;
        let h = self.height;
        if x >= w || y >= h {
            return Err(BoardError::OutOfBounds);
        }
        proof {
            lemma_idx_bounds(w as int, h as int, x as int, y as int);
        }
        let i0 = y * w + x;
        let c0 = self.cells[i0];
        if c0.revealed {
            return Ok(RevealOutcome::AlreadyRevealed);
        }
        if c0.is_mine {
            let ghost prev = *self;
            self.cells[i0] = Cell { is_mine: true, revealed: true, adjacent: c0.adjacent };
            proof {
                lemma_count_update(
                    prev.cells@,
                    |cc: Cell| cc.is_mine,
                    i0 as int,
                    self.cells@[i0 as int],
                );
                lemma_count_update(
                    prev.cells@,
                    |cc: Cell| cc.is_mine && cc.revealed,
                    i0 as int,
                    self.cells@[i0 as int],
                );
                lemma_count_bounds(self.cells@, |cc: Cell| cc.is_mine && cc.revealed);
            }
            self.triggered = self.triggered + 1;
            proof {
                self.lemma_point_update(prev, x as int, y as int);
                assert forall|i: int, j: int, ni: int, nj: int|
                    self.revealed_at(i, j) && !self.mine_at(i, j) && self.count_at(i, j) == 0
                        && #[trigger] self.adj(i, j, ni, nj) implies self.revealed_at(ni, nj) by {
                    assert(old(self).adj(i, j, ni, nj));
                    if !(i == x as int && j == y as int) {
                        assert(old(self).revealed_at(i, j));
                        assert(old(self).revealed_at(ni, nj));
                        assert(self.revealed_at(ni, nj));
                    } else {
                        assert(self.mine_at(i, j));
                    }
                }
            }
            return Ok(RevealOutcome::MineTriggered);
        }
        if c0.adjacent > 0 {
            let ghost prev = *self;
            self.cells[i0] = Cell { is_mine: false, revealed: true, adjacent: c0.adjacent };
            proof {
                lemma_count_update(
                    prev.cells@,
                    |cc: Cell| cc.is_mine,
                    i0 as int,
                    self.cells@[i0 as int],
                );
                lemma_count_update(
                    prev.cells@,
                    |cc: Cell| cc.is_mine && cc.revealed,
                    i0 as int,
                    self.cells@[i0 as int],
                );
                self.lemma_point_update(prev, x as int, y as int);
                assert forall|i: int, j: int, ni: int, nj: int|
                    self.revealed_at(i, j) && !self.mine_at(i, j) && self.count_at(i, j) == 0
                        && #[trigger] self.adj(i, j, ni, nj) implies self.revealed_at(ni, nj) by {
                    assert(old(self).adj(i, j, ni, nj));
                    if !(i == x as int && j == y as int) {
                        assert(old(self).revealed_at(i, j));
                        assert(old(self).revealed_at(ni, nj));
                        assert(self.revealed_at(ni, nj));
                    } else {
                        assert(self.count_at(i, j) == c0.adjacent as int);
                    }
                }
            }
            return Ok(RevealOutcome::Revealed);
        }
        let ghost pre0 = *self;
        let mut work: Vec<(usize, usize)> = Vec::new();
        work.push((x, y));
        let mut out: Vec<(usize, usize)> = Vec::new();
        proof {
            old(self).lemma_reach_here(x as int, y as int);
            lemma_hidden_bounds(self.cells@);
            assert(work@[0] == (x, y));
        }
        while work.len() > 0
            invariant
                pre0 == *old(self),
                0 <= hidden_count(self.cells@),
                w == self.width,
                h == self.height,
                x < w,
                y < h,
                old(self).wf(),
                old(self).unrevealed_zero(x as int, y as int),
                self.rep_inv(),
                self.width == old(self).width,
                self.height == old(self).height,
                self.triggered == old(self).triggered,
                self.mine_total() == old(self).mine_total(),
                forall|i: int, j: int| self.mine_at(i, j) == old(self).mine_at(i, j),
                forall|i: int, j: int| self.count_at(i, j) == old(self).count_at(i, j),
                forall|i: int, j: int|
                    old(self).revealed_at(i, j) ==> #[trigger] self.revealed_at(i, j),
                forall|k: int|
                    0 <= k < work@.len() ==> {
                        &&& (#[trigger] work@[k]).0 < w
                        &&& work@[k].1 < h
                        &&& old(self).reaches(x as int, y as int, work@[k].0 as int, work@[k].1 as int)
                        &&& !old(self).mine_at(work@[k].0 as int, work@[k].1 as int)
                    },
                self.revealed_at(x as int, y as int) || work@.contains((x, y)),
                forall|i: int, j: int|
                    #[trigger] self.revealed_at(i, j) && !old(self).revealed_at(i, j) ==> old(
                        self,
                    ).reaches(x as int, y as int, i, j),
                forall|i: int, j: int, ni: int, nj: int|
                    self.revealed_at(i, j) && !old(self).revealed_at(i, j) && self.count_at(i, j)
                        == 0 && #[trigger] self.adj(i, j, ni, nj) ==> self.revealed_at(ni, nj)
                        || work@.contains((ni as usize, nj as usize)),
                out@.no_duplicates(),
                forall|k: int|
                    0 <= k < out@.len() ==> self.revealed_at(
                        (#[trigger] out@[k]).0 as int,
                        out@[k].1 as int,
                    ) && !old(self).revealed_at(out@[k].0 as int, out@[k].1 as int),
                forall|i: int, j: int|
                    #[trigger] self.revealed_at(i, j) && !old(self).revealed_at(i, j)
                        ==> out@.contains((i as usize, j as usize)),
            decreases hidden_count(self.cells@) * 9 + work@.len(),
        {
            self.flood_step(&mut work, &mut out, x, y, Ghost(pre0));
        }
        proof {
            assert(self.revealed_at(x as int, y as int));
            assert(self.zero_closure()) by {
                assert forall|i: int, j: int, ni: int, nj: int|
                    self.revealed_at(i, j) && !self.mine_at(i, j) && self.count_at(i, j) == 0
                        && #[trigger] self.adj(i, j, ni, nj) implies self.revealed_at(ni, nj) by {
                    if old(self).revealed_at(i, j) {
                        assert(old(self).adj(i, j, ni, nj));
                        assert(old(self).revealed_at(ni, nj));
                    }
                }
            }
            assert forall|i: int, j: int|
                old(self).reaches(x as int, y as int, i, j) implies #[trigger] self.revealed_at(
                i,
                j,
            ) by {
                let k = choose|k: nat| old(self).reach_in(x as int, y as int, i, j, k);
                Self::lemma_reach_revealed(*old(self), *self, x as int, y as int, i, j, k);
            }
            assert forall|i: int, j: int|
                #[trigger] self.revealed_at(i, j) && !old(self).revealed_at(i, j) && !(i == x as int
                    && j == y as int) implies !old(self).mine_at(i, j) by {
                old(self).lemma_reach_not_mine(x as int, y as int, i, j);
            }
        }
        Ok(RevealOutcome::Expanded { revealed_cells: out })
    }

    /// After updating the cell at `(x, y)` in place (same mine flag, same
    /// count), every point query away from `(x, y)` reads what it read
    /// before, and `(x, y)` keeps its mine flag and count.
    proof fn lemma_point_update(self, prev: BoardEngine, x: int, y: int)
        requires
            prev.rep_inv(),
            prev.in_bounds(x, y),
            self.width == prev.width,
            self.height == prev.height,
            self.cells@ == prev.cells@.update(
                y * prev.width + x,
                Cell {
                    is_mine: prev.cells@[y * prev.width + x].is_mine,
                    revealed: self.cells@[y * prev.width + x].revealed,
                    adjacent: prev.cells@[y * prev.width + x].adjacent,
                },
            ),
        ensures
            forall|i: int, j: int| self.mine_at(i, j) == prev.mine_at(i, j),
            forall|i: int, j: int| self.count_at(i, j) == prev.count_at(i, j),
            forall|i: int, j: int|
                !(i == x && j == y) ==> #[trigger] self.revealed_at(i, j) == prev.revealed_at(i, j),
            self.revealed_at(x, y) == self.cells@[y * prev.width + x].revealed,
            self.counts_ok() == prev.counts_ok(),
    {
        let w = self.width as int;
        let h = self.height as int;
        lemma_idx_bounds(w, h, x, y);
        assert forall|i: int, j: int|
            self.mine_at(i, j) == prev.mine_at(i, j) && self.count_at(i, j) == prev.count_at(i, j)
                && (!(i == x && j == y) ==> self.revealed_at(i, j) == prev.revealed_at(i, j)) by {
            if self.in_bounds(i, j) {
                lemma_idx_bounds(w, h, i, j);
                if j * w + i == y * w + x {
                    lemma_idx_inj(w, h, i, j, x, y);
                }
            }
        }
        assert forall|i: int, j: int|
            self.in_bounds(i, j) implies #[trigger] self.neighbor_mines(i, j) == prev.neighbor_mines(
            i,
            j,
        ) by {}
    }
}

} // verus!
