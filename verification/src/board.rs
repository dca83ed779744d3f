//! The rectangular board: a grid of marked cells plus per-cell constraint
//! counts, with tile fitting, placement, and successor generation.

use vstd::prelude::*;
use crate::tile::{copy_tile, has_single_tile, lemma_opposite_delta, tile_views, Direction, Tile, TileCollection};

verus! {

/// A cell address as a (row, column) pair; it may lie outside the board
/// until validated.
#[derive(Copy, Clone, Debug, PartialEq, Eq, Structural, Hash)]
pub struct Position {
    pub x: isize,
    pub y: isize,
}

impl Position {
    pub fn new(x: isize, y: isize) -> (r: Position)
        ensures
            r.x == x,
            r.y == y,
    {
        Position { x, y }
    }

    /// The mathematical (row, column) pair of this position.
    pub open spec fn as_pair(self) -> (int, int) {
        (self.x as int, self.y as int)
    }
}

/// The set of (row, column) pairs named by a sequence of positions.
pub open spec fn pos_set(s: Seq<Position>) -> Set<(int, int)> {
    Set::new(|pc: (int, int)| exists|m: int| 0 <= m < s.len() && pc == (#[trigger] s[m]).as_pair())
}

/// The mathematical content of a board: dimensions, the marked grid, and
/// the constraint-count grid.
#[verifier::ext_equal]
pub ghost struct BoardView {
    pub width: int,
    pub height: int,
    pub grid: Seq<Seq<bool>>,
    pub counts: Seq<Seq<int>>,
}

impl BoardView {
    pub open spec fn dims_ok(self) -> bool {
        &&& 1 <= self.width <= 0x1000_0000
        &&& 1 <= self.height <= 0x1000_0000
        &&& self.grid.len() == self.height
        &&& forall|i: int| 0 <= i < self.height ==> (#[trigger] self.grid[i]).len() == self.width
        &&& self.counts.len() == self.height
        &&& forall|i: int| 0 <= i < self.height ==> (#[trigger] self.counts[i]).len() == self.width
    }

    /// Whether (i, j) lies on the board.
    pub open spec fn valid(self, i: int, j: int) -> bool {
        0 <= i < self.height && 0 <= j < self.width
    }

    pub open spec fn marked(self, i: int, j: int) -> bool {
        self.grid[i][j]
    }

    /// On the board and not yet marked.
    pub open spec fn avail(self, i: int, j: int) -> bool {
        self.valid(i, j) && !self.marked(i, j)
    }

    /// The seed constraint count: 1 on the border, 0 inside.
    pub open spec fn seed(self, i: int, j: int) -> int {
        if i == 0 || i == self.height - 1 || j == 0 || j == self.width - 1 {
            1
        } else {
            0
        }
    }

    /// How many of the four cardinal neighbors of (i, j) are marked cells
    /// of the board.
    pub open spec fn marked_nbrs(self, i: int, j: int) -> int {
        (if self.valid(i - 1, j) && self.marked(i - 1, j) {
            1int
        } else {
            0int
        }) + (if self.valid(i + 1, j) && self.marked(i + 1, j) {
            1int
        } else {
            0int
        }) + (if self.valid(i, j - 1) && self.marked(i, j - 1) {
            1int
        } else {
            0int
        }) + (if self.valid(i, j + 1) && self.marked(i, j + 1) {
            1int
        } else {
            0int
        })
    }

    /// Every constraint count is bracketed by its seed and by the seed
    /// plus the marked cardinal neighbors. Template pre-fills raise the
    /// right-hand side without touching the counts, so only this bound —
    /// not an equality — is invariant.
    pub open spec fn counts_ok(self) -> bool {
        forall|i: int, j: int|
            self.valid(i, j) ==> 0 <= #[trigger] self.counts[i][j] <= self.seed(i, j)
                + self.marked_nbrs(i, j)
    }

    pub open spec fn wf(self) -> bool {
        self.dims_ok() && self.counts_ok()
    }

    pub open spec fn all_marked(self) -> bool {
        forall|i: int, j: int| self.valid(i, j) ==> #[trigger] self.marked(i, j)
    }
}

/// 1 when the set holds the pair, else 0.
pub open spec fn set_ind(s: Set<(int, int)>, i: int, j: int) -> int {
    if s.contains((i, j)) {
        1
    } else {
        0
    }
}

/// The board after marking every cell of `s`: those cells become marked,
/// and each cell's count grows by its number of cardinal neighbors in `s`.
pub open spec fn spec_mark_set(b: BoardView, s: Set<(int, int)>) -> BoardView {
    BoardView {
        width: b.width,
        height: b.height,
        grid: Seq::new(
            b.height as nat,
            |i: int|
                Seq::new(b.width as nat, |j: int| b.grid[i][j] || s.contains((i, j))),
        ),
        counts: Seq::new(
            b.height as nat,
            |i: int|
                Seq::new(
                    b.width as nat,
                    |j: int|
                        b.counts[i][j] + set_ind(s, i - 1, j) + set_ind(s, i + 1, j) + set_ind(
                            s,
                            i,
                            j - 1,
                        ) + set_ind(s, i, j + 1),
                ),
        ),
    }
}

/// The board after marking the single cell (i, j).
pub open spec fn spec_mark(b: BoardView, i: int, j: int) -> BoardView {
    spec_mark_set(b, Set::empty().insert((i, j)))
}

/// A `width x height` grid of marked/unmarked cells with a same-shaped
/// grid of constraint counts. Equality is by the marked grid alone.
#[derive(Clone, Debug, Eq, Hash)]
pub struct RectangularBoard {
    pub width: usize,
    pub height: usize,
    pub board: Vec<Vec<bool>>,
    pub counts: Vec<Vec<usize>>,
}

impl View for RectangularBoard {
    type V = BoardView;

    open spec fn view(&self) -> BoardView {
        BoardView {
            width: self.width as int,
            height: self.height as int,
            grid: self.board@.map_values(|r: Vec<bool>| r@),
            counts: self.counts@.map_values(|r: Vec<usize>| r@.map_values(|x: usize| x as int)),
        }
    }
}

impl PartialEq for RectangularBoard {
    /// Boards are compared purely by the marked grid; dimensions are
    /// run-invariant and the counts are derived, so both stay out of the
    /// identity used for state deduplication.
    fn eq(&self, other: &RectangularBoard) -> (r: bool) {
        let h = self.board.len();
        if h != other.board.len() {
            proof {
                assert(self@.grid.len() == self.board@.len());
                assert(other@.grid.len() == other.board@.len());
            }
            return false;
        }
        let mut i: usize = 0;
        while i < h
            invariant
                h == self.board.len(),
                h == other.board.len(),
                i <= h,
                forall|k: int| 0 <= k < i ==> (#[trigger] self.board@[k])@ == other.board@[k]@,
            decreases h - i,
        {
            let w = self.board[i].len();
            if w != other.board[i].len() {
                proof {
                    assert(self@.grid[i as int] == self.board@[i as int]@);
                    assert(other@.grid[i as int] == other.board@[i as int]@);
                }
                return false;
            }
            let mut j: usize = 0;
            while j < w
                invariant
                    h == self.board.len(),
                    h == other.board.len(),
                    i < h,
                    w == self.board[i as int]@.len(),
                    w == other.board[i as int]@.len(),
                    j <= w,
                    forall|k: int|
                        0 <= k < i ==> (#[trigger] self.board@[k])@ == other.board@[k]@,
                    forall|k: int|
                        0 <= k < j ==> self.board[i as int]@[k] == other.board[i as int]@[k],
                decreases w - j,
            {
                if self.board[i][j] != other.board[i][j] {
                    proof {
                        assert(self@.grid[i as int][j as int] == self.board@[i as int]@[j as int]);
                        assert(other@.grid[i as int][j as int] == other.board@[i as int]@[
                            j as int
                        ]);
                    }
                    return false;
                }
                j += 1;
            }
            proof {
                assert(self.board@[i as int]@ =~= other.board@[i as int]@);
            }
            i += 1;
        }
        proof {
            assert(self@.grid =~~= other@.grid);
        }
        true
    }
}

impl vstd::std_specs::cmp::PartialEqSpecImpl for RectangularBoard {
    open spec fn obeys_eq_spec() -> bool {
        true
    }

    open spec fn eq_spec(&self, other: &RectangularBoard) -> bool {
        self@.grid == other@.grid
    }
}

impl RectangularBoard {
    /// An all-unmarked board with the counts at their border seed.
    pub fn new(width: usize, height: usize) -> (r: RectangularBoard)
        requires
            1 <= width <= 0x1000_0000,
            1 <= height <= 0x1000_0000,
        ensures
            r@.wf(),
            r@.width == width,
            r@.height == height,
            forall|i: int, j: int| r@.valid(i, j) ==> !#[trigger] r@.marked(i, j),
            forall|i: int, j: int| r@.valid(i, j) ==> #[trigger] r@.counts[i][j] == r@.seed(i, j),
    {
        let mut board: Vec<Vec<bool>> = Vec::new();
        let mut counts: Vec<Vec<usize>> = Vec::new();
        let mut i: usize = 0;
        while i < height
            invariant
                width >= 1,
                height >= 1,
                i <= height,
                board@.len() == i,
                counts@.len() == i,
                forall|k: int| 0 <= k < i ==> (#[trigger] board@[k])@.len() == width,
                forall|k: int| 0 <= k < i ==> (#[trigger] counts@[k])@.len() == width,
                forall|k: int, l: int|
                    0 <= k < i && 0 <= l < width ==> (#[trigger] board@[k]@[l]) == false,
                forall|k: int, l: int|
                    0 <= k < i && 0 <= l < width ==> (#[trigger] counts@[k]@[l]) as int == (
                    if k == 0 || k == height - 1 || l == 0 || l == width - 1 {
                        1int
                    } else {
                        0int
                    }),
            decreases height - i,
        {
            let mut brow: Vec<bool> = Vec::new();
            let mut crow: Vec<usize> = Vec::new();
            let mut j: usize = 0;
            while j < width
                invariant
                    width >= 1,
                    height >= 1,
                    i < height,
                    j <= width,
                    brow@.len() == j,
                    crow@.len() == j,
                    forall|l: int| 0 <= l < j ==> (#[trigger] brow@[l]) == false,
                    forall|l: int|
                        0 <= l < j ==> (#[trigger] crow@[l]) as int == (
                        if i == 0 || i == height - 1 || l == 0 || l == width - 1 {
                            1int
                        } else {
                            0int
                        }),
                decreases width - j,
            {
                brow.push(false);
                if i == 0 || i == height - 1 || j == 0 || j == width - 1 {
                    crow.push(1);
                } else {
                    crow.push(0);
                }
                j += 1;
            }
            board.push(brow);
            counts.push(crow);
            i += 1;
        }
        let r = RectangularBoard { width, height, board, counts };
        proof {
            assert forall|i2: int, j2: int| r@.valid(i2, j2) implies #[trigger] r@.counts[i2][j2]
                == r@.seed(i2, j2) by {
                assert(r@.counts[i2] == counts@[i2]@.map_values(|x: usize| x as int));
            }
            assert(r@.counts_ok());
        }
        r
    }

    /// An L-shaped playable region: an `(n*scale) x (2*scale)` rectangle
    /// whose top-left `scale x (n-1)*scale` block is pre-filled. The
    /// pre-fill writes the grid directly and leaves the counts at their
    /// border seed.
    pub fn l_board(n: usize, scale: usize) -> (r: RectangularBoard)
        requires
            1 <= n,
            1 <= scale,
            n * scale <= 0x1000_0000,
            2 * scale <= 0x1000_0000,
        ensures
            r@.wf(),
            r@.width == n * scale,
            r@.height == 2 * scale,
            forall|i: int, j: int| r@.valid(i, j) ==> (#[trigger] r@.marked(i, j) <==> (i < scale
                && scale <= j)),
            forall|i: int, j: int| r@.valid(i, j) ==> #[trigger] r@.counts[i][j] == r@.seed(i, j),
    {
        assert(1 <= scale <= n * scale) by (nonlinear_arith)
            requires
                n >= 1,
                scale >= 1,
        ;
        let mut board = RectangularBoard::new(n * scale, 2 * scale);
        let ghost b0 = board@;
        let width = n * scale;
        let mut row: usize = 0;
        while row < scale
            invariant
                b0.wf(),
                scale >= 1,
                width == n * scale,
                b0.width == width,
                b0.height == 2 * scale,
                board.width == width,
                board.height == 2 * scale,
                scale <= width,
                row <= scale,
                board@.width == b0.width,
                board@.height == b0.height,
                board@.counts == b0.counts,
                board@.grid.len() == b0.grid.len(),
                forall|i: int| 0 <= i < b0.height ==> (#[trigger] board@.grid[i]).len()
                    == b0.width,
                forall|i: int, j: int| b0.valid(i, j) ==> (#[trigger] board@.marked(i, j) <==> (i
                    < row && scale <= j)),
            decreases scale - row,
        {
            let mut col: usize = scale;
            while col < width
                invariant
                    b0.wf(),
                    scale >= 1,
                    width == n * scale,
                    b0.width == width,
                    b0.height == 2 * scale,
                    board.width == width,
                    board.height == 2 * scale,
                    row < scale,
                    scale <= col <= width,
                    board@.width == b0.width,
                    board@.height == b0.height,
                    board@.counts == b0.counts,
                    board@.grid.len() == b0.grid.len(),
                    forall|i: int| 0 <= i < b0.height ==> (#[trigger] board@.grid[i]).len()
                        == b0.width,
                    forall|i: int, j: int| b0.valid(i, j) ==> (#[trigger] board@.marked(i, j)
                        <==> ((i < row && scale <= j) || (i == row && scale <= j < col))),
                decreases width - col,
            {
                let ghost gv = board@;
                let ghost prev = board.board@;
                proof {
                    assert(row < 2 * scale);
                    assert(gv.grid.len() == prev.len());
                    assert(gv.grid[row as int] == prev[row as int]@);
                    assert(prev.len() == b0.height);
                    assert(prev[row as int]@.len() == b0.width);
                }
                board.board[row][col] = true;
                proof {
                    assert forall|i2: int| 0 <= i2 < b0.height implies (#[trigger] board@.grid[
                        i2
                    ]).len() == b0.width by {
                        assert(board@.grid[i2] == board.board@[i2]@);
                        assert(gv.grid[i2] == prev[i2]@);
                        if i2 != row {
                            assert(board.board@[i2] == prev[i2]);
                        }
                    }
                    assert forall|i2: int, j2: int| b0.valid(i2, j2) implies (
                    #[trigger] board@.marked(i2, j2) <==> (gv.marked(i2, j2) || (i2 == row && j2
                        == col))) by {
                        assert(board@.grid[i2] == board.board@[i2]@);
                        assert(gv.grid[i2] == prev[i2]@);
                        if i2 != row {
                            assert(board.board@[i2] == prev[i2]);
                        }
                    }
                }
                col += 1;
            }
            row += 1;
        }
        proof {
            lemma_prefill_wf(b0, board@);
        }
        board
    }

    /// A T-shaped playable region: a `((2n+1)*scale) x (2*scale)`
    /// rectangle whose top-left and top-right `n*scale`-wide blocks of
    /// height `scale` are pre-filled, again without touching the counts.
    pub fn t_board(n: usize, scale: usize) -> (r: RectangularBoard)
        requires
            1 <= n,
            1 <= scale,
            (2 * n + 1) * scale <= 0x1000_0000,
            2 * scale <= 0x1000_0000,
        ensures
            r@.wf(),
            r@.width == (2 * n + 1) * scale,
            r@.height == 2 * scale,
            forall|i: int, j: int| r@.valid(i, j) ==> (#[trigger] r@.marked(i, j) <==> (i < scale
                && (j < n * scale || (n + 1) * scale <= j))),
            forall|i: int, j: int| r@.valid(i, j) ==> #[trigger] r@.counts[i][j] == r@.seed(i, j),
    {
        assert(2 * n + 1 <= (2 * n + 1) * scale && (n + 1) * scale <= (2 * n + 1) * scale
            && 1 <= n * scale && n * scale + scale == (n + 1) * scale) by (nonlinear_arith)
            requires
                n >= 1,
                scale >= 1,
        ;
        let width = (2 * n + 1) * scale;
        let mut board = RectangularBoard::new(width, 2 * scale);
        let ghost b0 = board@;
        let lo = n * scale;
        let hi = (n + 1) * scale;
        let mut row: usize = 0;
        while row < scale
            invariant
                b0.wf(),
                scale >= 1,
                lo == n * scale,
                hi == (n + 1) * scale,
                1 <= lo < hi <= width,
                b0.width == width,
                b0.height == 2 * scale,
                board.width == width,
                board.height == 2 * scale,
                scale <= width,
                row <= scale,
                board@.width == b0.width,
                board@.height == b0.height,
                board@.counts == b0.counts,
                board@.grid.len() == b0.grid.len(),
                forall|i: int| 0 <= i < b0.height ==> (#[trigger] board@.grid[i]).len()
                    == b0.width,
                forall|i: int, j: int| b0.valid(i, j) ==> (#[trigger] board@.marked(i, j) <==> (i
                    < row && (j < lo || hi <= j))),
            decreases scale - row,
        {
            let mut col: usize = 0;
            while col < lo
                invariant
                    b0.wf(),
                    1 <= lo < hi <= width,
                    b0.width == width,
                    b0.height == 2 * scale,
                    board.width == width,
                    board.height == 2 * scale,
                    row < scale,
                    scale >= 1,
                    col <= lo,
                    board@.width == b0.width,
                    board@.height == b0.height,
                    board@.counts == b0.counts,
                    board@.grid.len() == b0.grid.len(),
                    forall|i: int| 0 <= i < b0.height ==> (#[trigger] board@.grid[i]).len()
                        == b0.width,
                    forall|i: int, j: int| b0.valid(i, j) ==> (#[trigger] board@.marked(i, j)
                        <==> ((i < row && (j < lo || hi <= j)) || (i == row && j < col))),
                decreases lo - col,
            {
                let ghost gv = board@;
                let ghost prev = board.board@;
                proof {
                    assert(row < 2 * scale);
                    assert(gv.grid.len() == prev.len());
                    assert(gv.grid[row as int] == prev[row as int]@);
                    assert(prev.len() == b0.height);
                    assert(prev[row as int]@.len() == b0.width);
                }
                board.board[row][col] = true;
                proof {
                    assert forall|i2: int| 0 <= i2 < b0.height implies (#[trigger] board@.grid[
                        i2
                    ]).len() == b0.width by {
                        assert(board@.grid[i2] == board.board@[i2]@);
                        assert(gv.grid[i2] == prev[i2]@);
                        if i2 != row {
                            assert(board.board@[i2] == prev[i2]);
                        }
                    }
                    assert forall|i2: int, j2: int| b0.valid(i2, j2) implies (
                    #[trigger] board@.marked(i2, j2) <==> (gv.marked(i2, j2) || (i2 == row && j2
                        == col))) by {
                        assert(board@.grid[i2] == board.board@[i2]@);
                        assert(gv.grid[i2] == prev[i2]@);
                        if i2 != row {
                            assert(board.board@[i2] == prev[i2]);
                        }
                    }
                }
                col += 1;
            }
            let mut col2: usize = hi;
            while col2 < width
                invariant
                    b0.wf(),
                    1 <= lo < hi <= width,
                    b0.width == width,
                    b0.height == 2 * scale,
                    board.width == width,
                    board.height == 2 * scale,
                    row < scale,
                    scale >= 1,
                    hi <= col2 <= width,
                    board@.width == b0.width,
                    board@.height == b0.height,
                    board@.counts == b0.counts,
                    board@.grid.len() == b0.grid.len(),
                    forall|i: int| 0 <= i < b0.height ==> (#[trigger] board@.grid[i]).len()
                        == b0.width,
                    forall|i: int, j: int| b0.valid(i, j) ==> (#[trigger] board@.marked(i, j)
                        <==> ((i < row && (j < lo || hi <= j)) || (i == row && j < lo) || (i
                        == row && hi <= j < col2))),
                decreases width - col2,
            {
                let ghost gv = board@;
                let ghost prev = board.board@;
                proof {
                    assert(row < 2 * scale);
                    assert(gv.grid.len() == prev.len());
                    assert(gv.grid[row as int] == prev[row as int]@);
                    assert(prev.len() == b0.height);
                    assert(prev[row as int]@.len() == b0.width);
                }
                board.board[row][col2] = true;
                proof {
                    assert forall|i2: int| 0 <= i2 < b0.height implies (#[trigger] board@.grid[
                        i2
                    ]).len() == b0.width by {
                        assert(board@.grid[i2] == board.board@[i2]@);
                        assert(gv.grid[i2] == prev[i2]@);
                        if i2 != row {
                            assert(board.board@[i2] == prev[i2]);
                        }
                    }
                    assert forall|i2: int, j2: int| b0.valid(i2, j2) implies (
                    #[trigger] board@.marked(i2, j2) <==> (gv.marked(i2, j2) || (i2 == row && j2
                        == col2))) by {
                        assert(board@.grid[i2] == board.board@[i2]@);
                        assert(gv.grid[i2] == prev[i2]@);
                        if i2 != row {
                            assert(board.board@[i2] == prev[i2]);
                        }
                    }
                }
                col2 += 1;
            }
            row += 1;
        }
        proof {
            lemma_prefill_wf(b0, board@);
        }
        board
    }

    /// Whether every cell of the board is marked.
    pub fn is_all_marked(&self) -> (r: bool)
        requires
            self@.dims_ok(),
        ensures
            r == self@.all_marked(),
    {
        let h = self.board.len();
        let mut i: usize = 0;
        while i < h
            invariant
                self@.dims_ok(),
                h == self.board.len(),
                i <= h,
                forall|k: int, l: int|
                    0 <= k < i && 0 <= l < self@.width ==> #[trigger] self@.marked(k, l),
            decreases h - i,
        {
            let w = self.board[i].len();
            let mut j: usize = 0;
            while j < w
                invariant
                    self@.dims_ok(),
                    h == self.board.len(),
                    i < h,
                    w == self.board[i as int]@.len(),
                    j <= w,
                    forall|k: int, l: int|
                        0 <= k < i && 0 <= l < self@.width ==> #[trigger] self@.marked(k, l),
                    forall|l: int| 0 <= l < j ==> #[trigger] self@.marked(i as int, l),
                decreases w - j,
            {
                if !self.board[i][j] {
                    proof {
                        assert(!self@.marked(i as int, j as int));
                    }
                    return false;
                }
                j += 1;
            }
            i += 1;
        }
        true
    }

    /// Whether the position lies on the board.
    fn is_valid(&self, p: Position) -> (r: bool)
        ensures
            r == self@.valid(p.x as int, p.y as int),
    {
        p.x >= 0 && (p.x as usize) < self.height && p.y >= 0 && (p.y as usize) < self.width
    }

    /// Whether the (on-board) position is marked.
    fn is_marked(&self, p: Position) -> (r: bool)
        requires
            self@.dims_ok(),
            self@.valid(p.x as int, p.y as int),
        ensures
            r == self@.marked(p.x as int, p.y as int),
    {
        proof {
            assert(self.board@.len() == self@.grid.len());
            assert(self@.grid[p.x as int] == self.board@[p.x as int]@);
        }
        self.board[p.x as usize][p.y as usize]
    }

    /// One step from `p` in the given direction.
    fn move_in_direction(&self, p: Position, direction: Direction) -> (r: Position)
        requires
            -0x1000_0002 <= p.x <= 0x1000_0002,
            -0x1000_0002 <= p.y <= 0x1000_0002,
        ensures
            r.x == p.x + direction.drow(),
            r.y == p.y + direction.dcol(),
    {
        let mut row = p.x;
        let mut col = p.y;

        col += match direction {
            Direction::Left => -1,
            Direction::Right => 1,
            Direction::UpLeft => -1,
            Direction::UpRight => 1,
            Direction::DownLeft => -1,
            Direction::DownRight => 1,
            _ => 0,
        };
        row += match direction {
            Direction::Up => -1,
            Direction::Down => 1,
            Direction::UpLeft => -1,
            Direction::UpRight => -1,
            Direction::DownLeft => 1,
            Direction::DownRight => 1,
            _ => 0,
        };

        Position::new(row, col)
    }

    /// Marks one available cell and bumps the counts of its in-bounds
    /// cardinal neighbors.
    #[verifier::rlimit(80)]
    fn mark(&mut self, p: Position)
        requires
            old(self)@.wf(),
            old(self)@.avail(p.x as int, p.y as int),
        ensures
            final(self)@ == spec_mark(old(self)@, p.x as int, p.y as int),
            final(self)@.wf(),
            final(self).width == old(self).width,
            final(self).height == old(self).height,
    {
        let ghost b0 = self@;
        let ghost s = Set::<(int, int)>::empty().insert((p.x as int, p.y as int));
        let x = p.x as usize;
        let y = p.y as usize;
        proof {
            assert(self.counts@.len() == b0.height);
            assert forall|i: int| 0 <= i < b0.height implies (#[trigger] self.counts@[i])@.len()
                == b0.width by {
                assert(b0.counts[i] == self.counts@[i]@.map_values(|v: usize| v as int));
            }
            assert forall|i: int, j: int| b0.valid(i, j) implies (#[trigger] self.counts@[i]@[j])
                as int == b0.counts[i][j] by {
                assert(b0.counts[i] == self.counts@[i]@.map_values(|v: usize| v as int));
            }
        }
        if x >= 1 {
            bump(&mut self.counts, x - 1, y);
        }
        if x + 1 < self.height {
            bump(&mut self.counts, x + 1, y);
        }
        if y >= 1 {
            bump(&mut self.counts, x, y - 1);
        }
        if y + 1 < self.width {
            bump(&mut self.counts, x, y + 1);
        }
        let ghost pb = self.board@;
        proof {
            assert(b0.grid.len() == pb.len());
            assert forall|i: int| 0 <= i < b0.height implies b0.grid[i] == pb[i]@
                && (#[trigger] pb[i])@.len() == b0.width by {
                assert(b0.grid[i] == pb[i]@);
            }
        }
        self.board[x][y] = true;
        proof {
            let xi = p.x as int;
            let yi = p.y as int;
            let m = spec_mark(b0, xi, yi);
            assert(self@.grid.len() == m.grid.len());
            assert(self@.counts.len() == m.counts.len());
            assert forall|i: int| 0 <= i < b0.height implies self@.grid[i] =~= m.grid[i]
                && self@.counts[i] =~= m.counts[i] by {
                assert(self@.grid[i] == self.board@[i]@);
                assert(self@.counts[i] == self.counts@[i]@.map_values(|v: usize| v as int));
                if i != x as int {
                    assert(self.board@[i] == pb[i]);
                }
                assert(self@.grid[i].len() == b0.width);
                assert(self@.counts[i].len() == b0.width);
                assert forall|j: int| 0 <= j < b0.width implies self@.grid[i][j] == m.grid[i][j]
                    && self@.counts[i][j] == m.counts[i][j] by {
                    assert(s.contains((i, j)) <==> (i == xi && j == yi));
                    assert(s.contains((i - 1, j)) <==> (i - 1 == xi && j == yi));
                    assert(s.contains((i + 1, j)) <==> (i + 1 == xi && j == yi));
                    assert(s.contains((i, j - 1)) <==> (i == xi && j - 1 == yi));
                    assert(s.contains((i, j + 1)) <==> (i == xi && j + 1 == yi));
                    assert(self@.counts[i][j] == self.counts@[i]@.map_values(
                        |v: usize| v as int,
                    )[j]);
                }
            }
            assert(self@.grid =~~= m.grid);
            assert(self@.counts =~~= m.counts);
            assert(self@ =~= m);
            lemma_mark_avail_wf(b0, xi, yi);
        }
    }
}

/// Adds one to a single count cell, keeping every other cell as it was.
fn bump(counts: &mut Vec<Vec<usize>>, i: usize, j: usize)
    requires
        i < old(counts)@.len(),
        j < old(counts)@[i as int]@.len(),
        old(counts)@[i as int]@[j as int] < 100,
    ensures
        final(counts)@.len() == old(counts)@.len(),
        forall|k: int| 0 <= k < old(counts)@.len() && k != i ==> final(counts)@[k] == old(
            counts,
        )@[k],
        final(counts)@[i as int]@ == old(counts)@[i as int]@.update(
            j as int,
            (old(counts)@[i as int]@[j as int] + 1) as usize,
        ),
{
    let c = counts[i][j];
    counts[i][j] = c + 1;
}

/// Pre-filling cells without touching the counts preserves the count
/// bound: the marked-neighbor side only grows.
proof fn lemma_prefill_wf(b0: BoardView, b1: BoardView)
    requires
        b0.wf(),
        b1.width == b0.width,
        b1.height == b0.height,
        b1.counts == b0.counts,
        b1.grid.len() == b0.grid.len(),
        forall|i: int| 0 <= i < b0.height ==> (#[trigger] b1.grid[i]).len() == b0.width,
        forall|i: int, j: int| b0.valid(i, j) && b0.marked(i, j) ==> b1.marked(i, j),
    ensures
        b1.wf(),
{
    assert forall|i: int, j: int| b1.valid(i, j) implies 0 <= #[trigger] b1.counts[i][j]
        <= b1.seed(i, j) + b1.marked_nbrs(i, j) by {
        assert(b0.counts[i][j] <= b0.seed(i, j) + b0.marked_nbrs(i, j));
        assert(b0.marked_nbrs(i, j) <= b1.marked_nbrs(i, j));
    }
}

/// Marking one available cell preserves well-formedness: each neighbor's
/// count and its marked-neighbor tally rise in step.
proof fn lemma_mark_avail_wf(b: BoardView, i: int, j: int)
    requires
        b.wf(),
        b.avail(i, j),
    ensures
        spec_mark(b, i, j).wf(),
{
    let m = spec_mark(b, i, j);
    let s = Set::<(int, int)>::empty().insert((i, j));
    assert forall|r: int, c: int| m.valid(r, c) implies 0 <= #[trigger] m.counts[r][c] <= m.seed(
        r,
        c,
    ) + m.marked_nbrs(r, c) by {
        assert(b.counts[r][c] <= b.seed(r, c) + b.marked_nbrs(r, c));
        let delta = set_ind(s, r - 1, c) + set_ind(s, r + 1, c) + set_ind(s, r, c - 1) + set_ind(
            s,
            r,
            c + 1,
        );
        assert(m.counts[r][c] == b.counts[r][c] + delta);
        assert(m.marked_nbrs(r, c) >= b.marked_nbrs(r, c) + delta);
        assert(m.seed(r, c) == b.seed(r, c));
    }
}


/// Offset (in rows) of chain link `k` from link 0: the sum of the first
/// `k` step offsets.
pub open spec fn off_row(dirs: Seq<Direction>, k: int) -> int
    decreases k,
{
    if k <= 0 {
        0
    } else {
        off_row(dirs, k - 1) + dirs[k - 1].drow()
    }
}

/// Offset (in columns) of chain link `k` from link 0.
pub open spec fn off_col(dirs: Seq<Direction>, k: int) -> int
    decreases k,
{
    if k <= 0 {
        0
    } else {
        off_col(dirs, k - 1) + dirs[k - 1].dcol()
    }
}

/// Row of chain link `k` when link `s` sits at row `ar`.
pub open spec fn cell_row(dirs: Seq<Direction>, ar: int, s: int, k: int) -> int {
    ar + off_row(dirs, k) - off_row(dirs, s)
}

/// Column of chain link `k` when link `s` sits at column `ac`.
pub open spec fn cell_col(dirs: Seq<Direction>, ac: int, s: int, k: int) -> int {
    ac + off_col(dirs, k) - off_col(dirs, s)
}

/// Whether the whole chain fits on the board with link `s` anchored at
/// (ar, ac): every link's cell is on the board and unmarked.
pub open spec fn spec_fits(b: BoardView, dirs: Seq<Direction>, ar: int, ac: int, s: int) -> bool {
    forall|k: int|
        0 <= k <= dirs.len() ==> b.avail(
            #[trigger] cell_row(dirs, ar, s, k),
            cell_col(dirs, ac, s, k),
        )
}

/// The cells of chain links `lo <= k < hi`, as a set.
pub open spec fn chain_cells_range(
    dirs: Seq<Direction>,
    ar: int,
    ac: int,
    s: int,
    lo: int,
    hi: int,
) -> Set<(int, int)> {
    Set::new(
        |pc: (int, int)|
            exists|k: int|
                lo <= k < hi && pc.0 == #[trigger] cell_row(dirs, ar, s, k) && pc.1 == cell_col(
                    dirs,
                    ac,
                    s,
                    k,
                ),
    )
}

/// The full covered-cell set of a chain anchored with link `s` at (ar, ac).
pub open spec fn chain_cells(dirs: Seq<Direction>, ar: int, ac: int, s: int) -> Set<(int, int)> {
    chain_cells_range(dirs, ar, ac, s, 0, dirs.len() + 1int)
}

/// One candidate placement: a tile, the anchor cell and link, and the set
/// of cells the placement covers. Two placements are the same exactly when
/// they cover the same cells, whatever tile, anchor, and link produced
/// them.
#[derive(Clone, Debug, Eq)]
pub struct TilePosition {
    pub position: Position,
    pub tile: Tile,
    pub start_index: usize,
    pub covered: Vec<Position>,
}

impl TilePosition {
    pub fn new(position: Position, tile: Tile, start_index: usize, covered: Vec<Position>) -> (r:
        TilePosition)
        ensures
            r.position == position,
            r.tile == tile,
            r.start_index == start_index,
            r.covered == covered,
    {
        TilePosition { covered, position, tile, start_index }
    }
}

impl PartialEq for TilePosition {
    /// Equality is by the covered-cell set alone: "different description,
    /// same placement" must deduplicate.
    fn eq(&self, other: &TilePosition) -> (r: bool) {
        let fwd = covered_subset(&self.covered, &other.covered);
        let bwd = covered_subset(&other.covered, &self.covered);
        proof {
            if fwd && bwd {
                lemma_mutual_containment(self.covered@, other.covered@);
            } else {
                lemma_pair_of_position(self.covered@, other.covered@);
            }
        }
        fwd && bwd
    }
}

impl vstd::std_specs::cmp::PartialEqSpecImpl for TilePosition {
    open spec fn obeys_eq_spec() -> bool {
        true
    }

    open spec fn eq_spec(&self, other: &TilePosition) -> bool {
        pos_set(self.covered@) == pos_set(other.covered@)
    }
}

/// Whether every position of `a` also occurs in `b`.
fn covered_subset(a: &Vec<Position>, b: &Vec<Position>) -> (r: bool)
    ensures
        r == forall|m: int| 0 <= m < a@.len() ==> b@.contains(#[trigger] a@[m]),
{
    let n = a.len();
    let mut i: usize = 0;
    while i < n
        invariant
            n == a@.len(),
            i <= n,
            forall|m: int| 0 <= m < i ==> b@.contains(#[trigger] a@[m]),
        decreases n - i,
    {
        if !contains_position(b, a[i]) {
            return false;
        }
        i += 1;
    }
    true
}

/// Linear membership test among positions.
fn contains_position(v: &Vec<Position>, p: Position) -> (r: bool)
    ensures
        r == v@.contains(p),
{
    let n = v.len();
    let mut i: usize = 0;
    while i < n
        invariant
            n == v@.len(),
            i <= n,
            forall|m: int| 0 <= m < i ==> v@[m] != p,
        decreases n - i,
    {
        if v[i].x == p.x && v[i].y == p.y {
            return true;
        }
        i += 1;
    }
    false
}

/// Mutual containment of position sequences makes their cell sets equal.
proof fn lemma_mutual_containment(a: Seq<Position>, b: Seq<Position>)
    requires
        forall|m: int| 0 <= m < a.len() ==> b.contains(#[trigger] a[m]),
        forall|m: int| 0 <= m < b.len() ==> a.contains(#[trigger] b[m]),
    ensures
        pos_set(a) == pos_set(b),
{
    assert forall|pc: (int, int)| pos_set(a).contains(pc) implies pos_set(b).contains(pc) by {
        let m = choose|m: int| 0 <= m < a.len() && pc == (#[trigger] a[m]).as_pair();
        let m2 = choose|m2: int| 0 <= m2 < b.len() && b[m2] == a[m];
        assert(pc == b[m2].as_pair());
    }
    assert forall|pc: (int, int)| pos_set(b).contains(pc) implies pos_set(a).contains(pc) by {
        let m = choose|m: int| 0 <= m < b.len() && pc == (#[trigger] b[m]).as_pair();
        let m2 = choose|m2: int| 0 <= m2 < a.len() && a[m2] == b[m];
        assert(pc == a[m2].as_pair());
    }
    assert(pos_set(a) =~= pos_set(b));
}

/// A position missing from a sequence keeps its cell out of the cell set,
/// so unequal membership makes the cell sets differ.
proof fn lemma_pair_of_position(a: Seq<Position>, b: Seq<Position>)
    ensures
        forall|m: int|
            0 <= m < a.len() && !b.contains(#[trigger] a[m]) ==> !pos_set(b).contains(
                a[m].as_pair(),
            ),
        forall|m: int|
            0 <= m < b.len() && !a.contains(#[trigger] b[m]) ==> !pos_set(a).contains(
                b[m].as_pair(),
            ),
        forall|m: int| 0 <= m < a.len() ==> pos_set(a).contains((#[trigger] a[m]).as_pair()),
        forall|m: int| 0 <= m < b.len() ==> pos_set(b).contains((#[trigger] b[m]).as_pair()),
{
    assert forall|m: int|
        0 <= m < a.len() && !b.contains(#[trigger] a[m]) implies !pos_set(b).contains(
        a[m].as_pair(),
    ) by {
        if pos_set(b).contains(a[m].as_pair()) {
            let m2 = choose|m2: int| 0 <= m2 < b.len() && a[m].as_pair() == (#[trigger] b[m2]).as_pair();
            assert(b[m2] == a[m]);
            assert(b.contains(a[m]));
        }
    }
    assert forall|m: int|
        0 <= m < b.len() && !a.contains(#[trigger] b[m]) implies !pos_set(a).contains(
        b[m].as_pair(),
    ) by {
        if pos_set(a).contains(b[m].as_pair()) {
            let m2 = choose|m2: int| 0 <= m2 < a.len() && b[m].as_pair() == (#[trigger] a[m2]).as_pair();
            assert(a[m2] == b[m]);
            assert(a.contains(b[m]));
        }
    }
}

/// Appending a position inserts exactly its cell into the cell set.
proof fn lemma_pos_set_push(v: Seq<Position>, p: Position)
    ensures
        pos_set(v.push(p)) == pos_set(v).insert(p.as_pair()),
{
    assert forall|pc: (int, int)| pos_set(v.push(p)).contains(pc) implies pos_set(v).insert(
        p.as_pair(),
    ).contains(pc) by {
        let m = choose|m: int| 0 <= m < v.push(p).len() && pc == (#[trigger] v.push(p)[m]).as_pair();
        if m < v.len() {
            assert(pc == v[m].as_pair());
        }
    }
    assert forall|pc: (int, int)| pos_set(v).insert(p.as_pair()).contains(pc) implies pos_set(
        v.push(p),
    ).contains(pc) by {
        if pc == p.as_pair() {
            assert(v.push(p)[v.len() as int] == p);
        } else {
            let m = choose|m: int| 0 <= m < v.len() && pc == (#[trigger] v[m]).as_pair();
            assert(v.push(p)[m] == v[m]);
        }
    }
    assert(pos_set(v.push(p)) =~= pos_set(v).insert(p.as_pair()));
}

impl RectangularBoard {
    /// Tests whether the tile fits with chain link `start_index` placed on
    /// `position`, walking backward through the earlier steps (via their
    /// opposites) and forward through the later ones. Returns the covered
    /// placement on success and nothing when any link is off the board or
    /// already marked.
    pub fn tile_fits_at_position(
        &self,
        tile: &Tile,
        position: Position,
        start_index: usize,
    ) -> (r: Option<TilePosition>)
        requires
            self@.wf(),
            start_index <= tile@.len(),
        ensures
            r.is_some() <==> spec_fits(
                self@,
                tile@,
                position.x as int,
                position.y as int,
                start_index as int,
            ),
            r matches Some(tp) ==> {
                &&& tp.position == position
                &&& tp.start_index == start_index
                &&& tp.tile@ == tile@
                &&& pos_set(tp.covered@) == chain_cells(
                    tile@,
                    position.x as int,
                    position.y as int,
                    start_index as int,
                )
                &&& tp.covered@.no_duplicates()
                &&& 1 <= tp.covered@.len() <= tile@.len() + 1
                &&& forall|m: int|
                    0 <= m < tp.covered@.len() ==> self@.avail(
                        (#[trigger] tp.covered@[m]).x as int,
                        tp.covered@[m].y as int,
                    )
            },
    {
        let ghost dirs = tile@;
        let ghost ar = position.x as int;
        let ghost ac = position.y as int;
        let ghost s = start_index as int;
        let n = tile.directions.len();

        let mut current_position = position;
        if !(self.is_valid(current_position) && !self.is_marked(current_position)) {
            proof {
                assert(cell_row(dirs, ar, s, s) == ar);
                assert(cell_col(dirs, ac, s, s) == ac);
            }
            return None;
        }

        let mut covered: Vec<Position> = Vec::new();
        covered.push(current_position);
        proof {
            assert(cell_row(dirs, ar, s, s) == ar);
            assert(cell_col(dirs, ac, s, s) == ac);
            lemma_pos_set_push(Seq::empty(), current_position);
            assert(pos_set(Seq::<Position>::empty()) =~= Set::<(int, int)>::empty());
            assert(pos_set(covered@) =~= chain_cells_range(dirs, ar, ac, s, s, s + 1));
        }

        // Walk backward from the anchor through links start_index-1 .. 0.
        let mut i = start_index;
        while i > 0
            invariant
                self@.wf(),
                n == dirs.len(),
                tile@ == dirs,
                position.x as int == ar,
                position.y as int == ac,
                start_index as int == s,
                0 <= i <= s <= n,
                current_position.x as int == cell_row(dirs, ar, s, i as int),
                current_position.y as int == cell_col(dirs, ac, s, i as int),
                pos_set(covered@) == chain_cells_range(dirs, ar, ac, s, i as int, s + 1),
                covered@.no_duplicates(),
                1 <= covered@.len() <= s - i + 1,
                forall|m: int|
                    0 <= m < covered@.len() ==> self@.avail(
                        (#[trigger] covered@[m]).x as int,
                        covered@[m].y as int,
                    ),
                forall|k: int|
                    i <= k <= s ==> self@.avail(
                        #[trigger] cell_row(dirs, ar, s, k),
                        cell_col(dirs, ac, s, k),
                    ),
            decreases i,
        {
            proof {
                lemma_opposite_delta(dirs[i - 1]);
            }
            let d = tile.directions[i - 1].opposite();
            current_position = self.move_in_direction(current_position, d);
            proof {
                assert(off_row(dirs, i as int) == off_row(dirs, i - 1) + dirs[i - 1].drow());
                assert(off_col(dirs, i as int) == off_col(dirs, i - 1) + dirs[i - 1].dcol());
                assert(current_position.x as int == cell_row(dirs, ar, s, i - 1));
                assert(current_position.y as int == cell_col(dirs, ac, s, i - 1));
            }
            if !(self.is_valid(current_position) && !self.is_marked(current_position)) {
                return None;
            }
            if !contains_position(&covered, current_position) {
                let ghost old_cov = covered@;
                covered.push(current_position);
                proof {
                    lemma_pos_set_push(old_cov, current_position);
                    assert(pos_set(covered@) =~= chain_cells_range(dirs, ar, ac, s, i - 1, s + 1));
                }
            } else {
                proof {
                    let m = choose|m: int|
                        0 <= m < covered@.len() && covered@[m] == current_position;
                    assert(pos_set(covered@).contains(current_position.as_pair()));
                    assert(pos_set(covered@) =~= chain_cells_range(dirs, ar, ac, s, i - 1, s + 1));
                }
            }
            i -= 1;
        }

        // Walk forward from the anchor through links start_index+1 .. n.
        let mut current_position = position;
        let mut k = start_index;
        while k < n
            invariant
                self@.wf(),
                n == dirs.len(),
                tile@ == dirs,
                position.x as int == ar,
                position.y as int == ac,
                start_index as int == s,
                s <= k <= n,
                current_position.x as int == cell_row(dirs, ar, s, k as int),
                current_position.y as int == cell_col(dirs, ac, s, k as int),
                pos_set(covered@) == chain_cells_range(dirs, ar, ac, s, 0, k + 1),
                covered@.no_duplicates(),
                1 <= covered@.len() <= k + 1,
                forall|m: int|
                    0 <= m < covered@.len() ==> self@.avail(
                        (#[trigger] covered@[m]).x as int,
                        covered@[m].y as int,
                    ),
                forall|k2: int|
                    0 <= k2 <= k ==> self@.avail(
                        #[trigger] cell_row(dirs, ar, s, k2),
                        cell_col(dirs, ac, s, k2),
                    ),
            decreases n - k,
        {
            let d = tile.directions[k];
            current_position = self.move_in_direction(current_position, d);
            proof {
                assert(off_row(dirs, k + 1) == off_row(dirs, k as int) + dirs[k as int].drow());
                assert(off_col(dirs, k + 1) == off_col(dirs, k as int) + dirs[k as int].dcol());
                assert(current_position.x as int == cell_row(dirs, ar, s, k + 1));
                assert(current_position.y as int == cell_col(dirs, ac, s, k + 1));
            }
            if !(self.is_valid(current_position) && !self.is_marked(current_position)) {
                return None;
            }
            if !contains_position(&covered, current_position) {
                let ghost old_cov = covered@;
                covered.push(current_position);
                proof {
                    lemma_pos_set_push(old_cov, current_position);
                    assert(pos_set(covered@) =~= chain_cells_range(dirs, ar, ac, s, 0, k + 2));
                }
            } else {
                proof {
                    let m = choose|m: int|
                        0 <= m < covered@.len() && covered@[m] == current_position;
                    assert(pos_set(covered@).contains(current_position.as_pair()));
                    assert(pos_set(covered@) =~= chain_cells_range(dirs, ar, ac, s, 0, k + 2));
                }
            }
            k += 1;
        }

        let tp = TilePosition::new(position, copy_tile(tile), start_index, covered);
        Some(tp)
    }

    /// Marks every cell of a fitting placement, one cell at a time.
    pub fn mark_tile_at_position(&mut self, tp: TilePosition)
        requires
            old(self)@.wf(),
            tp.covered@.no_duplicates(),
            forall|m: int|
                0 <= m < tp.covered@.len() ==> old(self)@.avail(
                    (#[trigger] tp.covered@[m]).x as int,
                    tp.covered@[m].y as int,
                ),
        ensures
            final(self)@ == spec_mark_set(old(self)@, pos_set(tp.covered@)),
            final(self)@.wf(),
            final(self).width == old(self).width,
            final(self).height == old(self).height,
    {
        let ghost b0 = self@;
        let n = tp.covered.len();
        let mut idx: usize = 0;
        proof {
            lemma_mark_set_empty(b0);
            assert(pos_set(tp.covered@.take(0)) =~= Set::<(int, int)>::empty());
        }
        while idx < n
            invariant
                b0.wf(),
                n == tp.covered@.len(),
                idx <= n,
                tp.covered@.no_duplicates(),
                forall|m: int|
                    0 <= m < tp.covered@.len() ==> b0.avail(
                        (#[trigger] tp.covered@[m]).x as int,
                        tp.covered@[m].y as int,
                    ),
                self@ == spec_mark_set(b0, pos_set(tp.covered@.take(idx as int))),
                self@.wf(),
                self.width == old(self).width,
                self.height == old(self).height,
            decreases n - idx,
        {
            let p = tp.covered[idx];
            let ghost prefix = pos_set(tp.covered@.take(idx as int));
            proof {
                // The next cell is still available: it was available at the
                // start and no earlier (distinct) cell marked it.
                assert(b0.avail(p.x as int, p.y as int));
                if prefix.contains(p.as_pair()) {
                    let m = choose|m: int|
                        0 <= m < idx && p.as_pair() == (#[trigger] tp.covered@.take(
                            idx as int,
                        )[m]).as_pair();
                    assert(tp.covered@[m] == tp.covered@[idx as int]);
                    assert(false);
                }
                assert(self@.avail(p.x as int, p.y as int));
            }
            self.mark(p);
            proof {
                lemma_mark_set_insert(b0, prefix, p.as_pair());
                assert(tp.covered@.take(idx + 1) =~= tp.covered@.take(idx as int).push(
                    tp.covered@[idx as int],
                ));
                lemma_pos_set_push(tp.covered@.take(idx as int), p);
            }
            idx += 1;
        }
        proof {
            assert(tp.covered@.take(n as int) =~= tp.covered@);
        }
    }
}

/// Marking the empty cell set changes nothing.
proof fn lemma_mark_set_empty(b: BoardView)
    requires
        b.dims_ok(),
    ensures
        spec_mark_set(b, Set::empty()) == b,
{
    let m = spec_mark_set(b, Set::empty());
    assert forall|i: int| 0 <= i < b.height implies m.grid[i] =~= b.grid[i] && m.counts[i]
        =~= b.counts[i] by {}
    assert(m.grid =~~= b.grid);
    assert(m.counts =~~= b.counts);
    assert(m =~= b);
}

/// Marking a set and then one more (fresh) cell is marking the grown set.
proof fn lemma_mark_set_insert(b: BoardView, s: Set<(int, int)>, c: (int, int))
    requires
        !s.contains(c),
    ensures
        spec_mark(spec_mark_set(b, s), c.0, c.1) == spec_mark_set(b, s.insert(c)),
{
    let lhs = spec_mark(spec_mark_set(b, s), c.0, c.1);
    let rhs = spec_mark_set(b, s.insert(c));
    let sc = Set::<(int, int)>::empty().insert(c);
    assert forall|i: int| 0 <= i < b.height implies lhs.grid[i] =~= rhs.grid[i] && lhs.counts[i]
        =~= rhs.counts[i] by {
        assert forall|j: int| 0 <= j < b.width implies lhs.grid[i][j] == rhs.grid[i][j]
            && lhs.counts[i][j] == rhs.counts[i][j] by {
            assert(set_ind(sc, i - 1, j) + set_ind(s, i - 1, j) == set_ind(s.insert(c), i - 1, j));
            assert(set_ind(sc, i + 1, j) + set_ind(s, i + 1, j) == set_ind(s.insert(c), i + 1, j));
            assert(set_ind(sc, i, j - 1) + set_ind(s, i, j - 1) == set_ind(s.insert(c), i, j - 1));
            assert(set_ind(sc, i, j + 1) + set_ind(s, i, j + 1) == set_ind(s.insert(c), i, j + 1));
        }
    }
    assert(lhs.grid =~~= rhs.grid);
    assert(lhs.counts =~~= rhs.counts);
    assert(lhs =~= rhs);
}


/// One step of the best-cell scan: take (i, j) if it is available and
/// strictly beats the best so far.
pub open spec fn scan_step(b: BoardView, prev: Option<(int, int)>, i: int, j: int) -> Option<
    (int, int),
> {
    if b.avail(i, j) && (match prev {
        Option::None => true,
        Option::Some(pc) => b.counts[i][j] > b.counts[pc.0][pc.1],
    }) {
        Option::Some((i, j))
    } else {
        prev
    }
}

/// The best cell among all cells scanned before column `j` plus the first
/// `i` rows of column `j`, in the fixed column-major scan order.
pub open spec fn scan_best_upto(b: BoardView, j: int, i: int) -> Option<(int, int)>
    decreases j, i,
{
    if j <= 0 && i <= 0 {
        Option::None
    } else if i <= 0 {
        scan_best_upto(b, j - 1, b.height)
    } else {
        scan_step(b, scan_best_upto(b, j, i - 1), i - 1, j)
    }
}

/// The cell the placement heuristic picks: the first unmarked cell (in
/// scan order) with the highest constraint count; nothing when every cell
/// is marked.
pub open spec fn best_cell(b: BoardView) -> Option<(int, int)> {
    scan_best_upto(b, b.width, 0)
}

/// Whether some unmarked cell already has constraint count 4, so that no
/// multi-cell tile can ever cover it.
pub open spec fn has_dead_cell(b: BoardView) -> bool {
    exists|i: int, j: int| #[trigger] b.avail(i, j) && b.counts[i][j] == 4
}

/// The covered-cell sets of the fitting placements of one tile at anchor
/// (bi, bj), trying anchor links `0 <= s < send` in order and keeping each
/// new distinct covered set.
pub open spec fn fit_sets_tile(
    b: BoardView,
    dirs: Seq<Direction>,
    bi: int,
    bj: int,
    send: int,
    acc: Seq<Set<(int, int)>>,
) -> Seq<Set<(int, int)>>
    decreases send,
{
    if send <= 0 {
        acc
    } else {
        let acc2 = fit_sets_tile(b, dirs, bi, bj, send - 1, acc);
        let cs = chain_cells(dirs, bi, bj, send - 1);
        if spec_fits(b, dirs, bi, bj, send - 1) && !acc2.contains(cs) {
            acc2.push(cs)
        } else {
            acc2
        }
    }
}

/// The covered-cell sets of all fitting placements of the first `tend`
/// tiles at anchor (bi, bj), deduplicated, in discovery order.
pub open spec fn fit_sets(
    b: BoardView,
    tiles: Seq<Seq<Direction>>,
    bi: int,
    bj: int,
    tend: int,
) -> Seq<Set<(int, int)>>
    decreases tend,
{
    if tend <= 0 {
        Seq::empty()
    } else {
        fit_sets_tile(
            b,
            tiles[tend - 1],
            bi,
            bj,
            tiles[tend - 1].len() + 1int,
            fit_sets(b, tiles, bi, bj, tend - 1),
        )
    }
}

/// The covered-cell sets of the successors of a board: empty when the
/// pruning rule fires (a dead cell and no single-cell tile) or when no
/// cell is unmarked; otherwise every distinct fitting placement at the
/// best cell.
pub open spec fn successor_sets(b: BoardView, tiles: Seq<Seq<Direction>>) -> Seq<
    Set<(int, int)>,
> {
    if !has_single_tile(tiles) && has_dead_cell(b) {
        Seq::empty()
    } else {
        match best_cell(b) {
            Option::None => Seq::empty(),
            Option::Some(pc) => fit_sets(b, tiles, pc.0, pc.1, tiles.len() as int),
        }
    }
}

/// The successor boards themselves, in the same order.
pub open spec fn successor_seq(b: BoardView, tiles: Seq<Seq<Direction>>) -> Seq<BoardView> {
    successor_sets(b, tiles).map_values(|cs: Set<(int, int)>| spec_mark_set(b, cs))
}

/// The covered-cell sets of a sequence of placements.
pub open spec fn covered_sets(v: Seq<TilePosition>) -> Seq<Set<(int, int)>> {
    v.map_values(|tp: TilePosition| pos_set(tp.covered@))
}

/// The views of a sequence of boards.
pub open spec fn board_views(v: Seq<RectangularBoard>) -> Seq<BoardView> {
    v.map_values(|ch: RectangularBoard| ch@)
}

impl RectangularBoard {
    /// The constraint count of an on-board cell.
    fn count_at(&self, i: usize, j: usize) -> (c: usize)
        requires
            self@.dims_ok(),
            self@.valid(i as int, j as int),
        ensures
            c as int == self@.counts[i as int][j as int],
    {
        proof {
            assert(self.counts@.len() == self@.counts.len());
            assert(self@.counts[i as int] == self.counts@[i as int]@.map_values(
                |v: usize| v as int,
            ));
        }
        self.counts[i][j]
    }

    /// Whether an on-board cell is marked.
    fn marked_at(&self, i: usize, j: usize) -> (m: bool)
        requires
            self@.dims_ok(),
            self@.valid(i as int, j as int),
        ensures
            m == self@.marked(i as int, j as int),
    {
        proof {
            assert(self.board@.len() == self@.grid.len());
            assert(self@.grid[i as int] == self.board@[i as int]@);
        }
        self.board[i][j]
    }

    /// An exact copy of this board, including its counts.
    pub(crate) fn copy_board(&self) -> (r: RectangularBoard)
        ensures
            r@ == self@,
            r.width == self.width,
            r.height == self.height,
    {
        let h = self.board.len();
        let mut board: Vec<Vec<bool>> = Vec::new();
        let mut i: usize = 0;
        while i < h
            invariant
                h == self.board@.len(),
                i <= h,
                board@.len() == i,
                forall|k: int| 0 <= k < i ==> (#[trigger] board@[k])@ == self.board@[k]@,
            decreases h - i,
        {
            let w = self.board[i].len();
            let mut row: Vec<bool> = Vec::new();
            let mut j: usize = 0;
            while j < w
                invariant
                    h == self.board@.len(),
                    i < h,
                    w == self.board@[i as int]@.len(),
                    j <= w,
                    row@.len() == j,
                    forall|l: int| 0 <= l < j ==> row@[l] == self.board@[i as int]@[l],
                decreases w - j,
            {
                row.push(self.board[i][j]);
                j += 1;
            }
            proof {
                assert(row@ =~= self.board@[i as int]@);
            }
            board.push(row);
            i += 1;
        }
        let hc = self.counts.len();
        let mut counts: Vec<Vec<usize>> = Vec::new();
        let mut i2: usize = 0;
        while i2 < hc
            invariant
                hc == self.counts@.len(),
                i2 <= hc,
                counts@.len() == i2,
                forall|k: int| 0 <= k < i2 ==> (#[trigger] counts@[k])@ == self.counts@[k]@,
            decreases hc - i2,
        {
            let w = self.counts[i2].len();
            let mut row: Vec<usize> = Vec::new();
            let mut j: usize = 0;
            while j < w
                invariant
                    hc == self.counts@.len(),
                    i2 < hc,
                    w == self.counts@[i2 as int]@.len(),
                    j <= w,
                    row@.len() == j,
                    forall|l: int| 0 <= l < j ==> row@[l] == self.counts@[i2 as int]@[l],
                decreases w - j,
            {
                row.push(self.counts[i2][j]);
                j += 1;
            }
            proof {
                assert(row@ =~= self.counts@[i2 as int]@);
            }
            counts.push(row);
            i2 += 1;
        }
        let r = RectangularBoard { width: self.width, height: self.height, board, counts };
        proof {
            assert(r@.grid.len() == self@.grid.len());
            assert forall|k: int| 0 <= k < r@.grid.len() implies r@.grid[k] == self@.grid[k] by {
                assert(r@.grid[k] == board@[k]@);
                assert(self@.grid[k] == self.board@[k]@);
            }
            assert(r@.grid =~= self@.grid);
            assert(r@.counts.len() == self@.counts.len());
            assert forall|k: int| 0 <= k < r@.counts.len() implies r@.counts[k]
                == self@.counts[k] by {
                assert(r@.counts[k] == counts@[k]@.map_values(|v: usize| v as int));
                assert(self@.counts[k] == self.counts@[k]@.map_values(|v: usize| v as int));
            }
            assert(r@.counts =~= self@.counts);
            assert(r@ =~= self@);
        }
        r
    }

    /// Scans for the best unmarked cell, aborts on the pruning rule, then
    /// collects every distinct fitting placement of every tile variant at
    /// that cell and returns the boards they produce.
    ///
    /// An empty result means the board is fully marked, the pruning rule
    /// fired, or nothing fits at the best cell: this branch of the search
    /// is finished (solved when fully marked, a dead end otherwise).
    pub fn place_tile(&self, tile_collection: &TileCollection) -> (r: Vec<RectangularBoard>)
        requires
            self@.wf(),
            tile_collection.wf(),
        ensures
            board_views(r@) == successor_seq(self@, tile_collection@),
            forall|m: int|
                0 <= m < r@.len() ==> (#[trigger] r@[m])@.wf() && r@[m].width == self.width
                    && r@[m].height == self.height,
    {
        let ghost b = self@;
        let ghost tcv = tile_collection@;
        let single = tile_collection.contains_single_tile();
        let width = self.width;
        let height = self.height;

        let mut largest: Option<(usize, usize)> = None;

        // Find the unmarked cell with the highest count, in column-major
        // order; stop at once if an unmarked count-4 cell shows the board
        // is a dead end that no multi-cell tile can mend.
        let mut j: usize = 0;
        while j < width
            invariant
                b.wf(),
                b == self@,
                tcv == tile_collection@,
                single == has_single_tile(tcv),
                width == b.width,
                height == b.height,
                j <= width,
                (match largest {
                    Option::None => scan_best_upto(b, j as int, 0) is None,
                    Option::Some(p) => scan_best_upto(b, j as int, 0) == Option::Some(
                        (p.0 as int, p.1 as int),
                    ) && b.avail(p.0 as int, p.1 as int),
                }),
                !single ==> forall|i2: int, j2: int|
                    0 <= i2 < b.height && 0 <= j2 < j ==> !(#[trigger] b.avail(i2, j2)
                        && b.counts[i2][j2] == 4),
            decreases width - j,
        {
            let mut i: usize = 0;
            while i < height
                invariant
                    b.wf(),
                    b == self@,
                    tcv == tile_collection@,
                    single == has_single_tile(tcv),
                    width == b.width,
                    height == b.height,
                    j < width,
                    i <= height,
                    (match largest {
                        Option::None => scan_best_upto(b, j as int, i as int) is None,
                        Option::Some(p) => scan_best_upto(b, j as int, i as int) == Option::Some(
                            (p.0 as int, p.1 as int),
                        ) && b.avail(p.0 as int, p.1 as int),
                    }),
                    !single ==> forall|i2: int, j2: int|
                        0 <= i2 < b.height && 0 <= j2 < j ==> !(#[trigger] b.avail(i2, j2)
                            && b.counts[i2][j2] == 4),
                    !single ==> forall|i2: int|
                        0 <= i2 < i ==> !(#[trigger] b.avail(i2, j as int) && b.counts[i2][
                            j as int
                        ] == 4),
                decreases height - i,
            {
                if !self.marked_at(i, j) {
                    let count = self.count_at(i, j);

                    if !single && count == 4 {
                        proof {
                            assert(b.avail(i as int, j as int) && b.counts[i as int][j as int]
                                == 4);
                            assert(has_dead_cell(b));
                            assert(board_views(Seq::empty()) =~= successor_seq(b, tcv));
                        }
                        return Vec::new();
                    }
                    let replace = match largest {
                        Option::None => true,
                        Option::Some(p) => count > self.count_at(p.0, p.1),
                    };
                    if replace {
                        largest = Some((i, j));
                    }
                }
                proof {
                    assert(scan_best_upto(b, j as int, i + 1) == scan_step(
                        b,
                        scan_best_upto(b, j as int, i as int),
                        i as int,
                        j as int,
                    ));
                }
                i += 1;
            }
            proof {
                assert(scan_best_upto(b, j + 1, 0) == scan_best_upto(b, j as int, b.height));
            }
            j += 1;
        }
        proof {
            if !single && has_dead_cell(b) {
                let (i2, j2) = choose|i2: int, j2: int|
                    #[trigger] b.avail(i2, j2) && b.counts[i2][j2] == 4;
                assert(false);
            }
        }

        // Collect every distinct fitting placement at the chosen cell.
        let mut fitting: Vec<TilePosition> = Vec::new();
        if let Some((bi, bj)) = largest {
            let ghost bii = bi as int;
            let ghost bjj = bj as int;
            let tiles_vec = tile_collection.iter();
            let nt = tiles_vec.len();
            let mut ti: usize = 0;
            while ti < nt
                invariant
                    b.wf(),
                    b == self@,
                    tcv == tile_collection@,
                    nt == tiles_vec@.len(),
                    tile_views(tiles_vec@) == tcv,
                    ti <= nt,
                    bi < b.height,
                    bj < b.width,
                    bii == bi as int,
                    bjj == bj as int,
                    covered_sets(fitting@) == fit_sets(b, tcv, bii, bjj, ti as int),
                    forall|m: int|
                        0 <= m < fitting@.len() ==> {
                            &&& (#[trigger] fitting@[m]).covered@.no_duplicates()
                            &&& forall|l: int|
                                0 <= l < fitting@[m].covered@.len() ==> b.avail(
                                    (#[trigger] fitting@[m].covered@[l]).x as int,
                                    fitting@[m].covered@[l].y as int,
                                )
                        },
                decreases nt - ti,
            {
                let tile = &tiles_vec[ti];
                let ghost dirs = tcv[ti as int];
                proof {
                    assert(tile@ == tile_views(tiles_vec@)[ti as int]);
                }
                let nd = tile.directions.len();
                let mut si: usize = 0;
                while si <= nd
                    invariant_except_break
                        b.wf(),
                        b == self@,
                        tcv == tile_collection@,
                        ti < nt,
                        tile == &tiles_vec[ti as int],
                        tile@ == dirs,
                        dirs == tcv[ti as int],
                        nd == dirs.len(),
                        si <= nd + 1,
                        bi < b.height,
                        bj < b.width,
                        bii == bi as int,
                        bjj == bj as int,
                        covered_sets(fitting@) == fit_sets_tile(
                            b,
                            dirs,
                            bii,
                            bjj,
                            si as int,
                            fit_sets(b, tcv, bii, bjj, ti as int),
                        ),
                        forall|m: int|
                            0 <= m < fitting@.len() ==> {
                                &&& (#[trigger] fitting@[m]).covered@.no_duplicates()
                                &&& forall|l: int|
                                    0 <= l < fitting@[m].covered@.len() ==> b.avail(
                                        (#[trigger] fitting@[m].covered@[l]).x as int,
                                        fitting@[m].covered@[l].y as int,
                                    )
                            },
                    ensures
                        covered_sets(fitting@) == fit_sets_tile(
                            b,
                            dirs,
                            bii,
                            bjj,
                            nd + 1int,
                            fit_sets(b, tcv, bii, bjj, ti as int),
                        ),
                        forall|m: int|
                            0 <= m < fitting@.len() ==> {
                                &&& (#[trigger] fitting@[m]).covered@.no_duplicates()
                                &&& forall|l: int|
                                    0 <= l < fitting@[m].covered@.len() ==> b.avail(
                                        (#[trigger] fitting@[m].covered@[l]).x as int,
                                        fitting@[m].covered@[l].y as int,
                                    )
                            },
                    decreases nd - si,
                {
                    let anchor = Position::new(bi as isize, bj as isize);
                    let fit = self.tile_fits_at_position(tile, anchor, si);
                    let ghost pre = covered_sets(fitting@);
                    match fit {
                        Some(tp) => {
                            let dup = contains_placement(&fitting, &tp);
                            if !dup {
                                fitting.push(tp);
                                proof {
                                    assert(covered_sets(fitting@) =~= pre.push(
                                        chain_cells(dirs, bii, bjj, si as int),
                                    ));
                                }
                            }
                        },
                        None => {
                        },
                    }
                    proof {
                        assert(fit_sets_tile(
                            b,
                            dirs,
                            bii,
                            bjj,
                            si + 1,
                            fit_sets(b, tcv, bii, bjj, ti as int),
                        ) == (if spec_fits(b, dirs, bii, bjj, si as int) && !pre.contains(
                            chain_cells(dirs, bii, bjj, si as int),
                        ) {
                            pre.push(chain_cells(dirs, bii, bjj, si as int))
                        } else {
                            pre
                        }));
                    }
                    if si == nd {
                        break;
                    }
                    si += 1;
                }
                proof {
                    assert(fit_sets(b, tcv, bii, bjj, ti + 1) == fit_sets_tile(
                        b,
                        tcv[ti as int],
                        bii,
                        bjj,
                        tcv[ti as int].len() + 1int,
                        fit_sets(b, tcv, bii, bjj, ti as int),
                    ));
                }
                ti += 1;
            }
        }

        // Produce one child board per distinct fitting placement.
        let ghost succ = successor_sets(b, tcv);
        proof {
            assert(succ == covered_sets(fitting@));
        }
        let mut result: Vec<RectangularBoard> = Vec::new();
        let nf = fitting.len();
        let mut m: usize = 0;
        while m < nf
            invariant
                b.wf(),
                b == self@,
                self.width == b.width,
                self.height == b.height,
                nf == fitting@.len(),
                m <= nf,
                succ == covered_sets(fitting@),
                forall|m2: int|
                    0 <= m2 < fitting@.len() ==> {
                        &&& (#[trigger] fitting@[m2]).covered@.no_duplicates()
                        &&& forall|l: int|
                            0 <= l < fitting@[m2].covered@.len() ==> b.avail(
                                (#[trigger] fitting@[m2].covered@[l]).x as int,
                                fitting@[m2].covered@[l].y as int,
                            )
                    },
                result@.len() == m,
                forall|m2: int|
                    0 <= m2 < m ==> (#[trigger] result@[m2])@ == spec_mark_set(b, succ[m2]),
                forall|m2: int|
                    0 <= m2 < m ==> (#[trigger] result@[m2])@.wf() && result@[m2].width == b.width
                        && result@[m2].height == b.height,
            decreases nf - m,
        {
            let tp = copy_placement(&fitting[m]);
            let mut child = self.copy_board();
            proof {
                assert(pos_set(tp.covered@) == covered_sets(fitting@)[m as int]);
            }
            child.mark_tile_at_position(tp);
            result.push(child);
            m += 1;
        }
        proof {
            assert(board_views(result@) =~= successor_seq(b, tcv));
            assert forall|m2: int| 0 <= m2 < result@.len() implies (#[trigger] result@[m2])@.wf()
                && result@[m2].width == self.width && result@[m2].height == self.height by {}
        }
        result
    }
}

/// Membership test for a placement among those already collected,
/// comparing by covered-cell set.
fn contains_placement(v: &Vec<TilePosition>, tp: &TilePosition) -> (r: bool)
    ensures
        r == covered_sets(v@).contains(pos_set(tp.covered@)),
{
    let n = v.len();
    let mut i: usize = 0;
    while i < n
        invariant
            n == v@.len(),
            i <= n,
            forall|m: int| 0 <= m < i ==> covered_sets(v@)[m] != pos_set(tp.covered@),
        decreases n - i,
    {
        if v[i].eq(tp) {
            proof {
                assert(covered_sets(v@)[i as int] == pos_set(tp.covered@));
            }
            return true;
        }
        i += 1;
    }
    false
}

/// An exact copy of a placement.
fn copy_placement(tp: &TilePosition) -> (r: TilePosition)
    ensures
        r.position == tp.position,
        r.start_index == tp.start_index,
        r.tile@ == tp.tile@,
        r.covered@ == tp.covered@,
{
    let n = tp.covered.len();
    let mut covered: Vec<Position> = Vec::new();
    let mut i: usize = 0;
    while i < n
        invariant
            n == tp.covered@.len(),
            i <= n,
            covered@.len() == i,
            forall|k: int| 0 <= k < i ==> covered@[k] == tp.covered@[k],
        decreases n - i,
    {
        covered.push(tp.covered[i]);
        i += 1;
    }
    proof {
        assert(covered@ =~= tp.covered@);
    }
    TilePosition { position: tp.position, tile: copy_tile(&tp.tile), start_index: tp.start_index, covered }
}


/// Fitting is translation-consistent: when one board's available region
/// is the other's shifted by (dr, dc), a chain fits at an anchor on the
/// first exactly when it fits at the shifted anchor on the second, and it
/// covers the correspondingly shifted cells.
pub proof fn lemma_fits_translation(
    b1: BoardView,
    b2: BoardView,
    dirs: Seq<Direction>,
    ar: int,
    ac: int,
    s: int,
    dr: int,
    dc: int,
)
    requires
        forall|i: int, j: int| #[trigger] b1.avail(i, j) <==> b2.avail(i + dr, j + dc),
    ensures
        spec_fits(b1, dirs, ar, ac, s) == spec_fits(b2, dirs, ar + dr, ac + dc, s),
        forall|i: int, j: int|
            #[trigger] chain_cells(dirs, ar, ac, s).contains((i, j)) <==> chain_cells(
                dirs,
                ar + dr,
                ac + dc,
                s,
            ).contains((i + dr, j + dc)),
{
    assert forall|k: int|
        cell_row(dirs, ar + dr, s, k) == cell_row(dirs, ar, s, k) + dr && cell_col(
            dirs,
            ac + dc,
            s,
            k,
        ) == cell_col(dirs, ac, s, k) + dc by {}
    if spec_fits(b1, dirs, ar, ac, s) {
        assert forall|k: int| 0 <= k <= dirs.len() implies b2.avail(
            #[trigger] cell_row(dirs, ar + dr, s, k),
            cell_col(dirs, ac + dc, s, k),
        ) by {
            assert(b1.avail(cell_row(dirs, ar, s, k), cell_col(dirs, ac, s, k)));
        }
    }
    if spec_fits(b2, dirs, ar + dr, ac + dc, s) {
        assert forall|k: int| 0 <= k <= dirs.len() implies b1.avail(
            #[trigger] cell_row(dirs, ar, s, k),
            cell_col(dirs, ac, s, k),
        ) by {
            assert(b2.avail(cell_row(dirs, ar + dr, s, k), cell_col(dirs, ac + dc, s, k)));
        }
    }
    assert forall|i: int, j: int|
        #[trigger] chain_cells(dirs, ar, ac, s).contains((i, j)) implies chain_cells(
        dirs,
        ar + dr,
        ac + dc,
        s,
    ).contains((i + dr, j + dc)) by {
        let k = choose|k: int|
            0 <= k <= dirs.len() && i == #[trigger] cell_row(dirs, ar, s, k) && j == cell_col(
                dirs,
                ac,
                s,
                k,
            );
        assert(i + dr == cell_row(dirs, ar + dr, s, k));
        assert(j + dc == cell_col(dirs, ac + dc, s, k));
    }
    assert forall|i: int, j: int|
        chain_cells(dirs, ar + dr, ac + dc, s).contains((i + dr, j + dc)) implies #[trigger]
    chain_cells(dirs, ar, ac, s).contains((i, j)) by {
        let k = choose|k: int|
            0 <= k <= dirs.len() && i + dr == #[trigger] cell_row(dirs, ar + dr, s, k) && j + dc
                == cell_col(dirs, ac + dc, s, k);
        assert(i == cell_row(dirs, ar, s, k));
        assert(j == cell_col(dirs, ac, s, k));
    }
}


/// The display characters of the first `j` cells of a row: a space for a
/// marked cell, an `x` for an unmarked one.
pub open spec fn disp_row(r: Seq<bool>, j: int) -> Seq<char>
    decreases j,
{
    if j <= 0 {
        Seq::empty()
    } else {
        disp_row(r, j - 1).push(
            if r[j - 1] {
                ' '
            } else {
                'x'
            },
        )
    }
}

/// The display text of the first `i` rows, each row ended by a newline.
pub open spec fn disp_grid(g: Seq<Seq<bool>>, i: int, w: int) -> Seq<char>
    decreases i,
{
    if i <= 0 {
        Seq::empty()
    } else {
        disp_grid(g, i - 1, w) + disp_row(g[i - 1], w).push('\n')
    }
}

impl RectangularBoard {
    /// A textual picture of the board, row by row: a space for each
    /// marked cell, an `x` for each unmarked cell, a newline after each
    /// row.
    pub fn disp(&self) -> (r: String)
        requires
            self@.dims_ok(),
        ensures
            r@ == disp_grid(self@.grid, self@.height, self@.width),
    {
        let ghost g = self@.grid;
        let h = self.height;
        let w = self.width;
        let mut o = String::new();
        let mut i: usize = 0;
        while i < h
            invariant
                self@.dims_ok(),
                g == self@.grid,
                h == self@.height,
                w == self@.width,
                i <= h,
                o@ == disp_grid(g, i as int, w as int),
            decreases h - i,
        {
            let mut j: usize = 0;
            while j < w
                invariant
                    self@.dims_ok(),
                    g == self@.grid,
                    h == self@.height,
                    w == self@.width,
                    i < h,
                    j <= w,
                    o@ == disp_grid(g, i as int, w as int) + disp_row(g[i as int], j as int),
                decreases w - j,
            {
                if self.marked_at(i, j) {
                    o.append(" ");
                    proof {
                        reveal_strlit(" ");
                        assert(o@ =~= disp_grid(g, i as int, w as int) + disp_row(
                            g[i as int],
                            j + 1,
                        ));
                    }
                } else {
                    o.append("x");
                    proof {
                        reveal_strlit("x");
                        assert(o@ =~= disp_grid(g, i as int, w as int) + disp_row(
                            g[i as int],
                            j + 1,
                        ));
                    }
                }
                j += 1;
            }
            o.append("\n");
            proof {
                reveal_strlit("\n");
                assert(o@ =~= disp_grid(g, i + 1, w as int));
                assert(disp_row(g[i as int], 0int) =~= Seq::<char>::empty());
                assert(disp_grid(g, i + 1, w as int) + disp_row(g[i as int], 0int) =~= disp_grid(
                    g,
                    i + 1,
                    w as int,
                ));
            }
            i += 1;
        }
        o
    }
}

} // verus!
