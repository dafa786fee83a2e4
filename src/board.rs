use vstd::prelude::*;

verus! {

/// Side length of the square board.
pub const SIZE: usize = 8;

/// The state of one cell.
#[derive(Debug, Clone, Copy, PartialEq, Eq, Structural)]
pub enum Piece {
    First,
    Second,
    Empty,
}

/// A move: place a piece at `(row, column)`, or pass.
#[derive(Debug, Clone, Copy, PartialEq, Eq, Structural)]
pub enum Action {
    Put(usize, usize),
    Pass,
}

impl Action {
    /// Both coordinates of a placement lie on the board.
    pub open spec fn valid(self) -> bool {
        match self {
            Action::Put(y, x) => y < SIZE && x < SIZE,
            Action::Pass => true,
        }
    }
}

/// Why an action was refused.
#[derive(Debug, Clone, Copy, PartialEq, Eq, Structural)]
pub enum ActError {
    GameOver,
    CellOccupied(usize, usize),
    NoCapture(usize, usize),
    IllegalPass,
}

/// An 8x8 board and the side to move.
#[derive(Debug, Clone, Copy, PartialEq, Eq)]
pub struct Reversi {
    board: [[Piece; SIZE]; SIZE],
    first: bool,
}

/// The mathematical model of a board: rows of cells, and whether `First` moves.
pub struct BoardModel {
    pub cells: Seq<Seq<Piece>>,
    pub first: bool,
}

impl View for Reversi {
    type V = BoardModel;

    closed spec fn view(&self) -> BoardModel {
        BoardModel { cells: Seq::new(8, |r: int| self.board@[r]@), first: self.first }
    }
}

pub open spec fn on_board(y: int, x: int) -> bool {
    0 <= y < 8 && 0 <= x < 8
}

/// Row step of direction `d`: East first, then clockwise.
pub open spec fn dir_y(d: int) -> int {
    if d == 1 || d == 2 || d == 3 {
        1
    } else if d == 5 || d == 6 || d == 7 {
        -1
    } else {
        0
    }
}

/// Column step of direction `d`.
pub open spec fn dir_x(d: int) -> int {
    if d == 0 || d == 1 || d == 7 {
        1
    } else if d == 3 || d == 4 || d == 5 {
        -1
    } else {
        0
    }
}

/// `k` steps of a unit component `u` (one of -1, 0, 1).
pub open spec fn scale(u: int, k: int) -> int {
    if u == 1 {
        k
    } else if u == -1 {
        -k
    } else {
        0
    }
}

impl BoardModel {
    pub open spec fn wf(self) -> bool {
        &&& self.cells.len() == 8
        &&& forall|r: int| 0 <= r < 8 ==> #[trigger] self.cells[r].len() == 8
    }

    pub open spec fn at(self, y: int, x: int) -> Piece {
        self.cells[y][x]
    }

    /// The color of the side to move.
    pub open spec fn mover(self) -> Piece {
        if self.first {
            Piece::First
        } else {
            Piece::Second
        }
    }

    /// The same cells with the other side to move.
    pub open spec fn toggled(self) -> BoardModel {
        BoardModel { cells: self.cells, first: !self.first }
    }

    /// A ray walked in steps `(dy, dx)`, with `(py, px)` its `k`-th cell and
    /// the cells before it held by the opponent: the number of opponent pieces
    /// before the first piece of the mover, or zero where the ray first leaves
    /// the board, meets an empty cell, or runs past seven steps.
    pub open spec fn ray(self, py: int, px: int, dy: int, dx: int, k: int) -> nat
        decreases 8 - k,
    {
        if k >= 8 || !on_board(py, px) {
            0
        } else if self.at(py, px) == Piece::Empty {
            0
        } else if self.at(py, px) == self.mover() {
            if k >= 1 {
                (k - 1) as nat
            } else {
                0
            }
        } else {
            self.ray(py + dy, px + dx, dy, dx, k + 1)
        }
    }

    /// Entry `d` of the reversal vector at `(y, x)`: the opponent pieces that a
    /// placement there brackets in direction `d`.
    pub open spec fn dir_count(self, y: int, x: int, d: int) -> nat {
        if !on_board(y, x) || self.at(y, x) != Piece::Empty {
            0
        } else {
            self.ray(y + dir_y(d), x + dir_x(d), dir_y(d), dir_x(d), 1)
        }
    }

    /// Placing at `(y, x)` captures in some direction.
    pub open spec fn legal_put(self, y: int, x: int) -> bool {
        exists|d: int| 0 <= d < 8 && #[trigger] self.dir_count(y, x, d) > 0
    }

    /// The legal placements in row `y` among columns `0..x`, left to right.
    pub open spec fn row_puts(self, y: int, x: int) -> Seq<Action>
        decreases x,
    {
        if x <= 0 {
            Seq::empty()
        } else {
            self.row_puts(y, x - 1) + if self.legal_put(y, x - 1) {
                seq![Action::Put(y as usize, (x - 1) as usize)]
            } else {
                Seq::empty()
            }
        }
    }

    /// The legal placements in rows `0..y`, in row-major order.
    pub open spec fn rows_puts(self, y: int) -> Seq<Action>
        decreases y,
    {
        if y <= 0 {
            Seq::empty()
        } else {
            self.rows_puts(y - 1) + self.row_puts(y - 1, 8)
        }
    }

    /// Every legal placement of the board, in row-major order.
    pub open spec fn legal_puts(self) -> Seq<Action> {
        self.rows_puts(8)
    }

    /// The side to move has a legal placement.
    pub open spec fn has_put(self) -> bool {
        exists|y: int, x: int| on_board(y, x) && #[trigger] self.legal_put(y, x)
    }

    /// The legal placements, or `[Pass]` where there are none.
    pub open spec fn legal_actions(self) -> Seq<Action> {
        if self.legal_puts().len() > 0 {
            self.legal_puts()
        } else {
            seq![Action::Pass]
        }
    }

    /// Neither side has a legal placement.
    pub open spec fn terminal(self) -> bool {
        !self.has_put() && !self.toggled().has_put()
    }
    /// Placing at `(y, x)` turns `(r, c)` to the mover's color: it is the placed
    /// cell or lies on a bracketed line.
    pub open spec fn flips(self, y: int, x: int, r: int, c: int) -> bool {
        (r == y && c == x) || exists|d: int|
            0 <= d < 8 && #[trigger] on_ray(y, x, d, self.dir_count(y, x, d) as int, r, c)
    }

    /// The board after the mover places at `(y, x)`, with the other side to move.
    pub open spec fn placed(self, y: int, x: int) -> BoardModel {
        BoardModel {
            cells: Seq::new(
                8,
                |r: int|
                    Seq::new(
                        8,
                        |c: int|
                            if self.flips(y, x, r, c) {
                                self.mover()
                            } else {
                                self.at(r, c)
                            },
                    ),
            ),
            first: !self.first,
        }
    }

    /// What applying `a` yields: the next board, or the reason it is refused.
    pub open spec fn step(self, a: Action) -> Result<BoardModel, ActError> {
        if self.terminal() {
            Err(ActError::GameOver)
        } else {
            match a {
                Action::Put(y, x) => if self.at(y as int, x as int) != Piece::Empty {
                    Err(ActError::CellOccupied(y, x))
                } else if !self.legal_put(y as int, x as int) {
                    Err(ActError::NoCapture(y, x))
                } else {
                    Ok(self.placed(y as int, x as int))
                },
                Action::Pass => if self.has_put() {
                    Err(ActError::IllegalPass)
                } else {
                    Ok(self.toggled())
                },
            }
        }
    }
}

/// `(r, c)` is one of the first `n` cells from `(y, x)` in direction `d`.
pub open spec fn on_ray(y: int, x: int, d: int, n: int, r: int, c: int) -> bool {
    exists|k: int|
        1 <= k <= n && r == y + #[trigger] scale(dir_y(d), k) && c == x + scale(dir_x(d), k)
}

proof fn lemma_ray(b: BoardModel, y: int, x: int, d: int, k: int)
    requires
        on_board(y, x),
        0 <= d < 8,
        1 <= k,
    ensures
        forall|i: int|
            k <= i <= b.ray(
                y + scale(dir_y(d), k),
                x + scale(dir_x(d), k),
                dir_y(d),
                dir_x(d),
                k,
            ) ==> {
                &&& on_board(y + #[trigger] scale(dir_y(d), i), x + scale(dir_x(d), i))
                &&& b.at(y + scale(dir_y(d), i), x + scale(dir_x(d), i)) != Piece::Empty
                &&& b.at(y + scale(dir_y(d), i), x + scale(dir_x(d), i)) != b.mover()
            },
    decreases 8 - k,
{
    let py = y + scale(dir_y(d), k);
    let px = x + scale(dir_x(d), k);
    if k < 8 && on_board(py, px) && b.at(py, px) != Piece::Empty && b.at(py, px) != b.mover() {
        lemma_ray(b, y, x, d, k + 1);
        assert(py + dir_y(d) == y + scale(dir_y(d), k + 1));
        assert(px + dir_x(d) == x + scale(dir_x(d), k + 1));
    }
}

/// Two boards with the same side to move and the same cells are equal.
proof fn lemma_model_eq(a: BoardModel, b: BoardModel)
    requires
        a.wf(),
        b.wf(),
        a.first == b.first,
        forall|r: int, c: int| on_board(r, c) ==> #[trigger] a.at(r, c) == b.at(r, c),
    ensures
        a == b,
{
    assert forall|r: int| 0 <= r < 8 implies a.cells[r] =~= b.cells[r] by {
        assert forall|c: int| 0 <= c < 8 implies a.cells[r][c] == b.cells[r][c] by {
            assert(a.at(r, c) == b.at(r, c));
        }
    }
    assert(a.cells =~= b.cells);
}


/// Occurrences of `p` among the first `n` cells of a row.
pub open spec fn count_row(row: Seq<Piece>, p: Piece, n: int) -> nat
    decreases n,
{
    if n <= 0 {
        0
    } else {
        count_row(row, p, n - 1) + if row[n - 1] == p {
            1nat
        } else {
            0nat
        }
    }
}

/// Occurrences of `p` in the first `m` rows.
pub open spec fn count_rows(cells: Seq<Seq<Piece>>, p: Piece, m: int) -> nat
    decreases m,
{
    if m <= 0 {
        0
    } else {
        count_rows(cells, p, m - 1) + count_row(cells[m - 1], p, 8)
    }
}

impl BoardModel {
    /// Cells of the board that hold `p`.
    pub open spec fn count(self, p: Piece) -> nat {
        count_rows(self.cells, p, 8)
    }

    /// The signed margin for `First`, with a wipeout scored as 64.
    pub open spec fn score(self) -> int {
        let f = self.count(Piece::First);
        let s = self.count(Piece::Second);
        if f == 0 {
            -64
        } else if s == 0 {
            64
        } else {
            f - s
        }
    }
}

proof fn lemma_count_row_bound(row: Seq<Piece>, p: Piece, n: int)
    requires
        0 <= n,
    ensures
        count_row(row, p, n) <= n,
    decreases n,
{
    if n > 0 {
        lemma_count_row_bound(row, p, n - 1);
    }
}

proof fn lemma_count_rows_bound(cells: Seq<Seq<Piece>>, p: Piece, m: int)
    requires
        0 <= m,
    ensures
        count_rows(cells, p, m) <= 8 * m,
    decreases m,
{
    if m > 0 {
        lemma_count_rows_bound(cells, p, m - 1);
        lemma_count_row_bound(cells[m - 1], p, 8);
    }
}

/// Rows that agree on which cells hold `p`, but for cell `x`, which only the
/// first has `p`, differ by one in their cells `p` past `x`.
proof fn lemma_row_change(ra: Seq<Piece>, rb: Seq<Piece>, p: Piece, x: int, n: int)
    requires
        0 <= n <= 8,
        forall|c: int| 0 <= c < 8 && c != x ==> (#[trigger] ra[c] == p) == (rb[c] == p),
        0 <= x < 8 ==> ra[x] == p && rb[x] != p,
    ensures
        count_row(ra, p, n) == count_row(rb, p, n) + if 0 <= x < n {
            1nat
        } else {
            0nat
        },
    decreases n,
{
    if n > 0 {
        lemma_row_change(ra, rb, p, x, n - 1);
    }
}

/// Boards that agree on which cells hold `p`, but for `(y, x)`, which only
/// the first has `p`, differ by one in their count of `p`.
proof fn lemma_rows_change(a: BoardModel, b: BoardModel, p: Piece, y: int, x: int, m: int)
    requires
        a.wf(),
        b.wf(),
        on_board(y, x),
        0 <= m <= 8,
        forall|r: int, c: int|
            on_board(r, c) && !(r == y && c == x) ==> (#[trigger] a.at(r, c) == p) == (b.at(r, c) == p),
        a.at(y, x) == p,
        b.at(y, x) != p,
    ensures
        count_rows(a.cells, p, m) == count_rows(b.cells, p, m) + if y < m {
            1nat
        } else {
            0nat
        },
    decreases m,
{
    if m > 0 {
        lemma_rows_change(a, b, p, y, x, m - 1);
        let r = m - 1;
        assert forall|c: int| 0 <= c < 8 && c != (if r == y { x } else { -1 }) implies (#[trigger] a.cells[r][c] == p) == (b.cells[r][c] == p) by {
            assert(a.at(r, c) == a.cells[r][c]);
        }
        lemma_row_change(a.cells[r], b.cells[r], p, if r == y { x } else { -1 }, 8);
    }
}

/// A placement fills exactly one empty cell: the one it is made on.
pub proof fn lemma_put_fills_one(b: BoardModel, y: int, x: int)
    requires
        b.wf(),
        on_board(y, x),
        b.at(y, x) == Piece::Empty,
        b.legal_put(y, x),
    ensures
        b.placed(y, x).wf(),
        b.placed(y, x).count(Piece::Empty) + 1 == b.count(Piece::Empty),
{
    let n = b.placed(y, x);
    assert forall|r: int, c: int| on_board(r, c) && !(r == y && c == x) implies (#[trigger] b.at(r, c)
        == Piece::Empty) == (n.at(r, c) == Piece::Empty) by {
        if b.flips(y, x, r, c) {
            let d = choose|d: int| 0 <= d < 8 && #[trigger] on_ray(y, x, d, b.dir_count(y, x, d) as int, r, c);
            lemma_ray(b, y, x, d, 1);
            let k = choose|k: int|
                1 <= k <= b.dir_count(y, x, d) && r == y + #[trigger] scale(dir_y(d), k) && c == x + scale(dir_x(d), k);
            assert(b.at(y + scale(dir_y(d), k), x + scale(dir_x(d), k)) != Piece::Empty);
        }
    }
    lemma_rows_change(b, n, Piece::Empty, y, x, 8);
}

/// Sum of the first `d` entries of the reversal vector at `(y, x)`.
pub open spec fn reversal_sum(b: BoardModel, y: int, x: int, d: int) -> nat
    decreases d,
{
    if d <= 0 {
        0
    } else {
        reversal_sum(b, y, x, d - 1) + b.dir_count(y, x, d - 1)
    }
}

/// The cells that a placement at `(y, x)` has turned once the lines in
/// directions below `d`, and the first `i` cells in direction `d`, are done.
spec fn turned_so_far(b: BoardModel, y: int, x: int, d: int, i: int, r: int, c: int) -> bool {
    (r == y && c == x) || (exists|e: int|
        0 <= e < d && #[trigger] on_ray(y, x, e, b.dir_count(y, x, e) as int, r, c)) || on_ray(
        y,
        x,
        d,
        i,
        r,
        c,
    )
}

spec fn partly_placed(b: BoardModel, y: int, x: int, d: int, i: int) -> BoardModel {
    BoardModel {
        cells: Seq::new(
            8,
            |r: int|
                Seq::new(
                    8,
                    |c: int|
                        if turned_so_far(b, y, x, d, i, r, c) {
                            b.mover()
                        } else {
                            b.at(r, c)
                        },
                ),
        ),
        first: b.first,
    }
}

/// Two steps from the same cell in directions `d` and `e` reach the same cell
/// only when direction and length agree.
proof fn lemma_rays_apart(d: int, e: int, k: int, j: int)
    requires
        0 <= d < 8,
        0 <= e < 8,
        1 <= k,
        1 <= j,
        scale(dir_y(d), k) == scale(dir_y(e), j),
        scale(dir_x(d), k) == scale(dir_x(e), j),
    ensures
        d == e,
        k == j,
{
}

proof fn lemma_partly_placed(b: BoardModel, y: int, x: int, d: int, i: int)
    requires
        b.wf(),
        on_board(y, x),
        b.at(y, x) == Piece::Empty,
        0 <= d < 8,
        0 <= i <= b.dir_count(y, x, d),
    ensures
        partly_placed(b, y, x, d, i).wf(),
        partly_placed(b, y, x, d, i).count(b.mover()) == b.count(b.mover()) + 1 + reversal_sum(
            b,
            y,
            x,
            d,
        ) + i,
    decreases d, i,
{
    let cur = partly_placed(b, y, x, d, i);
    let m = b.mover();
    if i > 0 {
        lemma_partly_placed(b, y, x, d, i - 1);
        let prev = partly_placed(b, y, x, d, i - 1);
        lemma_ray(b, y, x, d, 1);
        let (r0, c0) = (y + scale(dir_y(d), i), x + scale(dir_x(d), i));
        assert(on_board(r0, c0));
        assert(!turned_so_far(b, y, x, d, i - 1, r0, c0)) by {
            if exists|e: int| 0 <= e < d && #[trigger] on_ray(y, x, e, b.dir_count(y, x, e) as int, r0, c0) {
                let e = choose|e: int| 0 <= e < d && #[trigger] on_ray(y, x, e, b.dir_count(y, x, e) as int, r0, c0);
                let j = choose|j: int|
                    1 <= j <= b.dir_count(y, x, e) && r0 == y + #[trigger] scale(dir_y(e), j) && c0 == x + scale(dir_x(e), j);
                lemma_rays_apart(d, e, i, j);
            }
            if on_ray(y, x, d, i - 1, r0, c0) {
                let j = choose|j: int|
                    1 <= j <= i - 1 && r0 == y + #[trigger] scale(dir_y(d), j) && c0 == x + scale(dir_x(d), j);
                lemma_rays_apart(d, d, i, j);
            }
        }
        assert forall|r: int, c: int| on_board(r, c) && !(r == r0 && c == c0) implies (#[trigger] cur.at(r, c)
            == m) == (prev.at(r, c) == m) by {
            if on_ray(y, x, d, i, r, c) && !on_ray(y, x, d, i - 1, r, c) {
                let j = choose|j: int|
                    1 <= j <= i && r == y + #[trigger] scale(dir_y(d), j) && c == x + scale(dir_x(d), j);
                assert(j == i);
            }
            if on_ray(y, x, d, i - 1, r, c) {
                let j = choose|j: int|
                    1 <= j <= i - 1 && r == y + #[trigger] scale(dir_y(d), j) && c == x + scale(dir_x(d), j);
                assert(on_ray(y, x, d, i, r, c));
            }
        }
        assert(on_ray(y, x, d, i, r0, c0));
        assert(cur.at(r0, c0) == m);
        lemma_rows_change(cur, prev, m, r0, c0, 8);
    } else if d > 0 {
        let n = b.dir_count(y, x, d - 1) as int;
        lemma_partly_placed(b, y, x, d - 1, n);
        let prev = partly_placed(b, y, x, d - 1, n);
        assert forall|r: int, c: int| on_board(r, c) implies turned_so_far(b, y, x, d, 0, r, c)
            == turned_so_far(b, y, x, d - 1, n, r, c) by {
            if on_ray(y, x, d, 0, r, c) {
                let j = choose|j: int|
                    1 <= j <= 0 && r == y + #[trigger] scale(dir_y(d), j) && c == x + scale(dir_x(d), j);
            }
            if on_ray(y, x, d - 1, n, r, c) {
                assert(exists|e: int|
                    0 <= e < d && #[trigger] on_ray(y, x, e, b.dir_count(y, x, e) as int, r, c));
            }
        }
        assert forall|r: int| 0 <= r < 8 implies cur.cells[r] =~= prev.cells[r] by {
            assert forall|c: int| 0 <= c < 8 implies cur.cells[r][c] == prev.cells[r][c] by {
                assert(on_board(r, c));
            }
        }
        assert(cur.cells =~= prev.cells);
    } else {
        assert forall|r: int, c: int| on_board(r, c) && !(r == y && c == x) implies (#[trigger] cur.at(r, c)
            == m) == (b.at(r, c) == m) by {
            if on_ray(y, x, 0, 0, r, c) {
                let j = choose|j: int|
                    1 <= j <= 0 && r == y + #[trigger] scale(dir_y(0), j) && c == x + scale(dir_x(0), j);
            }
        }
        lemma_rows_change(cur, b, m, y, x, 8);
    }
}

/// A placement turns to the mover's color the placed cell and every
/// bracketed piece: the mover gains one piece plus the sum of the reversal
/// vector, while the board as a whole gains exactly one piece.
pub proof fn lemma_put_counts(b: BoardModel, y: int, x: int)
    requires
        b.wf(),
        on_board(y, x),
        b.at(y, x) == Piece::Empty,
        b.legal_put(y, x),
    ensures
        b.placed(y, x).count(b.mover()) == b.count(b.mover()) + 1 + reversal_sum(b, y, x, 8),
        b.placed(y, x).count(Piece::Empty) + 1 == b.count(Piece::Empty),
{
    lemma_put_fills_one(b, y, x);
    let n = b.dir_count(y, x, 7) as int;
    lemma_partly_placed(b, y, x, 7, n);
    let part = partly_placed(b, y, x, 7, n);
    let fin = b.placed(y, x);
    assert forall|r: int| 0 <= r < 8 implies fin.cells[r] =~= part.cells[r] by {
        assert forall|c: int| 0 <= c < 8 implies fin.cells[r][c] == part.cells[r][c] by {
            if on_ray(y, x, 7, n, r, c) {
                assert(b.flips(y, x, r, c));
            }
            if b.flips(y, x, r, c) && !(r == y && c == x) {
                let e = choose|e: int| 0 <= e < 8 && #[trigger] on_ray(y, x, e, b.dir_count(y, x, e) as int, r, c);
                if e < 7 {
                    assert(turned_so_far(b, y, x, 7, n, r, c));
                }
            }
        }
    }
    assert(fin.cells =~= part.cells);
}

proof fn lemma_row_puts(b: BoardModel, y: int, x: int)
    requires
        0 <= y < 8,
        0 <= x <= 8,
    ensures
        forall|i: int|
            0 <= i < b.row_puts(y, x).len() ==> {
                let a = #[trigger] b.row_puts(y, x)[i];
                &&& a is Put
                &&& a->Put_0 == y
                &&& a->Put_1 < x
                &&& b.legal_put(y, a->Put_1 as int)
            },
        forall|c: int|
            0 <= c < x && #[trigger] b.legal_put(y, c) ==> b.row_puts(y, x).contains(
                Action::Put(y as usize, c as usize),
            ),
    decreases x,
{
    if x > 0 {
        lemma_row_puts(b, y, x - 1);
        let prev = b.row_puts(y, x - 1);
        let cur = b.row_puts(y, x);
        assert forall|c: int| 0 <= c < x && #[trigger] b.legal_put(y, c) implies cur.contains(
            Action::Put(y as usize, c as usize),
        ) by {
            if c < x - 1 {
                let i = choose|i: int| 0 <= i < prev.len() && prev[i] == Action::Put(y as usize, c as usize);
                assert(cur[i] == prev[i]);
            } else {
                assert(cur[prev.len() as int] == Action::Put(y as usize, c as usize));
            }
        }
    }
}

proof fn lemma_rows_puts(b: BoardModel, y: int)
    requires
        0 <= y <= 8,
    ensures
        forall|i: int|
            0 <= i < b.rows_puts(y).len() ==> {
                let a = #[trigger] b.rows_puts(y)[i];
                &&& a is Put
                &&& a->Put_0 < y
                &&& a->Put_1 < 8
                &&& b.legal_put(a->Put_0 as int, a->Put_1 as int)
            },
        forall|r: int, c: int|
            0 <= r < y && 0 <= c < 8 && #[trigger] b.legal_put(r, c) ==> b.rows_puts(y).contains(
                Action::Put(r as usize, c as usize),
            ),
    decreases y,
{
    if y > 0 {
        lemma_rows_puts(b, y - 1);
        lemma_row_puts(b, y - 1, 8);
        let prev = b.rows_puts(y - 1);
        let row = b.row_puts(y - 1, 8);
        let cur = b.rows_puts(y);
        assert forall|i: int| 0 <= i < cur.len() implies {
            let a = #[trigger] cur[i];
            &&& a is Put
            &&& a->Put_0 < y
            &&& a->Put_1 < 8
            &&& b.legal_put(a->Put_0 as int, a->Put_1 as int)
        } by {
            if i >= prev.len() {
                assert(cur[i] == row[i - prev.len()]);
            }
        }
        assert forall|r: int, c: int|
            0 <= r < y && 0 <= c < 8 && #[trigger] b.legal_put(r, c) implies cur.contains(
            Action::Put(r as usize, c as usize),
        ) by {
            if r < y - 1 {
                let i = choose|i: int| 0 <= i < prev.len() && prev[i] == Action::Put(r as usize, c as usize);
                assert(cur[i] == prev[i]);
            } else {
                let i = choose|i: int| 0 <= i < row.len() && row[i] == Action::Put(r as usize, c as usize);
                assert(cur[prev.len() + i] == row[i]);
            }
        }
    }
}

/// What the list of legal placements holds: exactly the placements that capture.
pub proof fn lemma_legal_puts(b: BoardModel)
    ensures
        forall|i: int|
            0 <= i < b.legal_puts().len() ==> {
                let a = #[trigger] b.legal_puts()[i];
                &&& a is Put
                &&& a.valid()
                &&& b.legal_put(a->Put_0 as int, a->Put_1 as int)
            },
        forall|y: int, x: int|
            on_board(y, x) && #[trigger] b.legal_put(y, x) ==> b.legal_puts().contains(
                Action::Put(y as usize, x as usize),
            ),
        b.legal_puts().len() > 0 <==> b.has_put(),
{
    lemma_rows_puts(b, 8);
    if b.legal_puts().len() > 0 {
        let a = b.legal_puts()[0];
        assert(b.legal_put(a->Put_0 as int, a->Put_1 as int));
    }
    if b.has_put() {
        let (y, x) = choose|y: int, x: int| on_board(y, x) && #[trigger] b.legal_put(y, x);
        assert(b.legal_puts().contains(Action::Put(y as usize, x as usize)));
    }
}



/// `First` on (4,3) and (3,4), `Second` on (3,3) and (4,4), `First` to move.
pub open spec fn initial() -> BoardModel {
    BoardModel {
        cells: Seq::new(
            8,
            |y: int|
                Seq::new(
                    8,
                    |x: int|
                        if (y == 4 && x == 3) || (y == 3 && x == 4) {
                            Piece::First
                        } else if (y == 3 && x == 3) || (y == 4 && x == 4) {
                            Piece::Second
                        } else {
                            Piece::Empty
                        },
                ),
        ),
        first: true,
    }
}

fn direction(d: usize) -> (r: (isize, isize))
    requires
        d < 8,
    ensures
        r.0 == dir_y(d as int),
        r.1 == dir_x(d as int),
{
    if d == 0 {
        (0, 1)
    } else if d == 1 {
        (1, 1)
    } else if d == 2 {
        (1, 0)
    } else if d == 3 {
        (1, -1)
    } else if d == 4 {
        (0, -1)
    } else if d == 5 {
        (-1, -1)
    } else if d == 6 {
        (-1, 0)
    } else {
        (-1, 1)
    }
}

/// Signed coordinates lie on the board.
pub fn is_in_i(y: isize, x: isize) -> (r: bool)
    ensures
        r == on_board(y as int, x as int),
{
    0 <= y && y < SIZE as isize && 0 <= x && x < SIZE as isize
}

/// Unsigned coordinates lie on the board.
pub fn is_in(y: usize, x: usize) -> (r: bool)
    ensures
        r == on_board(y as int, x as int),
{
    y < SIZE && x < SIZE
}

impl Reversi {
    /// The canonical opening position, `First` to move.
    pub fn new() -> (r: Reversi)
        ensures
            r@ == initial(),
    {
        let mut board = [[Piece::Empty; SIZE]; SIZE];
        let mut row = board[4];
        row[3] = Piece::First;
        row[4] = Piece::Second;
        board[4] = row;
        let mut row = board[3];
        row[4] = Piece::First;
        row[3] = Piece::Second;
        board[3] = row;
        let r = Reversi { board, first: true };
        proof {
            r.lemma_wf();
            assert forall|y: int, x: int| on_board(y, x) implies #[trigger] r@.at(y, x) == initial().at(
                y,
                x,
            ) by {
                assert(r@.at(y, x) == r.board@[y]@[x]);
            }
            lemma_model_eq(r@, initial());
        }
        r
    }

    /// The color whose turn it is.
    pub fn active(&self) -> (r: Piece)
        ensures
            r == self@.mover(),
    {
        if self.first {
            Piece::First
        } else {
            Piece::Second
        }
    }

    /// Whether `First` is to move.
    pub fn is_first(&self) -> (r: bool)
        ensures
            r == self@.first,
    {
        self.first
    }

    /// The piece at `(y, x)`.
    pub fn get(&self, y: usize, x: usize) -> (r: Piece)
        requires
            y < SIZE,
            x < SIZE,
        ensures
            r == self@.at(y as int, x as int),
    {
        self.board[y][x]
    }
    /// For each direction, how many opponent pieces a placement at `(y, x)` would
    /// flip; all zero when the cell is occupied.
    pub fn reversal(&self, y: usize, x: usize) -> (r: [usize; SIZE])
        requires
            y < SIZE,
            x < SIZE,
        ensures
            forall|d: int| 0 <= d < 8 ==> #[trigger] r@[d] == self@.dir_count(y as int, x as int, d),
    {
        let mut res = [0usize; SIZE];
        if self.board[y][x] != Piece::Empty {
            return res;
        }
        let mut d: usize = 0;
        while d < SIZE
            invariant
                d <= 8,
                y < 8,
                x < 8,
                self@.at(y as int, x as int) == Piece::Empty,
                forall|e: int| 0 <= e < d ==> #[trigger] res@[e] == self@.dir_count(y as int, x as int, e),
            decreases 8 - d,
        {
            let (dy, dx) = direction(d);
            let mut ny: isize = y as isize + dy;
            let mut nx: isize = x as isize + dx;
            let mut k: usize = 1;
            let mut n: usize = 0;
            loop
                invariant
                    1 <= k <= 8,
                    -1 <= ny <= 8,
                    -1 <= nx <= 8,
                    d < 8,
                    dy as int == dir_y(d as int),
                    dx as int == dir_x(d as int),
                    self@.ray(ny as int, nx as int, dy as int, dx as int, k as int) == self@.dir_count(
                        y as int,
                        x as int,
                        d as int,
                    ),
                ensures
                    n == self@.dir_count(y as int, x as int, d as int),
                decreases 8 - k,
            {
                if k >= SIZE || !is_in_i(ny, nx) {
                    n = 0;
                    break;
                }
                let t = self.board[ny as usize][nx as usize];
                if t == Piece::Empty {
                    n = 0;
                    break;
                }
                if t == self.active() {
                    n = k - 1;
                    break;
                }
                ny = ny + dy;
                nx = nx + dx;
                k = k + 1;
            }
            res[d] = n;
            d = d + 1;
        }
        res
    }
    fn captures(r: &[usize; SIZE]) -> (found: bool)
        ensures
            found == exists|d: int| 0 <= d < 8 && #[trigger] r@[d] > 0,
    {
        let mut k: usize = 0;
        while k < SIZE
            invariant
                k <= 8,
                forall|e: int| 0 <= e < k ==> #[trigger] r@[e] == 0,
            decreases 8 - k,
        {
            if r[k] > 0 {
                return true;
            }
            k = k + 1;
        }
        false
    }

    /// The legal actions of the side to move: every capturing placement in
    /// row-major order, or `[Pass]` where there is none.
    pub fn playable(&self) -> (r: Vec<Action>)
        ensures
            r@ == self@.legal_actions(),
    {
        let mut res: Vec<Action> = Vec::new();
        let mut y: usize = 0;
        while y < SIZE
            invariant
                y <= 8,
                res@ == self@.rows_puts(y as int),
            decreases 8 - y,
        {
            let mut x: usize = 0;
            while x < SIZE
                invariant
                    y < 8,
                    x <= 8,
                    res@ == self@.rows_puts(y as int) + self@.row_puts(y as int, x as int),
                decreases 8 - x,
            {
                let r = self.reversal(y, x);
                let c = Self::captures(&r);
                assert(c == self@.legal_put(y as int, x as int)) by {
                    if c {
                        let d = choose|d: int| 0 <= d < 8 && #[trigger] r@[d] > 0;
                        assert(self@.dir_count(y as int, x as int, d) > 0);
                    }
                    if self@.legal_put(y as int, x as int) {
                        let d = choose|d: int|
                            0 <= d < 8 && #[trigger] self@.dir_count(y as int, x as int, d) > 0;
                        assert(r@[d] > 0);
                    }
                }
                if c {
                    res.push(Action::Put(y, x));
                }
                assert(res@ =~= self@.rows_puts(y as int) + self@.row_puts(y as int, x as int + 1));
                x = x + 1;
            }
            assert(res@ =~= self@.rows_puts(y as int + 1));
            y = y + 1;
        }
        if res.len() == 0 {
            res.push(Action::Pass);
            assert(res@ =~= seq![Action::Pass]);
        }
        res
    }

    /// Neither side can place a piece.
    pub fn is_end(&self) -> (r: bool)
        ensures
            r == self@.terminal(),
    {
        proof {
            lemma_legal_puts(self@);
            lemma_legal_puts(self@.toggled());
        }
        let p = self.playable();
        if p[0] != Action::Pass {
            return false;
        }
        let b = Reversi { board: self.board, first: !self.first };
        assert(b@.cells =~= self@.cells);
        let q = b.playable();
        q[0] == Action::Pass
    }
    /// The model of every board has eight rows of eight cells.
    pub proof fn lemma_wf(&self)
        ensures
            self@.wf(),
    {
        assert forall|r: int| 0 <= r < 8 implies #[trigger] self@.cells[r].len() == 8 by {
            assert(self@.cells[r] == self.board@[r]@);
        }
    }

    fn set(&mut self, y: usize, x: usize, p: Piece)
        requires
            y < SIZE,
            x < SIZE,
        ensures
            final(self)@.first == old(self)@.first,
            forall|r: int, c: int|
                on_board(r, c) ==> #[trigger] final(self)@.at(r, c) == if r == y && c == x {
                    p
                } else {
                    old(self)@.at(r, c)
                },
    {
        let mut row = self.board[y];
        row[x] = p;
        self.board[y] = row;
    }

    /// Applies `a` for the side to move. On success the board becomes
    /// `step(a)`; on failure it is unchanged and the reason is returned.
    pub fn act(&mut self, a: Action) -> (r: Result<(), ActError>)
        requires
            a.valid(),
        ensures
            final(self)@.wf(),
            match old(self)@.step(a) {
                Ok(b) => r is Ok && final(self)@ == b,
                Err(e) => r == Err::<(), ActError>(e) && final(self)@ == old(self)@,
            },
    {
        proof {
            self.lemma_wf();
        }
        if self.is_end() {
            return Err(ActError::GameOver);
        }
        match a {
            Action::Put(y, x) => {
                if self.board[y][x] != Piece::Empty {
                    return Err(ActError::CellOccupied(y, x));
                }
                let r = self.reversal(y, x);
                let c = Self::captures(&r);
                assert(c == self@.legal_put(y as int, x as int)) by {
                    if c {
                        let d = choose|d: int| 0 <= d < 8 && #[trigger] r@[d] > 0;
                        assert(self@.dir_count(y as int, x as int, d) > 0);
                    }
                    if self@.legal_put(y as int, x as int) {
                        let d = choose|d: int|
                            0 <= d < 8 && #[trigger] self@.dir_count(y as int, x as int, d) > 0;
                        assert(r@[d] > 0);
                    }
                }
                if !c {
                    return Err(ActError::NoCapture(y, x));
                }
                let p = self.active();
                let ghost old_b = self@;
                let ghost yi = y as int;
                let ghost xi = x as int;
                self.set(y, x, p);
                let mut d: usize = 0;
                while d < SIZE
                    invariant
                        d <= 8,
                        y < 8,
                        x < 8,
                        yi == y as int,
                        xi == x as int,
                        p == old_b.mover(),
                        self@.first == old_b.first,
                        forall|e: int| 0 <= e < 8 ==> #[trigger] r@[e] == old_b.dir_count(yi, xi, e),
                        forall|rr: int, cc: int|
                            on_board(rr, cc) ==> #[trigger] self@.at(rr, cc) == if (rr == yi && cc
                                == xi) || exists|e: int|
                                0 <= e < d && #[trigger] on_ray(
                                    yi,
                                    xi,
                                    e,
                                    old_b.dir_count(yi, xi, e) as int,
                                    rr,
                                    cc,
                                ) {
                                p
                            } else {
                                old_b.at(rr, cc)
                            },
                    decreases 8 - d,
                {
                    let (dy, dx) = direction(d);
                    let n = r[d];
                    let ghost di = d as int;
                    proof {
                        lemma_ray(old_b, yi, xi, di, 1);
                    }
                    let mut ny: isize = y as isize;
                    let mut nx: isize = x as isize;
                    let mut i: usize = 0;
                    while i < n
                        invariant
                            d < 8,
                            y < 8,
                            x < 8,
                            yi == y as int,
                            xi == x as int,
                            di == d as int,
                            i <= n,
                            n == old_b.dir_count(yi, xi, di),
                            dy as int == dir_y(di),
                            dx as int == dir_x(di),
                            ny == yi + scale(dir_y(di), i as int),
                            nx == xi + scale(dir_x(di), i as int),
                            forall|j: int|
                                1 <= j <= n ==> on_board(
                                    yi + #[trigger] scale(dir_y(di), j),
                                    xi + scale(dir_x(di), j),
                                ),
                            p == old_b.mover(),
                            self@.first == old_b.first,
                            forall|rr: int, cc: int|
                                on_board(rr, cc) ==> #[trigger] self@.at(rr, cc) == if (rr == yi
                                    && cc == xi) || (exists|e: int|
                                    0 <= e < d && #[trigger] on_ray(
                                        yi,
                                        xi,
                                        e,
                                        old_b.dir_count(yi, xi, e) as int,
                                        rr,
                                        cc,
                                    )) || on_ray(yi, xi, di, i as int, rr, cc) {
                                    p
                                } else {
                                    old_b.at(rr, cc)
                                },
                        decreases n - i,
                    {
                        assert(scale(dir_y(di), i + 1) == scale(dir_y(di), i as int) + dir_y(di));
                        assert(scale(dir_x(di), i + 1) == scale(dir_x(di), i as int) + dir_x(di));
                        assert(on_board(yi + scale(dir_y(di), i + 1), xi + scale(dir_x(di), i + 1)));
                        ny = ny + dy;
                        nx = nx + dx;
                        self.set(ny as usize, nx as usize, p);
                        i = i + 1;
                        assert forall|rr: int, cc: int| on_board(rr, cc) implies
                            on_ray(yi, xi, di, i as int, rr, cc) == (on_ray(yi, xi, di, i - 1, rr, cc)
                            || (rr == ny && cc == nx)) by {
                            if rr == ny && cc == nx {
                                assert(scale(dir_y(di), i as int) == rr - yi);
                            }
                        }
                    }
                    assert forall|rr: int, cc: int| on_board(rr, cc) implies (exists|e: int|
                        0 <= e < d + 1 && #[trigger] on_ray(
                            yi,
                            xi,
                            e,
                            old_b.dir_count(yi, xi, e) as int,
                            rr,
                            cc,
                        )) == ((exists|e: int|
                        0 <= e < d && #[trigger] on_ray(
                            yi,
                            xi,
                            e,
                            old_b.dir_count(yi, xi, e) as int,
                            rr,
                            cc,
                        )) || on_ray(yi, xi, di, i as int, rr, cc)) by {
                        if on_ray(yi, xi, di, i as int, rr, cc) {
                            assert(on_ray(yi, xi, di, old_b.dir_count(yi, xi, di) as int, rr, cc));
                        }
                    }
                    d = d + 1;
                }
                let ghost mid = self@;
                self.first = !self.first;
                assert(self@.cells =~= mid.cells);
                proof {
                    self.lemma_wf();
                    let b = old_b.placed(yi, xi);
                    assert forall|rr: int, cc: int| on_board(rr, cc) implies #[trigger] self@.at(
                        rr,
                        cc,
                    ) == b.at(rr, cc) by {
                        assert(self@.at(rr, cc) == mid.at(rr, cc));
                        assert(b.at(rr, cc) == if old_b.flips(yi, xi, rr, cc) {
                            old_b.mover()
                        } else {
                            old_b.at(rr, cc)
                        });
                    }
                    lemma_model_eq(self@, b);
                }
                Ok(())
            },
            Action::Pass => {
                let v = self.playable();
                proof {
                    lemma_legal_puts(self@);
                }
                if v.len() != 1 || v[0] != Action::Pass {
                    return Err(ActError::IllegalPass);
                }
                let ghost old_b = self@;
                self.first = !self.first;
                assert(self@.cells =~= old_b.cells);
                proof {
                    self.lemma_wf();
                }
                Ok(())
            },
        }
    }
    /// The signed margin for `First`: pieces of `First` minus pieces of
    /// `Second`, or -64 / +64 when `First` / `Second` has none left.
    pub fn result(&self) -> (r: isize)
        ensures
            r == self@.score(),
            -64 <= r <= 64,
    {
        let mut f: isize = 0;
        let mut s: isize = 0;
        let mut y: usize = 0;
        while y < SIZE
            invariant
                y <= 8,
                f == count_rows(self@.cells, Piece::First, y as int),
                s == count_rows(self@.cells, Piece::Second, y as int),
            decreases 8 - y,
        {
            proof {
                lemma_count_rows_bound(self@.cells, Piece::First, y as int);
                lemma_count_rows_bound(self@.cells, Piece::Second, y as int);
            }
            let mut x: usize = 0;
            while x < SIZE
                invariant
                    y < 8,
                    x <= 8,
                    f == count_rows(self@.cells, Piece::First, y as int) + count_row(self@.cells[y as int], Piece::First, x as int),
                    s == count_rows(self@.cells, Piece::Second, y as int) + count_row(self@.cells[y as int], Piece::Second, x as int),
                    count_rows(self@.cells, Piece::First, y as int) <= 8 * y,
                    count_rows(self@.cells, Piece::Second, y as int) <= 8 * y,
                decreases 8 - x,
            {
                proof {
                    lemma_count_row_bound(self@.cells[y as int], Piece::First, x as int);
                    lemma_count_row_bound(self@.cells[y as int], Piece::Second, x as int);
                }
                match self.board[y][x] {
                    Piece::Empty => {},
                    Piece::First => f = f + 1,
                    Piece::Second => s = s + 1,
                }
                x = x + 1;
            }
            y = y + 1;
        }
        proof {
            lemma_count_rows_bound(self@.cells, Piece::First, 8);
            lemma_count_rows_bound(self@.cells, Piece::Second, 8);
        }
        if f == 0 {
            -((SIZE * SIZE) as isize)
        } else if s == 0 {
            (SIZE * SIZE) as isize
        } else {
            f - s
        }
    }
}

} // verus!
