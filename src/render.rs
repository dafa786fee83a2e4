//! A text picture of a board: one line per row, then whose turn it is or,
//! once the game is over, its result.
use vstd::prelude::*;
use crate::board::{BoardModel, Piece, Reversi};
use crate::protocol::{digit_char, digit_text};

verus! {

pub open spec fn piece_char(p: Piece) -> char {
    match p {
        Piece::Empty => '.',
        Piece::First => 'O',
        Piece::Second => 'X',
    }
}

/// The first `n` cells of a row, one character each.
pub open spec fn row_text(row: Seq<Piece>, n: int) -> Seq<char>
    decreases n,
{
    if n <= 0 {
        Seq::empty()
    } else {
        row_text(row, n - 1).push(piece_char(row[n - 1]))
    }
}

/// The first `m` rows, each ended by a newline.
pub open spec fn grid_text(cells: Seq<Seq<Piece>>, m: int) -> Seq<char>
    decreases m,
{
    if m <= 0 {
        Seq::empty()
    } else {
        grid_text(cells, m - 1) + row_text(cells[m - 1], 8).push('\n')
    }
}

/// The decimal digits of `n`.
pub open spec fn decimal(n: nat) -> Seq<char>
    decreases n,
{
    if n < 10 {
        seq![digit_char(n as int)]
    } else {
        decimal(n / 10).push(digit_char((n % 10) as int))
    }
}

/// `v` in decimal, with a leading `-` when negative.
pub open spec fn signed_decimal(v: int) -> Seq<char> {
    if v < 0 {
        seq!['-'] + decimal((-v) as nat)
    } else {
        decimal(v as nat)
    }
}

/// The whole picture of a board.
pub open spec fn render_of(b: BoardModel) -> Seq<char> {
    grid_text(b.cells, 8) + if b.terminal() {
        seq!['O', 'v', 'e', 'r', '!', ' ', 'R', 'e', 's', 'u', 'l', 't', ':', ' '] + signed_decimal(
            b.score(),
        ) + seq!['\n']
    } else {
        seq![if b.first { 'X' } else { 'O' }] + seq!['\'', 's', ' ', 't', 'u', 'r', 'n', '\n']
    }
}

fn piece_text(p: Piece) -> (r: &'static str)
    ensures
        r@ == seq![piece_char(p)],
{
    proof {
        reveal_strlit(".");
        reveal_strlit("O");
        reveal_strlit("X");
    }
    match p {
        Piece::Empty => ".",
        Piece::First => "O",
        Piece::Second => "X",
    }
}

/// Appends `v` in decimal.
fn append_signed(s: &mut String, v: isize)
    requires
        -100 < v < 100,
    ensures
        final(s)@ == old(s)@ + signed_decimal(v as int),
{
    proof {
        reveal_strlit("-");
        reveal_with_fuel(decimal, 2);
    }
    let n: usize = if v < 0 {
        s.append("-");
        (0 - v) as usize
    } else {
        v as usize
    };
    if n >= 10 {
        s.append(digit_text(n / 10));
    }
    s.append(digit_text(n % 10));
    proof {
        if n >= 10 {
            assert(decimal((n / 10) as nat) == seq![digit_char((n / 10) as int)]);
        }
    }
    assert(final(s)@ =~= old(s)@ + signed_decimal(v as int)) by {
        if v < 0 {
            assert(seq!['-'] + decimal(n as nat) =~= signed_decimal(v as int));
        }
    }
}

impl Reversi {
    /// The board as text: a line of `.`, `O` (`First`) and `X` (`Second`) per
    /// row, then `Over! Result: <n>` once the game is over, or else
    /// `<c>'s turn`, where `c` is `X` when `First` is to move and `O` otherwise.
    pub fn render(&self) -> (r: String)
        ensures
            r@ == render_of(self@),
    {
        proof {
            self.lemma_wf();
        }
        let mut s = String::from_str("");
        proof {
            reveal_strlit("");
        }
        let mut y: usize = 0;
        while y < 8
            invariant
                y <= 8,
                self@.wf(),
                s@ == grid_text(self@.cells, y as int),
            decreases 8 - y,
        {
            let mut x: usize = 0;
            while x < 8
                invariant
                    y < 8,
                    x <= 8,
                    self@.wf(),
                    s@ == grid_text(self@.cells, y as int) + row_text(self@.cells[y as int], x as int),
                decreases 8 - x,
            {
                s.append(piece_text(self.get(y, x)));
                assert(s@ =~= grid_text(self@.cells, y as int) + row_text(self@.cells[y as int], x + 1));
                x = x + 1;
            }
            s.append("\n");
            proof {
                reveal_strlit("\n");
                assert("\n"@ =~= seq!['\n']);
            }
            assert(s@ =~= grid_text(self@.cells, y + 1));
            y = y + 1;
        }
        if self.is_end() {
            s.append("Over! Result: ");
            append_signed(&mut s, self.result());
            s.append("\n");
            proof {
                reveal_strlit("Over! Result: ");
                reveal_strlit("\n");
            }
            assert(s@ =~= render_of(self@));
        } else {
            s.append(if self.is_first() { "X" } else { "O" });
            s.append("'s turn\n");
            proof {
                reveal_strlit("X");
                reveal_strlit("O");
                reveal_strlit("'s turn\n");
            }
            assert(s@ =~= render_of(self@));
        }
        s
    }
}

} // verus!
