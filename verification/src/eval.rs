//! Deciding whether a game is finished, and scoring it.

use vstd::prelude::*;
use crate::board::{cells, Board, Cell, Player};

verus! {

/// The score of a board on which X has completed a line.
pub const MAX_SCORE: i8 = 10;

/// The score of a board on which O has completed a line.
pub const MIN_SCORE: i8 = -10;

/// The player who holds all three of the cells `a`, `b` and `c`, if one does.
pub open spec fn line_owner(a: Cell, b: Cell, c: Cell) -> Option<Player> {
    match a {
        Cell::Occupied(p) => if b == a && c == a {
            Some(p)
        } else {
            None
        },
        Cell::Empty => None,
    }
}

/// The eight lines in the order in which they are examined: each row followed
/// by the column of the same number, then the main diagonal, then the other.
pub open spec fn lines() -> Seq<(int, int, int)> {
    seq![
        (0, 1, 2),
        (0, 3, 6),
        (3, 4, 5),
        (1, 4, 7),
        (6, 7, 8),
        (2, 5, 8),
        (0, 4, 8),
        (2, 4, 6),
    ]
}

/// The owner of line number `k` on the grid `g`.
pub open spec fn owner_of(g: Seq<Cell>, k: int) -> Option<Player> {
    let l = lines()[k];
    line_owner(g[l.0], g[l.1], g[l.2])
}

/// The owner of the first completed line on `g`, in the order of `lines`.
pub open spec fn winner(g: Seq<Cell>) -> Option<Player> {
    if owner_of(g, 0) is Some {
        owner_of(g, 0)
    } else if owner_of(g, 1) is Some {
        owner_of(g, 1)
    } else if owner_of(g, 2) is Some {
        owner_of(g, 2)
    } else if owner_of(g, 3) is Some {
        owner_of(g, 3)
    } else if owner_of(g, 4) is Some {
        owner_of(g, 4)
    } else if owner_of(g, 5) is Some {
        owner_of(g, 5)
    } else if owner_of(g, 6) is Some {
        owner_of(g, 6)
    } else {
        owner_of(g, 7)
    }
}

/// Whether `player` holds some complete line on `g`.
pub open spec fn has_line(g: Seq<Cell>, player: Player) -> bool {
    exists|k: int| 0 <= k < 8 && #[trigger] owner_of(g, k) == Some(player)
}

/// The score of `g`: ten for a line of X, minus ten for a line of O, zero
/// where no line is complete.
pub open spec fn score_of(g: Seq<Cell>) -> int {
    match winner(g) {
        Some(Player::X) => 10,
        Some(Player::O) => -10,
        None => 0,
    }
}

/// Whether no cell of `g` is empty.
pub open spec fn is_full(g: Seq<Cell>) -> bool {
    forall|i: int| 0 <= i < 9 ==> #[trigger] g[i] != Cell::Empty
}

/// Whether the game on `g` is finished: the grid is full or a line is complete.
pub open spec fn is_over(g: Seq<Cell>) -> bool {
    is_full(g) || score_of(g) != 0
}

/// Returns the player who holds all three cells, if one does.
pub fn check_line(a: Cell, b: Cell, c: Cell) -> (owner: Option<Player>)
    ensures
        owner == line_owner(a, b, c),
{
    match a {
        Cell::Occupied(p) => if b == a && c == a {
            Some(p)
        } else {
            None
        },
        Cell::Empty => None,
    }
}

/// The score that a completed line of `player` gives.
fn line_score(player: Player) -> (score: i8)
    ensures
        score == (if player == Player::X { 10int } else { -10int }),
{
    if player == Player::X {
        MAX_SCORE
    } else {
        MIN_SCORE
    }
}

/// Scores `board` by its first completed line.
pub fn evaluate(board: Board) -> (score: i8)
    ensures
        score == score_of(cells(board)),
        score == MAX_SCORE || score == MIN_SCORE || score == 0,
        score == MAX_SCORE <==> winner(cells(board)) == Some(Player::X),
        score == MIN_SCORE <==> winner(cells(board)) == Some(Player::O),
        score == 0 <==> !has_line(cells(board), Player::X) && !has_line(cells(board), Player::O),
{
    let ghost g = cells(board);
    proof {
        lemma_winner_unfold(g);
    }
    let mut i: usize = 0;
    while i < 3
        invariant
            i <= 3,
            g == cells(board),
            forall|k: int| 0 <= k < 2 * i ==> owner_of(g, k) is None,
        decreases 3 - i,
    {
        proof {
            lemma_winner_unfold(g);
        }
        if let Some(player) = check_line(board[i][0], board[i][1], board[i][2]) {
            assert(owner_of(g, 2 * i) == Some(player));
            return line_score(player);
        }
        if let Some(player) = check_line(board[0][i], board[1][i], board[2][i]) {
            assert(owner_of(g, 2 * i + 1) == Some(player));
            return line_score(player);
        }
        assert(owner_of(g, 2 * i) is None);
        assert(owner_of(g, 2 * i + 1) is None);
        i += 1;
    }
    if let Some(player) = check_line(board[0][0], board[1][1], board[2][2]) {
        assert(owner_of(g, 6) == Some(player));
        return line_score(player);
    }
    if let Some(player) = check_line(board[0][2], board[1][1], board[2][0]) {
        assert(owner_of(g, 7) == Some(player));
        return line_score(player);
    }
    assert(owner_of(g, 6) is None);
    assert(owner_of(g, 7) is None);
    0
}

/// Whether the game on `board` is finished.
pub fn is_game_over(board: Board) -> (over: bool)
    ensures
        over == is_over(cells(board)),
{
    let ghost g = cells(board);
    let mut full = true;
    let mut row: usize = 0;
    while row < 3
        invariant
            row <= 3,
            g == cells(board),
            full == (forall|i: int| 0 <= i < 3 * row ==> #[trigger] g[i] != Cell::Empty),
        decreases 3 - row,
    {
        let mut col: usize = 0;
        while col < 3
            invariant
                row < 3,
                col <= 3,
                g == cells(board),
                full == (forall|i: int| 0 <= i < 3 * row + col ==> #[trigger] g[i] != Cell::Empty),
            decreases 3 - col,
        {
            if board[row][col] == Cell::Empty {
                assert(g[3 * row + col] == Cell::Empty);
                full = false;
            }
            col += 1;
        }
        row += 1;
    }
    full || evaluate(board) != 0
}

/// The first completed line decides `winner`: it is the owner of the first
/// line that has one, and `None` exactly where no line has an owner.
pub proof fn lemma_winner_unfold(g: Seq<Cell>)
    ensures
        forall|k: int|
            0 <= k < 8 && owner_of(g, k) is Some && (forall|j: int|
                0 <= j < k ==> owner_of(g, j) is None) ==> winner(g) == #[trigger] owner_of(g, k),
        (forall|k: int| 0 <= k < 8 ==> owner_of(g, k) is None) ==> winner(g) is None,
        winner(g) is None ==> (forall|k: int| 0 <= k < 8 ==> owner_of(g, k) is None),
        winner(g) matches Some(p) ==> has_line(g, p),
{
    if let Some(p) = winner(g) {
        let k = if owner_of(g, 0) is Some {
            0int
        } else if owner_of(g, 1) is Some {
            1
        } else if owner_of(g, 2) is Some {
            2
        } else if owner_of(g, 3) is Some {
            3
        } else if owner_of(g, 4) is Some {
            4
        } else if owner_of(g, 5) is Some {
            5
        } else if owner_of(g, 6) is Some {
            6
        } else {
            7
        };
        assert(owner_of(g, k) == Some(p));
    }
}

} // verus!
