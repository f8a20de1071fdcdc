//! The board, its cells, and the two players.

use vstd::prelude::*;

verus! {

/// One of the two players.
#[derive(Copy, Clone, PartialEq, Eq, Debug, Structural)]
pub enum Player {
    X,
    O,
}

/// What one square of the board holds.
#[derive(Copy, Clone, PartialEq, Eq, Debug, Structural)]
pub enum Cell {
    Empty,
    Occupied(Player),
}

/// The grid, indexed by row and then by column.
pub type Board = [[Cell; 3]; 3];

/// A coordinate pair: row, then column.
pub type Move = (usize, usize);

/// The opponent of `player`.
pub open spec fn opponent(player: Player) -> Player {
    match player {
        Player::X => Player::O,
        Player::O => Player::X,
    }
}

/// Whether both coordinates of `m` lie on the board.
pub open spec fn in_range(m: Move) -> bool {
    m.0 < 3 && m.1 < 3
}

/// The position of `m` in row-major order.
pub open spec fn cell_index(m: Move) -> int {
    m.0 * 3 + m.1
}

/// The nine cells of `board` in row-major order.
pub open spec fn cells(board: Board) -> Seq<Cell> {
    Seq::new(9, |i: int| board[i / 3][i % 3])
}

/// Returns the opponent of `player`.
pub fn other_player(player: Player) -> (other: Player)
    ensures
        other == opponent(player),
        other != player,
{
    match player {
        Player::X => Player::O,
        Player::O => Player::X,
    }
}

/// The grid `g` with cell `m` taken by `player`.
pub open spec fn place(g: Seq<Cell>, m: Move, player: Player) -> Seq<Cell> {
    g.update(cell_index(m), Cell::Occupied(player))
}

/// Whether `m` names an empty cell of `g`.
pub open spec fn is_legal(g: Seq<Cell>, m: Move) -> bool {
    in_range(m) && g[cell_index(m)] == Cell::Empty
}

/// The coordinates of the cell at position `i` in row-major order.
pub open spec fn move_at(i: int) -> Move {
    ((i / 3) as usize, (i % 3) as usize)
}

/// One for an empty cell, nothing for an occupied one.
pub open spec fn vacancy(c: Cell) -> nat {
    if c == Cell::Empty {
        1
    } else {
        0
    }
}

/// The number of empty cells of `g`.
pub open spec fn empty_count(g: Seq<Cell>) -> nat {
    vacancy(g[0]) + vacancy(g[1]) + vacancy(g[2]) + vacancy(g[3]) + vacancy(g[4]) + vacancy(g[5])
        + vacancy(g[6]) + vacancy(g[7]) + vacancy(g[8])
}

/// One for an occupied cell, nothing for an empty one.
pub open spec fn occupancy(c: Cell) -> nat {
    if c is Occupied {
        1
    } else {
        0
    }
}

/// The number of occupied cells of `g`.
pub open spec fn occupied_count(g: Seq<Cell>) -> nat {
    occupancy(g[0]) + occupancy(g[1]) + occupancy(g[2]) + occupancy(g[3]) + occupancy(g[4])
        + occupancy(g[5]) + occupancy(g[6]) + occupancy(g[7]) + occupancy(g[8])
}

/// The number of empty cells among the first `n` cells of `g`.
pub open spec fn empty_before(g: Seq<Cell>, n: int) -> nat
    decreases n,
{
    if n <= 0 {
        0
    } else {
        empty_before(g, n - 1) + vacancy(g[n - 1])
    }
}

/// The empty cells among the first `n` cells of `g`, in row-major order.
pub open spec fn moves_before(g: Seq<Cell>, n: int) -> Seq<Move>
    decreases n,
{
    if n <= 0 {
        Seq::empty()
    } else if g[n - 1] == Cell::Empty {
        moves_before(g, n - 1).push(move_at(n - 1))
    } else {
        moves_before(g, n - 1)
    }
}

/// The empty cells of `g`, in row-major order.
pub open spec fn legal_moves(g: Seq<Cell>) -> Seq<Move> {
    moves_before(g, 9)
}

/// Why a move cannot be played.
#[derive(Copy, Clone, PartialEq, Eq, Debug, Structural)]
pub enum InvalidMove {
    /// A coordinate lies outside the board.
    OutOfRange,
    /// The cell is already taken.
    Occupied,
}

/// Lists the empty cells of `board` in row-major order.
pub fn available_moves(board: Board) -> (moves: Vec<Move>)
    ensures
        moves@ == legal_moves(cells(board)),
        moves.len() == empty_count(cells(board)),
        moves.len() == 9 - occupied_count(cells(board)),
        forall|i: int| 0 <= i < moves.len() ==> is_legal(cells(board), #[trigger] moves[i]),
        forall|m: Move| is_legal(cells(board), m) ==> moves@.contains(m),
        forall|i: int, j: int|
            0 <= i < j < moves.len() ==> cell_index(#[trigger] moves[i]) < cell_index(
                #[trigger] moves[j],
            ),
{
    let ghost g = cells(board);
    let mut moves: Vec<Move> = Vec::new();
    let mut row: usize = 0;
    while row < 3
        invariant
            row <= 3,
            g == cells(board),
            moves@ == moves_before(g, 3 * row),
        decreases 3 - row,
    {
        let mut col: usize = 0;
        while col < 3
            invariant
                row < 3,
                col <= 3,
                g == cells(board),
                moves@ == moves_before(g, 3 * row + col),
            decreases 3 - col,
        {
            assert(move_at(3 * row + col) == (row, col));
            assert(g[3 * row + col] == board[row as int][col as int]);
            if board[row][col] == Cell::Empty {
                moves.push((row, col));
            }
            col += 1;
        }
        row += 1;
    }
    proof {
        lemma_moves_before(g, 9);
    }
    moves
}

/// Takes the cell `wanted_move` of `board` for `player`, whatever it held.
pub fn make_move(board: Board, wanted_move: Move, player: Player) -> (next: Board)
    requires
        in_range(wanted_move),
    ensures
        cells(next) == place(cells(board), wanted_move, player),
        next[wanted_move.0 as int][wanted_move.1 as int] == Cell::Occupied(player),
        forall|r: int, c: int|
            0 <= r < 3 && 0 <= c < 3 && (r != wanted_move.0 || c != wanted_move.1) ==> next[r][c]
                == board[r][c],
{
    let mut next = board;
    let mut line = board[wanted_move.0];
    line[wanted_move.1] = Cell::Occupied(player);
    next[wanted_move.0] = line;
    assert(cells(next) =~= place(cells(board), wanted_move, player));
    next
}

/// Takes the cell `wanted_move` of `board` for `player` if it is on the board
/// and empty, and says why not otherwise.
pub fn try_make_move(board: Board, wanted_move: Move, player: Player) -> (res: Result<
    Board,
    InvalidMove,
>)
    ensures
        !in_range(wanted_move) <==> res == Err::<Board, InvalidMove>(InvalidMove::OutOfRange),
        in_range(wanted_move) && !is_legal(cells(board), wanted_move) <==> res == Err::<
            Board,
            InvalidMove,
        >(InvalidMove::Occupied),
        is_legal(cells(board), wanted_move) <==> res is Ok,
        res matches Ok(next) ==> {
            &&& cells(next) == place(cells(board), wanted_move, player)
            &&& empty_count(cells(next)) + 1 == empty_count(cells(board))
        },
{
    if wanted_move.0 >= 3 || wanted_move.1 >= 3 {
        return Err(InvalidMove::OutOfRange);
    }
    assert(cells(board)[cell_index(wanted_move)] == board[wanted_move.0 as int][wanted_move.1 as int]);
    if board[wanted_move.0][wanted_move.1] != Cell::Empty {
        return Err(InvalidMove::Occupied);
    }
    proof {
        lemma_place_fills_one(cells(board), wanted_move, player);
    }
    Ok(make_move(board, wanted_move, player))
}

/// What `moves_before` holds: exactly the empty cells among the first `n`, in
/// rising order, as many as `empty_before` counts.
pub proof fn lemma_moves_before(g: Seq<Cell>, n: int)
    requires
        0 <= n <= 9,
        g.len() == 9,
    ensures
        moves_before(g, n).len() == empty_before(g, n),
        empty_before(g, n) <= n,
        n == 9 ==> empty_before(g, n) == empty_count(g),
        forall|i: int|
            0 <= i < moves_before(g, n).len() ==> {
                let m = #[trigger] moves_before(g, n)[i];
                is_legal(g, m) && cell_index(m) < n
            },
        forall|m: Move| is_legal(g, m) && cell_index(m) < n ==> moves_before(g, n).contains(m),
        forall|i: int, j: int|
            0 <= i < j < moves_before(g, n).len() ==> cell_index(#[trigger] moves_before(g, n)[i])
                < cell_index(#[trigger] moves_before(g, n)[j]),
    decreases n,
{
    if n == 9 {
        reveal_with_fuel(empty_before, 10);
    }
    if n > 0 {
        lemma_moves_before(g, n - 1);
        let prev = moves_before(g, n - 1);
        let cur = moves_before(g, n);
        let last = move_at(n - 1);
        assert(in_range(last) && cell_index(last) == n - 1);
        assert forall|m: Move| is_legal(g, m) && cell_index(m) < n implies cur.contains(m) by {
            if cell_index(m) < n - 1 {
                let i = choose|i: int| 0 <= i < prev.len() && prev[i] == m;
                assert(cur[i] == m);
            } else {
                assert(m == last);
                assert(cur[cur.len() - 1] == m);
            }
        }
    }
}

/// Taking an empty cell leaves one empty cell fewer.
pub proof fn lemma_place_fills_one(g: Seq<Cell>, m: Move, player: Player)
    requires
        g.len() == 9,
        is_legal(g, m),
    ensures
        empty_count(place(g, m, player)) + 1 == empty_count(g),
        place(g, m, player).len() == 9,
{
}

} // verus!
