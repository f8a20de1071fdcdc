//! What holds of every grid: facts about scores, legal moves and the value of
//! a position, each proved from the definitions.

use vstd::prelude::*;
use crate::board::{
    cell_index, empty_count, in_range, is_legal, legal_moves, lemma_moves_before,
    lemma_place_fills_one, occupied_count, opponent, place, Cell, Move, Player,
};
use crate::eval::{has_line, is_full, is_over, lemma_winner_unfold, score_of, winner};
use crate::search::{
    best_among, child, lemma_open_grid_has_move, minimax_value, mover, prefer, start_score,
};

verus! {

/// Whether `a` is at least as good as `b` at a ply: at least as great where
/// the ply maximizes, at most as great where it minimizes.
pub open spec fn suits(is_maximizing: bool, a: int, b: int) -> bool {
    if is_maximizing {
        a >= b
    } else {
        a <= b
    }
}

/// The value of the grid that follows `g` when `m` is played at such a ply.
pub open spec fn reply_value(g: Seq<Cell>, m: Move, is_maximizing: bool, current: Player) -> int {
    minimax_value(child(g, m, is_maximizing, current), !is_maximizing, opponent(current))
}

/// A score is ten, minus ten or zero, and it is zero exactly where neither
/// player holds a line.
pub proof fn lemma_score_is_win_loss_or_draw(g: Seq<Cell>)
    ensures
        score_of(g) == 10 || score_of(g) == -10 || score_of(g) == 0,
        score_of(g) == 10 ==> has_line(g, Player::X),
        score_of(g) == -10 ==> has_line(g, Player::O),
        score_of(g) == 0 <==> !has_line(g, Player::X) && !has_line(g, Player::O),
{
    lemma_winner_unfold(g);
}

/// Where only one player holds a line, the order in which the lines are
/// examined does not matter: that player is the winner.
pub proof fn lemma_sole_line_holder_wins(g: Seq<Cell>, player: Player)
    requires
        has_line(g, player),
        !has_line(g, opponent(player)),
    ensures
        winner(g) == Some(player),
        score_of(g) == (if player == Player::X { 10int } else { -10int }),
{
    lemma_winner_unfold(g);
}

/// Every cell is either empty or occupied: the two counts add up to nine.
pub proof fn lemma_counts_add_up(g: Seq<Cell>)
    ensures
        empty_count(g) + occupied_count(g) == 9,
{
}

/// The legal moves are exactly the empty cells, each once, in row-major
/// order, and there are nine less the number of occupied cells of them.
pub proof fn lemma_legal_moves_are_the_empty_cells(g: Seq<Cell>)
    requires
        g.len() == 9,
    ensures
        forall|i: int| 0 <= i < legal_moves(g).len() ==> is_legal(g, #[trigger] legal_moves(g)[i]),
        forall|m: Move| is_legal(g, m) ==> legal_moves(g).contains(m),
        forall|i: int, j: int|
            0 <= i < j < legal_moves(g).len() ==> cell_index(#[trigger] legal_moves(g)[i])
                < cell_index(#[trigger] legal_moves(g)[j]),
        legal_moves(g).len() == 9 - occupied_count(g),
{
    lemma_moves_before(g, 9);
    lemma_counts_add_up(g);
}

/// A full grid leaves nothing to play: it has no legal move, and the game on
/// it is over.
pub proof fn lemma_full_grid_has_no_moves(g: Seq<Cell>)
    requires
        g.len() == 9,
        is_full(g),
    ensures
        legal_moves(g).len() == 0,
        forall|m: Move| !is_legal(g, m),
        is_over(g),
{
    lemma_moves_before(g, 9);
    if legal_moves(g).len() > 0 {
        assert(is_legal(g, legal_moves(g)[0]));
    }
}

/// A full grid on which neither player holds a line is a draw: it scores
/// zero, the game on it is over, and its value is zero at every ply.
pub proof fn lemma_full_grid_without_line_is_draw(
    g: Seq<Cell>,
    is_maximizing: bool,
    current: Player,
)
    requires
        g.len() == 9,
        is_full(g),
        !has_line(g, Player::X),
        !has_line(g, Player::O),
    ensures
        score_of(g) == 0,
        is_over(g),
        minimax_value(g, is_maximizing, current) == 0,
{
    lemma_winner_unfold(g);
}

/// The value of a finished game is its score: the search goes no further.
pub proof fn lemma_finished_game_keeps_its_score(g: Seq<Cell>, is_maximizing: bool, current: Player)
    requires
        is_over(g),
    ensures
        minimax_value(g, is_maximizing, current) == score_of(g),
{
}

/// Playing a move and reading the cell gives the player back; every other
/// cell is as it was, and one empty cell fewer is left where the cell was
/// empty.
pub proof fn lemma_place_then_read(g: Seq<Cell>, m: Move, player: Player)
    requires
        g.len() == 9,
        in_range(m),
    ensures
        place(g, m, player)[cell_index(m)] == Cell::Occupied(player),
        forall|i: int| 0 <= i < 9 && i != cell_index(m) ==> place(g, m, player)[i] == g[i],
        is_legal(g, m) ==> empty_count(place(g, m, player)) + 1 == empty_count(g),
{
    if is_legal(g, m) {
        lemma_place_fills_one(g, m, player);
    }
}

/// The same player places the mark at every ply below a position: the flag
/// flips and the current player changes together.
pub proof fn lemma_mover_is_fixed(is_maximizing: bool, current: Player)
    ensures
        mover(!is_maximizing, opponent(current)) == mover(is_maximizing, current),
{
}

/// The running best lies among the scores once a legal move has been seen.
proof fn lemma_best_among_is_a_score(
    g: Seq<Cell>,
    moves: Seq<Move>,
    k: int,
    is_maximizing: bool,
    current: Player,
)
    requires
        g.len() == 9,
        0 <= k <= moves.len(),
        forall|i: int| 0 <= i < moves.len() ==> is_legal(g, #[trigger] moves[i]),
    ensures
        k == 0 ==> best_among(g, moves, k, is_maximizing, current) == start_score(is_maximizing),
        k > 0 ==> {
            let b = best_among(g, moves, k, is_maximizing, current);
            b == 10 || b == -10 || b == 0
        },
    decreases empty_count(g), k,
{
    if k > 0 {
        let m = moves[k - 1];
        assert(is_legal(g, m));
        lemma_place_fills_one(g, m, mover(is_maximizing, current));
        lemma_best_among_is_a_score(g, moves, k - 1, is_maximizing, current);
        lemma_value_is_a_score(child(g, m, is_maximizing, current), !is_maximizing, opponent(current));
    }
}

/// The value of every grid, at every ply, is ten, minus ten or zero.
pub proof fn lemma_value_is_a_score(g: Seq<Cell>, is_maximizing: bool, current: Player)
    requires
        g.len() == 9,
    ensures
        minimax_value(g, is_maximizing, current) == 10 || minimax_value(g, is_maximizing, current)
            == -10 || minimax_value(g, is_maximizing, current) == 0,
    decreases empty_count(g), legal_moves(g).len() + 1,
{
    if is_over(g) {
        lemma_score_is_win_loss_or_draw(g);
    } else {
        lemma_moves_before(g, 9);
        lemma_open_grid_has_move(g);
        lemma_best_among_is_a_score(
            g,
            legal_moves(g),
            legal_moves(g).len() as int,
            is_maximizing,
            current,
        );
    }
}

/// The running best after `k` legal moves is as good as each of their
/// replies and, once a move has been seen, is the value of one of them.
proof fn lemma_best_among_is_extremal(
    g: Seq<Cell>,
    moves: Seq<Move>,
    k: int,
    is_maximizing: bool,
    current: Player,
)
    requires
        g.len() == 9,
        0 <= k <= moves.len(),
        forall|i: int| 0 <= i < moves.len() ==> is_legal(g, #[trigger] moves[i]),
    ensures
        forall|j: int|
            0 <= j < k ==> suits(
                is_maximizing,
                best_among(g, moves, k, is_maximizing, current),
                reply_value(g, #[trigger] moves[j], is_maximizing, current),
            ),
        k > 0 ==> exists|j: int|
            0 <= j < k && reply_value(g, #[trigger] moves[j], is_maximizing, current) == best_among(
                g,
                moves,
                k,
                is_maximizing,
                current,
            ),
    decreases k,
{
    if k > 0 {
        let m = moves[k - 1];
        assert(is_legal(g, m));
        lemma_best_among_is_extremal(g, moves, k - 1, is_maximizing, current);
        lemma_best_among_is_a_score(g, moves, k - 1, is_maximizing, current);
        lemma_place_fills_one(g, m, mover(is_maximizing, current));
        lemma_value_is_a_score(child(g, m, is_maximizing, current), !is_maximizing, opponent(current));
        let before = best_among(g, moves, k - 1, is_maximizing, current);
        let now = best_among(g, moves, k, is_maximizing, current);
        let reply = reply_value(g, m, is_maximizing, current);
        assert(now == prefer(is_maximizing, before, reply));
        if now == reply {
            assert(reply_value(g, moves[k - 1], is_maximizing, current) == now);
        } else {
            assert(k - 1 > 0);
            let j = choose|j: int|
                0 <= j < k - 1 && reply_value(g, #[trigger] moves[j], is_maximizing, current)
                    == before;
            assert(reply_value(g, moves[j], is_maximizing, current) == now);
        }
    }
}

/// The value of an unfinished game is the best of its replies: no legal move
/// leads to a better value for the ply, and some legal move leads to exactly
/// this value.
pub proof fn lemma_value_is_best_reply(g: Seq<Cell>, is_maximizing: bool, current: Player)
    requires
        g.len() == 9,
        !is_over(g),
    ensures
        forall|m: Move| #[trigger]
            is_legal(g, m) ==> suits(
                is_maximizing,
                minimax_value(g, is_maximizing, current),
                reply_value(g, m, is_maximizing, current),
            ),
        exists|m: Move| #[trigger]
            is_legal(g, m) && reply_value(g, m, is_maximizing, current) == minimax_value(
                g,
                is_maximizing,
                current,
            ),
{
    let moves = legal_moves(g);
    let n = moves.len() as int;
    lemma_moves_before(g, 9);
    lemma_open_grid_has_move(g);
    lemma_best_among_is_extremal(g, moves, n, is_maximizing, current);
    assert forall|m: Move| #[trigger] is_legal(g, m) implies suits(
        is_maximizing,
        minimax_value(g, is_maximizing, current),
        reply_value(g, m, is_maximizing, current),
    ) by {
        assert(moves.contains(m));
        let j = choose|j: int| 0 <= j < n && moves[j] == m;
        assert(suits(
            is_maximizing,
            best_among(g, moves, n, is_maximizing, current),
            reply_value(g, moves[j], is_maximizing, current),
        ));
    }
    let j = choose|j: int|
        0 <= j < n && reply_value(g, #[trigger] moves[j], is_maximizing, current) == best_among(
            g,
            moves,
            n,
            is_maximizing,
            current,
        );
    assert(is_legal(g, moves[j]));
}

} // verus!
