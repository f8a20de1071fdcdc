//! Exhaustive search of the game tree.

use vstd::prelude::*;
use crate::board::{
    available_moves, cell_index, cells, empty_count, is_legal, legal_moves, lemma_moves_before,
    lemma_place_fills_one, make_move, move_at, opponent, other_player, place, Board, Cell, Move,
    Player,
};
use crate::eval::{evaluate, is_full, is_game_over, is_over, score_of, MAX_SCORE, MIN_SCORE};

verus! {

/// The player who places a mark at a ply: the current player where the ply
/// maximizes, the opponent of the current player where it minimizes.
pub open spec fn mover(is_maximizing: bool, current: Player) -> Player {
    if is_maximizing {
        current
    } else {
        opponent(current)
    }
}

/// The running best before any move has been scored: the least score for a
/// ply that maximizes, the greatest for one that minimizes.
pub open spec fn start_score(is_maximizing: bool) -> int {
    if is_maximizing {
        i8::MIN as int
    } else {
        i8::MAX as int
    }
}

/// The running best `best` after a move that scores `score`.
pub open spec fn prefer(is_maximizing: bool, best: int, score: int) -> int {
    if is_maximizing {
        if score > best {
            score
        } else {
            best
        }
    } else {
        if score < best {
            score
        } else {
            best
        }
    }
}

/// The grid that follows `g` when `m` is played at such a ply.
pub open spec fn child(g: Seq<Cell>, m: Move, is_maximizing: bool, current: Player) -> Seq<Cell> {
    place(g, m, mover(is_maximizing, current))
}

/// The score of `g` under best play from both sides: the score of the grid
/// itself where the game is over, else the best for the ply among the values
/// of the grids that follow it.
pub open spec fn minimax_value(g: Seq<Cell>, is_maximizing: bool, current: Player) -> int
    decreases empty_count(g), legal_moves(g).len() + 1,
{
    if g.len() != 9 || is_over(g) {
        score_of(g)
    } else {
        best_among(g, legal_moves(g), legal_moves(g).len() as int, is_maximizing, current)
    }
}

/// The running best after the first `k` of `moves` have been scored.
pub open spec fn best_among(
    g: Seq<Cell>,
    moves: Seq<Move>,
    k: int,
    is_maximizing: bool,
    current: Player,
) -> int
    recommends
        k <= moves.len(),
    decreases empty_count(g), k,
{
    if k <= 0 {
        start_score(is_maximizing)
    } else {
        let best = best_among(g, moves, k - 1, is_maximizing, current);
        let m = moves[k - 1];
        if g.len() == 9 && is_legal(g, m) {
            proof {
                lemma_place_fills_one(g, m, mover(is_maximizing, current));
            }
            prefer(
                is_maximizing,
                best,
                minimax_value(child(g, m, is_maximizing, current), !is_maximizing, opponent(current)),
            )
        } else {
            best
        }
    }
}

/// A grid that is not full has an empty cell, and so a legal move.
pub proof fn lemma_open_grid_has_move(g: Seq<Cell>)
    requires
        g.len() == 9,
        !is_full(g),
    ensures
        legal_moves(g).len() > 0,
        empty_count(g) > 0,
{
    let i = choose|i: int| 0 <= i < 9 && #[trigger] g[i] == Cell::Empty;
    let m = move_at(i);
    assert(cell_index(m) == i);
    assert(is_legal(g, m));
    lemma_moves_before(g, 9);
    assert(legal_moves(g).contains(m));
}

/// Scores `board` under best play from both sides. `depth` counts the plies
/// above this one and does not change the score.
pub fn minimax(board: Board, depth: u8, is_maximizing: bool, current_player: Player) -> (score: i8)
    requires
        depth + empty_count(cells(board)) <= u8::MAX,
    ensures
        score == minimax_value(cells(board), is_maximizing, current_player),
        score == MAX_SCORE || score == MIN_SCORE || score == 0,
    decreases empty_count(cells(board)),
{
    let ghost g = cells(board);
    if is_game_over(board) {
        return evaluate(board);
    }
    let moves = available_moves(board);
    proof {
        lemma_open_grid_has_move(g);
    }
    let mut k: usize = 0;
    if is_maximizing {
        let mut best_score = i8::MIN;
        while k < moves.len()
            invariant
                k <= moves.len(),
                g == cells(board),
                g.len() == 9,
                moves@ == legal_moves(g),
                forall|i: int| 0 <= i < moves.len() ==> is_legal(g, #[trigger] moves[i]),
                depth + empty_count(g) <= u8::MAX,
                best_score == best_among(g, moves@, k as int, true, current_player),
                k == 0 ==> best_score == i8::MIN,
                k > 0 ==> best_score == MAX_SCORE || best_score == MIN_SCORE || best_score == 0,
            decreases moves.len() - k,
        {
            let each_move = moves[k];
            proof {
                lemma_place_fills_one(g, each_move, current_player);
            }
            let new_board = make_move(board, each_move, current_player);
            let score = minimax(new_board, depth + 1, false, other_player(current_player));
            if score > best_score {
                best_score = score;
            }
            k += 1;
        }
        best_score
    } else {
        let mut best_score = i8::MAX;
        while k < moves.len()
            invariant
                k <= moves.len(),
                g == cells(board),
                g.len() == 9,
                moves@ == legal_moves(g),
                forall|i: int| 0 <= i < moves.len() ==> is_legal(g, #[trigger] moves[i]),
                depth + empty_count(g) <= u8::MAX,
                best_score == best_among(g, moves@, k as int, false, current_player),
                k == 0 ==> best_score == i8::MAX,
                k > 0 ==> best_score == MAX_SCORE || best_score == MIN_SCORE || best_score == 0,
            decreases moves.len() - k,
        {
            let each_move = moves[k];
            proof {
                lemma_place_fills_one(g, each_move, opponent(current_player));
            }
            let new_board = make_move(board, each_move, other_player(current_player));
            let score = minimax(new_board, depth + 1, true, other_player(current_player));
            if score < best_score {
                best_score = score;
            }
            k += 1;
        }
        best_score
    }
}

/// The score that `player` reaches by playing `m` on `g`: the value of the
/// grid that follows, at a ply that maximizes where `player` is X. The body is
/// kept out of proofs until `reveal(move_value)` asks for it.
#[verifier::opaque]
pub open spec fn move_value(g: Seq<Cell>, player: Player, m: Move) -> int {
    minimax_value(place(g, m, player), player == Player::X, player)
}

/// Whether the score `a` is at least as good for `player` as `b`: X seeks the
/// greater score, O the lesser.
pub open spec fn no_worse(player: Player, a: int, b: int) -> bool {
    if player == Player::X {
        a >= b
    } else {
        a <= b
    }
}

/// Whether `m` is a legal move on `g` that no legal move beats for `player`.
pub open spec fn is_best_move(g: Seq<Cell>, player: Player, m: Move) -> bool {
    &&& is_legal(g, m)
    &&& forall|o: Move| #[trigger]
        is_legal(g, o) ==> no_worse(player, move_value(g, player, m), move_value(g, player, o))
}

/// The values for `player` of `moves` on `g`, move by move.
pub open spec fn move_values(g: Seq<Cell>, player: Player, moves: Seq<Move>) -> Seq<int> {
    Seq::new(moves.len(), |j: int| move_value(g, player, moves[j]))
}

/// Those of the first `k` of `moves` whose value in `values` is `best`, each
/// paired with that value, in the order of `moves`.
pub open spec fn tied_before(moves: Seq<Move>, values: Seq<int>, best: i8, k: int) -> Seq<
    (Move, i8),
>
    decreases k,
{
    if k <= 0 {
        Seq::empty()
    } else if values[k - 1] == best {
        tied_before(moves, values, best, k - 1).push((moves[k - 1], best))
    } else {
        tied_before(moves, values, best, k - 1)
    }
}

/// Whether entry `i` of `tied` stands for one of the first `k` of `moves`,
/// one whose value is `best`.
spec fn entry_of(
    moves: Seq<Move>,
    values: Seq<int>,
    best: i8,
    k: int,
    tied: Seq<(Move, i8)>,
    i: int,
    j: int,
) -> bool {
    0 <= j < k && moves[j] == tied[i].0 && values[j] == best && tied[i].1 == best
}

/// Whether entry `i` of `tied` stands for some move among the first `k`.
spec fn has_source(
    moves: Seq<Move>,
    values: Seq<int>,
    best: i8,
    k: int,
    tied: Seq<(Move, i8)>,
    i: int,
) -> bool {
    exists|j: int| #[trigger] entry_of(moves, values, best, k, tied, i, j)
}

/// Whether move `j` has an entry in `tied`.
spec fn has_entry(
    moves: Seq<Move>,
    values: Seq<int>,
    best: i8,
    k: int,
    tied: Seq<(Move, i8)>,
    j: int,
) -> bool {
    exists|i: int| 0 <= i < tied.len() && #[trigger] entry_of(moves, values, best, k, tied, i, j)
}

/// What `tied_before` holds: each entry is one of the first `k` moves with
/// the value `best`, each such move has an entry, and the entries keep the
/// rising order of `moves`.
proof fn lemma_tied_before(moves: Seq<Move>, values: Seq<int>, best: i8, k: int)
    requires
        0 <= k <= moves.len(),
        moves.len() == values.len(),
        forall|i: int, j: int|
            0 <= i < j < moves.len() ==> cell_index(#[trigger] moves[i]) < cell_index(
                #[trigger] moves[j],
            ),
    ensures
        forall|i: int|
            0 <= i < tied_before(moves, values, best, k).len() ==> #[trigger] has_source(
                moves,
                values,
                best,
                k,
                tied_before(moves, values, best, k),
                i,
            ),
        forall|j: int|
            0 <= j < k && values[j] == best ==> #[trigger] has_entry(
                moves,
                values,
                best,
                k,
                tied_before(moves, values, best, k),
                j,
            ),
        forall|i: int, j: int|
            0 <= i < j < tied_before(moves, values, best, k).len() ==> cell_index(
                (#[trigger] tied_before(moves, values, best, k)[i]).0,
            ) < cell_index((#[trigger] tied_before(moves, values, best, k)[j]).0),
    decreases k,
{
    if k > 0 {
        lemma_tied_before(moves, values, best, k - 1);
        let prev = tied_before(moves, values, best, k - 1);
        let cur = tied_before(moves, values, best, k);
        assert forall|i: int| 0 <= i < cur.len() implies #[trigger] has_source(
            moves,
            values,
            best,
            k,
            cur,
            i,
        ) by {
            if i < prev.len() {
                assert(has_source(moves, values, best, k - 1, prev, i));
                let j = choose|j: int| #[trigger]
                    entry_of(moves, values, best, k - 1, prev, i, j);
                assert(entry_of(moves, values, best, k, cur, i, j));
            } else {
                assert(entry_of(moves, values, best, k, cur, i, k - 1));
            }
        }
        assert forall|j: int| 0 <= j < k && values[j] == best implies #[trigger] has_entry(
            moves,
            values,
            best,
            k,
            cur,
            j,
        ) by {
            if j < k - 1 {
                assert(has_entry(moves, values, best, k - 1, prev, j));
                let i = choose|i: int|
                    0 <= i < prev.len() && #[trigger] entry_of(
                        moves,
                        values,
                        best,
                        k - 1,
                        prev,
                        i,
                        j,
                    );
                assert(entry_of(moves, values, best, k, cur, i, j));
            } else {
                assert(entry_of(moves, values, best, k, cur, cur.len() - 1, j));
            }
        }
        assert forall|i: int, j: int| 0 <= i < j < cur.len() implies cell_index(
            (#[trigger] cur[i]).0,
        ) < cell_index((#[trigger] cur[j]).0) by {
            if j >= prev.len() {
                assert(has_source(moves, values, best, k - 1, prev, i));
                let a = choose|a: int| #[trigger]
                    entry_of(moves, values, best, k - 1, prev, i, a);
                assert(cell_index(moves[a]) < cell_index(moves[k - 1]));
            }
        }
    }
}

/// No entry is tied at a value that none of the first `k` moves has.
proof fn lemma_tied_before_none(moves: Seq<Move>, values: Seq<int>, best: i8, k: int)
    requires
        forall|j: int| 0 <= j < k ==> #[trigger] values[j] != best,
    ensures
        tied_before(moves, values, best, k) == Seq::<(Move, i8)>::empty(),
    decreases k,
{
    if k > 0 {
        lemma_tied_before_none(moves, values, best, k - 1);
    }
}

/// The moves tied at the best value are exactly the best moves: where `best`
/// is the value of the legal move number `top` and no legal move beats it,
/// the entries of `tied` are the best moves of `player`, each once, in
/// row-major order, each with its value.
proof fn lemma_tied_are_best(
    g: Seq<Cell>,
    player: Player,
    best: i8,
    top: int,
    tied: Seq<(Move, i8)>,
)
    requires
        g.len() == 9,
        tied == tied_before(
            legal_moves(g),
            move_values(g, player, legal_moves(g)),
            best,
            legal_moves(g).len() as int,
        ),
        legal_moves(g).len() > 0 ==> 0 <= top < legal_moves(g).len() && move_value(
            g,
            player,
            legal_moves(g)[top],
        ) == best,
        legal_moves(g).len() > 0 ==> best == MAX_SCORE || best == MIN_SCORE || best == 0,
        forall|j: int|
            0 <= j < legal_moves(g).len() ==> no_worse(
                player,
                best as int,
                #[trigger] move_values(g, player, legal_moves(g))[j],
            ),
    ensures
        forall|i: int|
            0 <= i < tied.len() ==> {
                let e = #[trigger] tied[i];
                e.1 == MAX_SCORE || e.1 == MIN_SCORE || e.1 == 0
            },
        forall|i: int|
            0 <= i < tied.len() ==> {
                let e = #[trigger] tied[i];
                is_best_move(g, player, e.0) && e.1 == move_value(g, player, e.0)
            },
        forall|m: Move|
            is_best_move(g, player, m) ==> exists|i: int|
                0 <= i < tied.len() && (#[trigger] tied[i]).0 == m,
        forall|i: int, j: int|
            0 <= i < j < tied.len() ==> cell_index((#[trigger] tied[i]).0) < cell_index(
                (#[trigger] tied[j]).0,
            ),
        tied.len() == 0 <==> is_full(g),
{
    let moves = legal_moves(g);
    let values = move_values(g, player, moves);
    let n = moves.len() as int;
    lemma_moves_before(g, 9);
    lemma_tied_before(moves, values, best, n);
    assert forall|i: int| 0 <= i < tied.len() implies {
        let e = #[trigger] tied[i];
        is_best_move(g, player, e.0) && e.1 == move_value(g, player, e.0)
    } by {
        let e = tied[i];
        assert(has_source(moves, values, best, n, tied, i));
        let j = choose|j: int| #[trigger] entry_of(moves, values, best, n, tied, i, j);
        assert(is_legal(g, moves[j]));
        assert(values[j] == move_value(g, player, moves[j]));
        assert(e.1 == best);
        assert forall|o: Move| #[trigger] is_legal(g, o) implies no_worse(
            player,
            move_value(g, player, e.0),
            move_value(g, player, o),
        ) by {
            assert(moves.contains(o));
            let a = choose|a: int| 0 <= a < n && moves[a] == o;
            assert(no_worse(player, best as int, values[a]));
        }
    }
    assert forall|m: Move| is_best_move(g, player, m) implies exists|i: int|
        0 <= i < tied.len() && (#[trigger] tied[i]).0 == m by {
        assert(moves.contains(m));
        let a = choose|a: int| 0 <= a < n && moves[a] == m;
        assert(is_legal(g, moves[top]));
        assert(no_worse(player, best as int, values[a]));
        assert(values[top] == best);
        assert(values[a] == best);
        assert(has_entry(moves, values, best, n, tied, a));
        let i = choose|i: int|
            0 <= i < tied.len() && #[trigger] entry_of(moves, values, best, n, tied, i, a);
        assert(tied[i].0 == m);
    }
    if n > 0 {
        assert(values[top] == best);
        assert(has_entry(moves, values, best, n, tied, top));
        assert(is_legal(g, moves[0]));
        assert(g[cell_index(moves[0])] == Cell::Empty);
    } else {
        if !is_full(g) {
            lemma_open_grid_has_move(g);
        }
    }
}

/// Lists the moves that are best for `player` on `board`, in row-major order,
/// each with the score it reaches. No move occurs twice. The list is empty
/// exactly where the board has no empty cell.
pub fn best_moves(board: Board, player: Player) -> (best: Vec<(Move, i8)>)
    ensures
        forall|i: int|
            0 <= i < best.len() ==> {
                let e = #[trigger] best[i];
                is_best_move(cells(board), player, e.0) && e.1 == move_value(
                    cells(board),
                    player,
                    e.0,
                )
            },
        forall|m: Move|
            is_best_move(cells(board), player, m) ==> exists|i: int|
                0 <= i < best.len() && (#[trigger] best[i]).0 == m,
        forall|i: int, j: int|
            0 <= i < j < best.len() ==> cell_index((#[trigger] best[i]).0) < cell_index(
                (#[trigger] best[j]).0,
            ),
        forall|i: int|
            0 <= i < best.len() ==> {
                let e = #[trigger] best[i];
                e.1 == MAX_SCORE || e.1 == MIN_SCORE || e.1 == 0
            },
        best.len() == 0 <==> is_full(cells(board)),
{
    let ghost g = cells(board);
    let mut best_score: i8 = if player == Player::X {
        i8::MIN
    } else {
        i8::MAX
    };
    let mut moves: Vec<(Move, i8)> = Vec::new();
    let candidates = available_moves(board);
    let ghost values = move_values(g, player, candidates@);
    proof {
        lemma_moves_before(g, 9);
    }
    let ghost mut top: int = 0;
    let mut k: usize = 0;
    while k < candidates.len()
        invariant
            k <= candidates.len(),
            g == cells(board),
            g.len() == 9,
            empty_count(g) <= 9,
            candidates@ == legal_moves(g),
            values == move_values(g, player, candidates@),
            forall|i: int| 0 <= i < candidates.len() ==> is_legal(g, #[trigger] candidates[i]),
            k == 0 ==> best_score == start_score(player == Player::X),
            k > 0 ==> 0 <= top < k && values[top] == best_score,
            k > 0 ==> best_score == MAX_SCORE || best_score == MIN_SCORE || best_score == 0,
            forall|j: int| 0 <= j < k ==> no_worse(player, best_score as int, #[trigger] values[j]),
            moves@ == tied_before(candidates@, values, best_score, k as int),
        decreases candidates.len() - k,
    {
        let each_move = candidates[k];
        proof {
            lemma_place_fills_one(g, each_move, player);
        }
        let new_board = make_move(board, each_move, player);
        let score = minimax(new_board, 0, player == Player::X, player);
        assert(score == values[k as int]) by {
            reveal(move_value);
        }
        if (player == Player::X && score > best_score) || (player == Player::O && score
            < best_score) {
            proof {
                lemma_tied_before_none(candidates@, values, score, k as int);
                top = k as int;
            }
            best_score = score;
            moves.clear();
            moves.push((each_move, score));
        } else if score == best_score {
            moves.push((each_move, score));
        }
        k += 1;
    }
    proof {
        lemma_tied_are_best(g, player, best_score, top, moves@);
    }
    moves
}

} // verus!
