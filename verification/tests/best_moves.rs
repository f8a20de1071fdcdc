use tictactoe::Cell::{Empty, Occupied};
use tictactoe::Player::{O, X};
use tictactoe::{best_moves, minimax, Board, Move, MAX_SCORE, MIN_SCORE};

const E: Board = [[Empty, Empty, Empty], [Empty, Empty, Empty], [Empty, Empty, Empty]];

#[test]
fn test_find_best_moves() {
    let board = [
        [Empty, Empty, Empty],
        [Occupied(X), Occupied(O), Empty],
        [Occupied(X), Empty, Empty],
    ];
    assert!(best_moves(board, O).iter().all(|(_, score)| *score == MAX_SCORE));
}

#[test]
fn best_moves_of_losing_side_lists_every_empty_cell() {
    let board = [
        [Empty, Empty, Empty],
        [Occupied(X), Occupied(O), Empty],
        [Occupied(X), Empty, Empty],
    ];
    let found = best_moves(board, O);
    let expected: Vec<(Move, i8)> = vec![
        ((0, 0), 10),
        ((0, 1), 10),
        ((0, 2), 10),
        ((1, 2), 10),
        ((2, 1), 10),
        ((2, 2), 10),
    ];
    assert!(!found.is_empty());
    assert_eq!(found, expected);
}

#[test]
fn best_moves_on_full_board_is_empty() {
    let board = [
        [Occupied(X), Occupied(O), Occupied(X)],
        [Occupied(X), Occupied(O), Occupied(O)],
        [Occupied(O), Occupied(X), Occupied(X)],
    ];
    assert!(best_moves(board, X).is_empty());
    assert!(best_moves(board, O).is_empty());
}

#[test]
fn best_moves_on_empty_board_are_in_row_major_order_without_repeats() {
    let found = best_moves(E, X);
    assert!(!found.is_empty());
    for pair in found.windows(2) {
        let a = pair[0].0;
        let b = pair[1].0;
        assert!(a.0 * 3 + a.1 < b.0 * 3 + b.1);
    }
    let shared = found[0].1;
    assert!(found.iter().all(|(_, score)| *score == shared));
    assert!(shared == MAX_SCORE || shared == MIN_SCORE || shared == 0);
}

#[test]
fn best_moves_pair_each_move_with_its_minimax_score() {
    let board = [
        [Occupied(X), Occupied(X), Empty],
        [Occupied(O), Occupied(O), Empty],
        [Empty, Empty, Empty],
    ];
    for player in [X, O] {
        let found = best_moves(board, player);
        assert!(!found.is_empty());
        for (m, score) in found.iter() {
            let mut next = board;
            next[m.0][m.1] = Occupied(player);
            assert_eq!(*score, minimax(next, 0, player == X, player));
        }
    }
}

#[test]
fn best_moves_keep_exactly_the_extremal_moves() {
    let board = [
        [Occupied(X), Occupied(X), Empty],
        [Occupied(O), Occupied(O), Empty],
        [Empty, Empty, Empty],
    ];
    for player in [X, O] {
        let mut scored: Vec<(Move, i8)> = Vec::new();
        for row in 0..3 {
            for col in 0..3 {
                if board[row][col] == Empty {
                    let mut next = board;
                    next[row][col] = Occupied(player);
                    scored.push(((row, col), minimax(next, 0, player == X, player)));
                }
            }
        }
        let top = if player == X {
            scored.iter().map(|p| p.1).max().unwrap()
        } else {
            scored.iter().map(|p| p.1).min().unwrap()
        };
        let expected: Vec<(Move, i8)> = scored.into_iter().filter(|p| p.1 == top).collect();
        assert_eq!(best_moves(board, player), expected);
    }
}

#[test]
fn best_moves_takes_the_winning_cell_for_x() {
    let board = [
        [Occupied(X), Occupied(X), Empty],
        [Occupied(O), Occupied(O), Occupied(X)],
        [Occupied(X), Occupied(O), Occupied(O)],
    ];
    assert_eq!(best_moves(board, X), vec![((0, 2), MAX_SCORE)]);
    assert_eq!(best_moves(board, O), vec![((0, 2), 0)]);
}

#[test]
fn best_moves_takes_the_winning_cell_for_o() {
    let board = [
        [Occupied(O), Occupied(O), Empty],
        [Occupied(X), Occupied(X), Occupied(O)],
        [Occupied(O), Occupied(X), Occupied(X)],
    ];
    assert_eq!(best_moves(board, O), vec![((0, 2), MIN_SCORE)]);
    assert_eq!(best_moves(board, X), vec![((0, 2), 0)]);
}

#[test]
fn minimax_scores_a_finished_game_as_it_stands() {
    let won = [
        [Occupied(X), Occupied(X), Occupied(X)],
        [Occupied(O), Occupied(O), Empty],
        [Empty, Empty, Empty],
    ];
    for maximizing in [true, false] {
        for player in [X, O] {
            assert_eq!(minimax(won, 0, maximizing, player), MAX_SCORE);
        }
    }
    let drawn = [
        [Occupied(X), Occupied(O), Occupied(X)],
        [Occupied(X), Occupied(O), Occupied(O)],
        [Occupied(O), Occupied(X), Occupied(X)],
    ];
    assert_eq!(minimax(drawn, 0, true, X), 0);
    assert_eq!(minimax(drawn, 0, false, O), 0);
}

#[test]
fn minimax_places_the_mark_of_the_ply() {
    let board = [
        [Occupied(X), Occupied(X), Empty],
        [Occupied(O), Occupied(O), Occupied(X)],
        [Occupied(X), Occupied(O), Occupied(O)],
    ];
    assert_eq!(minimax(board, 0, true, X), 10);
    assert_eq!(minimax(board, 0, false, O), 10);
    assert_eq!(minimax(board, 0, true, O), 0);
    assert_eq!(minimax(board, 0, false, X), 0);
}

#[test]
fn minimax_does_not_depend_on_depth() {
    let board = [
        [Occupied(X), Empty, Empty],
        [Empty, Occupied(O), Empty],
        [Empty, Empty, Empty],
    ];
    let at_root = minimax(board, 0, true, X);
    assert_eq!(minimax(board, 5, true, X), at_root);
    assert_eq!(minimax(board, 200, true, X), at_root);
    assert_eq!(minimax(board, 248, true, X), at_root);
}

#[test]
fn minimax_maximizes_and_minimizes_over_the_replies() {
    let board = [
        [Occupied(X), Occupied(X), Empty],
        [Occupied(O), Occupied(O), Empty],
        [Empty, Empty, Empty],
    ];
    for maximizing in [true, false] {
        for player in [X, O] {
            let mark = if maximizing { player } else if player == X { O } else { X };
            let next_player = if player == X { O } else { X };
            let mut replies: Vec<i8> = Vec::new();
            for row in 0..3 {
                for col in 0..3 {
                    if board[row][col] == Empty {
                        let mut next = board;
                        next[row][col] = Occupied(mark);
                        replies.push(minimax(next, 1, !maximizing, next_player));
                    }
                }
            }
            let expected = if maximizing {
                *replies.iter().max().unwrap()
            } else {
                *replies.iter().min().unwrap()
            };
            assert_eq!(minimax(board, 0, maximizing, player), expected);
        }
    }
}

#[test]
fn best_moves_on_empty_board_for_x() {
    let expected: Vec<(Move, i8)> = vec![
        ((0, 0), 10),
        ((0, 1), 10),
        ((0, 2), 10),
        ((1, 0), 10),
        ((1, 1), 10),
        ((1, 2), 10),
        ((2, 0), 10),
        ((2, 1), 10),
        ((2, 2), 10),
    ];
    assert_eq!(best_moves(E, X), expected);
}

#[test]
fn best_moves_on_empty_board_for_o() {
    let found = best_moves(E, O);
    assert_eq!(found.len(), 9);
    assert!(found.iter().all(|(_, score)| *score == MAX_SCORE));
}
