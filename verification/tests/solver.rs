use std::collections::HashMap;

use gamesolver::coverttt::{CoverTTT, CoverTTTMove, Size};
use gamesolver::game::{find_move, outcome_label, Game, Keyed, ToMove};
use gamesolver::solver::{
    best_move, eval_to_string, negamax, negamax_tt, principal_variation, selection_key, solve,
    TTEntry, TTScore, INF,
};
use gamesolver::tictactoe::{TicTacToe, TicTacToeMove};

#[test]
fn solver_ttt_root() {
    let value = solve(TicTacToe::new());

    // this position is drawn, so the value is 0
    assert_eq!(value, 0);
}

#[test]
fn ttt_xwin() {
    let mut root = TicTacToe::new();
    root.push(TicTacToeMove::new(4));
    root.push(TicTacToeMove::new(1));

    // X wins, so the sign of the value is positive
    assert_eq!(solve(root).signum(), 1);
    // X wins in five moves, so the value is 5
    assert_eq!(solve(root), 5);
}

#[test]
fn ttt_owin() {
    let mut root = TicTacToe::new();
    root.push(TicTacToeMove::new(1));
    root.push(TicTacToeMove::new(4));
    root.push(TicTacToeMove::new(7));

    // O wins, so the sign of the value is negative
    assert_eq!(solve(root).signum(), -1);
    // O wins in five moves, so the value is -5
    assert_eq!(solve(root), -5);
}

#[test]
fn hashtable_equivalence() {
    let game = TicTacToe::new();
    let without_table = negamax(&mut game.clone(), 6, -INF, INF);
    let with_table = negamax_tt(&mut game.clone(), 6, -INF, INF, &mut HashMap::new());
    assert_eq!(without_table, with_table);
    let without2 = negamax(&mut game.clone(), 100, -INF, INF);
    let with2 = negamax_tt(&mut game.clone(), 100, -INF, INF, &mut HashMap::new());
    assert_eq!(without2, with2);
}

fn played(squares: &[usize]) -> TicTacToe {
    let mut g = TicTacToe::new();
    for &i in squares {
        g.push(TicTacToeMove::new(i));
    }
    g
}

#[test]
fn a_result_weighs_the_budget_that_is_left() {
    let mut open = TicTacToe::new();
    assert_eq!(negamax(&mut open, 0, -INF, INF), 0);
    // the first side holds the top row after five moves
    let mut won = played(&[0, 3, 1, 4, 2]);
    assert!(won.is_terminal());
    assert_eq!(won.evaluate(), 1);
    assert_eq!(won.turn(), -1);
    assert_eq!(negamax(&mut won, 10, -INF, INF), -10);
    assert_eq!(negamax(&mut won, 0, -INF, INF), 0);
    // one move before, the side to move wins with one ply spent
    let mut before = played(&[0, 3, 1, 4]);
    assert_eq!(negamax(&mut before, 10, -INF, INF), 9);
    assert_eq!(before, played(&[0, 3, 1, 4]));
    assert_eq!(solve(before), 1);
    assert_eq!(solve(won), 0);
}

#[test]
fn the_scan_stops_at_beta() {
    let mut g = played(&[0, 3, 1, 4]);
    // squares 2, 5, 6, 7, 8 are free; square 2 wins at once
    assert_eq!(negamax(&mut g, 10, -INF, 5), 9);
    assert_eq!(negamax(&mut g, 10, 20, 30), 20);
    assert_eq!(negamax(&mut g, 10, 30, 20), 30);
    let mut lost = played(&[0, 3, 1, 4, 8]);
    // the second side wins with square 5
    assert_eq!(negamax(&mut lost, 10, -INF, INF), 9);
    assert_eq!(solve(lost), -1);
}

#[test]
fn the_table_is_read_and_written_at_the_root() {
    let mut g = played(&[0, 3, 1, 4]);
    let key = g.hashkey();
    let mut table = HashMap::new();
    assert_eq!(negamax_tt(&mut g, 10, -INF, INF, &mut table), 9);
    assert_eq!(table.len(), 1);
    let entry = table[&key];
    assert_eq!(entry.depth, 10);
    assert!(matches!(entry.value, TTScore::Exact(9)));
    // a cut at beta leaves a lower bound, a scan that lifts nothing an upper bound
    assert_eq!(negamax_tt(&mut g, 10, -INF, 5, &mut HashMap::new()), 9);
    let mut cut = HashMap::new();
    negamax_tt(&mut g, 10, -INF, 5, &mut cut);
    assert!(matches!(cut[&key].value, TTScore::LowerBound(9)));
    let mut low = HashMap::new();
    assert_eq!(negamax_tt(&mut g, 10, 20, 30, &mut low), 20);
    assert!(matches!(low[&key].value, TTScore::UpperBound(20)));
    // an exact entry that was searched deep enough is the answer
    let mut planted = HashMap::new();
    planted.insert(
        key,
        TTEntry {
            depth: 10,
            value: TTScore::Exact(-3),
        },
    );
    assert_eq!(negamax_tt(&mut g, 10, -INF, INF, &mut planted), -3);
    assert_eq!(negamax_tt(&mut g, 11, -INF, INF, &mut planted), 10);
    assert_eq!(planted[&key].depth, 11);
    // bounds narrow the window
    let mut bounded = HashMap::new();
    bounded.insert(
        key,
        TTEntry {
            depth: 10,
            value: TTScore::LowerBound(40),
        },
    );
    assert_eq!(negamax_tt(&mut g, 10, 0, 30, &mut bounded), 40);
    assert!(matches!(bounded[&key].value, TTScore::LowerBound(40)));
    let mut capped = HashMap::new();
    capped.insert(
        key,
        TTEntry {
            depth: 10,
            value: TTScore::UpperBound(i32::MIN),
        },
    );
    assert_eq!(negamax_tt(&mut g, 10, 0, 30, &mut capped), 0);
    // at a leaf the table is left alone
    let mut leaf = played(&[0, 3, 1, 4, 2]);
    let mut untouched = HashMap::new();
    assert_eq!(negamax_tt(&mut leaf, 10, -INF, INF, &mut untouched), -10);
    assert!(untouched.is_empty());
}

#[test]
fn a_fresh_table_changes_no_value() {
    for depth in 0..8 {
        let mut plain = CoverTTT::new();
        let mut tabled = CoverTTT::new();
        plain.push(CoverTTTMove::new(4, Size::Big));
        tabled.push(CoverTTTMove::new(4, Size::Big));
        let a = negamax(&mut plain, depth, -INF, INF);
        let b = negamax_tt(&mut tabled, depth, -INF, INF, &mut HashMap::new());
        assert_eq!(a, b);
        assert_eq!(plain, tabled);
    }
    for squares in [&[4usize, 0][..], &[0, 4, 8], &[1, 4, 7, 3]] {
        let mut g = played(squares);
        assert_eq!(
            negamax(&mut g, 100, -INF, INF),
            negamax_tt(&mut g, 100, -INF, INF, &mut HashMap::new())
        );
    }
}

#[test]
fn scores_are_worded() {
    assert_eq!(eval_to_string(0), "Draw");
    assert_eq!(eval_to_string(5), "X wins in 5 moves");
    assert_eq!(eval_to_string(-5), "O wins in 5 moves");
    assert_eq!(eval_to_string(1000), "X wins in 1000 moves");
    assert_eq!(eval_to_string(-120), "O wins in 120 moves");
    assert_eq!(eval_to_string(i32::MAX), "X wins in 2147483647 moves");
    assert_eq!(eval_to_string(i32::MIN), "O wins in 2147483648 moves");
}

#[test]
fn the_first_of_the_best_moves_is_chosen() {
    // every first move draws: the first square is chosen
    assert_eq!(best_move(TicTacToe::new()), TicTacToeMove::new(0));
    // the winning square is chosen
    assert_eq!(best_move(played(&[0, 3, 1, 4])), TicTacToeMove::new(2));
    // the square that stops the line is chosen
    assert_eq!(best_move(played(&[0, 4, 1])), TicTacToeMove::new(2));
    // squares 5 and 6 both win at once for the second side: the lower one
    assert_eq!(best_move(played(&[0, 3, 1, 4, 8, 2, 7])), TicTacToeMove::new(5));
}

#[test]
fn best_play_runs_to_the_end() {
    let line = principal_variation(played(&[0, 3, 1, 4]));
    assert_eq!(line, vec![TicTacToeMove::new(2)]);
    assert!(principal_variation(played(&[0, 3, 1, 4, 2])).is_empty());
    let full = principal_variation(TicTacToe::new());
    assert_eq!(full.len(), 9);
    let mut g = TicTacToe::new();
    for m in &full {
        assert_eq!(*m, best_move(g));
        g.push(*m);
    }
    assert!(g.is_terminal());
    assert_eq!(g.evaluate(), 0);
}

#[test]
fn keys_are_seen_by_the_one_who_decides() {
    assert_eq!(selection_key(ToMove::Max, 17, 99), 17);
    assert_eq!(selection_key(ToMove::Min, 17, 99), -17);
    assert_eq!(selection_key(ToMove::Min, -INF, 99), INF);
    assert_eq!(selection_key(ToMove::Chance, 17, 99), 99);
    assert_eq!(selection_key(ToMove::Chance, 17, -99), 99);
    assert_eq!(selection_key(ToMove::Chance, 17, 0), 0);
    assert_eq!(selection_key(ToMove::Chance, 17, i32::MIN), INF);
}

#[test]
fn results_are_worded() {
    assert_eq!(outcome_label(&TicTacToe::new()), "nonterminal state.");
    assert_eq!(outcome_label(&played(&[0, 3, 1, 4, 2])), "1-0");
    assert_eq!(outcome_label(&played(&[0, 3, 1, 4, 8, 5])), "0-1");
    assert_eq!(outcome_label(&played(&[0, 1, 2, 4, 3, 5, 7, 6, 8])), "1/2-1/2");
}

#[test]
fn a_token_names_a_legal_move() {
    assert_eq!(find_move(&TicTacToe::new(), "4"), Some(TicTacToeMove::new(4)));
    assert_eq!(find_move(&played(&[4]), "4"), None);
    assert_eq!(find_move(&TicTacToe::new(), "9"), None);
    assert_eq!(find_move(&TicTacToe::new(), "04"), None);
    assert_eq!(find_move(&TicTacToe::new(), ""), None);
    assert_eq!(
        find_move(&CoverTTT::new(), "M7"),
        Some(CoverTTTMove::new(7, Size::Medium))
    );
    assert_eq!(find_move(&CoverTTT::new(), "m7"), None);
}
