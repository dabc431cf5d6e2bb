use gamesolver::adversarialknight::{col_of, init_hash_keys, row_of, AdversarialKnight, KnightMove};
use gamesolver::game::{Game, Keyed, ToMove};
use gamesolver::perft::{perft, perft_cached};
use gamesolver::solver::{negamax, negamax_tt, INF};
use std::collections::HashMap;

fn moves_of(g: &AdversarialKnight) -> Vec<KnightMove> {
    let mut moves = Vec::new();
    g.generate_moves(&mut moves);
    moves
}

fn step(from: usize, to: usize) -> KnightMove {
    KnightMove { from, to }
}

#[test]
fn each_square_has_its_key() {
    let keys = init_hash_keys();
    for sq in 0..64 {
        assert_eq!(keys[sq], 1u64 << sq);
    }
    assert_eq!(col_of(32), 0);
    assert_eq!(row_of(32), 4);
    assert_eq!(col_of(47), 7);
    assert_eq!(row_of(47), 5);
}

#[test]
fn the_knight_stays_on_the_board() {
    let g = AdversarialKnight::new();
    assert!(g.visited(32));
    assert!(!g.visited(17));
    assert_eq!(g.hashkey(), 1u64 << 32);
    assert_eq!(g.to_text(), "32");
    assert_eq!(g.action_space_size(), 8);
    // from the left edge four of the eight steps leave the board
    assert_eq!(
        moves_of(&g),
        vec![step(32, 17), step(32, 26), step(32, 42), step(32, 49)]
    );
    let mut buffer = vec![step(1, 2)];
    g.generate_moves(&mut buffer);
    assert_eq!(buffer.len(), 5);
    assert_eq!(buffer[0], step(1, 2));
    assert_eq!(AdversarialKnight::move_text(step(32, 17)), "17");
}

#[test]
fn a_visited_square_is_closed() {
    let mut g = AdversarialKnight::new();
    g.push(step(32, 17));
    assert_eq!(g.turn(), -1);
    assert_eq!(g.to_move(), ToMove::Min);
    assert!(g.visited(17));
    assert_eq!(g.to_text(), "17");
    // from 17: 0, 2, 11, 27, 34 are open, 32 is visited, 7 and 23 are off
    assert_eq!(
        moves_of(&g),
        vec![step(17, 0), step(17, 2), step(17, 11), step(17, 27), step(17, 34)]
    );
    let before = g.clone();
    g.push(step(17, 0));
    // in the corner the knight can go to 10 only: 17 is visited
    assert_eq!(moves_of(&g), vec![step(0, 10)]);
    g.pop(step(17, 0));
    assert_eq!(g, before);
    g.pop(step(32, 17));
    assert_eq!(g, AdversarialKnight::new());
}

#[test]
fn the_side_that_cannot_move_has_lost() {
    let mut g = AdversarialKnight::new();
    assert_eq!(g.evaluate(), 0);
    assert!(!g.is_terminal());
    // 32 -> 17 -> 0 -> 10 -> 20 ... walk until the knight is stuck
    let mut plies = 0;
    while !moves_of(&g).is_empty() {
        let m = moves_of(&g)[0];
        g.push(m);
        plies += 1;
    }
    assert!(g.is_terminal());
    assert_eq!(g.evaluate(), -g.turn());
    assert_eq!(g.evaluate(), if plies % 2 == 0 { -1 } else { 1 });
    let mut h = g.clone();
    assert_eq!(perft(&mut h, 5), 1);
    assert_eq!(negamax(&mut h, 9, -INF, INF), -9);
}

#[test]
fn knight_counts_by_depth() {
    let mut g = AdversarialKnight::new();
    assert_eq!(perft(&mut g, 1), 4);
    assert_eq!(perft(&mut g, 2), 5 + 7 + 7 + 3);
    assert_eq!(g, AdversarialKnight::new());
    for depth in 1..=6 {
        let mut plain = AdversarialKnight::new();
        let mut cached = AdversarialKnight::new();
        assert_eq!(perft_cached(&mut cached, depth), perft(&mut plain, depth));
    }
}

#[test]
fn the_table_changes_no_value() {
    for depth in 0..7 {
        let mut g = AdversarialKnight::new();
        let plain = negamax(&mut g, depth, -INF, INF);
        let tabled = negamax_tt(&mut g, depth, -INF, INF, &mut HashMap::new());
        assert_eq!(plain, tabled);
        assert_eq!(g, AdversarialKnight::new());
        assert!(g.same_state(&g.duplicate()));
    }
}
