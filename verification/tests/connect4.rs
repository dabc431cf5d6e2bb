use gamesolver::connect4::{Connect4, HEIGHT, WIDTH};
use gamesolver::game::{Game, Keyed, ToMove};
use gamesolver::perft::{perft, perft_cached};
use gamesolver::solver::{best_move, negamax, INF};

#[test]
fn row_correct() {
    let bitboard = 1u64 << 0;
    assert_eq!(0, Connect4::row(bitboard));
    let bitboard = 1u64 << (WIDTH - 1);
    assert_eq!(0, Connect4::row(bitboard));
    let bitboard = 1u64 << WIDTH;
    assert_eq!(1, Connect4::row(bitboard));
    let bitboard = 1u64 << (WIDTH * HEIGHT - 1);
    assert_eq!(5, Connect4::row(bitboard));
}

fn played(columns: &[usize]) -> Connect4 {
    let mut g = Connect4::new();
    for &c in columns {
        g.push(c);
    }
    g
}

fn moves_of(g: &Connect4) -> Vec<usize> {
    let mut moves = Vec::new();
    g.generate_moves(&mut moves);
    moves
}

#[test]
fn the_lowest_bit_decides_the_block() {
    assert_eq!(Connect4::row(0), 9);
    assert_eq!(Connect4::row(0b1100_0000), 0);
    assert_eq!(Connect4::row(1u64 << 63), 9);
    assert_eq!(Connect4::bottom_mask(0), 1);
    assert_eq!(Connect4::bottom_mask(3), 1u64 << 21);
    assert_eq!(Connect4::bottom_mask(6), 1u64 << 42);
}

#[test]
fn stones_stack_in_their_columns() {
    let mut g = Connect4::new();
    assert_eq!(g.action_space_size(), 7);
    assert_eq!(moves_of(&g), vec![0, 1, 2, 3, 4, 5, 6]);
    for i in 0..6 {
        assert_eq!(g.turn(), if i % 2 == 0 { 1 } else { -1 });
        assert_eq!(g.to_move(), if i % 2 == 0 { ToMove::Max } else { ToMove::Min });
        g.push(3);
    }
    assert_eq!(moves_of(&g), vec![0, 1, 2, 4, 5, 6]);
    assert_eq!(g.evaluate(), 0);
    assert_eq!(g.char_at(3, 0), 'X');
    assert_eq!(g.char_at(3, 1), 'O');
    assert_eq!(g.char_at(3, 5), 'O');
    assert_eq!(g.char_at(2, 0), '.');
    assert_eq!(
        g.to_text(),
        "...O...\n...X...\n...O...\n...X...\n...O...\n...X...\n"
    );
    g.push(0);
    assert_eq!(
        g.to_text(),
        "...O...\n...X...\n...O...\n...X...\n...O...\nX..X...\n"
    );
    assert_eq!(Connect4::move_text(6), "6");
}

#[test]
fn four_in_a_line_win() {
    // up a column
    let g = played(&[0, 1, 0, 1, 0, 1, 0]);
    assert!(g.is_won());
    assert_eq!(g.evaluate(), 1);
    assert!(g.is_terminal());
    assert!(!played(&[0, 1, 0, 1, 0, 1]).is_won());
    // along a row, for the second side
    let g = played(&[0, 1, 0, 2, 0, 3, 6, 4]);
    assert!(g.is_won());
    assert_eq!(g.evaluate(), -1);
    // along the rising diagonal
    let g = played(&[0, 1, 1, 2, 2, 3, 2, 3, 3, 6, 3]);
    assert!(g.is_won());
    assert_eq!(g.evaluate(), 1);
    // along the falling diagonal
    let g = played(&[6, 5, 5, 4, 4, 3, 4, 3, 3, 0, 3]);
    assert!(g.is_won());
    assert_eq!(g.evaluate(), 1);
    // the top of one column and the bottom of the next are not neighbours
    let g = played(&[0, 6, 0, 6, 0, 5, 1, 5, 1, 5, 1]);
    assert!(!g.is_won());
    assert!(Connect4::win_dir(0b1111, 0));
    assert!(!Connect4::win_dir(0b1111, 1));
    assert!(Connect4::win_dir(1 | 1 << 7 | 1 << 14 | 1 << 21, 1));
    assert!(Connect4::win_dir(1 | 1 << 8 | 1 << 16 | 1 << 24, 2));
    assert!(Connect4::win_dir(1 << 3 | 1 << 9 | 1 << 15 | 1 << 21, 3));
    assert!(!Connect4::win_dir(1 | 1 << 7 | 1 << 14 | 1 << 28, 1));
}

#[test]
fn a_stone_taken_back_leaves_no_trace() {
    let mut g = Connect4::new();
    let mut line = Vec::new();
    let mut states = vec![g];
    while !g.is_terminal() {
        let moves = moves_of(&g);
        for &m in &moves {
            let before = g;
            g.push(m);
            assert_ne!(g, before);
            g.pop(m);
            assert_eq!(g, before);
        }
        let m = moves[(line.len() * 3 + line.len() / 7) % moves.len()];
        g.push(m);
        line.push(m);
        states.push(g);
    }
    while let Some(m) = line.pop() {
        states.pop();
        g.pop(m);
        assert_eq!(g, *states.last().unwrap());
    }
    assert_eq!(g, Connect4::new());
}

#[test]
fn connect4_counts_by_depth() {
    let expected = [7u64, 49, 343, 2401, 16807];
    for (i, &count) in expected.iter().enumerate() {
        let mut g = Connect4::new();
        assert_eq!(perft(&mut g, i as u8 + 1), count);
        let mut h = Connect4::new();
        assert_eq!(perft_cached(&mut h, i as u8 + 1), count);
        assert_eq!(g, Connect4::new());
    }
    // from the seventh ply on a column can be full
    let mut g = Connect4::new();
    assert_eq!(perft(&mut g, 7), 823536);
}

#[test]
fn a_win_at_hand_is_taken() {
    let mut g = played(&[0, 1, 0, 1, 0, 1]);
    assert_eq!(negamax(&mut g, 4, -INF, INF), 3);
    assert_eq!(g, played(&[0, 1, 0, 1, 0, 1]));
    let mut threatened = played(&[0, 1, 0, 1, 0]);
    // the second side must stop the column
    assert_eq!(negamax(&mut threatened, 2, -INF, INF), 0);
    assert_ne!(played(&[0, 1]).hashkey(), played(&[1, 0]).hashkey());
    assert_eq!(played(&[0, 1, 2]).hashkey(), played(&[2, 1, 0]).hashkey());
    assert!(played(&[0, 1, 2]).same_state(&played(&[2, 1, 0]).duplicate()));
    assert_eq!(best_move_within(&mut g), 0);
}

fn best_move_within(g: &mut Connect4) -> usize {
    let mut best = (i32::MIN, 0usize);
    for m in moves_of(g) {
        g.push(m);
        let value = -negamax(g, 3, -INF, INF);
        g.pop(m);
        if value > best.0 {
            best = (value, m);
        }
    }
    let _ = best_move::<Connect4>;
    best.1
}
