use gamesolver::game::{Game, Keyed, ToMove};
use gamesolver::perft::{perft, perft_cached, perft_cached_internal, Memo};
use gamesolver::tictactoe::{TicTacToe, TicTacToeMove};

#[test]
fn tictactoe_depth1() {
    let mut board = TicTacToe::new();
    assert_eq!(perft(&mut board, 1), 9);
}

#[test]
fn tictactoe_depth2() {
    let mut board = TicTacToe::new();
    assert_eq!(perft(&mut board, 2), 72);
}

#[test]
fn fullperft() {
    let mut board = TicTacToe::new();
    assert_eq!(perft(&mut board, 10), 255168);
}

#[test]
fn perft_ttt_root() {
    let mut board = TicTacToe::new();
    let count = perft(&mut board, 1);
    assert_eq!(count, 9);
}

#[test]
fn cached_full_count_agrees() {
    let mut board = TicTacToe::new();
    assert_eq!(perft_cached(&mut board, 10), 255168);
    assert_eq!(board, TicTacToe::new());
}

fn moves_of(g: &TicTacToe) -> Vec<TicTacToeMove> {
    let mut moves = Vec::new();
    g.generate_moves(&mut moves);
    moves
}

#[test]
fn free_squares_come_lowest_first() {
    let mut g = TicTacToe::new();
    assert_eq!(g.action_space_size(), 9);
    assert_eq!(moves_of(&g), (0..9).map(TicTacToeMove::new).collect::<Vec<_>>());
    g.push(TicTacToeMove::new(4));
    g.push(TicTacToeMove::new(0));
    g.push(TicTacToeMove::new(8));
    let mut moves = vec![TicTacToeMove::new(4)];
    g.generate_moves(&mut moves);
    assert_eq!(
        moves,
        [4, 1, 2, 3, 5, 6, 7]
            .iter()
            .map(|&i| TicTacToeMove::new(i))
            .collect::<Vec<_>>()
    );
}

#[test]
fn a_move_taken_back_leaves_no_trace() {
    let mut g = TicTacToe::new();
    let mut line = Vec::new();
    let mut states = vec![g];
    while !g.is_terminal() {
        let moves = moves_of(&g);
        let m = moves[(line.len() * 5) % moves.len()];
        for &other in &moves {
            let before = g;
            g.push(other);
            assert_ne!(g, before);
            g.pop(other);
            assert_eq!(g, before);
        }
        g.push(m);
        line.push(m);
        states.push(g);
    }
    while let Some(m) = line.pop() {
        states.pop();
        g.pop(m);
        assert_eq!(g, *states.last().unwrap());
    }
    assert_eq!(g, TicTacToe::new());
}

#[test]
fn the_sides_take_turns() {
    let mut g = TicTacToe::new();
    assert_eq!(g.turn(), 1);
    assert_eq!(g.to_move(), ToMove::Max);
    assert_eq!(g.evaluate(), 0);
    assert!(!g.is_terminal());
    g.push(TicTacToeMove::new(0));
    assert_eq!(g.turn(), -1);
    assert_eq!(g.to_move(), ToMove::Min);
    assert!(g.probe_spot(0));
    assert!(!g.probe_spot(1));
    assert!(g.pos_filled(0));
    assert!(!g.pos_filled(8));
    assert!(g.player_at(0));
    g.push(TicTacToeMove::new(8));
    assert!(!g.probe_spot(0));
    assert!(g.probe_spot(8));
    assert!(!g.player_at(8));
    assert_eq!(g.char_at(0, 0), 'X');
    assert_eq!(g.char_at(2, 2), '0');
    assert_eq!(g.char_at(1, 1), '.');
    assert_eq!(g.to_text(), "X . . \n. . . \n. . 0 \n");
    g.push(TicTacToeMove::new(1));
    // square 1 is the second mark of the first column of the picture
    assert_eq!(g.to_text(), "X . . \nX . . \n. . 0 \n");
    assert_eq!(TicTacToe::move_text(TicTacToeMove::new(7)), "7");
    assert_eq!(TicTacToeMove::new(12).to_text(), "12");
    assert!(g.same_state(&g.duplicate()));
    assert!(!g.same_state(&TicTacToe::new()));
}

#[test]
fn every_line_wins() {
    let lines = [
        [0usize, 1, 2],
        [3, 4, 5],
        [6, 7, 8],
        [0, 3, 6],
        [1, 4, 7],
        [2, 5, 8],
        [0, 4, 8],
        [2, 4, 6],
    ];
    for line in lines {
        let others: Vec<usize> = (0..9).filter(|i| !line.contains(i)).collect();
        // the first side takes the line, the second side two squares off it
        let mut g = TicTacToe::new();
        g.push(TicTacToeMove::new(line[0]));
        g.push(TicTacToeMove::new(others[0]));
        g.push(TicTacToeMove::new(line[1]));
        g.push(TicTacToeMove::new(others[1]));
        assert_eq!(g.evaluate(), 0);
        assert!(!g.is_terminal());
        g.push(TicTacToeMove::new(line[2]));
        assert_eq!(g.evaluate(), 1);
        assert!(g.is_terminal());
        // a finished game is one leaf, however many squares are free
        assert_eq!(moves_of(&g).len(), 4);
        assert_eq!(perft(&mut g, 1), 1);
        // the second side takes the line
        let mut g = TicTacToe::new();
        g.push(TicTacToeMove::new(others[0]));
        g.push(TicTacToeMove::new(line[0]));
        g.push(TicTacToeMove::new(others[1]));
        g.push(TicTacToeMove::new(line[1]));
        let spare = if line.contains(&4) || (others[0] + others[1] + others[2]) % 3 != 0 {
            others[3]
        } else {
            others[2]
        };
        g.push(TicTacToeMove::new(spare));
        if g.evaluate() == 0 {
            g.push(TicTacToeMove::new(line[2]));
            assert_eq!(g.evaluate(), -1);
            assert!(g.is_terminal());
        }
    }
}

#[test]
fn a_full_board_without_a_line_is_drawn() {
    let mut g = TicTacToe::new();
    for i in [0, 1, 2, 4, 3, 5, 7, 6, 8] {
        assert!(!g.is_terminal());
        g.push(TicTacToeMove::new(i));
    }
    assert!(g.is_terminal());
    assert_eq!(g.evaluate(), 0);
    assert!(moves_of(&g).is_empty());
    assert_eq!(perft(&mut g, 3), 1);
}

#[test]
fn tictactoe_counts_by_depth() {
    // a game that has ended is one leaf at every depth beyond its end
    let expected = [9u64, 72, 504, 3024, 15120, 56160, 154944, 255168, 255168];
    for (i, &count) in expected.iter().enumerate() {
        let mut g = TicTacToe::new();
        assert_eq!(perft(&mut g, i as u8 + 1), count);
        assert_eq!(g, TicTacToe::new());
    }
}

#[test]
fn tictactoe_memo_changes_no_count() {
    for depth in 1..=9 {
        let mut plain = TicTacToe::new();
        let mut cached = TicTacToe::new();
        assert_eq!(perft_cached(&mut cached, depth), perft(&mut plain, depth));
        assert_eq!(cached, TicTacToe::new());
    }
}

#[test]
fn the_memo_keeps_what_it_is_given() {
    let mut memo: Memo<TicTacToe> = Memo::new();
    let start = TicTacToe::new();
    let mut other = TicTacToe::new();
    other.push(TicTacToeMove::new(3));
    assert_eq!(memo.get(&start), None);
    memo.insert(start, 17);
    assert_eq!(memo.get(&start), Some(17));
    assert_eq!(memo.get(&other), None);
    memo.insert(other, 4);
    memo.insert(start, 18);
    assert_eq!(memo.get(&start), Some(18));
    assert_eq!(memo.get(&other), Some(4));
    // a state found in the memo is not counted again
    let mut board = TicTacToe::new();
    assert_eq!(perft_cached_internal(&mut board, 5, &mut memo), 18);
    assert_eq!(perft_cached_internal(&mut board, 1, &mut memo), 9);
    let mut fresh: Memo<TicTacToe> = Memo::new();
    assert_eq!(perft_cached_internal(&mut board, 3, &mut fresh), 504);
    assert_eq!(fresh.get(&start), None);
    assert_eq!(perft_cached_internal(&mut board, 4, &mut fresh), 3024);
    assert_eq!(fresh.get(&start), Some(3024));
    assert_eq!(fresh.get(&other), None);
    assert_ne!(start.hashkey(), other.hashkey());
}

#[test]
fn no_list_of_moves_outgrows_the_hint() {
    let mut g = TicTacToe::new();
    assert_eq!(moves_of(&g).len(), g.action_space_size());
    for i in [4, 0, 8, 2] {
        g.push(TicTacToeMove::new(i));
        assert_eq!(g.action_space_size(), 9);
        assert!(moves_of(&g).len() <= g.action_space_size());
    }
}
