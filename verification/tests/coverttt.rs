use gamesolver::coverttt::{CoverTTT, CoverTTTMove, Size};
use gamesolver::game::{Game, Keyed};
use gamesolver::perft::{perft, perft_cached};
use gamesolver::solver::solve;

#[test]
fn coverttt_depth1() {
    let mut board = CoverTTT::new();
    assert_eq!(perft(&mut board, 1), 27);
}

#[test]
fn coverttt_depth2() {
    let mut board = CoverTTT::new();
    assert_eq!(perft(&mut board, 2), 675);
}

#[test]
fn cttt_root() {
    let mut board = CoverTTT::new();
    let count = perft(&mut board, 1);
    assert_eq!(count, 27);
}

#[test]
fn validate_cached_perft() {
    let mut board = CoverTTT::new();
    assert_eq!(perft_cached(&mut board, 1), perft(&mut board, 1));
    assert_eq!(perft_cached(&mut board, 2), perft(&mut board, 2));
    assert_eq!(perft_cached(&mut board, 3), perft(&mut board, 3));
    assert_eq!(perft_cached(&mut board, 4), perft(&mut board, 4));
}

#[test]
fn cttt_xwin() {
    let mut root = CoverTTT::new();
    root.push(CoverTTTMove::new(4, Size::Big));
    root.push(CoverTTTMove::new(1, Size::Small));

    // X wins, so the sign of the value is positive
    assert_eq!(solve(root).signum(), 1);
    // X wins in five moves, so the value is 5
    assert_eq!(solve(root), 5);
}

fn moves_of(g: &CoverTTT) -> Vec<CoverTTTMove> {
    let mut moves = Vec::new();
    g.generate_moves(&mut moves);
    moves
}

fn put(g: &mut CoverTTT, idx: usize, size: Size) {
    g.push(CoverTTTMove::new(idx, size));
}

#[test]
fn big_pieces_come_first() {
    let g = CoverTTT::new();
    let moves = moves_of(&g);
    assert_eq!(g.action_space_size(), 27);
    assert_eq!(moves.len(), 27);
    for i in 0..9 {
        assert_eq!(moves[i], CoverTTTMove::new(i, Size::Big));
        assert_eq!(moves[9 + i], CoverTTTMove::new(i, Size::Medium));
        assert_eq!(moves[18 + i], CoverTTTMove::new(i, Size::Small));
    }
    assert!(g.legal_moves_exist());
    assert_eq!(CoverTTTMove::new(4, Size::Big).to_text(), "B4");
    assert_eq!(CoverTTT::move_text(CoverTTTMove::new(0, Size::Small)), "S0");
    assert_eq!(CoverTTTMove::new(8, Size::Medium).to_text(), "M8");
}

#[test]
fn a_larger_piece_covers_a_smaller_one() {
    let mut g = CoverTTT::new();
    put(&mut g, 4, Size::Small);
    assert!(g.pos_filled(4));
    assert!(g.player_at(4));
    assert_eq!(g.size_at(4), Size::Small);
    assert_eq!(g.char_at(1, 1), 'S');
    assert!(g.probe_spot(4));
    // on the square only larger pieces can be put
    let moves = moves_of(&g);
    assert_eq!(moves.len(), 9 + 9 + 8);
    assert!(moves.contains(&CoverTTTMove::new(4, Size::Medium)));
    assert!(!moves.contains(&CoverTTTMove::new(4, Size::Small)));
    put(&mut g, 4, Size::Medium);
    assert!(!g.player_at(4));
    assert_eq!(g.size_at(4), Size::Medium);
    assert_eq!(g.char_at(1, 1), 'm');
    assert!(g.probe_spot(4));
    assert_eq!(g.layer_bitmask(Size::Small), 1 << 4);
    assert_eq!(g.layer_bitmask(Size::Medium), 1 << 4);
    assert_eq!(g.layer_bitmask(Size::Big), 0);
    let moves = moves_of(&g);
    assert_eq!(moves.len(), 9 + 8 + 8);
    put(&mut g, 4, Size::Big);
    assert!(g.player_at(4));
    assert_eq!(g.size_at(4), Size::Big);
    assert_eq!(g.to_text(), ". . . \n. B . \n. . . \n");
    assert_eq!(moves_of(&g).len(), 8 + 8 + 8);
    put(&mut g, 0, Size::Big);
    assert_eq!(g.to_text(), "b . . \n. B . \n. . . \n");
    assert!(!g.pos_filled(1));
    assert_eq!(g.char_at(0, 1), '.');
}

#[test]
fn each_side_has_three_pieces_of_a_size() {
    let mut g = CoverTTT::new();
    // the first side plays its three big pieces, the second side three small ones
    put(&mut g, 0, Size::Big);
    put(&mut g, 3, Size::Small);
    put(&mut g, 1, Size::Big);
    put(&mut g, 4, Size::Small);
    put(&mut g, 8, Size::Big);
    put(&mut g, 6, Size::Small);
    assert_eq!(g.evaluate(), 0);
    let moves = moves_of(&g);
    assert!(moves.iter().all(|m| m.size != Size::Big));
    // medium pieces go where no big or medium piece stands, small ones on free squares
    assert_eq!(moves.iter().filter(|m| m.size == Size::Medium).count(), 6);
    assert_eq!(moves.iter().filter(|m| m.size == Size::Small).count(), 3);
    put(&mut g, 2, Size::Medium);
    let moves = moves_of(&g);
    assert_eq!(moves.iter().filter(|m| m.size == Size::Big).count(), 6);
    assert!(moves.iter().all(|m| m.size != Size::Small));
}

#[test]
fn the_top_pieces_make_the_line() {
    let mut g = CoverTTT::new();
    put(&mut g, 0, Size::Small);
    put(&mut g, 3, Size::Small);
    put(&mut g, 1, Size::Small);
    put(&mut g, 4, Size::Small);
    // the second side covers the third square before the first side gets there
    let mut covered = g;
    put(&mut covered, 8, Size::Medium);
    put(&mut covered, 2, Size::Medium);
    put(&mut covered, 2, Size::Big);
    assert_eq!(covered.evaluate(), 1);
    assert!(covered.is_terminal());
    put(&mut g, 2, Size::Small);
    assert_eq!(g.evaluate(), 1);
    assert!(g.is_terminal());
    assert_eq!(perft(&mut g, 2), 1);
    // a line under a piece of the other side does not count
    let mut g = CoverTTT::new();
    put(&mut g, 0, Size::Small);
    put(&mut g, 0, Size::Medium);
    put(&mut g, 1, Size::Small);
    put(&mut g, 8, Size::Small);
    put(&mut g, 2, Size::Small);
    assert_eq!(g.evaluate(), 0);
    assert!(!g.is_terminal());
}

#[test]
fn a_piece_taken_back_leaves_no_trace() {
    let mut g = CoverTTT::new();
    let mut line = Vec::new();
    let mut states = vec![g];
    while !g.is_terminal() {
        let moves = moves_of(&g);
        assert!(!moves.is_empty());
        for &m in &moves {
            let before = g;
            g.push(m);
            assert_ne!(g, before);
            g.pop(m);
            assert_eq!(g, before);
        }
        let m = moves[(line.len() * 11 + 5) % moves.len()];
        g.push(m);
        line.push(m);
        states.push(g);
    }
    while let Some(m) = line.pop() {
        states.pop();
        g.pop(m);
        assert_eq!(g, *states.last().unwrap());
    }
    assert_eq!(g, CoverTTT::new());
    assert!(g.same_state(&g.duplicate()));
    let mut other = g;
    put(&mut other, 0, Size::Small);
    assert!(!g.same_state(&other));
    assert_ne!(g.hashkey(), other.hashkey());
}

#[test]
fn coverttt_memo_changes_no_count() {
    for depth in 1..=4 {
        let mut plain = CoverTTT::new();
        let mut cached = CoverTTT::new();
        plain.push(CoverTTTMove::new(0, Size::Medium));
        cached.push(CoverTTTMove::new(0, Size::Medium));
        assert_eq!(perft_cached(&mut cached, depth), perft(&mut plain, depth));
        assert_eq!(plain, cached);
    }
}
