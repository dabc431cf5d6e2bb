use gamesolver::game::{find_move, Game, PartiallySolvable, StochasticGame, ToMove, CERTAIN};
use gamesolver::iter_bits::IterBits;
use gamesolver::perft::{perft, perft_cached};
use gamesolver::rgu::{count_marks, roll_weight, Board, Move, State, Ur, UrMove, MATE_SCORE};
use gamesolver::solver::{expecti_best_move, expecti_principal_variation, expectiminimax};

#[test]
fn startpos_legal_moves() {
    let g = Ur::new();
    let mut moves = Vec::new();
    g.generate_moves(&mut moves);
    assert_eq!(moves.len(), 5);
}

#[test]
fn moves_after_roll() {
    let mut g = Ur::new();
    g.push(UrMove::Roll(0));
    let mut moves = Vec::new();
    g.generate_moves(&mut moves);
    assert_eq!(moves.len(), 1);
}

#[test]
fn perft_1() {
    let mut board = Ur::new();
    let before = board.clone();
    let count = perft(&mut board, 1);
    assert_eq!(count, 5);
    assert_eq!(board, before);
}

#[test]
fn perft_2() {
    let mut board = Ur::new();
    let before = board.clone();
    let count = perft(&mut board, 2);
    assert_eq!(count, 5);
    assert_eq!(board, before);
}

#[test]
fn perft_3() {
    let mut board = Ur::new();
    let before = board.clone();
    let count = perft(&mut board, 3);
    assert_eq!(count, 25);
    assert_eq!(board, before);
}

#[test]
fn perft_4() {
    let mut board = Ur::new();
    let before = board.clone();
    let count = perft(&mut board, 4);
    assert_eq!(count, 28);
    assert_eq!(board, before);
}

#[test]
fn make_unmake() {
    for r in 1..=4 {
        let mut g = Ur::new();
        g.push(UrMove::Roll(r));
        let before = g.clone();
        g.push(UrMove::Move(Move {
            from: 14,
            to: r - 1,
            capture: false,
        }));
        g.pop(UrMove::Move(Move {
            from: 14,
            to: r - 1,
            capture: false,
        }));
        assert_eq!(g, before);
    }
}

#[test]
fn rosette() {
    let mut g = Ur::new();
    let before = g.clone();
    let moves = [
        UrMove::Roll(4),
        UrMove::Move(Move {
            from: 14,
            to: 3,
            capture: false,
        }),
        UrMove::Roll(4),
        UrMove::Move(Move {
            from: 3,
            to: 7,
            capture: false,
        }),
    ];
    for m in &moves {
        g.push(*m);
    }
    for m in moves.iter().rev() {
        g.pop(*m);
    }
    assert_eq!(g, before);
}

#[test]
fn print() {
    let mut board = Ur::new();
    board.push(UrMove::Roll(1));
    board.push(UrMove::Move(Move {
        from: 14,
        to: 0,
        capture: false,
    }));
    let s = board.to_text();
    assert_eq!(
        s,
        ". . . X     . .
. . . . . . . .
. . . .     . .

Move 2
Roll: ? | Pots: 6 X, 7 O
"
    );
}

fn piece(from: usize, to: usize, capture: bool) -> UrMove {
    UrMove::Move(Move { from, to, capture })
}

fn legal_moves(g: &Ur) -> Vec<UrMove> {
    let mut moves = Vec::new();
    g.generate_moves(&mut moves);
    moves
}

#[test]
fn a_roll_of_nothing_forces_a_pass() {
    let mut g = Ur::new();
    g.push(UrMove::Roll(0));
    assert_eq!(legal_moves(&g), vec![UrMove::Pass]);
    assert_eq!(g.to_move(), ToMove::Max);
    let before = g.clone();
    g.push(UrMove::Pass);
    assert_eq!(g.turn(), -1);
    assert_eq!(g.to_move(), ToMove::Chance);
    g.pop(UrMove::Pass);
    assert_eq!(g, before);
}

#[test]
fn moves_are_appended_to_what_the_buffer_holds() {
    let mut g = Ur::new();
    g.push(UrMove::Roll(0));
    let mut moves = vec![UrMove::Roll(3)];
    g.generate_moves(&mut moves);
    assert_eq!(moves, vec![UrMove::Roll(3), UrMove::Pass]);
    let start = Ur::new();
    let mut moves = vec![UrMove::Pass];
    start.generate_moves(&mut moves);
    assert_eq!(
        moves,
        vec![
            UrMove::Pass,
            UrMove::Roll(0),
            UrMove::Roll(1),
            UrMove::Roll(2),
            UrMove::Roll(3),
            UrMove::Roll(4)
        ]
    );
}

#[test]
fn a_piece_on_a_rosette_moves_again() {
    let mut g = Ur::new();
    g.push(UrMove::Roll(4));
    assert_eq!(legal_moves(&g), vec![piece(14, 3, false)]);
    g.push(piece(14, 3, false));
    assert_eq!(g.turn(), 1);
    g.push(UrMove::Roll(4));
    // the piece can go on, but no piece can be brought on to its square
    assert_eq!(legal_moves(&g), vec![piece(3, 7, false)]);
    g.pop(UrMove::Roll(4));
    g.push(UrMove::Roll(2));
    assert_eq!(legal_moves(&g), vec![piece(3, 5, false), piece(14, 1, false)]);
}

#[test]
fn a_capture_sends_the_piece_back_to_its_pot() {
    let mut g = Ur::new();
    // the first side goes to square 4
    g.push(UrMove::Roll(4));
    g.push(piece(14, 3, false));
    g.push(UrMove::Roll(1));
    g.push(piece(3, 4, false));
    // the second side goes to square 3 and from there to square 4
    g.push(UrMove::Roll(4));
    g.push(piece(14, 3, false));
    g.push(UrMove::Roll(1));
    assert_eq!(legal_moves(&g), vec![piece(3, 4, true), piece(14, 0, false)]);
    let before = g.clone();
    assert_eq!(before.heuristic(), 400 - 300 - 50 * 6 + 50 * 6);
    g.push(piece(3, 4, true));
    assert_eq!(g.heuristic(), -400 - 50 * 7 + 50 * 6);
    assert_eq!(
        g.to_text(),
        ". . . .     . .\nO . . . . . . .\n. . . .     . .\n\nMove 3\nRoll: ? | Pots: 7 X, 6 O\n"
    );
    g.pop(piece(3, 4, true));
    assert_eq!(g, before);
}

#[test]
fn every_move_of_a_game_can_be_taken_back() {
    let mut g = Ur::new();
    let mut line = Vec::new();
    let mut states = vec![g.clone()];
    let mut turn = 0usize;
    while !g.is_terminal() && line.len() < 400 {
        let moves = legal_moves(&g);
        assert!(!moves.is_empty());
        let m = moves[turn % moves.len()];
        turn += 3;
        g.push(m);
        line.push(m);
        states.push(g.clone());
    }
    while let Some(m) = line.pop() {
        states.pop();
        g.pop(m);
        assert_eq!(&g, states.last().unwrap());
    }
    assert_eq!(g, Ur::new());
}

#[test]
fn a_finished_game_outranks_every_estimate() {
    let mut g = Ur::new();
    let mut largest = 0;
    let mut plies = 0u32;
    while !g.is_terminal() {
        assert!(g.heuristic().abs() < MATE_SCORE);
        largest = largest.max(g.heuristic().abs());
        let moves = legal_moves(&g);
        let m = match g.to_move() {
            ToMove::Chance => UrMove::Roll(1 + (plies as usize) % 4),
            _ => *moves.last().unwrap(),
        };
        g.push(m);
        plies += 1;
        assert!(plies < 100_000);
    }
    assert_eq!(g.heuristic().abs(), MATE_SCORE);
    assert_eq!(g.heuristic(), g.evaluate() as i32 * MATE_SCORE);
    assert!(g.heuristic().abs() > largest);
    assert!(largest <= 23_450);
}

#[test]
fn the_rolls_follow_four_fair_coins() {
    let g = Ur::new();
    let mut chances = Vec::new();
    g.generate_legal_moves_with_probabilities(&mut chances);
    let sixteenths = [1u32, 4, 6, 4, 1];
    assert_eq!(chances.len(), 5);
    let mut sum = 0.0f64;
    for (i, (m, weight)) in chances.iter().enumerate() {
        assert_eq!(*m, UrMove::Roll(i));
        assert_eq!(*weight, roll_weight(i));
        assert_eq!(*weight * 16, sixteenths[i] * CERTAIN);
        sum += *weight as f64 / CERTAIN as f64;
    }
    assert_eq!(sum, 1.0);
    assert_eq!(roll_weight(5), 0);
    assert_eq!(legal_moves(&g), chances.iter().map(|c| c.0).collect::<Vec<_>>());
}

#[test]
fn dice_show_at_most_four_marks() {
    let mut seen = [false; 5];
    for _ in 0..2000 {
        let roll = Ur::dice_roll();
        assert!(roll <= 4);
        seen[roll] = true;
    }
    // a roll that never comes in two thousand throws is no fair roll
    assert_eq!(seen, [true; 5]);
    assert_eq!(count_marks(&vec![]), 0);
    assert_eq!(count_marks(&vec![false, false, false, false]), 0);
    assert_eq!(count_marks(&vec![true, false, true, false]), 2);
    assert_eq!(count_marks(&vec![false, false, false, true]), 1);
    assert_eq!(count_marks(&vec![true, true, true, true]), 4);
}

#[test]
fn expectiminimax_weighs_the_rolls() {
    let mut g = Ur::new();
    assert_eq!(expectiminimax(&mut g, 0), 0);
    // a roll of r brings a piece to square r - 1: worth 100 (r - 1) + 50
    assert_eq!(expectiminimax(&mut g, 1), 153);
    assert_eq!(g, Ur::new());
    g.push(UrMove::Roll(3));
    assert_eq!(expectiminimax(&mut g, 1), 250);
    g.push(piece(14, 2, false));
    assert_eq!(expectiminimax(&mut g, 0), 250);
    // the second side answers in kind: 250 less 153 and an eighth, which
    // is rounded toward zero
    assert_eq!(expectiminimax(&mut g, 1), 96);
}

#[test]
fn the_best_move_is_a_legal_move() {
    let mut g = Ur::new();
    g.push(UrMove::Roll(4));
    g.push(piece(14, 3, false));
    g.push(UrMove::Roll(2));
    let m = expecti_best_move(g.clone());
    assert!(legal_moves(&g).contains(&m));
    let again = expecti_best_move(g.clone());
    assert_eq!(m, again);
    // at a chance node any roll may come back
    let rolled = expecti_best_move(Ur::new());
    assert!(legal_moves(&Ur::new()).contains(&rolled));
}

#[test]
fn a_line_of_play_ends_where_the_game_is_over() {
    let line = expecti_principal_variation(Ur::new());
    let mut g = Ur::new();
    for m in &line {
        assert!(!g.is_terminal());
        assert!(legal_moves(&g).contains(m));
        g.push(*m);
    }
    assert!(g.is_terminal());
}

#[test]
fn memoized_count_agrees_on_the_race_game() {
    for depth in 1..=6 {
        let mut g = Ur::new();
        let mut h = Ur::new();
        assert_eq!(perft_cached(&mut g, depth), perft(&mut h, depth));
        assert_eq!(g, Ur::new());
    }
}

#[test]
fn moves_are_found_by_their_names() {
    let mut g = Ur::new();
    assert_eq!(find_move(&g, "roll 3"), Some(UrMove::Roll(3)));
    assert_eq!(find_move(&g, "roll 5"), None);
    assert_eq!(find_move(&g, "pass"), None);
    g.push(UrMove::Roll(2));
    assert_eq!(find_move(&g, "14-1"), Some(piece(14, 1, false)));
    assert_eq!(Ur::move_text(piece(3, 14, false)), "3-14");
    assert_eq!(UrMove::Pass.to_text(), "pass");
    assert_eq!(UrMove::Roll(0).to_text(), "roll 0");
}

#[test]
fn the_board_keeps_the_lanes_apart() {
    let mut board = Board::new();
    assert!(board.is_empty());
    board.set(5, State::O);
    assert_eq!(board.bits(), 1u64 << 37);
    assert!(board.test(5, State::O));
    assert!(!board.test(5, State::X));
    assert!(board.is_side_empty(State::X));
    assert!(!board.is_side_empty(State::O));
    board.advance(
        Move {
            from: 14,
            to: 5,
            capture: true,
        },
        State::X,
    );
    assert_eq!(board.bits(), 1u64 << 5);
    assert_eq!(board.count(State::X), 1);
    assert_eq!(board.count(State::O), 0);
    assert_eq!(board.char_at(5), 'X');
    assert_eq!(board.chars_at(5), ('X', '.'));
    assert_eq!(board.char_at(6), '.');
    board.revert(
        Move {
            from: 14,
            to: 5,
            capture: true,
        },
        State::X,
    );
    assert_eq!(board.bits(), 1u64 << 37);
    assert_eq!(board.char_at(5), 'O');
    assert_eq!(board.chars_at(5), ('.', 'O'));
    board.advance(
        Move {
            from: 5,
            to: 14,
            capture: false,
        },
        State::O,
    );
    assert!(board.is_empty());
    assert_eq!(State::X.neg(), State::O);
    assert_eq!(State::O.neg(), State::X);
    assert_eq!(State::Empty.neg(), State::Empty);
}

#[test]
fn set_bits_come_lowest_first() {
    let mut bits = IterBits {
        bitboard: 0b1010_0100,
    };
    assert_eq!(bits.size_hint(), (3, Some(3)));
    assert_eq!(bits.next(), Some(2));
    assert_eq!(bits.next(), Some(5));
    assert_eq!(bits.size_hint(), (1, Some(1)));
    assert_eq!(bits.next(), Some(7));
    assert_eq!(bits.next(), None);
    assert_eq!(bits.next(), None);
    assert_eq!(bits.size_hint(), (0, Some(0)));
    let mut top = IterBits {
        bitboard: 1u64 << 63,
    };
    assert_eq!(top.next(), Some(63));
    assert_eq!(top.next(), None);
    let mut board = Board::new();
    board.set(0, State::O);
    board.set(13, State::O);
    board.set(2, State::X);
    let mut squares = board.filled_slots(State::O);
    assert_eq!(squares.next(), Some(0));
    assert_eq!(squares.next(), Some(13));
    assert_eq!(squares.next(), None);
}

#[test]
fn the_hint_has_room_for_every_list_of_moves() {
    let mut g = Ur::new();
    assert_eq!(g.action_space_size(), 21);
    let mut plies = 0usize;
    let mut longest = 0;
    while !g.is_terminal() && plies < 2000 {
        let moves = legal_moves(&g);
        assert!(moves.len() <= 8);
        assert!(moves.len() <= g.action_space_size());
        longest = longest.max(moves.len());
        let m = match g.to_move() {
            ToMove::Chance => UrMove::Roll(1 + (plies / 2) % 4),
            _ => moves[(plies / 3) % moves.len()],
        };
        g.push(m);
        plies += 1;
    }
    assert!(longest >= 5);
}
