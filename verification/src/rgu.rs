//! The royal game of Ur: a race of seven pieces a side along a track of
//! fourteen squares, moved by the roll of four two-sided dice.
//!
//! Each side has its own lane of the board word: bit `i` of the lane
//! says that the side has a piece on square `i` of its track. The first
//! side's lane starts at bit 0, the second side's at bit 32.

use vstd::prelude::*;
use crate::bits::{
    count64, has64, lemma_count_all64, lemma_count_bound64, lemma_count_moved64,
    lemma_count_none64, lemma_count_plus_one64, lemma_count_same64, lemma_count_some64, lemma_lower_half,
    lemma_no_bits_is_zero64, lemma_one64, lemma_ops64, lemma_set_bits_hold64,
    lemma_set_bits_len64, lemma_set_bits_rise64, lemma_shift64, ones64, set_bits64,
};
use crate::perft::{capped, leaf_count, lemma_memo_agrees, memo_count};
use crate::game::{Game, Keyed, PartiallySolvable, StochasticGame, ToMove, weight_from, CERTAIN};
use crate::iter_bits::IterBits;
use crate::text::{decimal, push_char, push_decimal};
use vstd::string::StringExecFns;

verus! {

/// Where a piece stands that is not yet on the board.
pub const FROM_POT: usize = 14;

/// The last square of the track; a move beyond it leaves the board.
pub const END_SQUARE: usize = 13;

/// The number of pieces with which a side starts.
pub const STARTING_PIECES: i32 = 7;

/// A side, or neither.
#[derive(Debug, Clone, Copy, PartialEq, Eq, Hash, Structural)]
pub enum State {
    X,
    O,
    Empty,
}

impl State {
    /// The other side; neither stays neither.
    pub open spec fn other(self) -> State {
        match self {
            State::X => State::O,
            State::O => State::X,
            State::Empty => State::Empty,
        }
    }

    /// The other side.
    pub fn neg(self) -> (r: State)
        ensures
            r == self.other(),
    {
        match self {
            State::X => State::O,
            State::O => State::X,
            State::Empty => State::Empty,
        }
    }
}

/// A move of a piece: from a square, or from the pot, to a square, or
/// beyond the end of the track; `capture` says that it sends a piece of
/// the other side back to its pot.
#[derive(Debug, Clone, Copy, PartialEq, Eq, Hash)]
pub struct Move {
    pub from: usize,
    pub to: usize,
    pub capture: bool,
}

/// The first bit of a side's lane.
pub open spec fn lane_start(player: State) -> int {
    match player {
        State::O => 32,
        _ => 0,
    }
}

/// Whether the side has a piece on the square.
pub open spec fn holds(slots: u64, slot: int, player: State) -> bool {
    0 <= slot < 32 && has64(slots, slot + lane_start(player))
}

/// Whether the side has no piece on the board.
pub open spec fn side_empty(slots: u64, player: State) -> bool {
    forall|j: int| !#[trigger] holds(slots, j, player)
}

/// The lane of a side, moved down to bit 0.
pub open spec fn lane(slots: u64, player: State) -> u64 {
    (slots >> (lane_start(player) as u64)) & 0xFFFF_FFFF
}

/// The board after the side has made the move.
pub open spec fn advanced(slots: u64, m: Move, player: State) -> u64 {
    let start = lane_start(player);
    let lifted = if m.from != FROM_POT {
        slots & !(1u64 << ((m.from + start) as u64))
    } else {
        slots
    };
    if m.to > END_SQUARE {
        lifted
    } else {
        let placed = lifted | (1u64 << ((m.to + start) as u64));
        if m.capture {
            placed & !(1u64 << ((m.to + (32 - start)) as u64))
        } else {
            placed
        }
    }
}

/// The board before the side made the move.
pub open spec fn reverted(slots: u64, m: Move, player: State) -> u64 {
    let start = lane_start(player);
    let back = if m.from != FROM_POT {
        slots | (1u64 << ((m.from + start) as u64))
    } else {
        slots
    };
    if m.to > END_SQUARE {
        back
    } else {
        let lifted = back & !(1u64 << ((m.to + start) as u64));
        if m.capture {
            lifted | (1u64 << ((m.to + (32 - start)) as u64))
        } else {
            lifted
        }
    }
}

/// Whether the move names squares of the board.
pub open spec fn on_board(m: Move) -> bool {
    (m.from == FROM_POT || m.from < 32) && (m.to > END_SQUARE || m.from != m.to)
}

/// The bits of the board after a move.
pub proof fn lemma_advanced(slots: u64, m: Move, player: State)
    requires
        on_board(m),
    ensures
        forall|j: int| #[trigger]
            has64(advanced(slots, m, player), j) == (if m.to > END_SQUARE {
                has64(slots, j) && !(m.from != FROM_POT && j == m.from + lane_start(player))
            } else {
                j == m.to + lane_start(player) || (has64(slots, j) && !(m.from != FROM_POT && j
                    == m.from + lane_start(player)) && !(m.capture && j == m.to + (32 - lane_start(
                    player,
                ))))
            }),
{
    let start = lane_start(player);
    let from_bit = 1u64 << ((m.from + start) as u64);
    let lifted = if m.from != FROM_POT {
        slots & !from_bit
    } else {
        slots
    };
    if m.from != FROM_POT {
        lemma_one64(m.from + start);
        lemma_ops64(from_bit, 0);
        lemma_ops64(slots, !from_bit);
    }
    if m.to <= END_SQUARE {
        let to_bit = 1u64 << ((m.to + start) as u64);
        let placed = lifted | to_bit;
        lemma_one64(m.to + start);
        lemma_ops64(lifted, to_bit);
        if m.capture {
            let opposing = 1u64 << ((m.to + (32 - start)) as u64);
            lemma_one64(m.to + (32 - start));
            lemma_ops64(opposing, 0);
            lemma_ops64(placed, !opposing);
        }
    }
}

/// The bits of the board before a move.
pub proof fn lemma_reverted(slots: u64, m: Move, player: State)
    requires
        on_board(m),
    ensures
        forall|j: int| #[trigger]
            has64(reverted(slots, m, player), j) == (if m.to > END_SQUARE {
                has64(slots, j) || (m.from != FROM_POT && j == m.from + lane_start(player))
            } else {
                (m.capture && j == m.to + (32 - lane_start(player))) || ((has64(slots, j) || (m.from
                    != FROM_POT && j == m.from + lane_start(player))) && j != m.to + lane_start(
                    player,
                ))
            }),
{
    let start = lane_start(player);
    let from_bit = 1u64 << ((m.from + start) as u64);
    let back = if m.from != FROM_POT {
        slots | from_bit
    } else {
        slots
    };
    if m.from != FROM_POT {
        lemma_one64(m.from + start);
        lemma_ops64(slots, from_bit);
    }
    if m.to <= END_SQUARE {
        let to_bit = 1u64 << ((m.to + start) as u64);
        let lifted = back & !to_bit;
        lemma_one64(m.to + start);
        lemma_ops64(to_bit, 0);
        lemma_ops64(back, !to_bit);
        if m.capture {
            let opposing = 1u64 << ((m.to + (32 - start)) as u64);
            lemma_one64(m.to + (32 - start));
            lemma_ops64(lifted, opposing);
        }
    }
}

/// The bits of a lane.
pub proof fn lemma_lane(slots: u64, player: State)
    ensures
        forall|j: int| #[trigger] has64(lane(slots, player), j) == holds(slots, j, player),
{
    lemma_shift64(slots, lane_start(player));
    lemma_ops64(slots >> (lane_start(player) as u64), 0xFFFF_FFFF);
    lemma_lower_half();
}

/// The squares of the board, a lane for each side.
#[derive(Debug, Clone, Copy, PartialEq, Eq, Hash)]
pub struct Board {
    slots: u64,
}

impl View for Board {
    type V = u64;

    closed spec fn view(&self) -> u64 {
        self.slots
    }
}

impl Board {
    /// The board without pieces.
    pub fn new() -> (r: Board)
        ensures
            r@ == 0,
    {
        Board { slots: 0 }
    }

    /// The board word.
    pub fn bits(&self) -> (r: u64)
        ensures
            r == self@,
    {
        self.slots
    }

    /// Makes the move for the side.
    pub fn advance(&mut self, m: Move, player: State)
        requires
            player != State::Empty,
            m.from == FROM_POT || m.from + lane_start(player) < 64,
        ensures
            final(self)@ == advanced(old(self)@, m, player),
    {
        let big_shift: usize = match player {
            State::X => 0,
            _ => 32,
        };
        if m.from != FROM_POT {
            // a piece moves: it leaves its square
            let from_bit: u64 = 1u64 << ((m.from + big_shift) as u64);
            self.slots = self.slots & !from_bit;
        }
        if m.to > END_SQUARE {
            // the piece leaves the board
            return ;
        }
        let to_bit: u64 = 1u64 << ((m.to + big_shift) as u64);
        self.slots = self.slots | to_bit;
        if m.capture {
            let opposing_spot: u64 = 1u64 << ((m.to + (32 - big_shift)) as u64);
            self.slots = self.slots & !opposing_spot;
        }
    }

    /// Takes back the move that the side made.
    pub fn revert(&mut self, m: Move, player: State)
        requires
            player != State::Empty,
            m.from == FROM_POT || m.from + lane_start(player) < 64,
        ensures
            final(self)@ == reverted(old(self)@, m, player),
    {
        let big_shift: usize = match player {
            State::X => 0,
            _ => 32,
        };
        if m.from != FROM_POT {
            // a piece moved: it stands on its square again
            let from_bit: u64 = 1u64 << ((m.from + big_shift) as u64);
            self.slots = self.slots | from_bit;
        }
        if m.to > END_SQUARE {
            // the piece had left the board
            return ;
        }
        let to_bit: u64 = 1u64 << ((m.to + big_shift) as u64);
        self.slots = self.slots & !to_bit;
        if m.capture {
            let opposing_spot: u64 = 1u64 << ((m.to + (32 - big_shift)) as u64);
            self.slots = self.slots | opposing_spot;
        }
    }

    /// Whether no piece stands on the board.
    pub fn is_empty(&self) -> (r: bool)
        ensures
            r == (self@ == 0),
    {
        self.slots == 0
    }

    /// Whether the side has no piece on the board.
    pub fn is_side_empty(&self, player: State) -> (r: bool)
        requires
            player != State::Empty,
        ensures
            r == side_empty(self@, player),
    {
        let big_shift: u64 = match player {
            State::X => 0,
            _ => 32,
        };
        let word: u64 = (self.slots >> big_shift) & 0xFFFF_FFFF;
        proof {
            assert(word == lane(self@, player));
            lemma_lane(self@, player);
            lemma_no_bits_is_zero64(word);
            if word == 0 {
                assert forall|j: int| !#[trigger] holds(self@, j, player) by {
                    assert(!has64(word, j));
                }
            } else {
                let j = choose|j: int| has64(word, j);
                assert(holds(self@, j, player));
            }
        }
        word == 0
    }

    /// The squares on which the side has a piece, lowest first.
    pub fn filled_slots(&self, player: State) -> (r: IterBits)
        requires
            player != State::Empty,
        ensures
            r.bitboard == lane(self@, player),
    {
        let big_shift: u64 = match player {
            State::X => 0,
            _ => 32,
        };
        IterBits { bitboard: (self.slots >> big_shift) & 0xFFFF_FFFF }
    }

    /// Whether the bit of the square in the lane of the side is set: for
    /// a square of the lane, whether the side has a piece on it.
    pub fn test(&self, slot: usize, player: State) -> (r: bool)
        requires
            player != State::Empty,
            slot + lane_start(player) < 64,
        ensures
            r == has64(self@, slot + lane_start(player)),
            slot < 32 ==> r == holds(self@, slot as int, player),
    {
        let big_shift: usize = match player {
            State::X => 0,
            _ => 32,
        };
        let bit: u64 = 1u64 << ((slot + big_shift) as u64);
        (self.slots & bit) != 0
    }

    /// Puts a piece of the side on the square.
    pub fn set(&mut self, slot: usize, player: State)
        requires
            player != State::Empty,
            slot + lane_start(player) < 64,
        ensures
            final(self)@ == old(self)@ | (1u64 << ((slot + lane_start(player)) as u64)),
    {
        let big_shift: usize = match player {
            State::X => 0,
            _ => 32,
        };
        let bit: u64 = 1u64 << ((slot + big_shift) as u64);
        self.slots = self.slots | bit;
    }

    /// The number of pieces that the side has on the board.
    pub fn count(&self, player: State) -> (r: u32)
        requires
            player != State::Empty,
        ensures
            r == count64(lane(self@, player), 64),
    {
        let big_shift: u64 = match player {
            State::X => 0,
            _ => 32,
        };
        ones64((self.slots >> big_shift) & 0xFFFF_FFFF)
    }

    /// The mark of the side that has a piece on the square, where the
    /// sides share the square.
    pub fn char_at(&self, slot: usize) -> (r: char)
        requires
            slot < 32,
        ensures
            r == shared_mark(self@, slot as int),
    {
        if self.test(slot, State::X) {
            'X'
        } else if self.test(slot, State::O) {
            'O'
        } else {
            '.'
        }
    }

    /// The marks of the two sides on the square of that number in their
    /// own lanes.
    pub fn chars_at(&self, slot: usize) -> (r: (char, char))
        requires
            slot < 32,
        ensures
            r == own_marks(self@, slot as int),
    {
        let left = if self.test(slot, State::X) {
            'X'
        } else {
            '.'
        };
        let right = if self.test(slot, State::O) {
            'O'
        } else {
            '.'
        };
        (left, right)
    }
}

/// The mark on a square that the sides share.
pub open spec fn shared_mark(slots: u64, slot: int) -> char {
    if holds(slots, slot, State::X) {
        'X'
    } else if holds(slots, slot, State::O) {
        'O'
    } else {
        '.'
    }
}

/// The marks on a square of the sides' own lanes.
pub open spec fn own_marks(slots: u64, slot: int) -> (char, char) {
    (
        if holds(slots, slot, State::X) {
            'X'
        } else {
            '.'
        },
        if holds(slots, slot, State::O) {
            'O'
        } else {
            '.'
        },
    )
}

/// A position: the board, the pieces that each side has yet to bring on,
/// the number of turns taken, the roll that waits to be played, and the
/// rolls played so far.
#[derive(Debug, Clone, PartialEq, Eq, Hash)]
pub struct Ur {
    slots: Board,
    pots: [u8; 2],
    moves: usize,
    last_roll: Option<usize>,
    rolls: Vec<usize>,
}

/// What a side can do: move a piece, roll the dice, or pass.
#[derive(Debug, Clone, Copy, PartialEq, Eq, Hash)]
pub enum UrMove {
    Move(Move),
    Roll(usize),
    Pass,
}

/// A position as the proofs see it.
pub struct UrView {
    pub slots: u64,
    pub x_pot: u8,
    pub o_pot: u8,
    pub moves: nat,
    pub last_roll: Option<usize>,
    pub rolls: Seq<usize>,
}

impl View for Ur {
    type V = UrView;

    closed spec fn view(&self) -> UrView {
        UrView {
            slots: self.slots@,
            x_pot: self.pots[0],
            o_pot: self.pots[1],
            moves: self.moves as nat,
            last_roll: self.last_roll,
            rolls: self.rolls@,
        }
    }
}

/// The side whose turn it is after so many turns.
pub open spec fn side_at(moves: nat) -> State {
    if moves % 2 == 0 {
        State::X
    } else {
        State::O
    }
}

/// The pieces that the side has yet to bring on.
pub open spec fn pot(s: UrView, player: State) -> u8 {
    match player {
        State::O => s.o_pot,
        _ => s.x_pot,
    }
}

/// The number of pieces that the side has on the board.
pub open spec fn pieces(slots: u64, player: State) -> nat {
    count64(lane(slots, player), 14)
}

/// Whether a piece that lands on the square moves again.
pub open spec fn is_rosette(square: usize) -> bool {
    square == 3 || square == 7 || square == 13
}

/// Where a piece on `from` lands with the roll: squares beyond the end
/// of the track count as one.
pub open spec fn target(from: int, roll: int) -> int {
    if from + roll < 14 {
        from + roll
    } else {
        14
    }
}

/// The move of the piece on `from`, unless a piece of its own side stands
/// in its way.
pub open spec fn piece_move(s: UrView, roll: usize, from: int) -> Seq<UrMove> {
    let to = target(from, roll as int);
    if holds(s.slots, to, side_at(s.moves)) {
        Seq::empty()
    } else {
        seq![
            UrMove::Move(
                Move {
                    from: from as usize,
                    to: to as usize,
                    capture: holds(s.slots, to, side_at(s.moves).other()),
                },
            ),
        ]
    }
}

/// The moves of the pieces on the listed squares, in the order of the
/// list.
pub open spec fn piece_moves(s: UrView, roll: usize, squares: Seq<int>) -> Seq<UrMove>
    decreases squares.len(),
{
    if squares.len() == 0 {
        Seq::empty()
    } else {
        piece_moves(s, roll, squares.drop_last()) + piece_move(s, roll, squares.last())
    }
}

/// The move that brings a piece on, if the side has one left and the
/// square is free of its own pieces.
pub open spec fn pot_moves(s: UrView, roll: usize) -> Seq<UrMove> {
    if pot(s, side_at(s.moves)) > 0 && roll != 0 && !holds(s.slots, roll - 1, side_at(s.moves)) {
        seq![UrMove::Move(Move { from: FROM_POT, to: (roll - 1) as usize, capture: false })]
    } else {
        Seq::empty()
    }
}

/// The five rolls.
pub open spec fn roll_moves() -> Seq<UrMove> {
    seq![UrMove::Roll(0), UrMove::Roll(1), UrMove::Roll(2), UrMove::Roll(3), UrMove::Roll(4)]
}

/// The position after the side to move has made the piece move.
pub open spec fn after_piece(s: UrView, m: Move) -> UrView {
    let us = side_at(s.moves);
    let gain: int = if m.capture {
        1
    } else {
        0
    };
    let cost: int = if m.from == FROM_POT {
        1
    } else {
        0
    };
    UrView {
        slots: advanced(s.slots, m, us),
        x_pot: if us == State::X {
            (s.x_pot - cost) as u8
        } else {
            (s.x_pot + gain) as u8
        },
        o_pot: if us == State::X {
            (s.o_pot + gain) as u8
        } else {
            (s.o_pot - cost) as u8
        },
        moves: if is_rosette(m.to) {
            s.moves
        } else {
            s.moves + 1
        },
        last_roll: None,
        rolls: s.rolls.push(s.last_roll.unwrap()),
    }
}

/// The roll that was played last, if one was.
pub open spec fn roll_back(s: UrView) -> Option<usize> {
    if s.rolls.len() > 0 {
        Some(s.rolls.last())
    } else {
        None
    }
}

/// The rolls played before the last.
pub open spec fn rolls_back(s: UrView) -> Seq<usize> {
    if s.rolls.len() > 0 {
        s.rolls.drop_last()
    } else {
        s.rolls
    }
}

/// The number of turns before the piece move was made.
pub open spec fn turns_before(s: UrView, m: Move) -> nat {
    if is_rosette(m.to) {
        s.moves
    } else {
        (s.moves - 1) as nat
    }
}

/// The position before the piece move was made.
pub open spec fn before_piece(s: UrView, m: Move) -> UrView {
    let us = side_at(turns_before(s, m));
    let gain: int = if m.capture {
        1
    } else {
        0
    };
    let cost: int = if m.from == FROM_POT {
        1
    } else {
        0
    };
    UrView {
        slots: reverted(s.slots, m, us),
        x_pot: if us == State::X {
            (s.x_pot + cost) as u8
        } else {
            (s.x_pot - gain) as u8
        },
        o_pot: if us == State::X {
            (s.o_pot - gain) as u8
        } else {
            (s.o_pot + cost) as u8
        },
        moves: turns_before(s, m),
        last_roll: roll_back(s),
        rolls: rolls_back(s),
    }
}

/// Whether the piece move can be taken back.
pub open spec fn can_undo_piece(s: UrView, m: Move) -> bool {
    let us = side_at(turns_before(s, m));
    &&& is_rosette(m.to) || s.moves >= 1
    &&& m.from == FROM_POT || m.from + lane_start(us) < 64
    &&& m.capture ==> pot(s, us.other()) >= 1
    &&& m.from == FROM_POT ==> pot(s, us) < 255
}

impl Ur {
    /// The start: an empty board, seven pieces in each pot, the first
    /// side to roll.
    pub fn new() -> (r: Self)
        ensures
            r@ == (UrView {
                slots: 0,
                x_pot: 7,
                o_pot: 7,
                moves: 0,
                last_roll: None,
                rolls: Seq::empty(),
            }),
            Self::valid(r@),
    {
        let r = Self {
            slots: Board::new(),
            moves: 0,
            pots: [STARTING_PIECES as u8;2],
            last_roll: None,
            rolls: Vec::new(),
        };
        proof {
            lemma_ops64(0, 0);
            lemma_lane(0, State::X);
            lemma_lane(0, State::O);
            lemma_count_none64(lane(0, State::X), 14);
            lemma_count_none64(lane(0, State::O), 14);
            assert(r@.rolls =~= Seq::empty());
        }
        r
    }
}

impl Game for Ur {
    type Move = UrMove;

    /// Pieces stand on the fourteen squares of each lane only, no side
    /// has more than seven pieces, a roll is at most four, and no turn
    /// was taken without a roll.
    open spec fn valid(s: UrView) -> bool {
        &&& forall|j: int| #[trigger] has64(s.slots, j) ==> 0 <= j < 14 || 32 <= j < 46
        &&& pieces(s.slots, State::X) + s.x_pot <= 7
        &&& pieces(s.slots, State::O) + s.o_pot <= 7
        &&& s.last_roll matches Some(roll) ==> roll <= 4
        &&& s.moves <= s.rolls.len()
    }

    open spec fn turn_of(s: UrView) -> int {
        if s.moves % 2 == 0 {
            1
        } else {
            -1
        }
    }

    /// A side has won when it has no piece left, on the board or in its
    /// pot.
    open spec fn score_of(s: UrView) -> int {
        if s.x_pot == 0 && side_empty(s.slots, State::X) {
            1
        } else if s.o_pot == 0 && side_empty(s.slots, State::O) {
            -1
        } else {
            0
        }
    }

    open spec fn over(s: UrView) -> bool {
        Self::score_of(s) != 0
    }

    /// Before a roll, the five rolls. After a roll of nothing, a pass.
    /// After another roll, the moves of the pieces on the board, lowest
    /// square first, then the move that brings a piece on.
    open spec fn moves_of(s: UrView) -> Seq<UrMove> {
        match s.last_roll {
            None => roll_moves(),
            Some(roll) => if roll == 0 {
                seq![UrMove::Pass]
            } else {
                piece_moves(s, roll, set_bits64(lane(s.slots, side_at(s.moves)), 0)) + pot_moves(
                    s,
                    roll,
                )
            },
        }
    }

    open spec fn mover_of(s: UrView) -> ToMove {
        match s.last_roll {
            Some(_) => if s.moves % 2 == 0 {
                ToMove::Max
            } else {
                ToMove::Min
            },
            None => ToMove::Chance,
        }
    }

    open spec fn after(s: UrView, m: UrMove) -> UrView {
        match m {
            UrMove::Move(piece) => after_piece(s, piece),
            UrMove::Roll(roll) => UrView { last_roll: Some(roll), ..s },
            UrMove::Pass => UrView {
                moves: s.moves + 1,
                last_roll: None,
                rolls: s.rolls.push(s.last_roll.unwrap()),
                ..s
            },
        }
    }

    open spec fn can_undo(s: UrView, m: UrMove) -> bool {
        match m {
            UrMove::Move(piece) => can_undo_piece(s, piece),
            UrMove::Roll(_) => true,
            UrMove::Pass => s.moves >= 1,
        }
    }

    open spec fn before(s: UrView, m: UrMove) -> UrView {
        match m {
            UrMove::Move(piece) => before_piece(s, piece),
            UrMove::Roll(_) => UrView { last_roll: None, ..s },
            UrMove::Pass => UrView {
                moves: (s.moves - 1) as nat,
                last_roll: roll_back(s),
                rolls: rolls_back(s),
                ..s
            },
        }
    }

    proof fn law_make_unmake(s: UrView, m: UrMove) {
        lemma_legal(s, m);
        match m {
            UrMove::Move(piece) => {
                lemma_piece_keeps_valid(s, piece);
                lemma_piece_round_trip(s, piece);
            },
            UrMove::Roll(roll) => {},
            UrMove::Pass => {
                let t = Self::after(s, m);
                assert(rolls_back(t) =~= s.rolls);
            },
        }
    }

    proof fn law_outcome(s: UrView) {
        if !Self::over(s) {
            lemma_some_move(s);
        }
    }

    proof fn law_distinct_moves(s: UrView) {
        match s.last_roll {
            None => {},
            Some(roll) => {
                if roll != 0 {
                    let us = side_at(s.moves);
                    let squares = set_bits64(lane(s.slots, us), 0);
                    lemma_set_bits_rise64(lane(s.slots, us), 0);
                    lemma_piece_moves_rise(s, roll, squares);
                    let moves = Self::moves_of(s);
                    let board = piece_moves(s, roll, squares);
                    lemma_set_bits_hold64(lane(s.slots, us), 0);
                    lemma_lane(s.slots, us);
                    assert forall|k: int| 0 <= k < board.len() implies 0 <= origin(
                        #[trigger] board[k],
                    ) < 14 by {
                        let from = origin(board[k]);
                        assert(squares.contains(from));
                        assert(holds(s.slots, from, us));
                        lemma_square_range(s, from, us);
                    }
                    assert forall|k: int, l: int|
                        0 <= k < moves.len() && 0 <= l < moves.len() && k != l implies moves[k]
                        != moves[l] by {
                        if k < board.len() {
                            assert(moves[k] == board[k]);
                        } else {
                            assert(moves[k] == pot_moves(s, roll)[k - board.len()]);
                        }
                        if l < board.len() {
                            assert(moves[l] == board[l]);
                        } else {
                            assert(moves[l] == pot_moves(s, roll)[l - board.len()]);
                        }
                        if k < board.len() && l < board.len() {
                            if k < l {
                                assert(origin(board[k]) < origin(board[l]));
                            } else {
                                assert(origin(board[l]) < origin(board[k]));
                            }
                        }
                    }
                }
            },
        }
    }

    fn turn(&self) -> (r: i8) {
        if self.moves % 2 == 0 {
            1
        } else {
            -1
        }
    }

    fn evaluate(&self) -> (r: i8) {
        if self.pots[0] == 0 && self.slots.is_side_empty(State::X) {
            1
        } else if self.pots[1] == 0 && self.slots.is_side_empty(State::O) {
            -1
        } else {
            0
        }
    }

    fn is_terminal(&self) -> (r: bool) {
        self.evaluate() != 0
    }

    fn generate_moves(&self, buffer: &mut Vec<UrMove>) {
        match self.last_roll {
            Some(roll) => {
                if roll == 0 {
                    buffer.push(UrMove::Pass);
                    assert(buffer@ =~= old(buffer)@ + Self::moves_of(self@));
                    return ;
                }
                let us = if self.turn() == 1 {
                    State::X
                } else {
                    State::O
                };
                let ghost s = self@;
                // the moves of the pieces on the board
                let mut squares = self.slots.filled_slots(us);
                let ghost all = squares@;
                let ghost mut seen: int = 0;
                proof {
                    lemma_set_bits_rise64(lane(s.slots, us), 0);
                    assert(all.take(0) =~= Seq::<int>::empty());
                    assert(buffer@ =~= old(buffer)@ + piece_moves(s, roll, all.take(0)));
                    assert(all.skip(0) =~= all);
                }
                loop
                    invariant_except_break
                        0 <= seen <= all.len(),
                        squares@ == all.skip(seen),
                        buffer@ == old(buffer)@ + piece_moves(s, roll, all.take(seen)),
                    invariant
                        s == self@,
                        Self::valid(s),
                        us == side_at(s.moves),
                        us != State::Empty,
                        0 < roll <= 4,
                        forall|k: int| 0 <= k < all.len() ==> 0 <= #[trigger] all[k] < 64,
                    ensures
                        buffer@ == old(buffer)@ + piece_moves(s, roll, all),
                    decreases squares@.len(),
                {
                    match squares.next() {
                        Some(from) => {
                            assert(from == all[seen]);
                            let sum: usize = from + roll;
                            let to: usize = if sum < 14 {
                                sum
                            } else {
                                14
                            };
                            if !self.slots.test(to, us) {
                                let capture = self.slots.test(to, us.neg());
                                buffer.push(UrMove::Move(Move { from, to, capture }));
                            }
                            proof {
                                assert(all.take(seen + 1).drop_last() =~= all.take(seen));
                                assert(all.take(seen + 1).last() == from);
                                assert(buffer@ =~= old(buffer)@ + piece_moves(
                                    s,
                                    roll,
                                    all.take(seen + 1),
                                ));
                                assert(all.skip(seen).skip(1) =~= all.skip(seen + 1));
                                seen = seen + 1;
                            }
                        },
                        None => {
                            proof {
                                assert(all.take(seen) =~= all);
                            }
                            break ;
                        },
                    }
                }
                // the move that brings a piece on
                if self.pots[self.moves % 2] > 0 && roll != 0 {
                    let to: usize = roll - 1;
                    if !self.slots.test(to, us) {
                        buffer.push(UrMove::Move(Move { from: FROM_POT, to, capture: false }));
                    }
                }
                assert(buffer@ =~= old(buffer)@ + Self::moves_of(s));
            },
            None => {
                // the rolls
                let mut i: usize = 0;
                while i <= 4
                    invariant
                        i <= 5,
                        buffer@ == old(buffer)@ + roll_moves().take(i as int),
                    decreases 5 - i,
                {
                    buffer.push(UrMove::Roll(i));
                    assert(buffer@ =~= old(buffer)@ + roll_moves().take(i + 1));
                    i += 1;
                }
                assert(roll_moves().take(5) =~= roll_moves());
            },
        }
    }

    fn push(&mut self, m: UrMove) {
        proof {
            lemma_legal(self@, m);
            Self::law_make_unmake(self@, m);
        }
        match m {
            UrMove::Move(piece) => {
                let us = if self.turn() == 1 {
                    State::X
                } else {
                    State::O
                };
                let ghost s = self@;
                proof {
                    lemma_piece_keeps_valid(s, piece);
                }
                self.slots.advance(piece, us);
                if piece.capture {
                    self.pots[1 - self.moves % 2] = self.pots[1 - self.moves % 2] + 1;
                }
                if piece.from == FROM_POT {
                    self.pots[self.moves % 2] = self.pots[self.moves % 2] - 1;
                }
                let landed_on_rosette = piece.to == 3 || piece.to == 7 || piece.to == 13;
                self.rolls.push(self.last_roll.unwrap());
                if !landed_on_rosette {
                    // a piece that lands on a rosette moves again: the
                    // turn is not counted
                    assert(self.rolls@.len() == self.rolls.len());
                    self.moves += 1;
                }
                self.last_roll = None;
            },
            UrMove::Roll(roll) => {
                self.last_roll = Some(roll);
            },
            UrMove::Pass => {
                self.rolls.push(self.last_roll.unwrap());
                assert(self.rolls@.len() == self.rolls.len());
                self.moves += 1;
                self.last_roll = None;
            },
        }
    }

    fn pop(&mut self, m: UrMove) {
        match m {
            UrMove::Move(piece) => {
                let landed_on_rosette = piece.to == 3 || piece.to == 7 || piece.to == 13;
                if !landed_on_rosette {
                    self.moves -= 1;
                }
                let us = if self.moves % 2 == 0 {
                    State::X
                } else {
                    State::O
                };
                self.slots.revert(piece, us);
                if piece.capture {
                    self.pots[1 - self.moves % 2] = self.pots[1 - self.moves % 2] - 1;
                }
                if piece.from == FROM_POT {
                    self.pots[self.moves % 2] = self.pots[self.moves % 2] + 1;
                }
                self.last_roll = self.rolls.pop();
            },
            UrMove::Roll(_) => {
                self.last_roll = None;
            },
            UrMove::Pass => {
                self.moves -= 1;
                self.last_roll = self.rolls.pop();
            },
        }
    }

    /// Twenty-one, which is room enough for the moves of every valid
    /// position: five rolls, or a move for each of seven pieces and one
    /// that brings a piece on.
    fn action_space_size(&self) -> (r: usize)
        ensures
            r == 21,
            Self::valid(self@) ==> Self::moves_of(self@).len() <= 8 <= r,
    {
        proof {
            if Self::valid(self@) {
                lemma_moves_bound(self@);
            }
        }
        21
    }

    fn to_move(&self) -> (r: ToMove) {
        match self.last_roll {
            Some(_) => if self.moves % 2 == 0 {
                ToMove::Max
            } else {
                ToMove::Min
            },
            None => ToMove::Chance,
        }
    }

    open spec fn text_of(s: Self::V) -> Seq<char> {
        ur_text(s)
    }

    open spec fn move_text_of(m: Self::Move) -> Seq<char> {
        move_text(m)
    }

    fn to_text(&self) -> (r: String) {
        let mut out = String::new();
        push_lane_line(&mut out, &self.slots, State::X);
        let mut slot: usize = 4;
        let ghost start = out@;
        let ghost line = shared_line(self@.slots);
        assert(out@ =~= start + line.take(0));
        while slot < 12
            invariant
                4 <= slot <= 12,
                line == shared_line(self@.slots),
                out@ == start + line.take(2 * (slot - 4)),
            decreases 12 - slot,
        {
            push_char(&mut out, self.slots.char_at(slot));
            push_char(&mut out, if slot < 11 { ' ' } else { '\n' });
            assert(out@ =~= start + line.take(2 * (slot + 1 - 4)));
            slot += 1;
        }
        assert(line.take(16) =~= line);
        push_lane_line(&mut out, &self.slots, State::O);
        push_char(&mut out, '\n');
        out.append("Move ");
        push_decimal(&mut out, self.moves as u128 + 1);
        push_char(&mut out, '\n');
        out.append("Roll: ");
        match self.last_roll {
            Some(roll) => {
                push_decimal(&mut out, roll as u128);
            },
            None => {
                push_char(&mut out, '?');
            },
        }
        out.append(" | ");
        out.append("Pots: ");
        push_decimal(&mut out, self.pots[0] as u128);
        out.append(" X, ");
        push_decimal(&mut out, self.pots[1] as u128);
        out.append(" O");
        push_char(&mut out, '\n');
        assert(out@ =~= ur_text(self@));
        out
    }

    fn move_text(m: Self::Move) -> (r: String) {
        m.to_text()
    }

    fn duplicate(&self) -> (r: Self) {
        let mut rolls: Vec<usize> = Vec::with_capacity(self.rolls.len());
        let mut i: usize = 0;
        while i < self.rolls.len()
            invariant
                i <= self.rolls.len(),
                rolls@ == self.rolls@.take(i as int),
            decreases self.rolls.len() - i,
        {
            rolls.push(self.rolls[i]);
            assert(rolls@ =~= self.rolls@.take(i + 1));
            i += 1;
        }
        assert(self.rolls@.take(self.rolls.len() as int) =~= self.rolls@);
        Ur {
            slots: self.slots,
            pots: self.pots,
            moves: self.moves,
            last_roll: self.last_roll,
            rolls,
        }
    }

    fn same_state(&self, other: &Self) -> (r: bool) {
        if self.slots.bits() != other.slots.bits() || self.pots[0] != other.pots[0]
            || self.pots[1] != other.pots[1] || self.moves != other.moves {
            return false;
        }
        let same_roll = match (self.last_roll, other.last_roll) {
            (Some(a), Some(b)) => a == b,
            (None, None) => true,
            _ => false,
        };
        if !same_roll || self.rolls.len() != other.rolls.len() {
            return false;
        }
        let mut i: usize = 0;
        while i < self.rolls.len()
            invariant
                i <= self.rolls.len(),
                self.rolls.len() == other.rolls.len(),
                self.rolls@.take(i as int) == other.rolls@.take(i as int),
            decreases self.rolls.len() - i,
        {
            if self.rolls[i] != other.rolls[i] {
                return false;
            }
            assert(self.rolls@.take(i + 1) =~= self.rolls@.take(i as int).push(self.rolls@[i as int]));
            assert(other.rolls@.take(i + 1) =~= other.rolls@.take(i as int).push(
                other.rolls@[i as int],
            ));
            i += 1;
        }
        assert(self.rolls@.take(self.rolls.len() as int) =~= self.rolls@);
        assert(other.rolls@.take(self.rolls.len() as int) =~= other.rolls@);
        true
    }
}

/// The square that a piece move starts from; `64` for a roll or a pass.
pub open spec fn origin(m: UrMove) -> int {
    match m {
        UrMove::Move(piece) => piece.from as int,
        _ => 64,
    }
}

/// What holds of a piece move that is legal after a roll.
pub open spec fn legal_piece(s: UrView, roll: usize, m: Move) -> bool {
    let us = side_at(s.moves);
    &&& m.to <= 14
    &&& !holds(s.slots, m.to as int, us)
    &&& m.capture ==> holds(s.slots, m.to as int, us.other())
    &&& if m.from == FROM_POT {
        &&& pot(s, us) > 0
        &&& m.to == roll - 1
        &&& !m.capture
    } else {
        &&& m.from < 14
        &&& holds(s.slots, m.from as int, us)
        &&& m.to == target(m.from as int, roll as int)
        &&& m.capture == holds(s.slots, m.to as int, us.other())
    }
}

/// The moves of the pieces on squares of the board are legal piece moves.
pub proof fn lemma_piece_moves_legal(s: UrView, roll: usize, squares: Seq<int>)
    requires
        Ur::valid(s),
        0 < roll <= 4,
        forall|k: int|
            0 <= k < squares.len() ==> holds(s.slots, #[trigger] squares[k], side_at(s.moves)),
    ensures
        forall|k: int|
            0 <= k < piece_moves(s, roll, squares).len() ==> (#[trigger] piece_moves(
                s,
                roll,
                squares,
            )[k] matches UrMove::Move(m) && legal_piece(s, roll, m)),
    decreases squares.len(),
{
    if squares.len() > 0 {
        let init = squares.drop_last();
        lemma_piece_moves_legal(s, roll, init);
        let from = squares.last();
        assert(holds(s.slots, from, side_at(s.moves)));
        lemma_square_range(s, from, side_at(s.moves));
        let all = piece_moves(s, roll, squares);
        let head = piece_moves(s, roll, init);
        assert forall|k: int| 0 <= k < all.len() implies (#[trigger] all[k] matches UrMove::Move(m)
            && legal_piece(s, roll, m)) by {
            if k < head.len() {
                assert(all[k] == head[k]);
            }
        }
    }
}

/// On a valid board a side has pieces on the fourteen squares only.
pub proof fn lemma_square_range(s: UrView, slot: int, player: State)
    requires
        Ur::valid(s),
        holds(s.slots, slot, player),
    ensures
        0 <= slot < 14,
{
    assert(has64(s.slots, slot + lane_start(player)));
}

/// The moves of the pieces on a rising list of squares start from
/// squares of the list, each from a higher one than the move before.
pub proof fn lemma_piece_moves_rise(s: UrView, roll: usize, squares: Seq<int>)
    requires
        forall|k: int| 0 <= k < squares.len() ==> 0 <= #[trigger] squares[k] < 64,
        forall|k: int, l: int|
            0 <= k < l < squares.len() ==> #[trigger] squares[k] < #[trigger] squares[l],
    ensures
        forall|k: int|
            0 <= k < piece_moves(s, roll, squares).len() ==> squares.contains(
                origin(#[trigger] piece_moves(s, roll, squares)[k]),
            ),
        forall|k: int, l: int|
            0 <= k < l < piece_moves(s, roll, squares).len() ==> origin(
                #[trigger] piece_moves(s, roll, squares)[k],
            ) < origin(#[trigger] piece_moves(s, roll, squares)[l]),
    decreases squares.len(),
{
    if squares.len() > 0 {
        let init = squares.drop_last();
        lemma_piece_moves_rise(s, roll, init);
        let all = piece_moves(s, roll, squares);
        let head = piece_moves(s, roll, init);
        let last = squares.last();
        assert forall|k: int| 0 <= k < all.len() implies squares.contains(origin(#[trigger] all[k])) by {
            if k < head.len() {
                assert(all[k] == head[k]);
                assert(init.contains(origin(head[k])));
                let i = choose|i: int| 0 <= i < init.len() && init[i] == origin(head[k]);
                assert(squares[i] == origin(head[k]));
            } else {
                assert(origin(all[k]) == last);
                assert(squares[squares.len() - 1] == last);
            }
        }
        assert forall|k: int, l: int| 0 <= k < l < all.len() implies origin(#[trigger] all[k])
            < origin(#[trigger] all[l]) by {
            assert(all[k] == head[k]);
            if l < head.len() {
                assert(all[l] == head[l]);
            } else {
                assert(origin(all[l]) == last);
                assert(init.contains(origin(head[k])));
                let i = choose|i: int| 0 <= i < init.len() && init[i] == origin(head[k]);
                assert(squares[i] < squares[squares.len() - 1]);
            }
        }
    }
}

/// What holds of a legal move: a roll is at most four and comes before
/// a roll is made; a pass comes after a roll of nothing; a piece move
/// comes after another roll and is a legal piece move.
pub proof fn lemma_legal(s: UrView, m: UrMove)
    requires
        Ur::valid(s),
        Ur::moves_of(s).contains(m),
    ensures
        match m {
            UrMove::Roll(roll) => s.last_roll is None && roll <= 4,
            UrMove::Pass => s.last_roll == Some(0usize),
            UrMove::Move(piece) => s.last_roll is Some && 0 < s.last_roll->0 <= 4 && legal_piece(
                s,
                s.last_roll->0,
                piece,
            ),
        },
{
    let moves = Ur::moves_of(s);
    let k = choose|k: int| 0 <= k < moves.len() && moves[k] == m;
    match s.last_roll {
        None => {},
        Some(roll) => {
            if roll != 0 {
                let us = side_at(s.moves);
                let squares = set_bits64(lane(s.slots, us), 0);
                lemma_set_bits_hold64(lane(s.slots, us), 0);
                lemma_lane(s.slots, us);
                assert forall|i: int| 0 <= i < squares.len() implies holds(
                    s.slots,
                    #[trigger] squares[i],
                    us,
                ) by {
                    assert(squares.contains(squares[i]));
                }
                lemma_piece_moves_legal(s, roll, squares);
                let board = piece_moves(s, roll, squares);
                if k < board.len() {
                    assert(moves[k] == board[k]);
                }
            }
        },
    }
}

/// How a legal piece move changes the lanes: the mover's lane loses
/// the square that the piece leaves and gains the square on which it
/// lands, and the other lane loses the piece that is captured.
pub proof fn lemma_piece_lanes(s: UrView, roll: usize, m: Move)
    requires
        Ur::valid(s),
        0 < roll <= 4,
        legal_piece(s, roll, m),
    ensures
        on_board(m),
        forall|j: int| #[trigger]
            holds(advanced(s.slots, m, side_at(s.moves)), j, side_at(s.moves)) == ((m.to <= END_SQUARE
                && j == m.to) || (holds(s.slots, j, side_at(s.moves)) && !(m.from != FROM_POT && j
                == m.from))),
        forall|j: int| #[trigger]
            holds(advanced(s.slots, m, side_at(s.moves)), j, side_at(s.moves).other()) == (holds(
                s.slots,
                j,
                side_at(s.moves).other(),
            ) && !(m.to <= END_SQUARE && m.capture && j == m.to)),
        forall|j: int| #[trigger]
            has64(advanced(s.slots, m, side_at(s.moves)), j) ==> 0 <= j < 14 || 32 <= j < 46,
{
    let us = side_at(s.moves);
    lemma_advanced(s.slots, m, us);
    let next = advanced(s.slots, m, us);
    assert forall|j: int| #[trigger] holds(next, j, us) == ((m.to <= END_SQUARE && j == m.to) || (
    holds(s.slots, j, us) && !(m.from != FROM_POT && j == m.from))) by {
        // what is known of the bits of the board is asked of this bit
        let bit = j + lane_start(us);
        assert(has64(next, bit) == has64(next, bit));
    }
    assert forall|j: int| #[trigger] holds(next, j, us.other()) == (holds(s.slots, j, us.other())
        && !(m.to <= END_SQUARE && m.capture && j == m.to)) by {
        // what is known of the bits of the board is asked of this bit
        let bit = j + lane_start(us.other());
        assert(has64(next, bit) == has64(next, bit));
    }
    assert forall|j: int| #[trigger] has64(next, j) implies 0 <= j < 14 || 32 <= j < 46 by {
        if j != m.to + lane_start(us) {
            assert(has64(s.slots, j));
        }
    }
}

/// A legal piece move keeps the position valid, and no pot runs over
/// or under.
pub proof fn lemma_piece_keeps_valid(s: UrView, m: Move)
    requires
        Ur::valid(s),
        s.last_roll is Some,
        0 < s.last_roll->0 <= 4,
        legal_piece(s, s.last_roll->0, m),
    ensures
        Ur::valid(after_piece(s, m)),
        m.capture ==> pot(s, side_at(s.moves).other()) < 7,
        m.from == FROM_POT ==> pot(s, side_at(s.moves)) >= 1,
        pot(after_piece(s, m), State::X) <= 7,
        pot(after_piece(s, m), State::O) <= 7,
{
    let us = side_at(s.moves);
    let them = us.other();
    let t = after_piece(s, m);
    lemma_piece_lanes(s, s.last_roll->0, m);
    lemma_lane(s.slots, us);
    lemma_lane(s.slots, them);
    lemma_lane(t.slots, us);
    lemma_lane(t.slots, them);
    let ours = lane(s.slots, us);
    let ours_then = lane(t.slots, us);
    let theirs = lane(s.slots, them);
    let theirs_then = lane(t.slots, them);
    // the mover's pieces
    if m.from == FROM_POT {
        lemma_count_plus_one64(ours, ours_then, 14, m.to as int);
    } else if m.to <= END_SQUARE {
        lemma_count_moved64(ours, ours_then, 14, m.from as int, m.to as int);
    } else {
        lemma_count_plus_one64(ours_then, ours, 14, m.from as int);
    }
    // the other side's pieces
    if m.capture {
        lemma_count_some64(theirs, 14, m.to as int);
        lemma_count_plus_one64(theirs_then, theirs, 14, m.to as int);
    } else {
        lemma_count_same64(theirs, theirs_then, 14);
    }
}

/// Taking back a legal piece move restores the position.
pub proof fn lemma_piece_round_trip(s: UrView, m: Move)
    requires
        Ur::valid(s),
        s.last_roll is Some,
        0 < s.last_roll->0 <= 4,
        legal_piece(s, s.last_roll->0, m),
    ensures
        can_undo_piece(after_piece(s, m), m),
        before_piece(after_piece(s, m), m) == s,
{
    let us = side_at(s.moves);
    let t = after_piece(s, m);
    lemma_piece_keeps_valid(s, m);
    lemma_piece_lanes(s, s.last_roll->0, m);
    assert(turns_before(t, m) == s.moves);
    lemma_advanced(s.slots, m, us);
    lemma_reverted(t.slots, m, us);
    let back = reverted(t.slots, m, us);
    assert forall|j: int| 0 <= j < 64 implies has64(back, j) == has64(s.slots, j) by {
        if m.from != FROM_POT && j == m.from + lane_start(us) {
            assert(holds(s.slots, m.from as int, us));
        }
        if m.to <= END_SQUARE && j == m.to + lane_start(us) {
            assert(!holds(s.slots, m.to as int, us));
        }
        if m.to <= END_SQUARE && m.capture && j == m.to + (32 - lane_start(us)) {
            assert(holds(s.slots, m.to as int, us.other()));
        }
    }
    crate::bits::lemma_same64(back, s.slots);
    assert(rolls_back(t) =~= s.rolls);
    assert(roll_back(t) == s.last_roll);
}

/// The moves of the pieces on a list of squares are at least the moves
/// of the pieces on the squares before the last.
proof fn lemma_piece_moves_last(s: UrView, roll: usize, squares: Seq<int>)
    requires
        squares.len() > 0,
    ensures
        piece_moves(s, roll, squares).len() >= piece_move(s, roll, squares.last()).len(),
{
}

/// A position that is valid and not over has a move.
pub proof fn lemma_some_move(s: UrView)
    requires
        Ur::valid(s),
        !Ur::over(s),
    ensures
        Ur::moves_of(s).len() > 0,
{
    match s.last_roll {
        None => {},
        Some(roll) => {
            if roll != 0 {
                let us = side_at(s.moves);
                let word = lane(s.slots, us);
                let squares = set_bits64(word, 0);
                lemma_lane(s.slots, us);
                lemma_set_bits_hold64(word, 0);
                lemma_set_bits_rise64(word, 0);
                if squares.len() > 0 {
                    // the piece that is furthest along can move
                    let from = squares.last();
                    let to = target(from, roll as int);
                    assert(squares.contains(from)) by {
                        assert(squares[squares.len() - 1] == from);
                    }
                    lemma_square_range(s, from, us);
                    if holds(s.slots, to, us) {
                        lemma_square_range(s, to, us);
                        assert(squares.contains(to));
                        let k = choose|k: int| 0 <= k < squares.len() && squares[k] == to;
                        if k < squares.len() - 1 {
                            assert(squares[k] < squares[squares.len() - 1]);
                        }
                    }
                    lemma_piece_moves_last(s, roll, squares);
                } else {
                    // no piece is on the board: one can be brought on
                    assert forall|j: int| !#[trigger] holds(s.slots, j, us) by {
                        if holds(s.slots, j, us) {
                            assert(squares.contains(j));
                        }
                    }
                    assert(side_empty(s.slots, us));
                    assert(pot(s, us) > 0);
                }
            }
        },
    }
}

impl Keyed for Ur {
    /// The board word, with the pots, the roll and the side to move in
    /// the bits that the lanes leave free. The rolls played are left out.
    open spec fn key_of(s: UrView) -> u64 {
        let roll: u64 = match s.last_roll {
            Some(roll) => (roll % 7 + 1) as u64,
            None => 0,
        };
        s.slots | ((s.x_pot as u64) << 14) | ((s.o_pot as u64) << 22) | (roll << 50) | (((s.moves
            % 2) as u64) << 54)
    }

    fn hashkey(&self) -> (r: u64) {
        let roll: u64 = match self.last_roll {
            Some(roll) => (roll % 7 + 1) as u64,
            None => 0,
        };
        self.slots.bits() | ((self.pots[0] as u64) << 14) | ((self.pots[1] as u64) << 22) | (roll
            << 50) | (((self.moves % 2) as u64) << 54)
    }
}

/// The probability of a roll, in millionths: four dice, each marked on
/// half of its corners.
pub open spec fn roll_weight_of(roll: int) -> u32 {
    if roll == 0 || roll == 4 {
        62500
    } else if roll == 1 || roll == 3 {
        250000
    } else if roll == 2 {
        375000
    } else {
        0
    }
}

/// The probability of a roll, in millionths.
pub fn roll_weight(roll: usize) -> (r: u32)
    ensures
        r == roll_weight_of(roll as int),
{
    if roll == 0 || roll == 4 {
        62500
    } else if roll == 1 || roll == 3 {
        250000
    } else if roll == 2 {
        375000
    } else {
        0
    }
}

/// The five rolls with their probabilities.
pub open spec fn roll_chances() -> Seq<(UrMove, u32)> {
    Seq::new(5, |i: int| (UrMove::Roll(i as usize), roll_weight_of(i)))
}

/// The number of ways to choose `k` of `n` things.
pub open spec fn choices(n: nat, k: nat) -> nat
    decreases n,
{
    if k == 0 {
        1
    } else if n == 0 {
        0
    } else {
        choices((n - 1) as nat, (k - 1) as nat) + choices((n - 1) as nat, k)
    }
}

/// The roll of four fair two-sided dice: a roll of `k` has the
/// probability of `k` marks among four, which is the number of ways to
/// choose `k` of four, in sixteenths; and the probabilities sum to one.
pub proof fn lemma_roll_odds()
    ensures
        forall|k: int|
            0 <= k <= 4 ==> 16 * #[trigger] roll_weight_of(k) == choices(4, k as nat) * CERTAIN,
        weight_from(roll_chances(), 0) == CERTAIN,
{
    reveal_with_fuel(choices, 6);
    reveal_with_fuel(weight_from, 6);
    assert(choices(4, 0) == 1);
    assert(choices(4, 1) == 4);
    assert(choices(4, 2) == 6);
    assert(choices(4, 3) == 4);
    assert(choices(4, 4) == 1);
}

impl StochasticGame for Ur {
    open spec fn chances_of(s: UrView) -> Seq<(UrMove, u32)> {
        roll_chances()
    }

    proof fn law_chances(s: UrView) {
        lemma_roll_odds();
    }

    fn generate_legal_moves_with_probabilities(&self, buffer: &mut Vec<(UrMove, u32)>) {
        let mut i: usize = 0;
        while i <= 4
            invariant
                i <= 5,
                buffer@ == old(buffer)@ + roll_chances().take(i as int),
            decreases 5 - i,
        {
            buffer.push((UrMove::Roll(i), roll_weight(i)));
            assert(buffer@ =~= old(buffer)@ + roll_chances().take(i + 1));
            i += 1;
        }
        assert(roll_chances().take(5) =~= roll_chances());
    }
}

/// The worth of a decided game.
pub const MATE_SCORE: i32 = 1_000_000;

/// What a piece in the pot costs.
pub const IN_POT_PENALTY: i32 = 50;

/// What a square of progress is worth.
pub const PROGRESS_SCORE: i32 = 100;

/// What a piece that has left the board is worth.
pub const FINISHING_SCORE: i32 = 2000;

/// The sum of a list.
pub open spec fn sum_of(list: Seq<int>) -> int
    decreases list.len(),
{
    if list.len() == 0 {
        0
    } else {
        sum_of(list.drop_last()) + list.last()
    }
}

/// The squares that the pieces of the side have come, added up.
pub open spec fn progress(slots: u64, player: State) -> int {
    sum_of(set_bits64(lane(slots, player), 0))
}

/// The pieces of the side that have left the board.
pub open spec fn finished(s: UrView, player: State) -> int {
    STARTING_PIECES - (pieces(s.slots, player) + pot(s, player))
}

/// The estimate of a position that is not over, for the first side:
/// progress on the board and pieces brought home count for a side,
/// pieces in the pot against it.
pub open spec fn estimate(s: UrView) -> int {
    PROGRESS_SCORE * progress(s.slots, State::X) - PROGRESS_SCORE * progress(s.slots, State::O)
        - IN_POT_PENALTY * s.x_pot + IN_POT_PENALTY * s.o_pot + FINISHING_SCORE * finished(
        s,
        State::X,
    ) - FINISHING_SCORE * finished(s, State::O)
}

/// A list of numbers from `0` to `13` sums to at most `13` times its
/// length.
pub proof fn lemma_sum_bound(list: Seq<int>)
    requires
        forall|k: int| 0 <= k < list.len() ==> 0 <= #[trigger] list[k] <= 13,
    ensures
        0 <= sum_of(list) <= 13 * list.len(),
    decreases list.len(),
{
    if list.len() > 0 {
        lemma_sum_bound(list.drop_last());
    }
}

/// On a valid board the squares of a side are as many as its pieces,
/// none beyond the thirteenth, and their sum is bounded.
pub proof fn lemma_progress(s: UrView, player: State)
    requires
        Ur::valid(s),
    ensures
        set_bits64(lane(s.slots, player), 0).len() == pieces(s.slots, player),
        count64(lane(s.slots, player), 64) == pieces(s.slots, player),
        forall|k: int|
            0 <= k < set_bits64(lane(s.slots, player), 0).len() ==> 0 <= #[trigger] set_bits64(
                lane(s.slots, player),
                0,
            )[k] <= 13,
        0 <= progress(s.slots, player) <= 13 * pieces(s.slots, player),
        pieces(s.slots, player) <= 7,
{
    let word = lane(s.slots, player);
    let squares = set_bits64(word, 0);
    lemma_lane(s.slots, player);
    lemma_set_bits_hold64(word, 0);
    lemma_set_bits_len64(word, 0);
    assert forall|j: int| 14 <= j < 64 implies !has64(word, j) by {
        if holds(s.slots, j, player) {
            lemma_square_range(s, j, player);
        }
    }
    lemma_count_all64(word, 14, 64);
    assert forall|k: int| 0 <= k < squares.len() implies 0 <= #[trigger] squares[k] <= 13 by {
        assert(squares.contains(squares[k]));
        lemma_square_range(s, squares[k], player);
    }
    lemma_sum_bound(squares);
}

/// A game that is over outranks every game that is not: its heuristic
/// is a million either way, that of a game in play stays below
/// twenty-four thousand.
pub proof fn lemma_terminal_dominates(s: UrView, t: UrView)
    requires
        Ur::valid(s),
        Ur::valid(t),
        Ur::over(s),
        !Ur::over(t),
    ensures
        vstd::math::abs(Ur::heuristic_of(s)) == MATE_SCORE,
        vstd::math::abs(Ur::heuristic_of(t)) <= 23450,
        vstd::math::abs(Ur::heuristic_of(s)) > vstd::math::abs(Ur::heuristic_of(t)),
{
    lemma_progress(t, State::X);
    lemma_progress(t, State::O);
}

impl PartiallySolvable for Ur {
    /// A decided game is worth a million to the winner; any other
    /// position is worth its estimate.
    open spec fn heuristic_of(s: UrView) -> int {
        if Self::over(s) {
            Self::score_of(s) * MATE_SCORE
        } else {
            estimate(s)
        }
    }

    proof fn law_dominance(s: UrView, t: UrView) {
        lemma_progress(t, State::X);
        lemma_progress(t, State::O);
    }

    fn heuristic(&self) -> (r: i32) {
        if self.is_terminal() {
            return self.evaluate() as i32 * MATE_SCORE;
        }
        let ghost s = self@;
        proof {
            lemma_progress(s, State::X);
            lemma_progress(s, State::O);
        }
        // pieces further along are worth more, and so are pieces on the
        // board, which give a choice of moves; pieces that have left the
        // board are worth most
        let mut score: i32 = 0;
        let mut squares = self.slots.filled_slots(State::X);
        let ghost all = squares@;
        let ghost mut seen: int = 0;
        proof {
            assert(all.take(0) =~= Seq::<int>::empty());
            assert(all.skip(0) =~= all);
        }
        loop
            invariant_except_break
                0 <= seen <= all.len(),
                squares@ == all.skip(seen),
                score == PROGRESS_SCORE * sum_of(all.take(seen)),
                0 <= sum_of(all.take(seen)) <= 13 * seen,
            invariant
                all.len() <= 7,
                forall|k: int| 0 <= k < all.len() ==> 0 <= #[trigger] all[k] <= 13,
            ensures
                score == PROGRESS_SCORE * sum_of(all),
            decreases squares@.len(),
        {
            match squares.next() {
                Some(x_pos) => {
                    proof {
                        assert(x_pos == all[seen]);
                        assert(all.take(seen + 1).drop_last() =~= all.take(seen));
                        assert(all.take(seen + 1).last() == x_pos);
                        assert(all.skip(seen).skip(1) =~= all.skip(seen + 1));
                        seen = seen + 1;
                    }
                    score = score + x_pos as i32 * PROGRESS_SCORE;
                },
                None => {
                    proof {
                        assert(all.take(seen) =~= all);
                    }
                    break ;
                },
            }
        }
        let mut squares = self.slots.filled_slots(State::O);
        let ghost first = score;
        let ghost all = squares@;
        let ghost mut seen: int = 0;
        proof {
            assert(all.take(0) =~= Seq::<int>::empty());
            assert(all.skip(0) =~= all);
        }
        loop
            invariant_except_break
                0 <= seen <= all.len(),
                squares@ == all.skip(seen),
                score == first - PROGRESS_SCORE * sum_of(all.take(seen)),
                0 <= sum_of(all.take(seen)) <= 13 * seen,
            invariant
                0 <= first <= 9100,
                all.len() <= 7,
                forall|k: int| 0 <= k < all.len() ==> 0 <= #[trigger] all[k] <= 13,
            ensures
                score == first - PROGRESS_SCORE * sum_of(all),
            decreases squares@.len(),
        {
            match squares.next() {
                Some(o_pos) => {
                    proof {
                        assert(o_pos == all[seen]);
                        assert(all.take(seen + 1).drop_last() =~= all.take(seen));
                        assert(all.take(seen + 1).last() == o_pos);
                        assert(all.skip(seen).skip(1) =~= all.skip(seen + 1));
                        seen = seen + 1;
                    }
                    score = score - o_pos as i32 * PROGRESS_SCORE;
                },
                None => {
                    proof {
                        assert(all.take(seen) =~= all);
                    }
                    break ;
                },
            }
        }
        score = score - self.pots[0] as i32 * IN_POT_PENALTY;
        score = score + self.pots[1] as i32 * IN_POT_PENALTY;
        let total_xs: i32 = self.slots.count(State::X) as i32 + self.pots[0] as i32;
        let total_os: i32 = self.slots.count(State::O) as i32 + self.pots[1] as i32;
        score = score + (STARTING_PIECES - total_xs) * FINISHING_SCORE;
        score = score - (STARTING_PIECES - total_os) * FINISHING_SCORE;
        score
    }
}

/// Calls `Rng::gen_ratio(1, 2)` on `rand::thread_rng()`: a coin thrown by
/// the generator of the running thread, which shows either side with
/// the same probability. Nothing is claimed of the outcome.
#[verifier::external_body]
fn marked_corner_up() -> (r: bool) {
    rand::Rng::gen_ratio(&mut rand::thread_rng(), 1, 2)
}

/// The number of dice among the first `n` that show a marked corner.
pub open spec fn marks(dice: Seq<bool>, n: nat) -> nat
    decreases n,
{
    if n == 0 {
        0
    } else {
        marks(dice, (n - 1) as nat) + if dice[n - 1] {
            1nat
        } else {
            0nat
        }
    }
}

/// What the thrown dice are worth: the number of dice that show a marked
/// corner.
pub fn count_marks(dice: &Vec<bool>) -> (r: usize)
    ensures
        r == marks(dice@, dice@.len()),
        r <= dice@.len(),
{
    let mut sum: usize = 0;
    let mut i: usize = 0;
    while i < dice.len()
        invariant
            i <= dice.len(),
            sum == marks(dice@, i as nat),
            sum <= i,
        decreases dice.len() - i,
    {
        if dice[i] {
            sum += 1;
        }
        i += 1;
    }
    sum
}

impl Ur {
    /// A roll of the dice: four dice with four corners each, two of them
    /// marked; the roll is the number of dice that show a marked corner.
    pub fn dice_roll() -> (r: usize)
        ensures
            r <= 4,
    {
        let mut dice: Vec<bool> = Vec::with_capacity(4);
        while dice.len() < 4
            invariant
                dice.len() <= 4,
            decreases 4 - dice.len(),
        {
            dice.push(marked_corner_up());
        }
        count_marks(&dice)
    }
}

/// The mark of a side on a square of its own lane.
pub open spec fn own_mark(slots: u64, slot: int, player: State) -> char {
    if player == State::O {
        own_marks(slots, slot).1
    } else {
        own_marks(slots, slot).0
    }
}

/// The line of the picture with the squares that a side has for itself:
/// the first four squares, from the fourth down, a gap, and the last
/// two.
pub open spec fn lane_line(slots: u64, player: State) -> Seq<char> {
    seq![
        own_mark(slots, 3, player),
        ' ',
        own_mark(slots, 2, player),
        ' ',
        own_mark(slots, 1, player),
        ' ',
        own_mark(slots, 0, player),
        ' ',
        ' ',
        ' ',
        ' ',
        ' ',
        own_mark(slots, 13, player),
        ' ',
        own_mark(slots, 12, player),
        '\n',
    ]
}

/// The line of the picture with the eight squares that the sides share.
pub open spec fn shared_line(slots: u64) -> Seq<char> {
    seq![
        shared_mark(slots, 4),
        ' ',
        shared_mark(slots, 5),
        ' ',
        shared_mark(slots, 6),
        ' ',
        shared_mark(slots, 7),
        ' ',
        shared_mark(slots, 8),
        ' ',
        shared_mark(slots, 9),
        ' ',
        shared_mark(slots, 10),
        ' ',
        shared_mark(slots, 11),
        '\n',
    ]
}

/// The roll that waits to be played, in words.
pub open spec fn roll_text(roll: Option<usize>) -> Seq<char> {
    match roll {
        Some(roll) => decimal(roll as nat),
        None => seq!['?'],
    }
}

/// The picture of a position: the board, the number of the turn, the
/// roll and the pots.
pub open spec fn ur_text(s: UrView) -> Seq<char> {
    lane_line(s.slots, State::X) + shared_line(s.slots) + lane_line(s.slots, State::O) + seq![
        '\n',
    ] + "Move "@ + decimal(s.moves + 1) + seq!['\n'] + "Roll: "@ + roll_text(s.last_roll) + " | "@
        + "Pots: "@ + decimal(s.x_pot as nat) + " X, "@ + decimal(s.o_pot as nat) + " O"@ + seq![
        '\n',
    ]
}

/// A move in words.
pub open spec fn move_text(m: UrMove) -> Seq<char> {
    match m {
        UrMove::Move(piece) => decimal(piece.from as nat) + seq!['-'] + decimal(piece.to as nat),
        UrMove::Roll(roll) => "roll "@ + decimal(roll as nat),
        UrMove::Pass => "pass"@,
    }
}

impl UrMove {
    /// The move in words.
    pub fn to_text(&self) -> (r: String)
        ensures
            r@ == move_text(*self),
    {
        match self {
            UrMove::Move(piece) => {
                let mut out = String::new();
                push_decimal(&mut out, piece.from as u128);
                push_char(&mut out, '-');
                push_decimal(&mut out, piece.to as u128);
                assert(out@ =~= move_text(*self));
                out
            },
            UrMove::Roll(roll) => {
                let mut out = String::from_str("roll ");
                push_decimal(&mut out, *roll as u128);
                out
            },
            UrMove::Pass => String::from_str("pass"),
        }
    }
}

/// Appends the line of the squares that a side has for itself.
fn push_lane_line(out: &mut String, board: &Board, player: State)
    requires
        player != State::Empty,
    ensures
        final(out)@ == old(out)@ + lane_line(board@, player),
{
    let first: bool = match player {
        State::X => true,
        _ => false,
    };
    let marks = board.chars_at(3);
    push_char(out, if first { marks.0 } else { marks.1 });
    push_char(out, ' ');
    let marks = board.chars_at(2);
    push_char(out, if first { marks.0 } else { marks.1 });
    push_char(out, ' ');
    let marks = board.chars_at(1);
    push_char(out, if first { marks.0 } else { marks.1 });
    push_char(out, ' ');
    let marks = board.chars_at(0);
    push_char(out, if first { marks.0 } else { marks.1 });
    push_char(out, ' ');
    push_char(out, ' ');
    push_char(out, ' ');
    push_char(out, ' ');
    push_char(out, ' ');
    let marks = board.chars_at(13);
    push_char(out, if first { marks.0 } else { marks.1 });
    push_char(out, ' ');
    let marks = board.chars_at(12);
    push_char(out, if first { marks.0 } else { marks.1 });
    push_char(out, '\n');
    assert(out@ =~= old(out)@ + lane_line(board@, player));
}

impl Ur {
}

/// With a memo of its own the memoized count is the plain count, at
/// every depth: a position tells how many rolls and moves were made.
pub proof fn lemma_counts_agree(s: UrView, depth: nat)
    requires
        Ur::valid(s),
    ensures
        memo_count::<Ur>(s, depth, Map::empty()).0 == capped(leaf_count::<Ur>(s, depth)),
{
    assert forall|t: UrView, m: UrMove| Ur::valid(t) && Ur::moves_of(t).contains(m) implies {
        let u = #[trigger] Ur::after(t, m);
        2 * u.rolls.len() + if u.last_roll is Some { 1nat } else { 0nat } == 2 * t.rolls.len() + if t.last_roll is Some { 1nat } else { 0nat } + 1
    } by {
        lemma_legal(t, m);
    }
    lemma_memo_agrees::<Ur>(
        s,
        depth,
        |t: UrView| 2 * t.rolls.len() + if t.last_roll is Some { 1nat } else { 0nat },
    );
}

/// The pieces on a list of squares have at most one move each.
pub proof fn lemma_piece_moves_bound(s: UrView, roll: usize, squares: Seq<int>)
    ensures
        piece_moves(s, roll, squares).len() <= squares.len(),
    decreases squares.len(),
{
    if squares.len() > 0 {
        lemma_piece_moves_bound(s, roll, squares.drop_last());
    }
}

/// A valid position has at most eight moves: the five rolls, a pass, or
/// one move for each piece on the board, of which a side has seven at
/// most, and the one that brings a piece on.
pub proof fn lemma_moves_bound(s: UrView)
    requires
        Ur::valid(s),
    ensures
        Ur::moves_of(s).len() <= 8,
{
    let us = side_at(s.moves);
    lemma_progress(s, us);
    match s.last_roll {
        None => {},
        Some(roll) => {
            lemma_piece_moves_bound(s, roll, set_bits64(lane(s.slots, us), 0));
        },
    }
}

} // verus!
