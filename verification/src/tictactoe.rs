//! The game of three in a row on a board of three by three squares.
//!
//! Square `i` stands in row `i / 3`, column `i % 3`. Each side has a
//! word whose bit `i` says that the side holds square `i`.

use vstd::prelude::*;
use vstd::std_specs::bits::u16_trailing_zeros;
use crate::bits::{
    count16, has16, lemma_count_plus_one16, lemma_count_short16, lemma_lowest16, lemma_nine_squares,
    lemma_one16, lemma_ops16, lemma_same16, lemma_set_bits_below16, lemma_set_bits_hold16,
    lemma_set_bits_rise16, lemma_set_bits_step16, set_bits16,
};
use crate::perft::{capped, leaf_count, lemma_memo_agrees, memo_count};
use crate::game::{Game, Keyed, ToMove};
use crate::text::{decimal, push_char, push_decimal};

verus! {

/// A position: the squares of each side, and the number of moves played.
#[derive(Debug, Clone, Copy, PartialEq, Eq, Hash)]
pub struct TicTacToe {
    board: [u16; 2],
    moves: usize,
}

/// A move: the square that is taken.
#[derive(Debug, Clone, Copy, PartialEq, Eq)]
pub struct TicTacToeMove(pub usize);

/// A position as the proofs see it: the squares of the first side, those
/// of the second, and the number of moves played.
pub struct TicTacToeView {
    pub x: u16,
    pub o: u16,
    pub moves: nat,
}

impl View for TicTacToe {
    type V = TicTacToeView;

    closed spec fn view(&self) -> TicTacToeView {
        TicTacToeView { x: self.board[0], o: self.board[1], moves: self.moves as nat }
    }
}

/// The squares of the side that moved last.
pub open spec fn last_stones(s: TicTacToeView) -> u16 {
    if s.moves % 2 == 0 {
        s.o
    } else {
        s.x
    }
}

/// Whether the word holds the three squares.
pub open spec fn three(stones: u16, a: int, b: int, c: int) -> bool {
    has16(stones, a) && has16(stones, b) && has16(stones, c)
}

/// Whether the word holds row `r`.
pub open spec fn row_line(stones: u16, r: int) -> bool {
    three(stones, 3 * r, 3 * r + 1, 3 * r + 2)
}

/// Whether the word holds column `c`.
pub open spec fn column_line(stones: u16, c: int) -> bool {
    three(stones, c, c + 3, c + 6)
}

/// Whether the word holds a row, a column or a diagonal.
pub open spec fn has_line(stones: u16) -> bool {
    ||| three(stones, 0, 4, 8)
    ||| three(stones, 2, 4, 6)
    ||| exists|r: int| 0 <= r < 3 && #[trigger] row_line(stones, r)
    ||| exists|c: int| 0 <= c < 3 && #[trigger] column_line(stones, c)
}

/// The word of the squares that nobody holds.
pub open spec fn free_squares(s: TicTacToeView) -> u16 {
    !(s.x | s.o) & 0x1FF
}

/// The moves that take the listed squares.
pub open spec fn taking(squares: Seq<int>) -> Seq<TicTacToeMove> {
    Seq::new(squares.len(), |k: int| TicTacToeMove(squares[k] as usize))
}

impl TicTacToeMove {
    /// The move that takes square `idx`.
    pub fn new(idx: usize) -> (r: Self)
        ensures
            r == TicTacToeMove(idx),
    {
        TicTacToeMove(idx)
    }

    /// The move in words: the number of its square.
    pub fn to_text(&self) -> (r: String)
        ensures
            r@ == decimal(self.0 as nat),
    {
        let mut out = String::new();
        push_decimal(&mut out, self.0 as u128);
        assert(out@ =~= decimal(self.0 as nat));
        out
    }
}

/// The mark on a square: `X` for the first side, `0` for the second, a
/// dot where nobody stands.
pub open spec fn mark(s: TicTacToeView, i: int) -> char {
    if !has16(s.x | s.o, i) {
        '.'
    } else if has16(s.x, i) {
        'X'
    } else {
        '0'
    }
}

/// The first `n` marks of line `y` of the picture, each with a blank
/// after it: the marks of the squares `y`, `3 + y`, `6 + y`.
pub open spec fn line_text(s: TicTacToeView, y: int, n: nat) -> Seq<char>
    decreases n,
{
    if n == 0 {
        Seq::empty()
    } else {
        line_text(s, y, (n - 1) as nat) + seq![mark(s, (n - 1) * 3 + y), ' ']
    }
}

/// The first `n` lines of the picture.
pub open spec fn picture(s: TicTacToeView, n: nat) -> Seq<char>
    decreases n,
{
    if n == 0 {
        Seq::empty()
    } else {
        picture(s, (n - 1) as nat) + line_text(s, n - 1, 3) + seq!['\n']
    }
}

impl TicTacToe {
    /// The empty board, with the first side to move.
    pub fn new() -> (r: Self)
        ensures
            r@ == (TicTacToeView { x: 0, o: 0, moves: 0 }),
            Self::valid(r@),
    {
        let r = Self { board: [0;2], moves: 0 };
        proof {
            lemma_ops16(0, 0);
            assert((0u16 | 0u16) == 0u16) by (bit_vector);
            reveal_with_fuel(count16, 10);
        }
        r
    }

    /// Whether the side that moved last holds the square.
    pub fn probe_spot(&self, spot: usize) -> (r: bool)
        requires
            spot < 16,
        ensures
            r == has16(last_stones(self@), spot as int),
    {
        self.board[1 - self.moves % 2] & (1u16 << (spot as u16)) != 0
    }

    /// Whether a side holds the square.
    pub fn pos_filled(&self, i: usize) -> (r: bool)
        requires
            i < 16,
        ensures
            r == has16(self@.x | self@.o, i as int),
    {
        (self.board[0] | self.board[1]) & (1u16 << (i as u16)) != 0
    }

    /// Whether the first side holds the square, which must be held.
    pub fn player_at(&self, i: usize) -> (r: bool)
        requires
            i < 16,
            has16(self@.x | self@.o, i as int),
        ensures
            r == has16(self@.x, i as int),
    {
        self.board[0] & (1u16 << (i as u16)) != 0
    }

    /// The mark on the square `x * 3 + y`.
    pub fn char_at(&self, x: usize, y: usize) -> (r: char)
        requires
            x * 3 + y < 16,
        ensures
            r == mark(self@, x * 3 + y),
    {
        if self.pos_filled(x * 3 + y) {
            if self.player_at(x * 3 + y) {
                'X'
            } else {
                '0'
            }
        } else {
            '.'
        }
    }
}

impl Game for TicTacToe {
    type Move = TicTacToeMove;

    /// No square beyond the ninth is held, none is held by both sides,
    /// and as many squares are held as moves were played.
    open spec fn valid(s: TicTacToeView) -> bool {
        &&& forall|j: int| #[trigger] has16(s.x, j) ==> 0 <= j < 9 && !has16(s.o, j)
        &&& forall|j: int| #[trigger] has16(s.o, j) ==> 0 <= j < 9
        &&& s.moves == count16(s.x | s.o, 9)
    }

    open spec fn turn_of(s: TicTacToeView) -> int {
        if s.moves % 2 == 0 {
            1
        } else {
            -1
        }
    }

    /// The side that moved last has won if it holds a line.
    open spec fn score_of(s: TicTacToeView) -> int {
        if has_line(last_stones(s)) {
            -Self::turn_of(s)
        } else {
            0
        }
    }

    open spec fn over(s: TicTacToeView) -> bool {
        s.moves == 9 || Self::score_of(s) != 0
    }

    /// The free squares, lowest first.
    open spec fn moves_of(s: TicTacToeView) -> Seq<TicTacToeMove> {
        taking(set_bits16(free_squares(s), 0))
    }

    open spec fn mover_of(s: TicTacToeView) -> ToMove {
        if s.moves % 2 == 0 {
            ToMove::Max
        } else {
            ToMove::Min
        }
    }

    open spec fn after(s: TicTacToeView, m: TicTacToeMove) -> TicTacToeView {
        if s.moves % 2 == 0 {
            TicTacToeView { x: s.x | (1u16 << (m.0 as u16)), o: s.o, moves: s.moves + 1 }
        } else {
            TicTacToeView { x: s.x, o: s.o | (1u16 << (m.0 as u16)), moves: s.moves + 1 }
        }
    }

    open spec fn can_undo(s: TicTacToeView, m: TicTacToeMove) -> bool {
        s.moves >= 1 && m.0 < 16
    }

    open spec fn before(s: TicTacToeView, m: TicTacToeMove) -> TicTacToeView {
        if s.moves % 2 == 1 {
            TicTacToeView { x: s.x ^ (1u16 << (m.0 as u16)), o: s.o, moves: (s.moves - 1) as nat }
        } else {
            TicTacToeView { x: s.x, o: s.o ^ (1u16 << (m.0 as u16)), moves: (s.moves - 1) as nat }
        }
    }

    proof fn law_make_unmake(s: TicTacToeView, m: TicTacToeMove) {
        lemma_legal_square(s, m);
        let i = m.0 as int;
        let bit = 1u16 << (m.0 as u16);
        let t = Self::after(s, m);
        lemma_one16(i);
        lemma_ops16(s.x, bit);
        lemma_ops16(s.o, bit);
        lemma_ops16(s.x, s.o);
        lemma_ops16(t.x, t.o);
        lemma_ops16(t.x, bit);
        lemma_ops16(t.o, bit);
        lemma_count_plus_one16(s.x | s.o, t.x | t.o, 9, i);
        lemma_same16(Self::before(t, m).x, s.x);
        lemma_same16(Self::before(t, m).o, s.o);
    }

    proof fn law_outcome(s: TicTacToeView) {
        if !Self::over(s) {
            crate::bits::lemma_count_bound16(s.x | s.o, 9);
            let i = lemma_count_short16(s.x | s.o, 9);
            lemma_ops16(s.x, s.o);
            lemma_ops16(!(s.x | s.o), 0x1FF);
            lemma_ops16(s.x | s.o, 0);
            lemma_nine_squares();
            lemma_set_bits_hold16(free_squares(s), 0);
            assert(has16(free_squares(s), i));
            assert(set_bits16(free_squares(s), 0).contains(i));
        }
    }

    proof fn law_distinct_moves(s: TicTacToeView) {
        lemma_set_bits_rise16(free_squares(s), 0);
        let squares = set_bits16(free_squares(s), 0);
        let moves = Self::moves_of(s);
        assert forall|k: int, l: int| 0 <= k < moves.len() && 0 <= l < moves.len() && k != l implies moves[k]
            != moves[l] by {
            if k < l {
                assert(squares[k] < squares[l]);
            } else {
                assert(squares[l] < squares[k]);
            }
        }
    }

    fn turn(&self) -> (r: i8) {
        if self.moves % 2 == 0 {
            1
        } else {
            -1
        }
    }

    fn evaluate(&self) -> (r: i8) {
        let ghost stones = last_stones(self@);
        if self.probe_spot(0) && self.probe_spot(4) && self.probe_spot(8) {
            return -self.turn();
        }
        if self.probe_spot(2) && self.probe_spot(4) && self.probe_spot(6) {
            return -self.turn();
        }
        let mut i: usize = 0;
        while i < 3
            invariant
                i <= 3,
                Self::valid(self@),
                stones == last_stones(self@),
                forall|r: int| 0 <= r < i ==> !#[trigger] row_line(stones, r),
            decreases 3 - i,
        {
            if self.probe_spot(i * 3) && self.probe_spot(i * 3 + 1) && self.probe_spot(i * 3 + 2) {
                assert(row_line(stones, i as int));
                return -self.turn();
            }
            i += 1;
        }
        let mut i: usize = 0;
        while i < 3
            invariant
                i <= 3,
                Self::valid(self@),
                stones == last_stones(self@),
                forall|c: int| 0 <= c < i ==> !#[trigger] column_line(stones, c),
            decreases 3 - i,
        {
            if self.probe_spot(i) && self.probe_spot(i + 3) && self.probe_spot(i + 6) {
                assert(column_line(stones, i as int));
                return -self.turn();
            }
            i += 1;
        }
        0
    }

    fn is_terminal(&self) -> (r: bool) {
        self.moves == 9 || self.evaluate() != 0
    }

    fn generate_moves(&self, buffer: &mut Vec<TicTacToeMove>) {
        let filled: u16 = self.board[0] | self.board[1];
        let mut bb: u16 = !filled & 0b111_111_111;
        let ghost all = set_bits16(bb, 0);
        let ghost mut done: Seq<int> = Seq::empty();
        assert(buffer@ =~= old(buffer)@ + taking(done));
        while bb != 0
            invariant
                done + set_bits16(bb, 0) == all,
                buffer@ == old(buffer)@ + taking(done),
            decreases bb,
        {
            proof {
                lemma_set_bits_step16(bb);
                lemma_lowest16(bb);
            }
            let ghost low = u16_trailing_zeros(bb) as int;
            let ghost sofar = done;
            buffer.push(TicTacToeMove::new(bb.trailing_zeros() as usize));
            bb = bb & (bb - 1);
            proof {
                done = sofar.push(low);
                assert(done + set_bits16(bb, 0) =~= sofar + (seq![low] + set_bits16(bb, 0)));
                assert(buffer@ =~= old(buffer)@ + taking(done));
            }
        }
        proof {
            assert(set_bits16(0, 0) =~= Seq::<int>::empty()) by {
                lemma_ops16(0, 0);
                lemma_set_bits_hold16(0, 0);
                if set_bits16(0, 0).len() > 0 {
                    assert(set_bits16(0, 0).contains(set_bits16(0, 0)[0]));
                }
            }
            assert(done =~= all);
            assert(buffer@ =~= old(buffer)@ + Self::moves_of(self@));
        }
    }

    fn push(&mut self, m: TicTacToeMove) {
        proof {
            lemma_legal_square(self@, m);
            Self::law_make_unmake(self@, m);
            crate::bits::lemma_count_bound16(Self::after(self@, m).x | Self::after(self@, m).o, 9);
        }
        let side: usize = self.moves % 2;
        self.board[side] = self.board[side] | (1u16 << (m.0 as u16));
        self.moves += 1;
    }

    fn pop(&mut self, m: TicTacToeMove) {
        self.moves -= 1;
        let side: usize = self.moves % 2;
        self.board[side] = self.board[side] ^ (1u16 << (m.0 as u16));
    }

    /// Nine, the number of squares: no list of moves is longer.
    fn action_space_size(&self) -> (r: usize)
        ensures
            r == 9,
            Self::moves_of(self@).len() <= r,
    {
        proof {
            lemma_moves_bound(self@);
        }
        9
    }

    fn to_move(&self) -> (r: ToMove) {
        if self.moves % 2 == 0 {
            ToMove::Max
        } else {
            ToMove::Min
        }
    }

    open spec fn text_of(s: Self::V) -> Seq<char> {
        picture(s, 3)
    }

    open spec fn move_text_of(m: Self::Move) -> Seq<char> {
        decimal(m.0 as nat)
    }

    fn to_text(&self) -> (r: String) {
        let mut out = String::new();
        let mut y: usize = 0;
        assert(out@ =~= picture(self@, 0));
        while y < 3
            invariant
                y <= 3,
                out@ == picture(self@, y as nat),
            decreases 3 - y,
        {
            let ghost start = out@;
            let mut x: usize = 0;
            assert(out@ =~= start + line_text(self@, y as int, 0));
            while x < 3
                invariant
                    x <= 3,
                    y < 3,
                    out@ == start + line_text(self@, y as int, x as nat),
                decreases 3 - x,
            {
                push_char(&mut out, self.char_at(x, y));
                push_char(&mut out, ' ');
                assert(out@ =~= start + line_text(self@, y as int, (x + 1) as nat));
                x += 1;
            }
            push_char(&mut out, '\n');
            assert(out@ =~= picture(self@, (y + 1) as nat));
            y += 1;
        }
        out
    }

    fn move_text(m: Self::Move) -> (r: String) {
        m.to_text()
    }

    fn duplicate(&self) -> (r: Self) {
        *self
    }

    fn same_state(&self, other: &Self) -> (r: bool) {
        self.board[0] == other.board[0] && self.board[1] == other.board[1] && self.moves
            == other.moves
    }
}

/// A legal move takes one of the nine squares, and one that is free.
pub proof fn lemma_legal_square(s: TicTacToeView, m: TicTacToeMove)
    requires
        TicTacToe::moves_of(s).contains(m),
    ensures
        0 <= m.0 < 9,
        !has16(s.x, m.0 as int),
        !has16(s.o, m.0 as int),
{
    let squares = set_bits16(free_squares(s), 0);
    let k = choose|k: int| 0 <= k < squares.len() && TicTacToe::moves_of(s)[k] == m;
    lemma_set_bits_rise16(free_squares(s), 0);
    lemma_set_bits_hold16(free_squares(s), 0);
    assert(squares.contains(squares[k]));
    lemma_ops16(s.x, s.o);
    lemma_ops16(!(s.x | s.o), 0x1FF);
    lemma_ops16(s.x | s.o, 0);
    lemma_nine_squares();
}

impl Keyed for TicTacToe {
    /// The two words side by side.
    open spec fn key_of(s: TicTacToeView) -> u64 {
        (s.x as u64 + s.o as u64 * 65536) as u64
    }

    fn hashkey(&self) -> (r: u64) {
        self.board[0] as u64 + self.board[1] as u64 * 65536
    }
}

/// With a memo of its own the memoized count is the plain count, at
/// every depth: a position tells how many moves were played.
pub proof fn lemma_counts_agree(s: TicTacToeView, depth: nat)
    requires
        TicTacToe::valid(s),
    ensures
        memo_count::<TicTacToe>(s, depth, Map::empty()).0 == capped(leaf_count::<TicTacToe>(s, depth)),
{
    lemma_memo_agrees::<TicTacToe>(
        s,
        depth,
        |t: TicTacToeView| t.moves,
    );
}

/// No position has more than nine moves: a move takes one of the nine
/// squares, and no square is listed twice.
pub proof fn lemma_moves_bound(s: TicTacToeView)
    ensures
        TicTacToe::moves_of(s).len() <= 9,
{
    lemma_ops16(!(s.x | s.o), 0x1FF);
    lemma_nine_squares();
    lemma_set_bits_below16(free_squares(s), 9);
}

} // verus!
