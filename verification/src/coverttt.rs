//! Three in a row with pieces of three sizes, where a larger piece may
//! be put over a smaller one and hides it.
//!
//! Square `i` stands in row `i / 3`, column `i % 3`. There are six
//! words, one for each size and side: layer `0` and `1` hold the big
//! pieces of the first and the second side, layer `2` and `3` the
//! medium ones, layer `4` and `5` the small ones.

use vstd::prelude::*;
use vstd::std_specs::bits::u16_trailing_zeros;
use crate::bits::{
    count16, has16, lemma_count_bound16, lemma_count_plus_one16, lemma_lowest16,
    lemma_nine_squares, lemma_one16, lemma_ops16, lemma_same16, lemma_set_bits_below16,
    lemma_set_bits_hold16,
    lemma_set_bits_rise16, lemma_set_bits_step16, ones16, set_bits16,
};
use crate::perft::{capped, leaf_count, lemma_memo_agrees, memo_count};
use crate::game::{Game, Keyed, ToMove};
use crate::text::{decimal, push_char, push_decimal};

verus! {

/// A position: the six layers, and the number of moves played.
#[derive(Debug, Clone, Copy, PartialEq, Eq, Hash)]
pub struct CoverTTT {
    board: [u16; 6],
    moves: usize,
}

/// The size of a piece.
#[derive(Debug, Clone, Copy, PartialEq, Eq, Structural)]
pub enum Size {
    Big,
    Medium,
    Small,
}

/// A move: a piece of a size is put on a square.
#[derive(Debug, Clone, Copy, PartialEq, Eq)]
pub struct CoverTTTMove {
    pub idx: usize,
    pub size: Size,
}

/// A position as the proofs see it.
pub struct CoverTTTView {
    pub layers: Seq<u16>,
    pub moves: nat,
}

impl View for CoverTTT {
    type V = CoverTTTView;

    closed spec fn view(&self) -> CoverTTTView {
        CoverTTTView { layers: self.board@, moves: self.moves as nat }
    }
}

/// The first of the two layers of a size.
pub open spec fn layer_of(size: Size) -> int {
    match size {
        Size::Big => 0,
        Size::Medium => 2,
        Size::Small => 4,
    }
}

/// Whether the top piece on the square belongs to side `who`: a big
/// piece of that side, or a medium one with no big piece of the other
/// side on it, or a small one with no larger piece of the other side on
/// it.
pub open spec fn owns_top(layers: Seq<u16>, who: int, spot: int) -> bool {
    ||| has16(layers[who], spot)
    ||| has16(layers[who + 2], spot) && !has16(layers[1 - who], spot)
    ||| has16(layers[who + 4], spot) && !has16(layers[1 - who], spot) && !has16(
        layers[1 - who + 2],
        spot,
    )
}

/// Whether the side owns the top of the three squares.
pub open spec fn three_tops(layers: Seq<u16>, who: int, a: int, b: int, c: int) -> bool {
    owns_top(layers, who, a) && owns_top(layers, who, b) && owns_top(layers, who, c)
}

/// Whether the side owns the top of row `r`.
pub open spec fn top_row(layers: Seq<u16>, who: int, r: int) -> bool {
    three_tops(layers, who, 3 * r, 3 * r + 1, 3 * r + 2)
}

/// Whether the side owns the top of column `c`.
pub open spec fn top_column(layers: Seq<u16>, who: int, c: int) -> bool {
    three_tops(layers, who, c, c + 3, c + 6)
}

/// Whether the side owns the top of a row, a column or a diagonal.
pub open spec fn top_line(layers: Seq<u16>, who: int) -> bool {
    ||| three_tops(layers, who, 0, 4, 8)
    ||| three_tops(layers, who, 2, 4, 6)
    ||| exists|r: int| 0 <= r < 3 && #[trigger] top_row(layers, who, r)
    ||| exists|c: int| 0 <= c < 3 && #[trigger] top_column(layers, who, c)
}

/// The side that moved last: `0` for the first side, `1` for the second.
pub open spec fn last_side(s: CoverTTTView) -> int {
    1 - (s.moves % 2) as int
}

/// The squares that hold a piece of the size, of either side.
pub open spec fn layer_mask(layers: Seq<u16>, size: Size) -> u16 {
    layers[layer_of(size)] | layers[layer_of(size) + 1]
}

/// The squares on which a piece of the size can be put: those with no
/// piece of that size or a larger one.
pub open spec fn options(layers: Seq<u16>, size: Size) -> u16 {
    match size {
        Size::Big => !layer_mask(layers, Size::Big) & 0x1FF,
        Size::Medium => !layer_mask(layers, Size::Medium) & !layer_mask(layers, Size::Big) & 0x1FF,
        Size::Small => !layer_mask(layers, Size::Small) & !layer_mask(layers, Size::Medium)
            & !layer_mask(layers, Size::Big) & 0x1FF,
    }
}

/// The number of pieces of the size that the side to move has played.
pub open spec fn used(s: CoverTTTView, size: Size) -> nat {
    count16(s.layers[(s.moves % 2) as int + layer_of(size)], 16)
}

/// The moves that put a piece of the size on the listed squares.
pub open spec fn placing(squares: Seq<int>, size: Size) -> Seq<CoverTTTMove> {
    Seq::new(squares.len(), |k: int| CoverTTTMove { idx: squares[k] as usize, size })
}

/// The moves with a piece of the size: none if the side to move has
/// played its three, else the squares open to the size, lowest first.
pub open spec fn size_moves(s: CoverTTTView, size: Size) -> Seq<CoverTTTMove> {
    if used(s, size) < 3 {
        placing(set_bits16(options(s.layers, size), 0), size)
    } else {
        Seq::empty()
    }
}

/// The number of pieces on the board.
pub open spec fn stones(layers: Seq<u16>) -> nat {
    count16(layers[0], 16) + count16(layers[1], 16) + count16(layers[2], 16) + count16(
        layers[3],
        16,
    ) + count16(layers[4], 16) + count16(layers[5], 16)
}

/// The bits of the squares open to a size.
pub proof fn lemma_options(layers: Seq<u16>, size: Size)
    ensures
        forall|j: int| #[trigger]
            has16(options(layers, size), j) == (0 <= j < 9 && !has16(layer_mask(layers, size), j)
                && (size != Size::Big ==> !has16(layer_mask(layers, Size::Big), j)) && (size
                == Size::Small ==> !has16(layer_mask(layers, Size::Medium), j))),
        forall|j: int, sz: Size| #[trigger]
            has16(layer_mask(layers, sz), j) == (has16(layers[layer_of(sz)], j) || has16(
                layers[layer_of(sz) + 1],
                j,
            )),
{
    let big = layer_mask(layers, Size::Big);
    let medium = layer_mask(layers, Size::Medium);
    let small = layer_mask(layers, Size::Small);
    lemma_nine_squares();
    lemma_ops16(layers[0], layers[1]);
    lemma_ops16(layers[2], layers[3]);
    lemma_ops16(layers[4], layers[5]);
    lemma_ops16(big, 0);
    lemma_ops16(medium, 0);
    lemma_ops16(small, 0);
    lemma_ops16(!big, 0x1FF);
    lemma_ops16(!medium, !big);
    lemma_ops16(!medium & !big, 0x1FF);
    lemma_ops16(!small, !medium);
    lemma_ops16(!small & !medium, !big);
    lemma_ops16(!small & !medium & !big, 0x1FF);
}

/// A word has a set bit to list if and only if it is not zero.
pub proof fn lemma_any_bits16(x: u16)
    ensures
        (set_bits16(x, 0).len() > 0) == (x != 0),
{
    lemma_set_bits_hold16(x, 0);
    lemma_ops16(x, 0);
    if x != 0 {
        lemma_lowest16(x);
        assert(set_bits16(x, 0).contains(u16_trailing_zeros(x) as int));
    } else if set_bits16(x, 0).len() > 0 {
        assert(set_bits16(x, 0).contains(set_bits16(x, 0)[0]));
    }
}

/// The letter of a size.
pub open spec fn size_letter(size: Size) -> char {
    match size {
        Size::Big => 'B',
        Size::Medium => 'M',
        Size::Small => 'S',
    }
}

impl CoverTTTMove {
    /// The move that puts a piece of the size on square `idx`.
    pub fn new(idx: usize, size: Size) -> (r: Self)
        ensures
            r == (CoverTTTMove { idx, size }),
    {
        Self { idx, size }
    }

    /// The move in words: the letter of the size, then the number of the
    /// square.
    pub fn to_text(&self) -> (r: String)
        ensures
            r@ == seq![size_letter(self.size)] + decimal(self.idx as nat),
    {
        let size_char = match self.size {
            Size::Big => 'B',
            Size::Medium => 'M',
            Size::Small => 'S',
        };
        let mut out = String::new();
        push_char(&mut out, size_char);
        push_decimal(&mut out, self.idx as u128);
        assert(out@ =~= seq![size_letter(self.size)] + decimal(self.idx as nat));
        out
    }
}

/// The squares that hold a piece.
pub open spec fn all_layers(layers: Seq<u16>) -> u16 {
    layers[0] | layers[1] | layers[2] | layers[3] | layers[4] | layers[5]
}

/// Whether the largest piece on a square that holds one belongs to the
/// first side; where both sides have a piece of that size, the first
/// side counts.
pub open spec fn first_on_top(layers: Seq<u16>, i: int) -> bool {
    if has16(layers[0], i) {
        true
    } else if has16(layers[1], i) {
        false
    } else if has16(layers[2], i) {
        true
    } else if has16(layers[3], i) {
        false
    } else {
        has16(layers[4], i)
    }
}

/// The size of the largest piece on a square that holds one.
pub open spec fn top_size(layers: Seq<u16>, i: int) -> Size {
    if has16(layer_mask(layers, Size::Big), i) {
        Size::Big
    } else if has16(layer_mask(layers, Size::Medium), i) {
        Size::Medium
    } else {
        Size::Small
    }
}

/// The mark on a square: the letter of the size of the largest piece,
/// a capital for the first side; a dot where no piece stands.
pub open spec fn cover_mark(layers: Seq<u16>, i: int) -> char {
    if !has16(all_layers(layers), i) {
        '.'
    } else if first_on_top(layers, i) {
        match top_size(layers, i) {
            Size::Big => 'B',
            Size::Medium => 'M',
            Size::Small => 'S',
        }
    } else {
        match top_size(layers, i) {
            Size::Big => 'b',
            Size::Medium => 'm',
            Size::Small => 's',
        }
    }
}

/// The first `n` marks of row `x` of the picture, each with a blank
/// after it.
pub open spec fn cover_line(layers: Seq<u16>, x: int, n: nat) -> Seq<char>
    decreases n,
{
    if n == 0 {
        Seq::empty()
    } else {
        cover_line(layers, x, (n - 1) as nat) + seq![cover_mark(layers, x * 3 + (n - 1)), ' ']
    }
}

/// The first `n` rows of the picture.
pub open spec fn cover_picture(layers: Seq<u16>, n: nat) -> Seq<char>
    decreases n,
{
    if n == 0 {
        Seq::empty()
    } else {
        cover_picture(layers, (n - 1) as nat) + cover_line(layers, n - 1, 3) + seq!['\n']
    }
}

/// The first of the two layers of a size.
fn layer_index(size: Size) -> (r: usize)
    ensures
        r == layer_of(size),
{
    match size {
        Size::Big => 0,
        Size::Medium => 2,
        Size::Small => 4,
    }
}

/// Appends the moves that put a piece of the size on the squares of the
/// word, lowest first.
fn place_all(buffer: &mut Vec<CoverTTTMove>, squares: u16, size: Size)
    ensures
        final(buffer)@ == old(buffer)@ + placing(set_bits16(squares, 0), size),
{
    let mut options: u16 = squares;
    let ghost all = set_bits16(squares, 0);
    let ghost mut done: Seq<int> = Seq::empty();
    assert(buffer@ =~= old(buffer)@ + placing(done, size));
    while options != 0
        invariant
            done + set_bits16(options, 0) == all,
            buffer@ == old(buffer)@ + placing(done, size),
        decreases options,
    {
        proof {
            lemma_set_bits_step16(options);
            lemma_lowest16(options);
        }
        let ghost low = u16_trailing_zeros(options) as int;
        let ghost sofar = done;
        buffer.push(CoverTTTMove::new(options.trailing_zeros() as usize, size));
        options = options & (options - 1);
        proof {
            done = sofar.push(low);
            assert(done + set_bits16(options, 0) =~= sofar + (seq![low] + set_bits16(options, 0)));
            assert(buffer@ =~= old(buffer)@ + placing(done, size));
        }
    }
    proof {
        lemma_any_bits16(0);
        assert(done =~= all);
    }
}

impl CoverTTT {
    /// The empty board, with the first side to move.
    pub fn new() -> (r: Self)
        ensures
            r@ == (CoverTTTView { layers: seq![0u16, 0u16, 0u16, 0u16, 0u16, 0u16], moves: 0 }),
            Self::valid(r@),
    {
        let r = Self { board: [0;6], moves: 0 };
        proof {
            assert(r@.layers =~= seq![0u16, 0u16, 0u16, 0u16, 0u16, 0u16]);
            lemma_ops16(0, 0);
            lemma_no_stones(0);
        }
        r
    }

    /// Whether the top piece on the square belongs to the side that
    /// moved last.
    pub fn probe_spot(&self, spot: usize) -> (r: bool)
        requires
            spot < 16,
        ensures
            r == owns_top(self@.layers, last_side(self@), spot as int),
    {
        let last: usize = 1 - self.moves % 2;
        let next: usize = self.moves % 2;
        let bit: u16 = 1u16 << (spot as u16);
        self.board[last] & bit != 0 || (self.board[last + 2] & bit != 0 && self.board[next] & bit
            == 0) || (self.board[last + 4] & bit != 0 && self.board[next] & bit == 0
            && self.board[next + 2] & bit == 0)
    }

    /// Whether a piece stands on the square.
    pub fn pos_filled(&self, i: usize) -> (r: bool)
        requires
            i < 16,
        ensures
            r == has16(all_layers(self@.layers), i as int),
    {
        (self.board[0] | self.board[1] | self.board[2] | self.board[3] | self.board[4]
            | self.board[5]) & (1u16 << (i as u16)) != 0
    }

    /// Whether the largest piece on the square, which must hold one,
    /// belongs to the first side.
    pub fn player_at(&self, i: usize) -> (r: bool)
        requires
            i < 16,
            has16(all_layers(self@.layers), i as int),
        ensures
            r == first_on_top(self@.layers, i as int),
    {
        let bit: u16 = 1u16 << (i as u16);
        if self.board[0] & bit != 0 {
            // a big piece of the first side
            true
        } else if self.board[1] & bit != 0 {
            // a big piece of the second side
            false
        } else if self.board[2] & bit != 0 {
            // a medium piece of the first side
            true
        } else if self.board[3] & bit != 0 {
            // a medium piece of the second side
            false
        } else {
            self.board[4] & bit != 0
        }
    }

    /// The size of the largest piece on the square, which must hold one.
    pub fn size_at(&self, i: usize) -> (r: Size)
        requires
            i < 16,
            has16(all_layers(self@.layers), i as int),
        ensures
            r == top_size(self@.layers, i as int),
    {
        let bit: u16 = 1u16 << (i as u16);
        if (self.board[0] | self.board[1]) & bit != 0 {
            Size::Big
        } else if (self.board[2] | self.board[3]) & bit != 0 {
            Size::Medium
        } else {
            Size::Small
        }
    }

    /// The mark on the square `x * 3 + y`.
    pub fn char_at(&self, x: usize, y: usize) -> (r: char)
        requires
            x * 3 + y < 16,
        ensures
            r == cover_mark(self@.layers, x * 3 + y),
    {
        if self.pos_filled(x * 3 + y) {
            if self.player_at(x * 3 + y) {
                match self.size_at(x * 3 + y) {
                    Size::Big => 'B',
                    Size::Medium => 'M',
                    Size::Small => 'S',
                }
            } else {
                match self.size_at(x * 3 + y) {
                    Size::Big => 'b',
                    Size::Medium => 'm',
                    Size::Small => 's',
                }
            }
        } else {
            '.'
        }
    }

    /// The squares that hold a piece of the size, of either side.
    pub fn layer_bitmask(&self, size: Size) -> (r: u16)
        ensures
            r == layer_mask(self@.layers, size),
    {
        match size {
            Size::Big => self.board[0] | self.board[1],
            Size::Medium => self.board[2] | self.board[3],
            Size::Small => self.board[4] | self.board[5],
        }
    }

    /// Whether the side to move has a move.
    pub fn legal_moves_exist(&self) -> (r: bool)
        ensures
            r == (Self::moves_of(self@).len() > 0),
    {
        let side: usize = self.moves % 2;
        let ghost s = self@;
        proof {
            lemma_any_bits16(options(s.layers, Size::Big));
            lemma_any_bits16(options(s.layers, Size::Medium));
            lemma_any_bits16(options(s.layers, Size::Small));
        }
        let tops_used: usize = ones16(self.board[side]) as usize;
        let top_bb: u16 = self.board[0] | self.board[1];
        if tops_used < 3 {
            let options: u16 = !top_bb & 0b111_111_111;
            if options != 0 {
                return true;
            }
        }
        let mids_used: usize = ones16(self.board[side + 2]) as usize;
        let mid_bb: u16 = self.board[2] | self.board[3];
        if mids_used < 3 {
            let options: u16 = !mid_bb & !top_bb & 0b111_111_111;
            if options != 0 {
                return true;
            }
        }
        let bottoms_used: usize = ones16(self.board[side + 4]) as usize;
        let bottom_bb: u16 = self.board[4] | self.board[5];
        if bottoms_used < 3 {
            let options: u16 = !bottom_bb & !mid_bb & !top_bb & 0b111_111_111;
            if options != 0 {
                return true;
            }
        }
        false
    }
}

/// A word without bits counts nothing.
pub proof fn lemma_no_stones(x: u16)
    requires
        forall|j: int| !#[trigger] has16(x, j),
    ensures
        count16(x, 16) == 0,
{
    reveal_with_fuel(count16, 17);
}

impl Game for CoverTTT {
    type Move = CoverTTTMove;

    /// There are six layers, no piece stands beyond the ninth square, no
    /// side has played more than three pieces of a size, and as many
    /// pieces stand on the board as moves were played.
    open spec fn valid(s: CoverTTTView) -> bool {
        &&& s.layers.len() == 6
        &&& forall|k: int, j: int| 0 <= k < 6 && #[trigger] has16(s.layers[k], j) ==> 0 <= j < 9
        &&& forall|k: int| 0 <= k < 6 ==> #[trigger] count16(s.layers[k], 16) <= 3
        &&& s.moves == stones(s.layers)
    }

    open spec fn turn_of(s: CoverTTTView) -> int {
        if s.moves % 2 == 0 {
            1
        } else {
            -1
        }
    }

    /// The side that moved last has won if it owns the top of a line.
    open spec fn score_of(s: CoverTTTView) -> int {
        if top_line(s.layers, last_side(s)) {
            -Self::turn_of(s)
        } else {
            0
        }
    }

    /// The game is over when a side has won, when the side to move has
    /// no move, and when each size stands on the second and third
    /// square and on no other.
    open spec fn over(s: CoverTTTView) -> bool {
        ||| (layer_mask(s.layers, Size::Small) == 6 && layer_mask(s.layers, Size::Medium) == 6
            && layer_mask(s.layers, Size::Big) == 6)
        ||| Self::score_of(s) != 0
        ||| Self::moves_of(s).len() == 0
    }

    /// The moves with a big piece, then those with a medium one, then
    /// those with a small one.
    open spec fn moves_of(s: CoverTTTView) -> Seq<CoverTTTMove> {
        size_moves(s, Size::Big) + size_moves(s, Size::Medium) + size_moves(s, Size::Small)
    }

    open spec fn mover_of(s: CoverTTTView) -> ToMove {
        if s.moves % 2 == 0 {
            ToMove::Max
        } else {
            ToMove::Min
        }
    }

    open spec fn after(s: CoverTTTView, m: CoverTTTMove) -> CoverTTTView {
        let k = (s.moves % 2) as int + layer_of(m.size);
        CoverTTTView {
            layers: s.layers.update(k, s.layers[k] | (1u16 << (m.idx as u16))),
            moves: s.moves + 1,
        }
    }

    open spec fn can_undo(s: CoverTTTView, m: CoverTTTMove) -> bool {
        s.moves >= 1 && m.idx < 16 && s.layers.len() == 6
    }

    open spec fn before(s: CoverTTTView, m: CoverTTTMove) -> CoverTTTView {
        let k = ((s.moves - 1) % 2) as int + layer_of(m.size);
        CoverTTTView {
            layers: s.layers.update(k, s.layers[k] & !(1u16 << (m.idx as u16))),
            moves: (s.moves - 1) as nat,
        }
    }

    proof fn law_make_unmake(s: CoverTTTView, m: CoverTTTMove) {
        lemma_legal_placing(s, m);
        let k = (s.moves % 2) as int + layer_of(m.size);
        let bit = 1u16 << (m.idx as u16);
        let t = Self::after(s, m);
        lemma_one16(m.idx as int);
        lemma_ops16(s.layers[k], bit);
        lemma_ops16(bit, 0);
        lemma_ops16(t.layers[k], !bit);
        lemma_count_plus_one16(s.layers[k], t.layers[k], 16, m.idx as int);
        lemma_same16(t.layers[k] & !bit, s.layers[k]);
        assert(Self::before(t, m).layers =~= s.layers);
        assert forall|i: int, j: int| 0 <= i < 6 && #[trigger] has16(t.layers[i], j) implies 0 <= j
            < 9 by {
            if i != k {
                assert(has16(s.layers[i], j));
            } else if j != m.idx {
                assert(has16(s.layers[k], j));
            }
        }
        assert forall|i: int| 0 <= i < 6 implies #[trigger] count16(t.layers[i], 16) <= 3 by {
            if i != k {
                assert(count16(s.layers[i], 16) <= 3);
            }
        }
    }

    proof fn law_outcome(s: CoverTTTView) {
    }

    proof fn law_distinct_moves(s: CoverTTTView) {
        let moves = Self::moves_of(s);
        let big = size_moves(s, Size::Big);
        let medium = size_moves(s, Size::Medium);
        let small = size_moves(s, Size::Small);
        lemma_set_bits_rise16(options(s.layers, Size::Big), 0);
        lemma_set_bits_rise16(options(s.layers, Size::Medium), 0);
        lemma_set_bits_rise16(options(s.layers, Size::Small), 0);
        assert forall|k: int, l: int| 0 <= k < l < moves.len() implies moves[k] != moves[l] by {
            let squares_big = set_bits16(options(s.layers, Size::Big), 0);
            let squares_medium = set_bits16(options(s.layers, Size::Medium), 0);
            let squares_small = set_bits16(options(s.layers, Size::Small), 0);
            if l < big.len() {
                assert(squares_big[k] < squares_big[l]);
            } else if l < big.len() + medium.len() {
                if k >= big.len() {
                    assert(squares_medium[k - big.len()] < squares_medium[l - big.len()]);
                }
            } else {
                if k >= big.len() + medium.len() {
                    assert(squares_small[k - big.len() - medium.len()] < squares_small[l - big.len()
                        - medium.len()]);
                }
            }
        }
    }

    fn turn(&self) -> (r: i8) {
        if self.moves % 2 == 0 {
            1
        } else {
            -1
        }
    }

    fn evaluate(&self) -> (r: i8) {
        let ghost layers = self@.layers;
        let ghost who = last_side(self@);
        if self.probe_spot(0) && self.probe_spot(4) && self.probe_spot(8) {
            return -self.turn();
        }
        if self.probe_spot(2) && self.probe_spot(4) && self.probe_spot(6) {
            return -self.turn();
        }
        let mut i: usize = 0;
        while i < 3
            invariant
                i <= 3,
                Self::valid(self@),
                layers == self@.layers,
                who == last_side(self@),
                forall|r: int| 0 <= r < i ==> !#[trigger] top_row(layers, who, r),
            decreases 3 - i,
        {
            if self.probe_spot(i * 3) && self.probe_spot(i * 3 + 1) && self.probe_spot(i * 3 + 2) {
                assert(top_row(layers, who, i as int));
                return -self.turn();
            }
            i += 1;
        }
        let mut i: usize = 0;
        while i < 3
            invariant
                i <= 3,
                Self::valid(self@),
                layers == self@.layers,
                who == last_side(self@),
                forall|c: int| 0 <= c < i ==> !#[trigger] top_column(layers, who, c),
            decreases 3 - i,
        {
            if self.probe_spot(i) && self.probe_spot(i + 3) && self.probe_spot(i + 6) {
                assert(top_column(layers, who, i as int));
                return -self.turn();
            }
            i += 1;
        }
        0
    }

    fn is_terminal(&self) -> (r: bool) {
        (self.layer_bitmask(Size::Small) == 6 && self.layer_bitmask(Size::Medium) == 6
            && self.layer_bitmask(Size::Big) == 6) || self.evaluate() != 0
            || !self.legal_moves_exist()
    }

    fn generate_moves(&self, buffer: &mut Vec<CoverTTTMove>) {
        let side: usize = self.moves % 2;
        let tops_used: usize = ones16(self.board[side]) as usize;
        let top_bb: u16 = self.board[0] | self.board[1];
        if tops_used < 3 {
            place_all(buffer, !top_bb & 0b111_111_111, Size::Big);
        }
        let mids_used: usize = ones16(self.board[side + 2]) as usize;
        let mid_bb: u16 = self.board[2] | self.board[3];
        if mids_used < 3 {
            place_all(buffer, !mid_bb & !top_bb & 0b111_111_111, Size::Medium);
        }
        let bottoms_used: usize = ones16(self.board[side + 4]) as usize;
        let bottom_bb: u16 = self.board[4] | self.board[5];
        if bottoms_used < 3 {
            place_all(buffer, !bottom_bb & !mid_bb & !top_bb & 0b111_111_111, Size::Small);
        }
        assert(buffer@ =~= old(buffer)@ + Self::moves_of(self@));
    }

    fn push(&mut self, m: CoverTTTMove) {
        proof {
            lemma_legal_placing(self@, m);
            Self::law_make_unmake(self@, m);
            lemma_stones_bound(Self::after(self@, m));
        }
        let k: usize = self.moves % 2 + layer_index(m.size);
        self.board[k] = self.board[k] | (1u16 << (m.idx as u16));
        self.moves += 1;
        assert(self@.layers =~= Self::after(old(self)@, m).layers);
    }

    fn pop(&mut self, m: CoverTTTMove) {
        self.moves -= 1;
        let k: usize = self.moves % 2 + layer_index(m.size);
        self.board[k] = self.board[k] & !(1u16 << (m.idx as u16));
        assert(self@.layers =~= Self::before(old(self)@, m).layers);
    }

    /// Twenty-seven, the number of squares times the number of sizes:
    /// no list of moves is longer.
    fn action_space_size(&self) -> (r: usize)
        ensures
            r == 27,
            Self::moves_of(self@).len() <= r,
    {
        proof {
            lemma_moves_bound(self@);
        }
        9 * 3
    }

    fn to_move(&self) -> (r: ToMove) {
        if self.moves % 2 == 0 {
            ToMove::Max
        } else {
            ToMove::Min
        }
    }

    open spec fn text_of(s: Self::V) -> Seq<char> {
        cover_picture(s.layers, 3)
    }

    open spec fn move_text_of(m: Self::Move) -> Seq<char> {
        seq![size_letter(m.size)] + decimal(m.idx as nat)
    }

    fn to_text(&self) -> (r: String) {
        let mut out = String::new();
        let ghost layers = self@.layers;
        let mut x: usize = 0;
        assert(out@ =~= cover_picture(layers, 0));
        while x < 3
            invariant
                x <= 3,
                layers == self@.layers,
                out@ == cover_picture(layers, x as nat),
            decreases 3 - x,
        {
            let ghost start = out@;
            let mut y: usize = 0;
            assert(out@ =~= start + cover_line(layers, x as int, 0));
            while y < 3
                invariant
                    y <= 3,
                    x < 3,
                    layers == self@.layers,
                    out@ == start + cover_line(layers, x as int, y as nat),
                decreases 3 - y,
            {
                push_char(&mut out, self.char_at(x, y));
                push_char(&mut out, ' ');
                assert(out@ =~= start + cover_line(layers, x as int, (y + 1) as nat));
                y += 1;
            }
            push_char(&mut out, '\n');
            assert(out@ =~= cover_picture(layers, (x + 1) as nat));
            x += 1;
        }
        out
    }

    fn move_text(m: Self::Move) -> (r: String) {
        m.to_text()
    }

    fn duplicate(&self) -> (r: Self) {
        *self
    }

    fn same_state(&self, other: &Self) -> (r: bool) {
        let mut k: usize = 0;
        while k < 6
            invariant
                k <= 6,
                forall|i: int| 0 <= i < k ==> self.board@[i] == other.board@[i],
            decreases 6 - k,
        {
            if self.board[k] != other.board[k] {
                return false;
            }
            k += 1;
        }
        assert(self.board@ =~= other.board@);
        self.moves == other.moves
    }
}

/// A valid position holds at most eighteen pieces.
pub proof fn lemma_stones_bound(s: CoverTTTView)
    requires
        CoverTTT::valid(s),
    ensures
        s.moves <= 18,
{
    assert(count16(s.layers[0], 16) <= 3);
    assert(count16(s.layers[1], 16) <= 3);
    assert(count16(s.layers[2], 16) <= 3);
    assert(count16(s.layers[3], 16) <= 3);
    assert(count16(s.layers[4], 16) <= 3);
    assert(count16(s.layers[5], 16) <= 3);
}

/// A legal move puts a piece of a size of which the side to move has
/// one left on one of the nine squares, where no piece of that size
/// stands.
pub proof fn lemma_legal_placing(s: CoverTTTView, m: CoverTTTMove)
    requires
        CoverTTT::valid(s),
        CoverTTT::moves_of(s).contains(m),
    ensures
        0 <= m.idx < 9,
        used(s, m.size) < 3,
        has16(options(s.layers, m.size), m.idx as int),
        !has16(s.layers[(s.moves % 2) as int + layer_of(m.size)], m.idx as int),
{
    let moves = CoverTTT::moves_of(s);
    let big = size_moves(s, Size::Big);
    let medium = size_moves(s, Size::Medium);
    let small = size_moves(s, Size::Small);
    let k = choose|k: int| 0 <= k < moves.len() && moves[k] == m;
    let squares = set_bits16(options(s.layers, m.size), 0);
    lemma_set_bits_hold16(options(s.layers, m.size), 0);
    lemma_set_bits_rise16(options(s.layers, m.size), 0);
    lemma_options(s.layers, m.size);
    if k < big.len() {
        assert(m == big[k]);
        assert(squares.contains(squares[k]));
    } else if k < big.len() + medium.len() {
        assert(m == medium[k - big.len()]);
        assert(squares.contains(squares[k - big.len()]));
    } else {
        assert(m == small[k - big.len() - medium.len()]);
        assert(squares.contains(squares[k - big.len() - medium.len()]));
    }
}

impl Keyed for CoverTTT {
    /// The six layers side by side, nine bits each.
    open spec fn key_of(s: CoverTTTView) -> u64 {
        (s.layers[0] as u64 + s.layers[1] as u64 * 512 + s.layers[2] as u64 * 262144 + s.layers[3] as u64
            * 134217728 + s.layers[4] as u64 * 68719476736 + s.layers[5] as u64
            * 35184372088832) as u64
    }

    fn hashkey(&self) -> (r: u64) {
        self.board[0] as u64 + self.board[1] as u64 * 512 + self.board[2] as u64 * 262144
            + self.board[3] as u64 * 134217728 + self.board[4] as u64 * 68719476736
            + self.board[5] as u64 * 35184372088832
    }
}

/// With a memo of its own the memoized count is the plain count, at
/// every depth: a position tells how many moves were played.
pub proof fn lemma_counts_agree(s: CoverTTTView, depth: nat)
    requires
        CoverTTT::valid(s),
    ensures
        memo_count::<CoverTTT>(s, depth, Map::empty()).0 == capped(leaf_count::<CoverTTT>(s, depth)),
{
    lemma_memo_agrees::<CoverTTT>(
        s,
        depth,
        |t: CoverTTTView| t.moves,
    );
}

/// No position has more than twenty-seven moves: nine squares at most
/// are open to each of the three sizes.
pub proof fn lemma_moves_bound(s: CoverTTTView)
    ensures
        size_moves(s, Size::Big).len() <= 9,
        size_moves(s, Size::Medium).len() <= 9,
        size_moves(s, Size::Small).len() <= 9,
        CoverTTT::moves_of(s).len() <= 27,
{
    lemma_options(s.layers, Size::Big);
    lemma_options(s.layers, Size::Medium);
    lemma_options(s.layers, Size::Small);
    lemma_set_bits_below16(options(s.layers, Size::Big), 9);
    lemma_set_bits_below16(options(s.layers, Size::Medium), 9);
    lemma_set_bits_below16(options(s.layers, Size::Small), 9);
}

} // verus!
