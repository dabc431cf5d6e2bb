//! Four in a row on a board of seven columns and six rows, where a stone
//! falls to the lowest free cell of its column.
//!
//! The cell in column `c` and row `r` is bit `7 * c + r` of a word; the
//! seventh bit of each column stays clear, so that a line of bits never
//! runs from one column into the next:
//!
//! ```text
//!  .  .  .  .  .  .  .
//!  5 12 19 26 33 40 47
//!  4 11 18 25 32 39 46
//!  3 10 17 24 31 38 45
//!  2  9 16 23 30 37 44
//!  1  8 15 22 29 36 43
//!  0  7 14 21 28 35 42
//! ```

use vstd::prelude::*;
use crate::bits::{
    has64, lemma_no_bits_is_zero64, lemma_one64, lemma_ops64, lemma_same64, lemma_shift64,
};
use crate::perft::{capped, leaf_count, lemma_memo_agrees, memo_count};
use crate::game::{Game, Keyed, ToMove};
use crate::text::{decimal, push_char, push_decimal};

verus! {

/// The number of columns.
pub const WIDTH: usize = 7;

/// The number of rows.
pub const HEIGHT: usize = 6;

/// The number of stones in a winning line.
pub const ROW_LENGTH: usize = 4;

/// A position: the cells that hold a stone, those that hold a stone of
/// the side to move, and the number of moves played.
#[derive(Debug, Clone, Copy, PartialEq, Eq, Hash)]
pub struct Connect4 {
    filled: u64,
    current: u64,
    moves: usize,
}

/// A position as the proofs see it.
pub struct Connect4View {
    pub filled: u64,
    pub current: u64,
    pub moves: nat,
}

impl View for Connect4 {
    type V = Connect4View;

    closed spec fn view(&self) -> Connect4View {
        Connect4View { filled: self.filled, current: self.current, moves: self.moves as nat }
    }
}

/// The distance between the bits of neighbouring cells in a direction:
/// up a column, along a row, and along the two diagonals.
pub open spec fn stride(dir: int) -> int {
    if dir == 0 {
        1
    } else if dir == 1 {
        7
    } else if dir == 2 {
        8
    } else {
        6
    }
}

/// Whether the word holds the four bits that start at `p` and lie
/// `step` apart.
pub open spec fn four_from(stones: u64, p: int, step: int) -> bool {
    has64(stones, p) && has64(stones, p + step) && has64(stones, p + 2 * step) && has64(
        stones,
        p + 3 * step,
    )
}

/// Whether the word holds four bits in a line of the direction.
pub open spec fn four_in_line(stones: u64, dir: int) -> bool {
    exists|p: int| #[trigger] four_from(stones, p, stride(dir))
}

/// Whether the cell in column `c` and row `r` holds a stone.
pub open spec fn stone_at(filled: u64, c: int, r: int) -> bool {
    has64(filled, 7 * c + r)
}

/// The number of stones in column `c`: the cells of a column are filled
/// from the bottom.
pub open spec fn height(filled: u64, c: int) -> nat {
    height_below(filled, c, 7)
}

/// The number of stones in the lowest `n` cells of column `c`.
pub open spec fn height_below(filled: u64, c: int, n: nat) -> nat
    decreases n,
{
    if n == 0 {
        0
    } else {
        height_below(filled, c, (n - 1) as nat) + if stone_at(filled, c, n - 1) {
            1nat
        } else {
            0nat
        }
    }
}

/// The number of stones on the board.
pub open spec fn stone_count(filled: u64) -> nat {
    height(filled, 0) + height(filled, 1) + height(filled, 2) + height(filled, 3) + height(
        filled,
        4,
    ) + height(filled, 5) + height(filled, 6)
}

/// Whether the stones of each column fill its lowest cells, and no more
/// than six of them.
pub open spec fn stacked(filled: u64) -> bool {
    &&& forall|j: int| #[trigger] has64(filled, j) ==> 0 <= j < 49
    &&& forall|c: int, r: int|
        0 <= c < 7 && 0 <= r < 7 ==> #[trigger] stone_at(filled, c, r) == (r < height(filled, c))
    &&& forall|c: int| 0 <= c < 7 ==> #[trigger] height(filled, c) <= 6
}

/// The columns below `n` that are not full, lowest first.
pub open spec fn open_columns(filled: u64, n: nat) -> Seq<usize>
    decreases n,
{
    if n == 0 {
        Seq::empty()
    } else if stone_at(filled, n - 1, 5) {
        open_columns(filled, (n - 1) as nat)
    } else {
        open_columns(filled, (n - 1) as nat).push((n - 1) as usize)
    }
}

/// The board after a stone has fallen into the column: adding the
/// bottom cell of the column to the word carries up to its lowest free
/// cell.
pub open spec fn dropped(filled: u64, col: int) -> u64 {
    filled | ((filled + (1u64 << ((col * 7) as u64))) as u64)
}

/// The cells of a column, moved down to bit 0.
pub open spec fn column_bits(filled: u64, col: int) -> u64 {
    (filled >> ((col * 7) as u64)) & 0x7F
}

/// The top stone of a column: the cells of a column are filled from the
/// bottom, so one more than its word, halved, is the bit of its top
/// stone.
pub open spec fn top_stone(filled: u64, col: int) -> u64 {
    (((column_bits(filled, col) + 1) as u64) >> 1) << ((col * 7) as u64)
}

proof fn bits_of_drop(filled: u64, k: u64, h: u64)
    by (bit_vector)
    requires
        k <= 42,
        h <= 6,
        filled < 0x2_0000_0000_0000,
        (filled >> k) & 0x7F == ((1u64 << h) - 1) as u64,
    ensures
        filled + (1u64 << k) < 0x1_0000_0000_0000_0000,
        filled | ((filled + (1u64 << k)) as u64) == filled | (1u64 << ((k + h) as u64)),
        h >= 1 ==> ((((filled >> k) & 0x7F) + 1) as u64 >> 1) << k == 1u64 << ((k + h - 1) as u64),
{
}

proof fn bits_of_low(h: u64, j: u64)
    by (bit_vector)
    requires
        h <= 7,
        j < 64,
    ensures
        ((((1u64 << h) - 1) as u64) & (1u64 << j) != 0) == (j < h),
        (0x7Fu64 & (1u64 << j) != 0) == (j < 7),
        (1u64 << h) >= 1,
{
}

proof fn bits_of_board(filled: u64)
    by (bit_vector)
    ensures
        filled < 0x2_0000_0000_0000 <==> filled & !0x1_FFFF_FFFF_FFFFu64 == 0,
        forall|j: u64|
            j < 64 ==> ((#[trigger] (!0x1_FFFF_FFFF_FFFFu64 & (1u64 << j))) != 0) == (j >= 49),
{
}

/// The bits of the cells of a column.
pub proof fn lemma_column(filled: u64, col: int)
    requires
        0 <= col < 7,
    ensures
        forall|r: int| #[trigger]
            has64(column_bits(filled, col), r) == (0 <= r < 7 && has64(filled, 7 * col + r)),
{
    lemma_shift64(filled, col * 7);
    lemma_ops64(filled >> ((col * 7) as u64), 0x7F);
    assert forall|r: int| #[trigger] has64(0x7F, r) == (0 <= r < 7) by {
        if 0 <= r < 64 {
            bits_of_low(0, r as u64);
        }
    }
}

/// What a drop and a lift do to a stacked board: a stone that falls
/// into a column that is not full lands on its lowest free cell, and the
/// top stone of a column that is not empty is its highest stone.
pub proof fn lemma_stack(filled: u64, col: int)
    requires
        stacked(filled),
        0 <= col < 7,
    ensures
        filled + (1u64 << ((col * 7) as u64)) <= u64::MAX,
        height(filled, col) < 6 ==> dropped(filled, col) == filled | (1u64 << ((col * 7 + height(
            filled,
            col,
        )) as u64)),
        height(filled, col) >= 1 ==> top_stone(filled, col) == 1u64 << ((col * 7 + height(
            filled,
            col,
        ) - 1) as u64),
{
    let h = height(filled, col);
    let low = ((1u64 << (h as u64)) - 1) as u64;
    lemma_column(filled, col);
    assert(height(filled, col) <= 6);
    assert forall|r: int| 0 <= r < 64 implies has64(column_bits(filled, col), r) == has64(low, r) by {
        bits_of_low(h as u64, r as u64);
        if r < 7 {
            assert(stone_at(filled, col, r) == (r < height(filled, col)));
        }
    }
    lemma_same64(column_bits(filled, col), low);
    bits_of_board(filled);
    lemma_ops64(filled, !0x1_FFFF_FFFF_FFFFu64);
    assert forall|j: int| 0 <= j < 64 implies !has64(filled & !0x1_FFFF_FFFF_FFFFu64, j) by {
        if has64(filled, j) {
            assert(j < 49);
            assert((!0x1_FFFF_FFFF_FFFFu64 & (1u64 << (j as u64))) == 0);
        }
    }
    lemma_no_bits_is_zero64(filled & !0x1_FFFF_FFFF_FFFFu64);
    bits_of_drop(filled, (col * 7) as u64, h as u64);
}

/// Columns with the same cells have the same height.
pub proof fn lemma_height_same(a: u64, b: u64, c: int, n: nat)
    requires
        forall|r: int| 0 <= r < n ==> #[trigger] stone_at(a, c, r) == stone_at(b, c, r),
    ensures
        height_below(a, c, n) == height_below(b, c, n),
    decreases n,
{
    if n > 0 {
        lemma_height_same(a, b, c, (n - 1) as nat);
    }
}

/// A column that gains a stone is one higher.
pub proof fn lemma_height_plus_one(a: u64, b: u64, c: int, n: nat, r: int)
    requires
        0 <= r < n,
        !stone_at(a, c, r),
        stone_at(b, c, r),
        forall|i: int| 0 <= i < n && i != r ==> #[trigger] stone_at(a, c, i) == stone_at(b, c, i),
    ensures
        height_below(b, c, n) == height_below(a, c, n) + 1,
    decreases n,
{
    if r == n - 1 {
        lemma_height_same(a, b, c, (n - 1) as nat);
    } else {
        lemma_height_plus_one(a, b, c, (n - 1) as nat, r);
    }
}

/// A board that is stacked stays stacked when a stone lands on the
/// lowest free cell of a column that is not full, and gains one stone.
pub proof fn lemma_drop_stacked(filled: u64, col: int)
    requires
        stacked(filled),
        0 <= col < 7,
        height(filled, col) < 6,
    ensures
        stacked(dropped(filled, col)),
        height(dropped(filled, col), col) == height(filled, col) + 1,
        forall|c: int| 0 <= c < 7 && c != col ==> height(dropped(filled, col), c) == height(filled, c),
        stone_count(dropped(filled, col)) == stone_count(filled) + 1,
        dropped(filled, col) ^ top_stone(dropped(filled, col), col) == filled,
{
    let h = height(filled, col) as int;
    let bit = 1u64 << ((col * 7 + h) as u64);
    let next = dropped(filled, col);
    lemma_stack(filled, col);
    lemma_one64(col * 7 + h);
    lemma_ops64(filled, bit);
    assert(stone_at(filled, col, h) == (h < height(filled, col)));
    assert forall|i: int| 0 <= i < 7 && i != h implies #[trigger] stone_at(filled, col, i)
        == stone_at(next, col, i) by {
        assert(has64(next, 7 * col + i) == (has64(filled, 7 * col + i) || has64(bit, 7 * col + i)));
    }
    assert(stone_at(next, col, h)) by {
        assert(has64(next, 7 * col + h) == (has64(filled, 7 * col + h) || has64(bit, 7 * col + h)));
    }
    lemma_height_plus_one(filled, next, col, 7, h);
    assert forall|c: int| 0 <= c < 7 && c != col implies height(next, c) == height(filled, c) by {
        assert forall|r: int| 0 <= r < 7 implies #[trigger] stone_at(filled, c, r) == stone_at(
            next,
            c,
            r,
        ) by {
            assert(has64(next, 7 * c + r) == (has64(filled, 7 * c + r) || has64(bit, 7 * c + r)));
        }
        lemma_height_same(filled, next, c, 7);
    }
    assert forall|c: int, r: int| 0 <= c < 7 && 0 <= r < 7 implies #[trigger] stone_at(next, c, r)
        == (r < height(next, c)) by {
        assert(stone_at(filled, c, r) == (r < height(filled, c)));
        assert(has64(next, 7 * c + r) == (has64(filled, 7 * c + r) || has64(bit, 7 * c + r)));
        if c != col {
            assert(height(next, c) == height(filled, c));
        }
    }
    assert forall|j: int| #[trigger] has64(next, j) implies 0 <= j < 49 by {
        assert(has64(next, j) == (has64(filled, j) || has64(bit, j)));
    }
    assert forall|c: int| 0 <= c < 7 implies #[trigger] height(next, c) <= 6 by {
        if c != col {
            assert(height(next, c) == height(filled, c));
        }
    }
    lemma_stack(next, col);
    lemma_ops64(next, bit);
    lemma_same64(next ^ bit, filled);
}

impl Connect4 {
    /// The empty board, with the first side to move.
    pub fn new() -> (r: Self)
        ensures
            r@ == (Connect4View { filled: 0, current: 0, moves: 0 }),
            Self::valid(r@),
    {
        let r = Self { filled: 0, current: 0, moves: 0 };
        proof {
            lemma_ops64(0, 0);
            reveal_with_fuel(height_below, 8);
        }
        r
    }

    /// The mark on a cell.
    pub fn char_at(&self, col: usize, row: usize) -> (r: char)
        requires
            col < 7,
            row < 7,
        ensures
            r == cell_mark(self@, col as int, row as int),
    {
        let mask: u64 = 1u64 << ((col * 7 + row) as u64);
        let first: u64 = if self.moves % 2 == 0 {
            self.current
        } else {
            self.filled ^ self.current
        };
        if self.filled & mask == 0 {
            '.'
        } else if first & mask != 0 {
            'X'
        } else {
            'O'
        }
    }

    /// Whether the side that moved last has four stones in a line.
    pub fn is_won(&self) -> (r: bool)
        ensures
            r == exists|dir: int| 0 <= dir < 4 && #[trigger] four_in_line(last_stones(self@), dir),
    {
        let stones: u64 = self.filled ^ self.current;
        let mut dir: usize = 0;
        while dir < 4
            invariant
                dir <= 4,
                stones == last_stones(self@),
                forall|d: int| 0 <= d < dir ==> !#[trigger] four_in_line(stones, d),
            decreases 4 - dir,
        {
            if Self::win_dir(stones, dir) {
                return true;
            }
            dir += 1;
        }
        false
    }

    /// Whether the stones hold four in a line of the direction: a stone
    /// with a neighbour in the direction, two steps from another such.
    pub fn win_dir(stones: u64, dir: usize) -> (r: bool)
        requires
            dir < 4,
        ensures
            r == four_in_line(stones, dir as int),
    {
        let shift: u64 = if dir == 0 {
            1
        } else if dir == 1 {
            WIDTH as u64
        } else if dir == 2 {
            WIDTH as u64 + 1
        } else {
            WIDTH as u64 - 1
        };
        let pairs: u64 = stones & (stones >> shift);
        let fours: u64 = pairs & (pairs >> (2 * shift));
        proof {
            let step = stride(dir as int);
            assert(shift == step as u64);
            assert(2 * shift == (2 * step) as u64);
            lemma_shift64(stones, step);
            lemma_ops64(stones, stones >> shift);
            lemma_shift64(pairs, 2 * step);
            lemma_ops64(pairs, pairs >> ((2 * shift) as u64));
            lemma_no_bits_is_zero64(fours);
            assert forall|p: int| has64(fours, p) == #[trigger] four_from(stones, p, step) by {
                assert(has64(fours, p) == (has64(pairs, p) && has64(pairs >> ((2 * shift) as u64), p)));
                assert(has64(pairs, p) == (has64(stones, p) && has64(stones >> shift, p)));
                if 0 <= p {
                    assert(has64(stones >> shift, p) == has64(stones, p + step));
                    assert(has64(pairs >> ((2 * shift) as u64), p) == has64(pairs, p + 2 * step));
                    assert(has64(pairs, p + 2 * step) == (has64(stones, p + 2 * step) && has64(
                        stones >> shift,
                        p + 2 * step,
                    )));
                    assert(has64(stones >> shift, p + 2 * step) == has64(stones, p + 3 * step));
                }
            }
            if fours != 0 {
                let p = choose|p: int| has64(fours, p);
                assert(four_from(stones, p, step));
            }
        }
        fours != 0
    }

    /// The number of the block of seven bits in which the lowest set bit
    /// of the word lies; `9` for the word without bits.
    pub fn row(mask: u64) -> (r: usize)
        ensures
            r == vstd::std_specs::bits::u64_trailing_zeros(mask) / 7,
    {
        proof {
            vstd::std_specs::bits::axiom_u64_trailing_zeros(mask);
        }
        (mask.trailing_zeros() / WIDTH as u32) as usize
    }

    /// The bit of the bottom cell of the column.
    pub fn bottom_mask(col: usize) -> (r: u64)
        requires
            col * 7 < 64,
        ensures
            r == 1u64 << ((col * 7) as u64),
    {
        1u64 << ((col * (HEIGHT + 1)) as u64)
    }
}

/// The stones of the first side.
pub open spec fn first_stones(s: Connect4View) -> u64 {
    if s.moves % 2 == 0 {
        s.current
    } else {
        s.filled ^ s.current
    }
}

/// The mark on a cell: `X` for a stone of the first side, `O` for one of
/// the second, a dot where no stone lies.
pub open spec fn cell_mark(s: Connect4View, col: int, row: int) -> char {
    if !has64(s.filled, 7 * col + row) {
        '.'
    } else if has64(first_stones(s), 7 * col + row) {
        'X'
    } else {
        'O'
    }
}

/// The first `n` marks of a row of the picture.
pub open spec fn row_text(s: Connect4View, row: int, n: nat) -> Seq<char>
    decreases n,
{
    if n == 0 {
        Seq::empty()
    } else {
        row_text(s, row, (n - 1) as nat).push(cell_mark(s, n - 1, row))
    }
}

/// The first `n` lines of the picture, which starts with the top row.
pub open spec fn board_text(s: Connect4View, n: nat) -> Seq<char>
    decreases n,
{
    if n == 0 {
        Seq::empty()
    } else {
        board_text(s, (n - 1) as nat) + row_text(s, 6 - n, 7) + seq!['\n']
    }
}

/// The stones of the side that moved last.
pub open spec fn last_stones(s: Connect4View) -> u64 {
    s.filled ^ s.current
}

/// The open columns are columns of the board that are not full, each
/// listed once, lowest first.
pub proof fn lemma_open_columns(filled: u64, n: nat)
    requires
        n <= 7,
    ensures
        forall|k: int|
            0 <= k < open_columns(filled, n).len() ==> (#[trigger] open_columns(filled, n)[k]) < n
                && !stone_at(filled, open_columns(filled, n)[k] as int, 5),
        forall|k: int, l: int|
            0 <= k < l < open_columns(filled, n).len() ==> #[trigger] open_columns(filled, n)[k]
                < #[trigger] open_columns(filled, n)[l],
        forall|c: int|
            0 <= c < n && !#[trigger] stone_at(filled, c, 5) ==> open_columns(filled, n).contains(
                c as usize,
            ),
    decreases n,
{
    if n > 0 {
        lemma_open_columns(filled, (n - 1) as nat);
        let all = open_columns(filled, n);
        let head = open_columns(filled, (n - 1) as nat);
        assert forall|c: int| 0 <= c < n && !#[trigger] stone_at(filled, c, 5) implies all.contains(
            c as usize,
        ) by {
            if c < n - 1 {
                assert(head.contains(c as usize));
                let k = choose|k: int| 0 <= k < head.len() && head[k] == c as usize;
                assert(all[k] == c as usize);
            } else {
                assert(all[all.len() - 1] == c as usize);
            }
        }
    }
}

impl Game for Connect4 {
    type Move = usize;

    /// The stones of each column fill its lowest cells, and as many
    /// stones lie on the board as moves were played.
    open spec fn valid(s: Connect4View) -> bool {
        &&& stacked(s.filled)
        &&& s.moves == stone_count(s.filled)
    }

    open spec fn turn_of(s: Connect4View) -> int {
        if s.moves % 2 == 0 {
            1
        } else {
            -1
        }
    }

    /// The side that moved last has won if it has four stones in a line.
    open spec fn score_of(s: Connect4View) -> int {
        if exists|dir: int| 0 <= dir < 4 && #[trigger] four_in_line(last_stones(s), dir) {
            -Self::turn_of(s)
        } else {
            0
        }
    }

    open spec fn over(s: Connect4View) -> bool {
        s.moves == 42 || Self::score_of(s) != 0
    }

    /// The columns that are not full, lowest first.
    open spec fn moves_of(s: Connect4View) -> Seq<usize> {
        open_columns(s.filled, 7)
    }

    open spec fn mover_of(s: Connect4View) -> ToMove {
        if s.moves % 2 == 0 {
            ToMove::Max
        } else {
            ToMove::Min
        }
    }

    open spec fn after(s: Connect4View, m: usize) -> Connect4View {
        Connect4View {
            filled: dropped(s.filled, m as int),
            current: s.current ^ s.filled,
            moves: s.moves + 1,
        }
    }

    open spec fn can_undo(s: Connect4View, m: usize) -> bool {
        s.moves >= 1 && m < 7
    }

    open spec fn before(s: Connect4View, m: usize) -> Connect4View {
        Connect4View {
            filled: s.filled ^ top_stone(s.filled, m as int),
            current: s.current ^ (s.filled ^ top_stone(s.filled, m as int)),
            moves: (s.moves - 1) as nat,
        }
    }

    proof fn law_make_unmake(s: Connect4View, m: usize) {
        lemma_open_columns(s.filled, 7);
        let k = choose|k: int| 0 <= k < Self::moves_of(s).len() && Self::moves_of(s)[k] == m;
        assert(!stone_at(s.filled, m as int, 5));
        assert(stone_at(s.filled, m as int, 5) == (5 < height(s.filled, m as int)));
        lemma_drop_stacked(s.filled, m as int);
        lemma_ops64(s.current, s.filled);
        lemma_ops64(s.current ^ s.filled, s.filled);
        lemma_same64((s.current ^ s.filled) ^ s.filled, s.current);
    }

    proof fn law_outcome(s: Connect4View) {
        if !Self::over(s) {
            lemma_open_columns(s.filled, 7);
            let c = if height(s.filled, 0) < 6 {
                0int
            } else if height(s.filled, 1) < 6 {
                1int
            } else if height(s.filled, 2) < 6 {
                2int
            } else if height(s.filled, 3) < 6 {
                3int
            } else if height(s.filled, 4) < 6 {
                4int
            } else if height(s.filled, 5) < 6 {
                5int
            } else {
                6int
            };
            assert(height(s.filled, c) < 6);
            assert(stone_at(s.filled, c, 5) == (5 < height(s.filled, c)));
            assert(Self::moves_of(s).contains(c as usize));
        }
    }

    proof fn law_distinct_moves(s: Connect4View) {
        lemma_open_columns(s.filled, 7);
    }

    fn turn(&self) -> (r: i8) {
        if self.moves % 2 == 0 {
            1
        } else {
            -1
        }
    }

    fn evaluate(&self) -> (r: i8) {
        if self.is_won() {
            return -self.turn();
        }
        0
    }

    fn is_terminal(&self) -> (r: bool) {
        self.moves == WIDTH * HEIGHT || self.evaluate() != 0
    }

    fn generate_moves(&self, buffer: &mut Vec<usize>) {
        let mut col: usize = 0;
        assert(buffer@ =~= old(buffer)@ + open_columns(self@.filled, 0));
        while col < 7
            invariant
                col <= 7,
                buffer@ == old(buffer)@ + open_columns(self@.filled, col as nat),
            decreases 7 - col,
        {
            if self.filled & (1u64 << ((col * 7 + 5) as u64)) == 0 {
                buffer.push(col);
            }
            assert(buffer@ =~= old(buffer)@ + open_columns(self@.filled, (col + 1) as nat));
            col += 1;
        }
    }

    /// Seven, the number of columns: no list of moves is longer.
    fn action_space_size(&self) -> (r: usize)
        ensures
            r == 7,
            Self::moves_of(self@).len() <= r,
    {
        proof {
            lemma_columns_bound(self@.filled, 7);
        }
        WIDTH
    }

    fn push(&mut self, m: usize) {
        proof {
            lemma_open_columns(self@.filled, 7);
            let k = choose|k: int|
                0 <= k < Self::moves_of(self@).len() && Self::moves_of(self@)[k] == m;
            lemma_stack(self@.filled, m as int);
            assert(stone_at(self@.filled, m as int, 5) == (5 < height(self@.filled, m as int)));
            Self::law_make_unmake(self@, m);
            lemma_stone_bound(Self::after(self@, m).filled);
        }
        self.current = self.current ^ self.filled;
        self.filled = self.filled | (self.filled + Self::bottom_mask(m));
        self.moves += 1;
    }

    fn pop(&mut self, m: usize) {
        let filled: u64 = self.filled;
        let shift: u64 = (m * 7) as u64;
        let column: u64 = (filled >> shift) & 0x7F;
        assert(column <= 0x7F) by (bit_vector)
            requires
                column == (filled >> shift) & 0x7F,
        ;
        let top: u64 = ((column + 1) >> 1) << shift;
        self.filled = self.filled ^ top;
        self.current = self.current ^ self.filled;
        self.moves -= 1;
    }

    fn to_move(&self) -> (r: ToMove) {
        if self.moves % 2 == 0 {
            ToMove::Max
        } else {
            ToMove::Min
        }
    }

    open spec fn text_of(s: Self::V) -> Seq<char> {
        board_text(s, 6)
    }

    open spec fn move_text_of(m: Self::Move) -> Seq<char> {
        decimal(m as nat)
    }

    fn to_text(&self) -> (r: String) {
        let mut out = String::new();
        let mut line: usize = 0;
        assert(out@ =~= board_text(self@, 0));
        while line < 6
            invariant
                line <= 6,
                out@ == board_text(self@, line as nat),
            decreases 6 - line,
        {
            let row: usize = 5 - line;
            let ghost start = out@;
            let mut col: usize = 0;
            assert(out@ =~= start + row_text(self@, row as int, 0));
            while col < 7
                invariant
                    col <= 7,
                    row < 6,
                    out@ == start + row_text(self@, row as int, col as nat),
                decreases 7 - col,
            {
                push_char(&mut out, self.char_at(col, row));
                assert(out@ =~= start + row_text(self@, row as int, (col + 1) as nat));
                col += 1;
            }
            push_char(&mut out, '\n');
            assert(out@ =~= board_text(self@, (line + 1) as nat));
            line += 1;
        }
        out
    }

    fn move_text(m: Self::Move) -> (r: String) {
        let mut out = String::new();
        push_decimal(&mut out, m as u128);
        assert(out@ =~= decimal(m as nat));
        out
    }

    fn duplicate(&self) -> (r: Self) {
        *self
    }

    fn same_state(&self, other: &Self) -> (r: bool) {
        self.filled == other.filled && self.current == other.current && self.moves == other.moves
    }
}

/// A stacked board holds at most forty-two stones.
pub proof fn lemma_stone_bound(filled: u64)
    requires
        stacked(filled),
    ensures
        stone_count(filled) <= 42,
{
    assert(height(filled, 0) <= 6);
    assert(height(filled, 1) <= 6);
    assert(height(filled, 2) <= 6);
    assert(height(filled, 3) <= 6);
    assert(height(filled, 4) <= 6);
    assert(height(filled, 5) <= 6);
    assert(height(filled, 6) <= 6);
}

impl Keyed for Connect4 {
    /// The stones of the side to move, with a stone on top of every
    /// column: no two positions share a key.
    open spec fn key_of(s: Connect4View) -> u64 {
        s.current ^ s.filled ^ ((s.filled << 1) | 0x2040810204081u64)
    }

    fn hashkey(&self) -> (r: u64) {
        self.current ^ self.filled ^ ((self.filled << 1) | 0x2040810204081u64)
    }
}

/// With a memo of its own the memoized count is the plain count, at
/// every depth: a position tells how many moves were played.
pub proof fn lemma_counts_agree(s: Connect4View, depth: nat)
    requires
        Connect4::valid(s),
    ensures
        memo_count::<Connect4>(s, depth, Map::empty()).0 == capped(leaf_count::<Connect4>(s, depth)),
{
    lemma_memo_agrees::<Connect4>(
        s,
        depth,
        |t: Connect4View| t.moves,
    );
}

/// Of the columns below `n` at most `n` are open.
pub proof fn lemma_columns_bound(filled: u64, n: nat)
    ensures
        open_columns(filled, n).len() <= n,
    decreases n,
{
    if n > 0 {
        lemma_columns_bound(filled, (n - 1) as nat);
    }
}

} // verus!
