//! The knight's tour as a game: the two sides move one knight in turn
//! over a board of eight by eight squares, never to a square that it has
//! visited, and the side that cannot move has lost.
//!
//! Square `i` stands in row `i / 8`, column `i % 8`.

use vstd::prelude::*;
use crate::bits::{
    count64, has64, lemma_count_bound64, lemma_count_none64, lemma_count_plus_one64, lemma_one64,
    lemma_ops64, lemma_same64,
};
use crate::perft::{capped, leaf_count, lemma_memo_agrees, memo_count};
use crate::game::{Game, Keyed, ToMove};
use crate::text::{decimal, push_char, push_decimal};

verus! {

/// The key of each square: the word with the bit of the square.
pub fn init_hash_keys() -> (keys: [u64; 64])
    ensures
        forall|sq: int| 0 <= sq < 64 ==> #[trigger] keys[sq] == 1u64 << (sq as u64),
{
    let mut keys: [u64; 64] = [0;64];
    let mut sq: usize = 0;
    while sq < 64
        invariant
            sq <= 64,
            forall|i: int| 0 <= i < sq ==> #[trigger] keys[i] == 1u64 << (i as u64),
        decreases 64 - sq,
    {
        keys[sq] = 1u64 << (sq as u64);
        sq += 1;
    }
    keys
}

/// A position: where the knight stands, the number of moves played, and
/// the squares visited.
#[derive(Debug, Clone, PartialEq, Eq, Hash)]
pub struct AdversarialKnight {
    knightloc: isize,
    moves: usize,
    visited: u64,
}

/// A move of the knight from one square to another.
#[derive(Debug, Clone, Copy, PartialEq, Eq, Hash)]
pub struct KnightMove {
    pub from: usize,
    pub to: usize,
}

/// A position as the proofs see it.
pub struct KnightView {
    pub knightloc: int,
    pub moves: nat,
    pub visited: u64,
}

impl View for AdversarialKnight {
    type V = KnightView;

    closed spec fn view(&self) -> KnightView {
        KnightView { knightloc: self.knightloc as int, moves: self.moves as nat, visited: self.visited }
    }
}

/// The decimal numeral of a number, with a sign if it is negative.
pub open spec fn signed_decimal(n: int) -> Seq<char> {
    if n < 0 {
        seq!['-'] + decimal((-n) as nat)
    } else {
        decimal(n as nat)
    }
}

impl KnightMove {
    /// The move in words: the number of the square to which the knight
    /// goes.
    pub fn to_text(&self) -> (r: String)
        ensures
            r@ == decimal(self.to as nat),
    {
        let mut out = String::new();
        push_decimal(&mut out, self.to as u128);
        assert(out@ =~= decimal(self.to as nat));
        out
    }
}

/// The column of a square.
pub open spec fn column(loc: int) -> int {
    loc % 8
}

/// The `k`-th of the eight steps of a knight, as a change of the square.
pub open spec fn step(k: int) -> int {
    if k == 0 {
        -17
    } else if k == 1 {
        -15
    } else if k == 2 {
        -10
    } else if k == 3 {
        -6
    } else if k == 4 {
        6
    } else if k == 5 {
        10
    } else if k == 6 {
        15
    } else {
        17
    }
}

/// Whether the knight can go to the square: it lies on the board, at
/// most two columns away, and has not been visited.
pub open spec fn open_square(s: KnightView, to: int) -> bool {
    &&& 0 <= to < 64
    &&& !has64(s.visited, to)
    &&& -2 <= column(to) - column(s.knightloc) <= 2
}

/// The move with the `k`-th step, if the knight can make it.
pub open spec fn step_move(s: KnightView, k: int) -> Seq<KnightMove> {
    if open_square(s, s.knightloc + step(k)) {
        seq![KnightMove { from: s.knightloc as usize, to: (s.knightloc + step(k)) as usize }]
    } else {
        Seq::empty()
    }
}

/// The moves with the first `n` steps.
pub open spec fn step_moves(s: KnightView, n: nat) -> Seq<KnightMove>
    decreases n,
{
    if n == 0 {
        Seq::empty()
    } else {
        step_moves(s, (n - 1) as nat) + step_move(s, n - 1)
    }
}

/// The column of a square.
pub fn col_of(loc: isize) -> (r: isize)
    ensures
        loc >= 0 ==> r == column(loc as int),
        loc < 0 ==> r == -column(-loc),
{
    loc % 8
}

/// The row of a square.
pub fn row_of(loc: isize) -> (r: isize)
    ensures
        loc >= 0 ==> r == loc / 8,
        loc < 0 ==> r == -((-loc) / 8),
{
    loc / 8
}

/// The `k`-th of the eight steps of a knight.
fn knight_step(k: usize) -> (r: isize)
    requires
        k < 8,
    ensures
        r == step(k as int),
{
    if k == 0 {
        -17
    } else if k == 1 {
        -15
    } else if k == 2 {
        -10
    } else if k == 3 {
        -6
    } else if k == 4 {
        6
    } else if k == 5 {
        10
    } else if k == 6 {
        15
    } else {
        17
    }
}

impl AdversarialKnight {
    /// The start: the knight on square 32, which counts as visited.
    pub fn new() -> (r: Self)
        ensures
            r@ == (KnightView { knightloc: 32, moves: 0, visited: 1u64 << 32 }),
            Self::valid(r@),
    {
        let r = Self { knightloc: 32, moves: 0, visited: 1u64 << 32 };
        proof {
            lemma_one64(32);
            lemma_ops64(0, 0);
            lemma_count_plus_one64(0, 1u64 << 32, 64, 32);
            lemma_count_none64(0, 64);
        }
        r
    }

    /// Whether the square has been visited.
    pub fn visited(&self, loc: isize) -> (r: bool)
        requires
            0 <= loc < 64,
        ensures
            r == has64(self@.visited, loc as int),
    {
        self.visited & (1u64 << (loc as u64)) != 0
    }
}

/// The moves of the first `n` steps start where the knight stands and
/// end on open squares, each with a step of its own.
pub proof fn lemma_step_moves(s: KnightView, n: nat)
    requires
        0 <= s.knightloc < 64,
        n <= 8,
    ensures
        forall|i: int|
            0 <= i < step_moves(s, n).len() ==> {
                let m = #[trigger] step_moves(s, n)[i];
                &&& m.from == s.knightloc
                &&& open_square(s, m.to as int)
                &&& exists|k: int| 0 <= k < n && m.to == s.knightloc + step(k)
            },
        forall|i: int, j: int|
            0 <= i < j < step_moves(s, n).len() ==> (#[trigger] step_moves(s, n)[i]).to
                != (#[trigger] step_moves(s, n)[j]).to,
    decreases n,
{
    if n > 0 {
        lemma_step_moves(s, (n - 1) as nat);
        let all = step_moves(s, n);
        let head = step_moves(s, (n - 1) as nat);
        assert forall|i: int| 0 <= i < all.len() implies {
            let m = #[trigger] all[i];
            &&& m.from == s.knightloc
            &&& open_square(s, m.to as int)
            &&& exists|k: int| 0 <= k < n && m.to == s.knightloc + step(k)
        } by {
            if i < head.len() {
                assert(all[i] == head[i]);
                let k = choose|k: int| 0 <= k < n - 1 && head[i].to == s.knightloc + step(k);
                assert(0 <= k < n && all[i].to == s.knightloc + step(k));
            } else {
                assert(all[i].to == s.knightloc + step(n - 1));
            }
        }
        assert forall|i: int, j: int| 0 <= i < j < all.len() implies (#[trigger] all[i]).to != (
        #[trigger] all[j]).to by {
            assert(all[i] == head[i]);
            if j < head.len() {
                assert(all[j] == head[j]);
            } else {
                let k = choose|k: int| 0 <= k < n - 1 && head[i].to == s.knightloc + step(k);
                assert(all[j].to == s.knightloc + step(n - 1));
            }
        }
    }
}

impl Game for AdversarialKnight {
    type Move = KnightMove;

    /// The knight stands on a square of the board that counts as
    /// visited, and one square more is visited than moves were played.
    open spec fn valid(s: KnightView) -> bool {
        &&& 0 <= s.knightloc < 64
        &&& has64(s.visited, s.knightloc)
        &&& s.moves + 1 == count64(s.visited, 64)
    }

    open spec fn turn_of(s: KnightView) -> int {
        if s.moves % 2 == 0 {
            1
        } else {
            -1
        }
    }

    /// The side to move has lost if the knight cannot move.
    open spec fn score_of(s: KnightView) -> int {
        if Self::moves_of(s).len() == 0 {
            -Self::turn_of(s)
        } else {
            0
        }
    }

    open spec fn over(s: KnightView) -> bool {
        s.moves == 64 || Self::score_of(s) != 0
    }

    /// The steps that the knight can make, in the order of the steps.
    open spec fn moves_of(s: KnightView) -> Seq<KnightMove> {
        step_moves(s, 8)
    }

    open spec fn mover_of(s: KnightView) -> ToMove {
        if s.moves % 2 == 0 {
            ToMove::Max
        } else {
            ToMove::Min
        }
    }

    open spec fn after(s: KnightView, m: KnightMove) -> KnightView {
        KnightView {
            knightloc: m.to as int,
            moves: s.moves + 1,
            visited: s.visited ^ (1u64 << (m.to as u64)),
        }
    }

    open spec fn can_undo(s: KnightView, m: KnightMove) -> bool {
        s.moves >= 1 && 0 <= s.knightloc < 64 && m.from < 64
    }

    open spec fn before(s: KnightView, m: KnightMove) -> KnightView {
        KnightView {
            knightloc: m.from as int,
            moves: (s.moves - 1) as nat,
            visited: s.visited ^ (1u64 << (s.knightloc as u64)),
        }
    }

    proof fn law_make_unmake(s: KnightView, m: KnightMove) {
        lemma_step_moves(s, 8);
        let t = Self::after(s, m);
        let bit = 1u64 << (m.to as u64);
        lemma_one64(m.to as int);
        lemma_ops64(s.visited, bit);
        lemma_ops64(t.visited, bit);
        lemma_count_plus_one64(s.visited, t.visited, 64, m.to as int);
        lemma_same64(t.visited ^ bit, s.visited);
    }

    proof fn law_outcome(s: KnightView) {
    }

    proof fn law_distinct_moves(s: KnightView) {
        lemma_step_moves(s, 8);
    }

    fn turn(&self) -> (r: i8) {
        if self.moves % 2 == 0 {
            1
        } else {
            -1
        }
    }

    fn evaluate(&self) -> (r: i8) {
        let mut buf: Vec<KnightMove> = Vec::with_capacity(8);
        self.generate_moves(&mut buf);
        assert(buf@ =~= Self::moves_of(self@));
        if buf.len() == 0 {
            return -self.turn();
        }
        0
    }

    fn is_terminal(&self) -> (r: bool) {
        self.moves == 64 || self.evaluate() != 0
    }

    fn generate_moves(&self, buffer: &mut Vec<KnightMove>) {
        let knightloc: isize = self.knightloc;
        let ghost s = self@;
        let mut k: usize = 0;
        assert(buffer@ =~= old(buffer)@ + step_moves(s, 0));
        while k < 8
            invariant
                k <= 8,
                s == self@,
                Self::valid(s),
                knightloc == s.knightloc,
                buffer@ == old(buffer)@ + step_moves(s, k as nat),
            decreases 8 - k,
        {
            let newloc: isize = knightloc + knight_step(k);
            if 0 <= newloc && newloc < 64 && !self.visited(newloc) {
                let here: isize = col_of(knightloc);
                let there: isize = col_of(newloc);
                let apart: isize = if here < there {
                    there - here
                } else {
                    here - there
                };
                if apart <= 2 {
                    buffer.push(KnightMove { from: knightloc as usize, to: newloc as usize });
                }
            }
            assert(buffer@ =~= old(buffer)@ + step_moves(s, (k + 1) as nat));
            k += 1;
        }
    }

    fn push(&mut self, m: KnightMove) {
        proof {
            lemma_step_moves(self@, 8);
            Self::law_make_unmake(self@, m);
            lemma_count_bound64(Self::after(self@, m).visited, 64);
        }
        self.knightloc = m.to as isize;
        self.moves += 1;
        self.visited = self.visited ^ (1u64 << (m.to as u64));
    }

    fn pop(&mut self, m: KnightMove) {
        self.visited = self.visited ^ (1u64 << (self.knightloc as u64));
        self.moves -= 1;
        self.knightloc = m.from as isize;
    }

    /// Eight, the number of steps of a knight: no list of moves is
    /// longer.
    fn action_space_size(&self) -> (r: usize)
        ensures
            r == 8,
            Self::moves_of(self@).len() <= r,
    {
        proof {
            lemma_steps_bound(self@, 8);
        }
        8
    }

    fn to_move(&self) -> (r: ToMove) {
        if self.moves % 2 == 0 {
            ToMove::Max
        } else {
            ToMove::Min
        }
    }

    open spec fn text_of(s: Self::V) -> Seq<char> {
        signed_decimal(s.knightloc)
    }

    open spec fn move_text_of(m: Self::Move) -> Seq<char> {
        decimal(m.to as nat)
    }

    fn to_text(&self) -> (r: String) {
        let mut out = String::new();
        if self.knightloc < 0 {
            push_char(&mut out, '-');
            push_decimal(&mut out, (-(self.knightloc as i128)) as u128);
        } else {
            push_decimal(&mut out, self.knightloc as u128);
        }
        assert(out@ =~= signed_decimal(self@.knightloc));
        out
    }

    fn move_text(m: Self::Move) -> (r: String) {
        m.to_text()
    }

    fn duplicate(&self) -> (r: Self) {
        AdversarialKnight { knightloc: self.knightloc, moves: self.moves, visited: self.visited }
    }

    fn same_state(&self, other: &Self) -> (r: bool) {
        self.knightloc == other.knightloc && self.moves == other.moves && self.visited
            == other.visited
    }
}

impl Keyed for AdversarialKnight {
    /// The squares visited.
    open spec fn key_of(s: KnightView) -> u64 {
        s.visited
    }

    fn hashkey(&self) -> (r: u64) {
        self.visited
    }
}

/// With a memo of its own the memoized count is the plain count, at
/// every depth: a position tells how many moves were played.
pub proof fn lemma_counts_agree(s: KnightView, depth: nat)
    requires
        AdversarialKnight::valid(s),
    ensures
        memo_count::<AdversarialKnight>(s, depth, Map::empty()).0 == capped(leaf_count::<AdversarialKnight>(s, depth)),
{
    lemma_memo_agrees::<AdversarialKnight>(
        s,
        depth,
        |t: KnightView| t.moves,
    );
}

/// The first `n` steps give at most `n` moves.
pub proof fn lemma_steps_bound(s: KnightView, n: nat)
    ensures
        step_moves(s, n).len() <= n,
    decreases n,
{
    if n > 0 {
        lemma_steps_bound(s, (n - 1) as nat);
    }
}

} // verus!
