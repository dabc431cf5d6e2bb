//! The contract between a game and the search routines.
//!
//! A game state is seen by the proofs through its view, an abstract state
//! `Self::V`. Every rule of the game is a specification function over that
//! abstract state, and every executable method is tied to one of them.

use vstd::prelude::*;
use vstd::string::StringExecFns;

verus! {

/// Who decides at a node: the maximizing player, the minimizing player,
/// or chance.
#[derive(Debug, Clone, Copy, PartialEq, Eq, Hash, Structural)]
pub enum ToMove {
    Max,
    Min,
    Chance,
}

/// A two-player zero-sum game whose states are changed in place by
/// `push` and restored by `pop`.
pub trait Game: Sized + View {
    /// A move of this game: enough to apply it and to take it back.
    type Move: Copy;

    /// The invariant of the abstract states that play can reach.
    spec fn valid(s: Self::V) -> bool;

    /// `1` or `-1`: the side whose perspective a positive score takes.
    spec fn turn_of(s: Self::V) -> int;

    /// The result at `s`: `1`, `-1`, or `0` while undecided or drawn.
    spec fn score_of(s: Self::V) -> int;

    /// Whether the game has ended at `s`.
    spec fn over(s: Self::V) -> bool;

    /// The legal moves at `s`, in the order in which they are generated.
    spec fn moves_of(s: Self::V) -> Seq<Self::Move>;

    /// Which kind of node `s` is.
    spec fn mover_of(s: Self::V) -> ToMove;

    /// The state that follows `s` when `m` is played.
    spec fn after(s: Self::V, m: Self::Move) -> Self::V;

    /// Whether `m` can be taken back at `s`.
    spec fn can_undo(s: Self::V, m: Self::Move) -> bool;

    /// The state that `s` came from if `m` was the last move played.
    spec fn before(s: Self::V, m: Self::Move) -> Self::V;

    /// The picture of `s`.
    spec fn text_of(s: Self::V) -> Seq<char>;

    /// The name of the move `m`.
    spec fn move_text_of(m: Self::Move) -> Seq<char>;

    /// Making a legal move keeps the state valid, and taking the same move
    /// back restores the state it was made in.
    proof fn law_make_unmake(s: Self::V, m: Self::Move)
        requires
            Self::valid(s),
            Self::moves_of(s).contains(m),
        ensures
            Self::valid(Self::after(s, m)),
            Self::can_undo(Self::after(s, m), m),
            Self::before(Self::after(s, m), m) == s,
    ;

    /// The turn is `1` or `-1` and the score `1`, `-1` or `0`; a decided
    /// state is over, and a state that is not over has a move.
    proof fn law_outcome(s: Self::V)
        requires
            Self::valid(s),
        ensures
            Self::turn_of(s) == 1 || Self::turn_of(s) == -1,
            -1 <= Self::score_of(s) <= 1,
            Self::score_of(s) != 0 ==> Self::over(s),
            !Self::over(s) ==> Self::moves_of(s).len() > 0,
    ;

    /// No move is generated twice.
    proof fn law_distinct_moves(s: Self::V)
        requires
            Self::valid(s),
        ensures
            Self::moves_of(s).no_duplicates(),
    ;

    /// The side to move: `1` for the first side, `-1` for the second.
    fn turn(&self) -> (r: i8)
        requires
            Self::valid(self@),
        ensures
            r == Self::turn_of(self@),
            r == 1 || r == -1,
    ;

    /// The result: `1` if the first side has won, `-1` if the second
    /// has, `0` otherwise.
    fn evaluate(&self) -> (r: i8)
        requires
            Self::valid(self@),
        ensures
            r == Self::score_of(self@),
            -1 <= r <= 1,
    ;

    /// Whether the game has ended.
    fn is_terminal(&self) -> (r: bool)
        requires
            Self::valid(self@),
        ensures
            r == Self::over(self@),
    ;

    /// Appends the legal moves to `buffer`, which keeps what it held.
    fn generate_moves(&self, buffer: &mut Vec<Self::Move>)
        requires
            Self::valid(self@),
        ensures
            final(buffer)@ == old(buffer)@ + Self::moves_of(self@),
    ;

    /// Makes the move `m`, which must be legal.
    fn push(&mut self, m: Self::Move)
        requires
            Self::valid(old(self)@),
            Self::moves_of(old(self)@).contains(m),
        ensures
            final(self)@ == Self::after(old(self)@, m),
            Self::valid(final(self)@),
    ;

    /// Takes back `m`, which must be the move pushed last and not yet
    /// popped.
    fn pop(&mut self, m: Self::Move)
        requires
            Self::valid(old(self)@),
            Self::can_undo(old(self)@, m),
        ensures
            final(self)@ == Self::before(old(self)@, m),
    ;

    /// A hint for the capacity of move buffers.
    fn action_space_size(&self) -> usize;

    /// Who decides at this state.
    fn to_move(&self) -> (r: ToMove)
        requires
            Self::valid(self@),
        ensures
            r == Self::mover_of(self@),
    ;

    /// The picture of the state.
    fn to_text(&self) -> (r: String)
        ensures
            r@ == Self::text_of(self@),
    ;

    /// The name of a move.
    fn move_text(m: Self::Move) -> (r: String)
        ensures
            r@ == Self::move_text_of(m),
    ;

    /// An independent copy of the state.
    fn duplicate(&self) -> (r: Self)
        ensures
            r@ == self@,
    ;

    /// Whether two states are the same position.
    fn same_state(&self, other: &Self) -> (r: bool)
        ensures
            r == (self@ == other@),
    ;
}

/// A game whose states map to a 64-bit key for transposition tables.
pub trait Keyed: Game {
    /// The key of `s`; different states may share one.
    spec fn key_of(s: Self::V) -> u64;

    /// The key of the state.
    fn hashkey(&self) -> (r: u64)
        requires
            Self::valid(self@),
        ensures
            r == Self::key_of(self@),
    ;
}

/// The probability of a certain event: probabilities are counted in
/// millionths.
pub const CERTAIN: u32 = 1_000_000;

/// The sum of the probabilities of a distribution from its `i`-th pair on.
pub open spec fn weight_from<M>(dist: Seq<(M, u32)>, i: nat) -> nat
    decreases dist.len() - i,
{
    if i >= dist.len() {
        0
    } else {
        dist[i as int].1 as nat + weight_from(dist, i + 1)
    }
}

/// A game with chance nodes: at such a node the next move is drawn from a
/// known distribution.
pub trait StochasticGame: Game {
    /// The distribution at the chance node `s`: every legal move, in the
    /// order of generation, with its probability in millionths.
    spec fn chances_of(s: Self::V) -> Seq<(Self::Move, u32)>;

    /// At a chance node the distribution runs over exactly the legal moves,
    /// its probabilities sum to one, and every outcome leads to a node at
    /// which a player decides.
    proof fn law_chances(s: Self::V)
        requires
            Self::valid(s),
            Self::mover_of(s) == ToMove::Chance,
        ensures
            Self::chances_of(s).len() == Self::moves_of(s).len(),
            forall|i: int|
                0 <= i < Self::chances_of(s).len() ==> (#[trigger] Self::chances_of(s)[i]).0
                    == Self::moves_of(s)[i],
            weight_from(Self::chances_of(s), 0) == CERTAIN,
            forall|i: int|
                0 <= i < Self::moves_of(s).len() ==> Self::mover_of(
                    Self::after(s, #[trigger] Self::moves_of(s)[i]),
                ) != ToMove::Chance,
    ;

    /// Appends the distribution to `buffer`. Only a chance node has one.
    fn generate_legal_moves_with_probabilities(&self, buffer: &mut Vec<(Self::Move, u32)>)
        requires
            Self::valid(self@),
            Self::mover_of(self@) == ToMove::Chance,
        ensures
            final(buffer)@ == old(buffer)@ + Self::chances_of(self@),
    ;
}

/// A game with an estimate for positions that a search cannot resolve.
pub trait PartiallySolvable: Game {
    /// The estimate at `s`, from the first player's point of view.
    spec fn heuristic_of(s: Self::V) -> int;

    /// A decided position outranks every position still in play.
    proof fn law_dominance(s: Self::V, t: Self::V)
        requires
            Self::valid(s),
            Self::valid(t),
            Self::score_of(s) != 0,
            !Self::over(t),
        ensures
            vstd::math::abs(Self::heuristic_of(s)) > vstd::math::abs(Self::heuristic_of(t)),
            (Self::heuristic_of(s) > 0) == (Self::score_of(s) > 0),
    ;

    /// The estimate at this state.
    fn heuristic(&self) -> (r: i32)
        requires
            Self::valid(self@),
        ensures
            r == Self::heuristic_of(self@),
            r > i32::MIN,
    ;
}

/// The words for the result of a game: the score of the first side and
/// of the second, or that the game goes on.
pub open spec fn outcome_text(over: bool, score: int) -> Seq<char> {
    if !over {
        "nonterminal state."@
    } else if score == 0 {
        "1/2-1/2"@
    } else if score == 1 {
        "1-0"@
    } else {
        "0-1"@
    }
}

/// The result of the game at the given state, in words.
pub fn outcome_label<G: Game>(game: &G) -> (r: String)
    requires
        G::valid(game@),
    ensures
        r@ == outcome_text(G::over(game@), G::score_of(game@)),
{
    if !game.is_terminal() {
        return String::from_str("nonterminal state.");
    }
    let eval: i8 = game.evaluate();
    if eval == 0 {
        String::from_str("1/2-1/2")
    } else if eval == 1 {
        String::from_str("1-0")
    } else {
        String::from_str("0-1")
    }
}

/// The first of the moves from the `i`-th on whose name is `token`.
pub open spec fn first_named<G: Game>(moves: Seq<G::Move>, token: Seq<char>, i: nat) -> Option<G::Move>
    decreases moves.len() - i,
{
    if i >= moves.len() {
        None
    } else if G::move_text_of(moves[i as int]) == token {
        Some(moves[i as int])
    } else {
        first_named::<G>(moves, token, i + 1)
    }
}

/// The legal move of the given name: the first one, should several
/// moves share the name; `None` if no legal move has it.
pub fn find_move<G: Game>(game: &G, token: &str) -> (r: Option<G::Move>)
    requires
        G::valid(game@),
    ensures
        r == first_named::<G>(G::moves_of(game@), token@, 0),
{
    let mut moves: Vec<G::Move> = Vec::new();
    game.generate_moves(&mut moves);
    assert(moves@ =~= G::moves_of(game@));
    let wanted = String::from_str(token);
    let mut i: usize = 0;
    while i < moves.len()
        invariant
            i <= moves.len(),
            moves@ == G::moves_of(game@),
            wanted@ == token@,
            first_named::<G>(moves@, token@, i as nat) == first_named::<G>(moves@, token@, 0),
        decreases moves.len() - i,
    {
        let name = G::move_text(moves[i]);
        if name == wanted {
            return Some(moves[i]);
        }
        i += 1;
    }
    None
}

} // verus!
