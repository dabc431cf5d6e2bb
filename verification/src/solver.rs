//! Search over the game contract: alpha-beta negamax, its
//! transposition-table variant, expectiminimax, and move selection.

use std::collections::HashMap;
use vstd::prelude::*;
use vstd::string::StringExecFns;
use crate::text::{decimal, push_decimal};
use crate::game::{Game, Keyed, PartiallySolvable, StochasticGame, ToMove, CERTAIN, weight_from};

verus! {

/// The widest score: no search value lies outside `-INF ..= INF`.
pub const INF: i32 = 2147483647;

/// The value of a node at which the search stops: the result seen by the
/// side to move, scaled by the budget that is left, so that a result
/// reached sooner weighs more.
pub open spec fn leaf_value<T: Game>(s: T::V, depth: nat) -> int {
    T::turn_of(s) * T::score_of(s) * depth
}

/// What alpha-beta negamax returns at `s` with `depth` plies of budget
/// and the window `alpha .. beta`.
pub open spec fn negamax_value<T: Game>(s: T::V, depth: nat, alpha: int, beta: int) -> int
    decreases depth, T::moves_of(s).len() + 1,
{
    if depth == 0 || T::over(s) {
        leaf_value::<T>(s, depth)
    } else {
        negamax_scan::<T>(s, depth, alpha, beta, 0)
    }
}

/// The scan of the moves of `s` from the `i`-th on, with `alpha` the best
/// value found so far: the scan stops at the first move that lifts the
/// best value to `beta` or above.
pub open spec fn negamax_scan<T: Game>(s: T::V, depth: nat, alpha: int, beta: int, i: nat) -> int
    decreases depth, T::moves_of(s).len() - i,
{
    if depth == 0 || i >= T::moves_of(s).len() {
        alpha
    } else {
        let child = T::after(s, T::moves_of(s)[i as int]);
        let value = -negamax_value::<T>(child, (depth - 1) as nat, -beta, -alpha);
        let best = if value > alpha { value } else { alpha };
        if best >= beta {
            best
        } else {
            negamax_scan::<T>(s, depth, best, beta, i + 1)
        }
    }
}

/// Alpha-beta negamax. The node is changed in place while the search
/// runs and is restored before it returns.
pub fn negamax<T: Game>(node: &mut T, depth: usize, alpha: i32, beta: i32) -> (r: i32)
    requires
        T::valid(old(node)@),
        depth <= i32::MAX,
        alpha > i32::MIN,
        beta > i32::MIN,
    ensures
        final(node)@ == old(node)@,
        r == negamax_value::<T>(old(node)@, depth as nat, alpha as int, beta as int),
        r >= alpha || r >= -(depth as int),
    decreases depth,
{
    if depth == 0 || node.is_terminal() {
        let side: i8 = node.turn();
        let score: i8 = node.evaluate();
        assert(-1 <= side as int * score as int <= 1) by (nonlinear_arith)
            requires
                side == 1 || side == -1,
                -1 <= score <= 1,
        ;
        let sign: i8 = side * score;
        assert(sign as int * depth as int == leaf_value::<T>(node@, depth as nat)) by (nonlinear_arith)
            requires
                sign as int == T::turn_of(node@) * T::score_of(node@),
        ;
        assert(-(depth as int) <= sign as int * depth as int <= depth as int) by (nonlinear_arith)
            requires
                -1 <= sign <= 1,
        ;
        return (sign as i32) * (depth as i32);
    }
    let mut buffer: Vec<T::Move> = Vec::with_capacity(node.action_space_size());
    node.generate_moves(&mut buffer);
    let ghost s = node@;
    assert(buffer@ =~= T::moves_of(s));
    let mut best: i32 = alpha;
    let mut i: usize = 0;
    while i < buffer.len()
        invariant_except_break
            i <= buffer.len(),
            negamax_scan::<T>(s, depth as nat, best as int, beta as int, i as nat)
                == negamax_scan::<T>(s, depth as nat, alpha as int, beta as int, 0),
        invariant
            node@ == s,
            T::valid(s),
            buffer@ == T::moves_of(s),
            1 <= depth <= i32::MAX,
            beta > i32::MIN,
            best >= alpha > i32::MIN,
        ensures
            best == negamax_scan::<T>(s, depth as nat, alpha as int, beta as int, 0),
        decreases buffer.len() - i,
    {
        let m = buffer[i];
        proof {
            T::law_make_unmake(s, m);
        }
        node.push(m);
        let value: i32 = -negamax(node, depth - 1, -beta, -best);
        node.pop(m);
        if value > best {
            best = value;
        }
        if best >= beta {
            break;
        }
        i += 1;
    }
    best
}

/// The value of `s` under best play of both sides for `depth` plies,
/// seen by the side to move: the leaf value where the search stops, else
/// the largest of the negated values of the children.
pub open spec fn minimax_value<T: Game>(s: T::V, depth: nat) -> int
    decreases depth, T::moves_of(s).len() + 1,
{
    if depth == 0 || T::over(s) {
        leaf_value::<T>(s, depth)
    } else {
        minimax_best::<T>(s, depth, 0, -(INF as int))
    }
}

/// The largest of `best` and the negated values of the children of `s`
/// from the `i`-th on.
pub open spec fn minimax_best<T: Game>(s: T::V, depth: nat, i: nat, best: int) -> int
    decreases depth, T::moves_of(s).len() - i,
{
    if depth == 0 || i >= T::moves_of(s).len() {
        best
    } else {
        let value = -minimax_value::<T>(T::after(s, T::moves_of(s)[i as int]), (depth - 1) as nat);
        minimax_best::<T>(s, depth, i + 1, if value > best { value } else { best })
    }
}

/// `x`, or the end of `lo ..= hi` that is nearer to it.
pub open spec fn clamp(x: int, lo: int, hi: int) -> int {
    if x < lo {
        lo
    } else if x > hi {
        hi
    } else {
        x
    }
}

/// The largest from a higher start is the larger of that start and the
/// largest from a lower start.
pub proof fn lemma_minimax_best_start<T: Game>(s: T::V, depth: nat, i: nat, low: int, high: int)
    requires
        low <= high,
    ensures
        minimax_best::<T>(s, depth, i, low) >= low,
        minimax_best::<T>(s, depth, i, high) == if minimax_best::<T>(s, depth, i, low) > high {
            minimax_best::<T>(s, depth, i, low)
        } else {
            high
        },
    decreases T::moves_of(s).len() - i,
{
    if depth != 0 && i < T::moves_of(s).len() {
        let value = -minimax_value::<T>(T::after(s, T::moves_of(s)[i as int]), (depth - 1) as nat);
        let next_low = if value > low { value } else { low };
        let next_high = if value > high { value } else { high };
        lemma_minimax_best_start::<T>(s, depth, i + 1, next_low, next_high);
    }
}

/// Alpha-beta pruning loses nothing: within the window, the pruned
/// search returns the value under best play; a value under best play at
/// or below the window comes back as one at or below `alpha`, and one at
/// or above as one at or above `beta`.
pub proof fn lemma_alpha_beta<T: Game>(s: T::V, depth: nat, alpha: int, beta: int)
    requires
        -INF <= alpha < beta <= INF,
    ensures
        clamp(negamax_value::<T>(s, depth, alpha, beta), alpha, beta) == clamp(
            minimax_value::<T>(s, depth),
            alpha,
            beta,
        ),
    decreases depth, T::moves_of(s).len() + 1,
{
    if depth != 0 && !T::over(s) {
        lemma_alpha_beta_scan::<T>(s, depth, alpha, beta, 0);
        lemma_minimax_best_start::<T>(s, depth, 0, -(INF as int), alpha);
    }
}

/// The same for the scan of the moves from the `i`-th on, when the best
/// value so far is `alpha`.
pub proof fn lemma_alpha_beta_scan<T: Game>(s: T::V, depth: nat, alpha: int, beta: int, i: nat)
    requires
        depth > 0,
        -INF <= alpha < beta <= INF,
    ensures
        negamax_scan::<T>(s, depth, alpha, beta, i) >= alpha,
        clamp(negamax_scan::<T>(s, depth, alpha, beta, i), alpha, beta) == clamp(
            minimax_best::<T>(s, depth, i, alpha),
            alpha,
            beta,
        ),
    decreases depth, T::moves_of(s).len() - i,
{
    if i < T::moves_of(s).len() {
        let child = T::after(s, T::moves_of(s)[i as int]);
        lemma_alpha_beta::<T>(child, (depth - 1) as nat, -beta, -alpha);
        let pruned = -negamax_value::<T>(child, (depth - 1) as nat, -beta, -alpha);
        let full = -minimax_value::<T>(child, (depth - 1) as nat);
        assert(clamp(pruned, alpha, beta) == clamp(full, alpha, beta));
        let best = if pruned > alpha { pruned } else { alpha };
        let best_full = if full > alpha { full } else { alpha };
        if best >= beta {
            lemma_minimax_best_start::<T>(s, depth, i + 1, best_full, best_full);
        } else {
            assert(best == best_full);
            lemma_alpha_beta_scan::<T>(s, depth, best, beta, i + 1);
            lemma_minimax_best_start::<T>(s, depth, i + 1, best, best);
        }
    }
}

/// Under best play the value of a valid state lies within the budget.
pub proof fn lemma_minimax_range<T: Game>(s: T::V, depth: nat)
    requires
        T::valid(s),
        depth <= INF,
    ensures
        -depth <= minimax_value::<T>(s, depth) <= depth,
    decreases depth, T::moves_of(s).len() + 1,
{
    T::law_outcome(s);
    if depth == 0 || T::over(s) {
        assert(-depth <= T::turn_of(s) * T::score_of(s) * depth <= depth) by (nonlinear_arith)
            requires
                T::turn_of(s) == 1 || T::turn_of(s) == -1,
                -1 <= T::score_of(s) <= 1,
                depth >= 0,
        ;
    } else {
        let first = T::moves_of(s)[0];
        assert(T::moves_of(s).contains(first));
        T::law_make_unmake(s, first);
        lemma_minimax_range::<T>(T::after(s, first), (depth - 1) as nat);
        let value = -minimax_value::<T>(T::after(s, first), (depth - 1) as nat);
        lemma_minimax_best_range::<T>(s, depth, 1, value);
    }
}

/// The same for the largest of a value within the budget and the
/// children from the `i`-th on.
pub proof fn lemma_minimax_best_range<T: Game>(s: T::V, depth: nat, i: nat, best: int)
    requires
        T::valid(s),
        0 < depth <= INF,
        -depth < best < depth,
    ensures
        -depth < minimax_best::<T>(s, depth, i, best) < depth,
    decreases depth, T::moves_of(s).len() - i,
{
    if i < T::moves_of(s).len() {
        let m = T::moves_of(s)[i as int];
        assert(T::moves_of(s).contains(m));
        T::law_make_unmake(s, m);
        lemma_minimax_range::<T>(T::after(s, m), (depth - 1) as nat);
        let value = -minimax_value::<T>(T::after(s, m), (depth - 1) as nat);
        lemma_minimax_best_range::<T>(s, depth, i + 1, if value > best { value } else { best });
    }
}

/// With the full window the pruned search returns the value under best
/// play.
pub proof fn lemma_full_window<T: Game>(s: T::V, depth: nat)
    requires
        T::valid(s),
        depth < INF,
    ensures
        negamax_value::<T>(s, depth, -(INF as int), INF as int) == minimax_value::<T>(s, depth),
{
    lemma_alpha_beta::<T>(s, depth, -(INF as int), INF as int);
    lemma_minimax_range::<T>(s, depth);
    if depth != 0 && !T::over(s) {
        lemma_alpha_beta_scan::<T>(s, depth, -(INF as int), INF as int, 0);
    } else {
        T::law_outcome(s);
        assert(-depth <= T::turn_of(s) * T::score_of(s) * depth <= depth) by (nonlinear_arith)
            requires
                T::turn_of(s) == 1 || T::turn_of(s) == -1,
                -1 <= T::score_of(s) <= 1,
                depth >= 0,
        ;
    }
}

/// How a stored value bounds the true value of a position.
#[derive(Debug, Clone, Copy)]
pub enum TTScore {
    Exact(i32),
    LowerBound(i32),
    UpperBound(i32),
}

/// An entry of the transposition table: the budget the position was
/// searched with, and what was found.
#[derive(Debug, Clone, Copy)]
pub struct TTEntry {
    pub depth: usize,
    pub value: TTScore,
}

/// The entry under `key`, if the table holds one.
pub open spec fn table_hit(table: Map<u64, TTEntry>, key: u64) -> Option<TTEntry> {
    if table.contains_key(key) {
        Some(table[key])
    } else {
        None
    }
}

/// Whether a hit was searched at least as deep as is asked now.
pub open spec fn hit_applies(hit: Option<TTEntry>, depth: nat) -> bool {
    hit is Some && hit->0.depth >= depth
}

/// The lower end of the window after the probe: a lower bound that
/// applies lifts it.
pub open spec fn probed_alpha(hit: Option<TTEntry>, depth: nat, alpha: int) -> int {
    if hit_applies(hit, depth) {
        match hit->0.value {
            TTScore::LowerBound(v) => if v > alpha { v as int } else { alpha },
            _ => alpha,
        }
    } else {
        alpha
    }
}

/// The upper end of the window after the probe: an upper bound that
/// applies lowers it.
pub open spec fn probed_beta(hit: Option<TTEntry>, depth: nat, beta: int) -> int {
    if hit_applies(hit, depth) {
        match hit->0.value {
            TTScore::UpperBound(v) => if v < beta { v as int } else { beta },
            _ => beta,
        }
    } else {
        beta
    }
}

/// The value that the probe alone settles, if it settles one: an exact
/// entry that applies, or a window that the probe has closed.
pub open spec fn probe_answer(hit: Option<TTEntry>, depth: nat, alpha: int, beta: int) -> Option<int> {
    if hit_applies(hit, depth) {
        match hit->0.value {
            TTScore::Exact(v) => Some(v as int),
            _ => if probed_alpha(hit, depth, alpha) >= probed_beta(hit, depth, beta) {
                Some(probed_alpha(hit, depth, alpha))
            } else {
                None
            },
        }
    } else {
        None
    }
}

/// The entry stored for a search that returned `value` from the window
/// `alpha .. beta`: an upper bound if no move lifted `alpha`, a lower
/// bound if the scan was cut off at `beta`, exact in between.
pub open spec fn stored_entry(depth: usize, value: i32, alpha: int, beta: int) -> TTEntry {
    TTEntry {
        depth,
        value: if value <= alpha {
            TTScore::UpperBound(value)
        } else if value >= beta {
            TTScore::LowerBound(value)
        } else {
            TTScore::Exact(value)
        },
    }
}

/// Whether the table-assisted search at `s` expands the node, rather
/// than answer from the leaf or from the probe.
pub open spec fn tt_expands<T: Keyed>(s: T::V, depth: nat, alpha: int, beta: int, table: Map<u64, TTEntry>) -> bool {
    depth != 0 && !T::over(s)
        && probe_answer(table_hit(table, T::key_of(s)), depth, alpha, beta) is None
}

/// What the table-assisted search returns at `s`. Below the node the
/// plain search runs: the table is read and written for `s` alone.
pub open spec fn negamax_tt_value<T: Keyed>(s: T::V, depth: nat, alpha: int, beta: int, table: Map<u64, TTEntry>) -> int {
    let hit = table_hit(table, T::key_of(s));
    if depth == 0 || T::over(s) {
        leaf_value::<T>(s, depth)
    } else if probe_answer(hit, depth, alpha, beta) is Some {
        probe_answer(hit, depth, alpha, beta)->0
    } else {
        negamax_scan::<T>(s, depth, probed_alpha(hit, depth, alpha), probed_beta(hit, depth, beta), 0)
    }
}

/// The table that the table-assisted search leaves: where it expands the
/// node, the entry under the key of `s` is replaced, whatever it held.
pub open spec fn negamax_tt_table<T: Keyed>(s: T::V, depth: usize, alpha: int, beta: int, table: Map<u64, TTEntry>) -> Map<u64, TTEntry> {
    let hit = table_hit(table, T::key_of(s));
    if tt_expands::<T>(s, depth as nat, alpha, beta, table) {
        table.insert(
            T::key_of(s),
            stored_entry(
                depth,
                negamax_tt_value::<T>(s, depth as nat, alpha, beta, table) as i32,
                probed_alpha(hit, depth as nat, alpha),
                probed_beta(hit, depth as nat, beta),
            ),
        )
    } else {
        table
    }
}

/// Alpha-beta negamax with a transposition table keyed by the state's
/// key. The node is restored before the search returns.
pub fn negamax_tt<T: Game + Keyed>(node: &mut T, depth: usize, alpha: i32, beta: i32, tt: &mut HashMap<u64, TTEntry>) -> (r: i32)
    requires
        T::valid(old(node)@),
        depth <= i32::MAX,
        alpha > i32::MIN,
        beta > i32::MIN,
    ensures
        final(node)@ == old(node)@,
        r == negamax_tt_value::<T>(old(node)@, depth as nat, alpha as int, beta as int, old(tt)@),
        final(tt)@ == negamax_tt_table::<T>(old(node)@, depth, alpha as int, beta as int, old(tt)@),
{
    broadcast use vstd::std_specs::hash::group_hash_axioms;
    if depth == 0 || node.is_terminal() {
        let side: i8 = node.turn();
        let score: i8 = node.evaluate();
        assert(-1 <= side as int * score as int <= 1) by (nonlinear_arith)
            requires
                side == 1 || side == -1,
                -1 <= score <= 1,
        ;
        let sign: i8 = side * score;
        assert(sign as int * depth as int == leaf_value::<T>(node@, depth as nat)) by (nonlinear_arith)
            requires
                sign as int == T::turn_of(node@) * T::score_of(node@),
        ;
        assert(-(depth as int) <= sign as int * depth as int <= depth as int) by (nonlinear_arith)
            requires
                -1 <= sign <= 1,
        ;
        return (sign as i32) * (depth as i32);
    }
    let ghost s = node@;
    let ghost hit = table_hit(tt@, T::key_of(s));
    let key: u64 = node.hashkey();
    let mut low: i32 = alpha;
    let mut high: i32 = beta;
    match tt.get(&key) {
        Some(entry) => {
            if entry.depth >= depth {
                match entry.value {
                    TTScore::Exact(v) => {
                        return v;
                    },
                    TTScore::LowerBound(v) => {
                        if v > low {
                            low = v;
                        }
                    },
                    TTScore::UpperBound(v) => {
                        if v < high {
                            high = v;
                        }
                    },
                }
                if low >= high {
                    return low;
                }
            }
        },
        None => {},
    }
    assert(low == probed_alpha(hit, depth as nat, alpha as int));
    assert(high == probed_beta(hit, depth as nat, beta as int));
    assert(high > i32::MIN);
    let mut buffer: Vec<T::Move> = Vec::with_capacity(node.action_space_size());
    node.generate_moves(&mut buffer);
    assert(buffer@ =~= T::moves_of(s));
    let mut best: i32 = low;
    let mut i: usize = 0;
    while i < buffer.len()
        invariant_except_break
            i <= buffer.len(),
            negamax_scan::<T>(s, depth as nat, best as int, high as int, i as nat)
                == negamax_scan::<T>(s, depth as nat, low as int, high as int, 0),
        invariant
            node@ == s,
            T::valid(s),
            buffer@ == T::moves_of(s),
            1 <= depth <= i32::MAX,
            high > i32::MIN,
            best >= low > i32::MIN,
        ensures
            best == negamax_scan::<T>(s, depth as nat, low as int, high as int, 0),
        decreases buffer.len() - i,
    {
        let m = buffer[i];
        proof {
            T::law_make_unmake(s, m);
        }
        node.push(m);
        let value: i32 = -negamax(node, depth - 1, -high, -best);
        node.pop(m);
        if value > best {
            best = value;
        }
        if best >= high {
            break;
        }
        i += 1;
    }
    let bound = if best <= low {
        TTScore::UpperBound(best)
    } else if best >= high {
        TTScore::LowerBound(best)
    } else {
        TTScore::Exact(best)
    };
    tt.insert(key, TTEntry { depth, value: bound });
    best
}

/// A table that holds no entry for the position, or one that was
/// searched less deep than is asked, changes nothing: the search with
/// the table returns what the plain search returns.
pub proof fn lemma_table_transparent<T: Keyed>(s: T::V, depth: nat, alpha: int, beta: int, table: Map<u64, TTEntry>)
    requires
        !hit_applies(table_hit(table, T::key_of(s)), depth),
    ensures
        negamax_tt_value::<T>(s, depth, alpha, beta, table) == negamax_value::<T>(
            s,
            depth,
            alpha,
            beta,
        ),
{
}

/// With a fresh table the search with the table returns what the plain
/// search returns, for every state, depth and window.
pub proof fn lemma_fresh_table_transparent<T: Keyed>(s: T::V, depth: nat, alpha: int, beta: int)
    ensures
        negamax_tt_value::<T>(s, depth, alpha, beta, Map::empty()) == negamax_value::<T>(
            s,
            depth,
            alpha,
            beta,
        ),
{
}

/// `1` at a chance node and `0` elsewhere: a chance node is resolved
/// within the ply that follows it.
pub open spec fn chance_rank<T: Game>(s: T::V) -> nat {
    if T::mover_of(s) == ToMove::Chance {
        1
    } else {
        0
    }
}

/// The quotient of `n` by a positive `d`, rounded toward zero.
pub open spec fn quotient_toward_zero(n: int, d: int) -> int {
    if n >= 0 {
        n / d
    } else {
        -((-n) / d)
    }
}

/// What expectiminimax returns at `s` with `depth` plies of budget: the
/// estimate where the search stops, the largest or smallest value of a
/// child where a player decides, and the expected value of the children
/// at a chance node, which costs no ply.
pub open spec fn expecti_value<T: StochasticGame + PartiallySolvable>(s: T::V, depth: nat) -> int
    decreases depth, chance_rank::<T>(s), T::moves_of(s).len() + T::chances_of(s).len() + 1,
{
    if depth == 0 || T::over(s) {
        T::heuristic_of(s)
    } else {
        match T::mover_of(s) {
            ToMove::Max => expecti_max::<T>(s, depth, 0, -(INF as int)),
            ToMove::Min => expecti_min::<T>(s, depth, 0, INF as int),
            ToMove::Chance => quotient_toward_zero(expecti_sum::<T>(s, depth, 0, 0), CERTAIN as int),
        }
    }
}

/// The largest of `best` and the values of the children of `s` from the
/// `i`-th on.
pub open spec fn expecti_max<T: StochasticGame + PartiallySolvable>(s: T::V, depth: nat, i: nat, best: int) -> int
    decreases depth, chance_rank::<T>(s), T::moves_of(s).len() - i,
{
    if depth == 0 || i >= T::moves_of(s).len() {
        best
    } else {
        let value = expecti_value::<T>(T::after(s, T::moves_of(s)[i as int]), (depth - 1) as nat);
        expecti_max::<T>(s, depth, i + 1, if value > best { value } else { best })
    }
}

/// The smallest of `best` and the values of the children of `s` from the
/// `i`-th on.
pub open spec fn expecti_min<T: StochasticGame + PartiallySolvable>(s: T::V, depth: nat, i: nat, best: int) -> int
    decreases depth, chance_rank::<T>(s), T::moves_of(s).len() - i,
{
    if depth == 0 || i >= T::moves_of(s).len() {
        best
    } else {
        let value = expecti_value::<T>(T::after(s, T::moves_of(s)[i as int]), (depth - 1) as nat);
        expecti_min::<T>(s, depth, i + 1, if value < best { value } else { best })
    }
}

/// `sum` plus, for each outcome of the chance node `s` from the `i`-th
/// on, its value times its probability in millionths.
pub open spec fn expecti_sum<T: StochasticGame + PartiallySolvable>(s: T::V, depth: nat, i: nat, sum: int) -> int
    decreases depth, chance_rank::<T>(s), T::chances_of(s).len() - i,
    when T::valid(s) && T::mover_of(s) == ToMove::Chance
{
    if i >= T::chances_of(s).len() {
        sum
    } else {
        proof {
            T::law_chances(s);
        }
        let value = expecti_value::<T>(T::after(s, T::chances_of(s)[i as int].0), depth);
        expecti_sum::<T>(s, depth, i + 1, sum + value * T::chances_of(s)[i as int].1)
    }
}

/// Depth-limited expectiminimax. A chance node costs no ply: its
/// outcomes are searched with the budget of the node itself. The node is
/// restored before the search returns.
pub fn expectiminimax<T: StochasticGame + PartiallySolvable>(node: &mut T, depth: usize) -> (r: i32)
    requires
        T::valid(old(node)@),
    ensures
        final(node)@ == old(node)@,
        r == expecti_value::<T>(old(node)@, depth as nat),
        r > i32::MIN,
    decreases depth, chance_rank::<T>(old(node)@),
{
    if depth == 0 || node.is_terminal() {
        return node.heuristic();
    }
    let ghost s = node@;
    match node.to_move() {
        ToMove::Max => {
            let mut best: i32 = -INF;
            let mut buffer: Vec<T::Move> = Vec::with_capacity(node.action_space_size());
            node.generate_moves(&mut buffer);
            assert(buffer@ =~= T::moves_of(s));
            let mut i: usize = 0;
            while i < buffer.len()
                invariant
                    node@ == s,
                    T::valid(s),
                    buffer@ == T::moves_of(s),
                    depth >= 1,
                    i <= buffer.len(),
                    best > i32::MIN,
                    expecti_max::<T>(s, depth as nat, i as nat, best as int) == expecti_max::<T>(
                        s,
                        depth as nat,
                        0,
                        -(INF as int),
                    ),
                decreases buffer.len() - i,
            {
                let m = buffer[i];
                proof {
                    T::law_make_unmake(s, m);
                }
                node.push(m);
                let value: i32 = expectiminimax(node, depth - 1);
                node.pop(m);
                if value > best {
                    best = value;
                }
                i += 1;
            }
            best
        },
        ToMove::Min => {
            let mut best: i32 = INF;
            let mut buffer: Vec<T::Move> = Vec::with_capacity(node.action_space_size());
            node.generate_moves(&mut buffer);
            assert(buffer@ =~= T::moves_of(s));
            let mut i: usize = 0;
            while i < buffer.len()
                invariant
                    node@ == s,
                    T::valid(s),
                    buffer@ == T::moves_of(s),
                    depth >= 1,
                    i <= buffer.len(),
                    best > i32::MIN,
                    expecti_min::<T>(s, depth as nat, i as nat, best as int) == expecti_min::<T>(
                        s,
                        depth as nat,
                        0,
                        INF as int,
                    ),
                decreases buffer.len() - i,
            {
                let m = buffer[i];
                proof {
                    T::law_make_unmake(s, m);
                }
                node.push(m);
                let value: i32 = expectiminimax(node, depth - 1);
                node.pop(m);
                if value < best {
                    best = value;
                }
                i += 1;
            }
            best
        },
        ToMove::Chance => {
            let mut sum: i64 = 0;
            let mut buffer: Vec<(T::Move, u32)> = Vec::with_capacity(node.action_space_size());
            node.generate_legal_moves_with_probabilities(&mut buffer);
            assert(buffer@ =~= T::chances_of(s));
            proof {
                T::law_chances(s);
            }
            let ghost mut done: nat = 0;
            let mut i: usize = 0;
            while i < buffer.len()
                invariant
                    node@ == s,
                    s == old(node)@,
                    T::valid(s),
                    T::mover_of(s) == ToMove::Chance,
                    buffer@ == T::chances_of(s),
                    i <= buffer.len(),
                    done + weight_from(buffer@, i as nat) == CERTAIN,
                    -2147483647 * done <= sum <= 2147483647 * done,
                    expecti_sum::<T>(s, depth as nat, i as nat, sum as int) == expecti_sum::<T>(
                        s,
                        depth as nat,
                        0,
                        0,
                    ),
                decreases buffer.len() - i,
            {
                let (m, weight) = buffer[i];
                proof {
                    T::law_chances(s);
                    assert(T::chances_of(s)[i as int].0 == T::moves_of(s)[i as int]);
                    T::law_make_unmake(s, m);
                    assert(T::mover_of(T::after(s, m)) != ToMove::Chance);
                    assert(weight_from(buffer@, i as nat) == weight + weight_from(
                        buffer@,
                        (i + 1) as nat,
                    ));
                }
                node.push(m);
                let value: i32 = expectiminimax(node, depth);
                node.pop(m);
                proof {
                    let term = value as int * weight as int;
                    assert(-2147483647 * weight <= term <= 2147483647 * weight) by (nonlinear_arith)
                        requires
                            term == value as int * weight as int,
                            -2147483647 <= value as int <= 2147483647,
                            0 <= weight,
                    ;
                    done = done + weight as nat;
                }
                sum = sum + (value as i64) * (weight as i64);
                i += 1;
            }
            let mean: i64 = sum / (CERTAIN as i64);
            assert(mean == quotient_toward_zero(sum as int, CERTAIN as int));
            assert(-2147483647 <= mean <= 2147483647) by {
                assert(done <= 1_000_000);
                assert(-2147483647000000 <= sum <= 2147483647000000);
            }
            mean as i32
        },
    }
}

/// The budget of an exact solve, in plies. It must exceed the length of
/// the longest game, or the distances that `solve` reports mean nothing.
pub const SEARCH_BUDGET: usize = 1000;

/// A depth-scaled score seen by the first player, turned into plies until
/// the game is decided: positive if the first player wins, negative if
/// the second does, `0` for a draw.
pub open spec fn plies_to_result(value: int) -> int {
    if value > 0 {
        SEARCH_BUDGET - value
    } else if value < 0 {
        -(SEARCH_BUDGET + value)
    } else {
        0
    }
}

/// The result of the game from `s` under best play, as `solve` reports it.
pub open spec fn solve_value<G: Game>(s: G::V) -> int {
    plies_to_result(minimax_value::<G>(s, SEARCH_BUDGET as nat) * G::turn_of(s))
}

/// Solves the game from the given state with the full window.
pub fn solve<G: Game + Keyed>(game: G) -> (r: i32)
    requires
        G::valid(game@),
    ensures
        r == solve_value::<G>(game@),
{
    let mut game = game;
    proof {
        lemma_full_window::<G>(game@, SEARCH_BUDGET as nat);
    }
    let raw: i32 = negamax(&mut game, SEARCH_BUDGET, -INF, INF);
    let side: i8 = game.turn();
    let value: i32 = if side == 1 {
        raw
    } else {
        -raw
    };
    assert(value == raw * side);
    if value > 0 {
        SEARCH_BUDGET as i32 - value
    } else if value < 0 {
        -(SEARCH_BUDGET as i32 + value)
    } else {
        0
    }
}

/// The text of a solved score.
pub open spec fn eval_text(solution: int) -> Seq<char> {
    if solution == 0 {
        "Draw"@
    } else if solution > 0 {
        "X wins in "@ + decimal(solution as nat) + " moves"@
    } else {
        "O wins in "@ + decimal((-solution) as nat) + " moves"@
    }
}

/// Words for a score that `solve` returned.
pub fn eval_to_string(solution: i32) -> (r: String)
    ensures
        r@ == eval_text(solution as int),
{
    if solution == 0 {
        String::from_str("Draw")
    } else if solution > 0 {
        let mut out = String::from_str("X wins in ");
        push_decimal(&mut out, solution as u128);
        out.append(" moves");
        out
    } else {
        let mut out = String::from_str("O wins in ");
        push_decimal(&mut out, (-(solution as i64)) as u128);
        out.append(" moves");
        out
    }
}

/// The index of the first largest key; `0` if there is no key.
pub open spec fn first_max_index(keys: Seq<int>) -> int
    decreases keys.len(),
{
    if keys.len() <= 1 {
        0
    } else {
        let earlier = first_max_index(keys.drop_last());
        if keys.last() > keys[earlier] {
            keys.len() - 1
        } else {
            earlier
        }
    }
}

/// The index that `first_max_index` gives holds a largest key, and every
/// key before it is smaller.
pub proof fn lemma_first_max_index(keys: Seq<int>)
    requires
        keys.len() > 0,
    ensures
        0 <= first_max_index(keys) < keys.len(),
        forall|j: int| 0 <= j < keys.len() ==> #[trigger] keys[j] <= keys[first_max_index(keys)],
        forall|j: int|
            0 <= j < first_max_index(keys) ==> #[trigger] keys[j] < keys[first_max_index(keys)],
    decreases keys.len(),
{
    if keys.len() > 1 {
        let init = keys.drop_last();
        lemma_first_max_index(init);
        let earlier = first_max_index(init);
        let k = first_max_index(keys);
        assert(init[earlier] == keys[earlier]);
        assert forall|j: int| 0 <= j < keys.len() implies #[trigger] keys[j] <= keys[k] by {
            if j < keys.len() - 1 {
                assert(init[j] == keys[j]);
            }
        }
        assert forall|j: int| 0 <= j < k implies #[trigger] keys[j] < keys[k] by {
            assert(init[j] == keys[j]);
        }
    }
}

/// What the side to move gets if it plays `m` at `s`: the negated value
/// under best play of the position that follows.
pub open spec fn reply_value<G: Game>(s: G::V, m: G::Move) -> int {
    -minimax_value::<G>(G::after(s, m), SEARCH_BUDGET as nat)
}

/// The values of the moves of `s`, in the order of generation.
pub open spec fn reply_values<G: Game>(s: G::V) -> Seq<int> {
    Seq::new(G::moves_of(s).len(), |i: int| reply_value::<G>(s, G::moves_of(s)[i]))
}

/// The move that `best_move` picks at `s`: the first of the moves with
/// the largest value.
pub open spec fn best_reply<G: Game>(s: G::V) -> G::Move {
    G::moves_of(s)[first_max_index(reply_values::<G>(s))]
}

/// The best move at the given state: each move is searched to the full
/// budget, and of several best moves the one generated first is chosen.
pub fn best_move<G: Game>(game: G) -> (r: G::Move)
    requires
        G::valid(game@),
        G::moves_of(game@).len() > 0,
    ensures
        r == best_reply::<G>(game@),
{
    let mut game = game;
    let ghost s = game@;
    let mut moves: Vec<G::Move> = Vec::with_capacity(27);
    game.generate_moves(&mut moves);
    assert(moves@ =~= G::moves_of(s));
    let ghost keys = reply_values::<G>(s);
    let mut best: usize = 0;
    let mut best_key: i32 = 0;
    let mut i: usize = 0;
    while i < moves.len()
        invariant
            game@ == s,
            G::valid(s),
            moves@ == G::moves_of(s),
            keys == reply_values::<G>(s),
            i <= moves.len(),
            best as int == first_max_index(keys.take(i as int)),
            i > 0 ==> best < i && best_key == keys[best as int],
        decreases moves.len() - i,
    {
        let m = moves[i];
        proof {
            G::law_make_unmake(s, m);
            lemma_full_window::<G>(G::after(s, m), SEARCH_BUDGET as nat);
        }
        game.push(m);
        let key: i32 = -negamax(&mut game, SEARCH_BUDGET, -INF, INF);
        game.pop(m);
        assert(key == keys[i as int]);
        proof {
            let now = keys.take(i + 1);
            assert(now.drop_last() =~= keys.take(i as int));
            assert(now.last() == keys[i as int]);
            if i > 0 {
                assert(now[best as int] == keys[best as int]);
            }
        }
        if i == 0 || key > best_key {
            best = i;
            best_key = key;
        }
        i += 1;
    }
    assert(keys.take(moves.len() as int) =~= keys);
    moves[best]
}

/// The budget, in plies, with which `expecti_best_move` searches each
/// move.
pub const EXPECTI_DEPTH: usize = 5;

/// Calls `rand::random::<i32>()`, which draws a number from the
/// generator of the running thread. Nothing is claimed of the number.
#[verifier::external_body]
fn random_i32() -> (r: i32) {
    rand::random::<i32>()
}

/// The key by which a move is ranked when `who` decides at the root and
/// the position after the move is worth `value`: the value as the one
/// who decides sees it, or, should the root be a chance node, the size of
/// a tiebreak.
pub open spec fn selection_key_of(who: ToMove, value: int, tiebreak: int) -> int {
    match who {
        ToMove::Max => value,
        ToMove::Min => -value,
        ToMove::Chance => if tiebreak == i32::MIN {
            INF as int
        } else if tiebreak < 0 {
            -tiebreak
        } else {
            tiebreak
        },
    }
}

/// Computes the key by which a move is ranked.
pub fn selection_key(who: ToMove, value: i32, tiebreak: i32) -> (r: i32)
    requires
        value > i32::MIN,
    ensures
        r == selection_key_of(who, value as int, tiebreak as int),
{
    match who {
        ToMove::Max => value,
        ToMove::Min => -value,
        ToMove::Chance => if tiebreak == i32::MIN {
            INF
        } else if tiebreak < 0 {
            -tiebreak
        } else {
            tiebreak
        },
    }
}

/// The keys of the moves of `s`, in the order of generation, when the
/// `i`-th move has the tiebreak `ties[i]`.
pub open spec fn expecti_keys<G: StochasticGame + PartiallySolvable>(s: G::V, ties: Seq<int>) -> Seq<int> {
    Seq::new(
        G::moves_of(s).len(),
        |i: int|
            selection_key_of(
                G::mover_of(s),
                expecti_value::<G>(G::after(s, G::moves_of(s)[i]), EXPECTI_DEPTH as nat),
                ties[i],
            ),
    )
}

/// The move chosen at `s` under the given tiebreaks: the first of the
/// moves with the largest key.
pub open spec fn expecti_choice<G: StochasticGame + PartiallySolvable>(s: G::V, ties: Seq<int>) -> G::Move {
    G::moves_of(s)[first_max_index(expecti_keys::<G>(s, ties))]
}

/// Tiebreaks that are all zero, one for each move of `s`.
pub open spec fn no_ties<G: Game>(s: G::V) -> Seq<int> {
    Seq::new(G::moves_of(s).len(), |i: int| 0int)
}

/// The move with the best expectiminimax value for the one who decides
/// at the given state. At a chance node, where nobody decides, the moves
/// are ranked by random tiebreaks instead.
pub fn expecti_best_move<G: StochasticGame + PartiallySolvable>(game: G) -> (r: G::Move)
    requires
        G::valid(game@),
        G::moves_of(game@).len() > 0,
    ensures
        G::mover_of(game@) != ToMove::Chance ==> r == expecti_choice::<G>(game@, no_ties::<G>(game@)),
        exists|ties: Seq<int>|
            ties.len() == G::moves_of(game@).len() && r == #[trigger] expecti_choice::<G>(game@, ties),
{
    let mut game = game;
    let ghost s = game@;
    let mut moves: Vec<G::Move> = Vec::with_capacity(27);
    game.generate_moves(&mut moves);
    assert(moves@ =~= G::moves_of(s));
    let ghost mut ties: Seq<int> = Seq::empty();
    let mut best: usize = 0;
    let mut best_key: i32 = 0;
    let mut i: usize = 0;
    while i < moves.len()
        invariant
            game@ == s,
            G::valid(s),
            moves@ == G::moves_of(s),
            i <= moves.len(),
            ties.len() == i,
            G::mover_of(s) != ToMove::Chance ==> ties == no_ties::<G>(s).take(i as int),
            best as int == first_max_index(
                Seq::new(i as nat, |j: int| expecti_keys::<G>(s, ties)[j]),
            ),
            i > 0 ==> best < i && best_key == expecti_keys::<G>(s, ties)[best as int],
        decreases moves.len() - i,
    {
        let m = moves[i];
        proof {
            G::law_make_unmake(s, m);
        }
        game.push(m);
        let value: i32 = expectiminimax(&mut game, EXPECTI_DEPTH);
        game.pop(m);
        let who = game.to_move();
        let tiebreak: i32 = match who {
            ToMove::Chance => random_i32(),
            _ => 0,
        };
        let key: i32 = selection_key(who, value, tiebreak);
        proof {
            let before = Seq::new(i as nat, |j: int| expecti_keys::<G>(s, ties)[j]);
            let grown = ties.push(tiebreak as int);
            let now = Seq::new((i + 1) as nat, |j: int| expecti_keys::<G>(s, grown)[j]);
            assert(grown[i as int] == tiebreak);
            assert(now.drop_last() =~= before);
            assert(now.last() == key);
            if G::mover_of(s) != ToMove::Chance {
                assert(grown =~= no_ties::<G>(s).take(i + 1));
            }
            ties = grown;
        }
        if i == 0 || key > best_key {
            best = i;
            best_key = key;
        }
        i += 1;
    }
    proof {
        assert(Seq::new(i as nat, |j: int| expecti_keys::<G>(s, ties)[j]) =~= expecti_keys::<G>(
            s,
            ties,
        ));
        if G::mover_of(s) != ToMove::Chance {
            assert(no_ties::<G>(s).take(i as int) =~= no_ties::<G>(s));
        }
        assert(moves[best as int] == expecti_choice::<G>(s, ties));
    }
    moves[best]
}

/// The state that is reached from `s` by playing the moves of `line`.
pub open spec fn state_after<G: Game>(s: G::V, line: Seq<G::Move>) -> G::V
    decreases line.len(),
{
    if line.len() == 0 {
        s
    } else {
        G::after(state_after::<G>(s, line.drop_last()), line.last())
    }
}

/// The line of best moves from `s`: it ends where the game is over, or
/// after `limit` moves.
pub open spec fn line_from<G: Game>(s: G::V, limit: nat) -> Seq<G::Move>
    decreases limit,
{
    if limit == 0 || G::over(s) {
        Seq::empty()
    } else {
        seq![best_reply::<G>(s)] + line_from::<G>(G::after(s, best_reply::<G>(s)), (limit - 1) as nat)
    }
}

/// The line that best play follows from the given state until the game
/// is over. No line is longer than a vector can be.
pub fn principal_variation<G: Game>(game: G) -> (r: Vec<G::Move>)
    requires
        G::valid(game@),
    ensures
        r@ == line_from::<G>(game@, usize::MAX as nat),
        r.len() == usize::MAX || G::over(state_after::<G>(game@, r@)),
{
    let mut game = game;
    let ghost start = game@;
    let mut out: Vec<G::Move> = Vec::new();
    while out.len() < usize::MAX && !game.is_terminal()
        invariant
            G::valid(game@),
            game@ == state_after::<G>(start, out@),
            out@ + line_from::<G>(game@, (usize::MAX - out.len()) as nat) == line_from::<G>(
                start,
                usize::MAX as nat,
            ),
        decreases usize::MAX - out.len(),
    {
        let ghost s = game@;
        let ghost sofar = out@;
        proof {
            G::law_outcome(s);
            lemma_first_max_index(reply_values::<G>(s));
        }
        let m = best_move(game.duplicate());
        game.push(m);
        out.push(m);
        assert(out@.drop_last() =~= sofar);
        assert(out@ + line_from::<G>(game@, (usize::MAX - out.len()) as nat) =~= sofar
            + line_from::<G>(s, (usize::MAX - sofar.len()) as nat));
    }
    assert(out@ + Seq::<G::Move>::empty() =~= out@);
    out
}

/// Whether each move of `line` is played in a state that is not over and
/// is the move chosen there, under some tiebreaks.
pub open spec fn expecti_steps<G: StochasticGame + PartiallySolvable>(s: G::V, line: Seq<G::Move>) -> bool {
    forall|k: int|
        0 <= k < line.len() ==> {
            let at = #[trigger] state_after::<G>(s, line.take(k));
            &&& !G::over(at)
            &&& G::mover_of(at) != ToMove::Chance ==> line[k] == expecti_choice::<G>(at, no_ties::<G>(at))
            &&& exists|ties: Seq<int>|
                ties.len() == G::moves_of(at).len() && line[k] == #[trigger] expecti_choice::<G>(
                    at,
                    ties,
                )
        }
}

/// The line that play follows from the given state until the game is
/// over, when each move is chosen as `expecti_best_move` chooses. No
/// line is longer than a vector can be.
pub fn expecti_principal_variation<G: StochasticGame + PartiallySolvable>(game: G) -> (r: Vec<G::Move>)
    requires
        G::valid(game@),
    ensures
        expecti_steps::<G>(game@, r@),
        r.len() == usize::MAX || G::over(state_after::<G>(game@, r@)),
{
    let mut game = game;
    let ghost start = game@;
    let mut out: Vec<G::Move> = Vec::new();
    while out.len() < usize::MAX && !game.is_terminal()
        invariant
            G::valid(game@),
            game@ == state_after::<G>(start, out@),
            expecti_steps::<G>(start, out@),
        decreases usize::MAX - out.len(),
    {
        let ghost s = game@;
        let ghost sofar = out@;
        proof {
            G::law_outcome(s);
        }
        let m = expecti_best_move(game.duplicate());
        proof {
            let ties = choose|ties: Seq<int>|
                ties.len() == G::moves_of(s).len() && m == #[trigger] expecti_choice::<G>(s, ties);
            lemma_first_max_index(expecti_keys::<G>(s, ties));
        }
        game.push(m);
        out.push(m);
        proof {
            assert(out@.drop_last() =~= sofar);
            assert forall|k: int| 0 <= k < out@.len() implies {
                let at = #[trigger] state_after::<G>(start, out@.take(k));
                &&& !G::over(at)
                &&& G::mover_of(at) != ToMove::Chance ==> out@[k] == expecti_choice::<G>(
                    at,
                    no_ties::<G>(at),
                )
                &&& exists|ties: Seq<int>|
                    ties.len() == G::moves_of(at).len() && out@[k] == #[trigger] expecti_choice::<G>(
                        at,
                        ties,
                    )
            } by {
                if k < sofar.len() {
                    assert(out@.take(k) =~= sofar.take(k));
                    assert(out@[k] == sofar[k]);
                } else {
                    assert(out@.take(k) =~= sofar);
                }
            }
        }
    }
    out
}

} // verus!
