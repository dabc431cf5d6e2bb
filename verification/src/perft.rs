//! Exhaustive leaf counting, plain and with a memo of counted positions.

use std::collections::HashMap;
use vstd::prelude::*;
use crate::game::{Game, Keyed};

verus! {

/// The number of leaves of the tree of play below `s`, cut off after
/// `depth` plies: a state at which the game is over is one leaf, and at
/// the last ply each move is one.
pub open spec fn leaf_count<G: Game>(s: G::V, depth: nat) -> nat
    decreases depth, G::moves_of(s).len() + 1,
{
    if G::over(s) {
        1
    } else if depth == 1 {
        G::moves_of(s).len()
    } else {
        leaf_count_from::<G>(s, depth, 0)
    }
}

/// The leaves below the moves of `s` from the `i`-th on.
pub open spec fn leaf_count_from<G: Game>(s: G::V, depth: nat, i: nat) -> nat
    decreases depth, G::moves_of(s).len() - i,
{
    if depth == 0 || i >= G::moves_of(s).len() {
        0
    } else {
        leaf_count::<G>(G::after(s, G::moves_of(s)[i as int]), (depth - 1) as nat)
            + leaf_count_from::<G>(s, depth, i + 1)
    }
}

/// A count as a `u64` holds it: counts beyond `u64::MAX` stay there.
pub open spec fn capped(n: nat) -> u64 {
    if n > u64::MAX {
        u64::MAX
    } else {
        n as u64
    }
}

/// The sum of two counts as a `u64` holds it.
fn add_capped(a: u64, b: u64) -> (r: u64)
    ensures
        r == capped((a + b) as nat),
{
    if b > u64::MAX - a {
        u64::MAX
    } else {
        a + b
    }
}

/// Counts the leaves below the given state. The state is restored
/// before the count returns. Without a ply of budget only a state that
/// has no move can be counted.
pub fn perft<G: Game>(board: &mut G, depth: u8) -> (r: u64)
    requires
        G::valid(old(board)@),
        depth >= 1 || G::over(old(board)@) || G::moves_of(old(board)@).len() == 0,
    ensures
        final(board)@ == old(board)@,
        r == capped(leaf_count::<G>(old(board)@, depth as nat)),
    decreases depth,
{
    if board.is_terminal() {
        return 1;
    }
    let mut moves: Vec<G::Move> = Vec::with_capacity(27);
    board.generate_moves(&mut moves);
    let ghost s = board@;
    assert(moves@ =~= G::moves_of(s));
    if depth == 1 {
        return moves.len() as u64;
    }
    let mut nodes: u64 = 0;
    let ghost mut total: nat = 0;
    let mut i: usize = 0;
    while i < moves.len()
        invariant
            board@ == s,
            G::valid(s),
            moves@ == G::moves_of(s),
            depth >= 2 || moves.len() == 0,
            i <= moves.len(),
            nodes == capped(total),
            total + leaf_count_from::<G>(s, depth as nat, i as nat) == leaf_count_from::<G>(
                s,
                depth as nat,
                0,
            ),
        decreases moves.len() - i,
    {
        let m = moves[i];
        proof {
            G::law_make_unmake(s, m);
        }
        board.push(m);
        let below: u64 = perft(board, depth - 1);
        board.pop(m);
        nodes = add_capped(nodes, below);
        proof {
            total = total + leaf_count::<G>(G::after(s, m), (depth - 1) as nat);
        }
        i += 1;
    }
    nodes
}

/// At the last ply the count of a state that is not over is the number
/// of its moves.
pub proof fn lemma_depth_one_counts_moves<G: Game>(s: G::V)
    requires
        !G::over(s),
    ensures
        leaf_count::<G>(s, 1) == G::moves_of(s).len(),
{
}

/// The count kept for `s` by the first entry of `bucket` from the `i`-th
/// on that holds the state `s`.
pub open spec fn bucket_find<G: Game>(bucket: Seq<(G, u64)>, s: G::V, i: nat) -> Option<u64>
    decreases bucket.len() - i,
{
    if i >= bucket.len() {
        None
    } else if bucket[i as int].0@ == s {
        Some(bucket[i as int].1)
    } else {
        bucket_find(bucket, s, i + 1)
    }
}

/// A memo of counted positions: a hash table from the key of a state to
/// the states with that key, each with its count.
pub struct Memo<G> {
    table: HashMap<u64, Vec<(G, u64)>>,
}

impl<G: Keyed> Memo<G> {
    /// The count that the memo holds for `s`, if it holds one.
    pub closed spec fn lookup(&self, s: G::V) -> Option<u64> {
        if self.table@.contains_key(G::key_of(s)) {
            bucket_find(self.table@[G::key_of(s)]@, s, 0)
        } else {
            None
        }
    }
}

impl<G: Keyed> View for Memo<G> {
    type V = Map<G::V, u64>;

    /// The memo as a map from states to counts.
    closed spec fn view(&self) -> Map<G::V, u64> {
        Map::new(|s: G::V| self.lookup(s) is Some, |s: G::V| self.lookup(s)->0)
    }
}

/// A match found in a bucket is its first: no entry before it holds the
/// state.
proof fn lemma_find_first<G: Game>(bucket: Seq<(G, u64)>, s: G::V, i: nat, j: nat)
    requires
        i <= j < bucket.len(),
        bucket[j as int].0@ == s,
        forall|k: int| i <= k < j ==> (#[trigger] bucket[k]).0@ != s,
    ensures
        bucket_find(bucket, s, i) == Some(bucket[j as int].1),
    decreases j - i,
{
    if i < j {
        lemma_find_first(bucket, s, i + 1, j);
    }
}

/// A bucket in which no entry holds the state gives nothing.
proof fn lemma_find_none<G: Game>(bucket: Seq<(G, u64)>, s: G::V, i: nat)
    requires
        forall|k: int| i <= k < bucket.len() ==> (#[trigger] bucket[k]).0@ != s,
    ensures
        bucket_find(bucket, s, i) is None,
    decreases bucket.len() - i,
{
    if i < bucket.len() {
        lemma_find_none(bucket, s, i + 1);
    }
}

/// Two buckets whose entries hold the same states with the same counts
/// wherever a state differs from `skip` give the same for every state but
/// `skip`.
proof fn lemma_find_same<G: Game>(a: Seq<(G, u64)>, b: Seq<(G, u64)>, s: G::V, skip: G::V, i: nat)
    requires
        s != skip,
        a.len() <= b.len(),
        forall|k: int|
            0 <= k < a.len() ==> ((#[trigger] a[k]).0@ == b[k].0@ && (a[k].0@ != skip ==> a[k].1
                == b[k].1)),
        forall|k: int| a.len() <= k < b.len() ==> (#[trigger] b[k]).0@ == skip,
    ensures
        bucket_find(a, s, i) == bucket_find(b, s, i),
    decreases b.len() - i,
{
    if i < b.len() {
        lemma_find_same(a, b, s, skip, i + 1);
        if i < a.len() {
            assert(a[i as int].0@ == b[i as int].0@);
        } else {
            assert(b[i as int].0@ == skip);
        }
    }
}

impl<G: Keyed> Memo<G> {
    /// An empty memo.
    pub fn new() -> (r: Self)
        ensures
            r@ == Map::<G::V, u64>::empty(),
    {
        broadcast use vstd::std_specs::hash::group_hash_axioms;
        let r = Memo { table: HashMap::new() };
        assert(r@ =~= Map::<G::V, u64>::empty());
        r
    }

    /// The count kept for the state, if one is kept.
    pub fn get(&self, board: &G) -> (r: Option<u64>)
        requires
            G::valid(board@),
        ensures
            r == (if self@.contains_key(board@) {
                Some(self@[board@])
            } else {
                None
            }),
    {
        broadcast use vstd::std_specs::hash::group_hash_axioms;
        let key: u64 = board.hashkey();
        match self.table.get(&key) {
            None => None,
            Some(bucket) => {
                let mut i: usize = 0;
                while i < bucket.len()
                    invariant
                        i <= bucket.len(),
                        key == G::key_of(board@),
                        self.table@.contains_key(key),
                        self.table@[key] == *bucket,
                        forall|k: int| 0 <= k < i ==> (#[trigger] bucket@[k]).0@ != board@,
                    decreases bucket.len() - i,
                {
                    if bucket[i].0.same_state(board) {
                        proof {
                            lemma_find_first(bucket@, board@, 0, i as nat);
                            assert(self.lookup(board@) == Some(bucket@[i as int].1));
                        }
                        return Some(bucket[i].1);
                    }
                    i += 1;
                }
                proof {
                    lemma_find_none(bucket@, board@, 0);
                }
                None
            },
        }
    }

    /// Keeps `count` for the state, in place of any count kept before.
    pub fn insert(&mut self, board: G, count: u64)
        requires
            G::valid(board@),
        ensures
            final(self)@ == old(self)@.insert(board@, count),
    {
        broadcast use vstd::std_specs::hash::group_hash_axioms;
        let key: u64 = board.hashkey();
        let ghost target = board@;
        let mut bucket: Vec<(G, u64)> = match self.table.remove(&key) {
            Some(found) => found,
            None => Vec::new(),
        };
        let ghost before = bucket@;
        assert(forall|s: G::V|
            G::key_of(s) == key ==> #[trigger] old(self).lookup(s) == bucket_find(before, s, 0));
        let mut i: usize = 0;
        while i < bucket.len() && !bucket[i].0.same_state(&board)
            invariant
                i <= bucket.len(),
                bucket@ == before,
                target == board@,
                forall|k: int| 0 <= k < i ==> (#[trigger] bucket@[k]).0@ != target,
            decreases bucket.len() - i,
        {
            i += 1;
        }
        if i < bucket.len() {
            bucket.set(i, (board, count));
        } else {
            bucket.push((board, count));
        }
        let ghost after = bucket@;
        proof {
            lemma_find_first(after, target, 0, i as nat);
            assert forall|s: G::V| s != target implies bucket_find(before, s, 0) == bucket_find(
                after,
                s,
                0,
            ) by {
                if i < before.len() {
                    lemma_find_same(before, after, s, target, 0);
                } else {
                    lemma_find_same(before, after, s, target, 0);
                }
            }
        }
        self.table.insert(key, bucket);
        proof {
            assert forall|s: G::V| #[trigger] self.lookup(s) == (if s == target {
                Some(count)
            } else {
                old(self).lookup(s)
            }) by {
                if G::key_of(s) == key {
                    assert(self.lookup(s) == bucket_find(after, s, 0));
                }
            }
            assert(self@ =~= old(self)@.insert(target, count));
        }
    }
}

/// Subtrees of more than this many plies are kept in the memo.
pub const MEMO_DEPTH: u8 = 3;

/// What the memoized count returns at `s` when the memo holds `seen`, and
/// the memo that it leaves. A state found in the memo is not counted
/// again, whatever the depth at which its count was taken.
pub open spec fn memo_count<G: Game>(s: G::V, depth: nat, seen: Map<G::V, u64>) -> (u64, Map<G::V, u64>)
    decreases depth, G::moves_of(s).len() + 1,
{
    if G::over(s) {
        (1, seen)
    } else if depth == 1 {
        (capped(G::moves_of(s).len()), seen)
    } else if seen.contains_key(s) {
        (seen[s], seen)
    } else {
        let counted = memo_count_from::<G>(s, depth, 0, 0, seen);
        if depth > MEMO_DEPTH {
            (counted.0, counted.1.insert(s, counted.0))
        } else {
            counted
        }
    }
}

/// The memoized count over the moves of `s` from the `i`-th on, added
/// to `nodes`; the memo is handed from each move to the next.
pub open spec fn memo_count_from<G: Game>(s: G::V, depth: nat, i: nat, nodes: u64, seen: Map<G::V, u64>) -> (u64, Map<G::V, u64>)
    decreases depth, G::moves_of(s).len() - i,
{
    if depth == 0 || i >= G::moves_of(s).len() {
        (nodes, seen)
    } else {
        let below = memo_count::<G>(G::after(s, G::moves_of(s)[i as int]), (depth - 1) as nat, seen);
        memo_count_from::<G>(s, depth, i + 1, capped((nodes + below.0) as nat), below.1)
    }
}

/// Counts the leaves below the given state with the help of a memo.
/// The state is restored before the count returns. Without a ply of
/// budget only a state that has no move can be counted.
pub fn perft_cached_internal<G: Game + Keyed>(board: &mut G, depth: u8, seen: &mut Memo<G>) -> (r: u64)
    requires
        G::valid(old(board)@),
        depth >= 1 || G::over(old(board)@) || G::moves_of(old(board)@).len() == 0,
    ensures
        final(board)@ == old(board)@,
        r == memo_count::<G>(old(board)@, depth as nat, old(seen)@).0,
        final(seen)@ == memo_count::<G>(old(board)@, depth as nat, old(seen)@).1,
    decreases depth,
{
    if board.is_terminal() {
        return 1;
    }
    let mut moves: Vec<G::Move> = Vec::with_capacity(27);
    board.generate_moves(&mut moves);
    let ghost s = board@;
    assert(moves@ =~= G::moves_of(s));
    if depth == 1 {
        return moves.len() as u64;
    }
    match seen.get(board) {
        Some(nodes) => {
            return nodes;
        },
        None => {},
    }
    let mut nodes: u64 = 0;
    let mut i: usize = 0;
    while i < moves.len()
        invariant
            board@ == s,
            G::valid(s),
            moves@ == G::moves_of(s),
            depth >= 2 || moves.len() == 0,
            i <= moves.len(),
            memo_count_from::<G>(s, depth as nat, i as nat, nodes, seen@) == memo_count_from::<G>(
                s,
                depth as nat,
                0,
                0,
                old(seen)@,
            ),
        decreases moves.len() - i,
    {
        let m = moves[i];
        proof {
            G::law_make_unmake(s, m);
        }
        board.push(m);
        let below: u64 = perft_cached_internal(board, depth - 1, seen);
        board.pop(m);
        nodes = add_capped(nodes, below);
        i += 1;
    }
    if depth > MEMO_DEPTH {
        seen.insert(board.duplicate(), nodes);
    }
    nodes
}

/// Counts the leaves below the given state with a memo of its own.
pub fn perft_cached<G: Game + Keyed>(board: &mut G, depth: u8) -> (r: u64)
    requires
        G::valid(old(board)@),
        depth >= 1 || G::over(old(board)@) || G::moves_of(old(board)@).len() == 0,
    ensures
        final(board)@ == old(board)@,
        r == memo_count::<G>(old(board)@, depth as nat, Map::empty()).0,
{
    let mut seen: Memo<G> = Memo::new();
    perft_cached_internal(board, depth, &mut seen)
}

/// Up to the depth from which counts are kept, the memoized count leaves
/// the memo as it was, and without a memo it is the plain count.
pub proof fn lemma_memo_idle<G: Game>(s: G::V, depth: nat, seen: Map<G::V, u64>)
    requires
        depth <= MEMO_DEPTH,
    ensures
        memo_count::<G>(s, depth, seen).1 == seen,
        memo_count::<G>(s, depth, Map::empty()).0 == capped(leaf_count::<G>(s, depth)),
    decreases depth, G::moves_of(s).len() + 1,
{
    if !G::over(s) && depth > 1 {
        lemma_memo_idle_from::<G>(s, depth, 0, 0, 0, seen);
    }
}

/// The same, over the moves of a state from the `i`-th on.
pub proof fn lemma_memo_idle_from<G: Game>(s: G::V, depth: nat, i: nat, nodes: u64, total: nat, seen: Map<G::V, u64>)
    requires
        1 <= depth <= MEMO_DEPTH + 1,
        nodes == capped(total),
    ensures
        memo_count_from::<G>(s, depth, i, nodes, seen).1 == seen,
        memo_count_from::<G>(s, depth, i, nodes, Map::empty()).0 == capped(
            total + leaf_count_from::<G>(s, depth, i),
        ),
    decreases depth, G::moves_of(s).len() - i,
{
    if i < G::moves_of(s).len() {
        let child = G::after(s, G::moves_of(s)[i as int]);
        lemma_memo_idle::<G>(child, (depth - 1) as nat, seen);
        lemma_memo_idle::<G>(child, (depth - 1) as nat, Map::empty());
        let below = memo_count::<G>(child, (depth - 1) as nat, seen);
        let fresh = memo_count::<G>(child, (depth - 1) as nat, Map::empty());
        lemma_memo_idle_from::<G>(
            s,
            depth,
            i + 1,
            capped((nodes + below.0) as nat),
            capped((nodes + below.0) as nat) as nat,
            seen,
        );
        lemma_memo_idle_from::<G>(
            s,
            depth,
            i + 1,
            capped((nodes + fresh.0) as nat),
            total + leaf_count::<G>(child, (depth - 1) as nat),
            Map::empty(),
        );
    }
}

/// With a memo of its own the memoized count is the plain count, for
/// every state, up to the first depth at which counts are kept.
pub proof fn lemma_memo_transparent<G: Game>(s: G::V, depth: nat)
    requires
        depth <= MEMO_DEPTH + 1,
    ensures
        memo_count::<G>(s, depth, Map::empty()).0 == capped(leaf_count::<G>(s, depth)),
{
    if depth <= MEMO_DEPTH {
        lemma_memo_idle::<G>(s, depth, Map::empty());
    } else if !G::over(s) {
        lemma_memo_idle_from::<G>(s, depth, 0, 0, 0, Map::empty());
    }
}

/// Whether `age` counts the plies that led to a state: every legal move
/// adds one.
pub open spec fn counts_plies<G: Game>(age: spec_fn(G::V) -> nat) -> bool {
    forall|s: G::V, m: G::Move|
        G::valid(s) && G::moves_of(s).contains(m) ==> #[trigger] age(G::after(s, m)) == age(s) + 1
}

/// Whether every count in the memo is the plain count of its state for
/// the plies that are left of `horizon` at that state.
pub open spec fn memo_sound<G: Game>(seen: Map<G::V, u64>, age: spec_fn(G::V) -> nat, horizon: nat) -> bool {
    forall|t: G::V| #[trigger]
        seen.contains_key(t) ==> age(t) <= horizon && seen[t] == capped(
            leaf_count::<G>(t, (horizon - age(t)) as nat),
        )
}

/// In a game whose states tell how many plies led to them, a sound memo
/// stays sound, and the memoized count is the plain count.
pub proof fn lemma_memo_sound<G: Game>(s: G::V, depth: nat, seen: Map<G::V, u64>, age: spec_fn(G::V) -> nat, horizon: nat)
    requires
        G::valid(s),
        counts_plies::<G>(age),
        memo_sound::<G>(seen, age, horizon),
        age(s) + depth == horizon,
    ensures
        memo_count::<G>(s, depth, seen).0 == capped(leaf_count::<G>(s, depth)),
        memo_sound::<G>(memo_count::<G>(s, depth, seen).1, age, horizon),
    decreases depth, G::moves_of(s).len() + 1,
{
    if !G::over(s) && depth != 1 {
        if seen.contains_key(s) {
        } else {
            lemma_memo_sound_from::<G>(s, depth, 0, 0, 0, seen, age, horizon);
        }
    }
}

/// The same, over the moves of a state from the `i`-th on.
pub proof fn lemma_memo_sound_from<G: Game>(s: G::V, depth: nat, i: nat, nodes: u64, total: nat, seen: Map<G::V, u64>, age: spec_fn(G::V) -> nat, horizon: nat)
    requires
        G::valid(s),
        counts_plies::<G>(age),
        memo_sound::<G>(seen, age, horizon),
        age(s) + depth == horizon,
        nodes == capped(total),
    ensures
        memo_count_from::<G>(s, depth, i, nodes, seen).0 == capped(
            total + leaf_count_from::<G>(s, depth, i),
        ),
        memo_sound::<G>(memo_count_from::<G>(s, depth, i, nodes, seen).1, age, horizon),
    decreases depth, G::moves_of(s).len() - i,
{
    if depth != 0 && i < G::moves_of(s).len() {
        let m = G::moves_of(s)[i as int];
        assert(G::moves_of(s).contains(m));
        G::law_make_unmake(s, m);
        let child = G::after(s, m);
        assert(age(child) == age(s) + 1);
        lemma_memo_sound::<G>(child, (depth - 1) as nat, seen, age, horizon);
        let below = memo_count::<G>(child, (depth - 1) as nat, seen);
        lemma_memo_sound_from::<G>(
            s,
            depth,
            i + 1,
            capped((nodes + below.0) as nat),
            total + leaf_count::<G>(child, (depth - 1) as nat),
            below.1,
            age,
            horizon,
        );
    }
}

/// In a game whose states tell how many plies led to them, the memoized
/// count with a memo of its own is the plain count, at every depth.
pub proof fn lemma_memo_agrees<G: Game>(s: G::V, depth: nat, age: spec_fn(G::V) -> nat)
    requires
        G::valid(s),
        counts_plies::<G>(age),
    ensures
        memo_count::<G>(s, depth, Map::empty()).0 == capped(leaf_count::<G>(s, depth)),
{
    lemma_memo_sound::<G>(s, depth, Map::empty(), age, age(s) + depth);
}

} // verus!
