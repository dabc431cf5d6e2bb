//! Bitboards: which bits a word holds, how many, and which is lowest.

use vstd::prelude::*;
use vstd::std_specs::bits::{
    axiom_u16_trailing_zeros, axiom_u64_trailing_zeros, u16_trailing_zeros, u64_trailing_zeros,
};

verus! {

/// Whether bit `i` of `x` is set.
pub open spec fn has16(x: u16, i: int) -> bool {
    0 <= i < 16 && x & (1u16 << (i as u16)) != 0
}

/// Whether bit `i` of `x` is set.
pub open spec fn has64(x: u64, i: int) -> bool {
    0 <= i < 64 && x & (1u64 << (i as u64)) != 0
}

/// The number of set bits of `x` below bit `n`.
pub open spec fn count16(x: u16, n: nat) -> nat
    decreases n,
{
    if n == 0 {
        0
    } else {
        count16(x, (n - 1) as nat) + if has16(x, n - 1) {
            1nat
        } else {
            0nat
        }
    }
}

/// The number of set bits of `x` below bit `n`.
pub open spec fn count64(x: u64, n: nat) -> nat
    decreases n,
{
    if n == 0 {
        0
    } else {
        count64(x, (n - 1) as nat) + if has64(x, n - 1) {
            1nat
        } else {
            0nat
        }
    }
}

/// The set bits of `x` from bit `from` up, in rising order.
pub open spec fn set_bits16(x: u16, from: nat) -> Seq<int>
    decreases 16 - from,
{
    if from >= 16 {
        Seq::empty()
    } else if has16(x, from as int) {
        seq![from as int] + set_bits16(x, from + 1)
    } else {
        set_bits16(x, from + 1)
    }
}

/// The set bits of `x` from bit `from` up, in rising order.
pub open spec fn set_bits64(x: u64, from: nat) -> Seq<int>
    decreases 64 - from,
{
    if from >= 64 {
        Seq::empty()
    } else if has64(x, from as int) {
        seq![from as int] + set_bits64(x, from + 1)
    } else {
        set_bits64(x, from + 1)
    }
}

proof fn bits_of_ops16(a: u16, b: u16, j: u16)
    by (bit_vector)
    requires
        j < 16,
    ensures
        ((a | b) & (1u16 << j) != 0) == (a & (1u16 << j) != 0 || b & (1u16 << j) != 0),
        ((a & b) & (1u16 << j) != 0) == (a & (1u16 << j) != 0 && b & (1u16 << j) != 0),
        ((a ^ b) & (1u16 << j) != 0) == ((a & (1u16 << j) != 0) != (b & (1u16 << j) != 0)),
        ((!a) & (1u16 << j) != 0) == !(a & (1u16 << j) != 0),
        (0u16 & (1u16 << j) != 0) == false,
        (a & (1u16 << j) != 0) == ((a >> j) & 1u16 == 1u16),
        (a & (1u16 << j) != 0) == !((a >> j) & 1u16 == 0u16),
{
}

proof fn bits_of_ops64(a: u64, b: u64, j: u64)
    by (bit_vector)
    requires
        j < 64,
    ensures
        ((a | b) & (1u64 << j) != 0) == (a & (1u64 << j) != 0 || b & (1u64 << j) != 0),
        ((a & b) & (1u64 << j) != 0) == (a & (1u64 << j) != 0 && b & (1u64 << j) != 0),
        ((a ^ b) & (1u64 << j) != 0) == ((a & (1u64 << j) != 0) != (b & (1u64 << j) != 0)),
        ((!a) & (1u64 << j) != 0) == !(a & (1u64 << j) != 0),
        (0u64 & (1u64 << j) != 0) == false,
        (a & (1u64 << j) != 0) == ((a >> j) & 1u64 == 1u64),
        (a & (1u64 << j) != 0) == !((a >> j) & 1u64 == 0u64),
{
}

proof fn bits_of_one16(i: u16, j: u16)
    by (bit_vector)
    requires
        i < 16,
        j < 16,
    ensures
        ((1u16 << i) & (1u16 << j) != 0) == (i == j),
{
}

proof fn bits_of_one64(i: u64, j: u64)
    by (bit_vector)
    requires
        i < 64,
        j < 64,
    ensures
        ((1u64 << i) & (1u64 << j) != 0) == (i == j),
{
}

proof fn bits_of_shift64(a: u64, k: u64, j: u64)
    by (bit_vector)
    requires
        k < 64,
        j < 64,
    ensures
        ((a >> k) & (1u64 << j) != 0) == (j + k < 64 && a & (1u64 << ((j + k) as u64)) != 0),
        ((a << k) & (1u64 << j) != 0) == (j >= k && a & (1u64 << ((j - k) as u64)) != 0),
{
}

proof fn bits_once_lowest16(x: u16, t: u16, j: u16)
    by (bit_vector)
    requires
        t < 16,
        j < 16,
        x & (1u16 << t) != 0,
        j < t ==> x & (1u16 << j) == 0,
        x << ((16 - t) as u16) == 0,
    ensures
        x != 0,
        ((x & ((x - 1) as u16)) & (1u16 << j) != 0) == (x & (1u16 << j) != 0 && j != t),
{
}

proof fn bits_once_lowest64(x: u64, t: u64, j: u64)
    by (bit_vector)
    requires
        t < 64,
        j < 64,
        x & (1u64 << t) != 0,
        j < t ==> x & (1u64 << j) == 0,
        x << ((64 - t) as u64) == 0,
    ensures
        x != 0,
        ((x & ((x - 1) as u64)) & (1u64 << j) != 0) == (x & (1u64 << j) != 0 && j != t),
{
}

/// The bits of `a | b`, `a & b`, `a ^ b`, `!a` and `0`.
pub proof fn lemma_ops16(a: u16, b: u16)
    ensures
        forall|i: int| #[trigger] has16(a | b, i) == (has16(a, i) || has16(b, i)),
        forall|i: int| #[trigger] has16(a & b, i) == (has16(a, i) && has16(b, i)),
        forall|i: int| #[trigger] has16(a ^ b, i) == (has16(a, i) != has16(b, i)),
        forall|i: int| 0 <= i < 16 ==> #[trigger] has16(!a, i) == !has16(a, i),
        forall|i: int| !#[trigger] has16(0, i),
{
    assert forall|i: int| #[trigger] has16(a | b, i) == (has16(a, i) || has16(b, i)) by {
        if 0 <= i < 16 {
            bits_of_ops16(a, b, i as u16);
        }
    }
    assert forall|i: int| #[trigger] has16(a & b, i) == (has16(a, i) && has16(b, i)) by {
        if 0 <= i < 16 {
            bits_of_ops16(a, b, i as u16);
        }
    }
    assert forall|i: int| #[trigger] has16(a ^ b, i) == (has16(a, i) != has16(b, i)) by {
        if 0 <= i < 16 {
            bits_of_ops16(a, b, i as u16);
        }
    }
    assert forall|i: int| 0 <= i < 16 implies #[trigger] has16(!a, i) == !has16(a, i) by {
        bits_of_ops16(a, b, i as u16);
    }
    assert forall|i: int| !#[trigger] has16(0, i) by {
        if 0 <= i < 16 {
            bits_of_ops16(a, b, i as u16);
        }
    }
}

/// The bits of `a | b`, `a & b`, `a ^ b`, `!a` and `0`.
pub proof fn lemma_ops64(a: u64, b: u64)
    ensures
        forall|i: int| #[trigger] has64(a | b, i) == (has64(a, i) || has64(b, i)),
        forall|i: int| #[trigger] has64(a & b, i) == (has64(a, i) && has64(b, i)),
        forall|i: int| #[trigger] has64(a ^ b, i) == (has64(a, i) != has64(b, i)),
        forall|i: int| 0 <= i < 64 ==> #[trigger] has64(!a, i) == !has64(a, i),
        forall|i: int| !#[trigger] has64(0, i),
{
    assert forall|i: int| #[trigger] has64(a | b, i) == (has64(a, i) || has64(b, i)) by {
        if 0 <= i < 64 {
            bits_of_ops64(a, b, i as u64);
        }
    }
    assert forall|i: int| #[trigger] has64(a & b, i) == (has64(a, i) && has64(b, i)) by {
        if 0 <= i < 64 {
            bits_of_ops64(a, b, i as u64);
        }
    }
    assert forall|i: int| #[trigger] has64(a ^ b, i) == (has64(a, i) != has64(b, i)) by {
        if 0 <= i < 64 {
            bits_of_ops64(a, b, i as u64);
        }
    }
    assert forall|i: int| 0 <= i < 64 implies #[trigger] has64(!a, i) == !has64(a, i) by {
        bits_of_ops64(a, b, i as u64);
    }
    assert forall|i: int| !#[trigger] has64(0, i) by {
        if 0 <= i < 64 {
            bits_of_ops64(a, b, i as u64);
        }
    }
}

/// The one bit of `1 << i`.
pub proof fn lemma_one16(i: int)
    requires
        0 <= i < 16,
    ensures
        forall|j: int| #[trigger] has16(1u16 << (i as u16), j) == (j == i),
{
    assert forall|j: int| 0 <= j < 16 implies #[trigger] has16(1u16 << (i as u16), j) == (j == i) by {
        bits_of_one16(i as u16, j as u16);
    }
}

/// The one bit of `1 << i`.
pub proof fn lemma_one64(i: int)
    requires
        0 <= i < 64,
    ensures
        forall|j: int| #[trigger] has64(1u64 << (i as u64), j) == (j == i),
{
    assert forall|j: int| 0 <= j < 64 implies #[trigger] has64(1u64 << (i as u64), j) == (j == i) by {
        bits_of_one64(i as u64, j as u64);
    }
}

/// The bits of `a >> k` and of `a << k`.
pub proof fn lemma_shift64(a: u64, k: int)
    requires
        0 <= k < 64,
    ensures
        forall|j: int| 0 <= j ==> #[trigger] has64(a >> (k as u64), j) == has64(a, j + k),
        forall|j: int| j < 64 ==> #[trigger] has64(a << (k as u64), j) == has64(a, j - k),
{
    assert forall|j: int| 0 <= j implies #[trigger] has64(a >> (k as u64), j) == has64(a, j + k) by {
        if j < 64 {
            bits_of_shift64(a, k as u64, j as u64);
        }
    }
    assert forall|j: int| j < 64 implies #[trigger] has64(a << (k as u64), j) == has64(a, j - k) by {
        if 0 <= j {
            bits_of_shift64(a, k as u64, j as u64);
        }
    }
}

/// The lowest set bit of a word that is not zero, and the word without
/// it.
pub proof fn lemma_lowest16(x: u16)
    requires
        x != 0,
    ensures
        has16(x, u16_trailing_zeros(x) as int),
        forall|j: int| 0 <= j < u16_trailing_zeros(x) ==> !#[trigger] has16(x, j),
        forall|j: int|
            #[trigger] has16(x & ((x - 1) as u16), j) == (has16(x, j) && j != u16_trailing_zeros(x)),
        x & ((x - 1) as u16) < x,
{
    assert(x & ((x - 1) as u16) < x) by (bit_vector)
        requires
            x != 0,
    ;
    axiom_u16_trailing_zeros(x);
    let t = u16_trailing_zeros(x) as u16;
    bits_of_ops16(x, x, t);
    assert forall|j: int| 0 <= j < t implies !#[trigger] has16(x, j) by {
        bits_of_ops16(x, x, j as u16);
        assert((x >> (j as u16)) & 1u16 == 0u16);
    }
    assert forall|j: int| 0 <= j < 16 implies #[trigger] has16(x & ((x - 1) as u16), j) == (has16(
        x,
        j,
    ) && j != t) by {
        if j < t {
            assert(!has16(x, j));
        }
        bits_once_lowest16(x, t, j as u16);
    }
}

/// The lowest set bit of a word that is not zero, and the word without
/// it.
pub proof fn lemma_lowest64(x: u64)
    requires
        x != 0,
    ensures
        has64(x, u64_trailing_zeros(x) as int),
        forall|j: int| 0 <= j < u64_trailing_zeros(x) ==> !#[trigger] has64(x, j),
        forall|j: int|
            #[trigger] has64(x & ((x - 1) as u64), j) == (has64(x, j) && j != u64_trailing_zeros(x)),
        x & ((x - 1) as u64) < x,
{
    assert(x & ((x - 1) as u64) < x) by (bit_vector)
        requires
            x != 0,
    ;
    axiom_u64_trailing_zeros(x);
    let t = u64_trailing_zeros(x) as u64;
    bits_of_ops64(x, x, t);
    assert forall|j: int| 0 <= j < t implies !#[trigger] has64(x, j) by {
        bits_of_ops64(x, x, j as u64);
        assert((x >> (j as u64)) & 1u64 == 0u64);
    }
    assert forall|j: int| 0 <= j < 64 implies #[trigger] has64(x & ((x - 1) as u64), j) == (has64(
        x,
        j,
    ) && j != t) by {
        if j < t {
            assert(!has64(x, j));
        }
        bits_once_lowest64(x, t, j as u64);
    }
}

/// Words with the same bits are equal.
pub proof fn lemma_same16(a: u16, b: u16)
    requires
        forall|j: int| 0 <= j < 16 ==> has16(a, j) == has16(b, j),
    ensures
        a == b,
{
    if a != b {
        assert((a ^ b) != 0) by (bit_vector)
            requires
                a != b,
        ;
        lemma_lowest16(a ^ b);
        lemma_ops16(a, b);
        axiom_u16_trailing_zeros(a ^ b);
        assert(has16(a ^ b, u16_trailing_zeros(a ^ b) as int));
    }
}

/// Words with the same bits are equal.
pub proof fn lemma_same64(a: u64, b: u64)
    requires
        forall|j: int| 0 <= j < 64 ==> has64(a, j) == has64(b, j),
    ensures
        a == b,
{
    if a != b {
        assert((a ^ b) != 0) by (bit_vector)
            requires
                a != b,
        ;
        lemma_lowest64(a ^ b);
        lemma_ops64(a, b);
        axiom_u64_trailing_zeros(a ^ b);
        assert(has64(a ^ b, u64_trailing_zeros(a ^ b) as int));
    }
}

/// How far a count can go.
pub proof fn lemma_count_bound16(x: u16, n: nat)
    ensures
        count16(x, n) <= n,
    decreases n,
{
    if n > 0 {
        lemma_count_bound16(x, (n - 1) as nat);
    }
}

/// Words with the same bits below `n` have the same count below `n`.
pub proof fn lemma_count_same16(x: u16, y: u16, n: nat)
    requires
        forall|j: int| 0 <= j < n ==> has16(x, j) == has16(y, j),
    ensures
        count16(x, n) == count16(y, n),
    decreases n,
{
    if n > 0 {
        lemma_count_same16(x, y, (n - 1) as nat);
    }
}

/// A word that has one bit below `n` more than another counts one more.
pub proof fn lemma_count_plus_one16(x: u16, y: u16, n: nat, i: int)
    requires
        0 <= i < n,
        !has16(x, i),
        has16(y, i),
        forall|j: int| 0 <= j < n && j != i ==> has16(x, j) == has16(y, j),
    ensures
        count16(y, n) == count16(x, n) + 1,
    decreases n,
{
    if i == n - 1 {
        lemma_count_same16(x, y, (n - 1) as nat);
    } else {
        lemma_count_plus_one16(x, y, (n - 1) as nat, i);
    }
}

/// A word whose count below `n` falls short of `n` lacks a bit below `n`.
pub proof fn lemma_count_short16(x: u16, n: nat) -> (i: int)
    requires
        count16(x, n) < n,
    ensures
        0 <= i < n,
        !has16(x, i),
    decreases n,
{
    if has16(x, n - 1) {
        lemma_count_short16(x, (n - 1) as nat)
    } else {
        n - 1
    }
}

/// What a list of set bits holds: the set bits from `from` up.
pub proof fn lemma_set_bits_hold16(x: u16, from: nat)
    ensures
        forall|i: int| #[trigger] set_bits16(x, from).contains(i) == (from <= i && has16(x, i)),
    decreases 16 - from,
{
    let list = set_bits16(x, from);
    if from < 16 {
        lemma_set_bits_hold16(x, from + 1);
        let rest = set_bits16(x, from + 1);
        assert forall|i: int| #[trigger] list.contains(i) == (from <= i && has16(x, i)) by {
            assert(rest.contains(i) == (from + 1 <= i && has16(x, i)));
            if has16(x, from as int) {
                assert(list =~= seq![from as int] + rest);
                if list.contains(i) {
                    let k = choose|k: int| 0 <= k < list.len() && list[k] == i;
                    if k > 0 {
                        assert(rest[k - 1] == i);
                        assert(rest.contains(i));
                    }
                }
                if i == from {
                    assert(list[0] == i);
                    assert(list.contains(i));
                } else if rest.contains(i) {
                    let k = choose|k: int| 0 <= k < rest.len() && rest[k] == i;
                    assert(list[k + 1] == i);
                    assert(list.contains(i));
                }
            } else {
                assert(list == rest);
            }
        }
    } else {
        assert(list.len() == 0);
        assert forall|i: int| #[trigger] list.contains(i) == (from <= i && has16(x, i)) by {
            if list.contains(i) {
                let k = choose|k: int| 0 <= k < list.len() && list[k] == i;
            }
        }
    }
}

/// A list of set bits rises: each entry is at least `from`, and larger
/// than the entries before it.
pub proof fn lemma_set_bits_rise16(x: u16, from: nat)
    ensures
        forall|k: int| 0 <= k < set_bits16(x, from).len() ==> from <= #[trigger] set_bits16(x, from)[k] < 16,
        forall|k: int, l: int|
            0 <= k < l < set_bits16(x, from).len() ==> #[trigger] set_bits16(x, from)[k]
                < #[trigger] set_bits16(x, from)[l],
        set_bits16(x, from).len() <= 16 - from || from >= 16,
    decreases 16 - from,
{
    if from < 16 {
        lemma_set_bits_rise16(x, from + 1);
        let list = set_bits16(x, from);
        let rest = set_bits16(x, from + 1);
        if has16(x, from as int) {
            assert(list =~= seq![from as int] + rest);
            assert forall|k: int| 0 <= k < list.len() implies from <= #[trigger] list[k] < 16 by {
                if k > 0 {
                    assert(list[k] == rest[k - 1]);
                }
            }
            assert forall|k: int, l: int| 0 <= k < l < list.len() implies #[trigger] list[k]
                < #[trigger] list[l] by {
                assert(list[l] == rest[l - 1]);
                if k > 0 {
                    assert(list[k] == rest[k - 1]);
                }
            }
        }
    }
}

/// Words with the same bits from `from` up list the same set bits.
pub proof fn lemma_set_bits_same16(x: u16, y: u16, from: nat)
    requires
        forall|j: int| from <= j < 16 ==> has16(x, j) == has16(y, j),
    ensures
        set_bits16(x, from) == set_bits16(y, from),
    decreases 16 - from,
{
    if from < 16 {
        lemma_set_bits_same16(x, y, from + 1);
    }
}

/// Bits that are not set add nothing to the list.
pub proof fn lemma_set_bits_skip16(x: u16, from: nat, to: nat)
    requires
        from <= to <= 16,
        forall|j: int| from <= j < to ==> !has16(x, j),
    ensures
        set_bits16(x, from) == set_bits16(x, to),
    decreases to - from,
{
    if from < to {
        lemma_set_bits_skip16(x, from + 1, to);
    }
}

/// The set bits of a word that is not zero: the lowest one, then those
/// of the word without it.
pub proof fn lemma_set_bits_step16(x: u16)
    requires
        x != 0,
    ensures
        u16_trailing_zeros(x) < 16,
        set_bits16(x, 0) == seq![u16_trailing_zeros(x) as int] + set_bits16(x & ((x - 1) as u16), 0),
{
    axiom_u16_trailing_zeros(x);
    lemma_lowest16(x);
    let t = u16_trailing_zeros(x) as nat;
    let y = x & ((x - 1) as u16);
    lemma_set_bits_skip16(x, 0, t);
    lemma_set_bits_skip16(y, 0, t + 1);
    lemma_set_bits_same16(x, y, t + 1);
}

/// How far a count can go.
pub proof fn lemma_count_bound64(x: u64, n: nat)
    ensures
        count64(x, n) <= n,
    decreases n,
{
    if n > 0 {
        lemma_count_bound64(x, (n - 1) as nat);
    }
}

/// Words with the same bits below `n` have the same count below `n`.
pub proof fn lemma_count_same64(x: u64, y: u64, n: nat)
    requires
        forall|j: int| 0 <= j < n ==> has64(x, j) == has64(y, j),
    ensures
        count64(x, n) == count64(y, n),
    decreases n,
{
    if n > 0 {
        lemma_count_same64(x, y, (n - 1) as nat);
    }
}

/// A word that has one bit below `n` more than another counts one more.
pub proof fn lemma_count_plus_one64(x: u64, y: u64, n: nat, i: int)
    requires
        0 <= i < n,
        !has64(x, i),
        has64(y, i),
        forall|j: int| 0 <= j < n && j != i ==> has64(x, j) == has64(y, j),
    ensures
        count64(y, n) == count64(x, n) + 1,
    decreases n,
{
    if i == n - 1 {
        lemma_count_same64(x, y, (n - 1) as nat);
    } else {
        lemma_count_plus_one64(x, y, (n - 1) as nat, i);
    }
}

/// What a list of set bits holds: the set bits from `from` up.
pub proof fn lemma_set_bits_hold64(x: u64, from: nat)
    ensures
        forall|i: int| #[trigger] set_bits64(x, from).contains(i) == (from <= i && has64(x, i)),
    decreases 64 - from,
{
    let list = set_bits64(x, from);
    if from < 64 {
        lemma_set_bits_hold64(x, from + 1);
        let rest = set_bits64(x, from + 1);
        assert forall|i: int| #[trigger] list.contains(i) == (from <= i && has64(x, i)) by {
            assert(rest.contains(i) == (from + 1 <= i && has64(x, i)));
            if has64(x, from as int) {
                assert(list =~= seq![from as int] + rest);
                if list.contains(i) {
                    let k = choose|k: int| 0 <= k < list.len() && list[k] == i;
                    if k > 0 {
                        assert(rest[k - 1] == i);
                        assert(rest.contains(i));
                    }
                }
                if i == from {
                    assert(list[0] == i);
                    assert(list.contains(i));
                } else if rest.contains(i) {
                    let k = choose|k: int| 0 <= k < rest.len() && rest[k] == i;
                    assert(list[k + 1] == i);
                    assert(list.contains(i));
                }
            } else {
                assert(list == rest);
            }
        }
    } else {
        assert(list.len() == 0);
        assert forall|i: int| #[trigger] list.contains(i) == (from <= i && has64(x, i)) by {
            if list.contains(i) {
                let k = choose|k: int| 0 <= k < list.len() && list[k] == i;
            }
        }
    }
}

/// A list of set bits rises: each entry is at least `from`, and larger
/// than the entries before it.
pub proof fn lemma_set_bits_rise64(x: u64, from: nat)
    ensures
        forall|k: int| 0 <= k < set_bits64(x, from).len() ==> from <= #[trigger] set_bits64(x, from)[k] < 64,
        forall|k: int, l: int|
            0 <= k < l < set_bits64(x, from).len() ==> #[trigger] set_bits64(x, from)[k]
                < #[trigger] set_bits64(x, from)[l],
        set_bits64(x, from).len() <= 64 - from || from >= 64,
    decreases 64 - from,
{
    if from < 64 {
        lemma_set_bits_rise64(x, from + 1);
        let list = set_bits64(x, from);
        let rest = set_bits64(x, from + 1);
        if has64(x, from as int) {
            assert(list =~= seq![from as int] + rest);
            assert forall|k: int| 0 <= k < list.len() implies from <= #[trigger] list[k] < 64 by {
                if k > 0 {
                    assert(list[k] == rest[k - 1]);
                }
            }
            assert forall|k: int, l: int| 0 <= k < l < list.len() implies #[trigger] list[k]
                < #[trigger] list[l] by {
                assert(list[l] == rest[l - 1]);
                if k > 0 {
                    assert(list[k] == rest[k - 1]);
                }
            }
        }
    }
}

/// Words with the same bits from `from` up list the same set bits.
pub proof fn lemma_set_bits_same64(x: u64, y: u64, from: nat)
    requires
        forall|j: int| from <= j < 64 ==> has64(x, j) == has64(y, j),
    ensures
        set_bits64(x, from) == set_bits64(y, from),
    decreases 64 - from,
{
    if from < 64 {
        lemma_set_bits_same64(x, y, from + 1);
    }
}

/// Bits that are not set add nothing to the list.
pub proof fn lemma_set_bits_skip64(x: u64, from: nat, to: nat)
    requires
        from <= to <= 64,
        forall|j: int| from <= j < to ==> !has64(x, j),
    ensures
        set_bits64(x, from) == set_bits64(x, to),
    decreases to - from,
{
    if from < to {
        lemma_set_bits_skip64(x, from + 1, to);
    }
}

/// The set bits of a word that is not zero: the lowest one, then those
/// of the word without it.
pub proof fn lemma_set_bits_step64(x: u64)
    requires
        x != 0,
    ensures
        u64_trailing_zeros(x) < 64,
        set_bits64(x, 0) == seq![u64_trailing_zeros(x) as int] + set_bits64(x & ((x - 1) as u64), 0),
{
    axiom_u64_trailing_zeros(x);
    lemma_lowest64(x);
    let t = u64_trailing_zeros(x) as nat;
    let y = x & ((x - 1) as u64);
    lemma_set_bits_skip64(x, 0, t);
    lemma_set_bits_skip64(y, 0, t + 1);
    lemma_set_bits_same64(x, y, t + 1);
}

/// Calls `u16::count_ones`. The contract says what its documentation
/// says: the result is the number of ones in the binary form of `x`,
/// which is the count of the set bits among all sixteen.
#[verifier::external_body]
pub(crate) fn ones16(x: u16) -> (r: u32)
    ensures
        r == count16(x, 16),
{
    x.count_ones()
}

/// Calls `u64::count_ones`. The contract says what its documentation
/// says: the result is the number of ones in the binary form of `x`,
/// which is the count of the set bits among all sixty-four.
#[verifier::external_body]
pub(crate) fn ones64(x: u64) -> (r: u32)
    ensures
        r == count64(x, 64),
{
    x.count_ones()
}

proof fn bits_of_nine(a: u16, j: u16)
    by (bit_vector)
    requires
        j < 16,
    ensures
        (0x1FFu16 & (1u16 << j) != 0) == (j < 9),
{
}

/// The bits of the mask of a board of nine squares.
pub proof fn lemma_nine_squares()
    ensures
        forall|j: int| #[trigger] has16(0x1FF, j) == (0 <= j < 9),
{
    assert forall|j: int| #[trigger] has16(0x1FF, j) == (0 <= j < 9) by {
        if 0 <= j < 16 {
            bits_of_nine(0, j as u16);
        }
    }
}

/// A list of set bits is as long as the count of the bits it runs over.
pub proof fn lemma_set_bits_len64(x: u64, from: nat)
    requires
        from <= 64,
    ensures
        set_bits64(x, from).len() + count64(x, from) == count64(x, 64),
    decreases 64 - from,
{
    if from < 64 {
        lemma_set_bits_len64(x, from + 1);
    }
}

proof fn bits_of_half(j: u64)
    by (bit_vector)
    requires
        j < 64,
    ensures
        (0xFFFF_FFFFu64 & (1u64 << j) != 0) == (j < 32),
{
}

/// The bits of the mask of the lower half of a word.
pub proof fn lemma_lower_half()
    ensures
        forall|j: int| #[trigger] has64(0xFFFF_FFFF, j) == (0 <= j < 32),
{
    assert forall|j: int| #[trigger] has64(0xFFFF_FFFF, j) == (0 <= j < 32) by {
        if 0 <= j < 64 {
            bits_of_half(j as u64);
        }
    }
}

/// A word without bits is zero.
pub proof fn lemma_no_bits_is_zero64(x: u64)
    ensures
        (x == 0) == (forall|j: int| !#[trigger] has64(x, j)),
{
    lemma_ops64(x, 0);
    if forall|j: int| !#[trigger] has64(x, j) {
        lemma_same64(x, 0);
    }
}

/// A word in which one bit below `n` has moved to a free place below `n`
/// counts the same.
pub proof fn lemma_count_moved64(x: u64, y: u64, n: nat, i: int, k: int)
    requires
        0 <= i < n,
        0 <= k < n,
        i != k,
        has64(x, i),
        !has64(x, k),
        !has64(y, i),
        has64(y, k),
        forall|j: int| 0 <= j < n && j != i && j != k ==> has64(x, j) == has64(y, j),
    ensures
        count64(y, n) == count64(x, n),
    decreases n,
{
    if i == n - 1 {
        lemma_count_plus_one64(x, y, (n - 1) as nat, k);
    } else if k == n - 1 {
        lemma_count_plus_one64(y, x, (n - 1) as nat, i);
    } else {
        lemma_count_moved64(x, y, (n - 1) as nat, i, k);
    }
}

/// A word with a bit below `n` counts at least one below `n`.
pub proof fn lemma_count_some64(x: u64, n: nat, i: int)
    requires
        0 <= i < n,
        has64(x, i),
    ensures
        count64(x, n) >= 1,
    decreases n,
{
    if i < n - 1 {
        lemma_count_some64(x, (n - 1) as nat, i);
    }
}

/// A word without bits from `n` up counts below `n` all the bits it has.
pub proof fn lemma_count_all64(x: u64, n: nat, m: nat)
    requires
        n <= m <= 64,
        forall|j: int| n <= j < m ==> !has64(x, j),
    ensures
        count64(x, m) == count64(x, n),
    decreases m - n,
{
    if n < m {
        lemma_count_all64(x, n, (m - 1) as nat);
    }
}

/// A word without bits below `n` counts nothing below `n`.
pub proof fn lemma_count_none64(x: u64, n: nat)
    requires
        forall|j: int| 0 <= j < n ==> !has64(x, j),
    ensures
        count64(x, n) == 0,
    decreases n,
{
    if n > 0 {
        lemma_count_none64(x, (n - 1) as nat);
    }
}

/// In a list of numbers that rises from `0` or above, each entry is at
/// least its place in the list.
pub proof fn lemma_rising_floor(list: Seq<int>, k: int)
    requires
        0 <= k < list.len(),
        list[0] >= 0,
        forall|i: int, j: int| 0 <= i < j < list.len() ==> #[trigger] list[i] < #[trigger] list[j],
    ensures
        list[k] >= k,
    decreases k,
{
    if k > 0 {
        lemma_rising_floor(list, k - 1);
        assert(list[k - 1] < list[k]);
    }
}

/// A word with no bit from `n` up has at most `n` set bits to list.
pub proof fn lemma_set_bits_below16(x: u16, n: nat)
    requires
        forall|j: int| #[trigger] has16(x, j) ==> j < n,
    ensures
        set_bits16(x, 0).len() <= n,
{
    let list = set_bits16(x, 0);
    lemma_set_bits_rise16(x, 0);
    lemma_set_bits_hold16(x, 0);
    if list.len() > 0 {
        let last = list.len() - 1;
        lemma_rising_floor(list, last);
        assert(list.contains(list[last]));
    }
}

} // verus!
