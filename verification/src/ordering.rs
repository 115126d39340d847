//! Stable ordering of items by integer keys.
//!
//! Both genetic algorithms rank their populations with a stable sort on a
//! score (the number of attacks, or a fitness value mapped to an
//! order-preserving integer key). `stable_order` computes that ranking.

use vstd::prelude::*;

verus! {

/// Index `a` comes before index `b` in the stable order of `keys`: a smaller
/// key first, and between equal keys the smaller index first.
pub open spec fn key_before(keys: Seq<u64>, a: int, b: int) -> bool {
    keys[a] < keys[b] || (keys[a] == keys[b] && a < b)
}

/// `order` lists every index of `keys` once, in the stable order of the keys.
pub open spec fn is_stable_order(keys: Seq<u64>, order: Seq<usize>) -> bool {
    &&& order.len() == keys.len()
    &&& forall|i: int| 0 <= i < order.len() ==> order[i] < keys.len()
    &&& forall|k: usize| k < keys.len() ==> #[trigger] order.contains(k)
    &&& forall|i: int, j: int|
        0 <= i < j < order.len() ==> key_before(keys, order[i] as int, order[j] as int)
}

/// `m` is the first index that holds the smallest key.
pub open spec fn is_first_minimum(keys: Seq<u64>, m: int) -> bool {
    &&& 0 <= m < keys.len()
    &&& forall|j: int| 0 <= j < keys.len() ==> keys[m] <= keys[j]
    &&& forall|j: int| 0 <= j < m ==> keys[m] < keys[j]
}

/// The indices of `keys` sorted by key, ties kept in index order (what a
/// stable sort of the indices by key gives).
pub fn stable_order(keys: &Vec<u64>) -> (order: Vec<usize>)
    ensures
        is_stable_order(keys@, order@),
{
    let n = keys.len();
    let mut order: Vec<usize> = Vec::new();
    let mut i: usize = 0;
    while i < n
        invariant
            n == keys.len(),
            i <= n,
            order.len() == i,
            forall|p: int| 0 <= p < i ==> order@[p] < i,
            forall|k: usize| k < i ==> #[trigger] order@.contains(k),
            forall|p: int, q: int|
                0 <= p < q < i ==> key_before(keys@, order@[p] as int, order@[q] as int),
        decreases n - i,
    {
        let ki = keys[i];
        let mut pos: usize = 0;
        while pos < order.len() && keys[order[pos]] <= ki
            invariant
                n == keys.len(),
                i < n,
                order.len() == i,
                pos <= order.len(),
                forall|p: int| 0 <= p < i ==> order@[p] < i,
                forall|p: int| 0 <= p < pos ==> keys@[order@[p] as int] <= ki,
            decreases order.len() - pos,
        {
            pos += 1;
        }
        let ghost old_order = order@;
        proof {
            assert forall|p: int| pos <= p < i implies keys@[old_order[p] as int] > ki by {
                if p > pos {
                    assert(key_before(keys@, old_order[pos as int] as int, old_order[p] as int));
                }
            }
        }
        order.insert(pos, i);
        proof {
            let s = order@;
            assert(s == old_order.insert(pos as int, i));
            assert forall|p: int, q: int| 0 <= p < q < i + 1 implies key_before(
                keys@,
                s[p] as int,
                s[q] as int,
            ) by {
                if q < pos {
                } else if q == pos {
                } else if p < pos {
                    assert(key_before(keys@, old_order[p] as int, old_order[q - 1] as int));
                } else if p == pos {
                } else {
                    assert(key_before(keys@, old_order[p - 1] as int, old_order[q - 1] as int));
                }
            }
            assert forall|k: usize| k < i + 1 implies #[trigger] s.contains(k) by {
                if k < i {
                    assert(old_order.contains(k));
                    let w = choose|w: int| 0 <= w < old_order.len() && old_order[w] == k;
                    if w < pos {
                        assert(s[w] == k);
                    } else {
                        assert(s[w + 1] == k);
                    }
                } else {
                    assert(s[pos as int] == i);
                }
            }
        }
        i += 1;
    }
    order
}

/// The first index holding the smallest key: the winner of a tournament
/// whose candidates are ranked by a stable sort on their scores.
pub fn first_minimum(keys: &Vec<u64>) -> (m: usize)
    requires
        keys.len() > 0,
    ensures
        is_first_minimum(keys@, m as int),
{
    let mut m: usize = 0;
    let mut j: usize = 1;
    while j < keys.len()
        invariant
            keys.len() > 0,
            1 <= j <= keys.len(),
            m < j,
            forall|t: int| 0 <= t < j ==> keys@[m as int] <= keys@[t],
            forall|t: int| 0 <= t < m ==> keys@[m as int] < keys@[t],
        decreases keys.len() - j,
    {
        if keys[j] < keys[m] {
            m = j;
        }
        j += 1;
    }
    m
}

/// Law: the first entry of the stable order is the first index with the
/// smallest key, so taking the head of a stable ranking and scanning for the
/// first minimum pick the same item.
pub proof fn lemma_stable_order_head_is_first_minimum(keys: Seq<u64>, order: Seq<usize>, m: usize)
    requires
        keys.len() > 0,
        is_stable_order(keys, order),
        is_first_minimum(keys, m as int),
    ensures
        order[0] == m,
{
    assert(order.contains(m));
    let w = choose|w: int| 0 <= w < order.len() && order[w] == m;
    if w > 0 {
        assert(key_before(keys, order[0] as int, order[w] as int));
        assert(false);
    }
}

/// Law: a stable order is unique. Two orders of the same keys that are both
/// stable are equal, so the ranking does not depend on how it was computed.
pub proof fn lemma_stable_order_unique(keys: Seq<u64>, o1: Seq<usize>, o2: Seq<usize>)
    requires
        is_stable_order(keys, o1),
        is_stable_order(keys, o2),
    ensures
        o1 == o2,
    decreases keys.len(),
{
    assert forall|i: int| 0 <= i < o1.len() implies o1[i] == o2[i] by {
        lemma_rank_determined(keys, o1, o2, i);
    }
    assert(o1 =~= o2);
}

/// The entry at position `i` of a stable order is the index that has exactly
/// `i` indices before it in the key order.
proof fn lemma_rank_determined(keys: Seq<u64>, o1: Seq<usize>, o2: Seq<usize>, i: int)
    requires
        is_stable_order(keys, o1),
        is_stable_order(keys, o2),
        0 <= i < o1.len(),
    ensures
        o1[i] == o2[i],
    decreases i,
{
    if o1[i] != o2[i] {
        let a = o1[i];
        let b = o2[i];
        assert(o2.contains(a));
        assert(o1.contains(b));
        let wa = choose|w: int| 0 <= w < o2.len() && o2[w] == a;
        let wb = choose|w: int| 0 <= w < o1.len() && o1[w] == b;
        // positions before i agree, so neither wa nor wb lies before i
        if wa < i {
            lemma_rank_determined(keys, o1, o2, wa);
            assert(o1[wa] == a);
            lemma_distinct(keys, o1, wa, i);
        }
        if wb < i {
            lemma_rank_determined(keys, o1, o2, wb);
            assert(o2[wb] == b);
            lemma_distinct(keys, o2, wb, i);
        }
        // a comes after b in o2, b comes after a in o1: contradiction
        assert(key_before(keys, b as int, a as int));
        assert(key_before(keys, a as int, b as int));
    }
}

proof fn lemma_distinct(keys: Seq<u64>, o: Seq<usize>, p: int, q: int)
    requires
        is_stable_order(keys, o),
        0 <= p < q < o.len(),
    ensures
        o[p] != o[q],
{
    assert(key_before(keys, o[p] as int, o[q] as int));
}

} // verus!
