//! Stable ordering by a numeric key.
use crate::float::F32;
use vstd::prelude::*;

verus! {

/// How many of the indices in `order` go before an index with key `key`: all up to the last one
/// whose key is not larger.
pub open spec fn insertion_point(keys: Seq<F32>, order: Seq<int>, key: F32) -> int
    decreases order.len(),
{
    if order.len() == 0 {
        0
    } else if key.lt(keys[order.last()]) {
        insertion_point(keys, order.drop_last(), key)
    } else {
        order.len() as int
    }
}

/// The first `n` indices in the order of their keys. Of two equal keys the earlier index comes
/// first.
pub open spec fn ordered(keys: Seq<F32>, n: nat) -> Seq<int>
    decreases n,
{
    if n == 0 {
        Seq::empty()
    } else {
        let before = ordered(keys, (n - 1) as nat);
        before.insert(insertion_point(keys, before, keys[n - 1]), n - 1)
    }
}

/// All indices in the order of their keys.
pub open spec fn stable_order(keys: Seq<F32>) -> Seq<int> {
    ordered(keys, keys.len())
}

pub open spec fn as_ints(s: Seq<usize>) -> Seq<int> {
    Seq::new(s.len(), |i: int| s[i] as int)
}

/// Does `s` hold each of `0..n` once?
pub open spec fn is_permutation(s: Seq<int>, n: nat) -> bool {
    &&& s.len() == n
    &&& forall|i: int| 0 <= i < s.len() ==> 0 <= #[trigger] s[i] < n
    &&& forall|i: int, j: int| 0 <= i < j < s.len() ==> s[i] != s[j]
    &&& forall|v: int| 0 <= v < n ==> #[trigger] s.contains(v)
}

/// Where an index is inserted, the keys behind are larger and the key before is not.
pub proof fn lemma_insertion_point(keys: Seq<F32>, order: Seq<int>, key: F32)
    ensures
        0 <= insertion_point(keys, order, key) <= order.len(),
        forall|j: int|
            insertion_point(keys, order, key) <= j < order.len() ==> key.lt(
                keys[#[trigger] order[j]],
            ),
        insertion_point(keys, order, key) > 0 ==> !key.lt(
            keys[order[insertion_point(keys, order, key) - 1]],
        ),
    decreases order.len(),
{
    if order.len() > 0 && key.lt(keys[order.last()]) {
        let rest = order.drop_last();
        lemma_insertion_point(keys, rest, key);
        let at = insertion_point(keys, rest, key);
        assert forall|j: int| at <= j < order.len() implies key.lt(keys[#[trigger] order[j]]) by {
            if j < order.len() - 1 {
                assert(rest[j] == order[j]);
            }
        }
    }
}

/// An order holds every index once.
pub proof fn lemma_order_is_permutation(keys: Seq<F32>, n: nat)
    requires
        n <= keys.len(),
    ensures
        is_permutation(ordered(keys, n), n),
    decreases n,
{
    if n > 0 {
        let before = ordered(keys, (n - 1) as nat);
        lemma_order_is_permutation(keys, (n - 1) as nat);
        lemma_insertion_point(keys, before, keys[n - 1]);
        let at = insertion_point(keys, before, keys[n - 1]);
        let after = before.insert(at, n - 1);
        assert forall|v: int| 0 <= v < n implies #[trigger] after.contains(v) by {
            if v == n - 1 {
                assert(after[at] == v);
            } else {
                assert(before.contains(v));
                let k = choose|k: int| 0 <= k < before.len() && before[k] == v;
                if k < at {
                    assert(after[k] == v);
                } else {
                    assert(after[k + 1] == v);
                }
            }
        }
    }
}

/// With no NaN among the keys, an order is ascending, and equal keys stay in place.
pub proof fn law_order_is_ascending_and_stable(keys: Seq<F32>, n: nat, i: int, j: int)
    requires
        n <= keys.len(),
        forall|k: int| 0 <= k < keys.len() ==> !(#[trigger] keys[k]).nan(),
        0 <= i < j < n,
    ensures
        keys[ordered(keys, n)[i]].le(keys[ordered(keys, n)[j]]),
        keys[ordered(keys, n)[i]].same(keys[ordered(keys, n)[j]]) ==> ordered(keys, n)[i] < ordered(
            keys,
            n,
        )[j],
    decreases n,
{
    let before = ordered(keys, (n - 1) as nat);
    let after = ordered(keys, n);
    let key = keys[n - 1];
    lemma_order_is_permutation(keys, (n - 1) as nat);
    lemma_insertion_point(keys, before, key);
    let at = insertion_point(keys, before, key);
    reveal(F32::le_spec);
    reveal(F32::lt_spec);
    reveal(F32::same_spec);
    assert(!keys[n - 1].nan());
    if i == at {
        // the new index, before an old one
        assert(after[j] == before[j - 1]);
        assert(key.lt(keys[before[j - 1]]));
        assert(!keys[before[j - 1]].nan());
    } else if j == at {
        // an old index, before the new one
        assert(after[i] == before[i]);
        assert(!keys[before[i]].nan());
        assert(0 <= before[i] < n - 1);
        if i < at - 1 {
            law_order_is_ascending_and_stable(keys, (n - 1) as nat, i, at - 1);
            assert(!keys[before[at - 1]].nan());
        }
    } else {
        let bi = if i < at {
            i
        } else {
            i - 1
        };
        let bj = if j < at {
            j
        } else {
            j - 1
        };
        assert(after[i] == before[bi]);
        assert(after[j] == before[bj]);
        law_order_is_ascending_and_stable(keys, (n - 1) as nat, bi, bj);
    }
}

/// The indices of `keys` in the order of their keys; equal keys keep their order.
pub fn sort_indices(keys: &Vec<F32>) -> (r: Vec<usize>)
    ensures
        as_ints(r@) == stable_order(keys@),
        is_permutation(as_ints(r@), keys.len() as nat),
{
    let mut order: Vec<usize> = Vec::new();
    let mut n: usize = 0;
    while n < keys.len()
        invariant
            n <= keys.len(),
            as_ints(order@) == ordered(keys@, n as nat),
            is_permutation(as_ints(order@), n as nat),
        decreases keys.len() - n,
    {
        let key = keys[n];
        let ghost before = as_ints(order@);
        let mut at: usize = order.len();
        assert(before.take(at as int) =~= before);
        assert forall|i: int| 0 <= i < order.len() implies #[trigger] order[i] < n by {
            assert(before[i] == order[i]);
        }
        while at > 0 && key.lt(keys[order[at - 1]])
            invariant
                at <= order.len(),
                n < keys.len(),
                key == keys[n as int],
                before == as_ints(order@),
                is_permutation(before, n as nat),
                insertion_point(keys@, before, key) == insertion_point(
                    keys@,
                    before.take(at as int),
                    key,
                ),
                forall|i: int| 0 <= i < order.len() ==> #[trigger] order[i] < n,
            decreases at,
        {
            assert(before.take(at as int).drop_last() =~= before.take(at - 1));
            assert(before.take(at as int).last() == order[at - 1]);
            at = at - 1;
        }
        assert(insertion_point(keys@, before, key) == at) by {
            if at > 0 {
                assert(before.take(at as int).last() == order[at - 1]);
            }
        }
        proof {
            lemma_order_is_permutation(keys@, (n + 1) as nat);
            assert(as_ints(order@.insert(at as int, n)) =~= before.insert(at as int, n as int));
        }
        order.insert(at, n);
        n = n + 1;
    }
    order
}

} // verus!
