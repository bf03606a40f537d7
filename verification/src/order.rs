//! Stable ordering of items by a numeric key.

use vstd::prelude::*;

verus! {

/// Item `a` comes before item `b`: a smaller key, or the same key and an
/// earlier position.
pub open spec fn key_before(keys: Seq<u64>, a: int, b: int) -> bool {
    keys[a] < keys[b] || (keys[a] == keys[b] && a < b)
}

/// `order` lists every position of `keys` once, by ascending key, keeping
/// positions with equal keys in their original order.
pub open spec fn is_stable_order(keys: Seq<u64>, order: Seq<usize>) -> bool {
    &&& order.len() == keys.len()
    &&& forall|i: int| 0 <= i < order.len() ==> #[trigger] order[i] < keys.len()
    &&& forall|i: int, j: int|
        0 <= i < j < order.len() ==> key_before(keys, #[trigger] order[i] as int, #[trigger] order[j] as int)
}

/// The positions of `keys` by ascending key; a stable sort.
pub fn stable_order(keys: &Vec<u64>) -> (order: Vec<usize>)
    ensures
        is_stable_order(keys@, order@),
{
    let n = keys.len();
    let mut taken: Vec<bool> = Vec::new();
    let mut k: usize = 0;
    while k < n
        invariant
            k <= n,
            taken@.len() == k,
            forall|j: int| 0 <= j < k ==> !taken@[j],
        decreases n - k,
    {
        taken.push(false);
        k += 1;
    }
    let mut order: Vec<usize> = Vec::new();
    while order.len() < n
        invariant
            n == keys@.len(),
            taken@.len() == n,
            order@.len() <= n,
            forall|i: int| 0 <= i < order@.len() ==> #[trigger] order@[i] < n,
            forall|j: int| 0 <= j < n ==> (#[trigger] taken@[j] <==> order@.contains(j as usize)),
            forall|i: int, j: int|
                0 <= i < j < order@.len() ==> key_before(
                    keys@,
                    #[trigger] order@[i] as int,
                    #[trigger] order@[j] as int,
                ),
            forall|i: int, u: int|
                #![trigger order@[i], taken@[u]]
                0 <= i < order@.len() && 0 <= u < n && !taken@[u] ==> key_before(
                    keys@,
                    order@[i] as int,
                    u,
                ),
        decreases n - order@.len(),
    {
        // Some position is still free: the taken ones are exactly those in `order`.
        proof {
            lemma_free_position_exists(taken@, order@, n as int);
        }
        let mut best: usize = n;
        let mut j: usize = 0;
        while j < n
            invariant
                n == keys@.len(),
                taken@.len() == n,
                j <= n,
                best == n || (best < j && !taken@[best as int]),
                best == n ==> forall|u: int| 0 <= u < j ==> #[trigger] taken@[u],
                best < n ==> forall|u: int|
                    0 <= u < j && !taken@[u] && u != best ==> key_before(keys@, best as int, u),
            decreases n - j,
        {
            if !taken[j] && (best == n || keys[j] < keys[best]) {
                best = j;
            }
            j += 1;
        }
        proof {
            if best == n {
                assert(false);
            }
        }
        let ghost before = order@;
        order.push(best);
        taken.set(best, true);
        proof {
            assert forall|q: int| 0 <= q < n implies (#[trigger] taken@[q] <==> order@.contains(
                q as usize,
            )) by {
                if q == best as int {
                    assert(order@[before.len() as int] == best);
                } else {
                    if order@.contains(q as usize) {
                        let w = choose|w: int| 0 <= w < order@.len() && order@[w] == q as usize;
                        if w < before.len() {
                            assert(before[w] == q as usize);
                        }
                    }
                    if before.contains(q as usize) {
                        let w = choose|w: int| 0 <= w < before.len() && before[w] == q as usize;
                        assert(order@[w] == q as usize);
                    }
                }
            }
        }
    }
    order
}

proof fn lemma_free_position_exists(taken: Seq<bool>, order: Seq<usize>, n: int)
    requires
        taken.len() == n,
        n <= usize::MAX,
        order.len() < n,
        forall|i: int| 0 <= i < order.len() ==> #[trigger] order[i] < n,
        forall|j: int| 0 <= j < n ==> (#[trigger] taken[j] <==> order.contains(j as usize)),
    ensures
        exists|u: int| 0 <= u < n && !taken[u],
{
    let ints = order.map_values(|x: usize| x as int);
    let used = ints.to_set();
    if forall|u: int| 0 <= u < n ==> taken[u] {
        assert forall|j: int| vstd::set_lib::set_int_range(0, n).contains(j) implies used.contains(
            j,
        ) by {
            assert(taken[j]);
            let w = choose|w: int| 0 <= w < order.len() && order[w] == j as usize;
            assert(ints[w] == j);
        }
        vstd::set_lib::lemma_int_range(0, n);
        ints.lemma_cardinality_of_set();
        vstd::seq_lib::seq_to_set_is_finite(ints);
        vstd::set_lib::lemma_len_subset(vstd::set_lib::set_int_range(0, n), used);
        assert(false);
    }
}


/// The stable order of `keys`, where there is one.
pub open spec fn stable_order_of(keys: Seq<u64>) -> Seq<usize> {
    choose|order: Seq<usize>| is_stable_order(keys, order)
}

/// `items` listed in `order`.
pub open spec fn reorder<T>(items: Seq<T>, order: Seq<usize>) -> Seq<T> {
    Seq::new(order.len(), |i: int| items[order[i] as int])
}

/// A stable order lists every position.
proof fn lemma_stable_order_covers(keys: Seq<u64>, order: Seq<usize>, u: int)
    requires
        is_stable_order(keys, order),
        0 <= u < keys.len(),
    ensures
        exists|j: int| 0 <= j < order.len() && order[j] == u,
{
    let n = keys.len() as int;
    let ints = order.map_values(|x: usize| x as int);
    if forall|j: int| 0 <= j < order.len() ==> order[j] != u {
        assert(ints.no_duplicates()) by {
            assert forall|i: int, j: int| 0 <= i < ints.len() && 0 <= j < ints.len() && i != j implies ints[i]
                != ints[j] by {
                if i < j {
                    assert(key_before(keys, order[i] as int, order[j] as int));
                } else {
                    assert(key_before(keys, order[j] as int, order[i] as int));
                }
            }
        }
        ints.unique_seq_to_set();
        let range = vstd::set_lib::set_int_range(0, n).remove(u);
        assert forall|x: int| ints.to_set().contains(x) implies range.contains(x) by {
            let w = choose|w: int| 0 <= w < ints.len() && ints[w] == x;
            assert(order[w] < keys.len());
        }
        vstd::set_lib::lemma_int_range(0, n);
        vstd::set_lib::lemma_len_subset(ints.to_set(), range);
        assert(false);
    }
}

/// Two positions cannot each come before the other.
proof fn lemma_key_before_asymmetric(keys: Seq<u64>, a: int, b: int)
    ensures
        !(key_before(keys, a, b) && key_before(keys, b, a)),
{
}

/// A sequence of keys has at most one stable order: the order that a
/// stable sort produces is fully determined by the keys.
pub proof fn stable_order_unique(keys: Seq<u64>, first: Seq<usize>, second: Seq<usize>)
    requires
        is_stable_order(keys, first),
        is_stable_order(keys, second),
    ensures
        first == second,
{
    assert forall|i: int| 0 <= i < first.len() implies first[i] == second[i] by {
        lemma_stable_orders_agree_up_to(keys, first, second, i);
    }
    assert(first =~= second);
}

proof fn lemma_stable_orders_agree_up_to(keys: Seq<u64>, first: Seq<usize>, second: Seq<usize>, i: int)
    requires
        is_stable_order(keys, first),
        is_stable_order(keys, second),
        0 <= i < first.len(),
    ensures
        forall|k: int| 0 <= k <= i ==> first[k] == second[k],
    decreases i,
{
    if i > 0 {
        lemma_stable_orders_agree_up_to(keys, first, second, i - 1);
    }
    let a = first[i];
    let b = second[i];
    if a != b {
        lemma_stable_order_covers(keys, second, a as int);
        let j = choose|j: int| 0 <= j < second.len() && second[j] == a;
        lemma_stable_order_covers(keys, first, b as int);
        let k = choose|k: int| 0 <= k < first.len() && first[k] == b;
        if j < i {
            assert(first[j] == a);
            assert(key_before(keys, first[j] as int, first[i] as int));
        }
        if k < i {
            assert(second[k] == b);
            assert(key_before(keys, second[k] as int, second[i] as int));
        }
        assert(j > i && k > i);
        assert(key_before(keys, second[i] as int, second[j] as int));
        assert(key_before(keys, first[i] as int, first[k] as int));
        lemma_key_before_asymmetric(keys, a as int, b as int);
    }
}

/// The order that any stable sort produces is the stable order of the keys.
pub proof fn lemma_is_the_stable_order(keys: Seq<u64>, order: Seq<usize>)
    requires
        is_stable_order(keys, order),
    ensures
        stable_order_of(keys) == order,
{
    stable_order_unique(keys, stable_order_of(keys), order);
}

} // verus!
