use vstd::prelude::*;

verus! {

/// Whether position `i` comes before position `j` when positions are ordered by
/// ascending key, ties kept in input order.
pub open spec fn precedes(keys: Seq<u32>, i: int, j: int) -> bool {
    keys[i] < keys[j] || (keys[i] == keys[j] && i < j)
}

/// `order` lists every position of `keys` once, by ascending key, equal keys in
/// the order of their positions. Exactly one sequence meets this.
pub open spec fn is_stable_order(keys: Seq<u32>, order: Seq<nat>) -> bool {
    &&& order.len() == keys.len()
    &&& forall|i: int| 0 <= i < order.len() ==> order[i] < keys.len()
    &&& forall|i: int, j: int|
        0 <= i < j < order.len() ==> #[trigger] precedes(keys, order[i] as int, order[j] as int)
    &&& forall|id: nat| id < keys.len() ==> #[trigger] order.contains(id)
}

/// The stable order of the positions of `keys` by ascending key.
pub fn stable_order(keys: &Vec<u32>) -> (r: Vec<usize>)
    ensures
        is_stable_order(keys@, r@.map_values(|x: usize| x as nat)),
{
    let n = keys.len();
    let mut order: Vec<usize> = Vec::new();
    let mut k: usize = 0;
    while k < n
        invariant
            n == keys@.len(),
            k <= n,
            order@.len() == k,
            forall|i: int| 0 <= i < order@.len() ==> order@[i] < k,
            forall|id: usize| id < k ==> #[trigger] order@.contains(id),
            forall|i: int, j: int|
                0 <= i < j < order@.len() ==> #[trigger] precedes(
                    keys@,
                    order@[i] as int,
                    order@[j] as int,
                ),
        decreases n - k,
    {
        let kk = keys[k];
        let mut j: usize = order.len();
        while j > 0 && keys[order[j - 1]] > kk
            invariant
                n == keys@.len(),
                k < n,
                kk == keys@[k as int],
                order@.len() == k,
                j <= k,
                forall|i: int| 0 <= i < order@.len() ==> order@[i] < k,
                forall|m: int| j <= m < order@.len() ==> keys@[order@[m] as int] > kk,
            decreases j,
        {
            j = j - 1;
        }
        let ghost old_order = order@;
        proof {
            assert forall|m: int| 0 <= m < j implies keys@[old_order[m] as int] <= kk by {
                if m < j - 1 {
                    assert(precedes(keys@, old_order[m] as int, old_order[j - 1] as int));
                }
            }
        }
        order.insert(j, k);
        assert(order@ == old_order.insert(j as int, k));
        assert forall|id: usize| id < k + 1 implies #[trigger] order@.contains(id) by {
            if id == k {
                assert(order@[j as int] == id);
            } else {
                assert(old_order.contains(id));
                let t0 = choose|t: int| 0 <= t < old_order.len() && old_order[t] == id;
                if t0 < j {
                    assert(order@[t0] == id);
                } else {
                    assert(order@[t0 + 1] == id);
                }
            }
        }
        assert forall|a: int, b: int| 0 <= a < b < order@.len() implies #[trigger] precedes(
            keys@,
            order@[a] as int,
            order@[b] as int,
        ) by {
            if b < j {
                assert(precedes(keys@, old_order[a] as int, old_order[b] as int));
            } else if b == j {
            } else if a < j {
            } else if a == j {
            } else {
                assert(precedes(keys@, old_order[a - 1] as int, old_order[b - 1] as int));
            }
        }
        k = k + 1;
    }
    let ghost m = order@.map_values(|x: usize| x as nat);
    assert forall|i: int, j: int| 0 <= i < j < m.len() implies #[trigger] precedes(
        keys@,
        m[i] as int,
        m[j] as int,
    ) by {
        assert(precedes(keys@, order@[i] as int, order@[j] as int));
    }
    assert forall|id: nat| id < keys@.len() implies #[trigger] m.contains(id) by {
        assert(order@.contains(id as usize));
        let t = choose|t: int| 0 <= t < order@.len() && order@[t] == id as usize;
        assert(m[t] == id);
    }
    order
}

} // verus!
