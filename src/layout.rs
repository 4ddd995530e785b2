use vstd::prelude::*;

verus! {

/// Smallest accepted branching factor.
pub const MIN_NODE_SIZE: usize = 2;

/// Largest accepted branching factor (it is stored in 16 bits).
pub const MAX_NODE_SIZE: usize = 65535;

/// Largest accepted item count (item identifiers are 32-bit).
pub const MAX_ITEMS: usize = 4294967295;

/// Largest node count whose box-array offsets fit a 32-bit identifier.
pub const MAX_NODES: usize = 1073741823;

/// Number of nodes in the level above a level of `n` nodes.
pub open spec fn next_count(n: nat, node_size: nat) -> nat {
    if n == 0 || node_size == 0 {
        1
    } else {
        ((n + node_size - 1) as nat / node_size) as nat
    }
}

pub proof fn lemma_next_count(n: nat, node_size: nat)
    requires
        node_size >= 2,
    ensures
        n >= 1 ==> next_count(n, node_size) >= 1,
        n >= 2 ==> next_count(n, node_size) < n,
        n >= 2 ==> 3 * next_count(n, node_size) <= 2 * n,
        n >= 1 ==> next_count(n, node_size) * node_size >= n,
        n >= 1 ==> (next_count(n, node_size) - 1) * node_size < n,
        n <= 1 ==> next_count(n, node_size) == 1,
        n <= node_size ==> next_count(n, node_size) == 1,
{
    if n >= 1 {
        let m = next_count(n, node_size);
        let t = (n + node_size - 1) as nat;
        assert(m == t / node_size);
        assert(m * node_size <= t && t < m * node_size + node_size) by (nonlinear_arith)
            requires
                m == t / node_size,
                node_size >= 2,
        ;
        assert(m >= 1) by (nonlinear_arith)
            requires
                m * node_size + node_size > t,
                t >= node_size,
                node_size >= 2,
        ;
        assert((m - 1) * node_size < n) by (nonlinear_arith)
            requires
                m * node_size <= t,
                t == n + node_size - 1,
                m >= 1,
        ;
        assert(2 * (m - 1) <= (m - 1) * node_size) by (nonlinear_arith)
            requires
                m >= 1,
                node_size >= 2,
        ;
        if n <= node_size {
            assert(m - 1 == 0) by (nonlinear_arith)
                requires
                    (m - 1) * node_size < n,
                    n <= node_size,
                    m >= 1,
                    node_size >= 2,
            ;
        }
        if n == 1 {
            assert(m - 1 == 0) by (nonlinear_arith)
                requires
                    (m - 1) * node_size < 1,
                    m >= 1,
                    node_size >= 2,
            ;
        }
    }
}

/// Level boundaries (in box-array slots, four per node) above a level of
/// `n` nodes, when `total` nodes have been laid out so far.
pub open spec fn bounds_above(n: nat, node_size: nat, total: nat) -> Seq<nat>
    decreases n,
{
    let m = next_count(n, node_size);
    if m == 1 || node_size < 2 || m >= n {
        seq![4 * (total + m)]
    } else {
        seq![4 * (total + m)].add(bounds_above(m, node_size, total + m))
    }
}

/// Number of nodes above a level of `n` nodes, plus the `total` laid out so far.
pub open spec fn nodes_above(n: nat, node_size: nat, total: nat) -> nat
    decreases n,
{
    let m = next_count(n, node_size);
    if m == 1 || node_size < 2 || m >= n {
        total + m
    } else {
        nodes_above(m, node_size, total + m)
    }
}

/// The level boundaries of a tree over `num_items` leaves: the end slot of the
/// leaf level, then the end slot of each level above it, up to the root.
pub open spec fn level_bounds_of(num_items: nat, node_size: nat) -> Seq<nat> {
    seq![4 * num_items].add(bounds_above(num_items, node_size, num_items))
}

/// The number of nodes (leaves and internal) of a tree over `num_items` leaves.
pub open spec fn num_nodes_of(num_items: nat, node_size: nat) -> nat {
    nodes_above(num_items, node_size, num_items)
}

pub proof fn lemma_nodes_above_grows(n: nat, node_size: nat, total: nat)
    requires
        node_size >= 2,
    ensures
        nodes_above(n, node_size, total) > total,
    decreases n,
{
    let m = next_count(n, node_size);
    lemma_next_count(n, node_size);
    if m == 1 || m >= n {
    } else {
        lemma_nodes_above_grows(m, node_size, total + m);
    }
}

/// Grouping `n` nodes `node_size` at a time: a group starting after `k` full
/// groups exists only while `k < next_count`, and the groups end exactly at it.
pub proof fn lemma_groups(n: nat, node_size: nat, k: nat)
    requires
        node_size >= 2,
        n >= 1,
    ensures
        k * node_size < n ==> k < next_count(n, node_size),
        k >= 1 && (k - 1) * node_size < n <= k * node_size ==> k == next_count(n, node_size),
{
    lemma_next_count(n, node_size);
    let m = next_count(n, node_size);
    if k * node_size < n {
        assert(k < m) by (nonlinear_arith)
            requires
                k * node_size < n,
                m * node_size >= n,
                node_size >= 2,
        ;
    }
    if k >= 1 && (k - 1) * node_size < n <= k * node_size {
        assert(k == m) by (nonlinear_arith)
            requires
                (k - 1) * node_size < n,
                n <= k * node_size,
                m * node_size >= n,
                (m - 1) * node_size < n,
                m >= 1,
                k >= 1,
                node_size >= 2,
        ;
    }
}

proof fn lemma_monotone_pair(b: Seq<nat>, i: int, j: int)
    requires
        forall|t: int| 0 <= t < b.len() - 1 ==> #[trigger] b[t] <= b[t + 1],
        0 <= i <= j < b.len(),
    ensures
        b[i] <= b[j],
    decreases j - i,
{
    if i < j {
        lemma_monotone_pair(b, i + 1, j);
        assert(b[i] <= b[i + 1]);
    }
}

/// Boundaries that never decrease from one level to the next never decrease at all.
pub proof fn lemma_monotone(b: Seq<nat>)
    requires
        forall|i: int| 0 <= i < b.len() - 1 ==> #[trigger] b[i] <= b[i + 1],
    ensures
        forall|i: int, j: int| 0 <= i <= j < b.len() ==> b[i] <= b[j],
{
    assert forall|i: int, j: int| 0 <= i <= j < b.len() implies b[i] <= b[j] by {
        lemma_monotone_pair(b, i, j);
    }
}

/// Nodes in level `i` of the levels that `b` bounds, the level below the first
/// one ending at `base`.
pub open spec fn count_at(b: Seq<nat>, base: nat, i: int) -> nat {
    if i == 0 {
        ((b[0] - base) / 4) as nat
    } else {
        ((b[i] - b[i - 1]) / 4) as nat
    }
}

proof fn lemma_bounds_above_shape(n: nat, node_size: nat, total: nat)
    requires
        node_size >= 2,
    ensures
        bounds_above(n, node_size, total).len() >= 1,
        bounds_above(n, node_size, total)[0] == 4 * (total + next_count(n, node_size)),
        bounds_above(n, node_size, total).last() == 4 * nodes_above(n, node_size, total),
        forall|i: int|
            0 <= i < bounds_above(n, node_size, total).len() ==> #[trigger] bounds_above(
                n,
                node_size,
                total,
            )[i] % 4 == 0,
        forall|i: int|
            0 <= i < bounds_above(n, node_size, total).len() - 1 ==> #[trigger] bounds_above(
                n,
                node_size,
                total,
            )[i + 1] == bounds_above(n, node_size, total)[i] + 4 * next_count(
                count_at(bounds_above(n, node_size, total), 4 * total, i),
                node_size,
            ),
        count_at(bounds_above(n, node_size, total), 4 * total, bounds_above(n, node_size, total).len() - 1) == 1,
    decreases n,
{
    let m = next_count(n, node_size);
    lemma_next_count(n, node_size);
    let a = bounds_above(n, node_size, total);
    if m == 1 || m >= n {
        assert(a == seq![4 * (total + m)]);
        assert(m == 1);
    } else {
        let rest = bounds_above(m, node_size, total + m);
        lemma_bounds_above_shape(m, node_size, total + m);
        assert(a == seq![4 * (total + m)].add(rest));
        assert forall|i: int| 0 <= i < a.len() implies #[trigger] a[i] % 4 == 0 by {
            if i > 0 {
                assert(a[i] == rest[i - 1]);
            }
        }
        assert forall|i: int| 0 <= i < a.len() - 1 implies #[trigger] a[i + 1] == a[i] + 4
            * next_count(count_at(a, 4 * total, i), node_size) by {
            assert(a[i + 1] == rest[i]);
            if i == 0 {
                assert(count_at(a, 4 * total, 0) == m);
            } else {
                assert(a[i] == rest[i - 1]);
                if i == 1 {
                    assert(a[0] == 4 * (total + m));
                } else {
                    assert(a[i - 1] == rest[i - 2]);
                }
                assert(count_at(a, 4 * total, i) == count_at(rest, 4 * (total + m), i - 1));
                let j = i - 1;
                assert(rest[j + 1] == rest[j] + 4 * next_count(
                    count_at(rest, 4 * (total + m), j),
                    node_size,
                ));
            }
        }
        assert(count_at(a, 4 * total, a.len() - 1) == count_at(rest, 4 * (total + m), rest.len() - 1));
    }
}

/// The level boundaries start at the leaf count, each level holds `next_count`
/// of the level below, the top level is the single root, and the last boundary
/// ends the whole box array.
pub proof fn lemma_level_bounds_shape(num_items: nat, node_size: nat)
    requires
        node_size >= 2,
    ensures
        level_bounds_of(num_items, node_size).len() >= 2,
        level_bounds_of(num_items, node_size)[0] == 4 * num_items,
        level_bounds_of(num_items, node_size).last() == 4 * num_nodes_of(num_items, node_size),
        forall|i: int|
            0 <= i < level_bounds_of(num_items, node_size).len() ==> #[trigger] level_bounds_of(
                num_items,
                node_size,
            )[i] % 4 == 0,
        forall|i: int|
            0 <= i < level_bounds_of(num_items, node_size).len() - 1 ==> #[trigger] level_bounds_of(
                num_items,
                node_size,
            )[i + 1] == level_bounds_of(num_items, node_size)[i] + 4 * next_count(
                count_at(level_bounds_of(num_items, node_size), 0, i),
                node_size,
            ),
        count_at(level_bounds_of(num_items, node_size), 0, level_bounds_of(num_items, node_size).len() - 1) == 1,
{
    let b = level_bounds_of(num_items, node_size);
    let a = bounds_above(num_items, node_size, num_items);
    lemma_bounds_above_shape(num_items, node_size, num_items);
    assert(b == seq![4 * num_items].add(a));
    assert forall|i: int| 0 <= i < b.len() implies #[trigger] b[i] % 4 == 0 by {
        if i > 0 {
            assert(b[i] == a[i - 1]);
        }
    }
    assert forall|i: int| 0 <= i < b.len() - 1 implies #[trigger] b[i + 1] == b[i] + 4
        * next_count(count_at(b, 0, i), node_size) by {
        assert(b[i + 1] == a[i]);
        if i == 0 {
            assert(count_at(b, 0, 0) == num_items);
        } else {
            assert(b[i] == a[i - 1]);
            if i == 1 {
                assert(b[0] == 4 * num_items);
            } else {
                assert(b[i - 1] == a[i - 2]);
            }
            assert(count_at(b, 0, i) == count_at(a, 4 * num_items, i - 1));
            let j = i - 1;
            assert(a[j + 1] == a[j] + 4 * next_count(count_at(a, 4 * num_items, j), node_size));
        }
    }
    assert(count_at(b, 0, b.len() - 1) == count_at(a, 4 * num_items, a.len() - 1));
}

/// Why a tree layout cannot be made.
#[derive(Debug, Clone, Copy, PartialEq, Eq, Structural)]
pub enum LayoutError {
    /// The node size lies outside `[MIN_NODE_SIZE, MAX_NODE_SIZE]`.
    NodeSizeOutOfRange,
    /// The item count does not fit a 32-bit identifier.
    TooManyItems,
    /// The tree has more nodes than 32-bit box-array offsets can address.
    EncodingOverflow,
}

/// Whether a tree over `num_items` leaves with branching `node_size` can be laid out.
pub open spec fn layout_ok(num_items: nat, node_size: nat) -> bool {
    MIN_NODE_SIZE <= node_size <= MAX_NODE_SIZE && num_items <= MAX_ITEMS
        && num_nodes_of(num_items, node_size) <= MAX_NODES
}

/// The geometry of a packed tree: node count and the end slot of each level.
pub struct Layout {
    pub num_items: usize,
    pub node_size: usize,
    pub num_nodes: usize,
    pub level_bounds: Vec<usize>,
}

impl Layout {
    /// The layout holds the geometry that `num_items` and `node_size` determine.
    pub open spec fn wf(&self) -> bool {
        &&& layout_ok(self.num_items as nat, self.node_size as nat)
        &&& self.num_nodes == num_nodes_of(self.num_items as nat, self.node_size as nat)
        &&& self.level_bounds@.map_values(|b: usize| b as nat) == level_bounds_of(
            self.num_items as nat,
            self.node_size as nat,
        )
    }
}

/// Computes the node count and level boundaries of the tree over `num_items`
/// leaves with branching factor `node_size`.
pub fn compute_layout(num_items: usize, node_size: usize) -> (r: Result<Layout, LayoutError>)
    ensures
        r is Ok <==> layout_ok(num_items as nat, node_size as nat),
        r is Ok ==> r->Ok_0.wf() && r->Ok_0.num_items == num_items && r->Ok_0.node_size
            == node_size,
        !(MIN_NODE_SIZE <= node_size <= MAX_NODE_SIZE) ==> r == Err::<Layout, LayoutError>(
            LayoutError::NodeSizeOutOfRange,
        ),
        MIN_NODE_SIZE <= node_size <= MAX_NODE_SIZE && num_items > MAX_ITEMS ==> r == Err::<
            Layout,
            LayoutError,
        >(LayoutError::TooManyItems),
        MIN_NODE_SIZE <= node_size <= MAX_NODE_SIZE && num_items <= MAX_ITEMS && num_nodes_of(
            num_items as nat,
            node_size as nat,
        ) > MAX_NODES ==> r == Err::<Layout, LayoutError>(LayoutError::EncodingOverflow),
{
    if node_size < MIN_NODE_SIZE || node_size > MAX_NODE_SIZE {
        return Err(LayoutError::NodeSizeOutOfRange);
    }
    if num_items > MAX_ITEMS {
        return Err(LayoutError::TooManyItems);
    }
    let ghost ns = node_size as nat;
    let ghost target = num_nodes_of(num_items as nat, ns);
    proof {
        lemma_nodes_above_grows(num_items as nat, ns, num_items as nat);
    }
    if num_items > MAX_NODES {
        return Err(LayoutError::EncodingOverflow);
    }
    let mut n: usize = num_items;
    let mut num_nodes: usize = num_items;
    let mut bounds: Vec<usize> = Vec::new();
    bounds.push(num_items * 4);
    loop
        invariant
            MIN_NODE_SIZE <= node_size <= MAX_NODE_SIZE,
            ns == node_size as nat,
            num_items <= MAX_ITEMS,
            target == num_nodes_of(num_items as nat, ns),
            num_items <= MAX_NODES,
            n <= num_items || n <= 1,
            num_nodes <= MAX_NODES,
            nodes_above(n as nat, ns, num_nodes as nat) == target,
            bounds@.map_values(|b: usize| b as nat).add(bounds_above(n as nat, ns, num_nodes as nat))
                == level_bounds_of(num_items as nat, ns),
        decreases n + 2,
    {
        proof {
            lemma_next_count(n as nat, ns);
        }
        let m: usize = if n == 0 {
            1
        } else {
            (n + (node_size - 1)) / node_size
        };
        assert(m == next_count(n as nat, ns));
        proof {
            lemma_nodes_above_grows(m as nat, ns, (num_nodes + m) as nat);
        }
        if num_nodes + m > MAX_NODES {
            return Err(LayoutError::EncodingOverflow);
        }
        let ghost old_bounds = bounds@;
        let ghost old_total = num_nodes as nat;
        num_nodes = num_nodes + m;
        bounds.push(num_nodes * 4);
        assert(bounds@.map_values(|b: usize| b as nat) =~= old_bounds.map_values(
            |b: usize| b as nat,
        ).push((4 * (old_total + m)) as nat));
        if m == 1 || m >= n {
            assert(bounds@.map_values(|b: usize| b as nat) =~= level_bounds_of(
                num_items as nat,
                ns,
            ));
            return Ok(Layout { num_items, node_size, num_nodes, level_bounds: bounds });
        }
        assert(bounds@.map_values(|b: usize| b as nat).add(
            bounds_above(m as nat, ns, num_nodes as nat),
        ) =~= level_bounds_of(num_items as nat, ns));
        n = m;
    }
}

/// Laying out a tree is a function of the item count and the node size alone:
/// two well-formed layouts for the same inputs agree on every node count and
/// level boundary.
pub proof fn lemma_layout_deterministic(a: &Layout, b: &Layout)
    requires
        a.wf(),
        b.wf(),
        a.num_items == b.num_items,
        a.node_size == b.node_size,
    ensures
        a.num_nodes == b.num_nodes,
        a.level_bounds@ == b.level_bounds@,
{
    let ma = a.level_bounds@.map_values(|x: usize| x as nat);
    let mb = b.level_bounds@.map_values(|x: usize| x as nat);
    assert(ma == mb);
    assert forall|i: int| 0 <= i < a.level_bounds@.len() implies a.level_bounds@[i]
        == b.level_bounds@[i] by {
        assert(ma[i] == mb[i]);
    }
    assert(a.level_bounds@ =~= b.level_bounds@);
}

} // verus!
