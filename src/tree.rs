use vstd::prelude::*;
use crate::coord::{Rect, union, contains, lemma_union_contains};

verus! {

/// The element-wise min/max aggregate of `boxes[a..b)`, folded from `boxes[a]`.
pub open spec fn union_range(boxes: Seq<Rect>, a: int, b: int) -> Rect
    decreases b - a,
{
    if b <= a + 1 {
        boxes[a]
    } else {
        union(union_range(boxes, a, b - 1), boxes[b - 1])
    }
}

/// `union_range` reads only the boxes in its range.
pub proof fn lemma_union_range_frame(b1: Seq<Rect>, b2: Seq<Rect>, a: int, b: int)
    requires
        a < b,
        forall|i: int| a <= i < b ==> b1[i] == b2[i],
    ensures
        union_range(b1, a, b) == union_range(b2, a, b),
    decreases b - a,
{
    if b > a + 1 {
        lemma_union_range_frame(b1, b2, a, b - 1);
    }
}

/// The aggregate of a range covers every box in it.
pub proof fn lemma_union_range_contains(boxes: Seq<Rect>, a: int, b: int, i: int)
    requires
        a <= i < b,
    ensures
        contains(union_range(boxes, a, b), boxes[i]),
    decreases b - a,
{
    if b > a + 1 {
        let prev = union_range(boxes, a, b - 1);
        lemma_union_contains(prev, boxes[b - 1]);
        if i < b - 1 {
            lemma_union_range_contains(boxes, a, b - 1, i);
        }
    }
}

/// First node position of level `l` (level 0 holds the leaves).
pub open spec fn level_start(bounds: Seq<nat>, l: int) -> int {
    if l == 0 {
        0
    } else {
        bounds[l - 1] as int / 4
    }
}

/// One past the last node position of level `l`.
pub open spec fn level_end(bounds: Seq<nat>, l: int) -> int {
    bounds[l] as int / 4
}

/// Position of the first child of node `p` of level `l >= 1`: the nodes of a
/// level each take the next `node_size` nodes of the level below.
pub open spec fn first_child(node_size: nat, bounds: Seq<nat>, l: int, p: int) -> int {
    level_start(bounds, l - 1) + (p - level_start(bounds, l)) * node_size
}

/// One past the last child of node `p` of level `l >= 1` (the last node of a
/// level may have fewer than `node_size` children).
pub open spec fn child_end(node_size: nat, bounds: Seq<nat>, l: int, p: int) -> int {
    let e = first_child(node_size, bounds, l, p) + node_size;
    if e < level_end(bounds, l - 1) {
        e
    } else {
        level_end(bounds, l - 1)
    }
}

/// Internal node `p` of level `l` has at least one child, its box is the
/// aggregate of its children's boxes, and its identifier is the box-array slot
/// (four per node) of its first child.
pub open spec fn node_ok(
    node_size: nat,
    bounds: Seq<nat>,
    boxes: Seq<Rect>,
    ids: Seq<nat>,
    l: int,
    p: int,
) -> bool {
    let c = first_child(node_size, bounds, l, p);
    let e = child_end(node_size, bounds, l, p);
    &&& c < e
    &&& boxes[p] == union_range(boxes, c, e)
    &&& ids[p] == 4 * c
}

/// Every internal node of every level above the leaves is as `node_ok` says.
pub open spec fn is_packed_tree(
    node_size: nat,
    bounds: Seq<nat>,
    boxes: Seq<Rect>,
    ids: Seq<nat>,
) -> bool {
    forall|l: int, p: int|
        1 <= l < bounds.len() && level_start(bounds, l) <= p < level_end(bounds, l)
            ==> #[trigger] node_ok(node_size, bounds, boxes, ids, l, p)
}

/// Internal node `p` of level `l` covers the box of each of its children, and
/// its identifier is the box-array slot of its first child.
pub open spec fn node_covers(
    node_size: nat,
    bounds: Seq<nat>,
    boxes: Seq<Rect>,
    ids: Seq<nat>,
    l: int,
    p: int,
) -> bool {
    let c = first_child(node_size, bounds, l, p);
    let e = child_end(node_size, bounds, l, p);
    &&& ids[p] == 4 * c
    &&& forall|x: int| c <= x < e ==> #[trigger] contains(boxes[p], boxes[x])
}

/// Every internal node is as `node_covers` says: what a search needs.
pub open spec fn covers_tree(
    node_size: nat,
    bounds: Seq<nat>,
    boxes: Seq<Rect>,
    ids: Seq<nat>,
) -> bool {
    forall|l: int, p: int|
        1 <= l < bounds.len() && level_start(bounds, l) <= p < level_end(bounds, l)
            ==> #[trigger] node_covers(node_size, bounds, boxes, ids, l, p)
}

/// A packed tree covers: an aggregate bounds what it aggregates.
pub proof fn lemma_packed_covers(
    node_size: nat,
    bounds: Seq<nat>,
    boxes: Seq<Rect>,
    ids: Seq<nat>,
)
    requires
        is_packed_tree(node_size, bounds, boxes, ids),
    ensures
        covers_tree(node_size, bounds, boxes, ids),
{
    assert forall|l: int, p: int|
        1 <= l < bounds.len() && level_start(bounds, l) <= p < level_end(
            bounds,
            l,
        ) implies #[trigger] node_covers(node_size, bounds, boxes, ids, l, p) by {
        assert(node_ok(node_size, bounds, boxes, ids, l, p));
        let c = first_child(node_size, bounds, l, p);
        let e = child_end(node_size, bounds, l, p);
        assert forall|x: int| c <= x < e implies #[trigger] contains(boxes[p], boxes[x]) by {
            lemma_union_range_contains(boxes, c, e, x);
        }
    }
}

} // verus!
