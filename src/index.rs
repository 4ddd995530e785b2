use vstd::prelude::*;
use crate::coord::{
    Rect, coord_key, contains, empty_rect, intersects, union, lemma_union_contains,
    lemma_contains_intersects, NEG_INFINITY, POS_INFINITY,
};
use crate::bytes::{le_bytes, push_le};
use crate::indices::{encode_all, MutableIndices, WIDE_THRESHOLD};
use crate::sort::{is_stable_order, precedes, stable_order};
use crate::traversal::{
    aligned_starts, found, from_visited, in_group, lemma_found_grows, lemma_scan_step,
    lemma_visited_grows, lemma_visited_next_run, lemma_visited_rebase,
};
use crate::tree::{
    covers_tree, node_covers, lemma_packed_covers, union_range, lemma_union_range_frame,
    level_start, level_end, first_child, child_end, node_ok, is_packed_tree,
};
use crate::layout::{
    Layout, compute_layout, lemma_nodes_above_grows, lemma_groups, lemma_monotone,
    lemma_level_bounds_shape, count_at, next_count, layout_ok, num_nodes_of, level_bounds_of,
    MAX_NODES, MIN_NODE_SIZE,
};

verus! {

/// First byte of every packed buffer.
pub const MAGIC: u8 = 0xfb;

/// Format version, stored in the high nibble of the second byte.
pub const VERSION: u8 = 3;

/// Type tag of 64-bit float boxes, stored in the low nibble of the second byte.
pub const ARRAY_TYPE_INDEX: u8 = 8;

/// Branching factor used when none is given.
pub const DEFAULT_NODE_SIZE: usize = 16;

/// The running min/max over `items`, starting from the box that bounds nothing.
pub open spec fn extent_of(items: Seq<Rect>) -> Rect
    decreases items.len(),
{
    if items.len() == 0 {
        empty_rect()
    } else {
        union(extent_of(items.drop_last()), items.last())
    }
}

/// The running extent covers every box it was taken over.
pub proof fn lemma_extent_contains(items: Seq<Rect>, i: int)
    requires
        0 <= i < items.len(),
    ensures
        contains(extent_of(items), items[i]),
    decreases items.len(),
{
    let prev = extent_of(items.drop_last());
    lemma_union_contains(prev, items.last());
    if i < items.len() - 1 {
        lemma_extent_contains(items.drop_last(), i);
    }
}

/// Every node below the root lies among the children of the node of the next
/// level that takes its run of `node_size`.
proof fn lemma_parent(num_items: nat, node_size: nat, l: int, x: int) -> (par: int)
    requires
        node_size >= 2,
        0 <= l < level_bounds_of(num_items, node_size).len() - 1,
        level_start(level_bounds_of(num_items, node_size), l) <= x < level_end(
            level_bounds_of(num_items, node_size),
            l,
        ),
    ensures
        level_start(level_bounds_of(num_items, node_size), l + 1) <= par < level_end(
            level_bounds_of(num_items, node_size),
            l + 1,
        ),
        first_child(node_size, level_bounds_of(num_items, node_size), l + 1, par) <= x
            < child_end(node_size, level_bounds_of(num_items, node_size), l + 1, par),
{
    let b = level_bounds_of(num_items, node_size);
    lemma_level_bounds_shape(num_items, node_size);
    let s = level_start(b, l);
    let cnt = count_at(b, 0, l);
    assert(b[l] % 4 == 0);
    if l > 0 {
        assert(b[l - 1] % 4 == 0);
    }
    assert(cnt == level_end(b, l) - s);
    assert(b[l + 1] == b[l] + 4 * next_count(cnt, node_size));
    let k = (x - s) / (node_size as int);
    vstd::arithmetic::div_mod::lemma_fundamental_div_mod(x - s, node_size as int);
    vstd::arithmetic::div_mod::lemma_mod_pos_bound(x - s, node_size as int);
    assert(k >= 0) by (nonlinear_arith)
        requires
            k == (x - s) / (node_size as int),
            x - s >= 0,
            node_size >= 2,
    ;
    assert(k * node_size <= x - s);
    lemma_groups(cnt, node_size, k as nat);
    k + level_start(b, l + 1)
}

/// `r` holds exactly the positions of the `items` that intersect `q`: each one
/// it holds meets `q`, and each one that meets `q` is in it.
pub open spec fn is_search_result(items: Seq<Rect>, q: Rect, r: Seq<usize>) -> bool {
    &&& forall|k: int| 0 <= k < r.len() ==> r[k] < items.len() && intersects(items[r[k] as int], q)
    &&& forall|i: int| 0 <= i < items.len() && intersects(items[i], q) ==> r.contains(i as usize)
    &&& r.no_duplicates()
}

/// Whether a box has its minimum at or below its maximum on both axes.
pub open spec fn is_proper(b: Rect) -> bool {
    coord_key(b.min_x) <= coord_key(b.max_x) && coord_key(b.min_y) <= coord_key(b.max_y)
}

/// Searching the global extent of proper boxes returns every identifier
/// `0..n` and nothing else.
pub proof fn lemma_full_extent_returns_all(items: Seq<Rect>, r: Seq<usize>)
    requires
        forall|i: int| 0 <= i < items.len() ==> is_proper(#[trigger] items[i]),
        is_search_result(items, extent_of(items), r),
    ensures
        r.to_set() == Set::new(|i: usize| i < items.len()),
{
    assert forall|i: usize| #[trigger] r.to_set().contains(i) <==> i < items.len() by {
        if i < items.len() {
            lemma_extent_contains(items, i as int);
            assert(is_proper(items[i as int]));
            assert(intersects(items[i as int], extent_of(items)));
            assert(r.contains(i));
        }
        if r.to_set().contains(i) {
            assert(r.contains(i));
        }
    }
    assert(r.to_set() =~= Set::new(|i: usize| i < items.len()));
}

/// The root covers every node of a covering tree.
proof fn lemma_root_covers(
    num_items: nat,
    node_size: nat,
    boxes: Seq<Rect>,
    ids: Seq<nat>,
    l: int,
    x: int,
)
    requires
        node_size >= 2,
        covers_tree(node_size, level_bounds_of(num_items, node_size), boxes, ids),
        0 <= l < level_bounds_of(num_items, node_size).len(),
        level_start(level_bounds_of(num_items, node_size), l) <= x < level_end(
            level_bounds_of(num_items, node_size),
            l,
        ),
    ensures
        contains(boxes[num_nodes_of(num_items, node_size) - 1], boxes[x]),
    decreases level_bounds_of(num_items, node_size).len() - l,
{
    let b = level_bounds_of(num_items, node_size);
    lemma_level_bounds_shape(num_items, node_size);
    let top = b.len() - 1;
    if l == top {
        assert(b[top] % 4 == 0);
        assert(b[top - 1] % 4 == 0);
        assert(count_at(b, 0, top) == 1);
        assert(x == num_nodes_of(num_items, node_size) - 1);
    } else {
        let par = lemma_parent(num_items, node_size, l, x);
        lemma_root_covers(num_items, node_size, boxes, ids, l + 1, par);
        assert(node_covers(node_size, b, boxes, ids, l + 1, par));
        assert(contains(boxes[par], boxes[x]));
    }
}

/// Fills every internal node, level by level from the leaves up: each run of
/// `node_size` consecutive nodes of a level (the last run may be shorter) gets
/// a parent in the next level, whose box is their aggregate and whose
/// identifier is the box-array slot of the run's first node.
fn build_levels(layout: &Layout, boxes: &mut Vec<Rect>, indices: &mut MutableIndices)
    requires
        layout.wf(),
        layout.num_items > layout.node_size,
        old(boxes)@.len() == layout.num_nodes,
        old(indices)@.len() == layout.num_nodes,
        old(indices).max_value() == if layout.num_nodes < WIDE_THRESHOLD {
            65535nat
        } else {
            4294967295nat
        },
    ensures
        final(boxes)@.len() == layout.num_nodes,
        final(indices)@.len() == layout.num_nodes,
        final(indices).width() == old(indices).width(),
        final(indices).max_value() == old(indices).max_value(),
        forall|i: int|
            0 <= i < layout.num_items ==> final(boxes)@[i] == old(boxes)@[i]
                && final(indices)@[i] == old(indices)@[i],
        is_packed_tree(
            layout.node_size as nat,
            level_bounds_of(layout.num_items as nat, layout.node_size as nat),
            final(boxes)@,
            final(indices)@,
        ),
{
    let ns = layout.node_size;
    let ghost n_items = layout.num_items as nat;
    let ghost bounds = level_bounds_of(n_items, ns as nat);
    let ghost boxes0 = boxes@;
    let ghost ids0 = indices@;
    let nlev = layout.level_bounds.len();
    proof {
        lemma_level_bounds_shape(n_items, ns as nat);
        assert forall|i: int| 0 <= i < bounds.len() - 1 implies #[trigger] bounds[i] <= bounds[i
            + 1] by {
            assert(bounds[i + 1] == bounds[i] + 4 * next_count(count_at(bounds, 0, i), ns as nat));
        }
        lemma_monotone(bounds);
        assert(layout.level_bounds@.len() == bounds.len());
        assert forall|i: int| 0 <= i < nlev implies layout.level_bounds@[i] == bounds[i] by {
            assert(layout.level_bounds@.map_values(|b: usize| b as nat)[i] == bounds[i]);
        }
    }
    let mut pos: usize = 0;
    let mut w: usize = layout.num_items;
    let mut l: usize = 0;
    while l < nlev - 1
        invariant
            layout.wf(),
            ns == layout.node_size,
            MIN_NODE_SIZE <= ns,
            n_items == layout.num_items,
            n_items > ns,
            bounds == level_bounds_of(n_items, ns as nat),
            nlev == bounds.len(),
            nlev >= 2,
            bounds[0] == 4 * n_items,
            bounds.last() == 4 * layout.num_nodes,
            forall|i: int| 0 <= i < nlev ==> layout.level_bounds@[i] == bounds[i],
            forall|i: int| 0 <= i < nlev ==> #[trigger] bounds[i] % 4 == 0,
            forall|i: int|
                0 <= i < nlev - 1 ==> #[trigger] bounds[i + 1] == bounds[i] + 4 * next_count(
                    count_at(bounds, 0, i),
                    ns as nat,
                ),
            forall|i: int, j: int| 0 <= i <= j < nlev ==> bounds[i] <= bounds[j],
            l < nlev,
            count_at(bounds, 0, l as int) >= 1,
            pos == level_start(bounds, l as int),
            w == level_end(bounds, l as int),
            boxes@.len() == layout.num_nodes,
            indices@.len() == layout.num_nodes,
            indices.width() == old(indices).width(),
            indices.max_value() == old(indices).max_value(),
            indices.max_value() == if layout.num_nodes < WIDE_THRESHOLD {
                65535nat
            } else {
                4294967295nat
            },
            layout.num_nodes <= MAX_NODES,
            boxes0.len() == layout.num_nodes,
            ids0.len() == layout.num_nodes,
            forall|i: int| 0 <= i < n_items ==> boxes@[i] == boxes0[i] && indices@[i] == ids0[i],
            forall|l2: int, p: int|
                1 <= l2 <= l && level_start(bounds, l2) <= p < level_end(bounds, l2)
                    ==> #[trigger] node_ok(ns as nat, bounds, boxes@, indices@, l2, p),
        decreases nlev - l,
    {
        let end: usize = layout.level_bounds[l] / 4;
        let ghost s = pos as int;
        let ghost cnt = count_at(bounds, 0, l as int);
        assert(cnt == end - s);
        assert(bounds[l + 1] == bounds[l as int] + 4 * next_count(cnt, ns as nat));
        assert(level_end(bounds, l + 1) == end + next_count(cnt, ns as nat));
        assert(bounds[l + 1] <= bounds[nlev - 1]);
        while pos < end
            invariant
                layout.wf(),
                ns == layout.node_size,
                MIN_NODE_SIZE <= ns,
                n_items == layout.num_items,
                bounds == level_bounds_of(n_items, ns as nat),
                nlev == bounds.len(),
                l < nlev - 1,
                s == level_start(bounds, l as int),
                end == level_end(bounds, l as int),
                cnt == end - s,
                cnt >= 1,
                level_end(bounds, l + 1) == end + next_count(cnt, ns as nat),
                level_start(bounds, l + 1) == end,
                level_end(bounds, l + 1) <= layout.num_nodes,
                end <= w,
                pos <= end,
                pos < end ==> pos == s + (w - end) * ns,
                pos == end ==> (w > end && s + (w - end - 1) * ns < end && end <= s + (w - end)
                    * ns),
                w <= level_end(bounds, l + 1),
                end >= n_items,
                boxes@.len() == layout.num_nodes,
                indices@.len() == layout.num_nodes,
                indices.width() == old(indices).width(),
                indices.max_value() == old(indices).max_value(),
                indices.max_value() == if layout.num_nodes < WIDE_THRESHOLD {
                    65535nat
                } else {
                    4294967295nat
                },
                layout.num_nodes <= MAX_NODES,
                forall|i: int|
                    0 <= i < n_items ==> boxes@[i] == boxes0[i] && indices@[i] == ids0[i],
                forall|i: int, j: int| 0 <= i <= j < nlev ==> bounds[i] <= bounds[j],
                boxes0.len() == layout.num_nodes,
                ids0.len() == layout.num_nodes,
                forall|l2: int, p: int|
                    1 <= l2 <= l && level_start(bounds, l2) <= p < level_end(bounds, l2)
                        ==> #[trigger] node_ok(ns as nat, bounds, boxes@, indices@, l2, p),
                forall|p: int|
                    end <= p < w ==> #[trigger] node_ok(
                        ns as nat,
                        bounds,
                        boxes@,
                        indices@,
                        l + 1,
                        p,
                    ),
            decreases end - pos,
        {
            proof {
                lemma_groups(cnt, ns as nat, (w - end) as nat);
            }
            let c = pos;
            let mut acc = boxes[pos];
            pos = pos + 1;
            let mut j: usize = 1;
            while j < ns && pos < end
                invariant
                    c < pos <= end,
                    pos == c + j,
                    j <= ns,
                    end <= boxes@.len(),
                    acc == union_range(boxes@, c as int, pos as int),
                decreases ns - j,
            {
                acc = acc.union(&boxes[pos]);
                pos = pos + 1;
                j = j + 1;
            }
            proof {
                lemma_groups(cnt, ns as nat, (w - end + 1) as nat);
                assert((w - end + 1) * ns == (w - end) * ns + ns) by (nonlinear_arith);
            }
            let ghost before_boxes = boxes@;
            let ghost before_ids = indices@;
            assert(4 * c <= indices.max_value());
            match indices.set(w, 4 * c) {
                Ok(()) => {},
                Err(_) => {
                    assert(false);
                },
            }
            boxes.set(w, acc);
            proof {
                assert forall|l2: int, p: int|
                    1 <= l2 <= l && level_start(bounds, l2) <= p < level_end(
                        bounds,
                        l2,
                    ) implies #[trigger] node_ok(ns as nat, bounds, boxes@, indices@, l2, p) by {
                    assert(node_ok(ns as nat, bounds, before_boxes, before_ids, l2, p));
                    assert(level_end(bounds, l2) <= end);
                    assert(child_end(ns as nat, bounds, l2, p) <= level_end(bounds, l2 - 1));
                    assert(level_end(bounds, l2 - 1) == level_start(bounds, l2));
                    lemma_union_range_frame(
                        before_boxes,
                        boxes@,
                        first_child(ns as nat, bounds, l2, p),
                        child_end(ns as nat, bounds, l2, p),
                    );
                }
                assert forall|p: int| end <= p < w + 1 implies #[trigger] node_ok(
                    ns as nat,
                    bounds,
                    boxes@,
                    indices@,
                    l + 1,
                    p,
                ) by {
                    assert(first_child(ns as nat, bounds, l + 1, p) == s + (p - end) * ns);
                    if p < w {
                        assert(node_ok(ns as nat, bounds, before_boxes, before_ids, l + 1, p));
                    } else {
                        assert(first_child(ns as nat, bounds, l + 1, p) == c);
                        assert(child_end(ns as nat, bounds, l + 1, p) == pos);
                    }
                    assert(child_end(ns as nat, bounds, l + 1, p) <= end);
                    lemma_union_range_frame(
                        before_boxes,
                        boxes@,
                        first_child(ns as nat, bounds, l + 1, p),
                        child_end(ns as nat, bounds, l + 1, p),
                    );
                }
            }
            w = w + 1;
        }
        proof {
            lemma_groups(cnt, ns as nat, (w - end) as nat);
            assert(w == level_end(bounds, l + 1));
            assert(count_at(bounds, 0, l + 1) == next_count(cnt, ns as nat));
            crate::layout::lemma_next_count(cnt, ns as nat);
        }
        l = l + 1;
    }
}

/// Staging object of an index: boxes are added one by one, then `finish`
/// builds the tree and hands the storage over to an `OwnedFlatbush`.
pub struct FlatbushBuilder {
    layout: Layout,
    boxes: Vec<Rect>,
    indices: MutableIndices,
    pos: usize,
    extent: Rect,
}

impl FlatbushBuilder {
    pub closed spec fn num_items(&self) -> nat {
        self.layout.num_items as nat
    }

    pub closed spec fn node_size(&self) -> nat {
        self.layout.node_size as nat
    }

    /// The boxes added so far, in insertion order.
    pub closed spec fn items(&self) -> Seq<Rect> {
        self.boxes@.take(self.pos as int)
    }

    /// The running bounding extent of the boxes added so far.
    pub closed spec fn extent(&self) -> Rect {
        self.extent
    }

    pub closed spec fn wf(&self) -> bool {
        &&& self.layout.wf()
        &&& self.boxes@.len() == self.layout.num_nodes
        &&& self.indices@.len() == self.layout.num_nodes
        &&& self.indices.width() == if self.layout.num_nodes < WIDE_THRESHOLD {
            2nat
        } else {
            4nat
        }
        &&& self.layout.num_items < self.layout.num_nodes
        &&& self.pos <= self.layout.num_items
        &&& forall|i: int| 0 <= i < self.pos ==> self.indices@[i] == i
        &&& forall|i: int| self.pos <= i < self.layout.num_nodes ==> self.indices@[i] == 0
        &&& self.extent == extent_of(self.items())
    }

    /// A builder for `num_items` boxes with the default node size.
    pub fn new(num_items: usize) -> (r: FlatbushBuilder)
        requires
            layout_ok(num_items as nat, DEFAULT_NODE_SIZE as nat),
        ensures
            r.wf(),
            r.num_items() == num_items,
            r.node_size() == DEFAULT_NODE_SIZE,
            r.items() == Seq::<Rect>::empty(),
            r.extent() == empty_rect(),
    {
        FlatbushBuilder::new_with_node_size(num_items, DEFAULT_NODE_SIZE)
    }

    /// A builder for `num_items` boxes grouped `node_size` to a node. The
    /// configuration must be one that `compute_layout` accepts.
    pub fn new_with_node_size(num_items: usize, node_size: usize) -> (r: FlatbushBuilder)
        requires
            layout_ok(num_items as nat, node_size as nat),
        ensures
            r.wf(),
            r.num_items() == num_items,
            r.node_size() == node_size,
            r.items() == Seq::<Rect>::empty(),
            r.extent() == empty_rect(),
    {
        let computed = compute_layout(num_items, node_size);
        let layout = computed.unwrap();
        proof {
            lemma_nodes_above_grows(num_items as nat, node_size as nat, num_items as nat);
        }
        let num_nodes = layout.num_nodes;
        let indices = MutableIndices::new(num_nodes);
        let mut boxes: Vec<Rect> = Vec::new();
        while boxes.len() < num_nodes
            invariant
                boxes@.len() <= num_nodes,
            decreases num_nodes - boxes@.len(),
        {
            boxes.push(Rect::new(0, 0, 0, 0));
        }
        let extent = Rect::new(POS_INFINITY, POS_INFINITY, NEG_INFINITY, NEG_INFINITY);
        let r = FlatbushBuilder { layout, boxes, indices, pos: 0, extent };
        assert(r.items() =~= Seq::<Rect>::empty());
        r
    }

    /// Adds a box and returns its identifier, the number of boxes added before it.
    pub fn add(&mut self, min_x: u64, min_y: u64, max_x: u64, max_y: u64) -> (r: usize)
        requires
            old(self).wf(),
            old(self).items().len() < old(self).num_items(),
        ensures
            final(self).wf(),
            r == old(self).items().len(),
            final(self).items() == old(self).items().push(Rect { min_x, min_y, max_x, max_y }),
            final(self).extent() == union(old(self).extent(), Rect { min_x, min_y, max_x, max_y }),
            final(self).num_items() == old(self).num_items(),
            final(self).node_size() == old(self).node_size(),
    {
        let index = self.pos;
        let rect = Rect::new(min_x, min_y, max_x, max_y);
        let ghost before = self.items();
        match self.indices.set(index, index) {
            Ok(()) => {},
            Err(_) => {
                assert(false);
            },
        }
        self.boxes.set(index, rect);
        self.extent = self.extent.union(&rect);
        self.pos = self.pos + 1;
        assert(self.items() =~= before.push(rect));
        assert(self.items().drop_last() =~= before);
        index
    }

    /// The bounding extent of the boxes added so far.
    pub fn current_extent(&self) -> (r: Rect)
        requires
            self.wf(),
        ensures
            r == self.extent(),
            r == extent_of(self.items()),
    {
        self.extent
    }

    /// Builds the index. Above `node_size` boxes the leaves are first put in the
    /// stable order of their `keys` (one per box, in insertion order; a
    /// locality-preserving curve distance such as `hilbert` of the box centre);
    /// up to `node_size` boxes they keep insertion order and the root is the
    /// running extent.
    pub fn finish(self, keys: &Vec<u32>) -> (r: OwnedFlatbush)
        requires
            self.wf(),
            self.items().len() == self.num_items(),
            keys@.len() == self.num_items(),
        ensures
            r.wf(),
            r.items() == self.items(),
            r.num_items() == self.num_items(),
            r.node_size() == self.node_size(),
            r.level_bounds() == level_bounds_of(self.num_items(), self.node_size()),
            r.num_nodes() == num_nodes_of(self.num_items(), self.node_size()),
            r.boxes().len() == r.num_nodes(),
            r.ids().len() == r.num_nodes(),
            forall|p: int|
                0 <= p < r.num_items() ==> r.ids()[p] < r.num_items() && r.boxes()[p]
                    == r.items()[r.ids()[p] as int],
            self.num_items() <= self.node_size() ==> r.num_nodes() == self.num_items() + 1,
            forall|i: int|
                0 <= i < self.num_items() ==> #[trigger] contains(
                    r.boxes()[r.num_nodes() - 1],
                    self.items()[i],
                ),
            self.num_items() <= self.node_size() ==> r.boxes() == self.items().push(self.extent()),
            self.num_items() <= self.node_size() ==> r.ids() == Seq::new(
                self.num_items() + 1,
                |i: int|
                    if i < self.num_items() {
                        i as nat
                    } else {
                        0nat
                    },
            ),
            self.num_items() > self.node_size() ==> is_stable_order(
                keys@,
                r.ids().take(self.num_items() as int),
            ),
            self.num_items() > self.node_size() ==> is_packed_tree(
                self.node_size(),
                r.level_bounds(),
                r.boxes(),
                r.ids(),
            ),
    {
        let ghost items = self.items();
        let n = self.layout.num_items;
        let ns = self.layout.node_size;
        let num_nodes = self.layout.num_nodes;
        proof {
            crate::layout::lemma_next_count(n as nat, ns as nat);
            lemma_level_bounds_shape(n as nat, ns as nat);
        }
        if n <= ns {
            let mut boxes = self.boxes;
            proof {
                assert(num_nodes == n + 1);
            }
            boxes.set(n, self.extent);
            let ghost bounds = level_bounds_of(n as nat, ns as nat);
            let ghost ids = self.indices@;
            proof {
                assert(bounds =~= seq![4 * (n as nat), 4 * (n as nat + 1)]);
                assert forall|l: int, p: int|
                    1 <= l < bounds.len() && level_start(bounds, l) <= p < level_end(
                        bounds,
                        l,
                    ) implies #[trigger] node_covers(ns as nat, bounds, boxes@, ids, l, p) by {
                    assert(l == 1 && p == n);
                    assert(first_child(ns as nat, bounds, l, p) == 0);
                    assert(child_end(ns as nat, bounds, l, p) == n);
                    assert forall|x: int| 0 <= x < n implies #[trigger] contains(
                        boxes@[p],
                        boxes@[x],
                    ) by {
                        lemma_extent_contains(items, x);
                    }
                }
                assert forall|i: nat| i < n implies #[trigger] ids.take(n as int).contains(i) by {
                    assert(ids.take(n as int)[i as int] == i);
                }
                assert forall|i: int| 0 <= i < n implies #[trigger] contains(
                    boxes@[num_nodes - 1],
                    items[i],
                ) by {
                    lemma_extent_contains(items, i);
                }
            }
            let r = OwnedFlatbush { layout: self.layout, boxes, indices: self.indices, items: Ghost(items) };
            assert(r.boxes() =~= items.push(self.extent));
            assert(r.ids() =~= Seq::new(
                n as nat + 1,
                |i: int|
                    if i < n {
                        i as nat
                    } else {
                        0nat
                    },
            ));
            return r;
        }
        let order = stable_order(keys);
        let ghost ord = order@.map_values(|x: usize| x as nat);
        assert forall|k: int| 0 <= k < n implies order@[k] < n by {
            assert(ord[k] < keys@.len());
        }
        let mut boxes: Vec<Rect> = Vec::new();
        let mut indices = MutableIndices::new(num_nodes);
        let mut i: usize = 0;
        while i < num_nodes
            invariant
                n < num_nodes,
                num_nodes == self.layout.num_nodes,
                self.wf(),
                items == self.items(),
                items.len() == n,
                order@.len() == n,
                ord == order@.map_values(|x: usize| x as nat),
                forall|k: int| 0 <= k < n ==> order@[k] < n,
                i <= num_nodes,
                boxes@.len() == i,
                indices@.len() == num_nodes,
                indices.width() == if num_nodes < WIDE_THRESHOLD {
                    2nat
                } else {
                    4nat
                },
                indices.max_value() == if num_nodes < WIDE_THRESHOLD {
                    65535nat
                } else {
                    4294967295nat
                },
                forall|k: int| 0 <= k < i && k < n ==> boxes@[k] == items[order@[k] as int],
                forall|k: int| 0 <= k < i && k < n ==> indices@[k] == order@[k],
            decreases num_nodes - i,
        {
            if i < n {
                let o = order[i];
                boxes.push(self.boxes[o]);
                match indices.set(i, o) {
                    Ok(()) => {},
                    Err(_) => {
                        assert(false);
                    },
                }
            } else {
                boxes.push(self.extent);
            }
            i = i + 1;
        }
        let ghost leaf_boxes = boxes@;
        let ghost leaf_ids = indices@;
        build_levels(&self.layout, &mut boxes, &mut indices);
        let r = OwnedFlatbush { layout: self.layout, boxes, indices, items: Ghost(items) };
        assert(r.ids().take(n as int) =~= ord);
        proof {
            assert forall|a: int, b: int| 0 <= a < b < n implies r.ids()[a] != r.ids()[b] by {
                assert(r.ids().take(n as int)[a] == ord[a]);
                assert(r.ids().take(n as int)[b] == ord[b]);
                assert(precedes(keys@, ord[a] as int, ord[b] as int));
            }
            lemma_packed_covers(ns as nat, level_bounds_of(n as nat, ns as nat), r.boxes(), r.ids());
            assert forall|i: int| 0 <= i < n implies #[trigger] contains(
                r.boxes()[r.num_nodes() - 1],
                items[i],
            ) by {
                assert(r.ids().take(n as int).contains(i as nat));
                let p = choose|p: int| 0 <= p < n && r.ids().take(n as int)[p] == i as nat;
                assert(r.ids()[p] == i);
                lemma_root_covers(n as nat, ns as nat, r.boxes(), r.ids(), 0, p);
            }
        }
        r
    }
}

/// A finished, read-only index: the packed tree and its level boundaries.
pub struct OwnedFlatbush {
    layout: Layout,
    boxes: Vec<Rect>,
    indices: MutableIndices,
    items: Ghost<Seq<Rect>>,
}

impl OwnedFlatbush {
    /// The boxes the index was built from, in insertion order.
    pub closed spec fn items(&self) -> Seq<Rect> {
        self.items@
    }

    pub closed spec fn num_items(&self) -> nat {
        self.layout.num_items as nat
    }

    pub closed spec fn node_size(&self) -> nat {
        self.layout.node_size as nat
    }

    pub closed spec fn num_nodes(&self) -> nat {
        self.layout.num_nodes as nat
    }

    /// The end slot (four per node) of each level, leaves first.
    pub closed spec fn level_bounds(&self) -> Seq<nat> {
        self.layout.level_bounds@.map_values(|b: usize| b as nat)
    }

    /// The box of every node, leaves first.
    pub closed spec fn boxes(&self) -> Seq<Rect> {
        self.boxes@
    }

    /// The identifier of every node: an item for a leaf, the slot of the first
    /// child for an internal node.
    pub closed spec fn ids(&self) -> Seq<nat> {
        self.indices@
    }

    pub closed spec fn wf(&self) -> bool {
        &&& self.layout.wf()
        &&& self.layout.num_items < self.layout.num_nodes
        &&& self.boxes@.len() == self.layout.num_nodes
        &&& self.indices@.len() == self.layout.num_nodes
        &&& self.indices.width() == if self.layout.num_nodes < WIDE_THRESHOLD {
            2nat
        } else {
            4nat
        }
        &&& self.items@.len() == self.layout.num_items
        &&& forall|i: int|
            0 <= i < self.layout.num_items ==> self.indices@[i] < self.layout.num_items
                && self.boxes@[i] == self.items@[self.indices@[i] as int]
        &&& forall|i: int, j: int|
            0 <= i < j < self.layout.num_items ==> self.indices@[i] != self.indices@[j]
        &&& forall|i: nat|
            i < self.layout.num_items ==> #[trigger] self.indices@.take(
                self.layout.num_items as int,
            ).contains(i)
        &&& covers_tree(
            self.layout.node_size as nat,
            level_bounds_of(self.layout.num_items as nat, self.layout.node_size as nat),
            self.boxes@,
            self.indices@,
        )
    }
}

/// The fixed 8-byte header: magic byte, version and type nibbles, node size
/// (16-bit) and item count (32-bit), little-endian.
pub open spec fn header_of(node_size: nat, num_items: nat) -> Seq<u8> {
    seq![MAGIC, (VERSION * 16 + ARRAY_TYPE_INDEX) as u8].add(le_bytes(node_size, 2)).add(
        le_bytes(num_items, 4),
    )
}

/// The four coordinates of every box, 8 bytes each, little-endian.
pub open spec fn boxes_bytes(boxes: Seq<Rect>) -> Seq<u8>
    decreases boxes.len(),
{
    if boxes.len() == 0 {
        Seq::empty()
    } else {
        let b = boxes.last();
        boxes_bytes(boxes.drop_last()).add(le_bytes(b.min_x as nat, 8)).add(
            le_bytes(b.min_y as nat, 8),
        ).add(le_bytes(b.max_x as nat, 8)).add(le_bytes(b.max_y as nat, 8))
    }
}

impl OwnedFlatbush {
    /// The identifiers of the items whose boxes intersect `q`, found by walking
    /// down from the root and skipping every node whose box misses `q`: every
    /// identifier it returns meets `q`, and every item that meets `q` is returned.
    #[verifier::rlimit(100)]
    #[verifier::spinoff_prover]
    pub fn search(&self, q: &Rect) -> (r: Vec<usize>)
        requires
            self.wf(),
        ensures
            is_search_result(self.items(), *q, r@),
    {
        let ns = self.layout.node_size;
        let ghost n_items = self.layout.num_items as nat;
        let ghost bounds = level_bounds_of(n_items, ns as nat);
        let ghost ids = self.indices@;
        let ghost boxes = self.boxes@;
        let nlev = self.layout.level_bounds.len();
        proof {
            lemma_level_bounds_shape(n_items, ns as nat);
            assert forall|i: int| 0 <= i < bounds.len() - 1 implies #[trigger] bounds[i]
                <= bounds[i + 1] by {
                assert(bounds[i + 1] == bounds[i] + 4 * next_count(
                    count_at(bounds, 0, i),
                    ns as nat,
                ));
            }
            lemma_monotone(bounds);
            assert forall|i: int| 0 <= i < nlev implies self.layout.level_bounds@[i]
                == bounds[i] by {
                assert(self.layout.level_bounds@.map_values(|b: usize| b as nat)[i] == bounds[i]);
            }
            assert(bounds[nlev - 1] % 4 == 0);
            assert(bounds[nlev - 2] % 4 == 0);
            assert(count_at(bounds, 0, nlev - 1) == 1);
        }
        let mut results: Vec<usize> = Vec::new();
        let mut frontier: Vec<usize> = Vec::new();
        frontier.push(self.layout.num_nodes - 1);
        let mut level: usize = nlev - 1;
        proof {
            assert(level_start(bounds, level as int) == self.layout.num_nodes - 1);
            assert(frontier@[0] - level_start(bounds, level as int) == 0);
            assert(0int % (ns as int) == 0);
            assert(frontier@.no_duplicates());
            assert forall|p: int|
                level_start(bounds, level as int) <= p < level_end(bounds, level as int)
                    && intersects(boxes[p], *q) implies #[trigger] in_group(
                frontier@,
                p,
                ns as nat,
            ) by {
                assert(frontier@[0] <= p < frontier@[0] + ns);
            }
        }
        loop
            invariant_except_break
                results@.len() == 0,
            invariant
                self.wf(),
                ns == self.layout.node_size,
                ns >= 2,
                n_items == self.layout.num_items,
                bounds == level_bounds_of(n_items, ns as nat),
                ids == self.indices@,
                boxes == self.boxes@,
                nlev == self.layout.level_bounds@.len(),
                nlev == bounds.len(),
                level < nlev,
                bounds[0] == 4 * self.layout.num_items,
                bounds[nlev - 1] == 4 * self.layout.num_nodes,
                forall|i: int| 0 <= i < nlev ==> self.layout.level_bounds@[i] == bounds[i],
                forall|i: int, j: int| 0 <= i <= j < nlev ==> bounds[i] <= bounds[j],
                forall|k: int|
                    0 <= k < results@.len() ==> results@[k] < self.items@.len() && intersects(
                        self.items@[results@[k] as int],
                        *q,
                    ),
                forall|p: int|
                    level_start(bounds, level as int) <= p < level_end(bounds, level as int)
                        && intersects(boxes[p], *q) ==> #[trigger] in_group(
                        frontier@,
                        p,
                        ns as nat,
                    ),
                aligned_starts(frontier@, level_start(bounds, level as int), ns as nat),
            ensures
                results@.no_duplicates(),
                forall|k: int|
                    0 <= k < results@.len() ==> results@[k] < self.items@.len() && intersects(
                        self.items@[results@[k] as int],
                        *q,
                    ),
                forall|p: int|
                    0 <= p < n_items && intersects(boxes[p], *q) ==> #[trigger] results@.contains(
                        ids[p] as usize,
                    ),
            decreases level,
        {
            let end: usize = self.layout.level_bounds[level] / 4;
            assert(bounds[level as int] <= bounds[nlev - 1]);
            assert(end <= self.layout.num_nodes);
            let mut next: Vec<usize> = Vec::new();
            let mut f: usize = 0;
            while f < frontier.len()
                invariant
                    self.wf(),
                    ns == self.layout.node_size,
                    bounds == level_bounds_of(n_items, ns as nat),
                    n_items == self.layout.num_items,
                    ids == self.indices@,
                    boxes == self.boxes@,
                    level < nlev,
                    nlev == bounds.len(),
                    f <= frontier@.len(),
                    ns >= 2,
                    aligned_starts(frontier@, level_start(bounds, level as int), ns as nat),
                    level > 0 ==> results@.len() == 0,
                    next@.no_duplicates(),
                    results@.no_duplicates(),
                    level > 0 ==> forall|k: int|
                        0 <= k < next@.len() ==> #[trigger] next@[k] >= level_start(
                            bounds,
                            level - 1,
                        ) && (next@[k] - level_start(bounds, level - 1)) % (ns as int) == 0,
                    level > 0 ==> forall|k: int|
                        0 <= k < next@.len() ==> #[trigger] from_visited(
                            ns as nat,
                            bounds,
                            ids,
                            level as int,
                            next@[k],
                            frontier@.take(f as int),
                            0,
                            0,
                            end as int,
                        ),
                    level == 0 ==> forall|k: int|
                        0 <= k < results@.len() ==> #[trigger] from_visited(
                            ns as nat,
                            bounds,
                            ids,
                            0,
                            results@[k],
                            frontier@.take(f as int),
                            0,
                            0,
                            end as int,
                        ),
                    end == bounds[level as int] / 4,
                    end == level_end(bounds, level as int),
                    end <= self.layout.num_nodes,
                    level == 0 ==> end == self.layout.num_items,
                    forall|k: int|
                        0 <= k < results@.len() ==> results@[k] < self.items@.len() && intersects(
                            self.items@[results@[k] as int],
                            *q,
                        ),
                    forall|p: int|
                        in_group(frontier@.take(f as int), p, ns as nat) && level_start(
                            bounds,
                            level as int,
                        ) <= p < end && intersects(boxes[p], *q) ==> #[trigger] found(
                            level as int,
                            p,
                            ns as nat,
                            bounds,
                            ids,
                            next@,
                            results@,
                        ),
                decreases frontier@.len() - f,
            {
                let g = frontier[f];
                let stop: usize = if g < end && end - g > ns {
                    g + ns
                } else {
                    end
                };
                let mut p: usize = g;
                proof {
                    assert(frontier@[f as int] >= level_start(bounds, level as int));
                    if level > 0 {
                    lemma_visited_rebase(
                        ns as nat,
                        bounds,
                        ids,
                        level as int,
                        next@,
                        frontier@.take(f as int),
                        g as int,
                        end as int,
                    );
                    } else {
                    lemma_visited_rebase(
                        ns as nat,
                        bounds,
                        ids,
                        0,
                        results@,
                        frontier@.take(f as int),
                        g as int,
                        end as int,
                    );
                    }
                }
                while p < stop
                    invariant
                        self.wf(),
                        ns == self.layout.node_size,
                        bounds == level_bounds_of(n_items, ns as nat),
                        n_items == self.layout.num_items,
                        ids == self.indices@,
                        boxes == self.boxes@,
                        level < nlev,
                        nlev == bounds.len(),
                        f < frontier@.len(),
                        g == frontier@[f as int],
                        ns >= 2,
                        aligned_starts(frontier@, level_start(bounds, level as int), ns as nat),
                        g <= p,
                        p <= stop || p == g,
                        stop <= g + ns,
                        level > 0 ==> results@.len() == 0,
                        next@.no_duplicates(),
                        results@.no_duplicates(),
                        level > 0 ==> forall|k: int|
                            0 <= k < next@.len() ==> #[trigger] next@[k] >= level_start(
                                bounds,
                                level - 1,
                            ) && (next@[k] - level_start(bounds, level - 1)) % (ns as int) == 0,
                        level > 0 ==> forall|k: int|
                            0 <= k < next@.len() ==> #[trigger] from_visited(
                                ns as nat,
                                bounds,
                                ids,
                                level as int,
                                next@[k],
                                frontier@.take(f as int),
                                g as int,
                                p as int,
                                end as int,
                            ),
                        level == 0 ==> forall|k: int|
                            0 <= k < results@.len() ==> #[trigger] from_visited(
                                ns as nat,
                                bounds,
                                ids,
                                0,
                                results@[k],
                                frontier@.take(f as int),
                                g as int,
                                p as int,
                                end as int,
                            ),
                        end == level_end(bounds, level as int),
                        stop <= end,
                        end <= self.layout.num_nodes,
                        level == 0 ==> end == self.layout.num_items,
                        forall|k: int|
                            0 <= k < results@.len() ==> results@[k] < self.items@.len()
                                && intersects(self.items@[results@[k] as int], *q),
                        forall|x: int|
                            in_group(frontier@.take(f as int), x, ns as nat) && level_start(
                                bounds,
                                level as int,
                            ) <= x < end && intersects(boxes[x], *q) ==> #[trigger] found(
                                level as int,
                                x,
                                ns as nat,
                                bounds,
                                ids,
                                next@,
                                results@,
                            ),
                        forall|x: int|
                            g <= x < p && level_start(bounds, level as int) <= x < end
                                && intersects(boxes[x], *q) ==> #[trigger] found(
                                level as int,
                                x,
                                ns as nat,
                                bounds,
                                ids,
                                next@,
                                results@,
                            ),
                    decreases stop - p,
                {
                    let ghost old_next = next@;
                    let ghost old_results = results@;
                    if self.boxes[p].intersects(q) {
                        let id = self.indices.get(p);
                        if level == 0 {
                            proof {
                                lemma_scan_step(
                                    ns as nat,
                                    bounds,
                                    ids,
                                    0,
                                    frontier@,
                                    f as int,
                                    g as int,
                                    p as int,
                                    end as int,
                                    results@,
                                    id,
                                );
                            }
                            results.push(id);
                        } else {
                            proof {
                                assert(node_covers(
                                    ns as nat,
                                    bounds,
                                    boxes,
                                    ids,
                                    level as int,
                                    p as int,
                                ));
                                let ls = level_start(bounds, level as int);
                                vstd::arithmetic::div_mod::lemma_mod_multiples_basic(
                                    p - ls,
                                    ns as int,
                                );
                                assert((first_child(ns as nat, bounds, level as int, p as int)
                                    - level_start(bounds, level - 1)) % (ns as int) == 0);
                                lemma_scan_step(
                                    ns as nat,
                                    bounds,
                                    ids,
                                    level as int,
                                    frontier@,
                                    f as int,
                                    g as int,
                                    p as int,
                                    end as int,
                                    next@,
                                    id / 4,
                                );
                            }
                            next.push(id / 4);
                        }
                    } else {
                        proof {
                            if level > 0 {
                            lemma_visited_grows(
                                ns as nat,
                                bounds,
                                ids,
                                level as int,
                                next@,
                                frontier@.take(f as int),
                                g as int,
                                p as int,
                                p + 1,
                                end as int,
                            );
                            } else {
                            lemma_visited_grows(
                                ns as nat,
                                bounds,
                                ids,
                                0,
                                results@,
                                frontier@.take(f as int),
                                g as int,
                                p as int,
                                p + 1,
                                end as int,
                            );
                            }
                        }
                    }
                    proof {
                        if next@.len() != old_next.len() {
                            assert(next@.take(old_next.len() as int) =~= old_next);
                        }
                        if results@.len() != old_results.len() {
                            assert(results@.take(old_results.len() as int) =~= old_results);
                        }
                        assert forall|x: int|
                            found(level as int, x, ns as nat, bounds, ids, old_next, old_results)
                                implies #[trigger] found(
                            level as int,
                            x,
                            ns as nat,
                            bounds,
                            ids,
                            next@,
                            results@,
                        ) by {
                            lemma_found_grows(
                                level as int,
                                x,
                                ns as nat,
                                bounds,
                                ids,
                                old_next,
                                old_results,
                                next@,
                                results@,
                            );
                        }
                        if level_start(bounds, level as int) <= p && intersects(boxes[p as int], *q) {
                            if level == 0 {
                                assert(results@.last() == ids[p as int] as usize);
                                assert(results@.contains(ids[p as int] as usize));
                            } else {
                                assert(node_covers(ns as nat, bounds, boxes, ids, level as int, p as int));
                                assert(next@.last() == first_child(ns as nat, bounds, level as int, p as int) as usize);
                                assert(next@.contains(first_child(ns as nat, bounds, level as int, p as int) as usize));
                            }
                        }
                    }
                    p = p + 1;
                }
                proof {
                    assert forall|x: int|
                        in_group(frontier@.take(f + 1), x, ns as nat) && level_start(
                            bounds,
                            level as int,
                        ) <= x < end && intersects(boxes[x], *q) implies #[trigger] found(
                        level as int,
                        x,
                        ns as nat,
                        bounds,
                        ids,
                        next@,
                        results@,
                    ) by {
                        let f2 = choose|f2: int|
                            0 <= f2 < frontier@.take(f + 1).len() && #[trigger] frontier@.take(
                                f + 1,
                            )[f2] <= x < frontier@.take(f + 1)[f2] + ns;
                        if f2 < f {
                            assert(frontier@.take(f as int)[f2] == frontier@[f2]);
                            assert(in_group(frontier@.take(f as int), x, ns as nat));
                        } else {
                            assert(g <= x < g + ns);
                        }
                    }
                    if level > 0 {
                    lemma_visited_next_run(
                        ns as nat,
                        bounds,
                        ids,
                        level as int,
                        next@,
                        frontier@,
                        f as int,
                        g as int,
                        p as int,
                        end as int,
                    );
                    } else {
                    lemma_visited_next_run(
                        ns as nat,
                        bounds,
                        ids,
                        0,
                        results@,
                        frontier@,
                        f as int,
                        g as int,
                        p as int,
                        end as int,
                    );
                    }
                }
                f = f + 1;
            }
            if level == 0 {
                proof {
                    assert forall|p: int|
                        0 <= p < n_items && intersects(boxes[p], *q) implies #[trigger] results@.contains(
                        ids[p] as usize,
                    ) by {
                        assert(in_group(frontier@, p, ns as nat));
                        assert(frontier@.take(frontier@.len() as int) =~= frontier@);
                        assert(found(0, p, ns as nat, bounds, ids, next@, results@));
                    }
                }
                break;
            }
            proof {
                assert forall|x: int|
                    level_start(bounds, level - 1) <= x < level_end(bounds, level - 1)
                        && intersects(boxes[x], *q) implies #[trigger] in_group(
                    next@,
                    x,
                    ns as nat,
                ) by {
                    let par = lemma_parent(n_items, ns as nat, level - 1, x);
                    assert(node_covers(ns as nat, bounds, boxes, ids, level as int, par));
                    assert(contains(boxes[par], boxes[x]));
                    lemma_contains_intersects(boxes[par], boxes[x], *q);
                    assert(in_group(frontier@, par, ns as nat));
                    assert(frontier@.take(frontier@.len() as int) =~= frontier@);
                    assert(found(level as int, par, ns as nat, bounds, ids, next@, results@));
                    let c = first_child(ns as nat, bounds, level as int, par);
                    let k = choose|k: int| 0 <= k < next@.len() && next@[k] == c as usize;
                    assert(next@[k] <= x < next@[k] + ns);
                    assert(in_group(next@, x, ns as nat));
                }
            }
            frontier = next;
            level = level - 1;
        }
        proof {
            assert forall|i: int|
                0 <= i < self.num_items() && intersects(self.items()[i], *q) implies results@.contains(
                i as usize,
            ) by {
                assert(ids.take(n_items as int).contains(i as nat));
                let p = choose|p: int| 0 <= p < n_items && ids.take(n_items as int)[p] == i as nat;
                assert(ids[p] == i);
                assert(boxes[p] == self.items@[i]);
                assert(results@.contains(ids[p] as usize));
            }
        }
        results
    }

    /// The packed buffer: header, then every node's box, then every node's
    /// identifier in 16 bits below `WIDE_THRESHOLD` nodes and 32 bits from it on.
    pub fn into_inner(self) -> (r: Vec<u8>)
        requires
            self.wf(),
        ensures
            r@.len() == 8 + 32 * self.num_nodes() + (if self.num_nodes() < WIDE_THRESHOLD {
                2nat
            } else {
                4nat
            }) * self.num_nodes(),
            r@ == header_of(self.node_size(), self.num_items()).add(boxes_bytes(self.boxes())).add(
                encode_all(
                    self.ids(),
                    if self.num_nodes() < WIDE_THRESHOLD {
                        2nat
                    } else {
                        4nat
                    },
                ),
            ),
    {
        let mut out: Vec<u8> = Vec::new();
        out.push(MAGIC);
        out.push(VERSION * 16 + ARRAY_TYPE_INDEX);
        push_le(&mut out, self.layout.node_size as u64, 2);
        push_le(&mut out, self.layout.num_items as u64, 4);
        assert(out@ =~= header_of(self.node_size(), self.num_items()));
        let ghost head = out@;
        let n = self.boxes.len();
        let mut i: usize = 0;
        while i < n
            invariant
                n == self.boxes@.len(),
                i <= n,
                out@ == head.add(boxes_bytes(self.boxes@.take(i as int))),
                out@.len() == 8 + 32 * i,
            decreases n - i,
        {
            let b = self.boxes[i];
            push_le(&mut out, b.min_x, 8);
            push_le(&mut out, b.min_y, 8);
            push_le(&mut out, b.max_x, 8);
            push_le(&mut out, b.max_y, 8);
            assert(self.boxes@.take(i + 1).drop_last() =~= self.boxes@.take(i as int));
            assert(out@ =~= head.add(boxes_bytes(self.boxes@.take(i + 1))));
            i = i + 1;
        }
        assert(self.boxes@.take(n as int) =~= self.boxes@);
        self.indices.write_le(&mut out);
        out
    }
}

} // verus!
