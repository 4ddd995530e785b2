use vstd::prelude::*;
use crate::tree::{first_child, level_start};

verus! {

/// Distinct positions, each the start of a run of `node_size` counted from `base`.
pub open spec fn aligned_starts(starts: Seq<usize>, base: int, node_size: nat) -> bool {
    &&& starts.no_duplicates()
    &&& forall|i: int|
        0 <= i < starts.len() ==> #[trigger] starts[i] >= base && (starts[i] - base) % (
        node_size as int) == 0
}

/// Two runs of `node_size` counted from the same base that share a position are the same run.
pub(crate) proof fn lemma_runs_disjoint(a: int, b: int, base: int, node_size: nat, x: int)
    requires
        node_size >= 1,
        a >= base,
        b >= base,
        (a - base) % (node_size as int) == 0,
        (b - base) % (node_size as int) == 0,
        a <= x < a + node_size,
        b <= x < b + node_size,
    ensures
        a == b,
{
    let d = node_size as int;
    vstd::arithmetic::div_mod::lemma_fundamental_div_mod(a - base, d);
    vstd::arithmetic::div_mod::lemma_fundamental_div_mod(b - base, d);
    let ka = (a - base) / d;
    let kb = (b - base) / d;
    assert(ka == kb) by (nonlinear_arith)
        requires
            a - base == d * ka,
            b - base == d * kb,
            a - b < d,
            b - a < d,
            d >= 1,
    ;
}

pub(crate) proof fn lemma_push_no_duplicates(s: Seq<usize>, v: usize)
    requires
        s.no_duplicates(),
        !s.contains(v),
    ensures
        s.push(v).no_duplicates(),
{
    let t = s.push(v);
    assert forall|i: int, j: int| 0 <= i < t.len() && 0 <= j < t.len() && i != j implies t[i]
        != t[j] by {
        if i == s.len() {
            assert(t[j] == s[j]);
        } else if j == s.len() {
            assert(t[i] == s[i]);
        }
    }
}

/// Position `x` was scanned: it lies in a run of `starts`, or in `[g, p)`.
pub open spec fn visited(starts: Seq<usize>, g: int, p: int, x: int, node_size: nat) -> bool {
    in_group(starts, x, node_size) || (g <= x < p)
}

/// What a scan of `level` records for position `x`: its item at the leaves,
/// its first child above them.
pub open spec fn emitted(node_size: nat, bounds: Seq<nat>, ids: Seq<nat>, level: int, x: int) -> int {
    if level == 0 {
        ids[x] as int
    } else {
        first_child(node_size, bounds, level, x)
    }
}

/// `v` was recorded for some scanned position of `level` below `end`.
pub open spec fn from_visited(
    node_size: nat,
    bounds: Seq<nat>,
    ids: Seq<nat>,
    level: int,
    v: usize,
    starts: Seq<usize>,
    g: int,
    p: int,
    end: int,
) -> bool {
    exists|x: int|
        #[trigger] visited(starts, g, p, x, node_size) && level_start(bounds, level) <= x < end
            && v as int == emitted(node_size, bounds, ids, level, x)
}

pub(crate) proof fn lemma_visited_grows(
    node_size: nat,
    bounds: Seq<nat>,
    ids: Seq<nat>,
    level: int,
    out: Seq<usize>,
    starts: Seq<usize>,
    g: int,
    p: int,
    p_end: int,
    end: int,
)
    requires
        p <= p_end,
        forall|k: int|
            0 <= k < out.len() ==> #[trigger] from_visited(
                node_size,
                bounds,
                ids,
                level,
                out[k],
                starts,
                g,
                p,
                end,
            ),
    ensures
        forall|k: int|
            0 <= k < out.len() ==> #[trigger] from_visited(
                node_size,
                bounds,
                ids,
                level,
                out[k],
                starts,
                g,
                p_end,
                end,
            ),
{
    assert forall|k: int| 0 <= k < out.len() implies #[trigger] from_visited(
        node_size,
        bounds,
        ids,
        level,
        out[k],
        starts,
        g,
        p_end,
        end,
    ) by {
        assert(from_visited(node_size, bounds, ids, level, out[k], starts, g, p, end));
        let x = choose|x: int|
            #[trigger] visited(starts, g, p, x, node_size) && level_start(bounds, level) <= x < end
                && out[k] as int == emitted(node_size, bounds, ids, level, x);
        assert(visited(starts, g, p_end, x, node_size));
    }
}

pub(crate) proof fn lemma_visited_rebase(
    node_size: nat,
    bounds: Seq<nat>,
    ids: Seq<nat>,
    level: int,
    out: Seq<usize>,
    starts: Seq<usize>,
    g: int,
    end: int,
)
    requires
        forall|k: int|
            0 <= k < out.len() ==> #[trigger] from_visited(
                node_size,
                bounds,
                ids,
                level,
                out[k],
                starts,
                0,
                0,
                end,
            ),
    ensures
        forall|k: int|
            0 <= k < out.len() ==> #[trigger] from_visited(
                node_size,
                bounds,
                ids,
                level,
                out[k],
                starts,
                g,
                g,
                end,
            ),
{
    assert forall|k: int| 0 <= k < out.len() implies #[trigger] from_visited(
        node_size,
        bounds,
        ids,
        level,
        out[k],
        starts,
        g,
        g,
        end,
    ) by {
        assert(from_visited(node_size, bounds, ids, level, out[k], starts, 0, 0, end));
        let x = choose|x: int|
            #[trigger] visited(starts, 0, 0, x, node_size) && level_start(bounds, level) <= x < end
                && out[k] as int == emitted(node_size, bounds, ids, level, x);
        assert(visited(starts, g, g, x, node_size));
    }
}

pub(crate) proof fn lemma_visited_next_run(
    node_size: nat,
    bounds: Seq<nat>,
    ids: Seq<nat>,
    level: int,
    out: Seq<usize>,
    frontier: Seq<usize>,
    f: int,
    g: int,
    p: int,
    end: int,
)
    requires
        0 <= f < frontier.len(),
        g == frontier[f],
        p <= g + node_size,
        forall|k: int|
            0 <= k < out.len() ==> #[trigger] from_visited(
                node_size,
                bounds,
                ids,
                level,
                out[k],
                frontier.take(f),
                g,
                p,
                end,
            ),
    ensures
        forall|k: int|
            0 <= k < out.len() ==> #[trigger] from_visited(
                node_size,
                bounds,
                ids,
                level,
                out[k],
                frontier.take(f + 1),
                0,
                0,
                end,
            ),
{
    let t = frontier.take(f);
    let t1 = frontier.take(f + 1);
    assert forall|k: int| 0 <= k < out.len() implies #[trigger] from_visited(
        node_size,
        bounds,
        ids,
        level,
        out[k],
        t1,
        0,
        0,
        end,
    ) by {
        assert(from_visited(node_size, bounds, ids, level, out[k], t, g, p, end));
        let x = choose|x: int|
            #[trigger] visited(t, g, p, x, node_size) && level_start(bounds, level) <= x < end
                && out[k] as int == emitted(node_size, bounds, ids, level, x);
        if in_group(t, x, node_size) {
            let f2 = choose|f2: int|
                0 <= f2 < t.len() && #[trigger] t[f2] <= x < t[f2] + node_size;
            assert(t1[f2] == t[f2]);
            assert(in_group(t1, x, node_size));
        } else {
            assert(t1[f] == g);
            assert(in_group(t1, x, node_size));
        }
        assert(visited(t1, 0, 0, x, node_size));
    }
}

/// Scanning position `p` of the run at `g = frontier[f]` records a value that
/// no earlier scanned position recorded.
pub(crate) proof fn lemma_scan_step(
    node_size: nat,
    bounds: Seq<nat>,
    ids: Seq<nat>,
    level: int,
    frontier: Seq<usize>,
    f: int,
    g: int,
    p: int,
    end: int,
    out: Seq<usize>,
    v: usize,
)
    requires
        node_size >= 2,
        aligned_starts(frontier, level_start(bounds, level), node_size),
        0 <= f < frontier.len(),
        g == frontier[f],
        g <= p < g + node_size,
        level_start(bounds, level) <= p < end,
        v as int == emitted(node_size, bounds, ids, level, p),
        level == 0 ==> forall|i: int, j: int| 0 <= i < j < end ==> ids[i] != ids[j],
        level == 0 ==> level_start(bounds, level) == 0,
        out.no_duplicates(),
        forall|k: int|
            0 <= k < out.len() ==> #[trigger] from_visited(
                node_size,
                bounds,
                ids,
                level,
                out[k],
                frontier.take(f),
                g,
                p,
                end,
            ),
    ensures
        out.push(v).no_duplicates(),
        forall|k: int|
            0 <= k < out.len() + 1 ==> #[trigger] from_visited(
                node_size,
                bounds,
                ids,
                level,
                out.push(v)[k],
                frontier.take(f),
                g,
                p + 1,
                end,
            ),
{
    let t = frontier.take(f);
    if out.contains(v) {
        let k = choose|k: int| 0 <= k < out.len() && out[k] == v;
        assert(from_visited(node_size, bounds, ids, level, out[k], t, g, p, end));
        let x = choose|x: int|
            #[trigger] visited(t, g, p, x, node_size) && level_start(bounds, level) <= x < end
                && out[k] as int == emitted(node_size, bounds, ids, level, x);
        if level == 0 {
            assert(x == p);
        } else {
            let ls = level_start(bounds, level);
            assert(x == p) by (nonlinear_arith)
                requires
                    (x - ls) * node_size == (p - ls) * node_size,
                    node_size >= 2,
            ;
        }
        if in_group(t, x, node_size) {
            let f2 = choose|f2: int|
                0 <= f2 < t.len() && #[trigger] t[f2] <= x < t[f2] + node_size;
            assert(t[f2] == frontier[f2]);
            lemma_runs_disjoint(
                frontier[f2] as int,
                g,
                level_start(bounds, level),
                node_size,
                x,
            );
            assert(frontier[f2] == frontier[f]);
        }
        assert(false);
    }
    lemma_push_no_duplicates(out, v);
    lemma_visited_grows(node_size, bounds, ids, level, out, t, g, p, p + 1, end);
    assert forall|k: int| 0 <= k < out.len() + 1 implies #[trigger] from_visited(
        node_size,
        bounds,
        ids,
        level,
        out.push(v)[k],
        t,
        g,
        p + 1,
        end,
    ) by {
        if k < out.len() {
            assert(out.push(v)[k] == out[k]);
            assert(from_visited(node_size, bounds, ids, level, out[k], t, g, p + 1, end));
        } else {
            assert(visited(t, g, p + 1, p, node_size));
        }
    }
}

/// Node position `p` lies in one of the runs of `node_size` positions that
/// start at `starts`.
pub open spec fn in_group(starts: Seq<usize>, p: int, node_size: nat) -> bool {
    exists|f: int| 0 <= f < starts.len() && #[trigger] starts[f] <= p < starts[f] + node_size
}

/// What a search has recorded for a node `p` of `level` that meets the query:
/// its item among the results at the leaves, its first child's run above them.
pub open spec fn found(
    level: int,
    p: int,
    node_size: nat,
    bounds: Seq<nat>,
    ids: Seq<nat>,
    next: Seq<usize>,
    results: Seq<usize>,
) -> bool {
    if level == 0 {
        results.contains(ids[p] as usize)
    } else {
        next.contains(first_child(node_size, bounds, level, p) as usize)
    }
}

pub(crate) proof fn lemma_found_grows(
    level: int,
    p: int,
    node_size: nat,
    bounds: Seq<nat>,
    ids: Seq<nat>,
    next0: Seq<usize>,
    results0: Seq<usize>,
    next1: Seq<usize>,
    results1: Seq<usize>,
)
    requires
        found(level, p, node_size, bounds, ids, next0, results0),
        next1 == next0 || (next1.len() == next0.len() + 1 && next1.take(next0.len() as int)
            == next0),
        results1 == results0 || (results1.len() == results0.len() + 1 && results1.take(
            results0.len() as int,
        ) == results0),
    ensures
        found(level, p, node_size, bounds, ids, next1, results1),
{
    if level == 0 {
        let k = choose|k: int| 0 <= k < results0.len() && results0[k] == ids[p] as usize;
        if results1 != results0 {
            assert(results1.take(results0.len() as int)[k] == results1[k]);
        }
        assert(results1[k] == ids[p] as usize);
    } else {
        let c = first_child(node_size, bounds, level, p) as usize;
        let k = choose|k: int| 0 <= k < next0.len() && next0[k] == c;
        if next1 != next0 {
            assert(next1.take(next0.len() as int)[k] == next1[k]);
        }
        assert(next1[k] == c);
    }
}

} // verus!
