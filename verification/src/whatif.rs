//! What closing one node would unblock.

use crate::closed::{count_open, grows, lemma_close_open_node, pad_closed, padded};
use crate::graph::{graph_wf, DiGraph};
use vstd::prelude::*;

verus! {

/// What closing one node would unblock, given the nodes already closed.
#[derive(Debug, Clone)]
pub struct WhatIfResult {
    /// How many nodes become actionable, over any number of hops.
    pub transitive_unblocks: usize,
    /// Those nodes, in ascending order.
    pub cascade_ids: Vec<usize>,
}

/// Node `v` becomes actionable within `depth` hops once `node` is closed:
/// it is open, each of its blockers is closed, is `node`, or becomes
/// actionable within fewer hops, and at least one of them was not closed
/// before.
pub open spec fn unblocked_within(
    g: Seq<Seq<usize>>,
    closed: Seq<bool>,
    node: int,
    v: int,
    depth: nat,
) -> bool
    decreases depth,
{
    if depth == 0 {
        false
    } else {
        &&& 0 <= v < g.len()
        &&& v != node
        &&& !closed[v]
        &&& forall|j: int|
            0 <= j < g[v].len() ==> {
                let p = (#[trigger] g[v][j]) as int;
                closed[p] || p == node || unblocked_within(g, closed, node, p, (depth - 1) as nat)
            }
        &&& exists|j: int|
            0 <= j < g[v].len() && {
                let p = (#[trigger] g[v][j]) as int;
                p == node || unblocked_within(g, closed, node, p, (depth - 1) as nat)
            }
    }
}

/// Closing the open node `node` makes `v` actionable, directly or through
/// other nodes that it makes actionable. Closing a node that is already
/// closed, or that the graph does not have, unblocks nothing.
pub open spec fn unblocked(g: Seq<Seq<usize>>, closed: Seq<bool>, node: int, v: int) -> bool {
    &&& 0 <= node < g.len()
    &&& !closed[node]
    &&& exists|depth: nat| unblocked_within(g, closed, node, v, depth)
}

/// The nodes below `m` that closing `node` unblocks, in ascending order.
pub open spec fn cascade_upto(g: Seq<Seq<usize>>, closed: Seq<bool>, node: int, m: nat) -> Seq<
    usize,
>
    decreases m,
{
    if m == 0 {
        Seq::empty()
    } else {
        let below = cascade_upto(g, closed, node, (m - 1) as nat);
        if unblocked(g, closed, node, m - 1) {
            below.push((m - 1) as usize)
        } else {
            below
        }
    }
}

/// All nodes that closing `node` unblocks, in ascending order.
pub open spec fn cascade_of(g: Seq<Seq<usize>>, closed: Seq<bool>, node: int) -> Seq<usize> {
    cascade_upto(g, closed, node, g.len())
}

/// The gain of closing `node`: how many nodes it unblocks.
pub open spec fn gain_of(g: Seq<Seq<usize>>, closed: Seq<bool>, node: int) -> nat {
    cascade_of(g, closed, node).len()
}

/// Every blocker of `v` is closed in `work`.
pub open spec fn all_blockers_closed(g: Seq<Seq<usize>>, work: Seq<bool>, v: int) -> bool {
    forall|j: int| 0 <= j < g[v].len() ==> work[(#[trigger] g[v][j]) as int]
}

/// Some blocker of `v` is closed in `work` and was open in `init`.
pub open spec fn some_blocker_fresh(
    g: Seq<Seq<usize>>,
    init: Seq<bool>,
    work: Seq<bool>,
    v: int,
) -> bool {
    exists|j: int|
        0 <= j < g[v].len() && work[(#[trigger] g[v][j]) as int] && !init[g[v][j] as int]
}

/// What holds of the working set while a cascade is computed: it holds
/// `init` and `node`, and every other node in it is unblocked within `depth`.
pub open spec fn cascade_state(
    g: Seq<Seq<usize>>,
    init: Seq<bool>,
    work: Seq<bool>,
    node: int,
    depth: nat,
) -> bool {
    &&& graph_wf(g)
    &&& init.len() == g.len()
    &&& 0 <= node < g.len()
    &&& !init[node]
    &&& work[node]
    &&& grows(init, work)
    &&& forall|v: int|
        0 <= v < g.len() && #[trigger] work[v] && !init[v] && v != node ==> unblocked_within(
            g,
            init,
            node,
            v,
            depth,
        )
}

/// A node that is unblocked within some depth is unblocked within any greater one.
pub proof fn lemma_unblocked_deeper(
    g: Seq<Seq<usize>>,
    closed: Seq<bool>,
    node: int,
    v: int,
    depth: nat,
)
    requires
        unblocked_within(g, closed, node, v, depth),
    ensures
        unblocked_within(g, closed, node, v, depth + 1),
    decreases depth,
{
    let before = (depth - 1) as nat;
    assert forall|j: int| 0 <= j < g[v].len() implies {
        let p = (#[trigger] g[v][j]) as int;
        closed[p] || p == node || unblocked_within(g, closed, node, p, depth)
    } by {
        let p = g[v][j] as int;
        if unblocked_within(g, closed, node, p, before) {
            lemma_unblocked_deeper(g, closed, node, p, before);
        }
    }
    let j = choose|j: int|
        0 <= j < g[v].len() && {
            let p = (#[trigger] g[v][j]) as int;
            p == node || unblocked_within(g, closed, node, p, before)
        };
    let p = g[v][j] as int;
    if unblocked_within(g, closed, node, p, before) {
        lemma_unblocked_deeper(g, closed, node, p, before);
    }
}

/// An open node whose blockers are all in the working set, one of them
/// newly, is unblocked one hop deeper, and may join the set.
proof fn lemma_join(
    g: Seq<Seq<usize>>,
    init: Seq<bool>,
    work: Seq<bool>,
    node: int,
    depth: nat,
    v: int,
)
    requires
        cascade_state(g, init, work, node, depth),
        0 <= v < g.len(),
        !work[v],
        all_blockers_closed(g, work, v),
        some_blocker_fresh(g, init, work, v),
    ensures
        cascade_state(g, init, work.update(v, true), node, depth + 1),
{
    let after = work.update(v, true);
    assert forall|j: int| 0 <= j < g[v].len() implies {
        let p = (#[trigger] g[v][j]) as int;
        init[p] || p == node || unblocked_within(g, init, node, p, depth)
    } by {
        let p = g[v][j] as int;
        assert(work[p]);
    }
    let j = choose|j: int|
        0 <= j < g[v].len() && work[(#[trigger] g[v][j]) as int] && !init[g[v][j] as int];
    assert(g[v][j] as int == node || unblocked_within(g, init, node, g[v][j] as int, depth));
    assert(!init[v]) by {
        if init[v] {
            assert(work[v]);
        }
    }
    assert(unblocked_within(g, init, node, v, depth + 1));
    assert forall|u: int|
        0 <= u < g.len() && #[trigger] after[u] && !init[u] && u != node implies unblocked_within(
        g,
        init,
        node,
        u,
        depth + 1,
    ) by {
        if u != v {
            assert(work[u]);
            lemma_unblocked_deeper(g, init, node, u, depth);
        }
    }
    assert forall|i: int| 0 <= i < init.len() && init[i] implies #[trigger] after[i] by {
        assert(work[i]);
    }
}

/// The working set is complete when no open node outside it has all its
/// blockers in it, one of them newly.
pub open spec fn cascade_settled(g: Seq<Seq<usize>>, init: Seq<bool>, work: Seq<bool>) -> bool {
    forall|v: int|
        0 <= v < g.len() && !#[trigger] work[v] ==> !(all_blockers_closed(g, work, v)
            && some_blocker_fresh(g, init, work, v))
}

/// A settled working set holds every node that is unblocked at any depth.
proof fn lemma_settled_holds_all(
    g: Seq<Seq<usize>>,
    init: Seq<bool>,
    work: Seq<bool>,
    node: int,
    bound: nat,
    v: int,
    depth: nat,
)
    requires
        cascade_state(g, init, work, node, bound),
        cascade_settled(g, init, work),
        unblocked_within(g, init, node, v, depth),
    ensures
        work[v],
    decreases depth,
{
    let before = (depth - 1) as nat;
    assert forall|j: int| 0 <= j < g[v].len() implies work[(#[trigger] g[v][j]) as int] by {
        let p = g[v][j] as int;
        if init[p] {
            assert(work[p]);
        } else if p != node {
            lemma_settled_holds_all(g, init, work, node, bound, p, before);
        }
    }
    let j = choose|j: int|
        0 <= j < g[v].len() && {
            let p = (#[trigger] g[v][j]) as int;
            p == node || unblocked_within(g, init, node, p, before)
        };
    let p = g[v][j] as int;
    if p != node {
        lemma_settled_holds_all(g, init, work, node, bound, p, before);
    }
    assert(work[p] && !init[p]);
    assert(some_blocker_fresh(g, init, work, v));
}

/// The members of a cascade are nodes below the bound, each of them
/// unblocked; they ascend strictly; and no unblocked node below the bound
/// is missing.
pub proof fn lemma_cascade_upto(g: Seq<Seq<usize>>, closed: Seq<bool>, node: int, m: nat)
    requires
        m <= usize::MAX,
    ensures
        cascade_upto(g, closed, node, m).len() <= m,
        forall|k: int|
            0 <= k < cascade_upto(g, closed, node, m).len() ==> (#[trigger] cascade_upto(
                g,
                closed,
                node,
                m,
            )[k]) < m && unblocked(g, closed, node, cascade_upto(g, closed, node, m)[k] as int),
        forall|a: int, b: int|
            0 <= a < b < cascade_upto(g, closed, node, m).len() ==> cascade_upto(
                g,
                closed,
                node,
                m,
            )[a] < cascade_upto(g, closed, node, m)[b],
        forall|v: int|
            0 <= v < m && unblocked(g, closed, node, v) ==> cascade_upto(
                g,
                closed,
                node,
                m,
            ).contains(v as usize),
    decreases m,
{
    if m > 0 {
        let below = cascade_upto(g, closed, node, (m - 1) as nat);
        let ids = cascade_upto(g, closed, node, m);
        lemma_cascade_upto(g, closed, node, (m - 1) as nat);
        assert forall|v: int| 0 <= v < m && unblocked(g, closed, node, v) implies ids.contains(
            v as usize,
        ) by {
            if v < m - 1 {
                assert(below.contains(v as usize));
                let k = choose|k: int| 0 <= k < below.len() && below[k] == v as usize;
                assert(ids[k] == v as usize);
            } else {
                assert(ids[ids.len() - 1] == v as usize);
            }
        }
    }
}

/// Closing a node that is closed already, or that the graph does not
/// have, unblocks nothing.
pub proof fn lemma_no_cascade(g: Seq<Seq<usize>>, closed: Seq<bool>, node: int, m: nat)
    requires
        !(0 <= node < g.len()) || closed[node],
    ensures
        cascade_upto(g, closed, node, m) == Seq::<usize>::empty(),
    decreases m,
{
    if m > 0 {
        lemma_no_cascade(g, closed, node, (m - 1) as nat);
    }
}

/// Whether every blocker of `v` is in the working set, one of them newly.
fn released(graph: &DiGraph, v: usize, init: &Vec<bool>, work: &Vec<bool>) -> (b: bool)
    requires
        graph.wf(),
        v < graph@.len(),
        init@.len() == graph@.len(),
        work@.len() == graph@.len(),
    ensures
        b == (all_blockers_closed(graph@, work@, v as int) && some_blocker_fresh(
            graph@,
            init@,
            work@,
            v as int,
        )),
{
    let count = graph.blocker_count(v);
    let mut all_closed = true;
    let mut any_fresh = false;
    let mut j: usize = 0;
    while j < count
        invariant
            graph.wf(),
            v < graph@.len(),
            init@.len() == graph@.len(),
            work@.len() == graph@.len(),
            count == graph@[v as int].len(),
            j <= count,
            all_closed == (forall|i: int|
                0 <= i < j ==> work@[(#[trigger] graph@[v as int][i]) as int]),
            any_fresh == (exists|i: int|
                0 <= i < j && work@[(#[trigger] graph@[v as int][i]) as int]
                    && !init@[graph@[v as int][i] as int]),
        decreases count - j,
    {
        let p = graph.blocker(v, j);
        if !work[p] {
            all_closed = false;
        } else if !init[p] {
            any_fresh = true;
        }
        j += 1;
    }
    all_closed && any_fresh
}

/// Simulates closing `node` on top of the snapshot `closed_set` and
/// reports the nodes that this unblocks. Nodes that the snapshot does not
/// cover count as open.
pub fn what_if_close(graph: &DiGraph, node: usize, closed_set: &[bool]) -> (r: WhatIfResult)
    requires
        graph.wf(),
    ensures
        r.cascade_ids@ == cascade_of(graph@, padded(closed_set@, graph@.len()), node as int),
        r.transitive_unblocks == gain_of(graph@, padded(closed_set@, graph@.len()), node as int),
{
    let n = graph.len();
    let init = pad_closed(closed_set, n);
    if node >= n || init[node] {
        proof {
            lemma_no_cascade(graph@, init@, node as int, n as nat);
        }
        return WhatIfResult { transitive_unblocks: 0, cascade_ids: Vec::new() };
    }
    let mut work = pad_closed(closed_set, n);
    work.set(node, true);
    let ghost mut depth: nat = 0;
    let mut changed = true;
    while changed
        invariant
            graph.wf(),
            n == graph@.len(),
            work@.len() == n,
            cascade_state(graph@, init@, work@, node as int, depth),
            !changed ==> cascade_settled(graph@, init@, work@),
        decreases 2 * count_open(work@) + (if changed { 1nat } else { 0nat }),
    {
        changed = false;
        let ghost start = work@;
        let mut v: usize = 0;
        while v < n
            invariant
                graph.wf(),
                n == graph@.len(),
                work@.len() == n,
                v <= n,
                cascade_state(graph@, init@, work@, node as int, depth),
                !changed ==> work@ == start,
                !changed ==> forall|u: int|
                    0 <= u < v && !#[trigger] work@[u] ==> !(all_blockers_closed(
                        graph@,
                        work@,
                        u,
                    ) && some_blocker_fresh(graph@, init@, work@, u)),
                changed ==> count_open(work@) < count_open(start),
            decreases n - v,
        {
            if !work[v] && released(graph, v, &init, &work) {
                proof {
                    lemma_join(graph@, init@, work@, node as int, depth, v as int);
                    lemma_close_open_node(work@, v as int);
                    depth = depth + 1;
                }
                work.set(v, true);
                changed = true;
            }
            v += 1;
        }
    }
    assert forall|v: int| 0 <= v < n implies (unblocked(graph@, init@, node as int, v) <==> work@[v]
        && !init@[v] && v != node) by {
        if unblocked(graph@, init@, node as int, v) {
            let d = choose|d: nat| unblocked_within(graph@, init@, node as int, v, d);
            lemma_settled_holds_all(graph@, init@, work@, node as int, depth, v, d);
        }
    }
    let mut ids: Vec<usize> = Vec::new();
    let mut v: usize = 0;
    while v < n
        invariant
            n == graph@.len(),
            work@.len() == n,
            init@.len() == n,
            v <= n,
            ids@ == cascade_upto(graph@, init@, node as int, v as nat),
            forall|u: int|
                0 <= u < n ==> (unblocked(graph@, init@, node as int, u) <==> work@[u] && !init@[u]
                    && u != node),
        decreases n - v,
    {
        if work[v] && !init[v] && v != node {
            ids.push(v);
        }
        v += 1;
    }
    WhatIfResult { transitive_unblocks: ids.len(), cascade_ids: ids }
}

} // verus!
