//! Greedy selection of the nodes whose closing unblocks the most.
//!
//! Each round looks at every open node, takes the one whose closing would
//! unblock the most nodes, the lowest index among equals, and closes it
//! together with what it unblocks. The rounds end after `k` selections, or
//! when no open node would unblock anything.

use crate::closed::{
    closed_with_all, count_open, count_open_nodes, grows, lemma_close_all_count,
    lemma_count_open_bound, lemma_count_open_zero, lemma_member_step, pad_closed, padded,
};
use crate::graph::DiGraph;
use crate::whatif::{cascade_of, gain_of, lemma_cascade_upto, unblocked, what_if_close};
use vstd::prelude::*;

verus! {

/// One selection.
#[derive(Debug, Clone)]
pub struct TopKSetItem {
    /// The selected node.
    pub node: usize,
    /// How many nodes its closing unblocked when it was selected.
    pub marginal_gain: usize,
    /// Those nodes, in ascending order.
    pub unblocked_ids: Vec<usize>,
}

/// The selections of one run.
#[derive(Debug, Clone)]
pub struct TopKSetResult {
    /// The selections, in the order in which they were made.
    pub items: Vec<TopKSetItem>,
    /// The sum of their gains.
    pub total_gain: usize,
    /// How many nodes were open before the first selection.
    pub open_nodes: usize,
}

/// A selection as a mathematical value.
pub struct Selection {
    pub node: int,
    pub marginal_gain: nat,
    pub unblocked_ids: Seq<usize>,
}

/// The outcome of a run as a mathematical value.
pub struct Outcome {
    pub items: Seq<Selection>,
    pub total_gain: nat,
    pub open_nodes: nat,
}

impl View for TopKSetItem {
    type V = Selection;

    open spec fn view(&self) -> Selection {
        Selection {
            node: self.node as int,
            marginal_gain: self.marginal_gain as nat,
            unblocked_ids: self.unblocked_ids@,
        }
    }
}

/// The selections of a list of items.
pub open spec fn items_view(items: Seq<TopKSetItem>) -> Seq<Selection> {
    Seq::new(items.len(), |i: int| items[i]@)
}

impl View for TopKSetResult {
    type V = Outcome;

    open spec fn view(&self) -> Outcome {
        Outcome {
            items: items_view(self.items@),
            total_gain: self.total_gain as nat,
            open_nodes: self.open_nodes as nat,
        }
    }
}

/// Among the open nodes below `m`, `b` has the greatest gain, and is the
/// lowest of those that have it.
pub open spec fn best_below(g: Seq<Seq<usize>>, closed: Seq<bool>, b: int, m: int) -> bool {
    &&& 0 <= b < m
    &&& !closed[b]
    &&& forall|u: int|
        0 <= u < m && !#[trigger] closed[u] ==> gain_of(g, closed, u) <= gain_of(g, closed, b)
    &&& forall|u: int|
        0 <= u < b && !#[trigger] closed[u] ==> gain_of(g, closed, u) < gain_of(g, closed, b)
}

/// Among all open nodes, `b` has the greatest gain, and is the lowest of
/// those that have it.
pub open spec fn is_best(g: Seq<Seq<usize>>, closed: Seq<bool>, b: int) -> bool {
    best_below(g, closed, b, g.len() as int)
}

/// Whether a round has a candidate, that is, whether a node is open.
pub open spec fn has_best(g: Seq<Seq<usize>>, closed: Seq<bool>) -> bool {
    exists|b: int| is_best(g, closed, b)
}

/// The candidate that a round settles on.
pub open spec fn best_node(g: Seq<Seq<usize>>, closed: Seq<bool>) -> int {
    choose|b: int| is_best(g, closed, b)
}

/// The selection that closing `node` makes.
pub open spec fn selection_of(g: Seq<Seq<usize>>, closed: Seq<bool>, node: int) -> Selection {
    Selection {
        node,
        marginal_gain: gain_of(g, closed, node),
        unblocked_ids: cascade_of(g, closed, node),
    }
}

/// The closed set after `s` was committed.
pub open spec fn committed(closed: Seq<bool>, s: Selection) -> Seq<bool> {
    closed_with_all(closed, s.node, s.unblocked_ids)
}

/// The selections of up to `k` rounds that start from `closed`.
pub open spec fn greedy(g: Seq<Seq<usize>>, closed: Seq<bool>, k: nat) -> Seq<Selection>
    decreases k,
{
    if k == 0 || !has_best(g, closed) || gain_of(g, closed, best_node(g, closed)) == 0 {
        Seq::empty()
    } else {
        let first = selection_of(g, closed, best_node(g, closed));
        seq![first] + greedy(g, committed(closed, first), (k - 1) as nat)
    }
}

/// The sum of the gains of `items`.
pub open spec fn sum_gains(items: Seq<Selection>) -> nat
    decreases items.len(),
{
    if items.len() == 0 {
        0
    } else {
        sum_gains(items.drop_last()) + items.last().marginal_gain
    }
}

/// What a run on the snapshot `closed_set` with the limit `k` returns.
pub open spec fn topk_outcome(g: Seq<Seq<usize>>, closed_set: Seq<bool>, k: nat) -> Outcome {
    let items = greedy(g, padded(closed_set, g.len()), k);
    Outcome {
        items,
        total_gain: sum_gains(items),
        open_nodes: count_open(padded(closed_set, g.len())),
    }
}

/// A round settles on one node only: the best candidate is unique.
pub proof fn lemma_best_is_unique(g: Seq<Seq<usize>>, closed: Seq<bool>, a: int, b: int)
    requires
        is_best(g, closed, a),
        is_best(g, closed, b),
    ensures
        a == b,
{
    if a < b {
        assert(!closed[a]);
        assert(gain_of(g, closed, a) < gain_of(g, closed, b));
        assert(!closed[b]);
    } else if b < a {
        assert(!closed[b]);
        assert(gain_of(g, closed, b) < gain_of(g, closed, a));
        assert(!closed[a]);
    }
}

/// Committing a round's selection closes its node and as many others as
/// its gain says, all of them open before.
pub proof fn lemma_commit_count(g: Seq<Seq<usize>>, closed: Seq<bool>, node: int)
    requires
        closed.len() == g.len(),
        g.len() <= usize::MAX,
        0 <= node < g.len(),
        !closed[node],
    ensures
        count_open(committed(closed, selection_of(g, closed, node))) + gain_of(g, closed, node) + 1
            == count_open(closed),
        grows(closed, committed(closed, selection_of(g, closed, node))),
{
    let ids = cascade_of(g, closed, node);
    lemma_cascade_upto(g, closed, node, g.len());
    assert forall|k: int| 0 <= k < ids.len() implies (#[trigger] ids[k]) < closed.len() && ids[k]
        != node && !closed[ids[k] as int] by {
        assert(unblocked(g, closed, node, ids[k] as int));
    }
    lemma_close_all_count(closed, node, ids);
}

/// Among open nodes of equal gain the round takes the lowest: no open
/// node below the best one reaches its gain, and none at all exceeds it.
pub proof fn lemma_ties_go_to_lowest(g: Seq<Seq<usize>>, closed: Seq<bool>, b: int, u: int)
    requires
        is_best(g, closed, b),
        0 <= u < g.len(),
        !closed[u],
    ensures
        gain_of(g, closed, u) <= gain_of(g, closed, b),
        gain_of(g, closed, u) == gain_of(g, closed, b) ==> b <= u,
{
}

/// The sum of the gains of a list is the first gain plus the sum of the rest.
pub proof fn lemma_sum_gains_prepend(first: Selection, rest: Seq<Selection>)
    ensures
        sum_gains(seq![first] + rest) == first.marginal_gain + sum_gains(rest),
    decreases rest.len(),
{
    let all = seq![first] + rest;
    if rest.len() == 0 {
        assert(all.drop_last() =~= Seq::<Selection>::empty());
        assert(sum_gains(all.drop_last()) == 0);
        assert(all.last() == first);
    } else {
        lemma_sum_gains_prepend(first, rest.drop_last());
        assert(all.drop_last() =~= seq![first] + rest.drop_last());
        assert(all.last() == rest.last());
    }
}

/// What holds of the selections of any run: there are at most `k`; together
/// with what they unblock they are no more than the nodes that were open;
/// each names a node that was open at the start and unblocks at least one
/// node, as many as its gain says; and no node is selected twice.
pub proof fn lemma_greedy_selections(g: Seq<Seq<usize>>, closed: Seq<bool>, k: nat)
    requires
        closed.len() == g.len(),
        g.len() <= usize::MAX,
    ensures
        greedy(g, closed, k).len() <= k,
        sum_gains(greedy(g, closed, k)) + greedy(g, closed, k).len() <= count_open(closed),
        forall|i: int|
            0 <= i < greedy(g, closed, k).len() ==> {
                let s = #[trigger] greedy(g, closed, k)[i];
                &&& 0 <= s.node < g.len()
                &&& !closed[s.node]
                &&& s.marginal_gain > 0
                &&& s.marginal_gain == s.unblocked_ids.len()
            },
        forall|i: int, j: int|
            0 <= i < j < greedy(g, closed, k).len() ==> greedy(g, closed, k)[i].node != greedy(
                g,
                closed,
                k,
            )[j].node,
    decreases k,
{
    let items = greedy(g, closed, k);
    if items.len() > 0 {
        let b = best_node(g, closed);
        assert(is_best(g, closed, b));
        let first = selection_of(g, closed, b);
        let next = committed(closed, first);
        let rest = greedy(g, next, (k - 1) as nat);
        assert(items == seq![first] + rest);
        lemma_commit_count(g, closed, b);
        lemma_greedy_selections(g, next, (k - 1) as nat);
        lemma_sum_gains_prepend(first, rest);
        assert(next[b]);
        assert forall|i: int| 0 <= i < items.len() implies {
            let s = #[trigger] items[i];
            &&& 0 <= s.node < g.len()
            &&& !closed[s.node]
            &&& s.marginal_gain > 0
            &&& s.marginal_gain == s.unblocked_ids.len()
        } by {
            if i > 0 {
                let s = rest[i - 1];
                assert(items[i] == s);
                if closed[s.node] {
                    assert(next[s.node]);
                }
            }
        }
        assert forall|i: int, j: int| 0 <= i < j < items.len() implies items[i].node
            != items[j].node by {
            assert(items[j] == rest[j - 1]);
            if i > 0 {
                assert(items[i] == rest[i - 1]);
            }
        }
    }
}

/// Where every node is closed, no node is open and nothing is selected.
pub proof fn lemma_nothing_open_nothing_selected(g: Seq<Seq<usize>>, closed: Seq<bool>, k: nat)
    requires
        closed.len() == g.len(),
        g.len() <= usize::MAX,
        forall|i: int| 0 <= i < closed.len() ==> closed[i],
    ensures
        count_open(closed) == 0,
        greedy(g, closed, k) == Seq::<Selection>::empty(),
{
    lemma_count_open_zero(closed);
    lemma_greedy_selections(g, closed, k);
    assert(greedy(g, closed, k) =~= Seq::<Selection>::empty());
}

/// On a graph without nodes a run selects nothing and counts no open node.
pub proof fn lemma_outcome_of_empty_graph(g: Seq<Seq<usize>>, closed_set: Seq<bool>, k: nat)
    requires
        g.len() == 0,
    ensures
        topk_outcome(g, closed_set, k) == (Outcome {
            items: Seq::empty(),
            total_gain: 0,
            open_nodes: 0,
        }),
{
    lemma_nothing_open_nothing_selected(g, padded(closed_set, 0), k);
}

/// With a limit of zero a run selects nothing, and still counts the nodes
/// that are open in the snapshot.
pub proof fn lemma_outcome_of_zero_limit(g: Seq<Seq<usize>>, closed_set: Seq<bool>)
    ensures
        topk_outcome(g, closed_set, 0) == (Outcome {
            items: Seq::empty(),
            total_gain: 0,
            open_nodes: count_open(padded(closed_set, g.len())),
        }),
{
}

/// Two runs on the same graph, snapshot and limit return the same
/// selections in the same order, the same total and the same count.
pub proof fn lemma_outcome_is_determined(
    g: Seq<Seq<usize>>,
    closed_set: Seq<bool>,
    k: nat,
    first: TopKSetResult,
    second: TopKSetResult,
)
    requires
        first@ == topk_outcome(g, closed_set, k),
        second@ == topk_outcome(g, closed_set, k),
    ensures
        first@ == second@,
        first@.items.len() == second@.items.len(),
        forall|i: int|
            0 <= i < first@.items.len() ==> first@.items[i] == second@.items[i],
{
}

/// The snapshot is read only as far as the graph has nodes, and nodes that
/// it does not cover are open: a run on the snapshot and a run on its
/// padded copy return the same.
pub proof fn lemma_outcome_of_padded(g: Seq<Seq<usize>>, closed_set: Seq<bool>, k: nat)
    ensures
        topk_outcome(g, padded(closed_set, g.len()), k) == topk_outcome(g, closed_set, k),
{
    assert(padded(padded(closed_set, g.len()), g.len()) =~= padded(closed_set, g.len()));
}

/// The open node whose closing unblocks the most, the lowest index among
/// equals, with what it unblocks; `None` when no node is open.
pub fn best_candidate(graph: &DiGraph, closed: &Vec<bool>) -> (best: Option<TopKSetItem>)
    requires
        graph.wf(),
        closed@.len() == graph@.len(),
    ensures
        match best {
            Some(item) => is_best(graph@, closed@, item.node as int) && item@ == selection_of(
                graph@,
                closed@,
                item.node as int,
            ),
            None => forall|v: int| 0 <= v < closed@.len() ==> closed@[v],
        },
        best.is_some() <==> has_best(graph@, closed@),
{
    let n = graph.len();
    let mut best: Option<TopKSetItem> = None;
    let mut v: usize = 0;
    assert(padded(closed@, n as nat) =~= closed@);
    while v < n
        invariant
            graph.wf(),
            n == graph@.len(),
            closed@.len() == n,
            v <= n,
            padded(closed@, n as nat) == closed@,
            match best {
                Some(item) => best_below(graph@, closed@, item.node as int, v as int) && item@
                    == selection_of(graph@, closed@, item.node as int),
                None => forall|u: int| 0 <= u < v ==> closed@[u],
            },
        decreases n - v,
    {
        if !closed[v] {
            let r = what_if_close(graph, v, closed.as_slice());
            let better = match &best {
                Some(item) => r.transitive_unblocks > item.marginal_gain,
                None => true,
            };
            if better {
                best = Some(
                    TopKSetItem {
                        node: v,
                        marginal_gain: r.transitive_unblocks,
                        unblocked_ids: r.cascade_ids,
                    },
                );
            }
        }
        v += 1;
    }
    proof {
        if best.is_some() {
            assert(is_best(graph@, closed@, best.unwrap().node as int));
        } else if has_best(graph@, closed@) {
            let b = best_node(graph@, closed@);
            assert(is_best(graph@, closed@, b));
            assert(closed@[b]);
        }
    }
    best
}

/// Marks `node` and every member of `ids` closed. Members outside the set
/// are ignored.
pub fn commit(closed: &mut Vec<bool>, node: usize, ids: &Vec<usize>)
    ensures
        final(closed)@ == closed_with_all(old(closed)@, node as int, ids@),
{
    let n = closed.len();
    if node < n {
        closed.set(node, true);
    }
    let mut j: usize = 0;
    assert(closed@ =~= closed_with_all(old(closed)@, node as int, ids@.take(0)));
    while j < ids.len()
        invariant
            j <= ids@.len(),
            n == old(closed)@.len(),
            closed@ == closed_with_all(old(closed)@, node as int, ids@.take(j as int)),
        decreases ids@.len() - j,
    {
        let c = ids[j];
        if c < n {
            closed.set(c, true);
        }
        proof {
            assert forall|i: int| 0 <= i < n implies closed@[i] == closed_with_all(
                old(closed)@,
                node as int,
                ids@.take(j + 1),
            )[i] by {
                lemma_member_step(ids@, j as int, i);
            }
            assert(closed@ =~= closed_with_all(old(closed)@, node as int, ids@.take(j + 1)));
        }
        j += 1;
    }
    assert(ids@.take(j as int) =~= ids@);
}

/// Selects up to `k` open nodes, each the one whose closing unblocks the
/// most given the selections before it, and stops early when no open node
/// would unblock anything. The snapshot `closed_set` is not changed; nodes
/// that it does not cover count as open.
pub fn topk_set(graph: &DiGraph, closed_set: &[bool], k: usize) -> (r: TopKSetResult)
    requires
        graph.wf(),
    ensures
        r@ == topk_outcome(graph@, closed_set@, k as nat),
        r@.items.len() <= k,
        r@.items.len() <= r@.open_nodes,
        r@.total_gain + r@.items.len() <= r@.open_nodes,
        r@.total_gain == sum_gains(r@.items),
        r@.open_nodes <= graph@.len(),
{
    let n = graph.len();
    let mut cur = pad_closed(closed_set, n);
    let open_nodes = count_open_nodes(&cur);
    proof {
        lemma_count_open_bound(cur@);
    }
    let ghost init = cur@;
    let mut items: Vec<TopKSetItem> = Vec::new();
    let mut total_gain: usize = 0;
    let mut rounds: usize = 0;
    let mut done = false;
    assert(items_view(items@) + greedy(graph@, cur@, k as nat) =~= greedy(graph@, init, k as nat));
    while rounds < k && !done
        invariant
            graph.wf(),
            n == graph@.len(),
            cur@.len() == n,
            rounds <= k,
            items@.len() == rounds,
            greedy(graph@, init, k as nat) == items_view(items@) + greedy(
                graph@,
                cur@,
                (k - rounds) as nat,
            ),
            done ==> greedy(graph@, cur@, (k - rounds) as nat) == Seq::<Selection>::empty(),
            total_gain == sum_gains(items_view(items@)),
            total_gain + items@.len() + count_open(cur@) == open_nodes,
        decreases (k - rounds) + (if done { 0nat } else { 1nat }),
    {
        let ghost left = (k - rounds) as nat;
        let ghost before = cur@;
        let ghost chosen = items_view(items@);
        match best_candidate(graph, &cur) {
            Some(item) => {
                proof {
                    lemma_best_is_unique(
                        graph@,
                        before,
                        item.node as int,
                        best_node(graph@, before),
                    );
                }
                if item.marginal_gain > 0 {
                    proof {
                        lemma_commit_count(graph@, before, item.node as int);
                    }
                    commit(&mut cur, item.node, &item.unblocked_ids);
                    total_gain += item.marginal_gain;
                    let ghost sel = item@;
                    items.push(item);
                    rounds += 1;
                    proof {
                        let rest = greedy(graph@, cur@, (left - 1) as nat);
                        assert(items_view(items@) =~= chosen.push(sel));
                        assert(items_view(items@).drop_last() =~= chosen);
                        assert(chosen.push(sel) + rest =~= chosen + (seq![sel] + rest));
                    }
                } else {
                    done = true;
                }
            },
            None => {
                done = true;
            },
        }
    }
    assert(items_view(items@) + Seq::<Selection>::empty() =~= items_view(items@));
    TopKSetResult { items, total_gain, open_nodes }
}

/// As `topk_set`, with a limit of five selections.
pub fn topk_set_default(graph: &DiGraph, closed_set: &[bool]) -> (r: TopKSetResult)
    requires
        graph.wf(),
    ensures
        r@ == topk_outcome(graph@, closed_set@, 5),
        r@.items.len() <= 5,
        r@.items.len() <= r@.open_nodes,
{
    topk_set(graph, closed_set, 5)
}

} // verus!
