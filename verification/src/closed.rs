//! Closed sets: one flag per node, `true` for a node whose work is done.

use vstd::prelude::*;

verus! {

/// The flags of a graph with `n` nodes as read from a snapshot: a node that
/// the snapshot does not cover is open.
pub open spec fn padded(closed: Seq<bool>, n: nat) -> Seq<bool> {
    Seq::new(n, |i: int| i < closed.len() && closed[i])
}

/// How many nodes are open.
pub open spec fn count_open(closed: Seq<bool>) -> nat
    decreases closed.len(),
{
    if closed.len() == 0 {
        0
    } else {
        count_open(closed.drop_last()) + if closed.last() {
            0nat
        } else {
            1nat
        }
    }
}

/// The flags after `node` was marked closed. An index outside the set marks nothing.
pub open spec fn closed_with(closed: Seq<bool>, node: int) -> Seq<bool> {
    Seq::new(closed.len(), |i: int| closed[i] || i == node)
}

/// Whether `i` is one of `ids`.
pub open spec fn is_member(ids: Seq<usize>, i: int) -> bool {
    exists|k: int| 0 <= k < ids.len() && #[trigger] ids[k] == i
}

/// The flags after `node` and every member of `ids` were marked closed.
/// Members outside the set are ignored.
pub open spec fn closed_with_all(closed: Seq<bool>, node: int, ids: Seq<usize>) -> Seq<bool> {
    Seq::new(closed.len(), |i: int| closed[i] || i == node || is_member(ids, i))
}

/// Every node closed in `before` is closed in `after`.
pub open spec fn grows(before: Seq<bool>, after: Seq<bool>) -> bool {
    &&& before.len() == after.len()
    &&& forall|i: int| 0 <= i < before.len() && before[i] ==> #[trigger] after[i]
}

/// There are no more open nodes than nodes.
pub proof fn lemma_count_open_bound(closed: Seq<bool>)
    ensures
        count_open(closed) <= closed.len(),
    decreases closed.len(),
{
    if closed.len() > 0 {
        lemma_count_open_bound(closed.drop_last());
    }
}

/// A set without an open node counts zero, and the other way round.
pub proof fn lemma_count_open_zero(closed: Seq<bool>)
    ensures
        count_open(closed) == 0 <==> (forall|i: int| 0 <= i < closed.len() ==> closed[i]),
    decreases closed.len(),
{
    if closed.len() > 0 {
        let front = closed.drop_last();
        lemma_count_open_zero(front);
        if count_open(closed) == 0 {
            assert forall|i: int| 0 <= i < closed.len() implies closed[i] by {
                if i < front.len() {
                    assert(front[i]);
                }
            }
        }
        if forall|i: int| 0 <= i < closed.len() ==> closed[i] {
            assert forall|i: int| 0 <= i < front.len() implies front[i] by {
                assert(closed[i]);
            }
        }
    }
}

/// Closing one open node leaves one open node fewer.
pub proof fn lemma_close_open_node(closed: Seq<bool>, node: int)
    requires
        0 <= node < closed.len(),
        !closed[node],
    ensures
        closed_with(closed, node) == closed.update(node, true),
        count_open(closed_with(closed, node)) + 1 == count_open(closed),
    decreases closed.len(),
{
    let after = closed.update(node, true);
    assert(closed_with(closed, node) =~= after);
    if node == closed.len() - 1 {
        assert(after.drop_last() =~= closed.drop_last());
    } else {
        lemma_close_open_node(closed.drop_last(), node);
        assert(after.drop_last() =~= closed.drop_last().update(node, true));
    }
}

/// Marking a node closed a second time changes nothing, and marking a
/// node that is already closed changes nothing.
pub proof fn lemma_closing_is_idempotent(closed: Seq<bool>, node: int)
    ensures
        closed_with(closed_with(closed, node), node) == closed_with(closed, node),
        0 <= node < closed.len() && closed[node] ==> closed_with(closed, node) == closed,
        grows(closed, closed_with(closed, node)),
{
    assert(closed_with(closed_with(closed, node), node) =~= closed_with(closed, node));
    if 0 <= node < closed.len() && closed[node] {
        assert(closed_with(closed, node) =~= closed);
    }
}

/// Committing the same selection a second time changes nothing, and
/// committing never opens a node.
pub proof fn lemma_commit_is_idempotent(closed: Seq<bool>, node: int, ids: Seq<usize>)
    ensures
        closed_with_all(closed_with_all(closed, node, ids), node, ids) == closed_with_all(
            closed,
            node,
            ids,
        ),
        grows(closed, closed_with_all(closed, node, ids)),
{
    assert(closed_with_all(closed_with_all(closed, node, ids), node, ids) =~= closed_with_all(
        closed,
        node,
        ids,
    ));
}

/// The members of the first `j + 1` of `ids` are those of the first `j`, and `ids[j]`.
pub proof fn lemma_member_step(ids: Seq<usize>, j: int, i: int)
    requires
        0 <= j < ids.len(),
    ensures
        is_member(ids.take(j + 1), i) <==> is_member(ids.take(j), i) || ids[j] == i,
{
    let shorter = ids.take(j);
    let longer = ids.take(j + 1);
    if is_member(longer, i) {
        let k = choose|k: int| 0 <= k < longer.len() && #[trigger] longer[k] == i;
        if k < j {
            assert(shorter[k] == i);
        }
    }
    if is_member(shorter, i) {
        let k = choose|k: int| 0 <= k < shorter.len() && #[trigger] shorter[k] == i;
        assert(longer[k] == i);
    }
    if ids[j] == i {
        assert(longer[j] == i);
    }
}

/// Closing an open node and `ids`, which are distinct open nodes other
/// than it, leaves that many open nodes fewer.
pub proof fn lemma_close_all_count(closed: Seq<bool>, node: int, ids: Seq<usize>)
    requires
        0 <= node < closed.len(),
        !closed[node],
        forall|k: int| 0 <= k < ids.len() ==> (#[trigger] ids[k]) < closed.len() && ids[k] != node,
        forall|k: int| 0 <= k < ids.len() ==> !closed[(#[trigger] ids[k]) as int],
        forall|a: int, b: int| 0 <= a < b < ids.len() ==> ids[a] < ids[b],
    ensures
        count_open(closed_with_all(closed, node, ids)) + ids.len() + 1 == count_open(closed),
    decreases ids.len(),
{
    if ids.len() == 0 {
        assert(closed_with_all(closed, node, ids) =~= closed_with(closed, node));
        lemma_close_open_node(closed, node);
    } else {
        let front = ids.drop_last();
        let last = ids.last() as int;
        let mid = closed_with_all(closed, node, front);
        lemma_close_all_count(closed, node, front);
        assert(!is_member(front, last)) by {
            if is_member(front, last) {
                let k = choose|k: int| 0 <= k < front.len() && #[trigger] front[k] == last;
                assert(ids[k] < ids[ids.len() - 1]);
            }
        }
        assert(!mid[last]);
        lemma_close_open_node(mid, last);
        assert(closed_with(mid, last) =~= closed_with_all(closed, node, ids)) by {
            assert forall|i: int| 0 <= i < closed.len() implies closed_with(mid, last)[i]
                == closed_with_all(closed, node, ids)[i] by {
                assert(front == ids.take(ids.len() - 1));
                assert(ids =~= ids.take(ids.len() as int));
                lemma_member_step(ids, ids.len() - 1, i);
            }
        }
    }
}

/// An owned copy of a snapshot for a graph with `n` nodes.
pub fn pad_closed(closed_set: &[bool], n: usize) -> (out: Vec<bool>)
    ensures
        out@ == padded(closed_set@, n as nat),
{
    let mut out: Vec<bool> = Vec::new();
    let mut i: usize = 0;
    while i < n
        invariant
            i <= n,
            out@ == padded(closed_set@, i as nat),
        decreases n - i,
    {
        let flag = i < closed_set.len() && closed_set[i];
        out.push(flag);
        assert(out@ =~= padded(closed_set@, (i + 1) as nat));
        i += 1;
    }
    out
}

/// Counts the open nodes of a closed set.
pub fn count_open_nodes(closed: &Vec<bool>) -> (count: usize)
    ensures
        count == count_open(closed@),
{
    let mut count: usize = 0;
    let mut i: usize = 0;
    while i < closed.len()
        invariant
            i <= closed.len(),
            count == count_open(closed@.take(i as int)),
            count <= i,
        decreases closed.len() - i,
    {
        assert(closed@.take(i + 1).drop_last() =~= closed@.take(i as int));
        if !closed[i] {
            count += 1;
        }
        i += 1;
    }
    assert(closed@.take(i as int) =~= closed@);
    count
}

} // verus!
