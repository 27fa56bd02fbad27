//! Why ranks order propagation: after a link the rank grows along every
//! edge, as long as the sweep that the link makes runs cleanly.

use vstd::prelude::*;
use crate::node::{
    frame, lemma_link_raises_target, lemma_sweep_node_changes_visited_only,
    lemma_sweep_node_raises, lemma_unvisited_insert, lemma_unvisited_monotone, link_sweep,
    linked_rank, ranks_increase, spec_link_to, sweep_node, sweep_start, sweep_targets,
    targets_in_range, unvisited, with_ranks, NodeView, Sweep, Target,
};

verus! {

/// The sweep from `node` runs cleanly: it never comes back to a node that
/// it has raised before and that is not above the limit in hand.
///
/// Such a node keeps the rank it has, so the edge by which the sweep came
/// back would lead to a rank that is no higher. This happens where the
/// sweep closes a cycle, and where it reaches a node a second time along a
/// path that is at least as long as the first.
pub open spec fn sweep_node_clean(g: Seq<NodeView>, s: Sweep, node: int, limit: u64) -> bool
    decreases unvisited(g, s.visited), 0nat, 0nat,
{
    if !s.ok || !(0 <= node < g.len()) || node >= s.ranks.len() || s.ranks[node] > limit {
        true
    } else if s.visited.contains(g[node].id) {
        false
    } else if limit == u64::MAX {
        true
    } else {
        let raised = Sweep {
            ranks: s.ranks.update(node, (limit + 1) as u64),
            visited: s.visited.insert(g[node].id),
            ok: true,
        };
        proof {
            lemma_unvisited_insert(g, s.visited, node, g.len() as int);
        }
        sweep_targets_clean(g, raised, node, 0, (limit + 1) as u64)
    }
}

/// The sweep of the listeners of `node` from the `k`-th on runs cleanly.
pub open spec fn sweep_targets_clean(
    g: Seq<NodeView>,
    s: Sweep,
    node: int,
    k: int,
    limit: u64,
) -> bool
    decreases unvisited(g, s.visited), 1nat, g[node].listeners.len() - k,
{
    if !s.ok || !(0 <= node < g.len()) || k < 0 || k >= g[node].listeners.len() {
        true
    } else {
        let below = sweep_node(g, s, g[node].listeners[k].node as int, limit);
        let next = Sweep { visited: below.visited.union(s.visited), ..below };
        proof {
            lemma_unvisited_monotone(g, s.visited, next.visited, g.len() as int);
        }
        sweep_node_clean(g, s, g[node].listeners[k].node as int, limit) && sweep_targets_clean(
            g,
            next,
            node,
            k + 1,
            limit,
        )
    }
}

/// The link from `source` to `target` runs cleanly: so does its sweep, and
/// the sweep does not reach `source`, that is, the link closes no cycle.
pub open spec fn link_clean(g: Seq<NodeView>, source: int, target: int) -> bool {
    &&& sweep_node_clean(frame(g), sweep_start(g, Set::empty()), target, g[source].rank)
    &&& !link_sweep(g, source, target).visited.contains(g[source].id)
}

/// Under `ranks`, the rank grows along every edge that leaves `n`.
pub open spec fn edges_increase(g: Seq<NodeView>, ranks: Seq<u64>, n: int) -> bool {
    forall|k: int|
        0 <= k < g[n].listeners.len() ==> ranks[(#[trigger] g[n].listeners[k]).node as int]
            > ranks[n]
}

/// What holds between the state before a part of a sweep and the state
/// after it, where `open` holds the nodes whose listeners are still being
/// swept.
pub open spec fn sweep_step(g: Seq<NodeView>, open: Set<int>, s: Sweep, t: Sweep) -> bool {
    &&& t.ranks.len() == s.ranks.len()
    &&& s.visited.subset_of(t.visited)
    &&& forall|n: int| 0 <= n < g.len() ==> t.ranks[n] >= s.ranks[n]
    &&& forall|n: int|
        0 <= n < g.len() && s.visited.contains(#[trigger] g[n].id) ==> t.ranks[n] == s.ranks[n]
    &&& forall|n: int|
        0 <= n < g.len() && !t.visited.contains(#[trigger] g[n].id) ==> t.ranks[n] == s.ranks[n]
    &&& forall|n: int| 0 <= n < g.len() && !open.contains(n) ==> #[trigger] edges_increase(g, t.ranks, n)
}

/// What a part of a sweep starts from.
pub open spec fn sweep_ready(g: Seq<NodeView>, open: Set<int>, s: Sweep) -> bool {
    &&& targets_in_range(g)
    &&& s.ok
    &&& s.ranks.len() == g.len()
    &&& forall|n: int| #[trigger] open.contains(n) ==> 0 <= n < g.len() && s.visited.contains(g[n].id)
    &&& forall|n: int| 0 <= n < g.len() && !open.contains(n) ==> #[trigger] edges_increase(g, s.ranks, n)
}

proof fn lemma_sweep_node_orders(g: Seq<NodeView>, open: Set<int>, s: Sweep, node: int, limit: u64)
    requires
        sweep_ready(g, open, s),
        0 <= node < g.len(),
        sweep_node_clean(g, s, node, limit),
        sweep_node(g, s, node, limit).ok,
    ensures
        sweep_step(g, open, s, sweep_node(g, s, node, limit)),
        sweep_node(g, s, node, limit).ranks[node] > limit,
    decreases unvisited(g, s.visited), 0nat, 0nat,
{
    if s.ranks[node] > limit {
    } else {
        let top = (limit + 1) as u64;
        let raised = Sweep {
            ranks: s.ranks.update(node, top),
            visited: s.visited.insert(g[node].id),
            ok: true,
        };
        let inner = open.insert(node);
        lemma_unvisited_insert(g, s.visited, node, g.len() as int);
        assert forall|n: int| 0 <= n < g.len() && !inner.contains(n) implies #[trigger] edges_increase(
            g,
            raised.ranks,
            n,
        ) by {
            assert(edges_increase(g, s.ranks, n));
            assert forall|k: int| 0 <= k < g[n].listeners.len() implies raised.ranks[(
            #[trigger] g[n].listeners[k]).node as int] > raised.ranks[n] by {
                assert(s.ranks[g[n].listeners[k].node as int] > s.ranks[n]);
            }
        }
        lemma_sweep_targets_order(g, inner, raised, node, 0, top);
        let t = sweep_targets(g, raised, node, 0, top);
        assert(t.ranks[node] == top);
        assert(edges_increase(g, t.ranks, node));
        assert forall|n: int| 0 <= n < g.len() && !open.contains(n) implies #[trigger] edges_increase(
            g,
            t.ranks,
            n,
        ) by {
            if n != node {
                assert(!inner.contains(n));
            }
        }
        assert forall|n: int|
            0 <= n < g.len() && s.visited.contains(#[trigger] g[n].id) implies t.ranks[n]
            == s.ranks[n] by {
            assert(raised.visited.contains(g[n].id));
        }
        assert forall|n: int|
            0 <= n < g.len() && !t.visited.contains(#[trigger] g[n].id) implies t.ranks[n]
            == s.ranks[n] by {
            assert(raised.visited.contains(g[node].id));
        }
    }
}

proof fn lemma_sweep_targets_order(
    g: Seq<NodeView>,
    open: Set<int>,
    s: Sweep,
    node: int,
    k: int,
    limit: u64,
)
    requires
        sweep_ready(g, open, s),
        0 <= node < g.len(),
        open.contains(node),
        0 <= k <= g[node].listeners.len(),
        s.ranks[node] == limit,
        forall|j: int| 0 <= j < k ==> s.ranks[(#[trigger] g[node].listeners[j]).node as int] > limit,
        sweep_targets_clean(g, s, node, k, limit),
        sweep_targets(g, s, node, k, limit).ok,
    ensures
        sweep_step(g, open, s, sweep_targets(g, s, node, k, limit)),
        edges_increase(g, sweep_targets(g, s, node, k, limit).ranks, node),
    decreases unvisited(g, s.visited), 1nat, g[node].listeners.len() - k,
{
    if k >= g[node].listeners.len() {
    } else {
        let child = g[node].listeners[k].node as int;
        let below = sweep_node(g, s, child, limit);
        let next = Sweep { visited: below.visited.union(s.visited), ..below };
        assert(below.ok) by {
            if !below.ok {
                assert(sweep_targets(g, next, node, k + 1, limit) == next);
            }
        }
        lemma_sweep_node_orders(g, open, s, child, limit);
        assert(next.visited =~= below.visited);
        assert(next == below);
        lemma_unvisited_monotone(g, s.visited, next.visited, g.len() as int);
        assert forall|j: int| 0 <= j < k + 1 implies next.ranks[(
        #[trigger] g[node].listeners[j]).node as int] > limit by {
            if j < k {
                assert(s.ranks[g[node].listeners[j].node as int] > limit);
            }
        }
        lemma_sweep_targets_order(g, open, next, node, k + 1, limit);
    }
}

/// After a successful link the rank grows along every edge.
///
/// If it did so before the link, the ranks that the link assigns fit in 64
/// bits, and the link runs cleanly, then in the graph that `link_to` leaves
/// every listener of every node has a rank above that of the node.
pub proof fn lemma_link_keeps_ranks_increasing(g: Seq<NodeView>, source: int, target: Target)
    requires
        targets_in_range(g),
        ranks_increase(g),
        0 <= source < g.len(),
        target.node < g.len(),
        link_sweep(g, source, target.node as int).ok,
        link_clean(g, source, target.node as int),
    ensures
        ranks_increase(spec_link_to(g, source, target)),
        targets_in_range(spec_link_to(g, source, target)),
{
    let f = frame(g);
    let s = sweep_start(g, Set::empty());
    let t = link_sweep(g, source, target.node as int);
    let open = Set::<int>::empty();
    assert(targets_in_range(f)) by {
        assert forall|n: int, k: int|
            0 <= n < f.len() && 0 <= k < f[n].listeners.len() implies (
        #[trigger] f[n].listeners[k]).node < f.len() by {
            assert(g[n].listeners[k].node < g.len());
        }
    }
    assert forall|n: int| 0 <= n < f.len() implies #[trigger] edges_increase(f, s.ranks, n) by {
        assert forall|k: int| 0 <= k < f[n].listeners.len() implies s.ranks[(
        #[trigger] f[n].listeners[k]).node as int] > s.ranks[n] by {
            assert(g[g[n].listeners[k].node as int].rank > g[n].rank);
        }
    }
    lemma_sweep_node_orders(f, open, s, target.node as int, g[source].rank);
    let swept = with_ranks(g, t.ranks);
    let linked = spec_link_to(g, source, target);
    assert(t.ranks[source] == g[source].rank) by {
        assert(f[source].id == g[source].id);
        assert(s.ranks[source] == g[source].rank);
    }
    assert forall|n: int, k: int|
        0 <= n < linked.len() && 0 <= k < linked[n].listeners.len() implies linked[(
    #[trigger] linked[n].listeners[k]).node as int].rank > linked[n].rank
        && linked[n].listeners[k].node < linked.len() by {
        assert(edges_increase(f, t.ranks, n));
        if n == source && k == g[n].listeners.len() {
        } else {
            assert(linked[n].listeners[k] == f[n].listeners[k]);
            assert(g[n].listeners[k].node < g.len());
        }
    }
}

/// A link to a node without listeners runs cleanly, whatever the graph:
/// its sweep raises that node at most.
pub proof fn lemma_link_to_leaf_is_clean(g: Seq<NodeView>, source: int, target: int)
    requires
        0 <= source < g.len(),
        0 <= target < g.len(),
        g[target].listeners.len() == 0,
        g[source].id != g[target].id,
        g[source].rank < u64::MAX,
    ensures
        link_sweep(g, source, target).ok,
        link_clean(g, source, target),
{
    let f = frame(g);
    let start = sweep_start(g, Set::empty());
    let limit = g[source].rank;
    assert(f.len() == g.len());
    assert(f[target].listeners.len() == 0);
    assert(f[target].id == g[target].id);
    assert(start.ranks[target] == g[target].rank);
    if start.ranks[target] <= limit {
        let raised = Sweep {
            ranks: start.ranks.update(target, (limit + 1) as u64),
            visited: start.visited.insert(f[target].id),
            ok: true,
        };
        assert(sweep_targets(f, raised, target, 0, (limit + 1) as u64) == raised);
        assert(sweep_targets_clean(f, raised, target, 0, (limit + 1) as u64));
        assert(sweep_node(f, start, target, limit) == raised);
    }
}

/// The node at the end of the `k`-th listener edge of node `from`.
pub open spec fn edge_end(g: Seq<NodeView>, from: int, k: int) -> int {
    g[from].listeners[k].node as int
}

/// Node `to` can be reached from node `from` along at most `steps`
/// listener edges.
pub open spec fn reaches_within(g: Seq<NodeView>, from: int, to: int, steps: nat) -> bool
    decreases steps,
{
    from == to || (steps > 0 && 0 <= from < g.len() && exists|k: int|
        0 <= k < g[from].listeners.len() && reaches_within(
            g,
            #[trigger] edge_end(g, from, k),
            to,
            (steps - 1) as nat,
        ))
}

/// Node `to` can be reached from node `from` along listener edges.
pub open spec fn reachable(g: Seq<NodeView>, from: int, to: int) -> bool {
    exists|steps: nat| reaches_within(g, from, to, steps)
}

/// A node with the id `id` can be reached from node `from`.
pub open spec fn id_reachable(g: Seq<NodeView>, from: int, id: u32) -> bool {
    exists|n: int| 0 <= n < g.len() && #[trigger] g[n].id == id && reachable(g, from, n)
}

/// No two nodes have the same id.
pub open spec fn ids_distinct(g: Seq<NodeView>) -> bool {
    forall|a: int, b: int|
        0 <= a < g.len() && 0 <= b < g.len() && (#[trigger] g[a]).id == (#[trigger] g[b]).id
            ==> a == b
}

/// What can be reached from the end of an edge can be reached from its
/// start.
pub proof fn lemma_reachable_over_edge(g: Seq<NodeView>, from: int, k: int, to: int)
    requires
        0 <= from < g.len(),
        0 <= k < g[from].listeners.len(),
        reachable(g, g[from].listeners[k].node as int, to),
    ensures
        reachable(g, from, to),
{
    let child = edge_end(g, from, k);
    let steps = choose|steps: nat| reaches_within(g, child, to, steps);
    let more: nat = steps + 1;
    assert((more - 1) as nat == steps);
    assert(reaches_within(g, edge_end(g, from, k), to, (more - 1) as nat));
    assert(reaches_within(g, from, to, more));
}

/// Reaching depends on the ids and the edges alone, not on the ranks.
pub proof fn lemma_reaches_in_frame(g: Seq<NodeView>, from: int, to: int, steps: nat)
    ensures
        reaches_within(frame(g), from, to, steps) == reaches_within(g, from, to, steps),
    decreases steps,
{
    let f = frame(g);
    assert(f.len() == g.len());
    if from != to && steps > 0 && 0 <= from < g.len() {
        let less = (steps - 1) as nat;
        assert(f[from].listeners == g[from].listeners);
        if reaches_within(f, from, to, steps) {
            let k = choose|k: int|
                0 <= k < f[from].listeners.len() && reaches_within(
                    f,
                    #[trigger] edge_end(f, from, k),
                    to,
                    less,
                );
            lemma_reaches_in_frame(g, edge_end(g, from, k), to, less);
            assert(edge_end(f, from, k) == edge_end(g, from, k));
            assert(reaches_within(g, edge_end(g, from, k), to, less));
            assert(reaches_within(g, from, to, steps));
        }
        if reaches_within(g, from, to, steps) {
            let k = choose|k: int|
                0 <= k < g[from].listeners.len() && reaches_within(
                    g,
                    #[trigger] edge_end(g, from, k),
                    to,
                    less,
                );
            lemma_reaches_in_frame(g, edge_end(g, from, k), to, less);
            assert(edge_end(f, from, k) == edge_end(g, from, k));
            assert(reaches_within(f, edge_end(f, from, k), to, less));
            assert(reaches_within(f, from, to, steps));
        }
    }
}

/// A sweep visits only what can be reached from where it starts: an id
/// that is visited afterwards was visited before, or is the id of a node
/// that can be reached from the node.
pub proof fn lemma_sweep_node_visits_reachable(g: Seq<NodeView>, s: Sweep, node: int, limit: u64)
    ensures
        forall|id: u32| #[trigger]
            sweep_node(g, s, node, limit).visited.contains(id) ==> s.visited.contains(id)
                || id_reachable(g, node, id),
    decreases unvisited(g, s.visited), 0nat, 0nat,
{
    if !s.ok || !(0 <= node < g.len()) || node >= s.ranks.len() || s.ranks[node] > limit
        || s.visited.contains(g[node].id) {
    } else if limit == u64::MAX {
    } else {
        lemma_unvisited_insert(g, s.visited, node, g.len() as int);
        let raised = Sweep {
            ranks: s.ranks.update(node, (limit + 1) as u64),
            visited: s.visited.insert(g[node].id),
            ok: true,
        };
        lemma_sweep_targets_visit_reachable(g, raised, node, 0, (limit + 1) as u64);
        let t = sweep_targets(g, raised, node, 0, (limit + 1) as u64);
        assert(reaches_within(g, node, node, 0));
        assert(reachable(g, node, node));
        assert(g[node].id == g[node].id && reachable(g, node, node));
        assert(id_reachable(g, node, g[node].id));
        assert forall|id: u32| #[trigger] t.visited.contains(id) implies s.visited.contains(id)
            || id_reachable(g, node, id) by {
            if raised.visited.contains(id) && !s.visited.contains(id) {
                assert(id == g[node].id);
            }
        }
    }
}

/// The sweep of the listeners of a node visits only what can be reached
/// from the node.
pub proof fn lemma_sweep_targets_visit_reachable(
    g: Seq<NodeView>,
    s: Sweep,
    node: int,
    k: int,
    limit: u64,
)
    ensures
        forall|id: u32| #[trigger]
            sweep_targets(g, s, node, k, limit).visited.contains(id) ==> s.visited.contains(id)
                || id_reachable(g, node, id),
    decreases unvisited(g, s.visited), 1nat, g[node].listeners.len() - k,
{
    if !s.ok || !(0 <= node < g.len()) || k < 0 || k >= g[node].listeners.len() {
    } else {
        let child = g[node].listeners[k].node as int;
        let below = sweep_node(g, s, child, limit);
        lemma_sweep_node_visits_reachable(g, s, child, limit);
        let next = Sweep { visited: below.visited.union(s.visited), ..below };
        lemma_unvisited_monotone(g, s.visited, next.visited, g.len() as int);
        lemma_sweep_targets_visit_reachable(g, next, node, k + 1, limit);
        let t = sweep_targets(g, next, node, k + 1, limit);
        assert forall|id: u32| #[trigger] t.visited.contains(id) implies s.visited.contains(id)
            || id_reachable(g, node, id) by {
            if !s.visited.contains(id) && !id_reachable(g, node, id) {
                assert(next.visited.contains(id));
                assert(below.visited.contains(id));
                assert(id_reachable(g, child, id));
                let n = choose|n: int|
                    0 <= n < g.len() && #[trigger] g[n].id == id && reachable(g, child, n);
                lemma_reachable_over_edge(g, node, k, n);
                assert(g[n].id == id && reachable(g, node, n));
            }
        }
    }
}

/// A link to a node from which the source cannot be reached leaves the
/// source at its rank and the target above it.
///
/// Let no two nodes have the same id, let the target be another node than
/// the source, and let the source not be reachable from the target along
/// listener edges. Then after the link the source has the rank it had, and
/// the target has the rank it had or the rank of the source plus one,
/// whichever is higher.
pub proof fn lemma_link_without_way_back(g: Seq<NodeView>, source: int, target: Target)
    requires
        ids_distinct(g),
        0 <= source < g.len(),
        target.node < g.len(),
        source != target.node,
        !reachable(g, target.node as int, source),
        link_sweep(g, source, target.node as int).ok,
    ensures
        !link_sweep(g, source, target.node as int).visited.contains(g[source].id),
        spec_link_to(g, source, target)[source].rank == g[source].rank,
        spec_link_to(g, source, target)[target.node as int].rank == linked_rank(
            g[target.node as int].rank,
            g[source].rank,
        ),
        spec_link_to(g, source, target)[target.node as int].rank > spec_link_to(
            g,
            source,
            target,
        )[source].rank,
{
    let f = frame(g);
    let start = sweep_start(g, Set::empty());
    let limit = g[source].rank;
    let t = target.node as int;
    let swept = link_sweep(g, source, t);
    assert(f.len() == g.len());
    lemma_link_raises_target(g, source, target);
    lemma_sweep_node_visits_reachable(f, start, t, limit);
    lemma_sweep_node_changes_visited_only(f, start, t, limit);
    lemma_sweep_node_raises(f, start, t, limit);
    assert(f[source].id == g[source].id);
    if swept.visited.contains(g[source].id) {
        assert(id_reachable(f, t, g[source].id));
        let n = choose|n: int|
            0 <= n < f.len() && #[trigger] f[n].id == g[source].id && reachable(f, t, n);
        assert(f[n].id == g[n].id);
        assert(n == source);
        let steps = choose|steps: nat| reaches_within(f, t, source, steps);
        lemma_reaches_in_frame(g, t, source, steps);
        assert(reaches_within(g, t, source, steps));
    }
    assert(start.ranks[source] == g[source].rank);
    assert(swept.ranks[source] == start.ranks[source]);
}

} // verus!
