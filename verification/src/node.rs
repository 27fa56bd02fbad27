//! The node graph: nodes, the listener edges between them, and the ranks
//! that order propagation.
//!
//! All nodes of a reactive world live in one arena, a [`NodeGraph`], and an
//! edge names its downstream node by its index there.

use vstd::prelude::*;
use std::collections::HashSet;
use crate::handler::TransactionHandler;
use crate::ident::IdSource;

verus! {

broadcast use vstd::std_specs::hash::group_hash_axioms;

/// One directed edge, from the node that lists it to `node`.
#[derive(Clone, Copy)]
pub struct Target {
    /// Unique among all ids of the world; `unlink_to` finds the edge by it.
    pub id: u32,
    /// Index of the downstream node.
    pub node: usize,
    /// What happens when the upstream node fires.
    pub action: TransactionHandler,
}

/// A position in the dependency graph.
pub struct Node {
    pub id: u32,
    pub rank: u64,
    pub listeners: Vec<Target>,
}

/// The mathematical value of a [`Node`].
pub struct NodeView {
    pub id: u32,
    pub rank: u64,
    pub listeners: Seq<Target>,
}

impl View for Node {
    type V = NodeView;

    open spec fn view(&self) -> NodeView {
        NodeView { id: self.id, rank: self.rank, listeners: self.listeners@ }
    }
}

impl Node {
    /// A node without listeners, with a fresh id.
    pub fn new(ids: &mut IdSource, rank: u64) -> (node: Node)
        requires
            old(ids).next_id() < u32::MAX,
        ensures
            node@ == (NodeView { id: old(ids).next_id(), rank, listeners: Seq::empty() }),
            final(ids).next_id() == old(ids).next_id() + 1,
    {
        Node { id: ids.new_id(), rank, listeners: Vec::new() }
    }
}

impl Target {
    /// An edge to `node` with a fresh id.
    pub fn new(ids: &mut IdSource, node: usize, action: TransactionHandler) -> (target: Target)
        requires
            old(ids).next_id() < u32::MAX,
        ensures
            target == (Target { id: old(ids).next_id(), node, action }),
            final(ids).next_id() == old(ids).next_id() + 1,
    {
        Target { id: ids.new_id(), node, action }
    }
}

/// Every edge of `g` ends at a node of `g`.
pub open spec fn targets_in_range(g: Seq<NodeView>) -> bool {
    forall|n: int, k: int|
        0 <= n < g.len() && 0 <= k < g[n].listeners.len() ==> (#[trigger] g[n].listeners[k]).node
            < g.len()
}

/// Along every edge the rank grows strictly.
pub open spec fn ranks_increase(g: Seq<NodeView>) -> bool {
    forall|n: int, k: int|
        0 <= n < g.len() && 0 <= k < g[n].listeners.len() ==> g[(
        #[trigger] g[n].listeners[k]).node as int].rank > g[n].rank
}

/// The ranks of `g`, node by node.
pub open spec fn ranks_of(g: Seq<NodeView>) -> Seq<u64> {
    Seq::new(g.len(), |i: int| g[i].rank)
}

/// `g` with the rank of node `i` replaced by `ranks[i]`.
pub open spec fn with_ranks(g: Seq<NodeView>, ranks: Seq<u64>) -> Seq<NodeView> {
    Seq::new(g.len(), |i: int| NodeView { rank: ranks[i], ..g[i] })
}

/// `g` with every rank erased: the ids and the edges alone.
pub open spec fn frame(g: Seq<NodeView>) -> Seq<NodeView> {
    Seq::new(g.len(), |i: int| NodeView { rank: 0, ..g[i] })
}

/// How many of the first `n` nodes of `g` have an id outside `visited`.
pub open spec fn unvisited_upto(g: Seq<NodeView>, visited: Set<u32>, n: int) -> nat
    decreases n,
{
    if n <= 0 {
        0
    } else {
        unvisited_upto(g, visited, n - 1) + if visited.contains(g[n - 1].id) {
            0nat
        } else {
            1nat
        }
    }
}

/// How many nodes of `g` have an id outside `visited`.
pub open spec fn unvisited(g: Seq<NodeView>, visited: Set<u32>) -> nat {
    unvisited_upto(g, visited, g.len() as int)
}

/// There are no more unvisited nodes than nodes.
pub proof fn lemma_unvisited_bound(g: Seq<NodeView>, a: Set<u32>, n: int)
    requires
        0 <= n,
    ensures
        unvisited_upto(g, a, n) <= n,
    decreases n,
{
    if n > 0 {
        lemma_unvisited_bound(g, a, n - 1);
    }
}

/// The more ids are visited, the fewer nodes are unvisited.
pub proof fn lemma_unvisited_monotone(g: Seq<NodeView>, a: Set<u32>, b: Set<u32>, n: int)
    requires
        a.subset_of(b),
    ensures
        unvisited_upto(g, b, n) <= unvisited_upto(g, a, n),
    decreases n,
{
    if n > 0 {
        lemma_unvisited_monotone(g, a, b, n - 1);
    }
}

/// Visiting an unvisited node leaves fewer nodes unvisited.
pub proof fn lemma_unvisited_insert(g: Seq<NodeView>, a: Set<u32>, i: int, n: int)
    requires
        0 <= i < n <= g.len(),
        !a.contains(g[i].id),
    ensures
        unvisited_upto(g, a.insert(g[i].id), n) < unvisited_upto(g, a, n),
    decreases n,
{
    if i == n - 1 {
        lemma_unvisited_monotone(g, a, a.insert(g[i].id), n - 1);
    } else {
        lemma_unvisited_insert(g, a, i, n - 1);
    }
}

/// How many nodes are unvisited depends on the ids alone.
pub proof fn lemma_unvisited_frame(g: Seq<NodeView>, h: Seq<NodeView>, a: Set<u32>, n: int)
    requires
        frame(g) == frame(h),
        n <= g.len(),
    ensures
        unvisited_upto(g, a, n) == unvisited_upto(h, a, n),
    decreases n,
{
    if n > 0 {
        assert(frame(g).len() == g.len() && frame(h).len() == h.len());
        lemma_unvisited_frame(g, h, a, n - 1);
        assert(frame(g)[n - 1].id == g[n - 1].id);
        assert(frame(h)[n - 1].id == h[n - 1].id);
    }
}

/// The state of one rank sweep: the ranks so far, the ids of the nodes that
/// were raised, and whether every raised rank fitted in 64 bits.
pub struct Sweep {
    pub ranks: Seq<u64>,
    pub visited: Set<u32>,
    pub ok: bool,
}

/// The sweep that `ensure_bigger_than` makes from `node`.
///
/// A node whose rank is above `limit`, or whose id is in `visited`, is left
/// alone. Any other node gets the rank `limit + 1`, joins `visited`, and
/// each of its listeners is swept in turn with the new rank as the limit.
/// `g` gives the ids and the edges; the ranks are read from `s`.
pub open spec fn sweep_node(g: Seq<NodeView>, s: Sweep, node: int, limit: u64) -> Sweep
    decreases unvisited(g, s.visited), 0nat, 0nat,
{
    if !s.ok || !(0 <= node < g.len()) || node >= s.ranks.len() || s.ranks[node] > limit
        || s.visited.contains(g[node].id) {
        s
    } else if limit == u64::MAX {
        Sweep { ok: false, ..s }
    } else {
        let raised = Sweep {
            ranks: s.ranks.update(node, (limit + 1) as u64),
            visited: s.visited.insert(g[node].id),
            ok: true,
        };
        proof {
            lemma_unvisited_insert(g, s.visited, node, g.len() as int);
        }
        sweep_targets(g, raised, node, 0, (limit + 1) as u64)
    }
}

/// The sweep of the listeners of `node` from the `k`-th on, each with
/// `limit`.
pub open spec fn sweep_targets(g: Seq<NodeView>, s: Sweep, node: int, k: int, limit: u64) -> Sweep
    decreases unvisited(g, s.visited), 1nat, g[node].listeners.len() - k,
{
    if !s.ok || !(0 <= node < g.len()) || k < 0 || k >= g[node].listeners.len() {
        s
    } else {
        let below = sweep_node(g, s, g[node].listeners[k].node as int, limit);
        let next = Sweep { visited: below.visited.union(s.visited), ..below };
        proof {
            lemma_unvisited_monotone(g, s.visited, next.visited, g.len() as int);
        }
        sweep_targets(g, next, node, k + 1, limit)
    }
}

/// The sweep state before anything was raised.
pub open spec fn sweep_start(g: Seq<NodeView>, visited: Set<u32>) -> Sweep {
    Sweep { ranks: ranks_of(g), visited, ok: true }
}

/// Graphs with the same ids and edges have their edges in range together.
pub proof fn lemma_frame_keeps_range(g: Seq<NodeView>, h: Seq<NodeView>)
    requires
        frame(g) == frame(h),
        targets_in_range(g),
    ensures
        targets_in_range(h),
        h.len() == g.len(),
{
    assert(frame(g).len() == g.len() && frame(h).len() == h.len());
    assert forall|n: int, k: int|
        0 <= n < h.len() && 0 <= k < h[n].listeners.len() implies (#[trigger] h[n].listeners[k]).node
        < h.len() by {
        assert(frame(g)[n].listeners == g[n].listeners);
        assert(frame(h)[n].listeners == h[n].listeners);
        assert(g[n].listeners[k].node < g.len());
    }
}

/// A graph is given by its ids and edges together with its ranks.
pub proof fn lemma_frame_and_ranks(g: Seq<NodeView>, h: Seq<NodeView>)
    requires
        frame(g) == frame(h),
    ensures
        h == with_ranks(g, ranks_of(h)),
{
    assert(frame(g).len() == g.len() && frame(h).len() == h.len());
    assert forall|i: int| 0 <= i < h.len() implies h[i] == with_ranks(g, ranks_of(h))[i] by {
        assert(frame(g)[i].id == g[i].id && frame(g)[i].listeners == g[i].listeners);
        assert(frame(h)[i].id == h[i].id && frame(h)[i].listeners == h[i].listeners);
    }
    assert(h =~= with_ranks(g, ranks_of(h)));
}

/// `g` with the edge `target` added at the end of the listeners of `source`.
pub open spec fn with_listener(g: Seq<NodeView>, source: int, target: Target) -> Seq<NodeView> {
    g.update(source, NodeView { listeners: g[source].listeners.push(target), ..g[source] })
}

/// `g` without the edges of `source` that carry the id `id`.
pub open spec fn without_listener(g: Seq<NodeView>, source: int, id: u32) -> Seq<NodeView> {
    g.update(
        source,
        NodeView { listeners: g[source].listeners.filter(|t: Target| t.id != id), ..g[source] },
    )
}

/// The sweep that `link_to` makes before it adds the edge from `source` to
/// `target`: from `target`, with the rank of `source` as the limit and
/// nothing visited.
pub open spec fn link_sweep(g: Seq<NodeView>, source: int, target: int) -> Sweep {
    sweep_node(frame(g), sweep_start(g, Set::empty()), target, g[source].rank)
}

/// The graph after `link_to`: the ranks that the sweep leaves, and the new
/// edge last among the listeners of `source`.
pub open spec fn spec_link_to(g: Seq<NodeView>, source: int, target: Target) -> Seq<NodeView> {
    with_listener(
        with_ranks(g, link_sweep(g, source, target.node as int).ranks),
        source,
        target,
    )
}

/// A sweep has room when its limit is further from the top of the rank
/// space than there are nodes left to visit.
pub proof fn lemma_sweep_node_has_room(g: Seq<NodeView>, s: Sweep, node: int, limit: u64)
    requires
        s.ok,
        limit + unvisited(g, s.visited) < u64::MAX,
    ensures
        sweep_node(g, s, node, limit).ok,
    decreases unvisited(g, s.visited), 0nat, 0nat,
{
    if !(0 <= node < g.len()) || node >= s.ranks.len() || s.ranks[node] > limit
        || s.visited.contains(g[node].id) {
    } else {
        lemma_unvisited_insert(g, s.visited, node, g.len() as int);
        let raised = Sweep {
            ranks: s.ranks.update(node, (limit + 1) as u64),
            visited: s.visited.insert(g[node].id),
            ok: true,
        };
        lemma_sweep_targets_have_room(g, raised, node, 0, (limit + 1) as u64);
    }
}

/// The sweep of the listeners of a node has room when its limit has.
pub proof fn lemma_sweep_targets_have_room(
    g: Seq<NodeView>,
    s: Sweep,
    node: int,
    k: int,
    limit: u64,
)
    requires
        s.ok,
        limit + unvisited(g, s.visited) < u64::MAX,
    ensures
        sweep_targets(g, s, node, k, limit).ok,
    decreases unvisited(g, s.visited), 1nat, g[node].listeners.len() - k,
{
    if !(0 <= node < g.len()) || k < 0 || k >= g[node].listeners.len() {
    } else {
        let below = sweep_node(g, s, g[node].listeners[k].node as int, limit);
        lemma_sweep_node_has_room(g, s, g[node].listeners[k].node as int, limit);
        let next = Sweep { visited: below.visited.union(s.visited), ..below };
        lemma_unvisited_monotone(g, s.visited, next.visited, g.len() as int);
        lemma_sweep_targets_have_room(g, next, node, k + 1, limit);
    }
}

/// Ranks only grow: a sweep lowers no rank, and where it has room it
/// raises none beyond its limit plus the number of nodes left to visit.
pub proof fn lemma_sweep_node_raises(g: Seq<NodeView>, s: Sweep, node: int, limit: u64)
    ensures
        sweep_node(g, s, node, limit).ranks.len() == s.ranks.len(),
        forall|i: int|
            0 <= i < s.ranks.len() ==> (#[trigger] sweep_node(g, s, node, limit).ranks[i])
                >= s.ranks[i],
        limit + unvisited(g, s.visited) < u64::MAX ==> forall|i: int|
            0 <= i < s.ranks.len() ==> (#[trigger] sweep_node(g, s, node, limit).ranks[i])
                == s.ranks[i] || sweep_node(g, s, node, limit).ranks[i] <= limit + unvisited(
                g,
                s.visited,
            ),
    decreases unvisited(g, s.visited), 0nat, 0nat,
{
    if !s.ok || !(0 <= node < g.len()) || node >= s.ranks.len() || s.ranks[node] > limit
        || s.visited.contains(g[node].id) {
    } else if limit == u64::MAX {
    } else {
        lemma_unvisited_insert(g, s.visited, node, g.len() as int);
        let raised = Sweep {
            ranks: s.ranks.update(node, (limit + 1) as u64),
            visited: s.visited.insert(g[node].id),
            ok: true,
        };
        lemma_sweep_targets_raise(g, raised, node, 0, (limit + 1) as u64);
        let t = sweep_targets(g, raised, node, 0, (limit + 1) as u64);
        assert forall|i: int| 0 <= i < s.ranks.len() implies (#[trigger] t.ranks[i])
            >= s.ranks[i] by {
            assert(raised.ranks[i] >= s.ranks[i]);
        }
        if limit + unvisited(g, s.visited) < u64::MAX {
            assert forall|i: int| 0 <= i < s.ranks.len() implies (#[trigger] t.ranks[i])
                == s.ranks[i] || t.ranks[i] <= limit + unvisited(g, s.visited) by {
                assert(t.ranks[i] == raised.ranks[i] || t.ranks[i] <= limit + 1 + unvisited(
                    g,
                    raised.visited,
                ));
            }
        }
    }
}

/// The sweep of the listeners of a node lowers no rank either.
pub proof fn lemma_sweep_targets_raise(g: Seq<NodeView>, s: Sweep, node: int, k: int, limit: u64)
    ensures
        sweep_targets(g, s, node, k, limit).ranks.len() == s.ranks.len(),
        forall|i: int|
            0 <= i < s.ranks.len() ==> (#[trigger] sweep_targets(g, s, node, k, limit).ranks[i])
                >= s.ranks[i],
        limit + unvisited(g, s.visited) < u64::MAX ==> forall|i: int|
            0 <= i < s.ranks.len() ==> (#[trigger] sweep_targets(g, s, node, k, limit).ranks[i])
                == s.ranks[i] || sweep_targets(g, s, node, k, limit).ranks[i] <= limit
                + unvisited(g, s.visited),
    decreases unvisited(g, s.visited), 1nat, g[node].listeners.len() - k,
{
    if !s.ok || !(0 <= node < g.len()) || k < 0 || k >= g[node].listeners.len() {
    } else {
        let child = g[node].listeners[k].node as int;
        let below = sweep_node(g, s, child, limit);
        lemma_sweep_node_raises(g, s, child, limit);
        let next = Sweep { visited: below.visited.union(s.visited), ..below };
        lemma_unvisited_monotone(g, s.visited, next.visited, g.len() as int);
        lemma_sweep_targets_raise(g, next, node, k + 1, limit);
        let t = sweep_targets(g, next, node, k + 1, limit);
        assert forall|i: int| 0 <= i < s.ranks.len() implies (#[trigger] t.ranks[i])
            >= s.ranks[i] by {
            assert(below.ranks[i] >= s.ranks[i]);
        }
        if limit + unvisited(g, s.visited) < u64::MAX {
            assert forall|i: int| 0 <= i < s.ranks.len() implies (#[trigger] t.ranks[i])
                == s.ranks[i] || t.ranks[i] <= limit + unvisited(g, s.visited) by {
                assert(below.ranks[i] == s.ranks[i] || below.ranks[i] <= limit + unvisited(
                    g,
                    s.visited,
                ));
                assert(t.ranks[i] == next.ranks[i] || t.ranks[i] <= limit + unvisited(
                    g,
                    next.visited,
                ));
            }
        }
    }
}

/// A sweep changes the rank of a node only when it visits it: a node
/// whose id was visited before keeps its rank, and so does one whose id is
/// not visited afterwards. What was visited stays visited.
pub proof fn lemma_sweep_node_changes_visited_only(
    g: Seq<NodeView>,
    s: Sweep,
    node: int,
    limit: u64,
)
    ensures
        s.visited.subset_of(sweep_node(g, s, node, limit).visited),
        forall|n: int|
            0 <= n < g.len() && n < s.ranks.len() && s.visited.contains(#[trigger] g[n].id) ==> sweep_node(
                g,
                s,
                node,
                limit,
            ).ranks[n] == s.ranks[n],
        forall|n: int|
            0 <= n < g.len() && n < s.ranks.len() && !sweep_node(g, s, node, limit).visited.contains(
                #[trigger] g[n].id,
            ) ==> sweep_node(g, s, node, limit).ranks[n] == s.ranks[n],
    decreases unvisited(g, s.visited), 0nat, 0nat,
{
    if !s.ok || !(0 <= node < g.len()) || node >= s.ranks.len() || s.ranks[node] > limit
        || s.visited.contains(g[node].id) {
    } else if limit == u64::MAX {
    } else {
        lemma_unvisited_insert(g, s.visited, node, g.len() as int);
        let raised = Sweep {
            ranks: s.ranks.update(node, (limit + 1) as u64),
            visited: s.visited.insert(g[node].id),
            ok: true,
        };
        lemma_sweep_targets_change_visited_only(g, raised, node, 0, (limit + 1) as u64);
        let t = sweep_targets(g, raised, node, 0, (limit + 1) as u64);
        assert forall|n: int| 0 <= n < g.len() && n < s.ranks.len() && s.visited.contains(
            #[trigger] g[n].id,
        ) implies t.ranks[n] == s.ranks[n] by {
            assert(raised.visited.contains(g[n].id));
        }
        assert forall|n: int| 0 <= n < g.len() && n < s.ranks.len() && !t.visited.contains(
            #[trigger] g[n].id,
        ) implies t.ranks[n] == s.ranks[n] by {
            assert(raised.visited.contains(g[node].id));
        }
    }
}

/// The sweep of the listeners of a node changes the rank of a node only
/// when it visits it.
pub proof fn lemma_sweep_targets_change_visited_only(
    g: Seq<NodeView>,
    s: Sweep,
    node: int,
    k: int,
    limit: u64,
)
    ensures
        s.visited.subset_of(sweep_targets(g, s, node, k, limit).visited),
        forall|n: int|
            0 <= n < g.len() && n < s.ranks.len() && s.visited.contains(#[trigger] g[n].id) ==> sweep_targets(
                g,
                s,
                node,
                k,
                limit,
            ).ranks[n] == s.ranks[n],
        forall|n: int|
            0 <= n < g.len() && n < s.ranks.len() && !sweep_targets(g, s, node, k, limit).visited.contains(
                #[trigger] g[n].id,
            ) ==> sweep_targets(g, s, node, k, limit).ranks[n] == s.ranks[n],
    decreases unvisited(g, s.visited), 1nat, g[node].listeners.len() - k,
{
    if !s.ok || !(0 <= node < g.len()) || k < 0 || k >= g[node].listeners.len() {
    } else {
        let child = g[node].listeners[k].node as int;
        let below = sweep_node(g, s, child, limit);
        lemma_sweep_node_changes_visited_only(g, s, child, limit);
        lemma_sweep_node_raises(g, s, child, limit);
        let next = Sweep { visited: below.visited.union(s.visited), ..below };
        assert(next.visited =~= below.visited);
        lemma_unvisited_monotone(g, s.visited, next.visited, g.len() as int);
        lemma_sweep_targets_change_visited_only(g, next, node, k + 1, limit);
        let t = sweep_targets(g, next, node, k + 1, limit);
        assert forall|n: int| 0 <= n < g.len() && n < s.ranks.len() && s.visited.contains(
            #[trigger] g[n].id,
        ) implies t.ranks[n] == s.ranks[n] by {
            assert(next.visited.contains(g[n].id));
        }
        assert forall|n: int| 0 <= n < g.len() && n < s.ranks.len() && !t.visited.contains(
            #[trigger] g[n].id,
        ) implies t.ranks[n] == s.ranks[n] by {
            assert(!next.visited.contains(g[n].id));
        }
    }
}

/// The rank that a link gives its target: the rank it had, or the rank of
/// the source plus one if that is higher.
pub open spec fn linked_rank(target_rank: u64, source_rank: u64) -> int {
    if target_rank > source_rank {
        target_rank as int
    } else {
        source_rank + 1
    }
}

/// A link leaves its target above the rank that the source had: at the
/// rank it had, or one above that of the source if that is higher.
pub proof fn lemma_link_raises_target(g: Seq<NodeView>, source: int, target: Target)
    requires
        0 <= source < g.len(),
        target.node < g.len(),
        source != target.node,
        link_sweep(g, source, target.node as int).ok,
    ensures
        spec_link_to(g, source, target)[target.node as int].rank == linked_rank(
            g[target.node as int].rank,
            g[source].rank,
        ),
        spec_link_to(g, source, target)[target.node as int].rank > g[source].rank,
{
    let f = frame(g);
    let start = sweep_start(g, Set::empty());
    let limit = g[source].rank;
    let t = target.node as int;
    assert(f.len() == g.len());
    assert(start.ranks[t] == g[t].rank);
    assert(f[t].id == g[t].id);
    if start.ranks[t] <= limit {
        let raised = Sweep {
            ranks: start.ranks.update(t, (limit + 1) as u64),
            visited: start.visited.insert(f[t].id),
            ok: true,
        };
        lemma_sweep_targets_change_visited_only(f, raised, t, 0, (limit + 1) as u64);
        assert(raised.visited.contains(f[t].id));
    }
}

/// The arena that holds every node of one reactive world.
pub struct NodeGraph {
    pub nodes: Vec<Node>,
}

impl View for NodeGraph {
    type V = Seq<NodeView>;

    open spec fn view(&self) -> Seq<NodeView> {
        Seq::new(self.nodes@.len(), |i: int| self.nodes@[i]@)
    }
}

impl NodeGraph {
    /// Every edge ends at a node of the arena.
    pub open spec fn wf(&self) -> bool {
        targets_in_range(self@)
    }

    /// An arena without nodes.
    pub fn new() -> (g: NodeGraph)
        ensures
            g@ == Seq::<NodeView>::empty(),
            g.wf(),
    {
        let g = NodeGraph { nodes: Vec::new() };
        assert(g@ =~= Seq::<NodeView>::empty());
        g
    }

    /// The number of nodes.
    pub fn len(&self) -> (n: usize)
        ensures
            n == self@.len(),
    {
        self.nodes.len()
    }

    /// The rank of node `node`.
    pub fn rank(&self, node: usize) -> (rank: u64)
        requires
            node < self@.len(),
        ensures
            rank == self@[node as int].rank,
    {
        self.nodes[node].rank
    }

    /// Adds a node without listeners, with a fresh id, and returns its index.
    pub fn add(&mut self, ids: &mut IdSource, rank: u64) -> (index: usize)
        requires
            old(ids).next_id() < u32::MAX,
            old(self).wf(),
        ensures
            index == old(self)@.len(),
            final(self)@ == old(self)@.push(
                NodeView { id: old(ids).next_id(), rank, listeners: Seq::empty() },
            ),
            final(ids).next_id() == old(ids).next_id() + 1,
            final(self).wf(),
    {
        let index: usize = self.nodes.len();
        let node = Node::new(ids, rank);
        self.nodes.push(node);
        assert(self@ =~= old(self)@.push(
            NodeView { id: old(ids).next_id(), rank, listeners: Seq::empty() },
        ));
        index
    }

    /// The ranks, node by node.
    pub fn ranks(&self) -> (ranks: Vec<u64>)
        ensures
            ranks@ == ranks_of(self@),
    {
        let n: usize = self.nodes.len();
        let mut ranks: Vec<u64> = Vec::new();
        let mut i: usize = 0;
        while i < n
            invariant
                0 <= i <= n,
                n == self@.len(),
                ranks@ == ranks_of(self@).take(i as int),
            decreases n - i,
        {
            ranks.push(self.nodes[i].rank);
            assert(ranks@ =~= ranks_of(self@).take(i + 1));
            i = i + 1;
        }
        assert(ranks_of(self@).take(n as int) =~= ranks_of(self@));
        ranks
    }

    /// Gives node `i` the rank `ranks[i]`, for every node.
    pub fn set_ranks(&mut self, ranks: &Vec<u64>)
        requires
            old(self).wf(),
            ranks@.len() == old(self)@.len(),
        ensures
            final(self).wf(),
            final(self)@ == with_ranks(old(self)@, ranks@),
    {
        let n: usize = self.nodes.len();
        let mut i: usize = 0;
        let ghost before = self@;
        while i < n
            invariant
                0 <= i <= n,
                n == before.len(),
                ranks@.len() == n,
                self@.len() == n,
                frame(self@) == frame(before),
                forall|j: int| 0 <= j < i ==> (#[trigger] self@[j]).rank == ranks@[j],
            decreases n - i,
        {
            let ghost prev = self@;
            self.nodes[i].rank = ranks[i];
            assert(frame(self@) =~= frame(prev));
            assert forall|j: int| 0 <= j < i + 1 implies (#[trigger] self@[j]).rank == ranks@[j] by {
                if j < i {
                    assert(self@[j] == prev[j]);
                }
            }
            i = i + 1;
        }
        proof {
            lemma_frame_and_ranks(before, self@);
            lemma_frame_keeps_range(before, self@);
            assert(ranks_of(self@) =~= ranks@);
        }
    }

    /// Whether the rank grows along every edge.
    pub fn ranks_increase(&self) -> (grows: bool)
        requires
            self.wf(),
        ensures
            grows == ranks_increase(self@),
    {
        let n: usize = self.nodes.len();
        let mut i: usize = 0;
        while i < n
            invariant
                0 <= i <= n,
                n == self@.len(),
                self.wf(),
                forall|a: int, k: int|
                    0 <= a < i && 0 <= k < self@[a].listeners.len() ==> self@[(
                    #[trigger] self@[a].listeners[k]).node as int].rank > self@[a].rank,
            decreases n - i,
        {
            let m: usize = self.nodes[i].listeners.len();
            let mut k: usize = 0;
            while k < m
                invariant
                    0 <= k <= m,
                    i < n,
                    n == self@.len(),
                    m == self@[i as int].listeners.len(),
                    self.wf(),
                    forall|j: int|
                        0 <= j < k ==> self@[(#[trigger] self@[i as int].listeners[j]).node as int].rank
                            > self@[i as int].rank,
                decreases m - k,
            {
                let to: usize = self.nodes[i].listeners[k].node;
                assert(to == self@[i as int].listeners[k as int].node);
                assert(to < n);
                if self.nodes[to].rank <= self.nodes[i].rank {
                    return false;
                }
                k = k + 1;
            }
            i = i + 1;
        }
        true
    }

    /// Makes sure that the rank of `node` is above `limit`, and that the
    /// ranks downstream of it follow.
    ///
    /// Returns `false`, and changes nothing, if the rank is already above
    /// `limit` or the id of `node` is in `visited`. Otherwise the node gets
    /// the rank `limit + 1`, its id joins `visited`, each of its listeners is
    /// treated likewise with the new rank as the limit, and the result is
    /// `true`. Ranks only grow. The ranks that are assigned must fit in 64
    /// bits.
    pub fn ensure_bigger_than(&mut self, node: usize, limit: u64, visited: &mut HashSet<u32>) -> (changed: bool)
        requires
            old(self).wf(),
            node < old(self)@.len(),
            sweep_node(
                frame(old(self)@),
                sweep_start(old(self)@, old(visited)@),
                node as int,
                limit,
            ).ok,
        ensures
            final(self).wf(),
            frame(final(self)@) == frame(old(self)@),
            ({
                let s = sweep_node(
                    frame(old(self)@),
                    sweep_start(old(self)@, old(visited)@),
                    node as int,
                    limit,
                );
                &&& ranks_of(final(self)@) == s.ranks
                &&& final(visited)@ == s.visited
                &&& final(self)@ == with_ranks(old(self)@, s.ranks)
            }),
            old(visited)@.subset_of(final(visited)@),
            changed == (old(self)@[node as int].rank <= limit && !old(visited)@.contains(
                old(self)@[node as int].id,
            )),
            forall|i: int|
                0 <= i < old(self)@.len() ==> (#[trigger] final(self)@[i]).rank >= old(
                    self,
                )@[i].rank,
        decreases unvisited(old(self)@, old(visited)@),
    {
        let ghost g0 = self@;
        proof {
            lemma_sweep_node_raises(frame(g0), sweep_start(g0, visited@), node as int, limit);
            assert(frame(g0).len() == g0.len());
        }
        let ghost f0 = frame(g0);
        let ghost v0 = visited@;
        let id: u32 = self.nodes[node].id;
        assert(f0[node as int].id == id);
        assert(ranks_of(g0)[node as int] == g0[node as int].rank);
        if self.nodes[node].rank > limit || visited.contains(&id) {
            proof {
                lemma_frame_and_ranks(g0, g0);
            }
            return false;
        }
        visited.insert(id);
        self.nodes[node].rank = limit + 1;
        let ghost top = (limit + 1) as u64;
        let ghost raised = Sweep {
            ranks: ranks_of(g0).update(node as int, top),
            visited: v0.insert(id),
            ok: true,
        };
        assert(ranks_of(self@) =~= raised.ranks);
        assert(frame(self@) =~= f0);
        let n: usize = self.nodes[node].listeners.len();
        assert(n == f0[node as int].listeners.len());
        let mut k: usize = 0;
        proof {
            lemma_frame_keeps_range(g0, self@);
            lemma_unvisited_insert(g0, v0, node as int, g0.len() as int);
        }
        while k < n
            invariant
                0 <= k <= n,
                n == f0[node as int].listeners.len(),
                node < g0.len(),
                g0 == old(self)@,
                v0 == old(visited)@,
                f0 == frame(g0),
                targets_in_range(g0),
                self.wf(),
                frame(self@) == f0,
                raised.visited.subset_of(visited@),
                unvisited(g0, raised.visited) < unvisited(g0, v0),
                sweep_targets(
                    f0,
                    Sweep { ranks: ranks_of(self@), visited: visited@, ok: true },
                    node as int,
                    k as int,
                    top,
                ) == sweep_targets(f0, raised, node as int, 0, top),
                sweep_targets(f0, raised, node as int, 0, top).ok,
                top == limit + 1,
            decreases n - k,
        {
            let ghost cur = Sweep { ranks: ranks_of(self@), visited: visited@, ok: true };
            let ghost before = self@;
            let child: usize = self.nodes[node].listeners[k].node;
            proof {
                lemma_frame_keeps_range(g0, self@);
                assert(f0[node as int].listeners == self@[node as int].listeners);
                assert(frame(self@)[node as int].listeners == self@[node as int].listeners);
                assert(child == f0[node as int].listeners[k as int].node);
                assert(child < self@.len());
                lemma_unvisited_frame(self@, g0, visited@, g0.len() as int);
                lemma_unvisited_monotone(g0, raised.visited, visited@, g0.len() as int);
            }
            let ghost below = sweep_node(f0, cur, child as int, top);
            assert(below.ok) by {
                let next = Sweep { visited: below.visited.union(cur.visited), ..below };
                assert(sweep_targets(f0, cur, node as int, k as int, top) == sweep_targets(
                    f0,
                    next,
                    node as int,
                    k + 1,
                    top,
                ));
            }
            self.ensure_bigger_than(child, limit + 1, visited);
            proof {
                assert(below.visited.union(cur.visited) =~= below.visited);
                lemma_frame_keeps_range(g0, self@);
            }
            k = k + 1;
        }
        proof {
            lemma_frame_and_ranks(g0, self@);
            lemma_frame_keeps_range(g0, self@);
        }
        true
    }

    /// Adds an edge from `source` to `target`, after making sure that the
    /// rank of `target` is above that of `source`.
    ///
    /// Returns the new edge, which has a fresh id, and whether the rank of
    /// `target` had to be raised. A node cannot listen to itself.
    pub fn link_to(
        &mut self,
        ids: &mut IdSource,
        source: usize,
        target: usize,
        action: TransactionHandler,
    ) -> (linked: (Target, bool))
        requires
            old(self).wf(),
            source < old(self)@.len(),
            target < old(self)@.len(),
            source != target,
            old(ids).next_id() < u32::MAX,
            link_sweep(old(self)@, source as int, target as int).ok,
        ensures
            final(self).wf(),
            linked.0 == (Target { id: old(ids).next_id(), node: target, action }),
            linked.1 == (old(self)@[target as int].rank <= old(self)@[source as int].rank),
            final(self)@ == spec_link_to(old(self)@, source as int, linked.0),
            final(ids).next_id() == old(ids).next_id() + 1,
            final(self)@.len() == old(self)@.len(),
            forall|i: int|
                0 <= i < old(self)@.len() ==> (#[trigger] final(self)@[i]).rank >= old(
                    self,
                )@[i].rank,
            final(self)@[target as int].rank == linked_rank(
                old(self)@[target as int].rank,
                old(self)@[source as int].rank,
            ),
            final(self)@[target as int].rank > old(self)@[source as int].rank,
    {
        proof {
            lemma_link_raises_target(
                old(self)@,
                source as int,
                Target { id: old(ids).next_id(), node: target, action },
            );
        }
        let limit: u64 = self.nodes[source].rank;
        let mut visited: HashSet<u32> = HashSet::new();
        let changed: bool = self.ensure_bigger_than(target, limit, &mut visited);
        let t = Target::new(ids, target, action);
        let ghost swept = self@;
        self.nodes[source].listeners.push(t);
        proof {
            assert(self@ =~= with_listener(swept, source as int, t));
            assert forall|n: int, k: int|
                0 <= n < self@.len() && 0 <= k < self@[n].listeners.len() implies (
            #[trigger] self@[n].listeners[k]).node < self@.len() by {
                if n == source && k == swept[n].listeners.len() {
                } else {
                    assert(self@[n].listeners[k] == swept[n].listeners[k]);
                }
            }
        }
        (t, changed)
    }

    /// Removes from the listeners of `source` every edge with the id of
    /// `target`. Ranks stay as they are.
    pub fn unlink_to(&mut self, source: usize, target: Target)
        requires
            old(self).wf(),
            source < old(self)@.len(),
        ensures
            final(self).wf(),
            final(self)@ == without_listener(old(self)@, source as int, target.id),
    {
        let ghost before = self@;
        let ghost all = before[source as int].listeners;
        let ghost keep = |t: Target| t.id != target.id;
        let n: usize = self.nodes[source].listeners.len();
        let mut kept: Vec<Target> = Vec::new();
        let mut k: usize = 0;
        proof {
            reveal(Seq::filter);
            assert(all.take(0) =~= Seq::<Target>::empty());
        }
        while k < n
            invariant
                0 <= k <= n,
                n == all.len(),
                source < self@.len(),
                self@ == before,
                all == before[source as int].listeners,
                keep == (|t: Target| t.id != target.id),
                kept@ == all.take(k as int).filter(keep),
                forall|j: int| 0 <= j < kept@.len() ==> (#[trigger] kept@[j]).node < before.len(),
                targets_in_range(before),
            decreases n - k,
        {
            let t: Target = self.nodes[source].listeners[k];
            proof {
                reveal(Seq::filter);
                assert(all.take(k + 1).drop_last() =~= all.take(k as int));
                assert(all.take(k + 1).last() == t);
                assert(t == before[source as int].listeners[k as int]);
            }
            if t.id != target.id {
                kept.push(t);
            }
            k = k + 1;
        }
        proof {
            assert(all.take(n as int) =~= all);
        }
        self.nodes[source].listeners = kept;
        proof {
            assert(self@ =~= without_listener(before, source as int, target.id));
            assert forall|n: int, k: int|
                0 <= n < self@.len() && 0 <= k < self@[n].listeners.len() implies (
            #[trigger] self@[n].listeners[k]).node < self@.len() by {
                if n == source {
                } else {
                    assert(self@[n].listeners[k] == before[n].listeners[k]);
                }
            }
        }
    }
}

} // verus!
