//! Building the world: new streams, coalescers, cells and listener edges
//! leave it in order.

use vstd::prelude::*;
use crate::handler::{Action, LastAction, TransactionHandler};
use crate::rank_order::{lemma_link_keeps_ranks_increasing, link_clean};
use crate::transaction::Entry;
use crate::model::{
    edges_named, fold_is_function, fold_is_total, has_update, homes_of, lemma_named_filter,
    lemma_named_push, State, Wiring,
};
use crate::node::{
    frame, lemma_frame_and_ranks, lemma_sweep_node_has_room, lemma_sweep_node_raises,
    lemma_unvisited_bound, link_sweep, spec_link_to, sweep_start, targets_in_range, unvisited,
    with_listener, with_ranks, without_listener, NodeView, Target,
};

verus! {

/// A link to a node whose rank is already above that of the source raises
/// nothing: it adds the edge and leaves every rank as it is.
pub proof fn lemma_link_upwards(g: Seq<NodeView>, source: int, target: Target)
    requires
        0 <= source < g.len(),
        target.node < g.len(),
        g[target.node as int].rank > g[source].rank,
    ensures
        link_sweep(g, source, target.node as int) == sweep_start(g, Set::empty()),
        link_sweep(g, source, target.node as int).ok,
        spec_link_to(g, source, target) == with_listener(g, source, target),
{
    let start = sweep_start(g, Set::empty());
    assert(start.ranks[target.node as int] == g[target.node as int].rank);
    assert(frame(g).len() == g.len());
    lemma_frame_and_ranks(g, g);
}

/// An edge that does not forward, and leads to a node of higher rank,
/// leaves the wiring in order.
pub proof fn lemma_wiring_push_edge(w: Wiring, at: int, target: Target)
    requires
        w.ok(),
        targets_in_range(w.nodes),
        0 <= at < w.nodes.len(),
        target.node < w.nodes.len(),
        !(target.action is Forward),
        w.nodes[target.node as int].rank > w.nodes[at].rank,
    ensures
        (Wiring { nodes: with_listener(w.nodes, at, target), homes: w.homes }).ok(),
{
    let after = with_listener(w.nodes, at, target);
    assert forall|n: int, k: int|
        0 <= n < after.len() && 0 <= k < after[n].listeners.len() implies after[(
    #[trigger] after[n].listeners[k]).node as int].rank > after[n].rank && (after[n].listeners[k].action matches TransactionHandler::Forward(
        t,
    ) ==> t < w.homes.len() && after[n].listeners[k].node == w.homes[t as int]) by {
        if n == at && k == w.nodes[at].listeners.len() {
        } else {
            assert(after[n].listeners[k] == w.nodes[n].listeners[k]);
            assert(w.nodes[n].listeners[k].node < w.nodes.len());
            assert(w.nodes[w.nodes[n].listeners[k].node as int].rank > w.nodes[n].rank);
        }
    }
}

/// Taking edges away leaves the wiring in order.
pub proof fn lemma_wiring_filter(w: Wiring, at: int, id: u32)
    requires
        w.ok(),
        targets_in_range(w.nodes),
        0 <= at < w.nodes.len(),
    ensures
        (Wiring { nodes: without_listener(w.nodes, at, id), homes: w.homes }).ok(),
{
    let after = without_listener(w.nodes, at, id);
    let all = w.nodes[at].listeners;
    let keep = |t: Target| t.id != id;
    assert forall|n: int, k: int|
        0 <= n < after.len() && 0 <= k < after[n].listeners.len() implies after[(
    #[trigger] after[n].listeners[k]).node as int].rank > after[n].rank && (after[n].listeners[k].action matches TransactionHandler::Forward(
        t,
    ) ==> t < w.homes.len() && after[n].listeners[k].node == w.homes[t as int]) by {
        if n == at {
            let t = all.filter(keep)[k];
            assert(all.filter(keep).contains(t));
            all.lemma_filter_contains_rev(keep, t);
            let j = choose|j: int| 0 <= j < all.len() && all[j] == t;
            assert(w.nodes[n].listeners[j] == t);
            assert(w.nodes[n].listeners[j].node < w.nodes.len());
            assert(w.nodes[w.nodes[n].listeners[j].node as int].rank > w.nodes[n].rank);
        } else {
            assert(after[n].listeners[k] == w.nodes[n].listeners[k]);
            assert(w.nodes[n].listeners[k].node < w.nodes.len());
            assert(w.nodes[w.nodes[n].listeners[k].node as int].rank > w.nodes[n].rank);
        }
    }
}

impl<A, F: Fn(&A, &A) -> A> State<A, F> {
    /// A new stream keeps the world in order.
    pub proof fn lemma_with_stream(self)
        requires
            self.inv(),
            self.next_id < u32::MAX,
            self.streams.len() < usize::MAX,
            self.nodes.len() < usize::MAX,
        ensures
            self.with_stream().inv(),
    {
        let r = self.with_stream();
        assert(r.wiring().ok()) by {
            let w = self.wiring();
            let v = r.wiring();
            assert forall|s: int| 0 <= s < v.homes.len() implies (#[trigger] v.homes[s])
                < v.nodes.len() by {
                if s < w.homes.len() {
                    assert(w.homes[s] < w.nodes.len());
                }
            }
            assert forall|n: int, k: int|
                0 <= n < v.nodes.len() && 0 <= k < v.nodes[n].listeners.len() implies v.nodes[(
            #[trigger] v.nodes[n].listeners[k]).node as int].rank > v.nodes[n].rank && (v.nodes[n].listeners[k].action matches TransactionHandler::Forward(
                t,
            ) ==> t < v.homes.len() && v.nodes[n].listeners[k].node == v.homes[t as int]) by {
                assert(v.nodes[n].listeners[k] == w.nodes[n].listeners[k]);
                assert(w.nodes[w.nodes[n].listeners[k].node as int].rank > w.nodes[n].rank);
                assert(w.nodes[n].listeners[k].node < w.nodes.len());
                match w.nodes[n].listeners[k].action {
                    TransactionHandler::Forward(t) => {
                        assert(v.homes[t as int] == w.homes[t as int]);
                    },
                    _ => {},
                }
            }
        }
        assert(edges_named(r.nodes, r.next_id)) by {
            assert forall|n: int, k: int|
                0 <= n < r.nodes.len() && 0 <= k < r.nodes[n].listeners.len() implies (
            #[trigger] r.nodes[n].listeners[k]).id < r.next_id && (r.nodes[n].listeners[k].action matches TransactionHandler::Notify(
                x,
            ) ==> x == r.nodes[n].listeners[k].id) by {
                assert(r.nodes[n].listeners[k] == self.nodes[n].listeners[k]);
            }
        }
        assert forall|n: int, k: int|
            0 <= n < r.nodes.len() && 0 <= k < r.nodes[n].listeners.len() implies (
        #[trigger] r.nodes[n].listeners[k]).node < r.nodes.len() && r.handler_ok(
            r.nodes[n].listeners[k].action,
        ) by {
            assert(self.nodes[n].listeners[k].node < self.nodes.len());
            assert(self.handler_ok(self.nodes[n].listeners[k].action));
        }
        assert forall|s: int| 0 <= s < r.streams.len() implies 0 < (#[trigger] r.streams[s]).node
            < r.nodes.len() && r.nodes[r.streams[s].node as int].rank < u64::MAX by {
            if s < self.streams.len() {
                assert(0 < self.streams[s].node < self.nodes.len());
            }
        }
        assert forall|j: int| 0 <= j < r.tx.last.len() implies r.last_ok(#[trigger] r.tx.last[j]) by {
            assert(self.last_ok(self.tx.last[j]));
        }
        assert forall|n: int, c: usize|
            0 <= n < self.nodes.len() && has_update(
                self.nodes[n].listeners,
                c,
            ) implies #[trigger] has_update(r.nodes[n].listeners, c) by {
            assert(r.nodes[n] == self.nodes[n]);
        }
        self.lemma_cells_stay_wired(r);
        assert forall|c: int| 0 <= c < r.coalescers.len() implies (#[trigger] r.coalescers[c]).out
            < r.streams.len() by {
            assert(self.coalescers[c].out < self.streams.len());
        }
        assert forall|s: usize|
            s < r.streams.len() && (#[trigger] r.streams[s as int]).firings.len()
                > 0 implies r.tx.last.contains(crate::handler::LastAction::ClearFirings(s)) by {
            assert(self.streams[s as int].firings.len() > 0);
        }
    }

    /// A new coalescer keeps the world in order.
    pub proof fn lemma_with_coalescer(self, f: Option<F>, out: usize)
        requires
            self.inv(),
            self.coalescers.len() < usize::MAX,
            out < self.streams.len(),
            f matches Some(g) ==> fold_is_total(g) && fold_is_function(g),
        ensures
            self.with_coalescer(f, out).inv(),
    {
        let r = self.with_coalescer(f, out);
        self.lemma_cells_stay_wired(r);
        assert forall|n: int, k: int|
            0 <= n < r.nodes.len() && 0 <= k < r.nodes[n].listeners.len() implies r.handler_ok(
            (#[trigger] r.nodes[n].listeners[k]).action,
        ) by {
            assert(self.handler_ok(self.nodes[n].listeners[k].action));
        }
        assert forall|c: int| 0 <= c < r.coalescers.len() implies (#[trigger] r.coalescers[c]).out
            < r.streams.len() && (r.coalescers[c].f matches Some(g) ==> fold_is_total(g)
            && fold_is_function(g)) by {
            if c < self.coalescers.len() {
                assert(self.coalescers[c].out < self.streams.len());
            }
        }
        assert forall|j: int| 0 <= j < r.tx.prioritized.len() implies r.action_ok(
            (#[trigger] r.tx.prioritized[j]).action,
        ) by {
            assert(self.action_ok(self.tx.prioritized[j].action));
        }
        assert forall|j: int| 0 <= j < r.tx.last.len() implies r.last_ok(#[trigger] r.tx.last[j]) by {
            assert(self.last_ok(self.tx.last[j]));
        }
        assert forall|c: usize|
            c < r.coalescers.len() && (#[trigger] r.coalescers[c as int]).accum_op is Some implies crate::model::has_flush(
            r.tx.prioritized,
            c,
        ) by {
            assert(self.coalescers[c as int].accum_op is Some);
        }
    }

    /// A state whose nodes differ from those of `self` only in the
    /// listeners of one node, all of which name nodes and consumers that
    /// exist, is in order too.
    pub proof fn lemma_relinked(self, t: Self, node: int)
        requires
            self.inv(),
            0 < node < self.nodes.len(),
            t.nodes == self.nodes.update(
                node,
                NodeView { listeners: t.nodes[node].listeners, ..self.nodes[node] },
            ),
            forall|k: int|
                0 <= k < t.nodes[node].listeners.len() ==> (#[trigger] t.nodes[node].listeners[k]).node
                    < self.nodes.len() && t.handler_ok(t.nodes[node].listeners[k].action),
            t.streams == self.streams,
            t.cells.len() >= self.cells.len(),
            t.cells.len() <= usize::MAX,
            forall|i: int| 0 <= i < self.cells.len() ==> t.cells[i] == self.cells[i],
            forall|i: int|
                self.cells.len() <= i < t.cells.len() ==> (#[trigger] t.cells[i]).next is None,
            forall|i: int| 0 <= i < t.cells.len() ==> #[trigger] t.cell_ok(i),
            t.coalescers == self.coalescers,
            t.loops == self.loops,
            t.tx == self.tx,
            t.depth == self.depth,
            edges_named(t.nodes, t.next_id),
            t.wiring().ok(),
        ensures
            t.inv(),
    {
        assert forall|n: int, k: int|
            0 <= n < t.nodes.len() && 0 <= k < t.nodes[n].listeners.len() implies (
        #[trigger] t.nodes[n].listeners[k]).node < t.nodes.len() && t.handler_ok(
            t.nodes[n].listeners[k].action,
        ) by {
            if n != node {
                assert(self.nodes[n].listeners[k].node < self.nodes.len());
                assert(self.handler_ok(self.nodes[n].listeners[k].action));
            }
        }
        assert forall|s: int| 0 <= s < t.streams.len() implies 0 < (#[trigger] t.streams[s]).node
            < t.nodes.len() && t.nodes[t.streams[s].node as int].rank < u64::MAX by {
            assert(0 < self.streams[s].node < self.nodes.len());
        }
        assert forall|j: int| 0 <= j < t.tx.prioritized.len() implies t.action_ok(
            (#[trigger] t.tx.prioritized[j]).action,
        ) by {
            assert(self.action_ok(self.tx.prioritized[j].action));
        }
        assert forall|j: int| 0 <= j < t.tx.last.len() implies t.last_ok(#[trigger] t.tx.last[j]) by {
            assert(self.last_ok(self.tx.last[j]));
        }
        assert forall|i: usize|
            i < t.cells.len() && (#[trigger] t.cells[i as int]).next is Some implies t.tx.last.contains(
            crate::handler::LastAction::Commit(i),
        ) by {
            assert(self.cells[i as int].next is Some);
        }
        assert(t.wf());
        assert(t.tidy());
    }

    /// A new edge from a stream to the node that observers hang on keeps the
    /// world in order.
    pub proof fn lemma_with_target(self, s: usize, target: Target)
        requires
            self.inv(),
            s < self.streams.len(),
            target.node < self.nodes.len(),
            self.handler_ok(target.action),
            self.next_id < u32::MAX,
            target.id == self.next_id,
            target.action matches TransactionHandler::Notify(x) ==> x == target.id,
            target.node == 0,
            !(target.action is Forward),
        ensures
            self.with_target(s, target).inv(),
    {
        let r = self.with_target(s, target);
        let node = self.node_of(s);
        assert(0 < self.streams[s as int].node < self.nodes.len());
        lemma_named_push(self.nodes, self.next_id, node, target);
        lemma_wiring_push_edge(self.wiring(), node, target);
        assert(r.nodes =~= self.nodes.update(
            node,
            NodeView { listeners: r.nodes[node].listeners, ..self.nodes[node] },
        ));
        assert forall|k: int| 0 <= k < r.nodes[node].listeners.len() implies (
        #[trigger] r.nodes[node].listeners[k]).node < self.nodes.len() && r.handler_ok(
            r.nodes[node].listeners[k].action,
        ) by {
            if k < self.nodes[node].listeners.len() {
                assert(self.nodes[node].listeners[k].node < self.nodes.len());
                assert(self.handler_ok(self.nodes[node].listeners[k].action));
            }
        }
        self.lemma_pushed_keeps_updates(r, node, target);
        self.lemma_cells_stay_wired(r);
        self.lemma_relinked(r, node);
    }

    /// Adding an edge at the end of the listeners of a node takes no
    /// update edge away.
    pub proof fn lemma_pushed_keeps_updates(self, t: Self, node: int, target: Target)
        requires
            0 <= node < self.nodes.len(),
            t.nodes == with_listener(self.nodes, node, target),
        ensures
            forall|n: int, c: usize|
                0 <= n < self.nodes.len() && has_update(self.nodes[n].listeners, c)
                    ==> #[trigger] has_update(t.nodes[n].listeners, c),
            has_update(t.nodes[node].listeners, target.action->Update_0) || !(target.action is Update),
    {
        assert forall|n: int, c: usize|
            0 <= n < self.nodes.len() && has_update(
                self.nodes[n].listeners,
                c,
            ) implies #[trigger] has_update(t.nodes[n].listeners, c) by {
            let k = choose|k: int|
                0 <= k < self.nodes[n].listeners.len() && (
                #[trigger] self.nodes[n].listeners[k]).action == TransactionHandler::Update(c);
            assert(t.nodes[n].listeners[k] == self.nodes[n].listeners[k]);
        }
        if target.action is Update {
            assert(t.nodes[node].listeners[self.nodes[node].listeners.len() as int] == target);
        }
    }

    /// Detaching an observer keeps the world in order.
    pub proof fn lemma_unlistened(self, s: usize, id: u32)
        requires
            self.inv(),
            s < self.streams.len(),
        ensures
            self.unlistened(s, id).inv(),
    {
        if self.detachable(s, id) {
            let r = self.without_target(s, id);
            let node = self.node_of(s);
            let all = self.nodes[node].listeners;
            let keep = |t: Target| t.id != id;
            assert(0 < self.streams[s as int].node < self.nodes.len());
            lemma_named_filter(self.nodes, self.next_id, node, id);
            lemma_wiring_filter(self.wiring(), node, id);
            assert(r.nodes =~= self.nodes.update(
                node,
                NodeView { listeners: r.nodes[node].listeners, ..self.nodes[node] },
            ));
            assert forall|k: int| 0 <= k < r.nodes[node].listeners.len() implies (
            #[trigger] r.nodes[node].listeners[k]).node < self.nodes.len() && r.handler_ok(
                r.nodes[node].listeners[k].action,
            ) by {
                let t = all.filter(keep)[k];
                assert(all.filter(keep).contains(t));
                all.lemma_filter_contains_rev(keep, t);
                let j = choose|j: int| 0 <= j < all.len() && all[j] == t;
                assert(self.nodes[node].listeners[j].node < self.nodes.len());
                assert(self.handler_ok(self.nodes[node].listeners[j].action));
            }
            assert forall|n: int, c: usize|
                0 <= n < self.nodes.len() && has_update(
                    self.nodes[n].listeners,
                    c,
                ) implies #[trigger] has_update(r.nodes[n].listeners, c) by {
                if n == node {
                    let k = choose|k: int|
                        0 <= k < all.len() && (#[trigger] all[k]).action
                            == TransactionHandler::Update(c);
                    assert(self.listeners_of(s)[k].action is Update);
                    assert(all[k].id != id);
                    assert(keep(all[k]));
                    all.lemma_filter_contains(keep, k);
                    let j = choose|j: int|
                        0 <= j < all.filter(keep).len() && all.filter(keep)[j] == all[k];
                    assert(r.nodes[n].listeners[j].action == TransactionHandler::Update(c));
                }
            }
            self.lemma_cells_stay_wired(r);
            self.lemma_relinked(r, node);
        }
    }

    /// A new cell keeps the world in order.
    pub proof fn lemma_with_cell(self, initial: A, updates: usize, feed: usize)
        requires
            self.inv(),
            self.cells.len() < usize::MAX,
            updates < self.streams.len(),
            feed < self.coalescers.len(),
            self.coalescers[feed as int].out == updates,
            self.coalescers[feed as int].f is None,
            self.next_id < u32::MAX,
        ensures
            self.with_cell(initial, updates, feed).inv(),
    {
        let r = self.with_cell(initial, updates, feed);
        let node = self.node_of(updates);
        let target = Target {
            id: self.next_id,
            node: 0,
            action: TransactionHandler::Update(self.cells.len() as usize),
        };
        assert(0 < self.streams[updates as int].node < self.nodes.len());
        lemma_named_push(self.nodes, self.next_id, node, target);
        lemma_wiring_push_edge(self.wiring(), node, target);
        assert(r.nodes =~= self.nodes.update(
            node,
            NodeView { listeners: r.nodes[node].listeners, ..self.nodes[node] },
        ));
        assert forall|k: int| 0 <= k < r.nodes[node].listeners.len() implies (
        #[trigger] r.nodes[node].listeners[k]).node < self.nodes.len() && r.handler_ok(
            r.nodes[node].listeners[k].action,
        ) by {
            if k < self.nodes[node].listeners.len() {
                assert(self.nodes[node].listeners[k].node < self.nodes.len());
                assert(self.handler_ok(self.nodes[node].listeners[k].action));
            }
        }
        self.lemma_pushed_keeps_updates(r, node, target);
        self.lemma_cells_stay_wired(r);
        assert(r.cell_ok(self.cells.len() as int));
        assert forall|i: int| 0 <= i < r.cells.len() implies #[trigger] r.cell_ok(i) by {}
        self.lemma_relinked(r, node);
    }

    /// Queueing a prioritized action keeps the world in order.
    pub proof fn lemma_with_prioritized(self, node: int, action: Action)
        requires
            self.inv(),
            self.depth > 0,
            self.action_ok(action),
        ensures
            self.with_prioritized(node, action).inv(),
    {
        let r = self.with_prioritized(node, action);
        let q = self.tx.prioritized;
        let e = Entry { rank: self.nodes[node].rank, action };
        self.lemma_cells_stay_wired(r);
        assert forall|c: usize|
            c < r.coalescers.len() && (#[trigger] r.coalescers[c as int]).accum_op is Some implies crate::model::has_flush(
            r.tx.prioritized,
            c,
        ) by {
            crate::model::lemma_has_flush_push(q, e, c);
        }
        assert forall|j: int| 0 <= j < r.tx.prioritized.len() implies r.action_ok(
            (#[trigger] r.tx.prioritized[j]).action,
        ) by {
            if j < q.len() {
                assert(r.tx.prioritized[j] == q[j]);
                assert(self.action_ok(q[j].action));
            }
        }
        assert forall|n: int, k: int|
            0 <= n < r.nodes.len() && 0 <= k < r.nodes[n].listeners.len() implies r.handler_ok(
            (#[trigger] r.nodes[n].listeners[k]).action,
        ) by {
            assert(self.handler_ok(self.nodes[n].listeners[k].action));
        }
        assert forall|j: int| 0 <= j < r.tx.last.len() implies r.last_ok(#[trigger] r.tx.last[j]) by {
            assert(self.last_ok(self.tx.last[j]));
        }
    }

    /// Queueing a last action keeps the world in order.
    pub proof fn lemma_with_last(self, action: LastAction)
        requires
            self.inv(),
            self.depth > 0,
            self.last_ok(action),
        ensures
            self.with_last(action).inv(),
    {
        let r = self.with_last(action);
        let l = self.tx.last;
        self.lemma_cells_stay_wired(r);
        crate::model::lemma_begins_self(l);
        crate::model::lemma_begins_push(l, l, action);
        assert forall|j: int| 0 <= j < r.tx.last.len() implies r.last_ok(#[trigger] r.tx.last[j]) by {
            if j < l.len() {
                assert(r.tx.last[j] == l[j]);
                assert(self.last_ok(l[j]));
            }
        }
        assert forall|s: usize|
            s < r.streams.len() && (#[trigger] r.streams[s as int]).firings.len()
                > 0 implies r.tx.last.contains(LastAction::ClearFirings(s)) by {
            crate::model::lemma_begins_contains(l, r.tx.last, LastAction::ClearFirings(s));
        }
        assert forall|i: usize|
            i < r.cells.len() && (#[trigger] r.cells[i as int]).next is Some implies r.tx.last.contains(
            LastAction::Commit(i),
        ) by {
            crate::model::lemma_begins_contains(l, r.tx.last, LastAction::Commit(i));
        }
        assert forall|n: int, k: int|
            0 <= n < r.nodes.len() && 0 <= k < r.nodes[n].listeners.len() implies r.handler_ok(
            (#[trigger] r.nodes[n].listeners[k]).action,
        ) by {
            assert(self.handler_ok(self.nodes[n].listeners[k].action));
        }
        assert forall|j: int| 0 <= j < r.tx.prioritized.len() implies r.action_ok(
            (#[trigger] r.tx.prioritized[j]).action,
        ) by {
            assert(self.action_ok(self.tx.prioritized[j].action));
        }
    }

    /// Declaring a stream loop keeps the world in order.
    pub proof fn lemma_with_loop(self)
        requires
            self.inv(),
            self.depth > 0,
            self.next_id < u32::MAX,
            self.streams.len() < usize::MAX,
            self.nodes.len() < usize::MAX,
            self.loops.len() < usize::MAX,
        ensures
            self.with_loop().inv(),
    {
        self.lemma_with_stream();
        let m = self.with_stream();
        let r = self.with_loop();
        m.lemma_cells_stay_wired(r);
        assert forall|n: int, k: int|
            0 <= n < r.nodes.len() && 0 <= k < r.nodes[n].listeners.len() implies r.handler_ok(
            (#[trigger] r.nodes[n].listeners[k]).action,
        ) by {
            assert(m.handler_ok(m.nodes[n].listeners[k].action));
        }
        assert forall|j: int| 0 <= j < r.tx.prioritized.len() implies r.action_ok(
            (#[trigger] r.tx.prioritized[j]).action,
        ) by {
            assert(m.action_ok(m.tx.prioritized[j].action));
        }
        assert forall|j: int| 0 <= j < r.tx.last.len() implies r.last_ok(#[trigger] r.tx.last[j]) by {
            assert(m.last_ok(m.tx.last[j]));
        }
        assert forall|l: int| 0 <= l < r.loops.len() implies (#[trigger] r.loops[l]).stream
            < r.streams.len() by {
            if l < self.loops.len() {
                assert(self.loops[l].stream < self.streams.len());
            }
        }
        assert(r.wf());
        assert(r.tidy());
    }

    /// Binding a loop, or refusing to, keeps the world in order.
    pub proof fn lemma_looped(self, l: usize, s: usize)
        requires
            self.inv(),
            self.depth > 0,
            self.next_id < u32::MAX,
            l < self.loops.len(),
            s < self.streams.len(),
        ensures
            self.looped(l, s).inv(),
    {
        let r = self.looped(l, s);
        if !self.has_room(l, s) {
        } else if self.link_holds(l, s) {
            let source = self.node_of(s);
            let edge = self.loop_edge(l);
            let ls = self.loops[l as int].stream;
            let g = self.nodes;
            let swept = with_ranks(g, link_sweep(g, source, edge.node as int).ranks);
            let h = r.nodes;
            assert(0 < self.streams[s as int].node < self.nodes.len());
            assert(self.loops[l as int].stream < self.streams.len());
            assert(0 < self.streams[ls as int].node < self.nodes.len());
            assert(h == with_listener(swept, source, edge));
            assert forall|n: int| 0 <= n < g.len() implies (#[trigger] swept[n]).listeners
                == g[n].listeners && swept[n].id == g[n].id by {}
            assert forall|n: int, k: int|
                0 <= n < h.len() && 0 <= k < h[n].listeners.len() && !(n == source && k
                    == g[source].listeners.len()) implies (#[trigger] h[n].listeners[k])
                == g[n].listeners[k] by {}
            assert(h[source].listeners[g[source].listeners.len() as int] == edge);
            assert forall|n: int, k: int|
                0 <= n < h.len() && 0 <= k < h[n].listeners.len() implies (
            #[trigger] h[n].listeners[k]).node < h.len() && r.handler_ok(h[n].listeners[k].action)
                && h[n].listeners[k].id < r.next_id && (h[n].listeners[k].action matches TransactionHandler::Notify(
                x,
            ) ==> x == h[n].listeners[k].id) && (h[n].listeners[k].action matches TransactionHandler::Forward(
                t,
            ) ==> t < r.streams.len() && h[n].listeners[k].node == r.streams[t as int].node) by {
                if n == source && k == g[source].listeners.len() {
                } else {
                    let e = g[n].listeners[k];
                    assert(e.node < g.len());
                    assert(self.handler_ok(e.action));
                    match e.action {
                        TransactionHandler::Forward(t) => {
                            assert(e.node == self.wiring().homes[t as int]);
                        },
                        _ => {},
                    }
                }
            }
            assert forall|n: int, c: usize|
                0 <= n < g.len() && has_update(g[n].listeners, c) implies #[trigger] has_update(
                h[n].listeners,
                c,
            ) by {
                let k = choose|k: int|
                    0 <= k < g[n].listeners.len() && (#[trigger] g[n].listeners[k]).action
                        == TransactionHandler::Update(c);
                assert(h[n].listeners[k] == g[n].listeners[k]);
            }
            self.lemma_cells_stay_wired(r);
            assert forall|t: int| 0 <= t < r.streams.len() implies 0 < (#[trigger] r.streams[t]).node
                < r.nodes.len() && r.nodes[r.streams[t].node as int].rank < u64::MAX by {
                assert(0 < self.streams[t].node < self.nodes.len());
                assert(homes_of(self.streams)[t] == self.streams[t].node);
            }
            assert forall|j: int| 0 <= j < r.tx.prioritized.len() implies r.action_ok(
                (#[trigger] r.tx.prioritized[j]).action,
            ) by {
                assert(self.action_ok(self.tx.prioritized[j].action));
            }
            assert forall|j: int| 0 <= j < r.tx.last.len() implies r.last_ok(
                #[trigger] r.tx.last[j],
            ) by {
                assert(self.last_ok(self.tx.last[j]));
            }
            assert forall|i: int| 0 <= i < r.loops.len() implies (#[trigger] r.loops[i]).stream
                < r.streams.len() by {
                assert(self.loops[i].stream < self.streams.len());
            }
            assert(h[0].listeners =~= g[0].listeners);
            assert(r.wf());
            assert(r.tidy());
            assert(edges_named(r.nodes, r.next_id));
            assert(r.wiring().ok()) by {
                let v = r.wiring();
                assert forall|t: int| 0 <= t < v.homes.len() implies (#[trigger] v.homes[t])
                    < v.nodes.len() by {
                    assert(0 < self.streams[t].node < self.nodes.len());
                }
            }
        } else {
            self.lemma_cells_stay_wired(r);
            assert(edges_named(r.nodes, r.next_id));
            assert forall|n: int, k: int|
                0 <= n < r.nodes.len() && 0 <= k < r.nodes[n].listeners.len() implies r.handler_ok(
                (#[trigger] r.nodes[n].listeners[k]).action,
            ) by {
                assert(self.handler_ok(self.nodes[n].listeners[k].action));
            }
            assert forall|j: int| 0 <= j < r.tx.prioritized.len() implies r.action_ok(
                (#[trigger] r.tx.prioritized[j]).action,
            ) by {
                assert(self.action_ok(self.tx.prioritized[j].action));
            }
            assert forall|j: int| 0 <= j < r.tx.last.len() implies r.last_ok(
                #[trigger] r.tx.last[j],
            ) by {
                assert(self.last_ok(self.tx.last[j]));
            }
            assert(r.wf());
            assert(r.tidy());
        }
    }

    /// Poisoning a transaction keeps the world in order.
    pub proof fn lemma_poisoned(self)
        requires
            self.inv(),
        ensures
            self.poisoned().inv(),
    {
        let r = self.poisoned();
        self.lemma_cells_stay_wired(r);
        assert forall|n: int, k: int|
            0 <= n < r.nodes.len() && 0 <= k < r.nodes[n].listeners.len() implies r.handler_ok(
            (#[trigger] r.nodes[n].listeners[k]).action,
        ) by {
            assert(self.handler_ok(self.nodes[n].listeners[k].action));
        }
        assert forall|j: int| 0 <= j < r.tx.last.len() implies r.last_ok(#[trigger] r.tx.last[j]) by {
            assert(self.last_ok(self.tx.last[j]));
        }
        assert forall|c: int| 0 <= c < r.coalescers.len() implies (#[trigger] r.coalescers[c]).out
            < r.streams.len() && (r.coalescers[c].f matches Some(g) ==> fold_is_total(g)
            && fold_is_function(g)) by {
            assert(self.coalescers[c].out < self.streams.len());
        }
        assert(r.wf());
        assert(r.tidy());
    }

    /// A link that runs cleanly is accepted: where the source can be tried
    /// and the link runs cleanly, the rank grows along every edge
    /// afterwards and every stream stays below the top.
    pub proof fn lemma_clean_link_holds(self, l: usize, s: usize)
        requires
            self.inv(),
            l < self.loops.len(),
            s < self.streams.len(),
            self.has_room(l, s),
            link_clean(self.nodes, self.node_of(s), self.loop_edge(l).node as int),
        ensures
            self.link_holds(l, s),
    {
        let g = self.nodes;
        let source = self.node_of(s);
        let edge = self.loop_edge(l);
        let limit = g[source].rank;
        let start = sweep_start(g, Set::empty());
        assert(0 < self.streams[s as int].node < self.nodes.len());
        assert(self.loops[l as int].stream < self.streams.len());
        assert(0 < self.streams[self.loops[l as int].stream as int].node < self.nodes.len());
        assert(frame(g).len() == g.len());
        lemma_unvisited_bound(frame(g), Set::empty(), g.len() as int);
        lemma_sweep_node_has_room(frame(g), start, edge.node as int, limit);
        lemma_link_keeps_ranks_increasing(g, source, edge);
        lemma_sweep_node_raises(frame(g), start, edge.node as int, limit);
        let swept = link_sweep(g, source, edge.node as int);
        let h = self.linked(l, s);
        assert forall|i: int| 0 <= i < g.len() implies (#[trigger] h[i]).rank == swept.ranks[i] by {}
        assert(start.ranks[0] == u64::MAX);
        assert forall|t: int| 0 <= t < self.streams.len() implies h[(#[trigger] homes_of(
            self.streams,
        )[t]) as int].rank < u64::MAX by {
            let n = self.streams[t].node as int;
            assert(0 < self.streams[t].node < self.nodes.len());
            assert(start.ranks[n] == g[n].rank);
            assert(swept.ranks[n] == start.ranks[n] || swept.ranks[n] <= limit + unvisited(
                frame(g),
                Set::empty(),
            ));
        }
    }
}

} // verus!
