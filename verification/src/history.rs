//! Histories: what holds after any sequence of operations.
//!
//! The operations of the engine are written down as data, so that a law
//! can speak of everything that may happen later: a detached observer is
//! never owed anything again.

use vstd::prelude::*;
use crate::handler::{Action, LastAction, TransactionHandler};
use crate::laws::{owed_by_edges, owed_by_handler, owed_by_stream};
use crate::model::{
    begins, fold_is_function, fold_is_total, lemma_begins_self, lemma_begins_trans, Delivery,
    State, Wiring,
};
use crate::node::{link_sweep, with_listener, with_ranks, without_listener, NodeView, Target};

verus! {

/// One operation of the engine.
pub enum Step<A, F> {
    /// `begin`.
    Begin,
    /// `end`.
    End,
    /// `propergate`.
    Close,
    /// `prioritized`, with the node and the action.
    Prioritized(usize, Action),
    /// `last`.
    Last(LastAction),
    /// `post`.
    Post(u32),
    /// A value arrives at a coalescer.
    Coalesce(usize, A),
    /// An update arrives at a cell.
    UpdateCell(usize, A),
    /// A stream fires a value.
    Send(usize, A),
    /// A coalescer is flushed.
    Flush(usize),
    /// A sink, named by its coalescer, is sent a value.
    SinkSend(usize, A),
    /// A stream is added.
    NewStream,
    /// A coalescer is added, with its rule and its stream.
    NewCoalescer(Option<F>, usize),
    /// A cell is added, with its value, its stream of updates and the
    /// coalescer that feeds it.
    NewCell(A, usize, usize),
    /// An observer is attached to a stream.
    Listen(usize),
    /// An observer is attached to a cell.
    Observe(usize),
    /// An observer is detached from a stream.
    Unlisten(usize, u32),
    /// A stream loop is declared.
    NewLoop,
    /// A loop is bound to a stream, or the binding is refused.
    BindLoop(usize, usize),
    /// The transaction is poisoned.
    Poison,
}

/// No edge of `nodes` notifies the observer `id`.
pub open spec fn mute(nodes: Seq<NodeView>, id: u32) -> bool {
    forall|n: int, k: int|
        0 <= n < nodes.len() && 0 <= k < nodes[n].listeners.len() ==> (
        #[trigger] nodes[n].listeners[k]).action != TransactionHandler::Notify(id)
}

/// The observer `id` is attached to node `node` or to none: no edge of
/// another node notifies it, and no edge of `node` with its id does
/// anything else.
pub open spec fn observer_at(nodes: Seq<NodeView>, node: int, id: u32) -> bool {
    &&& forall|n: int, k: int|
        0 <= n < nodes.len() && 0 <= k < nodes[n].listeners.len() && (
        #[trigger] nodes[n].listeners[k]).action == TransactionHandler::Notify(id) ==> n == node
    &&& forall|k: int|
        0 <= node < nodes.len() && 0 <= k < nodes[node].listeners.len() && (
        #[trigger] nodes[node].listeners[k]).id == id ==> nodes[node].listeners[k].action is Notify
}

/// `new` is `old` with deliveries added at the end, none of them to the
/// observer `id`.
pub open spec fn adds_none_for<A>(old: Seq<Delivery<A>>, new: Seq<Delivery<A>>, id: u32) -> bool {
    &&& begins(old, new)
    &&& forall|j: int| old.len() <= j < new.len() ==> (#[trigger] new[j]).listener != id
}

/// Adding nothing for an observer twice is adding nothing for it.
pub proof fn lemma_adds_none_trans<A>(
    a: Seq<Delivery<A>>,
    b: Seq<Delivery<A>>,
    c: Seq<Delivery<A>>,
    id: u32,
)
    requires
        adds_none_for(a, b, id),
        adds_none_for(b, c, id),
    ensures
        adds_none_for(a, c, id),
{
    lemma_begins_trans(a, b, c);
    assert forall|j: int| a.len() <= j < c.len() implies (#[trigger] c[j]).listener != id by {
        if j < b.len() {
            assert(c.take(b.len() as int)[j] == c[j]);
            assert(b[j].listener != id);
        }
    }
}

/// Edges that do not notify an observer owe it nothing, whatever they
/// forward to.
pub proof fn lemma_edges_owe_others<A>(w: Wiring, n: int, k: int, a: A, id: u32)
    requires
        w.ok(),
        mute(w.nodes, id),
        0 <= n < w.nodes.len(),
        0 <= k <= w.nodes[n].listeners.len(),
    ensures
        forall|j: int|
            0 <= j < owed_by_edges(w, n, k, a).len() ==> (#[trigger] owed_by_edges(
                w,
                n,
                k,
                a,
            )[j]).listener != id,
    decreases w.height(n), 1nat, k,
{
    if k > 0 {
        lemma_edges_owe_others(w, n, k - 1, a, id);
        w.lemma_forward_is_higher(n, k - 1);
        let h = w.nodes[n].listeners[k - 1].action;
        let most = owed_by_edges(w, n, k - 1, a);
        let more = owed_by_handler(w, h, a);
        assert(owed_by_edges(w, n, k, a) == most + more);
        assert(h != TransactionHandler::Notify(id));
        match h {
            TransactionHandler::Forward(t) => {
                lemma_stream_owes_others(w, t, a, id);
                assert(more == owed_by_stream(w, t, a));
            },
            _ => {},
        }
        let all = most + more;
        assert forall|j: int| 0 <= j < all.len() implies (#[trigger] all[j]).listener != id by {
            if j < most.len() {
                assert(all[j] == most[j]);
            } else {
                assert(all[j] == more[j - most.len()]);
            }
        }
    }
}

/// A stream owes nothing to an observer that no edge notifies.
pub proof fn lemma_stream_owes_others<A>(w: Wiring, s: usize, a: A, id: u32)
    requires
        w.ok(),
        mute(w.nodes, id),
        s < w.homes.len(),
    ensures
        forall|j: int|
            0 <= j < owed_by_stream(w, s, a).len() ==> (#[trigger] owed_by_stream(
                w,
                s,
                a,
            )[j]).listener != id,
    decreases w.stream_height(s), 2nat, 0nat,
{
    assert(w.homes[s as int] < w.nodes.len());
    let n = w.homes[s as int] as int;
    let k = w.nodes[n].listeners.len() as int;
    lemma_edges_owe_others(w, n, k, a, id);
    assert(owed_by_stream(w, s, a) == owed_by_edges(w, n, k, a));
}

/// What a stream owes adds nothing for an observer that no edge notifies.
pub proof fn lemma_added_owed<A>(old: Seq<Delivery<A>>, w: Wiring, s: usize, a: A, id: u32)
    requires
        w.ok(),
        mute(w.nodes, id),
        s < w.homes.len(),
    ensures
        adds_none_for(old, old + owed_by_stream(w, s, a), id),
{
    lemma_stream_owes_others(w, s, a, id);
    let new = old + owed_by_stream(w, s, a);
    assert(new.take(old.len() as int) =~= old);
    assert forall|j: int| old.len() <= j < new.len() implies (#[trigger] new[j]).listener != id by {
        assert(new[j] == owed_by_stream(w, s, a)[j - old.len()]);
    }
}

/// New ranks leave an observer where it is.
pub proof fn lemma_reranked_keeps(nodes: Seq<NodeView>, ranks: Seq<u64>, node: int, id: u32)
    ensures
        mute(nodes, id) ==> mute(with_ranks(nodes, ranks), id),
        observer_at(nodes, node, id) ==> observer_at(with_ranks(nodes, ranks), node, id),
{
    let after = with_ranks(nodes, ranks);
    assert forall|n: int| 0 <= n < nodes.len() implies (#[trigger] after[n]).listeners
        == nodes[n].listeners by {}
    if mute(nodes, id) {
        assert forall|n: int, k: int|
            0 <= n < after.len() && 0 <= k < after[n].listeners.len() implies (
        #[trigger] after[n].listeners[k]).action != TransactionHandler::Notify(id) by {
            assert(nodes[n].listeners[k].action != TransactionHandler::Notify(id));
        }
    }
    if observer_at(nodes, node, id) {
        assert forall|n: int, k: int|
            0 <= n < after.len() && 0 <= k < after[n].listeners.len() && (
            #[trigger] after[n].listeners[k]).action == TransactionHandler::Notify(
                id,
            ) implies n == node by {
            assert(nodes[n].listeners[k].action == TransactionHandler::Notify(id));
        }
        assert forall|k: int|
            0 <= node < after.len() && 0 <= k < after[node].listeners.len() && (
            #[trigger] after[node].listeners[k]).id == id implies after[node].listeners[k].action is Notify by {
            assert(nodes[node].listeners[k].id == id);
        }
    }
}

/// An edge that is added with a new id and does not notify the observer
/// `id` leaves the observer where it is.
pub proof fn lemma_push_edge_keeps(
    nodes: Seq<NodeView>,
    at: int,
    target: Target,
    node: int,
    id: u32,
)
    requires
        0 <= at < nodes.len(),
        target.action != TransactionHandler::Notify(id),
        target.id != id,
    ensures
        mute(nodes, id) ==> mute(with_listener(nodes, at, target), id),
        observer_at(nodes, node, id) ==> observer_at(with_listener(nodes, at, target), node, id),
{
    let after = with_listener(nodes, at, target);
    assert forall|n: int, k: int|
        0 <= n < after.len() && 0 <= k < after[n].listeners.len() && !(n == at && k
            == nodes[at].listeners.len()) implies (#[trigger] after[n].listeners[k])
        == nodes[n].listeners[k] by {}
    if mute(nodes, id) {
        assert forall|n: int, k: int|
            0 <= n < after.len() && 0 <= k < after[n].listeners.len() implies (
        #[trigger] after[n].listeners[k]).action != TransactionHandler::Notify(id) by {
            if !(n == at && k == nodes[at].listeners.len()) {
                assert(nodes[n].listeners[k].action != TransactionHandler::Notify(id));
            }
        }
    }
    if observer_at(nodes, node, id) {
        assert forall|n: int, k: int|
            0 <= n < after.len() && 0 <= k < after[n].listeners.len() && (
            #[trigger] after[n].listeners[k]).action == TransactionHandler::Notify(
                id,
            ) implies n == node by {
            if !(n == at && k == nodes[at].listeners.len()) {
                assert(nodes[n].listeners[k].action == TransactionHandler::Notify(id));
            }
        }
        assert forall|k: int|
            0 <= node < after.len() && 0 <= k < after[node].listeners.len() && (
            #[trigger] after[node].listeners[k]).id == id implies after[node].listeners[k].action is Notify by {
            if !(node == at && k == nodes[at].listeners.len()) {
                assert(nodes[node].listeners[k].id == id);
            }
        }
    }
}

/// An edge that is left after edges were taken away was there before.
pub proof fn lemma_filtered_edge(nodes: Seq<NodeView>, at: int, gone: u32, n: int, k: int) -> (j:
    int)
    requires
        0 <= at < nodes.len(),
        0 <= n < nodes.len(),
        0 <= k < without_listener(nodes, at, gone)[n].listeners.len(),
    ensures
        0 <= j < nodes[n].listeners.len(),
        nodes[n].listeners[j] == without_listener(nodes, at, gone)[n].listeners[k],
{
    let after = without_listener(nodes, at, gone);
    let all = nodes[at].listeners;
    let keep = |t: Target| t.id != gone;
    if n == at {
        let t = all.filter(keep)[k];
        assert(all.filter(keep).contains(t));
        all.lemma_filter_contains_rev(keep, t);
        choose|j: int| 0 <= j < all.len() && all[j] == t
    } else {
        k
    }
}

/// Taking edges away leaves an observer where it is.
pub proof fn lemma_filter_edges_keeps(
    nodes: Seq<NodeView>,
    at: int,
    gone: u32,
    node: int,
    id: u32,
)
    requires
        0 <= at < nodes.len(),
    ensures
        mute(nodes, id) ==> mute(without_listener(nodes, at, gone), id),
        observer_at(nodes, node, id) ==> observer_at(without_listener(nodes, at, gone), node, id),
{
    let after = without_listener(nodes, at, gone);
    let all = nodes[at].listeners;
    let keep = |t: Target| t.id != gone;
    if mute(nodes, id) {
        assert forall|n: int, k: int|
            0 <= n < after.len() && 0 <= k < after[n].listeners.len() implies (
        #[trigger] after[n].listeners[k]).action != TransactionHandler::Notify(id) by {
            let j = lemma_filtered_edge(nodes, at, gone, n, k);
            assert(nodes[n].listeners[j].action != TransactionHandler::Notify(id));
        }
    }
    if observer_at(nodes, node, id) {
        assert forall|n: int, k: int|
            0 <= n < after.len() && 0 <= k < after[n].listeners.len() && (
            #[trigger] after[n].listeners[k]).action == TransactionHandler::Notify(
                id,
            ) implies n == node by {
            let j = lemma_filtered_edge(nodes, at, gone, n, k);
            assert(nodes[n].listeners[j].action == TransactionHandler::Notify(id));
        }
        assert forall|k: int|
            0 <= node < after.len() && 0 <= k < after[node].listeners.len() && (
            #[trigger] after[node].listeners[k]).id == id implies after[node].listeners[k].action is Notify by {
            let j = lemma_filtered_edge(nodes, at, gone, node, k);
            assert(nodes[node].listeners[j].id == id);
        }
    }
}

/// A new node without listeners leaves an observer where it is.
pub proof fn lemma_push_node_keeps(nodes: Seq<NodeView>, new: NodeView, node: int, id: u32)
    requires
        new.listeners.len() == 0,
        0 <= node < nodes.len(),
    ensures
        mute(nodes, id) ==> mute(nodes.push(new), id),
        observer_at(nodes, node, id) ==> observer_at(nodes.push(new), node, id),
{
    let after = nodes.push(new);
    assert forall|n: int, k: int|
        0 <= n < after.len() && 0 <= k < after[n].listeners.len() implies (
    #[trigger] after[n].listeners[k]) == nodes[n].listeners[k] && n < nodes.len() by {}
    if mute(nodes, id) {
        assert forall|n: int, k: int|
            0 <= n < after.len() && 0 <= k < after[n].listeners.len() implies (
        #[trigger] after[n].listeners[k]).action != TransactionHandler::Notify(id) by {
            assert(nodes[n].listeners[k].action != TransactionHandler::Notify(id));
        }
    }
    if observer_at(nodes, node, id) {
        assert forall|n: int, k: int|
            0 <= n < after.len() && 0 <= k < after[n].listeners.len() && (
            #[trigger] after[n].listeners[k]).action == TransactionHandler::Notify(
                id,
            ) implies n == node by {
            assert(nodes[n].listeners[k].action == TransactionHandler::Notify(id));
        }
        assert forall|k: int|
            0 <= node < after.len() && 0 <= k < after[node].listeners.len() && (
            #[trigger] after[node].listeners[k]).id == id implies after[node].listeners[k].action is Notify by {
            assert(nodes[node].listeners[k].id == id);
        }
    }
}

/// Deliveries to one observer are none to another.
pub proof fn lemma_added_for_other<A>(old: Seq<Delivery<A>>, other: u32, values: Seq<A>, id: u32)
    requires
        other != id,
    ensures
        adds_none_for(
            old,
            old + values.map_values(|a: A| Delivery { listener: other, value: a }),
            id,
        ),
{
    let new = old + values.map_values(|a: A| Delivery { listener: other, value: a });
    assert(new.take(old.len() as int) =~= old);
}

impl<A, F: Fn(&A, &A) -> A> State<A, F> {
    /// The operation `step` may be asked of this world.
    pub open spec fn allows(self, step: Step<A, F>) -> bool {
        match step {
            Step::Begin => self.depth < u32::MAX,
            Step::End => self.depth > 0 && (self.depth > 1 || self.all_bound()),
            Step::Close => self.depth > 0 && self.all_bound(),
            Step::Prioritized(node, action) => self.depth > 0 && node < self.nodes.len()
                && self.action_ok(action),
            Step::Last(action) => self.depth > 0 && self.last_ok(action),
            Step::Post(_) => self.depth > 0,
            Step::Coalesce(_, _) => self.depth > 0,
            Step::UpdateCell(_, _) => self.depth > 0,
            Step::Send(_, _) => self.depth > 0,
            Step::Flush(_) => self.depth > 0,
            Step::SinkSend(_, _) => self.depth < u32::MAX,
            Step::NewStream => self.next_id < u32::MAX && self.streams.len() < usize::MAX
                && self.nodes.len() < usize::MAX,
            Step::NewCoalescer(f, out) => self.coalescers.len() < usize::MAX && out
                < self.streams.len() && (f matches Some(g) ==> fold_is_total(g)
                && fold_is_function(g)),
            Step::NewCell(_, updates, feed) => self.next_id < u32::MAX && self.cells.len()
                < usize::MAX && updates < self.streams.len() && feed < self.coalescers.len()
                && self.coalescers[feed as int].out == updates
                && self.coalescers[feed as int].f is None,
            Step::Listen(s) => s < self.streams.len() ==> self.next_id < u32::MAX,
            Step::Observe(cell) => cell < self.cells.len() ==> self.next_id < u32::MAX,
            Step::Unlisten(_, _) => true,
            Step::NewLoop => self.depth > 0 && self.next_id < u32::MAX && self.streams.len()
                < usize::MAX && self.nodes.len() < usize::MAX && self.loops.len() < usize::MAX,
            Step::BindLoop(l, _) => self.depth > 0 && self.next_id < u32::MAX && (l
                < self.loops.len() ==> !self.loops[l as int].bound),
            Step::Poison => self.depth > 0,
        }
    }

    /// The world after the operation `step`.
    pub open spec fn after(self, step: Step<A, F>) -> Self {
        match step {
            Step::Begin => self.entered(),
            Step::End => self.left(),
            Step::Close => self.closed(),
            Step::Prioritized(node, action) => self.with_prioritized(node as int, action),
            Step::Last(action) => self.with_last(action),
            Step::Post(token) => self.with_post(token),
            Step::Coalesce(c, a) => self.coalesced(c, a),
            Step::UpdateCell(cell, a) => self.updated(cell, a),
            Step::Send(s, a) => self.sent(s, a),
            Step::Flush(c) => self.flushed(c),
            Step::SinkSend(c, a) => self.entered().coalesced(c, a).left(),
            Step::NewStream => self.with_stream(),
            Step::NewCoalescer(f, out) => self.with_coalescer(f, out),
            Step::NewCell(initial, updates, feed) => self.with_cell(initial, updates, feed),
            Step::Listen(s) => self.listened(s),
            Step::Observe(cell) => self.observed(cell),
            Step::Unlisten(s, id) => self.unlistened(s, id),
            Step::NewLoop => self.with_loop(),
            Step::BindLoop(l, s) => self.looped(l, s),
            Step::Poison => self.poisoned(),
        }
    }

    /// Each of the operations `steps` may be asked of the world that the
    /// ones before it leave.
    pub open spec fn allows_all(self, steps: Seq<Step<A, F>>) -> bool
        decreases steps.len(),
    {
        if steps.len() == 0 {
            true
        } else {
            self.allows_all(steps.drop_last()) && self.after_all(steps.drop_last()).allows(
                steps.last(),
            )
        }
    }

    /// The world after the operations `steps`, first one first.
    pub open spec fn after_all(self, steps: Seq<Step<A, F>>) -> Self
        decreases steps.len(),
    {
        if steps.len() == 0 {
            self
        } else {
            self.after_all(steps.drop_last()).after(steps.last())
        }
    }

    /// `t` has every stream and node of `self`, each stream on the node it
    /// was on, and has handed out no id twice.
    pub open spec fn grows_into(self, t: Self) -> bool {
        &&& t.next_id >= self.next_id
        &&& t.nodes.len() >= self.nodes.len()
        &&& t.streams.len() >= self.streams.len()
        &&& forall|s: int|
            0 <= s < self.streams.len() ==> (#[trigger] t.streams[s]).node == self.streams[s].node
    }

    /// Growing into is transitive.
    pub proof fn lemma_grows_trans(self, t: Self, u: Self)
        requires
            self.grows_into(t),
            t.grows_into(u),
        ensures
            self.grows_into(u),
    {
        assert forall|s: int| 0 <= s < self.streams.len() implies (#[trigger] u.streams[s]).node
            == self.streams[s].node by {
            assert(t.streams[s].node == self.streams[s].node);
        }
    }

    /// A stream that fires owes nothing to an observer that no edge
    /// notifies.
    pub proof fn lemma_sent_quiet(self, s: usize, a: A, id: u32)
        requires
            self.inv(),
            self.depth > 0,
            s < self.streams.len(),
            mute(self.nodes, id),
        ensures
            adds_none_for(self.deliveries, self.sent(s, a).deliveries, id),
    {
        self.lemma_sent_owes(s, a);
        lemma_added_owed(self.deliveries, self.wiring(), s, a, id);
    }

    /// A flush owes nothing to an observer that no edge notifies.
    pub proof fn lemma_flushed_quiet(self, c: usize, id: u32)
        requires
            self.inv(),
            self.depth > 0,
            c < self.coalescers.len(),
            mute(self.nodes, id),
        ensures
            adds_none_for(self.deliveries, self.flushed(c).deliveries, id),
    {
        self.lemma_flushed(c);
        let data = self.coalescers[c as int];
        lemma_begins_self(self.deliveries);
        match data.accum_op {
            Some(acc) => {
                assert(data.out < self.streams.len());
                self.unloaded(c).lemma_sent_quiet(data.out, acc, id);
            },
            None => {},
        }
    }

    /// Draining the priority queue owes nothing to an observer that no edge
    /// notifies.
    pub proof fn lemma_drained_quiet(self, id: u32)
        requires
            self.inv(),
            self.depth > 0,
            mute(self.nodes, id),
        ensures
            adds_none_for(self.deliveries, self.drained().deliveries, id),
        decreases self.tx.prioritized.len(),
    {
        lemma_begins_self(self.deliveries);
        if self.tx.prioritized.len() > 0 {
            self.lemma_stepped();
            let c = self.next_flush();
            let p = self.popped();
            let next = self.stepped();
            assert(adds_none_for(self.deliveries, next.deliveries, id)) by {
                match self.coalescers[c as int].accum_op {
                    Some(acc) => {
                        p.unloaded(c).lemma_sent_quiet(self.coalescers[c as int].out, acc, id);
                    },
                    None => {},
                }
            }
            next.lemma_drained_quiet(id);
            lemma_adds_none_trans(self.deliveries, next.deliveries, next.drained().deliveries, id);
        }
    }

    /// Every operation keeps the world in order, and keeps every stream,
    /// node and id that there is.
    pub proof fn lemma_step(self, step: Step<A, F>)
        requires
            self.inv(),
            self.allows(step),
        ensures
            self.after(step).inv(),
            self.grows_into(self.after(step)),
    {
        let r = self.after(step);
        match step {
            Step::Begin => {
                self.lemma_inv_frame(r);
            },
            Step::End => {
                if self.depth > 1 {
                    self.lemma_inv_frame(r);
                } else {
                    self.lemma_closed();
                    self.lemma_drained();
                    self.lemma_closed_grows();
                }
            },
            Step::Close => {
                self.lemma_closed();
                self.lemma_closed_grows();
            },
            Step::Prioritized(node, action) => {
                self.lemma_with_prioritized(node as int, action);
            },
            Step::Last(action) => {
                self.lemma_with_last(action);
            },
            Step::Post(token) => {
                self.lemma_inv_frame(r);
            },
            Step::Coalesce(c, a) => {
                if c < self.coalescers.len() {
                    self.lemma_coalesced(c, a);
                }
            },
            Step::UpdateCell(cell, a) => {
                if cell < self.cells.len() {
                    self.lemma_invoked(TransactionHandler::Update(cell), a);
                }
            },
            Step::Send(s, a) => {
                if s < self.streams.len() {
                    self.lemma_sent(s, a);
                }
            },
            Step::Flush(c) => {
                if c < self.coalescers.len() {
                    self.lemma_flushed(c);
                    match self.coalescers[c as int].accum_op {
                        Some(acc) => {
                            assert(self.coalescers[c as int].out < self.streams.len());
                            self.unloaded(c).lemma_sent(self.coalescers[c as int].out, acc);
                        },
                        None => {},
                    }
                }
            },
            Step::SinkSend(c, a) => {
                let e = self.entered();
                self.lemma_inv_frame(e);
                if c < e.coalescers.len() {
                    e.lemma_coalesced(c, a);
                }
                let m = e.coalesced(c, a);
                if m.depth > 1 {
                    m.lemma_inv_frame(r);
                } else {
                    m.lemma_closed();
                    m.lemma_closed_grows();
                }
            },
            Step::NewStream => {
                self.lemma_with_stream();
            },
            Step::NewCoalescer(f, out) => {
                self.lemma_with_coalescer(f, out);
            },
            Step::NewCell(initial, updates, feed) => {
                self.lemma_with_cell(initial, updates, feed);
            },
            Step::Listen(s) => {
                if s < self.streams.len() {
                    let linked = self.with_target(s, self.next_listener());
                    self.lemma_with_target(s, self.next_listener());
                    linked.lemma_inv_frame(r);
                }
            },
            Step::Observe(cell) => {
                if cell < self.cells.len() {
                    assert(self.cell_ok(cell as int));
                    let s = self.cells[cell as int].updates;
                    let linked = self.with_target(s, self.next_listener());
                    self.lemma_with_target(s, self.next_listener());
                    linked.lemma_inv_frame(r);
                }
            },
            Step::Unlisten(s, id) => {
                if s < self.streams.len() {
                    self.lemma_unlistened(s, id);
                }
            },
            Step::NewLoop => {
                self.lemma_with_loop();
            },
            Step::Poison => {
                self.lemma_poisoned();
            },
            Step::BindLoop(l, s) => {
                if l < self.loops.len() && s < self.streams.len() {
                    self.lemma_looped(l, s);
                    assert(self.linked(l, s).len() == self.nodes.len()) by {
                        assert(with_ranks(
                            self.nodes,
                            link_sweep(
                                self.nodes,
                                self.node_of(s),
                                self.loop_edge(l).node as int,
                            ).ranks,
                        ).len() == self.nodes.len());
                    }
                }
            },
        }
    }

    /// Closing a transaction keeps every stream on its node and every node as
    /// it is.
    pub proof fn lemma_closed_grows(self)
        requires
            self.inv(),
            self.depth > 0,
            self.all_bound(),
        ensures
            self.grows_into(self.closed()),
            self.closed().nodes == self.nodes,
    {
        self.lemma_closed();
        self.lemma_drained();
        let d = self.drained();
        d.lemma_tidied_all(d.tx.last);
        let t = d.tidied_all(d.tx.last);
        assert forall|s: int| 0 <= s < self.streams.len() implies (
        #[trigger] self.closed().streams[s]).node == self.streams[s].node by {
            let u = s as usize;
            assert(t.streams[u as int].node == d.streams[u as int].node);
            assert(d.streams[s].node == self.streams[s].node);
        }
    }

    /// What was added by an operation to the nodes leaves an observer with
    /// an id handed out earlier where it is; and while no edge notifies
    /// it, it is owed nothing new.
    pub proof fn lemma_step_keeps_observer(self, step: Step<A, F>, node: int, id: u32)
        requires
            self.inv(),
            self.allows(step),
            id < self.next_id,
            0 <= node < self.nodes.len(),
        ensures
            observer_at(self.nodes, node, id) ==> observer_at(self.after(step).nodes, node, id),
            mute(self.nodes, id) ==> mute(self.after(step).nodes, id) && adds_none_for(
                self.deliveries,
                self.after(step).deliveries,
                id,
            ),
    {
        let r = self.after(step);
        lemma_begins_self(self.deliveries);
        match step {
            Step::Begin => {},
            Step::End => {
                if self.depth <= 1 {
                    self.lemma_closed();
                    if mute(self.nodes, id) {
                        self.lemma_drained_quiet(id);
                    }
                }
            },
            Step::Close => {
                self.lemma_closed();
                if mute(self.nodes, id) {
                    self.lemma_drained_quiet(id);
                }
            },
            Step::Prioritized(n, action) => {},
            Step::Last(action) => {},
            Step::Post(token) => {},
            Step::Coalesce(c, a) => {},
            Step::UpdateCell(cell, a) => {},
            Step::Send(s, a) => {
                if s < self.streams.len() {
                    self.lemma_sent(s, a);
                    if mute(self.nodes, id) {
                        self.lemma_sent_quiet(s, a, id);
                    }
                }
            },
            Step::Flush(c) => {
                if c < self.coalescers.len() {
                    self.lemma_flushed(c);
                    match self.coalescers[c as int].accum_op {
                        Some(acc) => {
                            assert(self.coalescers[c as int].out < self.streams.len());
                            self.unloaded(c).lemma_sent(self.coalescers[c as int].out, acc);
                        },
                        None => {},
                    }
                    if mute(self.nodes, id) {
                        self.lemma_flushed_quiet(c, id);
                    }
                }
            },
            Step::SinkSend(c, a) => {
                let e = self.entered();
                self.lemma_inv_frame(e);
                if c < e.coalescers.len() {
                    e.lemma_coalesced(c, a);
                }
                let m = e.coalesced(c, a);
                if m.depth <= 1 {
                    m.lemma_closed();
                    if mute(self.nodes, id) {
                        m.lemma_drained_quiet(id);
                    }
                }
            },
            Step::NewStream => {
                lemma_push_node_keeps(
                    self.nodes,
                    NodeView { id: self.next_id, rank: 0, listeners: Seq::empty() },
                    node,
                    id,
                );
            },
            Step::NewCoalescer(f, out) => {},
            Step::NewCell(initial, updates, feed) => {
                assert(0 < self.streams[updates as int].node < self.nodes.len());
                lemma_push_edge_keeps(
                    self.nodes,
                    self.node_of(updates),
                    Target {
                        id: self.next_id,
                        node: 0,
                        action: TransactionHandler::Update(self.cells.len() as usize),
                    },
                    node,
                    id,
                );
            },
            Step::Listen(s) => {
                if s < self.streams.len() {
                    assert(0 < self.streams[s as int].node < self.nodes.len());
                    lemma_push_edge_keeps(
                        self.nodes,
                        self.node_of(s),
                        self.next_listener(),
                        node,
                        id,
                    );
                    lemma_added_for_other(
                        self.deliveries,
                        self.next_id,
                        self.streams[s as int].firings,
                        id,
                    );
                }
            },
            Step::Observe(cell) => {
                if cell < self.cells.len() {
                    assert(self.cell_ok(cell as int));
                    let s = self.cells[cell as int].updates;
                    assert(0 < self.streams[s as int].node < self.nodes.len());
                    lemma_push_edge_keeps(
                        self.nodes,
                        self.node_of(s),
                        self.next_listener(),
                        node,
                        id,
                    );
                    lemma_added_for_other(
                        self.deliveries,
                        self.next_id,
                        seq![self.cells[cell as int].value],
                        id,
                    );
                }
            },
            Step::Unlisten(s, gone) => {
                if s < self.streams.len() {
                    assert(0 < self.streams[s as int].node < self.nodes.len());
                    lemma_filter_edges_keeps(self.nodes, self.node_of(s), gone, node, id);
                }
            },
            Step::NewLoop => {
                lemma_push_node_keeps(
                    self.nodes,
                    NodeView { id: self.next_id, rank: 0, listeners: Seq::empty() },
                    node,
                    id,
                );
            },
            Step::Poison => {},
            Step::BindLoop(l, s) => {
                if self.has_room(l, s) && self.link_holds(l, s) {
                    let edge = self.loop_edge(l);
                    let source = self.node_of(s);
                    let ranks = link_sweep(self.nodes, source, edge.node as int).ranks;
                    assert(0 < self.streams[s as int].node < self.nodes.len());
                    lemma_reranked_keeps(self.nodes, ranks, node, id);
                    lemma_push_edge_keeps(with_ranks(self.nodes, ranks), source, edge, node, id);
                }
            },
        }
    }

    /// Any sequence of operations keeps the world in order.
    pub proof fn lemma_history(self, steps: Seq<Step<A, F>>)
        requires
            self.inv(),
            self.allows_all(steps),
        ensures
            self.after_all(steps).inv(),
            self.grows_into(self.after_all(steps)),
        decreases steps.len(),
    {
        if steps.len() > 0 {
            self.lemma_history(steps.drop_last());
            let mid = self.after_all(steps.drop_last());
            mid.lemma_step(steps.last());
            self.lemma_grows_trans(mid, mid.after(steps.last()));
        }
    }

    /// Whatever happens, an observer stays attached where it is or
    /// nowhere, and an observer that no edge notifies is owed nothing new.
    pub proof fn lemma_history_keeps_observer(self, steps: Seq<Step<A, F>>, node: int, id: u32)
        requires
            self.inv(),
            self.allows_all(steps),
            id < self.next_id,
            0 <= node < self.nodes.len(),
        ensures
            observer_at(self.nodes, node, id) ==> observer_at(
                self.after_all(steps).nodes,
                node,
                id,
            ),
            mute(self.nodes, id) ==> mute(self.after_all(steps).nodes, id) && adds_none_for(
                self.deliveries,
                self.after_all(steps).deliveries,
                id,
            ),
        decreases steps.len(),
    {
        lemma_begins_self(self.deliveries);
        if steps.len() > 0 {
            self.lemma_history(steps.drop_last());
            self.lemma_history_keeps_observer(steps.drop_last(), node, id);
            let mid = self.after_all(steps.drop_last());
            mid.lemma_step_keeps_observer(steps.last(), node, id);
            if mute(self.nodes, id) {
                lemma_adds_none_trans(
                    self.deliveries,
                    mid.deliveries,
                    mid.after(steps.last()).deliveries,
                    id,
                );
            }
        }
    }

    /// The observer that `listen` attaches to stream `s` is attached
    /// there and nowhere else.
    pub proof fn lemma_listened_attaches(self, s: usize)
        requires
            self.inv(),
            s < self.streams.len(),
            self.next_id < u32::MAX,
        ensures
            observer_at(self.listened(s).nodes, self.node_of(s), self.next_id),
    {
        let r = self.listened(s);
        let node = self.node_of(s);
        let id = self.next_id;
        assert(0 < self.streams[s as int].node < self.nodes.len());
        assert forall|n: int, k: int|
            0 <= n < r.nodes.len() && 0 <= k < r.nodes[n].listeners.len() && !(n == node && k
                == self.nodes[node].listeners.len()) implies (#[trigger] r.nodes[n].listeners[k])
            == self.nodes[n].listeners[k] && r.nodes[n].listeners[k].id < id by {}
    }

    /// Detaching an observer takes away every edge that notifies it, and
    /// takes back nothing that it is owed.
    pub proof fn lemma_unlistened_mutes(self, s: usize, id: u32)
        requires
            self.inv(),
            s < self.streams.len(),
            observer_at(self.nodes, self.node_of(s), id),
        ensures
            mute(self.unlistened(s, id).nodes, id),
            self.unlistened(s, id).deliveries == self.deliveries,
    {
        let node = self.node_of(s);
        assert(0 < self.streams[s as int].node < self.nodes.len());
        assert(self.detachable(s, id));
        let r = self.without_target(s, id);
        let all = self.nodes[node].listeners;
        let keep = |t: Target| t.id != id;
        self.lemma_unlistened(s, id);
        assert forall|n: int, k: int|
            0 <= n < r.nodes.len() && 0 <= k < r.nodes[n].listeners.len() implies (
        #[trigger] r.nodes[n].listeners[k]).action != TransactionHandler::Notify(id) by {
            if n == node {
                all.lemma_filter_pred(keep, k);
                assert(r.nodes[n].listeners[k].id != id);
            } else {
                assert(r.nodes[n].listeners[k] == self.nodes[n].listeners[k]);
            }
        }
    }

    /// Detaching an observer prevents it from firing ever after, and does
    /// not retract what it was owed before.
    ///
    /// Let an observer be attached to stream `s`, let the operations
    /// `before` follow, then let it be detached, and let the operations
    /// `later` follow. Then the detaching leaves what observers are owed as
    /// it is, and whatever is owed after it is owed to other observers.
    pub proof fn lemma_detached_observer_stays_silent(
        self,
        s: usize,
        before: Seq<Step<A, F>>,
        later: Seq<Step<A, F>>,
    )
        requires
            self.inv(),
            s < self.streams.len(),
            self.next_id < u32::MAX,
            self.listened(s).allows_all(before),
            self.listened(s).after_all(before).unlistened(s, self.next_id).allows_all(later),
        ensures
            ({
                let attached = self.listened(s).after_all(before);
                let detached = attached.unlistened(s, self.next_id);
                &&& detached.deliveries == attached.deliveries
                &&& adds_none_for(
                    attached.deliveries,
                    detached.after_all(later).deliveries,
                    self.next_id,
                )
            }),
    {
        let id = self.next_id;
        let node = self.node_of(s);
        let first = self.listened(s);
        assert(0 < self.streams[s as int].node < self.nodes.len());
        self.lemma_step(Step::Listen(s));
        self.lemma_listened_attaches(s);
        first.lemma_history(before);
        first.lemma_history_keeps_observer(before, node, id);
        let attached = first.after_all(before);
        assert(attached.streams[s as int].node == first.streams[s as int].node);
        assert(attached.node_of(s) == node);
        attached.lemma_unlistened_mutes(s, id);
        attached.lemma_unlistened(s, id);
        let detached = attached.unlistened(s, id);
        detached.lemma_history_keeps_observer(later, node, id);
    }
}

} // verus!
