//! How a transaction closes: the priority queue drains in rank order, the
//! last actions run, and the post actions fall due.

use vstd::prelude::*;
use crate::handler::{Action, LastAction, TransactionHandler};
use crate::model::{
    begins, has_flush, homes_of, lemma_begins_contains, lemma_begins_push, lemma_begins_self,
    lemma_begins_trans, lemma_has_flush_push, lemma_has_flush_remove, CellData,
    CoalesceHandlerData, Delivery, State, StreamView, Wiring,
};
use crate::node::Target;
use crate::transaction::{first_min, lemma_first_min, Entry, TransactionView};

verus! {

/// A sequence with an element added holds that element and what it held
/// before.
pub proof fn lemma_push_contains<T>(s: Seq<T>, x: T, y: T)
    requires
        s.contains(y) || x == y,
    ensures
        s.push(x).contains(y),
{
    if s.contains(y) {
        let j = choose|j: int| 0 <= j < s.len() && s[j] == y;
        assert(s.push(x)[j] == y);
    } else {
        assert(s.push(x)[s.len() as int] == y);
    }
}

impl<A, F: Fn(&A, &A) -> A> State<A, F> {
    /// A state that differs only in what no rule speaks of is in order
    /// too: the depth, as long as it stays above zero or the queues are
    /// empty, the next id, the post queue, and what is owed to the outside.
    pub proof fn lemma_inv_frame(self, t: Self)
        requires
            self.inv(),
            t.nodes == self.nodes,
            t.next_id == self.next_id,
            t.streams == self.streams,
            t.cells == self.cells,
            t.coalescers == self.coalescers,
            t.loops == self.loops,
            t.tx.prioritized == self.tx.prioritized,
            t.tx.last == self.tx.last,
            t.depth > 0 || (t.tx.prioritized.len() == 0 && t.tx.last.len() == 0 && t.tx.post.len()
                == 0 && self.depth == 0),
        ensures
            t.inv(),
    {
        assert forall|n: int, k: int|
            0 <= n < t.nodes.len() && 0 <= k < t.nodes[n].listeners.len() implies t.handler_ok(
            (#[trigger] t.nodes[n].listeners[k]).action,
        ) by {
            assert(self.handler_ok(self.nodes[n].listeners[k].action));
        }
        assert forall|j: int| 0 <= j < t.tx.prioritized.len() implies t.action_ok(
            (#[trigger] t.tx.prioritized[j]).action,
        ) by {
            assert(self.action_ok(self.tx.prioritized[j].action));
        }
        assert forall|j: int| 0 <= j < t.tx.last.len() implies t.last_ok(#[trigger] t.tx.last[j]) by {
            assert(self.last_ok(self.tx.last[j]));
        }
        self.lemma_cells_stay_wired(t);
        assert(t.wf());
        assert(t.tidy());
    }

    /// `t` differs from `self` by nothing but what propagation can change:
    /// on top of what handlers do, streams have fired and accumulators
    /// were emptied.
    pub open spec fn flows_into(self, t: Self) -> bool {
        &&& t.next_id == self.next_id
        &&& t.nodes == self.nodes
        &&& t.loops == self.loops
        &&& t.depth == self.depth
        &&& t.tx.post == self.tx.post
        &&& t.posted == self.posted
        &&& t.streams.len() == self.streams.len()
        &&& forall|s: int|
            0 <= s < self.streams.len() ==> (#[trigger] t.streams[s]).node == self.streams[s].node
        &&& t.coalescers.len() == self.coalescers.len()
        &&& forall|c: int|
            0 <= c < self.coalescers.len() ==> (#[trigger] t.coalescers[c]).out
                == self.coalescers[c].out && t.coalescers[c].f == self.coalescers[c].f
        &&& t.cells.len() == self.cells.len()
        &&& forall|i: int|
            0 <= i < self.cells.len() ==> (#[trigger] t.cells[i]).updates == self.cells[i].updates
                && t.cells[i].value == self.cells[i].value && t.cells[i].feed
                == self.cells[i].feed
        &&& begins(self.tx.last, t.tx.last)
        &&& begins(self.deliveries, t.deliveries)
    }

    /// Flowing into is transitive.
    pub proof fn lemma_flows_into_trans(self, t: Self, u: Self)
        requires
            self.flows_into(t),
            t.flows_into(u),
        ensures
            self.flows_into(u),
    {
        lemma_begins_trans(self.tx.last, t.tx.last, u.tx.last);
        lemma_begins_trans(self.deliveries, t.deliveries, u.deliveries);
        assert forall|s: int| 0 <= s < self.streams.len() implies (#[trigger] u.streams[s]).node
            == self.streams[s].node by {
            assert(t.streams[s].node == self.streams[s].node);
        }
        assert forall|c: int| 0 <= c < self.coalescers.len() implies (
        #[trigger] u.coalescers[c]).out == self.coalescers[c].out && u.coalescers[c].f
            == self.coalescers[c].f by {
            assert(t.coalescers[c].out == self.coalescers[c].out);
        }
        assert forall|i: int| 0 <= i < self.cells.len() implies (#[trigger] u.cells[i]).updates
            == self.cells[i].updates && u.cells[i].value == self.cells[i].value
            && u.cells[i].feed == self.cells[i].feed by {
            assert(t.cells[i].updates == self.cells[i].updates);
        }
    }

    /// `t` differs from `self` by nothing but what the handlers of edges
    /// can do: streams have fired, deliveries and last actions were added
    /// at the end, and cells got a pending value. The priority queue and
    /// the coalescers are as they were.
    pub open spec fn fires_into(self, t: Self) -> bool {
        &&& self.flows_into(t)
        &&& t.tx.prioritized == self.tx.prioritized
        &&& t.coalescers == self.coalescers
    }

    /// Firing into is transitive.
    pub proof fn lemma_fires_into_trans(self, t: Self, u: Self)
        requires
            self.fires_into(t),
            t.fires_into(u),
        ensures
            self.fires_into(u),
    {
        self.lemma_flows_into_trans(t, u);
    }

    /// A state fires into itself.
    pub proof fn lemma_fires_into_self(self)
        ensures
            self.fires_into(self),
    {
        lemma_begins_self(self.tx.last);
        lemma_begins_self(self.deliveries);
    }

    /// What propagation follows stays as it is while values flow.
    pub proof fn lemma_wiring_kept(self, t: Self)
        requires
            self.flows_into(t),
        ensures
            t.wiring() == self.wiring(),
    {
        assert(homes_of(t.streams) =~= homes_of(self.streams));
    }

    /// Invoking a handler that notifies an observer or updates a cell
    /// keeps the world in order.
    pub proof fn lemma_plainly_invoked(self, h: TransactionHandler, a: A)
        requires
            self.inv(),
            self.depth > 0,
            self.handler_ok(h),
            !(h is Forward),
        ensures
            self.invoked(h, a).inv(),
            self.fires_into(self.invoked(h, a)),
            forall|w: Wiring| self.invoked_in(w, h, a) == self.invoked(h, a),
    {
        let r = self.invoked(h, a);
        self.lemma_cells_stay_wired(r);
        lemma_begins_self(self.tx.last);
        lemma_begins_self(self.deliveries);
        lemma_begins_push(self.tx.last, self.tx.last, LastAction::Commit(0));
        match h {
            TransactionHandler::Notify(listener) => {
                lemma_begins_push(
                    self.deliveries,
                    self.deliveries,
                    Delivery { listener, value: a },
                );
                assert(r.tx == self.tx);
                assert(r.cells == self.cells);
            },
            TransactionHandler::Coalesce(c) => {},
            TransactionHandler::Forward(t) => {},
            TransactionHandler::Update(cell) => {
                let data = self.cells[cell as int];
                lemma_begins_push(self.tx.last, self.tx.last, LastAction::Commit(cell));
                assert(r.deliveries == self.deliveries);
                assert(r.streams == self.streams);
                assert(r.tx.prioritized == self.tx.prioritized);
                assert forall|j: int| 0 <= j < r.tx.last.len() implies r.last_ok(
                    #[trigger] r.tx.last[j],
                ) by {
                    if j < self.tx.last.len() {
                        assert(r.tx.last[j] == self.tx.last[j]);
                        assert(self.last_ok(self.tx.last[j]));
                    }
                }
                assert forall|s: usize|
                    s < r.streams.len() && (#[trigger] r.streams[s as int]).firings.len()
                        > 0 implies r.tx.last.contains(LastAction::ClearFirings(s)) by {
                    assert(self.tx.last.contains(LastAction::ClearFirings(s)));
                    lemma_begins_contains(self.tx.last, r.tx.last, LastAction::ClearFirings(s));
                }
                assert forall|i: usize|
                    i < r.cells.len() && (#[trigger] r.cells[i as int]).next is Some implies r.tx.last.contains(
                    LastAction::Commit(i),
                ) by {
                    if i == cell {
                        if data.next is None {
                            lemma_push_contains(
                                self.tx.last,
                                LastAction::Commit(cell),
                                LastAction::Commit(cell),
                            );
                        } else {
                            assert(self.cells[i as int].next is Some);
                        }
                    } else {
                        assert(self.cells[i as int].next is Some);
                        lemma_begins_contains(self.tx.last, r.tx.last, LastAction::Commit(i));
                    }
                }
            },
        }
    }

    /// A stream that takes note of a firing keeps the world in order.
    pub proof fn lemma_noted(self, s: usize, a: A)
        requires
            self.inv(),
            self.depth > 0,
            s < self.streams.len(),
        ensures
            self.noted(s, a).inv(),
            self.fires_into(self.noted(s, a)),
            self.noted(s, a).deliveries == self.deliveries,
            self.noted(s, a).cells == self.cells,
    {
        let stream = self.streams[s as int];
        let queued = self.noted(s, a);
        let clear = LastAction::ClearFirings(s);
        self.lemma_cells_stay_wired(queued);
        lemma_begins_self(self.tx.last);
        lemma_begins_self(self.deliveries);
        lemma_begins_push(self.tx.last, self.tx.last, clear);
        assert(begins(self.tx.last, queued.tx.last));
        assert(homes_of(queued.streams) =~= homes_of(self.streams));
        assert forall|j: int| 0 <= j < queued.tx.last.len() implies queued.last_ok(
            #[trigger] queued.tx.last[j],
        ) by {
            if j < self.tx.last.len() {
                assert(queued.tx.last[j] == self.tx.last[j]);
                assert(self.last_ok(self.tx.last[j]));
            }
        }
        assert forall|t: usize|
            t < queued.streams.len() && (#[trigger] queued.streams[t as int]).firings.len()
                > 0 implies queued.tx.last.contains(LastAction::ClearFirings(t)) by {
            if t == s {
                if stream.firings.len() == 0 {
                    lemma_push_contains(self.tx.last, clear, clear);
                } else {
                    assert(self.streams[s as int].firings.len() > 0);
                }
            } else {
                assert(self.streams[t as int].firings.len() > 0);
                lemma_begins_contains(self.tx.last, queued.tx.last, LastAction::ClearFirings(t));
            }
        }
        assert forall|i: usize|
            i < queued.cells.len() && (#[trigger] queued.cells[i as int]).next is Some implies queued.tx.last.contains(
            LastAction::Commit(i),
        ) by {
            assert(self.cells[i as int].next is Some);
            lemma_begins_contains(self.tx.last, queued.tx.last, LastAction::Commit(i));
        }
        assert forall|t: int| 0 <= t < queued.streams.len() implies 0 < (
        #[trigger] queued.streams[t]).node < queued.nodes.len()
            && queued.nodes[queued.streams[t].node as int].rank < u64::MAX by {
            assert(0 < self.streams[t].node < self.nodes.len());
        }
        assert forall|n: int, k: int|
            0 <= n < queued.nodes.len() && 0 <= k < queued.nodes[n].listeners.len() implies queued.handler_ok(
            (#[trigger] queued.nodes[n].listeners[k]).action,
        ) by {
            assert(self.handler_ok(self.nodes[n].listeners[k].action));
        }
    }

    /// A stream that fires keeps the world in order, and leaves the
    /// priority queue and the coalescers as they are.
    pub proof fn lemma_sent(self, s: usize, a: A)
        requires
            self.inv(),
            self.depth > 0,
            s < self.streams.len(),
        ensures
            self.sent(s, a).inv(),
            self.fires_into(self.sent(s, a)),
            self.flows_into(self.sent(s, a)),
            self.sent(s, a).tx.prioritized == self.tx.prioritized,
            self.sent(s, a).coalescers == self.coalescers,
            self.sent(s, a) == self.noted(s, a).fired(self.node_of(s), self.listeners_of(s).len() as int, a),
        decreases self.wiring().stream_height(s), 2nat, 0nat,
    {
        let w = self.wiring();
        self.lemma_noted(s, a);
        let q = self.noted(s, a);
        self.lemma_wiring_kept(q);
        assert(w.homes[s as int] == self.streams[s as int].node);
        assert(0 < self.streams[s as int].node < self.nodes.len());
        q.lemma_fired(self.node_of(s), self.listeners_of(s).len() as int, a);
        self.lemma_fires_into_trans(q, self.sent(s, a));
    }

    /// After the handlers of the first `k` edges of node `n` have been
    /// invoked with `a`, first edge first.
    pub open spec fn fired(self, n: int, k: int, a: A) -> Self {
        self.fired_in(self.wiring(), n, k, a)
    }

    /// Invoking the handlers of edges keeps the world in order.
    pub proof fn lemma_fired(self, n: int, k: int, a: A)
        requires
            self.inv(),
            self.depth > 0,
            0 <= n < self.nodes.len(),
            0 <= k <= self.nodes[n].listeners.len(),
        ensures
            self.fired(n, k, a).inv(),
            self.fires_into(self.fired(n, k, a)),
            k > 0 ==> self.fired(n, k, a) == self.fired(n, k - 1, a).invoked(
                self.nodes[n].listeners[k - 1].action,
                a,
            ),
        decreases self.wiring().height(n), 1nat, k,
    {
        let w = self.wiring();
        if k == 0 {
            self.lemma_fires_into_self();
        } else {
            self.lemma_fired(n, k - 1, a);
            let mid = self.fired(n, k - 1, a);
            self.lemma_wiring_kept(mid);
            let h = self.nodes[n].listeners[k - 1].action;
            assert(self.handler_ok(h));
            assert(mid.handler_ok(h));
            w.lemma_forward_is_higher(n, k - 1);
            match h {
                TransactionHandler::Forward(t) => {
                    mid.lemma_sent(t, a);
                },
                _ => {
                    mid.lemma_plainly_invoked(h, a);
                },
            }
            self.lemma_fires_into_trans(mid, mid.invoked(h, a));
        }
    }

    /// Invoking a handler that an edge may carry keeps the world in order.
    pub proof fn lemma_invoked(self, h: TransactionHandler, a: A)
        requires
            self.inv(),
            self.depth > 0,
            self.handler_ok(h),
        ensures
            self.invoked(h, a).inv(),
            self.fires_into(self.invoked(h, a)),
    {
        match h {
            TransactionHandler::Forward(t) => {
                self.lemma_sent(t, a);
            },
            _ => {
                self.lemma_plainly_invoked(h, a);
            },
        }
    }

    /// With the accumulator of coalescer `c` emptied.
    pub open spec fn unloaded(self, c: usize) -> Self {
        State {
            coalescers: self.coalescers.update(
                c as int,
                CoalesceHandlerData { accum_op: None, ..self.coalescers[c as int] },
            ),
            ..self
        }
    }

    /// The coalescer that the next prioritized entry flushes.
    pub open spec fn next_flush(self) -> usize {
        match self.tx.prioritized[first_min(self.tx.prioritized)].action {
            Action::Flush(c) => c,
        }
    }

    /// A coalescer that takes a value in keeps the world in order.
    pub proof fn lemma_coalesced(self, c: usize, a: A)
        requires
            self.inv(),
            self.depth > 0,
            c < self.coalescers.len(),
        ensures
            self.coalesced(c, a).inv(),
    {
        let r = self.coalesced(c, a);
        self.lemma_cells_stay_wired(r);
        let data = self.coalescers[c as int];
        let e = Entry { rank: self.nodes[self.node_of(data.out)].rank, action: Action::Flush(c) };
        assert forall|d: usize|
            d < r.coalescers.len() && (#[trigger] r.coalescers[d as int]).accum_op is Some implies has_flush(
            r.tx.prioritized,
            d,
        ) by {
            if d == c {
                if data.accum_op is None {
                    lemma_has_flush_push(self.tx.prioritized, e, d);
                }
            } else {
                assert(self.coalescers[d as int].accum_op is Some);
                if data.accum_op is None {
                    lemma_has_flush_push(self.tx.prioritized, e, d);
                }
            }
        }
        assert forall|j: int| 0 <= j < r.tx.prioritized.len() implies r.action_ok(
            (#[trigger] r.tx.prioritized[j]).action,
        ) by {
            if j < self.tx.prioritized.len() {
                assert(r.tx.prioritized[j] == self.tx.prioritized[j]);
                assert(self.action_ok(self.tx.prioritized[j].action));
            }
        }
        assert forall|d: int| 0 <= d < r.coalescers.len() implies (#[trigger] r.coalescers[d]).out
            < r.streams.len() by {
            assert(self.coalescers[d].out < self.streams.len());
        }
        assert forall|d: int| 0 <= d < r.coalescers.len() implies ((
        #[trigger] r.coalescers[d]).f matches Some(g) ==> crate::model::fold_is_total(g)
            && crate::model::fold_is_function(g)) by {
            assert(self.coalescers[d].f == r.coalescers[d].f);
        }
    }

    /// A flush keeps the world in order.
    pub proof fn lemma_flushed(self, c: usize)
        requires
            self.inv(),
            self.depth > 0,
            c < self.coalescers.len(),
        ensures
            self.flushed(c).inv(),
            self.unloaded(c).inv(),
    {
        let data = self.coalescers[c as int];
        let emptied = self.unloaded(c);
        self.lemma_cells_stay_wired(emptied);
        assert forall|d: usize|
            d < emptied.coalescers.len() && (#[trigger] emptied.coalescers[d as int]).accum_op is Some implies has_flush(
            emptied.tx.prioritized,
            d,
        ) by {
            assert(self.coalescers[d as int].accum_op is Some);
        }
        assert forall|d: int| 0 <= d < emptied.coalescers.len() implies (
        #[trigger] emptied.coalescers[d]).out < emptied.streams.len() by {
            assert(self.coalescers[d].out < self.streams.len());
        }
        assert forall|d: int| 0 <= d < emptied.coalescers.len() implies ((
        #[trigger] emptied.coalescers[d]).f matches Some(g) ==> crate::model::fold_is_total(g)
            && crate::model::fold_is_function(g)) by {
            assert(self.coalescers[d].f == emptied.coalescers[d].f);
        }
        assert(emptied.inv());
        match data.accum_op {
            Some(acc) => {
                assert(data.out < self.streams.len());
                emptied.lemma_sent(data.out, acc);
            },
            None => {},
        }
    }

    /// Running the next prioritized entry keeps the world in order and
    /// leaves the queue one entry shorter.
    pub proof fn lemma_stepped(self)
        requires
            self.inv(),
            self.depth > 0,
            self.tx.prioritized.len() > 0,
        ensures
            self.stepped().inv(),
            self.flows_into(self.stepped()),
            self.stepped().tx.prioritized == self.tx.prioritized.remove(
                first_min(self.tx.prioritized),
            ),
            self.stepped().tx.prioritized.len() == self.tx.prioritized.len() - 1,
            self.next_flush() < self.coalescers.len(),
            self.popped().unloaded(self.next_flush()).inv(),
            self.stepped() == match self.coalescers[self.next_flush() as int].accum_op {
                Some(acc) => self.popped().unloaded(self.next_flush()).sent(
                    self.coalescers[self.next_flush() as int].out,
                    acc,
                ),
                None => self.popped(),
            },
            self.coalescers[self.next_flush() as int].out < self.streams.len(),
            self.stepped().coalescers == self.unloaded(self.next_flush()).coalescers,
    {
        let q = self.tx.prioritized;
        lemma_first_min(q);
        let i = first_min(q);
        let p = self.popped();
        assert(self.action_ok(q[i].action));
        let c = match q[i].action {
            Action::Flush(c) => c,
        };
        let data = self.coalescers[c as int];
        let emptied = State {
            coalescers: p.coalescers.update(
                c as int,
                CoalesceHandlerData { accum_op: None, ..data },
            ),
            ..p
        };
        lemma_begins_self(self.tx.last);
        lemma_begins_self(self.deliveries);
        self.lemma_cells_stay_wired(emptied);
        self.lemma_cells_stay_wired(p);
        assert forall|j: int| 0 <= j < p.tx.prioritized.len() implies p.action_ok(
            (#[trigger] p.tx.prioritized[j]).action,
        ) by {
            if j < i {
                assert(p.tx.prioritized[j] == q[j]);
            } else {
                assert(p.tx.prioritized[j] == q[j + 1]);
            }
        }
        assert forall|d: usize|
            d < emptied.coalescers.len() && (#[trigger] emptied.coalescers[d as int]).accum_op is Some implies has_flush(
            emptied.tx.prioritized,
            d,
        ) by {
            assert(d != c);
            assert(self.coalescers[d as int].accum_op is Some);
            lemma_has_flush_remove(q, i, d);
        }
        assert forall|d: int| 0 <= d < emptied.coalescers.len() implies (
        #[trigger] emptied.coalescers[d]).out < emptied.streams.len() by {
            assert(self.coalescers[d].out < self.streams.len());
        }
        assert forall|d: int| 0 <= d < emptied.coalescers.len() implies ((
        #[trigger] emptied.coalescers[d]).f matches Some(g) ==> crate::model::fold_is_total(g)
            && crate::model::fold_is_function(g)) by {
            assert(self.coalescers[d].f == emptied.coalescers[d].f);
        }
        assert(emptied.inv());
        assert(self.flows_into(emptied));
        match data.accum_op {
            Some(acc) => {
                assert(data.out < self.streams.len());
                emptied.lemma_sent(data.out, acc);
                self.lemma_flows_into_trans(emptied, emptied.sent(data.out, acc));
            },
            None => {
                assert(emptied.coalescers =~= p.coalescers);
                assert(emptied == p);
            },
        }
    }

    /// After the priority queue has drained: the entries were run one by
    /// one, each time the one with the smallest rank, and of those the one
    /// queued first.
    pub open spec fn drained(self) -> Self
        decreases self.tx.prioritized.len(),
        when self.inv() && self.depth > 0
    {
        if self.tx.prioritized.len() == 0 {
            self
        } else {
            proof {
                self.lemma_stepped();
            }
            self.stepped().drained()
        }
    }

    /// Draining keeps the world in order and leaves the queue empty.
    pub proof fn lemma_drained(self)
        requires
            self.inv(),
            self.depth > 0,
        ensures
            self.drained().inv(),
            self.flows_into(self.drained()),
            self.drained().tx.prioritized.len() == 0,
        decreases self.tx.prioritized.len(),
    {
        if self.tx.prioritized.len() == 0 {
            lemma_begins_self(self.tx.last);
            lemma_begins_self(self.deliveries);
        } else {
            self.lemma_stepped();
            self.stepped().lemma_drained();
            self.lemma_flows_into_trans(self.stepped(), self.stepped().drained());
        }
    }

    /// What the last actions `actions` leave of the state: a stream that
    /// one of them clears has no firings, and a cell that one of them
    /// commits has its pending value as its value.
    pub proof fn lemma_tidied_all(self, actions: Seq<LastAction>)
        requires
            forall|j: int| 0 <= j < actions.len() ==> self.last_ok(#[trigger] actions[j]),
        ensures
            self.tidied_all(actions) == (State {
                streams: self.tidied_all(actions).streams,
                cells: self.tidied_all(actions).cells,
                ..self
            }),
            self.tidied_all(actions).streams.len() == self.streams.len(),
            self.tidied_all(actions).cells.len() == self.cells.len(),
            forall|s: usize|
                s < self.streams.len() ==> (#[trigger] self.tidied_all(actions).streams[s as int])
                    == (StreamView {
                    firings: if actions.contains(LastAction::ClearFirings(s)) {
                        Seq::empty()
                    } else {
                        self.streams[s as int].firings
                    },
                    ..self.streams[s as int]
                }),
            forall|i: usize|
                i < self.cells.len() ==> (#[trigger] self.tidied_all(actions).cells[i as int])
                    == if actions.contains(LastAction::Commit(i)) {
                    CellData {
                        value: match self.cells[i as int].next {
                            Some(a) => a,
                            None => self.cells[i as int].value,
                        },
                        next: None,
                        ..self.cells[i as int]
                    }
                } else {
                    self.cells[i as int]
                },
        decreases actions.len(),
    {
        if actions.len() > 0 {
            let front = actions.drop_last();
            let end = actions.last();
            assert forall|j: int| 0 <= j < front.len() implies self.last_ok(#[trigger] front[j]) by {
                assert(front[j] == actions[j]);
            }
            self.lemma_tidied_all(front);
            let mid = self.tidied_all(front);
            let r = mid.tidied(end);
            assert(self.last_ok(actions[actions.len() - 1]));
            assert forall|x: LastAction| actions.contains(x) <==> (front.contains(x) || end == x) by {
                if actions.contains(x) {
                    let j = choose|j: int| 0 <= j < actions.len() && actions[j] == x;
                    if j < front.len() {
                        assert(front[j] == x);
                    }
                }
                if front.contains(x) {
                    let j = choose|j: int| 0 <= j < front.len() && front[j] == x;
                    assert(actions[j] == x);
                }
                if end == x {
                    assert(actions[actions.len() - 1] == x);
                }
            }
            assert forall|s: usize| s < self.streams.len() implies (#[trigger] r.streams[s as int])
                == (StreamView {
                firings: if actions.contains(LastAction::ClearFirings(s)) {
                    Seq::empty()
                } else {
                    self.streams[s as int].firings
                },
                ..self.streams[s as int]
            }) by {
                assert(mid.streams[s as int].node == self.streams[s as int].node);
            }
            assert forall|i: usize| i < self.cells.len() implies (#[trigger] r.cells[i as int])
                == if actions.contains(LastAction::Commit(i)) {
                CellData {
                    value: match self.cells[i as int].next {
                        Some(a) => a,
                        None => self.cells[i as int].value,
                    },
                    next: None,
                    ..self.cells[i as int]
                }
            } else {
                self.cells[i as int]
            } by {
                assert(mid.cells[i as int].updates == self.cells[i as int].updates);
            }
        } else {
            assert forall|x: LastAction| !actions.contains(x) by {}
        }
    }

    /// Nothing is pending and nothing is queued: the state between two
    /// transactions.
    pub open spec fn settled(self) -> bool {
        &&& self.depth == 0
        &&& self.tx.prioritized.len() == 0
        &&& self.tx.last.len() == 0
        &&& self.tx.post.len() == 0
        &&& forall|c: usize|
            c < self.coalescers.len() ==> (#[trigger] self.coalescers[c as int]).accum_op is None
        &&& forall|s: usize|
            s < self.streams.len() ==> (#[trigger] self.streams[s as int]).firings.len() == 0
        &&& forall|i: usize| i < self.cells.len() ==> (#[trigger] self.cells[i as int]).next is None
    }

    /// After the outermost transaction has closed: the priority queue has
    /// drained, the last actions have run in the order they were queued,
    /// no transaction is current, and the post actions are due.
    pub open spec fn closed(self) -> Self {
        let d = self.drained();
        let t = d.tidied_all(d.tx.last);
        State {
            depth: 0,
            posted: t.posted + t.tx.post,
            tx: TransactionView { last: Seq::empty(), post: Seq::empty(), ..t.tx },
            ..t
        }
    }

    /// One transaction less deep. The outermost transaction closes.
    pub open spec fn left(self) -> Self {
        if self.depth > 1 {
            State { depth: (self.depth - 1) as u32, ..self }
        } else {
            self.closed()
        }
    }

    /// After `a` has been given to cell `cell` as its next value, in the
    /// transaction that is open or in one of its own: the value goes to
    /// the coalescer that feeds the cell. A cell that does not exist
    /// changes nothing.
    pub open spec fn changed(self, cell: usize, a: A) -> Self {
        if cell < self.cells.len() {
            self.entered().coalesced(self.cells[cell as int].feed, a).left()
        } else {
            self
        }
    }

    /// Closing keeps the world in order and leaves it settled.
    pub proof fn lemma_closed(self)
        requires
            self.inv(),
            self.depth > 0,
            self.all_bound(),
        ensures
            self.closed().inv(),
            self.closed().settled(),
            self.closed().nodes == self.nodes,
            self.closed().next_id == self.next_id,
            self.closed().deliveries == self.drained().deliveries,
            self.closed().posted == self.posted + self.tx.post,
            self.closed().streams.len() == self.streams.len(),
            self.closed().cells.len() == self.cells.len(),
            self.closed().coalescers.len() == self.coalescers.len(),
    {
        self.lemma_drained();
        let d = self.drained();
        d.lemma_tidied_all(d.tx.last);
        let t = d.tidied_all(d.tx.last);
        let r = self.closed();
        assert forall|c: usize| c < r.coalescers.len() implies (
        #[trigger] r.coalescers[c as int]).accum_op is None by {
            if d.coalescers[c as int].accum_op is Some {
                assert(has_flush(d.tx.prioritized, c));
            }
        }
        assert forall|u: usize| u < r.streams.len() implies (
        #[trigger] r.streams[u as int]).firings.len() == 0 by {
            assert(t.streams[u as int].node == d.streams[u as int].node);
            if d.streams[u as int].firings.len() > 0 {
                assert(d.tx.last.contains(LastAction::ClearFirings(u)));
            }
        }
        assert forall|u: usize| u < r.cells.len() implies (#[trigger] r.cells[u as int]).next is None by {
            assert(t.cells[u as int].updates == d.cells[u as int].updates);
            if d.cells[u as int].next is Some {
                assert(d.tx.last.contains(LastAction::Commit(u)));
            }
        }
        assert forall|s: int| 0 <= s < r.streams.len() implies 0 < (#[trigger] r.streams[s]).node
            < r.nodes.len() && r.nodes[r.streams[s].node as int].rank < u64::MAX by {
            let u = s as usize;
            assert(t.streams[u as int].node == d.streams[u as int].node);
            assert(0 < d.streams[s].node < d.nodes.len());
        }
        assert forall|i: int| 0 <= i < r.cells.len() implies #[trigger] r.cell_ok(i) by {
            let u = i as usize;
            assert(t.cells[u as int].updates == d.cells[u as int].updates);
            assert(d.cell_ok(i));
            let up = d.cells[i].updates;
            assert(t.streams[up as int].node == d.streams[up as int].node);
        }
        assert(r.coalescers == d.coalescers);
        assert(r.nodes == d.nodes);
    }
}

} // verus!
