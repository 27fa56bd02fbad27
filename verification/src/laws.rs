//! What holds of the engine as a whole: of coalescers, of cells and their
//! observers, of nested transactions and of detached observers.

use vstd::prelude::*;
use crate::handler::{Action, LastAction, TransactionHandler};
use crate::model::{
    has_update, lemma_filter_keeps_all, marked_by_edges, marked_by_handler, marked_by_stream,
    merged, CoalesceHandlerData, Delivery, State, Wiring,
};
use crate::node::Target;
use crate::transaction::{first_min, Entry};

verus! {

/// The fold of `values` by the rule `f`, first value first. Meant for at
/// least one value.
pub open spec fn folded<A, F: Fn(&A, &A) -> A>(f: Option<F>, values: Seq<A>) -> A
    decreases values.len(),
{
    if values.len() <= 1 {
        values[0]
    } else {
        merged(f, folded(f, values.drop_last()), values.last())
    }
}

/// Where the newer value wins, the fold is the last value.
pub proof fn lemma_folded_keeps_last<A, F: Fn(&A, &A) -> A>(values: Seq<A>)
    requires
        values.len() >= 1,
    ensures
        folded(None::<F>, values) == values.last(),
{
}

/// What handler `h` owes to observers when it is invoked with `a`, where
/// propagation follows `w`: a handler that notifies owes one delivery, one
/// that forwards owes what the stream owes that it forwards to.
pub open spec fn owed_by_handler<A>(w: Wiring, h: TransactionHandler, a: A) -> Seq<Delivery<A>>
    decreases w.handler_height(h), (if h is Forward { 3nat } else { 0nat }), 0nat,
{
    match h {
        TransactionHandler::Notify(listener) => seq![Delivery { listener, value: a }],
        TransactionHandler::Forward(t) => owed_by_stream(w, t, a),
        _ => Seq::empty(),
    }
}

/// What the first `k` edges of node `n` owe to observers when they are
/// invoked with `a`, first edge first.
pub open spec fn owed_by_edges<A>(w: Wiring, n: int, k: int, a: A) -> Seq<Delivery<A>>
    decreases w.height(n), 1nat, k,
    when w.ok() && 0 <= n < w.nodes.len() && 0 <= k <= w.nodes[n].listeners.len()
{
    if k == 0 {
        Seq::empty()
    } else {
        proof {
            w.lemma_forward_is_higher(n, k - 1);
        }
        owed_by_edges(w, n, k - 1, a) + owed_by_handler(w, w.nodes[n].listeners[k - 1].action, a)
    }
}

/// What stream `s` owes to observers when it fires `a`: what its edges
/// owe, in their order. A stream that does not exist owes nothing.
pub open spec fn owed_by_stream<A>(w: Wiring, s: usize, a: A) -> Seq<Delivery<A>>
    decreases w.stream_height(s), 2nat, 0nat,
{
    if s < w.homes.len() {
        owed_by_edges(
            w,
            w.homes[s as int] as int,
            w.nodes[w.homes[s as int] as int].listeners.len() as int,
            a,
        )
    } else {
        Seq::empty()
    }
}

impl<A, F: Fn(&A, &A) -> A> State<A, F> {
    /// After the values `values` have arrived at coalescer `c`, first
    /// value first.
    pub open spec fn coalesced_all(self, c: usize, values: Seq<A>) -> Self
        decreases values.len(),
    {
        if values.len() == 0 {
            self
        } else {
            self.coalesced_all(c, values.drop_last()).coalesced(c, values.last())
        }
    }

    /// However many values arrive at a coalescer between two flushes, it
    /// queues one flush, for the first of them, and holds their fold.
    pub proof fn lemma_coalescer_queues_one_flush(self, c: usize, values: Seq<A>)
        requires
            c < self.coalescers.len(),
            self.coalescers[c as int].accum_op is None,
            values.len() >= 1,
        ensures
            self.coalesced_all(c, values) == (State {
                coalescers: self.coalescers.update(
                    c as int,
                    CoalesceHandlerData {
                        accum_op: Some(folded(self.coalescers[c as int].f, values)),
                        ..self.coalescers[c as int]
                    },
                ),
                ..self.with_prioritized(
                    self.node_of(self.coalescers[c as int].out),
                    Action::Flush(c),
                )
            }),
        decreases values.len(),
    {
        let data = self.coalescers[c as int];
        if values.len() == 1 {
            assert(values.drop_last().len() == 0);
            assert(self.coalesced_all(c, values.drop_last()) == self);
        } else {
            let front = values.drop_last();
            self.lemma_coalescer_queues_one_flush(c, front);
            let mid = self.coalesced_all(c, front);
            let r = mid.coalesced(c, values.last());
            assert(r.coalescers =~= self.coalescers.update(
                c as int,
                CoalesceHandlerData { accum_op: Some(folded(data.f, values)), ..data },
            ));
        }
    }

    /// Values that arrive at a coalescer keep the world in order.
    pub proof fn lemma_coalesced_all(self, c: usize, values: Seq<A>)
        requires
            self.inv(),
            self.depth > 0,
            c < self.coalescers.len(),
        ensures
            self.coalesced_all(c, values).inv(),
            self.coalesced_all(c, values).depth == self.depth,
            self.coalesced_all(c, values).coalescers.len() == self.coalescers.len(),
        decreases values.len(),
    {
        if values.len() > 0 {
            self.lemma_coalesced_all(c, values.drop_last());
            self.coalesced_all(c, values.drop_last()).lemma_coalesced(c, values.last());
        }
    }

    /// A flush of an empty accumulator changes nothing, and a flush leaves
    /// the accumulator empty: a second flush fires nothing.
    pub proof fn lemma_second_flush_fires_nothing(self, c: usize)
        requires
            self.inv(),
            self.depth > 0,
            c < self.coalescers.len(),
        ensures
            self.flushed(c).coalescers[c as int].accum_op is None,
            self.flushed(c).flushed(c) == self.flushed(c),
    {
        let data = self.coalescers[c as int];
        self.lemma_flushed(c);
        match data.accum_op {
            Some(acc) => {
                assert(data.out < self.streams.len());
                self.unloaded(c).lemma_sent(data.out, acc);
            },
            None => {},
        }
    }

    /// How often coalescer `c` fires downstream while the priority queue
    /// drains.
    pub open spec fn fires(self, c: usize) -> nat
        decreases self.tx.prioritized.len(),
        when self.inv() && self.depth > 0
    {
        if self.tx.prioritized.len() == 0 {
            0
        } else {
            proof {
                self.lemma_stepped();
            }
            self.stepped().fires(c) + if self.next_flush() == c
                && self.coalescers[c as int].accum_op is Some {
                1nat
            } else {
                0nat
            }
        }
    }

    /// Within one transaction, each coalescer produces at most one
    /// downstream firing: none if its accumulator is empty when the
    /// transaction closes.
    pub proof fn lemma_coalescer_fires_at_most_once(self, c: usize)
        requires
            self.inv(),
            self.depth > 0,
            c < self.coalescers.len(),
        ensures
            self.fires(c) <= 1,
            self.coalescers[c as int].accum_op is None ==> self.fires(c) == 0,
        decreases self.tx.prioritized.len(),
    {
        if self.tx.prioritized.len() > 0 {
            self.lemma_stepped();
            self.stepped().lemma_coalescer_fires_at_most_once(c);
        }
    }

    /// A second detach is a no-op.
    pub proof fn lemma_unlisten_is_idempotent(self, s: usize, id: u32)
        requires
            s < self.streams.len(),
            self.streams[s as int].node < self.nodes.len(),
        ensures
            self.unlistened(s, id).unlistened(s, id) == self.unlistened(s, id),
    {
        if self.detachable(s, id) {
            let r = self.without_target(s, id);
            let all = self.listeners_of(s);
            let keep = |t: Target| t.id != id;
            assert(r.listeners_of(s) == all.filter(keep));
            assert forall|i: int| 0 <= i < all.filter(keep).len() implies keep(
                #[trigger] all.filter(keep)[i],
            ) by {
                all.lemma_filter_pred(keep, i);
            }
            lemma_filter_keeps_all(all.filter(keep), keep);
            assert(r.detachable(s, id));
            assert(r.without_target(s, id).nodes =~= r.nodes);
        }
    }

    /// With the depth `depth`.
    pub open spec fn with_depth(self, depth: u32) -> Self {
        State { depth, ..self }
    }

    /// Inside a transaction, `body` does the same whatever the depth is,
    /// and leaves the depth as it is.
    pub open spec fn depth_blind(body: spec_fn(Self) -> Self) -> bool {
        forall|t: Self, d: u32|
            d > 0 && t.depth > 0 ==> #[trigger] body(t.with_depth(d)) == body(t).with_depth(d)
    }

    /// A transaction inside a transaction is the transaction: running
    /// `body` in a transaction nested in another one leaves what running it
    /// in one transaction leaves.
    pub proof fn lemma_nesting_is_idempotent(self, body: spec_fn(Self) -> Self)
        requires
            self.depth < u32::MAX - 1,
            Self::depth_blind(body),
        ensures
            body(self.entered().entered()).left().left() == body(self.entered()).left(),
    {
        let outer = self.entered();
        let d = outer.depth;
        assert(outer.entered() == outer.with_depth((d + 1) as u32));
        assert(body(outer.with_depth((d + 1) as u32)) == body(outer).with_depth((d + 1) as u32));
        assert(outer.with_depth(d) == outer);
        assert(body(outer.with_depth(d)) == body(outer).with_depth(d));
        assert(body(outer).depth == d);
        assert(body(outer).with_depth((d + 1) as u32).left() == body(outer));
    }

    /// Sending to a sink is blind to the depth.
    pub proof fn lemma_coalesced_is_depth_blind(c: usize, a: A)
        ensures
            Self::depth_blind(|t: Self| t.coalesced(c, a)),
    {
        let body = |t: Self| t.coalesced(c, a);
        assert forall|t: Self, d: u32| d > 0 && t.depth > 0 implies #[trigger] body(
            t.with_depth(d),
        ) == body(t).with_depth(d) by {
            assert(t.with_depth(d).coalesced(c, a).tx == t.coalesced(c, a).tx);
        }
    }

    /// `t` has the cells of `self`, but that some of them have `a` pending.
    pub open spec fn updates_into(self, t: Self, a: A) -> bool {
        &&& t.cells.len() == self.cells.len()
        &&& forall|i: int|
            0 <= i < self.cells.len() ==> (#[trigger] t.cells[i]).next == self.cells[i].next
                || t.cells[i].next == Some(a)
    }

    /// What invoking the handlers of the first `k` edges of node `n` with
    /// `a` does: observers are owed what the edges owe, and each cell that
    /// one of the edges updates has `a` pending.
    pub proof fn lemma_fired_owes(self, n: int, k: int, a: A)
        requires
            self.inv(),
            self.depth > 0,
            0 <= n < self.nodes.len(),
            0 <= k <= self.nodes[n].listeners.len(),
        ensures
            self.fired(n, k, a).deliveries == self.deliveries + owed_by_edges(
                self.wiring(),
                n,
                k,
                a,
            ),
            self.updates_into(self.fired(n, k, a), a),
            forall|i: usize|
                i < self.cells.len() && #[trigger] has_update(self.nodes[n].listeners.take(k), i)
                    ==> self.fired(n, k, a).cells[i as int].next == Some(a),
        decreases self.wiring().height(n), 1nat, k,
    {
        let w = self.wiring();
        let edges = self.nodes[n].listeners;
        if k == 0 {
            assert(self.deliveries + owed_by_edges(w, n, k, a) =~= self.deliveries);
            assert forall|i: usize| !has_update(edges.take(0), i) by {}
        } else {
            self.lemma_fired(n, k, a);
            self.lemma_fired(n, k - 1, a);
            self.lemma_fired_owes(n, k - 1, a);
            let mid = self.fired(n, k - 1, a);
            self.lemma_wiring_kept(mid);
            let h = edges[k - 1].action;
            let r = mid.invoked(h, a);
            assert(self.handler_ok(h));
            assert(mid.handler_ok(h));
            w.lemma_forward_is_higher(n, k - 1);
            assert forall|i: usize| has_update(edges.take(k), i) <==> (has_update(
                edges.take(k - 1),
                i,
            ) || h == TransactionHandler::Update(i)) by {
                let front = edges.take(k - 1);
                let all = edges.take(k);
                if has_update(all, i) {
                    let j = choose|j: int|
                        0 <= j < all.len() && (#[trigger] all[j]).action
                            == TransactionHandler::Update(i);
                    if j < k - 1 {
                        assert(front[j] == all[j]);
                    }
                }
                if has_update(front, i) {
                    let j = choose|j: int|
                        0 <= j < front.len() && (#[trigger] front[j]).action
                            == TransactionHandler::Update(i);
                    assert(all[j] == front[j]);
                }
                if h == TransactionHandler::Update(i) {
                    assert(all[k - 1].action == TransactionHandler::Update(i));
                }
            }
            assert(owed_by_edges(w, n, k, a) == owed_by_edges(w, n, k - 1, a) + owed_by_handler(
                w,
                h,
                a,
            ));
            match h {
                TransactionHandler::Forward(t) => {
                    mid.lemma_sent_owes(t, a);
                    mid.lemma_sent(t, a);
                    assert(r == mid.sent(t, a));
                    assert(owed_by_handler(w, h, a) == owed_by_stream(w, t, a));
                    assert(r.deliveries =~= self.deliveries + owed_by_edges(w, n, k, a));
                },
                TransactionHandler::Notify(listener) => {
                    mid.lemma_plainly_invoked(h, a);
                    assert(r.deliveries =~= self.deliveries + owed_by_edges(w, n, k, a));
                    assert(r.cells == mid.cells);
                },
                TransactionHandler::Update(cell) => {
                    mid.lemma_plainly_invoked(h, a);
                    assert(owed_by_handler(w, h, a) =~= Seq::<Delivery<A>>::empty());
                    assert(r.deliveries == mid.deliveries);
                    assert(r.deliveries =~= self.deliveries + owed_by_edges(w, n, k, a));
                },
                TransactionHandler::Coalesce(c) => {},
            }
            assert forall|i: int| 0 <= i < self.cells.len() implies (#[trigger] r.cells[i]).next
                == self.cells[i].next || r.cells[i].next == Some(a) by {
                assert(mid.cells[i].next == self.cells[i].next || mid.cells[i].next == Some(a));
            }
            assert forall|i: usize|
                i < self.cells.len() && #[trigger] has_update(
                    edges.take(k),
                    i,
                ) implies r.cells[i as int].next == Some(a) by {
                if has_update(edges.take(k - 1), i) {
                    assert(mid.cells[i as int].next == Some(a));
                    assert(r.cells[i as int].next == mid.cells[i as int].next
                        || r.cells[i as int].next == Some(a));
                }
            }
        }
    }

    /// What a stream that fires `a` does: observers are owed what the
    /// stream owes, and each cell that one of its edges updates has `a`
    /// pending.
    pub proof fn lemma_sent_owes(self, s: usize, a: A)
        requires
            self.inv(),
            self.depth > 0,
            s < self.streams.len(),
        ensures
            self.sent(s, a).deliveries == self.deliveries + owed_by_stream(self.wiring(), s, a),
            self.updates_into(self.sent(s, a), a),
            forall|i: usize|
                i < self.cells.len() && #[trigger] has_update(self.listeners_of(s), i)
                    ==> self.sent(s, a).cells[i as int].next == Some(a),
        decreases self.wiring().stream_height(s), 2nat, 0nat,
    {
        let w = self.wiring();
        self.lemma_noted(s, a);
        self.lemma_sent(s, a);
        let q = self.noted(s, a);
        self.lemma_wiring_kept(q);
        assert(w.homes[s as int] == self.streams[s as int].node);
        assert(0 < self.streams[s as int].node < self.nodes.len());
        let n = self.node_of(s);
        let k = self.listeners_of(s).len() as int;
        q.lemma_fired_owes(n, k, a);
        assert(self.listeners_of(s).take(k) =~= self.listeners_of(s));
    }

    /// For a cell and a transaction with at least one send to the sink of
    /// the cell, the observers of the cell fire exactly once, with the
    /// last value sent.
    ///
    /// When the transaction has closed, what observers are owed has grown
    /// by one delivery of the last value for each observer edge of the
    /// cell, in the order of the edges; the cell holds the last value; and
    /// nothing is pending.
    pub proof fn lemma_cell_observers_fire_once(self, cell: usize, values: Seq<A>)
        requires
            self.inv(),
            self.depth == 0,
            cell < self.cells.len(),
            values.len() >= 1,
        ensures
            ({
                let sent = self.entered().coalesced_all(self.cells[cell as int].feed, values);
                &&& sent.left().deliveries == self.deliveries + owed_by_stream(
                    self.wiring(),
                    self.cells[cell as int].updates,
                    values.last(),
                )
                &&& sent.left().cells[cell as int].value == values.last()
                &&& sent.left().cells[cell as int].next is None
                &&& sent.left().settled()
                &&& sent.left().inv()
            }),
    {
        let data = self.cells[cell as int];
        let feed = data.feed;
        let s = data.updates;
        let v = values.last();
        assert(self.cell_ok(cell as int));
        assert(self.coalescers[feed as int].accum_op is None) by {
            if self.coalescers[feed as int].accum_op is Some {
                assert(crate::model::has_flush(self.tx.prioritized, feed));
            }
        }
        assert(self.streams[s as int].firings.len() == 0) by {
            if self.streams[s as int].firings.len() > 0 {
                assert(self.tx.last.contains(LastAction::ClearFirings(s)));
            }
        }
        let e = self.entered();
        self.lemma_inv_frame(e);
        e.lemma_coalescer_queues_one_flush(feed, values);
        e.lemma_coalesced_all(feed, values);
        lemma_folded_keeps_last::<A, F>(values);
        let m = e.coalesced_all(feed, values);
        let entry = Entry { rank: e.nodes[e.node_of(s)].rank, action: Action::Flush(feed) };
        assert(m.tx.prioritized =~= seq![entry]);
        assert(first_min(m.tx.prioritized) == 0);
        assert(m.next_flush() == feed);
        m.lemma_stepped();
        let p = m.popped();
        assert(p.tx.prioritized =~= Seq::<Entry>::empty());
        let u = p.unloaded(feed);
        let d = u.sent(s, v);
        assert(m.stepped() == d);
        assert(d.tx.prioritized.len() == 0);
        assert(m.drained() == d) by {
            assert(m.drained() == m.stepped().drained());
            assert(d.drained() == d);
        }
        assert(u.wiring() == self.wiring());
        assert(u.listeners_of(s) == self.listeners_of(s));
        u.lemma_sent_owes(s, v);
        u.lemma_sent(s, v);
        assert(d.deliveries == self.deliveries + owed_by_stream(self.wiring(), s, v));
        assert(has_update(u.listeners_of(s), cell));
        assert(d.cells[cell as int].next == Some(v));
        assert(d.cells[cell as int].value == data.value);
        assert(d.tx.last.contains(LastAction::Commit(cell)));
        m.lemma_closed();
        m.lemma_drained();
        d.lemma_tidied_all(d.tx.last);
    }

    /// `t` has the cells of `self`, but that the cells `marked` have `a`
    /// pending.
    pub open spec fn marks_into(self, t: Self, marked: Seq<usize>, a: A) -> bool {
        &&& t.cells.len() == self.cells.len()
        &&& forall|i: usize|
            i < self.cells.len() ==> (#[trigger] t.cells[i as int]).next == if marked.contains(i) {
                Some(a)
            } else {
                self.cells[i as int].next
            }
    }

    /// The cells that the first `k` edges of node `n` mark for update are
    /// the cells that have the value pending once the edges were invoked.
    pub proof fn lemma_fired_marks(self, n: int, k: int, a: A)
        requires
            self.inv(),
            self.depth > 0,
            0 <= n < self.nodes.len(),
            0 <= k <= self.nodes[n].listeners.len(),
        ensures
            self.marks_into(self.fired(n, k, a), marked_by_edges(self.wiring(), n, k), a),
        decreases self.wiring().height(n), 1nat, k,
    {
        let w = self.wiring();
        if k == 0 {
            assert forall|i: usize| !marked_by_edges(w, n, k).contains(i) by {}
        } else {
            self.lemma_fired(n, k, a);
            self.lemma_fired(n, k - 1, a);
            self.lemma_fired_marks(n, k - 1, a);
            let mid = self.fired(n, k - 1, a);
            self.lemma_wiring_kept(mid);
            let h = self.nodes[n].listeners[k - 1].action;
            let r = mid.invoked(h, a);
            assert(self.handler_ok(h));
            assert(mid.handler_ok(h));
            w.lemma_forward_is_higher(n, k - 1);
            let most = marked_by_edges(w, n, k - 1);
            let more = marked_by_handler(w, h);
            assert(marked_by_edges(w, n, k) == most + more);
            assert forall|i: usize| (most + more).contains(i) <==> (most.contains(i)
                || more.contains(i)) by {
                if (most + more).contains(i) {
                    let j = choose|j: int| 0 <= j < (most + more).len() && (most + more)[j] == i;
                    if j < most.len() {
                        assert(most[j] == i);
                    } else {
                        assert(more[j - most.len()] == i);
                    }
                }
                if most.contains(i) {
                    let j = choose|j: int| 0 <= j < most.len() && most[j] == i;
                    assert((most + more)[j] == i);
                }
                if more.contains(i) {
                    let j = choose|j: int| 0 <= j < more.len() && more[j] == i;
                    assert((most + more)[most.len() + j] == i);
                }
            }
            match h {
                TransactionHandler::Forward(t) => {
                    mid.lemma_sent_marks(t, a);
                    mid.lemma_sent(t, a);
                    assert(r == mid.sent(t, a));
                    assert(more == marked_by_stream(w, t));
                },
                TransactionHandler::Notify(listener) => {
                    mid.lemma_plainly_invoked(h, a);
                    assert(r.cells == mid.cells);
                    assert forall|i: usize| !more.contains(i) by {}
                },
                TransactionHandler::Update(cell) => {
                    mid.lemma_plainly_invoked(h, a);
                    assert(more =~= seq![cell]);
                    assert(more[0] == cell);
                    assert forall|i: usize| more.contains(i) <==> i == cell by {}
                },
                TransactionHandler::Coalesce(c) => {},
            }
        }
    }

    /// The cells that a firing of a stream marks for update are the cells
    /// that have the value pending once the stream has fired.
    pub proof fn lemma_sent_marks(self, s: usize, a: A)
        requires
            self.inv(),
            self.depth > 0,
            s < self.streams.len(),
        ensures
            self.marks_into(self.sent(s, a), marked_by_stream(self.wiring(), s), a),
        decreases self.wiring().stream_height(s), 2nat, 0nat,
    {
        let w = self.wiring();
        self.lemma_noted(s, a);
        self.lemma_sent(s, a);
        let q = self.noted(s, a);
        self.lemma_wiring_kept(q);
        assert(w.homes[s as int] == self.streams[s as int].node);
        assert(0 < self.streams[s as int].node < self.nodes.len());
        q.lemma_fired_marks(self.node_of(s), self.listeners_of(s).len() as int, a);
    }

    /// After the values `values` have been given to cell `cell` one after
    /// the other, first value first.
    pub open spec fn changed_all(self, cell: usize, values: Seq<A>) -> Self
        decreases values.len(),
    {
        if values.len() == 0 {
            self
        } else {
            self.changed_all(cell, values.drop_last()).changed(cell, values.last())
        }
    }

    /// Inside a transaction, giving a cell a value is handing the value to
    /// the coalescer that feeds the cell: nothing closes.
    pub proof fn lemma_changed_inside(self, cell: usize, a: A)
        requires
            0 < self.depth < u32::MAX,
            cell < self.cells.len(),
        ensures
            self.changed(cell, a) == self.coalesced(self.cells[cell as int].feed, a),
    {
        let feed = self.cells[cell as int].feed;
        let e = self.entered();
        let m = e.coalesced(feed, a);
        assert(m.depth == e.depth);
        assert(m.left() == m.with_depth(self.depth));
        assert(m.with_depth(self.depth).tx == self.coalesced(feed, a).tx);
    }

    /// Inside a transaction, giving a cell several values is handing them
    /// to the coalescer that feeds the cell.
    pub proof fn lemma_changed_all_inside(self, cell: usize, values: Seq<A>)
        requires
            0 < self.depth < u32::MAX,
            cell < self.cells.len(),
        ensures
            self.changed_all(cell, values) == self.coalesced_all(
                self.cells[cell as int].feed,
                values,
            ),
            self.changed_all(cell, values).depth == self.depth,
            self.changed_all(cell, values).cells == self.cells,
        decreases values.len(),
    {
        if values.len() > 0 {
            self.lemma_changed_all_inside(cell, values.drop_last());
            self.changed_all(cell, values.drop_last()).lemma_changed_inside(cell, values.last());
        }
    }

    /// For a cell and an outermost transaction in which the cell is given
    /// a value at least once, the observers of the cell fire exactly once,
    /// with the last value given.
    ///
    /// Let the transaction be entered, let the values `values` be given to
    /// the cell one after the other, and let the transaction be left. Then
    /// what observers are owed has grown by what the stream of updates
    /// owes for the last value, once; the cell holds the last value; and
    /// nothing is pending.
    pub proof fn lemma_cell_observers_fire_once_in_a_transaction(self, cell: usize, values: Seq<A>)
        requires
            self.inv(),
            self.depth == 0,
            cell < self.cells.len(),
            values.len() >= 1,
        ensures
            ({
                let out = self.entered().changed_all(cell, values).left();
                &&& out.deliveries == self.deliveries + owed_by_stream(
                    self.wiring(),
                    self.cells[cell as int].updates,
                    values.last(),
                )
                &&& out.cells[cell as int].value == values.last()
                &&& out.cells[cell as int].next is None
                &&& out.settled()
                &&& out.inv()
            }),
    {
        self.entered().lemma_changed_all_inside(cell, values);
        self.lemma_cell_observers_fire_once(cell, values);
    }
}

} // verus!
