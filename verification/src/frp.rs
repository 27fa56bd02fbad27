//! The reactive world and its transaction engine.

use vstd::prelude::*;
use crate::construction::lemma_link_upwards;
use crate::handler::{Action, LastAction, TransactionHandler};
use crate::ident::IdSource;
use crate::model::{
    fold_is_function, fold_is_total, homes_of, lemma_filter_keeps_all, marked_by_edges,
    marked_by_handler, marked_by_stream, tops_hold, CellData, CoalesceHandlerData, Delivery,
    LoopData, State, StreamView,
};
use crate::node::{
    frame, lemma_sweep_node_has_room, lemma_unvisited_bound, link_sweep, ranks_of, sweep_start,
    with_listener, with_ranks, without_listener, NodeGraph, Target,
};
use crate::transaction::{Entry, Transaction};

verus! {

/// The world `x` at the depth `d`.
pub open spec fn at_depth<A, F: Fn(&A, &A) -> A>(x: State<A, F>, d: u32) -> State<A, F> {
    x.with_depth(d)
}

/// A transaction inside a transaction is the transaction.
///
/// Let `body`, inside a transaction, do the same whatever the depth is,
/// and leave the depth as it is. Then `run` of a body that does nothing
/// but `run` of `body` takes the world from `before` to `after`, returning
/// `r`, exactly where `run` of `body` does.
pub proof fn lemma_nested_run_is_run<
    A,
    F: Fn(&A, &A) -> A,
    R,
    B: FnOnce(&mut FrpContext<A, F>) -> R,
>(body: B, before: State<A, F>, after: State<A, F>, r: R)
    requires
        before.depth < u32::MAX - 1,
        forall|c: &mut FrpContext<A, F>, r: R| #[trigger]
            call_ensures(body, (c,), r) ==> final(c)@.depth == c@.depth,
        forall|c: &mut FrpContext<A, F>, r: R, d: u32|
            #![trigger call_ensures(body, (c,), r), at_depth(c@, d)]
            d > 0 && c@.depth > 0 && call_ensures(body, (c,), r) ==> exists|e: &mut FrpContext<A, F>|
                #[trigger] call_ensures(body, (e,), r) && e@ == at_depth(c@, d)
                    && final(e)@ == final(c)@.with_depth(d),
    ensures
        (exists|c: &mut FrpContext<A, F>| #[trigger]
            call_ensures(body, (c,), r) && c@ == before.entered().entered() && after == final(c)@.left().left()) <==> (exists|c: &mut FrpContext<A, F>| #[trigger]
            call_ensures(body, (c,), r) && c@ == before.entered() && after == final(c)@.left()),
{
    let outer = before.entered();
    let d = outer.depth;
    let deeper = (d + 1) as u32;
    assert(outer.entered() == outer.with_depth(deeper));
    if exists|c: &mut FrpContext<A, F>| #[trigger]
        call_ensures(body, (c,), r) && c@ == outer.entered() && after == final(c)@.left().left() {
        let c = choose|c: &mut FrpContext<A, F>| #[trigger]
            call_ensures(body, (c,), r) && c@ == outer.entered() && after == final(c)@.left().left();
        assert(at_depth(c@, d) == outer);
        let e = choose|e: &mut FrpContext<A, F>| #[trigger]
            call_ensures(body, (e,), r) && e@ == at_depth(c@, d)
                && final(e)@ == final(c)@.with_depth(d);
        assert(e@ == outer);
        assert(final(c)@.left() == final(e)@);
    }
    if exists|c: &mut FrpContext<A, F>| #[trigger]
        call_ensures(body, (c,), r) && c@ == outer && after == final(c)@.left() {
        let c = choose|c: &mut FrpContext<A, F>| #[trigger]
            call_ensures(body, (c,), r) && c@ == outer && after == final(c)@.left();
        assert(at_depth(c@, deeper) == outer.entered());
        let e = choose|e: &mut FrpContext<A, F>| #[trigger]
            call_ensures(body, (e,), r) && e@ == at_depth(c@, deeper)
                && final(e)@ == final(c)@.with_depth(deeper);
        assert(e@ == outer.entered());
        assert(final(e)@.left() == final(c)@);
    }
}

/// A host environment that carries a reactive world.
pub trait WithFrpContext<ENV, A, F> {
    /// The world that `env` carries.
    spec fn world(&self, env: ENV) -> State<A, F>;

    /// Runs `k` on the world that `env` carries.
    fn with_frp_context<K: FnOnce(&mut FrpContext<A, F>)>(&self, env: &mut ENV, k: K)
        requires
            forall|c: &mut FrpContext<A, F>|
                c@ == self.world(*old(env)) ==> call_requires(k, (c,)),
        ensures
            exists|c: &mut FrpContext<A, F>| #[trigger]
                call_ensures(k, (c,), ()) && c@ == self.world(*old(env)) && self.world(
                    *final(env),
                ) == final(c)@,
    ;
}

/// The plainest host environment: the world itself.
pub struct Itself;

impl<A: Copy, F: Fn(&A, &A) -> A> WithFrpContext<FrpContext<A, F>, A, F> for Itself {
    open spec fn world(&self, env: FrpContext<A, F>) -> State<A, F> {
        env@
    }

    fn with_frp_context<K: FnOnce(&mut FrpContext<A, F>)>(
        &self,
        env: &mut FrpContext<A, F>,
        k: K,
    ) {
        let ghost before = env@;
        assert(env@ == self.world(*env));
        assert(call_requires(k, (env,)));
        k(env);
    }
}

/// What the engine keeps of a stream.
pub struct StreamData<A> {
    pub node: usize,
    pub firings: Vec<A>,
}

impl<A> View for StreamData<A> {
    type V = StreamView<A>;

    open spec fn view(&self) -> StreamView<A> {
        StreamView { node: self.node, firings: self.firings@ }
    }
}

/// One reactive world: the id source, the node graph, the streams, cells
/// and coalescers, the current transaction and the count of the
/// transactions that enclose the current point.
///
/// `A` is the type of the values that flow, `F` that of the folding
/// functions of coalescers.
pub struct FrpContext<A, F> {
    ids: IdSource,
    graph: NodeGraph,
    transaction_depth: u32,
    transaction: Transaction,
    streams: Vec<StreamData<A>>,
    cells: Vec<CellData<A>>,
    coalescers: Vec<CoalesceHandlerData<A, F>>,
    loops: Vec<LoopData>,
    deliveries: Vec<Delivery<A>>,
    posted: Vec<u32>,
}

impl<A, F> View for FrpContext<A, F> {
    type V = State<A, F>;

    closed spec fn view(&self) -> State<A, F> {
        State {
            next_id: self.ids.next_id(),
            nodes: self.graph@,
            depth: self.transaction_depth,
            tx: self.transaction@,
            streams: Seq::new(self.streams@.len(), |i: int| self.streams@[i]@),
            cells: self.cells@,
            coalescers: self.coalescers@,
            loops: self.loops@,
            deliveries: self.deliveries@,
            posted: self.posted@,
        }
    }
}

impl<A: Copy, F: Fn(&A, &A) -> A> FrpContext<A, F> {
    /// The world is in order.
    pub open spec fn wf(&self) -> bool {
        self@.inv()
    }

    /// A fresh reactive world.
    pub fn new() -> (ctx: FrpContext<A, F>)
        ensures
            ctx@ == State::<A, F>::initial(),
            ctx.wf(),
    {
        let mut ids = IdSource::new();
        let mut graph = NodeGraph::new();
        graph.add(&mut ids, u64::MAX);
        let ctx = FrpContext {
            ids,
            graph,
            transaction_depth: 0,
            transaction: Transaction::new(),
            streams: Vec::new(),
            cells: Vec::new(),
            coalescers: Vec::new(),
            loops: Vec::new(),
            deliveries: Vec::new(),
            posted: Vec::new(),
        };
        proof {
            assert(ctx@.nodes =~= State::<A, F>::initial().nodes);
            assert(ctx@.streams =~= State::<A, F>::initial().streams);
            assert(ctx@.tx == State::<A, F>::initial().tx);
        }
        ctx
    }

    /// How many ids the world can still hand out.
    pub fn ids_left(&self) -> (left: u32)
        ensures
            left == u32::MAX - self@.next_id,
    {
        self.ids.remaining()
    }

    /// How many transactions enclose the current point.
    pub fn depth(&self) -> (depth: u32)
        ensures
            depth == self@.depth,
    {
        self.transaction_depth
    }

    /// The number of streams.
    pub fn stream_count(&self) -> (n: usize)
        ensures
            n == self@.streams.len(),
    {
        self.streams.len()
    }

    /// The number of cells.
    pub fn cell_count(&self) -> (n: usize)
        ensures
            n == self@.cells.len(),
    {
        self.cells.len()
    }

    /// The number of coalescers.
    pub fn coalescer_count(&self) -> (n: usize)
        ensures
            n == self@.coalescers.len(),
    {
        self.coalescers.len()
    }

    /// The number of nodes.
    pub fn node_count(&self) -> (n: usize)
        ensures
            n == self@.nodes.len(),
    {
        self.graph.len()
    }

    /// Opens a transaction, or joins the one that is open.
    pub fn begin(&mut self)
        requires
            old(self).wf(),
            old(self)@.depth < u32::MAX,
        ensures
            final(self)@ == old(self)@.entered(),
            final(self).wf(),
    {
        self.transaction_depth = self.transaction_depth + 1;
        proof {
            old(self)@.lemma_inv_frame(self@);
        }
    }

    /// Queues `action` on the priority queue, at the rank that `node` has
    /// now.
    pub fn prioritized(&mut self, node: usize, action: Action)
        requires
            old(self).wf(),
            old(self)@.depth > 0,
            node < old(self)@.nodes.len(),
            old(self)@.action_ok(action),
        ensures
            final(self)@ == old(self)@.with_prioritized(node as int, action),
            final(self).wf(),
    {
        let rank: u64 = self.graph.rank(node);
        self.transaction.prioritized(rank, action);
        proof {
            old(self)@.lemma_with_prioritized(node as int, action);
        }
    }

    /// Queues `action` to run once the priority queue has drained.
    pub fn last(&mut self, action: LastAction)
        requires
            old(self).wf(),
            old(self)@.depth > 0,
            old(self)@.last_ok(action),
        ensures
            final(self)@ == old(self)@.with_last(action),
            final(self).wf(),
    {
        self.transaction.last(action);
        proof {
            old(self)@.lemma_with_last(action);
        }
    }

    /// Queues the action that `token` stands for to run after the outermost
    /// transaction.
    pub fn post(&mut self, token: u32)
        requires
            old(self).wf(),
            old(self)@.depth > 0,
        ensures
            final(self)@ == old(self)@.with_post(token),
            final(self).wf(),
    {
        self.transaction.post(token);
        proof {
            old(self)@.lemma_inv_frame(self@);
        }
    }

    /// Hands the value `a` to coalescer `c`.
    ///
    /// An empty accumulator takes `a` as it is, and one flush is queued at
    /// the rank of the node of the coalescer's stream. A filled one takes
    /// the fold of what it holds and `a`, and nothing is queued: the flush
    /// that is already on the queue will carry the fold. A value for a
    /// coalescer that the world does not hold is dropped.
    pub fn coalesce(&mut self, c: usize, a: A)
        requires
            old(self).wf(),
            old(self)@.depth > 0,
        ensures
            final(self)@ == old(self)@.coalesced(c, a),
            c >= old(self)@.coalescers.len() ==> final(self)@ == old(self)@,
            final(self).wf(),
    {
        if c >= self.coalescers.len() {
            return ;
        }
        proof {
            old(self)@.lemma_coalesced(c, a);
        }
        let ghost data = self@.coalescers[c as int];
        let was_none: bool = self.coalescers[c].accum_op.is_none();
        let folded: A = match self.coalescers[c].accum_op {
            Some(acc) => match &self.coalescers[c].f {
                Some(g) => {
                    assert(fold_is_total(*g) && fold_is_function(*g));
                    g(&acc, &a)
                },
                None => a,
            },
            None => a,
        };
        self.coalescers[c].accum_op = Some(folded);
        assert(self@.coalescers =~= old(self)@.coalescers.update(
            c as int,
            CoalesceHandlerData { accum_op: Some(folded), ..data },
        ));
        if was_none {
            let out: usize = self.coalescers[c].out;
            assert(out == data.out);
            let node: usize = self.streams[out].node;
            assert(node == old(self)@.streams[out as int].node);
            let rank: u64 = self.graph.rank(node);
            self.transaction.prioritized(rank, Action::Flush(c));
        }
    }

    /// Makes `a` the pending value of cell `cell`. The first update of a
    /// transaction queues the commit among the last actions. An update for
    /// a cell that the world does not hold changes nothing.
    pub fn update_cell(&mut self, cell: usize, a: A)
        requires
            old(self).wf(),
            old(self)@.depth > 0,
        ensures
            final(self)@ == old(self)@.updated(cell, a),
            cell >= old(self)@.cells.len() ==> final(self)@ == old(self)@,
            final(self).wf(),
    {
        if cell >= self.cells.len() {
            return ;
        }
        proof {
            old(self)@.lemma_invoked(TransactionHandler::Update(cell), a);
        }
        let ghost data = self@.cells[cell as int];
        let was_none: bool = self.cells[cell].next.is_none();
        self.cells[cell].next = Some(a);
        assert(self@.cells =~= old(self)@.cells.update(
            cell as int,
            CellData { next: Some(a), ..data },
        ));
        if was_none {
            self.transaction.last(LastAction::Commit(cell));
        }
    }

    /// Invokes handler `h` with the value `a`. A handler whose consumer the
    /// world does not hold is skipped.
    pub fn invoke(&mut self, h: TransactionHandler, a: A)
        requires
            old(self).wf(),
            old(self)@.depth > 0,
        ensures
            final(self)@ == old(self)@.invoked(h, a),
            !old(self)@.handler_valid(h) ==> final(self)@ == old(self)@,
            final(self).wf(),
    {
        match h {
            TransactionHandler::Forward(t) => {
                self.send(t, a);
            },
            _ => {
                self.invoke_plainly(h, a);
            },
        }
    }

    /// Invokes a handler that does not forward.
    fn invoke_plainly(&mut self, h: TransactionHandler, a: A)
        requires
            old(self).wf(),
            old(self)@.depth > 0,
            !(h is Forward),
        ensures
            final(self)@ == old(self)@.invoked(h, a),
            !old(self)@.handler_valid(h) ==> final(self)@ == old(self)@,
            final(self).wf(),
    {
        match h {
            TransactionHandler::Notify(listener) => {
                self.deliveries.push(Delivery { listener, value: a });
                proof {
                    old(self)@.lemma_inv_frame(self@);
                }
            },
            TransactionHandler::Coalesce(c) => {
                self.coalesce(c, a);
            },
            TransactionHandler::Update(cell) => {
                self.update_cell(cell, a);
            },
            TransactionHandler::Forward(t) => {},
        }
    }

    /// Fires the value `a` on stream `s`, inside a transaction.
    ///
    /// The value joins the firings of the stream; the first firing of a
    /// transaction queues the last action that clears them. Then the
    /// handler of each listener of the stream is invoked with `a`, first
    /// listener first. A listener that forwards makes its stream fire `a`
    /// in turn. A stream that the world does not hold fires nothing.
    pub fn send(&mut self, s: usize, a: A)
        requires
            old(self).wf(),
            old(self)@.depth > 0,
        ensures
            final(self)@ == old(self)@.sent(s, a),
            s >= old(self)@.streams.len() ==> final(self)@ == old(self)@,
            final(self).wf(),
        decreases old(self)@.wiring().stream_height(s),
    {
        if s >= self.streams.len() {
            return ;
        }
        let ghost before = self@;
        let ghost w = before.wiring();
        let ghost stream = before.streams[s as int];
        proof {
            before.lemma_sent(s, a);
            before.lemma_noted(s, a);
            before.lemma_wiring_kept(before.noted(s, a));
        }
        let first: bool = self.streams[s].firings.len() == 0;
        self.streams[s].firings.push(a);
        if first {
            self.transaction.last(LastAction::ClearFirings(s));
        }
        let ghost queued = before.noted(s, a);
        assert(self@.streams =~= queued.streams);
        assert(self@ == queued);
        let node: usize = self.streams[s].node;
        assert(node == stream.node);
        assert(0 < before.streams[s as int].node < before.nodes.len());
        let n: usize = self.graph.nodes[node].listeners.len();
        let mut k: usize = 0;
        while k < n
            invariant
                0 <= k <= n,
                n == before.nodes[node as int].listeners.len(),
                node < before.nodes.len(),
                queued.inv(),
                queued.depth > 0,
                queued.wiring() == w,
                w == before.wiring(),
                before == old(self)@,
                w.homes[s as int] == node,
                s < w.homes.len(),
                self@ == queued.fired(node as int, k as int, a),
            decreases n - k,
        {
            proof {
                queued.lemma_fired(node as int, k as int, a);
                queued.lemma_fired(node as int, k + 1, a);
                queued.lemma_wiring_kept(self@);
                w.lemma_forward_is_higher(node as int, k as int);
                assert(queued.handler_ok(queued.nodes[node as int].listeners[k as int].action));
            }
            let t: Target = self.graph.nodes[node].listeners[k];
            assert(t == queued.nodes[node as int].listeners[k as int]);
            match t.action {
                TransactionHandler::Forward(u) => {
                    self.send(u, a);
                },
                _ => {
                    self.invoke_plainly(t.action, a);
                },
            }
            k = k + 1;
        }
    }

    /// The cells that a firing of stream `s` marks for update: every cell
    /// that depends on the stream, directly or through streams that
    /// forward, in the order in which a firing reaches them. A stream that
    /// the world does not hold marks none.
    pub fn mark_all_decendent_cells_for_update(&self, s: usize) -> (cells: Vec<usize>)
        requires
            self.wf(),
        ensures
            cells@ == marked_by_stream(self@.wiring(), s),
            s >= self@.streams.len() ==> cells@.len() == 0,
        decreases self@.wiring().stream_height(s),
    {
        if s >= self.streams.len() {
            return Vec::new();
        }
        let ghost w = self@.wiring();
        let node: usize = self.streams[s].node;
        assert(w.homes[s as int] == node);
        assert(0 < self@.streams[s as int].node < self@.nodes.len());
        let n: usize = self.graph.nodes[node].listeners.len();
        let mut cells: Vec<usize> = Vec::new();
        let mut k: usize = 0;
        while k < n
            invariant
                0 <= k <= n,
                n == w.nodes[node as int].listeners.len(),
                node < w.nodes.len(),
                self.wf(),
                w == self@.wiring(),
                w.homes[s as int] == node,
                s < w.homes.len(),
                cells@ == marked_by_edges(w, node as int, k as int),
            decreases n - k,
        {
            proof {
                w.lemma_forward_is_higher(node as int, k as int);
                assert(self@.handler_ok(self@.nodes[node as int].listeners[k as int].action));
                assert(marked_by_edges(w, node as int, k + 1) == marked_by_edges(
                    w,
                    node as int,
                    k as int,
                ) + marked_by_handler(w, w.nodes[node as int].listeners[k as int].action));
            }
            let t: Target = self.graph.nodes[node].listeners[k];
            match t.action {
                TransactionHandler::Update(cell) => {
                    cells.push(cell);
                    assert(cells@ =~= marked_by_edges(w, node as int, k + 1));
                },
                TransactionHandler::Forward(u) => {
                    let mut below: Vec<usize> = self.mark_all_decendent_cells_for_update(u);
                    assert(marked_by_handler(w, t.action) == marked_by_stream(w, u));
                    cells.append(&mut below);
                },
                _ => {
                    assert(marked_by_handler(w, t.action) =~= Seq::<usize>::empty());
                    assert(cells@ =~= marked_by_edges(w, node as int, k + 1));
                },
            }
            k = k + 1;
        }
        cells
    }

    /// Empties the accumulator of coalescer `c` and returns what it held.
    fn unload(&mut self, c: usize) -> (held: Option<A>)
        requires
            c < old(self)@.coalescers.len(),
        ensures
            held == old(self)@.coalescers[c as int].accum_op,
            final(self)@ == old(self)@.unloaded(c),
    {
        let held: Option<A> = self.coalescers[c].accum_op;
        self.coalescers[c].accum_op = None;
        assert(self@.coalescers =~= old(self)@.unloaded(c).coalescers);
        held
    }

    /// Flushes coalescer `c`: what its accumulator holds is fired on its
    /// stream, and the accumulator is left empty. An empty accumulator
    /// fires nothing.
    pub fn flush(&mut self, c: usize)
        requires
            old(self).wf(),
            old(self)@.depth > 0,
        ensures
            final(self)@ == old(self)@.flushed(c),
            c >= old(self)@.coalescers.len() ==> final(self)@ == old(self)@,
            final(self).wf(),
    {
        if c >= self.coalescers.len() {
            return ;
        }
        proof {
            old(self)@.lemma_flushed(c);
        }
        let out: usize = self.coalescers[c].out;
        match self.unload(c) {
            Some(acc) => {
                self.send(out, acc);
            },
            None => {
                assert(self@.coalescers =~= old(self)@.coalescers);
            },
        }
    }

    /// Takes the prioritized entry that runs next off the queue and runs
    /// it.
    fn step(&mut self)
        requires
            old(self).wf(),
            old(self)@.depth > 0,
            old(self)@.tx.prioritized.len() > 0,
        ensures
            final(self)@ == old(self)@.stepped(),
            final(self).wf(),
    {
        proof {
            old(self)@.lemma_stepped();
        }
        let popped: Option<Entry> = self.transaction.pop_prioritized();
        assert(self@ == old(self)@.popped());
        match popped {
            Some(entry) => {
                match entry.action {
                    Action::Flush(c) => {
                        assert(c == old(self)@.next_flush());
                        let out: usize = self.coalescers[c].out;
                        match self.unload(c) {
                            Some(acc) => {
                                self.send(out, acc);
                            },
                            None => {
                                assert(self@.coalescers =~= old(self)@.coalescers);
                            },
                        }
                    },
                }
            },
            None => {},
        }
    }

    /// Runs one last action.
    fn tidy(&mut self, action: LastAction)
        requires
            old(self)@.last_ok(action),
        ensures
            final(self)@ == old(self)@.tidied(action),
    {
        match action {
            LastAction::ClearFirings(s) => {
                self.streams[s].firings = Vec::new();
                assert(self@.streams =~= old(self)@.tidied(action).streams);
            },
            LastAction::Commit(cell) => {
                match self.cells[cell].next {
                    Some(a) => {
                        self.cells[cell].value = a;
                    },
                    None => {},
                }
                self.cells[cell].next = None;
                assert(self@.cells =~= old(self)@.tidied(action).cells);
            },
        }
    }

    /// Closes the transaction.
    ///
    /// The priority queue drains: each time the entry with the smallest
    /// rank runs, and of several with that rank the one queued first. Then
    /// the last actions run in the order they were queued. Then no
    /// transaction is current any more, and the post actions fall due in
    /// the order they were queued.
    pub fn propergate(&mut self)
        requires
            old(self).wf(),
            old(self)@.depth > 0,
            old(self)@.all_bound(),
        ensures
            final(self)@ == old(self)@.closed(),
            final(self).wf(),
    {
        proof {
            old(self)@.lemma_closed();
        }
        while !self.transaction.is_drained()
            invariant
                self.wf(),
                self@.depth > 0,
                self@.drained() == old(self)@.drained(),
            decreases self@.tx.prioritized.len(),
        {
            proof {
                self@.lemma_stepped();
            }
            self.step();
        }
        let ghost drained = self@;
        assert(drained == old(self)@.drained());
        proof {
            drained.lemma_tidied_all(drained.tx.last);
        }
        let actions: Vec<LastAction> = self.transaction.take_last();
        let ghost cleared = self@;
        let n: usize = actions.len();
        let mut k: usize = 0;
        proof {
            assert(actions@.take(0) =~= Seq::<LastAction>::empty());
            assert forall|j: int| 0 <= j < actions@.len() implies cleared.last_ok(
                #[trigger] actions@[j],
            ) by {
                assert(drained.last_ok(drained.tx.last[j]));
            }
        }
        while k < n
            invariant
                0 <= k <= n,
                n == actions@.len(),
                forall|j: int| 0 <= j < actions@.len() ==> cleared.last_ok(#[trigger] actions@[j]),
                self@ == cleared.tidied_all(actions@.take(k as int)),
            decreases n - k,
        {
            proof {
                assert forall|j: int| 0 <= j < actions@.take(k as int).len() implies cleared.last_ok(
                    #[trigger] actions@.take(k as int)[j],
                ) by {
                    assert(actions@.take(k as int)[j] == actions@[j]);
                }
                cleared.lemma_tidied_all(actions@.take(k as int));
                assert(actions@.take(k + 1).drop_last() =~= actions@.take(k as int));
                assert(actions@.take(k + 1).last() == actions@[k as int]);
                assert(cleared.last_ok(actions@[k as int]));
            }
            self.tidy(actions[k]);
            k = k + 1;
        }
        proof {
            assert(actions@.take(n as int) =~= actions@);
            cleared.lemma_tidied_all(actions@);
        }
        let ghost tidied = self@;
        let mut tokens: Vec<u32> = self.transaction.take_post();
        self.posted.append(&mut tokens);
        self.transaction_depth = 0;
        proof {
            let want = old(self)@.closed();
            let t = drained.tidied_all(drained.tx.last);
            assert(self@.streams =~= want.streams) by {
                assert forall|s: int| 0 <= s < want.streams.len() implies self@.streams[s]
                    == want.streams[s] by {
                    let u = s as usize;
                    assert(tidied.streams[u as int] == t.streams[u as int]);
                }
            }
            assert(self@.cells =~= want.cells) by {
                assert forall|i: int| 0 <= i < want.cells.len() implies self@.cells[i]
                    == want.cells[i] by {
                    let u = i as usize;
                    assert(tidied.cells[u as int] == t.cells[u as int]);
                }
            }
            assert(self@.tx == want.tx);
            assert(self@ == want);
        }
    }

    /// Poisons the transaction, as when a handler has failed: the
    /// prioritized actions that remain are discarded, and with them what
    /// the coalescers hold. The last actions and the post actions still
    /// run when the transaction closes.
    pub fn poison(&mut self)
        requires
            old(self).wf(),
            old(self)@.depth > 0,
        ensures
            final(self)@ == old(self)@.poisoned(),
            final(self).wf(),
    {
        proof {
            old(self)@.lemma_poisoned();
        }
        self.transaction.discard_prioritized();
        let n: usize = self.coalescers.len();
        let mut c: usize = 0;
        let ghost before = self@;
        while c < n
            invariant
                0 <= c <= n,
                n == before.coalescers.len(),
                self@ == (State { coalescers: self@.coalescers, ..before }),
                self@.coalescers.len() == n,
                forall|j: int|
                    0 <= j < c ==> (#[trigger] self@.coalescers[j]) == (CoalesceHandlerData {
                        accum_op: None,
                        ..before.coalescers[j]
                    }),
                forall|j: int| c <= j < n ==> (#[trigger] self@.coalescers[j]) == before.coalescers[j],
            decreases n - c,
        {
            self.coalescers[c].accum_op = None;
            c = c + 1;
        }
        proof {
            assert(self@.tx.prioritized =~= Seq::<Entry>::empty());
            assert(self@.tx == old(self)@.poisoned().tx);
            assert(self@.coalescers =~= old(self)@.poisoned().coalescers);
        }
    }

    /// The current value of cell `cell`, inside a transaction. An update
    /// that is pending in the transaction does not show.
    pub fn sample_no_trans(&self, cell: usize) -> (value: A)
        requires
            self@.depth > 0,
            cell < self@.cells.len(),
        ensures
            value == self@.cells[cell as int].value,
    {
        self.cells[cell].value
    }

    /// Leaves the transaction that `begin` opened or joined. The outermost
    /// transaction closes.
    pub fn end(&mut self)
        requires
            old(self).wf(),
            old(self)@.depth > 0,
            old(self)@.depth > 1 || old(self)@.all_bound(),
        ensures
            final(self)@ == old(self)@.left(),
            final(self).wf(),
    {
        if self.transaction_depth > 1 {
            self.transaction_depth = self.transaction_depth - 1;
            proof {
                old(self)@.lemma_inv_frame(self@);
            }
        } else {
            self.propergate();
        }
    }

    /// Adds a stream, on a node of its own with rank zero, and returns its
    /// index.
    pub fn new_stream(&mut self) -> (s: usize)
        requires
            old(self).wf(),
            old(self)@.next_id < u32::MAX,
        ensures
            s == old(self)@.streams.len(),
            final(self)@ == old(self)@.with_stream(),
            final(self).wf(),
    {
        let node: usize = self.graph.add(&mut self.ids, 0);
        let s: usize = self.streams.len();
        self.streams.push(StreamData { node, firings: Vec::new() });
        let streams: usize = self.streams.len();
        let nodes: usize = self.graph.len();
        proof {
            assert(self@.streams =~= old(self)@.with_stream().streams);
            old(self)@.lemma_with_stream();
        }
        s
    }

    /// Adds a coalescer that folds by `f` into stream `out`, and returns
    /// its index. Without a folding function the newer value wins.
    pub fn new_coalescer(&mut self, f: Option<F>, out: usize) -> (c: usize)
        requires
            old(self).wf(),
            out < old(self)@.streams.len(),
            f matches Some(g) ==> fold_is_total(g) && fold_is_function(g),
        ensures
            c == old(self)@.coalescers.len(),
            final(self)@ == old(self)@.with_coalescer(f, out),
            final(self).wf(),
    {
        let c: usize = self.coalescers.len();
        self.coalescers.push(CoalesceHandlerData { f, out, accum_op: None });
        let coalescers: usize = self.coalescers.len();
        proof {
            old(self)@.lemma_with_coalescer(f, out);
        }
        c
    }

    /// Adds a cell that holds `initial` and takes its updates from stream
    /// `updates`, and returns its index. Coalescer `feed` is the one that
    /// flushes into `updates`, and lets the newer value win.
    pub fn new_cell(&mut self, initial: A, updates: usize, feed: usize) -> (cell: usize)
        requires
            old(self).wf(),
            old(self)@.next_id < u32::MAX,
            updates < old(self)@.streams.len(),
            feed < old(self)@.coalescers.len(),
            old(self)@.coalescers[feed as int].out == updates,
            old(self)@.coalescers[feed as int].f is None,
        ensures
            cell == old(self)@.cells.len(),
            final(self)@ == old(self)@.with_cell(initial, updates, feed),
            final(self).wf(),
    {
        let cell: usize = self.cells.len();
        self.cells.push(CellData { value: initial, next: None, updates, feed });
        let cells: usize = self.cells.len();
        let node: usize = self.streams[updates].node;
        proof {
            assert(0 < old(self)@.streams[updates as int].node < old(self)@.nodes.len());
            lemma_link_upwards(
                old(self)@.nodes,
                node as int,
                Target {
                    id: old(self)@.next_id,
                    node: 0,
                    action: TransactionHandler::Update(cell),
                },
            );
            old(self)@.lemma_with_cell(initial, updates, feed);
        }
        self.graph.link_to(&mut self.ids, node, 0, TransactionHandler::Update(cell));
        cell
    }

    /// Attaches an observer to stream `s` and returns its id.
    ///
    /// The observer gets a new edge, last among the listeners of the
    /// stream, and is owed at once what the stream has already fired in the
    /// current transaction. Nothing is attached to a stream that the world
    /// does not hold: the world stays as it is and the result is `None`.
    pub fn listen(&mut self, s: usize) -> (attached: Option<u32>)
        requires
            old(self).wf(),
            s < old(self)@.streams.len() ==> old(self)@.next_id < u32::MAX,
        ensures
            attached == if s < old(self)@.streams.len() {
                Some(old(self)@.next_id)
            } else {
                None
            },
            final(self)@ == old(self)@.listened(s),
            s >= old(self)@.streams.len() ==> final(self)@ == old(self)@,
            final(self).wf(),
    {
        if s >= self.streams.len() {
            return None;
        }
        let id: u32 = self.attach(s);
        let ghost linked = self@;
        let ghost firings = linked.streams[s as int].firings;
        let ghost owed = |a: A| Delivery { listener: id, value: a };
        let n: usize = self.streams[s].firings.len();
        let mut k: usize = 0;
        assert(firings.take(0).map_values(owed) =~= Seq::<Delivery<A>>::empty());
        while k < n
            invariant
                0 <= k <= n,
                n == firings.len(),
                s < linked.streams.len(),
                firings == linked.streams[s as int].firings,
                owed == (|a: A| Delivery { listener: id, value: a }),
                self@ == linked.with_deliveries(id, firings.take(k as int)),
            decreases n - k,
        {
            let a: A = self.streams[s].firings[k];
            self.deliveries.push(Delivery { listener: id, value: a });
            proof {
                assert(firings.take(k + 1).map_values(owed) =~= firings.take(k as int).map_values(
                    owed,
                ).push(owed(a)));
                assert(self@.deliveries =~= linked.with_deliveries(
                    id,
                    firings.take(k + 1),
                ).deliveries);
            }
            k = k + 1;
        }
        proof {
            assert(firings.take(n as int) =~= firings);
            linked.lemma_inv_frame(self@);
        }
        Some(id)
    }

    /// Attaches an observer to cell `cell` and returns its id.
    ///
    /// The observer gets a new edge on the stream of updates of the cell,
    /// and is owed the current value at once. Nothing is attached to a
    /// cell that the world does not hold: the world stays as it is and the
    /// result is `None`.
    pub fn observe(&mut self, cell: usize) -> (attached: Option<u32>)
        requires
            old(self).wf(),
            cell < old(self)@.cells.len() ==> old(self)@.next_id < u32::MAX,
        ensures
            attached == if cell < old(self)@.cells.len() {
                Some(old(self)@.next_id)
            } else {
                None
            },
            final(self)@ == old(self)@.observed(cell),
            cell >= old(self)@.cells.len() ==> final(self)@ == old(self)@,
            final(self).wf(),
    {
        if cell >= self.cells.len() {
            return None;
        }
        let updates: usize = self.cells[cell].updates;
        let value: A = self.cells[cell].value;
        assert(old(self)@.cell_ok(cell as int));
        let id: u32 = self.attach(updates);
        let ghost linked = self@;
        self.deliveries.push(Delivery { listener: id, value });
        proof {
            let owed = |a: A| Delivery { listener: id, value: a };
            assert(seq![value].map_values(owed) =~= seq![owed(value)]);
            assert(self@.deliveries =~= linked.with_deliveries(id, seq![value]).deliveries);
            linked.lemma_inv_frame(self@);
        }
        Some(id)
    }

    /// Adds the edge of a new observer to the listeners of stream `s`.
    fn attach(&mut self, s: usize) -> (id: u32)
        requires
            old(self).wf(),
            old(self)@.next_id < u32::MAX,
            s < old(self)@.streams.len(),
        ensures
            id == old(self)@.next_id,
            final(self)@ == old(self)@.with_target(s, old(self)@.next_listener()),
            final(self).wf(),
    {
        let id: u32 = self.ids.peek();
        let node: usize = self.streams[s].node;
        proof {
            assert(0 < old(self)@.streams[s as int].node < old(self)@.nodes.len());
            lemma_link_upwards(old(self)@.nodes, node as int, old(self)@.next_listener());
            old(self)@.lemma_with_target(s, old(self)@.next_listener());
        }
        self.graph.link_to(&mut self.ids, node, 0, TransactionHandler::Notify(id));
        id
    }

    /// Declares a stream loop, inside a transaction: a new stream that is
    /// bound to its source later. Returns the index of the loop.
    pub fn new_loop(&mut self) -> (l: usize)
        requires
            old(self).wf(),
            old(self)@.depth > 0,
            old(self)@.next_id < u32::MAX,
        ensures
            l == old(self)@.loops.len(),
            final(self)@ == old(self)@.with_loop(),
            final(self).wf(),
    {
        let s: usize = self.new_stream();
        let l: usize = self.loops.len();
        self.loops.push(LoopData { stream: s, bound: false });
        let loops: usize = self.loops.len();
        let streams: usize = self.streams.len();
        let nodes: usize = self.graph.len();
        proof {
            old(self)@.lemma_with_loop();
        }
        l
    }

    /// The number of loops.
    pub fn loop_count(&self) -> (n: usize)
        ensures
            n == self@.loops.len(),
    {
        self.loops.len()
    }

    /// The stream of loop `l`.
    pub fn loop_stream(&self, l: usize) -> (s: usize)
        requires
            l < self@.loops.len(),
        ensures
            s == self@.loops[l as int].stream,
    {
        self.loops[l].stream
    }

    /// Whether loop `l` has been bound to its source.
    pub fn is_bound(&self, l: usize) -> (bound: bool)
        requires
            l < self@.loops.len(),
        ensures
            bound == self@.loops[l as int].bound,
    {
        self.loops[l].bound
    }

    /// Whether every loop has been bound to its source.
    pub fn all_loops_bound(&self) -> (bound: bool)
        ensures
            bound == self@.all_bound(),
    {
        let n: usize = self.loops.len();
        let mut l: usize = 0;
        while l < n
            invariant
                0 <= l <= n,
                n == self@.loops.len(),
                forall|j: int| 0 <= j < l ==> (#[trigger] self@.loops[j]).bound,
            decreases n - l,
        {
            if !self.loops[l].bound {
                return false;
            }
            l = l + 1;
        }
        true
    }

    /// Whether the node that observers hang on is at the top of the rank
    /// space and the node of every stream is below it.
    fn tops_hold(&self) -> (holds: bool)
        requires
            self.graph@.len() >= 1,
            forall|s: int|
                0 <= s < self.streams@.len() ==> (#[trigger] self.streams@[s]).node
                    < self.graph@.len(),
        ensures
            holds == tops_hold(self@.nodes, homes_of(self@.streams)),
    {
        if self.graph.rank(0) != u64::MAX {
            return false;
        }
        let n: usize = self.streams.len();
        let mut s: usize = 0;
        while s < n
            invariant
                0 <= s <= n,
                n == self.streams@.len(),
                self@.nodes == self.graph@,
                forall|t: int|
                    0 <= t < self.streams@.len() ==> (#[trigger] self.streams@[t]).node
                        < self.graph@.len(),
                forall|t: int|
                    0 <= t < s ==> self@.nodes[(#[trigger] homes_of(self@.streams)[t]) as int].rank
                        < u64::MAX,
            decreases n - s,
        {
            let node: usize = self.streams[s].node;
            assert(node == homes_of(self@.streams)[s as int]);
            assert(self.streams@[s as int].node < self.graph@.len());
            if self.graph.rank(node) == u64::MAX {
                return false;
            }
            s = s + 1;
        }
        true
    }

    /// Binds loop `l` to stream `s`, inside a transaction, and says
    /// whether it did.
    ///
    /// The source gets an edge that forwards to the stream of the loop:
    /// from now on what `s` fires, the loop fires. Before the edge is
    /// added the ranks downstream of the loop are raised above that of the
    /// source. Where this would not leave the rank growing along every
    /// edge, as when the binding closes a cycle, nothing is bound and the
    /// result is `false`. So it is where the world does not hold the loop
    /// or the stream: the world then stays as it is.
    pub fn bind_loop(&mut self, l: usize, s: usize) -> (bound: bool)
        requires
            old(self).wf(),
            old(self)@.depth > 0,
            old(self)@.next_id < u32::MAX,
            l < old(self)@.loops.len() ==> !old(self)@.loops[l as int].bound,
        ensures
            final(self)@ == old(self)@.looped(l, s),
            bound == (old(self)@.has_room(l, s) && old(self)@.link_holds(l, s)),
            l >= old(self)@.loops.len() || s >= old(self)@.streams.len() ==> !bound,
            l >= old(self)@.loops.len() || s >= old(self)@.streams.len() ==> final(self)@ == old(
                self,
            )@,
            final(self).wf(),
    {
        if l >= self.loops.len() || s >= self.streams.len() {
            return false;
        }
        let ghost before = self@;
        let ghost g = before.nodes;
        proof {
            before.lemma_looped(l, s);
            assert(before.loops[l as int].stream < before.streams.len());
            assert(0 < before.streams[s as int].node < before.nodes.len());
        }
        let source: usize = self.streams[s].node;
        let ls: usize = self.loops[l].stream;
        assert(0 < before.streams[ls as int].node < before.nodes.len());
        let target: usize = self.streams[ls].node;
        let limit: u64 = self.graph.rank(source);
        let count: usize = self.graph.len();
        if source == target {
            return false;
        }
        if limit >= u64::MAX - (count as u64) {
            return false;
        }
        let saved: Vec<u64> = self.graph.ranks();
        proof {
            lemma_unvisited_bound(frame(g), Set::empty(), g.len() as int);
            assert(frame(g).len() == g.len());
            lemma_sweep_node_has_room(
                frame(g),
                sweep_start(g, Set::empty()),
                target as int,
                limit,
            );
        }
        let linked: (Target, bool) = self.graph.link_to(
            &mut self.ids,
            source,
            target,
            TransactionHandler::Forward(ls),
        );
        let ghost edge = linked.0;
        assert(edge == before.loop_edge(l));
        assert(self.graph@ == before.linked(l, s));
        assert(self.graph@.len() == g.len()) by {
            assert(with_ranks(g, link_sweep(g, source as int, target as int).ranks).len() == g.len());
        }
        assert forall|t: int| 0 <= t < self.streams@.len() implies (#[trigger] self.streams@[t]).node
            < self.graph@.len() by {
            assert(0 < before.streams[t].node < before.nodes.len());
        }
        let grows: bool = self.graph.ranks_increase();
        let tops: bool = self.tops_hold();
        assert(homes_of(self@.streams) == homes_of(before.streams));
        if grows && tops {
            self.loops[l].bound = true;
            assert(self@.loops =~= before.looped(l, s).loops);
            assert(self@ == before.looped(l, s));
            true
        } else {
            self.graph.set_ranks(&saved);
            self.graph.unlink_to(source, linked.0);
            proof {
                let swept = with_ranks(g, link_sweep(g, source as int, target as int).ranks);
                let g1 = with_listener(swept, source as int, edge);
                let g2 = with_ranks(g1, ranks_of(g));
                let g3 = without_listener(g2, source as int, edge.id);
                let keep = |t: Target| t.id != edge.id;
                let old_edges = g[source as int].listeners;
                assert(g2[source as int].listeners == old_edges.push(edge));
                assert forall|i: int| 0 <= i < old_edges.len() implies keep(
                    #[trigger] old_edges[i],
                ) by {
                    assert(g[source as int].listeners[i].id < before.next_id);
                }
                lemma_filter_keeps_all(old_edges, keep);
                assert(old_edges.push(edge).filter(keep) == old_edges) by {
                    reveal(Seq::filter);
                    assert(old_edges.push(edge).drop_last() =~= old_edges);
                }
                assert(g3 =~= g);
                assert(self@ == before.looped(l, s));
            }
            false
        }
    }

    /// Detaches the observer `id` from stream `s`: its edge leaves the
    /// listeners of the stream. Where the stream has no such edge, or `id`
    /// names an edge of another kind, one that wires a cell or binds a
    /// loop, or the world does not hold the stream, nothing changes. What
    /// the observer is already owed stays owed.
    pub fn unlisten(&mut self, s: usize, id: u32)
        requires
            old(self).wf(),
        ensures
            final(self)@ == old(self)@.unlistened(s, id),
            s >= old(self)@.streams.len() ==> final(self)@ == old(self)@,
            final(self).wf(),
    {
        if s >= self.streams.len() {
            return ;
        }
        let node: usize = self.streams[s].node;
        proof {
            assert(0 < old(self)@.streams[s as int].node < old(self)@.nodes.len());
            old(self)@.lemma_unlistened(s, id);
        }
        let n: usize = self.graph.nodes[node].listeners.len();
        let mut k: usize = 0;
        let mut detachable: bool = true;
        while k < n
            invariant
                0 <= k <= n,
                self@ == old(self)@,
                s < self@.streams.len(),
                node == self@.streams[s as int].node,
                node < self@.nodes.len(),
                n == self@.listeners_of(s).len(),
                detachable == (forall|j: int|
                    0 <= j < k && (#[trigger] self@.listeners_of(s)[j]).id == id
                        ==> self@.listeners_of(s)[j].action is Notify),
            decreases n - k,
        {
            let t: Target = self.graph.nodes[node].listeners[k];
            assert(t == self@.listeners_of(s)[k as int]);
            if t.id == id {
                match t.action {
                    TransactionHandler::Notify(_) => {},
                    _ => {
                        detachable = false;
                    },
                }
            }
            k = k + 1;
        }
        if detachable {
            self.graph.unlink_to(
                node,
                Target { id, node: 0, action: TransactionHandler::Notify(id) },
            );
        }
    }

    /// The current value of cell `cell`. An update that is pending in the
    /// current transaction does not show.
    pub fn sample(&self, cell: usize) -> (value: A)
        requires
            cell < self@.cells.len(),
        ensures
            value == self@.cells[cell as int].value,
    {
        self.cells[cell].value
    }

    /// The stream of updates of cell `cell`.
    pub fn updates_of(&self, cell: usize) -> (updates: usize)
        requires
            cell < self@.cells.len(),
        ensures
            updates == self@.cells[cell as int].updates,
    {
        self.cells[cell].updates
    }

    /// The coalescer that feeds cell `cell`.
    pub fn feed_of(&self, cell: usize) -> (feed: usize)
        requires
            cell < self@.cells.len(),
        ensures
            feed == self@.cells[cell as int].feed,
    {
        self.cells[cell].feed
    }

    /// Hands out what observers are owed, oldest first, and owes nothing
    /// any more.
    pub fn take_deliveries(&mut self) -> (owed: Vec<Delivery<A>>)
        requires
            old(self).wf(),
        ensures
            owed@ == old(self)@.deliveries,
            final(self)@ == (State { deliveries: Seq::empty(), ..old(self)@ }),
            final(self).wf(),
    {
        let mut owed: Vec<Delivery<A>> = Vec::new();
        std::mem::swap(&mut owed, &mut self.deliveries);
        proof {
            old(self)@.lemma_inv_frame(self@);
        }
        owed
    }

    /// Hands out the tokens of the post actions that are due, oldest
    /// first, and leaves none due.
    pub fn take_posted(&mut self) -> (due: Vec<u32>)
        requires
            old(self).wf(),
        ensures
            due@ == old(self)@.posted,
            final(self)@ == (State { posted: Seq::empty(), ..old(self)@ }),
            final(self).wf(),
    {
        let mut due: Vec<u32> = Vec::new();
        std::mem::swap(&mut due, &mut self.posted);
        proof {
            old(self)@.lemma_inv_frame(self@);
        }
        due
    }

    /// Runs `body` inside a transaction and returns what it returns.
    ///
    /// If no transaction is open, one is opened, `body` runs, and the
    /// transaction closes. Otherwise `body` runs inside the transaction
    /// that is open, and nothing closes.
    pub fn run<R, B: FnOnce(&mut FrpContext<A, F>) -> R>(&mut self, body: B) -> (r: R)
        requires
            old(self).wf(),
            old(self)@.depth < u32::MAX,
            forall|c: &mut FrpContext<A, F>|
                c.wf() && c@ == old(self)@.entered() ==> call_requires(body, (c,)),
            forall|c: &mut FrpContext<A, F>, r: R| #[trigger]
                call_ensures(body, (c,), r) ==> final(c).wf() && final(c)@.depth == c@.depth
                    && (final(c)@.depth > 1 || final(c)@.all_bound()),
        ensures
            final(self).wf(),
            exists|c: &mut FrpContext<A, F>| #[trigger]
                call_ensures(body, (c,), r) && c@ == old(self)@.entered() && final(self)@
                    == final(c)@.left(),
    {
        self.begin();
        let r: R = body(self);
        self.end();
        r
    }

    /// Runs `k` inside a transaction of the world that `env` carries.
    ///
    /// The depth of the world goes up by one, `k` runs on `env`, and the
    /// depth goes down again. If that takes it to zero the transaction
    /// closes.
    pub fn transaction<ENV, W: WithFrpContext<ENV, A, F>, K: FnOnce(&mut ENV, &W)>(
        env: &mut ENV,
        with_frp_context: &W,
        k: K,
    )
        requires
            with_frp_context.world(*old(env)).inv(),
            with_frp_context.world(*old(env)).depth < u32::MAX,
            forall|e: &mut ENV|
                with_frp_context.world(*e).inv() && with_frp_context.world(*e)
                    == with_frp_context.world(*old(env)).entered() ==> call_requires(
                    k,
                    (e, with_frp_context),
                ),
            forall|e: &mut ENV| #[trigger]
                call_ensures(k, (e, with_frp_context), ()) ==> with_frp_context.world(
                    *final(e),
                ).inv() && with_frp_context.world(*final(e)).depth == with_frp_context.world(
                    *e,
                ).depth && (with_frp_context.world(*final(e)).depth > 1
                    || with_frp_context.world(*final(e)).all_bound()),
        ensures
            with_frp_context.world(*final(env)).inv(),
            exists|e: &mut ENV| #[trigger]
                call_ensures(k, (e, with_frp_context), ()) && with_frp_context.world(*e)
                    == with_frp_context.world(*old(env)).entered() && with_frp_context.world(
                    *final(env),
                ) == with_frp_context.world(*final(e)).left(),
    {
        let enter = |ctx: &mut FrpContext<A, F>|
            requires
                ctx.wf(),
                ctx@.depth < u32::MAX,
            ensures
                final(ctx)@ == old(ctx)@.entered(),
                final(ctx).wf(),
            {
                ctx.begin();
            };
        with_frp_context.with_frp_context(env, enter);
        k(env, with_frp_context);
        let leave = |ctx: &mut FrpContext<A, F>|
            requires
                ctx.wf(),
                ctx@.depth > 0,
                ctx@.depth > 1 || ctx@.all_bound(),
            ensures
                final(ctx)@ == old(ctx)@.left(),
                final(ctx).wf(),
            {
                ctx.end();
            };
        with_frp_context.with_frp_context(env, leave);
    }
}

} // verus!
