//! The reactive world as a mathematical value, and every operation of the
//! engine as a function on it.

use vstd::prelude::*;
use crate::handler::{Action, LastAction, TransactionHandler};
use crate::node::{
    ranks_increase, spec_link_to, targets_in_range, with_listener, without_listener, NodeView,
    Target,
};
use crate::transaction::{first_min, Entry, TransactionView};

verus! {

/// A value on its way to an observer.
#[derive(Clone, Copy, PartialEq, Eq, Debug)]
pub struct Delivery<A> {
    /// The id of the observer: the id of the listener that `listen`
    /// returned.
    pub listener: u32,
    pub value: A,
}

/// The mathematical value of a stream.
pub struct StreamView<A> {
    /// Index of the node of the stream.
    pub node: usize,
    /// What the stream has fired in the current transaction, oldest first.
    pub firings: Seq<A>,
}

/// What the engine keeps of a cell.
#[derive(Clone, Copy, Debug)]
pub struct CellData<A> {
    /// The current value.
    pub value: A,
    /// The value that becomes current when the transaction ends, if the
    /// cell was updated in it.
    pub next: Option<A>,
    /// Index of the stream of updates.
    pub updates: usize,
    /// Index of the coalescer that feeds the stream of updates.
    pub feed: usize,
}

/// What the engine keeps of a stream loop: a stream that is declared
/// first and bound to its source later.
#[derive(Clone, Copy, PartialEq, Eq, Debug, Structural)]
pub struct LoopData {
    /// Index of the stream of the loop.
    pub stream: usize,
    /// Whether the loop has been bound to its source.
    pub bound: bool,
}

/// The state of one coalescer.
pub struct CoalesceHandlerData<A, F> {
    /// The folding function; `None` stands for "the newer value wins".
    pub f: Option<F>,
    /// Index of the stream that the fold is forwarded to.
    pub out: usize,
    /// The fold of what has arrived since the last flush.
    pub accum_op: Option<A>,
}

/// The value that `f` returns for `acc` and `a`.
pub open spec fn fold_of<A, F: Fn(&A, &A) -> A>(f: F, acc: A, a: A) -> A {
    choose|r: A| call_ensures(f, (&acc, &a), r)
}

/// `f` can be called on every pair of values.
pub open spec fn fold_is_total<A, F: Fn(&A, &A) -> A>(f: F) -> bool {
    forall|x: A, y: A| call_requires(f, (&x, &y))
}

/// `f` returns one value for each pair of values.
pub open spec fn fold_is_function<A, F: Fn(&A, &A) -> A>(f: F) -> bool {
    forall|x: A, y: A, r: A| call_ensures(f, (&x, &y), r) ==> r == fold_of(f, x, y)
}

/// What a coalescer with the rule `f` holds after `a` has arrived on top of
/// `acc`.
pub open spec fn merged<A, F: Fn(&A, &A) -> A>(f: Option<F>, acc: A, a: A) -> A {
    match f {
        Some(g) => fold_of(g, acc, a),
        None => a,
    }
}

/// A flush of coalescer `c` is on the queue `q`.
pub open spec fn has_flush(q: Seq<Entry>, c: usize) -> bool {
    exists|j: int| 0 <= j < q.len() && (#[trigger] q[j]).action == Action::Flush(c)
}

/// A flush that is queued stays queued when an entry is added, and the
/// flush that is added is queued.
pub proof fn lemma_has_flush_push(q: Seq<Entry>, e: Entry, c: usize)
    requires
        has_flush(q, c) || e.action == Action::Flush(c),
    ensures
        has_flush(q.push(e), c),
{
    if has_flush(q, c) {
        let j = choose|j: int| 0 <= j < q.len() && (#[trigger] q[j]).action == Action::Flush(c);
        assert(q.push(e)[j] == q[j]);
    } else {
        assert(q.push(e)[q.len() as int] == e);
    }
}

/// A flush that is queued stays queued when another entry is taken off.
pub proof fn lemma_has_flush_remove(q: Seq<Entry>, i: int, c: usize)
    requires
        has_flush(q, c),
        0 <= i < q.len(),
        q[i].action != Action::Flush(c),
    ensures
        has_flush(q.remove(i), c),
{
    let j = choose|j: int| 0 <= j < q.len() && (#[trigger] q[j]).action == Action::Flush(c);
    if j < i {
        assert(q.remove(i)[j] == q[j]);
    } else {
        assert(q.remove(i)[j - 1] == q[j]);
    }
}

/// One of the edges `targets` updates cell `cell`.
pub open spec fn has_update(targets: Seq<Target>, cell: usize) -> bool {
    exists|k: int|
        0 <= k < targets.len() && (#[trigger] targets[k]).action == TransactionHandler::Update(
            cell,
        )
}

/// Every edge has an id that was handed out, and an edge that notifies an
/// observer carries the id of that observer.
pub open spec fn edges_named(nodes: Seq<NodeView>, next_id: u32) -> bool {
    forall|n: int, k: int|
        0 <= n < nodes.len() && 0 <= k < nodes[n].listeners.len() ==> (
        #[trigger] nodes[n].listeners[k]).id < next_id && (nodes[n].listeners[k].action matches TransactionHandler::Notify(
            x,
        ) ==> x == nodes[n].listeners[k].id)
}

/// An edge that is added with the next id keeps the edges named.
pub proof fn lemma_named_push(nodes: Seq<NodeView>, next_id: u32, node: int, target: Target)
    requires
        edges_named(nodes, next_id),
        0 <= node < nodes.len(),
        next_id < u32::MAX,
        target.id == next_id,
        target.action matches TransactionHandler::Notify(x) ==> x == target.id,
    ensures
        edges_named(with_listener(nodes, node, target), (next_id + 1) as u32),
{
    let after = with_listener(nodes, node, target);
    assert forall|n: int, k: int|
        0 <= n < after.len() && 0 <= k < after[n].listeners.len() implies (
    #[trigger] after[n].listeners[k]).id < next_id + 1 && (after[n].listeners[k].action matches TransactionHandler::Notify(
        x,
    ) ==> x == after[n].listeners[k].id) by {
        if n == node && k == nodes[n].listeners.len() {
        } else {
            assert(after[n].listeners[k] == nodes[n].listeners[k]);
        }
    }
}

/// Taking edges away keeps the edges named.
pub proof fn lemma_named_filter(nodes: Seq<NodeView>, next_id: u32, node: int, id: u32)
    requires
        edges_named(nodes, next_id),
        0 <= node < nodes.len(),
    ensures
        edges_named(without_listener(nodes, node, id), next_id),
{
    let after = without_listener(nodes, node, id);
    let all = nodes[node].listeners;
    let keep = |t: Target| t.id != id;
    assert forall|n: int, k: int|
        0 <= n < after.len() && 0 <= k < after[n].listeners.len() implies (
    #[trigger] after[n].listeners[k]).id < next_id && (after[n].listeners[k].action matches TransactionHandler::Notify(
        x,
    ) ==> x == after[n].listeners[k].id) by {
        if n == node {
            let t = all.filter(keep)[k];
            assert(all.filter(keep).contains(t));
            all.lemma_filter_contains_rev(keep, t);
            let j = choose|j: int| 0 <= j < all.len() && all[j] == t;
            assert(nodes[node].listeners[j] == t);
        } else {
            assert(after[n].listeners[k] == nodes[n].listeners[k]);
        }
    }
}

/// `a` is the beginning of `b`.
pub open spec fn begins<T>(a: Seq<T>, b: Seq<T>) -> bool {
    a.len() <= b.len() && b.take(a.len() as int) == a
}

/// What the beginning holds, the whole holds.
pub proof fn lemma_begins_contains<T>(a: Seq<T>, b: Seq<T>, x: T)
    requires
        begins(a, b),
        a.contains(x),
    ensures
        b.contains(x),
{
    let j = choose|j: int| 0 <= j < a.len() && a[j] == x;
    assert(b.take(a.len() as int)[j] == b[j]);
}

/// A sequence begins with itself.
pub proof fn lemma_begins_self<T>(a: Seq<T>)
    ensures
        begins(a, a),
{
    assert(a.take(a.len() as int) =~= a);
}

/// What begins a sequence begins it still when an element is added at the
/// end.
pub proof fn lemma_begins_push<T>(a: Seq<T>, b: Seq<T>, x: T)
    requires
        begins(a, b),
    ensures
        begins(a, b.push(x)),
{
    assert(b.push(x).take(a.len() as int) =~= b.take(a.len() as int));
}

/// Beginning is transitive.
pub proof fn lemma_begins_trans<T>(a: Seq<T>, b: Seq<T>, c: Seq<T>)
    requires
        begins(a, b),
        begins(b, c),
    ensures
        begins(a, c),
{
    assert(c.take(a.len() as int) =~= c.take(b.len() as int).take(a.len() as int));
}

/// What propagation follows and never changes: the nodes with their edges
/// and ranks, and the node of each stream.
pub struct Wiring {
    pub nodes: Seq<NodeView>,
    /// The node of each stream.
    pub homes: Seq<usize>,
}

impl Wiring {
    /// Every stream has a node, the rank grows along every edge, and an
    /// edge that forwards to a stream ends at the node of that stream.
    pub open spec fn ok(self) -> bool {
        &&& forall|s: int| 0 <= s < self.homes.len() ==> (#[trigger] self.homes[s]) < self.nodes.len()
        &&& ranks_increase(self.nodes)
        &&& forall|n: int, k: int|
            0 <= n < self.nodes.len() && 0 <= k < self.nodes[n].listeners.len() ==> ((
            #[trigger] self.nodes[n].listeners[k]).action matches TransactionHandler::Forward(t)
                ==> t < self.homes.len() && self.nodes[n].listeners[k].node
                == self.homes[t as int])
    }

    /// How far the rank of node `n` is from the top of the rank space.
    pub open spec fn height(self, n: int) -> nat {
        (u64::MAX - self.nodes[n].rank) as nat
    }

    /// How far the rank of the node of stream `s` is from the top.
    pub open spec fn stream_height(self, s: usize) -> nat {
        self.height(self.homes[s as int] as int)
    }

    /// What grounds the descent of handler `h`: for a forwarding handler,
    /// the height of the stream it forwards to.
    pub open spec fn handler_height(self, h: TransactionHandler) -> nat {
        match h {
            TransactionHandler::Forward(t) => self.stream_height(t),
            _ => 0,
        }
    }

    /// An edge that forwards leads to a stream whose node has a higher
    /// rank.
    pub proof fn lemma_forward_is_higher(self, n: int, k: int)
        requires
            self.ok(),
            0 <= n < self.nodes.len(),
            0 <= k < self.nodes[n].listeners.len(),
        ensures
            self.nodes[n].listeners[k].action matches TransactionHandler::Forward(t) ==> t
                < self.homes.len() && self.stream_height(t) < self.height(n),
    {
        let edge = self.nodes[n].listeners[k];
        assert(self.nodes[edge.node as int].rank > self.nodes[n].rank);
    }
}

/// The node that observers hang on is at the top of the rank space, and
/// the node of every stream is below it.
pub open spec fn tops_hold(nodes: Seq<NodeView>, homes: Seq<usize>) -> bool {
    &&& nodes[0].rank == u64::MAX
    &&& forall|t: int| 0 <= t < homes.len() ==> nodes[(#[trigger] homes[t]) as int].rank < u64::MAX
}

/// A sequence whose elements all pass a filter is left as it is.
pub proof fn lemma_filter_keeps_all<T>(s: Seq<T>, keep: spec_fn(T) -> bool)
    requires
        forall|i: int| 0 <= i < s.len() ==> keep(#[trigger] s[i]),
    ensures
        s.filter(keep) == s,
    decreases s.len(),
{
    reveal(Seq::filter);
    if s.len() > 0 {
        let front = s.drop_last();
        assert forall|i: int| 0 <= i < front.len() implies keep(#[trigger] front[i]) by {
            assert(front[i] == s[i]);
        }
        lemma_filter_keeps_all(front, keep);
        assert(keep(s[s.len() - 1]));
        assert(front.push(s.last()) =~= s);
    }
}

/// The cells that handler `h` marks for update when it is invoked, where
/// propagation follows `w`: a handler that updates a cell marks that cell,
/// one that forwards marks what the stream marks that it forwards to.
pub open spec fn marked_by_handler(w: Wiring, h: TransactionHandler) -> Seq<usize>
    decreases w.handler_height(h), (if h is Forward { 3nat } else { 0nat }), 0nat,
{
    match h {
        TransactionHandler::Update(cell) => seq![cell],
        TransactionHandler::Forward(t) => marked_by_stream(w, t),
        _ => Seq::empty(),
    }
}

/// The cells that the first `k` edges of node `n` mark for update, first
/// edge first.
pub open spec fn marked_by_edges(w: Wiring, n: int, k: int) -> Seq<usize>
    decreases w.height(n), 1nat, k,
    when w.ok() && 0 <= n < w.nodes.len() && 0 <= k <= w.nodes[n].listeners.len()
{
    if k == 0 {
        Seq::empty()
    } else {
        proof {
            w.lemma_forward_is_higher(n, k - 1);
        }
        marked_by_edges(w, n, k - 1) + marked_by_handler(w, w.nodes[n].listeners[k - 1].action)
    }
}

/// The cells that a firing of stream `s` marks for update: every cell
/// that depends on the stream, directly or through streams that forward,
/// in the order in which the firing reaches them. A stream that does not
/// exist marks none.
pub open spec fn marked_by_stream(w: Wiring, s: usize) -> Seq<usize>
    decreases w.stream_height(s), 2nat, 0nat,
{
    if s < w.homes.len() {
        marked_by_edges(
            w,
            w.homes[s as int] as int,
            w.nodes[w.homes[s as int] as int].listeners.len() as int,
        )
    } else {
        Seq::empty()
    }
}

/// The node of each of the streams `streams`.
pub open spec fn homes_of<A>(streams: Seq<StreamView<A>>) -> Seq<usize> {
    Seq::new(streams.len(), |s: int| streams[s].node)
}

/// The index of the node that observers hang on. It has the highest rank
/// there is, so an edge to it always leads upwards.
pub open spec fn terminal() -> int {
    0
}

/// A reactive world.
pub struct State<A, F> {
    /// The id that is handed out next.
    pub next_id: u32,
    pub nodes: Seq<NodeView>,
    /// How many transactions enclose the current point.
    pub depth: u32,
    /// The queues of the current transaction.
    pub tx: TransactionView,
    pub streams: Seq<StreamView<A>>,
    pub cells: Seq<CellData<A>>,
    pub coalescers: Seq<CoalesceHandlerData<A, F>>,
    pub loops: Seq<LoopData>,
    /// What observers are owed, oldest first.
    pub deliveries: Seq<Delivery<A>>,
    /// The tokens of the post actions that are due, oldest first.
    pub posted: Seq<u32>,
}

impl<A, F: Fn(&A, &A) -> A> State<A, F> {
    /// The world that `FrpContext::new` makes: the terminal node and
    /// nothing else.
    pub open spec fn initial() -> Self {
        State {
            next_id: 1,
            nodes: seq![NodeView { id: 0, rank: u64::MAX, listeners: Seq::empty() }],
            depth: 0,
            tx: TransactionView {
                prioritized: Seq::empty(),
                last: Seq::empty(),
                post: Seq::empty(),
            },
            streams: Seq::empty(),
            cells: Seq::empty(),
            coalescers: Seq::empty(),
            loops: Seq::empty(),
            deliveries: Seq::empty(),
            posted: Seq::empty(),
        }
    }

    /// The node of stream `s`.
    pub open spec fn node_of(self, s: usize) -> int {
        self.streams[s as int].node as int
    }

    /// The listener edges of stream `s`.
    pub open spec fn listeners_of(self, s: usize) -> Seq<Target> {
        self.nodes[self.node_of(s)].listeners
    }

    /// The handler `h` names a consumer of this world, and is one that an
    /// edge may carry.
    pub open spec fn handler_ok(self, h: TransactionHandler) -> bool {
        match h {
            TransactionHandler::Notify(_) => true,
            TransactionHandler::Coalesce(_) => false,
            TransactionHandler::Update(cell) => cell < self.cells.len(),
            TransactionHandler::Forward(t) => t < self.streams.len(),
        }
    }

    /// What propagation follows in this world.
    pub open spec fn wiring(self) -> Wiring {
        Wiring { nodes: self.nodes, homes: homes_of(self.streams) }
    }

    /// The handler `h` names a consumer of this world.
    pub open spec fn handler_valid(self, h: TransactionHandler) -> bool {
        match h {
            TransactionHandler::Notify(_) => true,
            TransactionHandler::Coalesce(c) => c < self.coalescers.len(),
            TransactionHandler::Update(cell) => cell < self.cells.len(),
            TransactionHandler::Forward(t) => t < self.streams.len(),
        }
    }

    /// Cell `i` is wired up: the coalescer that feeds it lets the newer
    /// value win and flushes into its stream of updates, and an edge of
    /// that stream updates the cell.
    pub open spec fn cell_ok(self, i: int) -> bool {
        let cell = self.cells[i];
        &&& cell.updates < self.streams.len()
        &&& cell.feed < self.coalescers.len()
        &&& self.coalescers[cell.feed as int].out == cell.updates
        &&& self.coalescers[cell.feed as int].f is None
        &&& has_update(
            self.nodes[self.streams[cell.updates as int].node as int].listeners,
            i as usize,
        )
    }

    /// The prioritized action names a coalescer that exists.
    pub open spec fn action_ok(self, action: Action) -> bool {
        match action {
            Action::Flush(c) => c < self.coalescers.len(),
        }
    }

    /// The last action names a stream or a cell that exists.
    pub open spec fn last_ok(self, action: LastAction) -> bool {
        match action {
            LastAction::ClearFirings(s) => s < self.streams.len(),
            LastAction::Commit(cell) => cell < self.cells.len(),
        }
    }

    /// The indices fit together: every edge, stream, cell, coalescer and
    /// queued action names something that exists.
    pub open spec fn wf(self) -> bool {
        &&& 1 <= self.nodes.len() <= usize::MAX
        &&& self.streams.len() <= usize::MAX
        &&& self.cells.len() <= usize::MAX
        &&& self.coalescers.len() <= usize::MAX
        &&& self.loops.len() <= usize::MAX
        &&& forall|l: int|
            0 <= l < self.loops.len() ==> (#[trigger] self.loops[l]).stream < self.streams.len()
        &&& self.nodes[terminal()].rank == u64::MAX
        &&& self.nodes[terminal()].listeners.len() == 0
        &&& targets_in_range(self.nodes)
        &&& forall|n: int, k: int|
            0 <= n < self.nodes.len() && 0 <= k < self.nodes[n].listeners.len()
                ==> self.handler_ok((#[trigger] self.nodes[n].listeners[k]).action)
        &&& forall|s: int|
            0 <= s < self.streams.len() ==> 0 < (#[trigger] self.streams[s]).node
                < self.nodes.len() && self.nodes[self.streams[s].node as int].rank < u64::MAX
        &&& forall|i: int| 0 <= i < self.cells.len() ==> #[trigger] self.cell_ok(i)
        &&& forall|c: int|
            0 <= c < self.coalescers.len() ==> (#[trigger] self.coalescers[c]).out
                < self.streams.len()
        &&& forall|c: int|
            0 <= c < self.coalescers.len() ==> ((#[trigger] self.coalescers[c]).f matches Some(g)
                ==> fold_is_total(g) && fold_is_function(g))
        &&& forall|j: int|
            0 <= j < self.tx.prioritized.len() ==> self.action_ok(
                (#[trigger] self.tx.prioritized[j]).action,
            )
        &&& forall|j: int| 0 <= j < self.tx.last.len() ==> self.last_ok(#[trigger] self.tx.last[j])
    }

    /// Whatever is pending is also queued: a filled accumulator has its
    /// flush on the priority queue, and a stream that has fired or a cell
    /// that was updated has its clean-up among the last actions. Outside
    /// any transaction nothing is queued, so nothing is pending.
    pub open spec fn tidy(self) -> bool {
        &&& forall|c: usize|
            c < self.coalescers.len() && (#[trigger] self.coalescers[c as int]).accum_op is Some
                ==> has_flush(self.tx.prioritized, c)
        &&& forall|s: usize|
            s < self.streams.len() && (#[trigger] self.streams[s as int]).firings.len() > 0
                ==> self.tx.last.contains(LastAction::ClearFirings(s))
        &&& forall|i: usize|
            i < self.cells.len() && (#[trigger] self.cells[i as int]).next is Some
                ==> self.tx.last.contains(LastAction::Commit(i))
        &&& self.depth == 0 ==> self.tx.prioritized.len() == 0 && self.tx.last.len() == 0
            && self.tx.post.len() == 0 && self.all_bound()
    }

    /// Every loop has been bound to its source.
    pub open spec fn all_bound(self) -> bool {
        forall|l: int| 0 <= l < self.loops.len() ==> (#[trigger] self.loops[l]).bound
    }

    /// What every operation of the engine keeps.
    pub open spec fn inv(self) -> bool {
        self.wf() && self.tidy() && edges_named(self.nodes, self.next_id) && self.wiring().ok()
    }

    /// Cells that were wired up in `self` are wired up in `t`, if `t` has
    /// kept what the wiring rests on.
    pub proof fn lemma_cells_stay_wired(self, t: Self)
        requires
            forall|i: int| 0 <= i < self.cells.len() ==> #[trigger] self.cell_ok(i),
            forall|s: int|
                0 <= s < self.streams.len() ==> (#[trigger] self.streams[s]).node
                    < self.nodes.len(),
            t.nodes.len() >= self.nodes.len(),
            forall|n: int, c: usize|
                0 <= n < self.nodes.len() && has_update(self.nodes[n].listeners, c)
                    ==> #[trigger] has_update(t.nodes[n].listeners, c),
            t.streams.len() >= self.streams.len(),
            forall|s: int|
                0 <= s < self.streams.len() ==> (#[trigger] t.streams[s]).node
                    == self.streams[s].node,
            t.coalescers.len() >= self.coalescers.len(),
            forall|c: int|
                0 <= c < self.coalescers.len() ==> (#[trigger] t.coalescers[c]).out
                    == self.coalescers[c].out && t.coalescers[c].f == self.coalescers[c].f,
            t.cells.len() >= self.cells.len(),
            forall|i: int|
                0 <= i < self.cells.len() ==> (#[trigger] t.cells[i]).updates
                    == self.cells[i].updates && t.cells[i].feed == self.cells[i].feed,
        ensures
            forall|i: int| 0 <= i < self.cells.len() ==> #[trigger] t.cell_ok(i),
    {
        assert forall|i: int| 0 <= i < self.cells.len() implies #[trigger] t.cell_ok(i) by {
            assert(self.cell_ok(i));
            let cell = self.cells[i];
            assert(t.cells[i].updates == cell.updates);
            assert(t.coalescers[cell.feed as int].out == cell.updates);
            assert(t.streams[cell.updates as int].node == self.streams[cell.updates as int].node);
            let n = self.streams[cell.updates as int].node as int;
            assert(has_update(self.nodes[n].listeners, i as usize));
            assert(has_update(t.nodes[n].listeners, i as usize));
        }
    }

    /// With `action` queued at the rank of `node`.
    pub open spec fn with_prioritized(self, node: int, action: Action) -> Self {
        State {
            tx: TransactionView {
                prioritized: self.tx.prioritized.push(Entry { rank: self.nodes[node].rank, action }),
                ..self.tx
            },
            ..self
        }
    }

    /// With `action` queued among the last actions.
    pub open spec fn with_last(self, action: LastAction) -> Self {
        State { tx: TransactionView { last: self.tx.last.push(action), ..self.tx }, ..self }
    }

    /// With `token` queued among the post actions.
    pub open spec fn with_post(self, token: u32) -> Self {
        State { tx: TransactionView { post: self.tx.post.push(token), ..self.tx }, ..self }
    }

    /// After the value `a` has arrived at coalescer `c`: it is folded into
    /// the accumulator, and if the accumulator was empty, one flush is
    /// queued at the rank of the node of the coalescer's stream. A value
    /// for a coalescer that does not exist is dropped.
    pub open spec fn coalesced(self, c: usize, a: A) -> Self {
        let data = self.coalescers[c as int];
        let folded = match data.accum_op {
            Some(acc) => merged(data.f, acc, a),
            None => a,
        };
        let kept = State {
            coalescers: self.coalescers.update(
                c as int,
                CoalesceHandlerData { accum_op: Some(folded), ..data },
            ),
            ..self
        };
        if c >= self.coalescers.len() {
            self
        } else if data.accum_op is None {
            kept.with_prioritized(self.node_of(data.out), Action::Flush(c))
        } else {
            kept
        }
    }

    /// After the update `a` has arrived at cell `cell`: it is the pending
    /// value, and if none was pending, one commit is queued among the last
    /// actions. An update for a cell that does not exist is dropped.
    pub open spec fn updated(self, cell: usize, a: A) -> Self {
        let data = self.cells[cell as int];
        let kept = State {
            cells: self.cells.update(cell as int, CellData { next: Some(a), ..data }),
            ..self
        };
        if cell >= self.cells.len() {
            self
        } else if data.next is None {
            kept.with_last(LastAction::Commit(cell))
        } else {
            kept
        }
    }

    /// Stream `s` with `a` among its firings and, if it is the first firing
    /// of the transaction, the clean-up queued; no listener has been
    /// invoked yet.
    pub open spec fn noted(self, s: usize, a: A) -> Self {
        let stream = self.streams[s as int];
        let noted = State {
            streams: self.streams.update(
                s as int,
                StreamView { firings: stream.firings.push(a), ..stream },
            ),
            ..self
        };
        if stream.firings.len() == 0 {
            noted.with_last(LastAction::ClearFirings(s))
        } else {
            noted
        }
    }

    /// After handler `h` has been invoked with `a`, where propagation
    /// follows `w`.
    pub open spec fn invoked_in(self, w: Wiring, h: TransactionHandler, a: A) -> Self
        decreases w.handler_height(h), (if h is Forward { 3nat } else { 0nat }), 0nat,
    {
        match h {
            TransactionHandler::Notify(listener) => State {
                deliveries: self.deliveries.push(Delivery { listener, value: a }),
                ..self
            },
            TransactionHandler::Coalesce(c) => self.coalesced(c, a),
            TransactionHandler::Update(cell) => self.updated(cell, a),
            TransactionHandler::Forward(t) => self.sent_in(w, t, a),
        }
    }

    /// After the handlers of the first `k` edges of node `n` have been
    /// invoked with `a`, first edge first, where propagation follows `w`.
    pub open spec fn fired_in(self, w: Wiring, n: int, k: int, a: A) -> Self
        decreases w.height(n), 1nat, k,
        when w.ok() && 0 <= n < w.nodes.len() && 0 <= k <= w.nodes[n].listeners.len()
    {
        if k == 0 {
            self
        } else {
            proof {
                w.lemma_forward_is_higher(n, k - 1);
            }
            self.fired_in(w, n, k - 1, a).invoked_in(w, w.nodes[n].listeners[k - 1].action, a)
        }
    }

    /// After stream `s` has fired `a`, where propagation follows `w`. A
    /// stream that does not exist fires nothing.
    pub open spec fn sent_in(self, w: Wiring, s: usize, a: A) -> Self
        decreases w.stream_height(s), 2nat, 0nat,
    {
        if s < w.homes.len() {
            self.noted(s, a).fired_in(
                w,
                w.homes[s as int] as int,
                w.nodes[w.homes[s as int] as int].listeners.len() as int,
                a,
            )
        } else {
            self
        }
    }

    /// After handler `h` has been invoked with `a`.
    pub open spec fn invoked(self, h: TransactionHandler, a: A) -> Self {
        self.invoked_in(self.wiring(), h, a)
    }

    /// After stream `s` has fired `a`: the value joins the firings of the
    /// stream, the first firing of a transaction queues the clean-up, and
    /// the handler of every listener of the stream is invoked, first
    /// listener first. A listener that forwards makes its stream fire `a`
    /// in turn, before the next listener is invoked. A stream that does
    /// not exist fires nothing.
    pub open spec fn sent(self, s: usize, a: A) -> Self {
        self.sent_in(self.wiring(), s, a)
    }

    /// After coalescer `c` has been flushed: its accumulator is empty, and
    /// what it held has been fired by its stream. An empty accumulator
    /// fires nothing, and so does a coalescer that does not exist.
    pub open spec fn flushed(self, c: usize) -> Self {
        let data = self.coalescers[c as int];
        if c >= self.coalescers.len() {
            self
        } else {
            match data.accum_op {
                Some(acc) => (State {
                    coalescers: self.coalescers.update(
                        c as int,
                        CoalesceHandlerData { accum_op: None, ..data },
                    ),
                    ..self
                }).sent(data.out, acc),
                None => self,
            }
        }
    }

    /// After `action` has run.
    pub open spec fn acted(self, action: Action) -> Self {
        match action {
            Action::Flush(c) => self.flushed(c),
        }
    }

    /// Without the prioritized entry that runs next.
    pub open spec fn popped(self) -> Self {
        State {
            tx: TransactionView {
                prioritized: self.tx.prioritized.remove(first_min(self.tx.prioritized)),
                ..self.tx
            },
            ..self
        }
    }

    /// After the prioritized entry that runs next has been taken off the
    /// queue and run.
    pub open spec fn stepped(self) -> Self {
        self.popped().acted(self.tx.prioritized[first_min(self.tx.prioritized)].action)
    }

    /// After last action `action` has run.
    pub open spec fn tidied(self, action: LastAction) -> Self {
        match action {
            LastAction::ClearFirings(s) => State {
                streams: self.streams.update(
                    s as int,
                    StreamView { firings: Seq::empty(), ..self.streams[s as int] },
                ),
                ..self
            },
            LastAction::Commit(cell) => {
                let data = self.cells[cell as int];
                State {
                    cells: self.cells.update(
                        cell as int,
                        CellData {
                            value: match data.next {
                                Some(a) => a,
                                None => data.value,
                            },
                            next: None,
                            ..data
                        },
                    ),
                    ..self
                }
            },
        }
    }

    /// After the last actions `actions` have run, oldest first.
    pub open spec fn tidied_all(self, actions: Seq<LastAction>) -> Self
        decreases actions.len(),
    {
        if actions.len() == 0 {
            self
        } else {
            self.tidied_all(actions.drop_last()).tidied(actions.last())
        }
    }

    /// After the edge `target` has been added to the listeners of stream
    /// `s`.
    pub open spec fn with_target(self, s: usize, target: Target) -> Self {
        State {
            next_id: (self.next_id + 1) as u32,
            nodes: with_listener(self.nodes, self.node_of(s), target),
            ..self
        }
    }

    /// Without the edges of stream `s` that carry the id `id`.
    pub open spec fn without_target(self, s: usize, id: u32) -> Self {
        State { nodes: without_listener(self.nodes, self.node_of(s), id), ..self }
    }

    /// No edge of stream `s` with the id `id` does anything but notify an
    /// observer.
    pub open spec fn detachable(self, s: usize, id: u32) -> bool {
        forall|k: int|
            0 <= k < self.listeners_of(s).len() && (#[trigger] self.listeners_of(s)[k]).id == id
                ==> self.listeners_of(s)[k].action is Notify
    }

    /// After the observer `id` has been detached from stream `s`. An id
    /// that names an edge of another kind detaches nothing, and neither
    /// does a stream that does not exist.
    pub open spec fn unlistened(self, s: usize, id: u32) -> Self {
        if s < self.streams.len() && self.detachable(s, id) {
            self.without_target(s, id)
        } else {
            self
        }
    }

    /// With the deliveries of `values` to observer `listener` added, oldest
    /// first.
    pub open spec fn with_deliveries(self, listener: u32, values: Seq<A>) -> Self {
        State {
            deliveries: self.deliveries + values.map_values(
                |a: A| Delivery { listener, value: a },
            ),
            ..self
        }
    }

    /// With a new stream, on a new node of rank zero.
    pub open spec fn with_stream(self) -> Self {
        State {
            next_id: (self.next_id + 1) as u32,
            nodes: self.nodes.push(
                NodeView { id: self.next_id, rank: 0, listeners: Seq::empty() },
            ),
            streams: self.streams.push(
                StreamView { node: self.nodes.len() as usize, firings: Seq::empty() },
            ),
            ..self
        }
    }

    /// With a new coalescer that folds by `f` into stream `out`.
    pub open spec fn with_coalescer(self, f: Option<F>, out: usize) -> Self {
        State {
            coalescers: self.coalescers.push(CoalesceHandlerData { f, out, accum_op: None }),
            ..self
        }
    }

    /// With a new cell that holds `initial` and takes its updates from
    /// stream `updates`, which coalescer `feed` feeds.
    pub open spec fn with_cell(self, initial: A, updates: usize, feed: usize) -> Self {
        (State {
            cells: self.cells.push(CellData { value: initial, next: None, updates, feed }),
            ..self
        }).with_target(
            updates,
            Target {
                id: self.next_id,
                node: 0,
                action: TransactionHandler::Update(self.cells.len() as usize),
            },
        )
    }

    /// After the transaction has been poisoned: the prioritized actions
    /// that remain are discarded, and with them what the coalescers hold.
    /// The last actions and the post actions stay queued.
    pub open spec fn poisoned(self) -> Self {
        State {
            tx: TransactionView { prioritized: Seq::empty(), ..self.tx },
            coalescers: Seq::new(
                self.coalescers.len(),
                |c: int| CoalesceHandlerData { accum_op: None, ..self.coalescers[c] },
            ),
            ..self
        }
    }

    /// With a new stream loop: a new stream that is declared now and bound
    /// to its source later.
    pub open spec fn with_loop(self) -> Self {
        State {
            loops: self.loops.push(
                LoopData { stream: self.streams.len() as usize, bound: false },
            ),
            ..self.with_stream()
        }
    }

    /// The edge that binds loop `l` to its source: it forwards to the
    /// stream of the loop.
    pub open spec fn loop_edge(self, l: usize) -> Target {
        Target {
            id: self.next_id,
            node: self.streams[self.loops[l as int].stream as int].node,
            action: TransactionHandler::Forward(self.loops[l as int].stream),
        }
    }

    /// Stream `s` can be tried as the source of loop `l`: the world holds
    /// both, the stream is not the stream of the loop itself, and the rank
    /// space has room above it for every node there is.
    pub open spec fn has_room(self, l: usize, s: usize) -> bool {
        &&& l < self.loops.len()
        &&& s < self.streams.len()
        &&& self.node_of(s) != self.loop_edge(l).node
        &&& self.nodes[self.node_of(s)].rank + self.nodes.len() < u64::MAX
    }

    /// The nodes after the link from stream `s` to loop `l`.
    pub open spec fn linked(self, l: usize, s: usize) -> Seq<NodeView> {
        spec_link_to(self.nodes, self.node_of(s), self.loop_edge(l))
    }

    /// The link from stream `s` to loop `l` leaves the ranks in order: the
    /// rank grows along every edge, and every stream stays below the top.
    /// A link that closes a cycle does not.
    pub open spec fn link_holds(self, l: usize, s: usize) -> bool {
        &&& ranks_increase(self.linked(l, s))
        &&& tops_hold(self.linked(l, s), homes_of(self.streams))
    }

    /// After loop `l` has been bound to stream `s`, or the binding has
    /// been refused.
    ///
    /// Where the source can be tried and the link leaves the ranks in
    /// order, the loop is bound: an edge from the source forwards to the
    /// stream of the loop, and the ranks downstream of the loop were
    /// raised above that of the source. Otherwise nothing is bound; a link
    /// that was tried and taken back has used up an id.
    pub open spec fn looped(self, l: usize, s: usize) -> Self {
        if !self.has_room(l, s) {
            self
        } else if self.link_holds(l, s) {
            State {
                next_id: (self.next_id + 1) as u32,
                nodes: self.linked(l, s),
                loops: self.loops.update(
                    l as int,
                    LoopData { bound: true, ..self.loops[l as int] },
                ),
                ..self
            }
        } else {
            State { next_id: (self.next_id + 1) as u32, ..self }
        }
    }

    /// The edge of the observer that `listen` attaches next.
    pub open spec fn next_listener(self) -> Target {
        Target { id: self.next_id, node: 0, action: TransactionHandler::Notify(self.next_id) }
    }

    /// After an observer has been attached to stream `s`: it has a new
    /// edge, last among the listeners, and is owed what the stream has
    /// already fired in the current transaction. Nothing is attached to a
    /// stream that does not exist.
    pub open spec fn listened(self, s: usize) -> Self {
        if s < self.streams.len() {
            self.with_target(s, self.next_listener()).with_deliveries(
                self.next_id,
                self.streams[s as int].firings,
            )
        } else {
            self
        }
    }

    /// After an observer has been attached to cell `cell`: it has a new
    /// edge on the stream of updates and is owed the current value.
    /// Nothing is attached to a cell that does not exist.
    pub open spec fn observed(self, cell: usize) -> Self {
        if cell < self.cells.len() {
            self.with_target(
                self.cells[cell as int].updates,
                self.next_listener(),
            ).with_deliveries(self.next_id, seq![self.cells[cell as int].value])
        } else {
            self
        }
    }

    /// One transaction deeper.
    pub open spec fn entered(self) -> Self {
        State { depth: (self.depth + 1) as u32, ..self }
    }
}

} // verus!
