//! Streams, the sinks that feed them, and the observers that listen.

use vstd::prelude::*;
use crate::coalesce_handler::CoalesceHandler;
use crate::frp::FrpContext;
use crate::model::{fold_is_function, fold_is_total};

verus! {

/// A handle on a stream of a reactive world.
#[derive(Clone, Copy, PartialEq, Eq, Debug, Structural)]
pub struct Stream {
    /// Index of the stream in its world.
    pub index: usize,
}

/// A handle on a stream that can be made to fire.
#[derive(Clone, Copy, PartialEq, Eq, Debug, Structural)]
pub struct StreamWithSend {
    /// Index of the stream in its world.
    pub index: usize,
}

/// A sink: the entry point through which values enter a stream from
/// outside.
#[derive(Clone, Copy, PartialEq, Eq, Debug, Structural)]
pub struct StreamSink {
    pub stream: StreamWithSend,
    pub coalescer: CoalesceHandler,
}

/// The handle of an attached observer.
#[derive(Clone, Copy, PartialEq, Eq, Debug, Structural)]
pub struct Listener {
    /// Index of the stream that the observer listens to.
    pub stream: usize,
    /// The id of the observer, which is the id of its edge.
    pub id: u32,
}

impl Stream {
    /// Attaches an observer.
    ///
    /// The observer is owed at once what the stream has already fired in
    /// the current transaction, and from now on every value that the stream
    /// fires, until it is detached.
    ///
    /// On a stream that the world does not hold nothing is attached: the
    /// world stays as it is, and the handle that comes back is one whose
    /// `unlisten` changes nothing.
    pub fn listen<A: Copy, F: Fn(&A, &A) -> A>(&self, ctx: &mut FrpContext<A, F>) -> (listener:
        Listener)
        requires
            old(ctx).wf(),
            self.index < old(ctx)@.streams.len() ==> old(ctx)@.next_id < u32::MAX,
        ensures
            listener == if self.index < old(ctx)@.streams.len() {
                Listener { stream: self.index, id: old(ctx)@.next_id }
            } else {
                Listener::spec_none()
            },
            final(ctx)@ == old(ctx)@.listened(self.index),
            self.index >= old(ctx)@.streams.len() ==> final(ctx)@ == old(ctx)@,
            final(ctx).wf(),
    {
        match ctx.listen(self.index) {
            Some(id) => Listener { stream: self.index, id },
            None => Listener::none(),
        }
    }
}

impl StreamWithSend {
    /// A new stream.
    pub fn new<A: Copy, F: Fn(&A, &A) -> A>(ctx: &mut FrpContext<A, F>) -> (stream: StreamWithSend)
        requires
            old(ctx).wf(),
            old(ctx)@.next_id < u32::MAX,
        ensures
            stream.index == old(ctx)@.streams.len(),
            final(ctx)@ == old(ctx)@.with_stream(),
            final(ctx).wf(),
    {
        StreamWithSend { index: ctx.new_stream() }
    }

    /// The stream, to listen to.
    pub fn stream(&self) -> (stream: Stream)
        ensures
            stream.index == self.index,
    {
        Stream { index: self.index }
    }

    /// Fires `a`, inside a transaction: every listener is invoked with it.
    /// A stream that the world does not hold fires nothing.
    pub fn send<A: Copy, F: Fn(&A, &A) -> A>(&self, ctx: &mut FrpContext<A, F>, a: A)
        requires
            old(ctx).wf(),
            old(ctx)@.depth > 0,
        ensures
            final(ctx)@ == old(ctx)@.sent(self.index, a),
            self.index >= old(ctx)@.streams.len() ==> final(ctx)@ == old(ctx)@,
            final(ctx).wf(),
    {
        ctx.send(self.index, a);
    }
}

impl StreamSink {
    /// The sink belongs to the world `ctx`.
    pub open spec fn valid<A, F: Fn(&A, &A) -> A>(&self, ctx: &FrpContext<A, F>) -> bool {
        &&& self.coalescer.index < ctx@.coalescers.len()
        &&& self.stream.index < ctx@.streams.len()
        &&& ctx@.coalescers[self.coalescer.index as int].out == self.stream.index
    }

    /// A sink on a new stream. Of several values sent within one
    /// transaction the last one wins.
    pub fn new<A: Copy, F: Fn(&A, &A) -> A>(ctx: &mut FrpContext<A, F>) -> (sink: StreamSink)
        requires
            old(ctx).wf(),
            old(ctx)@.next_id < u32::MAX,
        ensures
            sink.stream.index == old(ctx)@.streams.len(),
            sink.coalescer.index == old(ctx)@.coalescers.len(),
            final(ctx)@ == old(ctx)@.with_stream().with_coalescer(None, sink.stream.index),
            final(ctx).wf(),
            sink.valid(final(ctx)),
    {
        let stream = StreamWithSend::new(ctx);
        let coalescer = CoalesceHandler::keep_last(ctx, &stream);
        StreamSink { stream, coalescer }
    }

    /// A sink on a new stream. The values sent within one transaction are
    /// folded by `f`, in the order they were sent.
    pub fn new_with_coalescer<A: Copy, F: Fn(&A, &A) -> A>(ctx: &mut FrpContext<A, F>, f: F) -> (sink:
        StreamSink)
        requires
            old(ctx).wf(),
            old(ctx)@.next_id < u32::MAX,
            fold_is_total(f),
            fold_is_function(f),
        ensures
            sink.stream.index == old(ctx)@.streams.len(),
            sink.coalescer.index == old(ctx)@.coalescers.len(),
            final(ctx)@ == old(ctx)@.with_stream().with_coalescer(Some(f), sink.stream.index),
            final(ctx).wf(),
            sink.valid(final(ctx)),
    {
        let stream = StreamWithSend::new(ctx);
        let coalescer = CoalesceHandler::new(ctx, f, &stream);
        StreamSink { stream, coalescer }
    }

    /// The stream of the sink, to listen to.
    pub fn stream(&self) -> (stream: Stream)
        ensures
            stream.index == self.stream.index,
    {
        Stream { index: self.stream.index }
    }

    /// Sends `a`, in the transaction that is open or in one of its own.
    ///
    /// The value goes to the coalescer of the sink. The stream fires when
    /// the outermost transaction closes: once, with the fold of what was
    /// sent in that transaction. What is sent to a sink that the world
    /// does not hold is dropped.
    pub fn send<A: Copy, F: Fn(&A, &A) -> A>(&self, ctx: &mut FrpContext<A, F>, a: A)
        requires
            old(ctx).wf(),
            old(ctx)@.depth < u32::MAX,
        ensures
            final(ctx)@ == old(ctx)@.entered().coalesced(self.coalescer.index, a).left(),
            final(ctx).wf(),
    {
        ctx.begin();
        self.coalescer.run(ctx, a);
        ctx.end();
    }
}

/// The handle of a stream loop: a stream that is declared first, so that
/// others can listen to it, and bound to its source later.
#[derive(Clone, Copy, PartialEq, Eq, Debug, Structural)]
pub struct StreamLoop {
    /// Index of the loop in its world.
    pub index: usize,
    /// Index of the stream of the loop.
    pub stream: usize,
}

impl StreamLoop {
    /// Declares a stream loop, inside a transaction. It has to be bound
    /// before that transaction closes.
    pub fn new<A: Copy, F: Fn(&A, &A) -> A>(ctx: &mut FrpContext<A, F>) -> (looped: StreamLoop)
        requires
            old(ctx).wf(),
            old(ctx)@.depth > 0,
            old(ctx)@.next_id < u32::MAX,
        ensures
            looped.index == old(ctx)@.loops.len(),
            looped.stream == old(ctx)@.streams.len(),
            final(ctx)@ == old(ctx)@.with_loop(),
            final(ctx).wf(),
    {
        let index: usize = ctx.new_loop();
        StreamLoop { index, stream: ctx.loop_stream(index) }
    }

    /// The stream of the loop, to listen to.
    pub fn stream(&self) -> (stream: Stream)
        ensures
            stream.index == self.stream,
    {
        Stream { index: self.stream }
    }

    /// Binds the loop to the stream `source`, inside the transaction that
    /// declared it, and says whether it did. A loop is bound once.
    ///
    /// From now on the loop fires what `source` fires. A binding that
    /// would close a cycle is refused: nothing is bound and the result is
    /// `false`. So is one of a loop or to a stream that the world does not
    /// hold.
    pub fn loop_<A: Copy, F: Fn(&A, &A) -> A>(&self, ctx: &mut FrpContext<A, F>, source: &Stream) -> (bound:
        bool)
        requires
            old(ctx).wf(),
            old(ctx)@.depth > 0,
            old(ctx)@.next_id < u32::MAX,
            self.index < old(ctx)@.loops.len() ==> !old(ctx)@.loops[self.index as int].bound,
        ensures
            final(ctx)@ == old(ctx)@.looped(self.index, source.index),
            bound == (old(ctx)@.has_room(self.index, source.index) && old(ctx)@.link_holds(
                self.index,
                source.index,
            )),
            final(ctx).wf(),
    {
        ctx.bind_loop(self.index, source.index)
    }
}

impl Listener {
    /// The handle of no observer: it names no stream.
    pub open spec fn spec_none() -> Listener {
        Listener { stream: usize::MAX, id: 0 }
    }

    /// The handle of no observer. Its `unlisten` changes nothing.
    pub fn none() -> (listener: Listener)
        ensures
            listener == Listener::spec_none(),
    {
        Listener { stream: usize::MAX, id: 0 }
    }

    /// Detaches the observer. From now on it is owed nothing new; what it
    /// is owed already stays owed. Detaching a second time changes
    /// nothing, and so does detaching the handle of no observer.
    pub fn unlisten<A: Copy, F: Fn(&A, &A) -> A>(&self, ctx: &mut FrpContext<A, F>)
        requires
            old(ctx).wf(),
        ensures
            final(ctx)@ == old(ctx)@.unlistened(self.stream, self.id),
            self.stream >= old(ctx)@.streams.len() ==> final(ctx)@ == old(ctx)@,
            *self == Listener::spec_none() ==> final(ctx)@ == old(ctx)@,
            final(ctx).wf(),
    {
        ctx.unlisten(self.stream, self.id);
    }
}

} // verus!
