use rusty_frp::cell::{Cell, CellRef, CellSink};
use rusty_frp::frp::FrpContext;
use rusty_frp::handler::TransactionHandler;
use rusty_frp::model::Delivery;
use rusty_frp::stream::{StreamLoop, StreamSink, StreamWithSend};

type Fold = fn(&i32, &i32) -> i32;
type Ctx = FrpContext<i32, Fold>;

#[test]
fn loop_fires_what_its_source_fires() {
    let mut ctx = Ctx::new();
    let s = StreamSink::new(&mut ctx);
    ctx.begin();
    let l = StreamLoop::new(&mut ctx);
    let heard = l.stream().listen(&mut ctx);
    assert!(!ctx.is_bound(l.index));
    assert!(!ctx.all_loops_bound());
    assert!(l.loop_(&mut ctx, &s.stream()));
    assert!(ctx.is_bound(l.index));
    assert!(ctx.all_loops_bound());
    ctx.end();
    s.send(&mut ctx, 4);
    s.send(&mut ctx, 5);
    assert_eq!(
        ctx.take_deliveries(),
        vec![
            Delivery { listener: heard.id, value: 4 },
            Delivery { listener: heard.id, value: 5 }
        ]
    );
}

#[test]
fn forwarding_happens_in_the_order_of_the_edges() {
    let mut ctx = Ctx::new();
    let s = StreamSink::new(&mut ctx);
    let first = s.stream().listen(&mut ctx);
    ctx.begin();
    let l = StreamLoop::new(&mut ctx);
    let inner = l.stream().listen(&mut ctx);
    assert!(l.loop_(&mut ctx, &s.stream()));
    ctx.end();
    let last = s.stream().listen(&mut ctx);
    s.send(&mut ctx, 1);
    assert_eq!(
        ctx.take_deliveries(),
        vec![
            Delivery { listener: first.id, value: 1 },
            Delivery { listener: inner.id, value: 1 },
            Delivery { listener: last.id, value: 1 }
        ]
    );
}

#[test]
fn binding_raises_the_rank_of_the_loop() {
    let mut ctx = Ctx::new();
    let s = StreamWithSend::new(&mut ctx);
    ctx.begin();
    let a = StreamLoop::new(&mut ctx);
    let b = StreamLoop::new(&mut ctx);
    let heard = b.stream().listen(&mut ctx);
    // b follows a before a follows s: binding a raises b as well
    assert!(b.loop_(&mut ctx, &a.stream()));
    assert!(a.loop_(&mut ctx, &s.stream()));
    s.send(&mut ctx, 9);
    ctx.end();
    assert_eq!(
        ctx.take_deliveries(),
        vec![Delivery { listener: heard.id, value: 9 }]
    );
}

#[test]
fn a_binding_that_closes_a_cycle_is_refused() {
    let mut ctx = Ctx::new();
    ctx.begin();
    let a = StreamLoop::new(&mut ctx);
    let b = StreamLoop::new(&mut ctx);
    assert!(b.loop_(&mut ctx, &a.stream()));
    let left = ctx.ids_left();
    assert!(!a.loop_(&mut ctx, &b.stream()));
    assert!(!ctx.is_bound(a.index));
    assert_eq!(ctx.ids_left(), left - 1);
    let heard = b.stream().listen(&mut ctx);
    let a_send = StreamWithSend { index: a.stream().index };
    a_send.send(&mut ctx, 3);
    assert_eq!(
        ctx.take_deliveries(),
        vec![Delivery { listener: heard.id, value: 3 }]
    );
    // a can still be bound to a stream that does not follow it
    let s = StreamWithSend::new(&mut ctx);
    assert!(a.loop_(&mut ctx, &s.stream()));
    ctx.end();
}

#[test]
fn a_loop_cannot_follow_itself() {
    let mut ctx = Ctx::new();
    ctx.begin();
    let a = StreamLoop::new(&mut ctx);
    let left = ctx.ids_left();
    assert!(!a.loop_(&mut ctx, &a.stream()));
    assert_eq!(ctx.ids_left(), left);
    let s = StreamWithSend::new(&mut ctx);
    assert!(a.loop_(&mut ctx, &s.stream()));
    ctx.end();
}

#[test]
fn invoking_a_forwarding_handler_fires_the_stream() {
    let mut ctx = Ctx::new();
    let s = StreamWithSend::new(&mut ctx);
    let heard = s.stream().listen(&mut ctx);
    ctx.begin();
    ctx.invoke(TransactionHandler::Forward(s.index), 8);
    ctx.invoke(TransactionHandler::Notify(77), 6);
    ctx.end();
    assert_eq!(
        ctx.take_deliveries(),
        vec![
            Delivery { listener: heard.id, value: 8 },
            Delivery { listener: 77, value: 6 }
        ]
    );
}

#[test]
fn loops_are_counted() {
    let mut ctx = Ctx::new();
    assert_eq!(ctx.loop_count(), 0);
    assert!(ctx.all_loops_bound());
    ctx.begin();
    let a = StreamLoop::new(&mut ctx);
    assert_eq!(a.index, 0);
    assert_eq!(ctx.loop_count(), 1);
    assert_eq!(ctx.loop_stream(a.index), 0);
    let s = StreamWithSend::new(&mut ctx);
    assert!(a.loop_(&mut ctx, &s.stream()));
    ctx.end();
}

#[test]
fn a_firing_marks_the_cells_down_the_loops() {
    let mut ctx = Ctx::new();
    let plain = CellRef::new(&mut ctx, 0);
    let s = StreamSink::new(&mut ctx);
    ctx.begin();
    let l = StreamLoop::new(&mut ctx);
    let feed = ctx.new_coalescer(None, l.stream);
    let follower = ctx.new_cell(10, l.stream, feed);
    assert!(l.loop_(&mut ctx, &s.stream()));
    ctx.end();
    assert_eq!(
        ctx.mark_all_decendent_cells_for_update(ctx.updates_of(plain.id)),
        vec![plain.id]
    );
    assert_eq!(ctx.mark_all_decendent_cells_for_update(s.stream.index), vec![follower]);
    assert_eq!(ctx.mark_all_decendent_cells_for_update(l.stream), vec![follower]);
    s.send(&mut ctx, 7);
    assert_eq!(CellRef::of(follower).current_value(&ctx), 7);
    assert_eq!(plain.current_value(&ctx), 0);
    plain.change_value(&mut ctx, 1);
    assert_eq!(plain.current_value(&ctx), 1);
    assert_eq!(CellRef::of(follower).current_value(&ctx), 7);
}
