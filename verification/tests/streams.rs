use rusty_frp::coalesce_handler::CoalesceHandler;
use rusty_frp::frp::{FrpContext, Itself};
use rusty_frp::handler::{Action, LastAction, TransactionHandler};
use rusty_frp::model::Delivery;
use rusty_frp::stream::{StreamSink, StreamWithSend};

type Fold = fn(&i32, &i32) -> i32;
type Ctx = FrpContext<i32, Fold>;

fn add(a: &i32, b: &i32) -> i32 {
    a + b
}

fn sub(a: &i32, b: &i32) -> i32 {
    a - b
}

fn values(ctx: &mut Ctx, listener: u32) -> Vec<i32> {
    ctx.take_deliveries().iter().filter(|d| d.listener == listener).map(|d| d.value).collect()
}

#[test]
fn sink_and_listen() {
    let mut ctx = Ctx::new();
    let s = StreamSink::new(&mut ctx);
    let l = s.stream().listen(&mut ctx);
    s.send(&mut ctx, 1);
    s.send(&mut ctx, 2);
    s.send(&mut ctx, 3);
    assert_eq!(values(&mut ctx, l.id), vec![1, 2, 3]);
}

#[test]
fn coalesce_same_transaction() {
    let mut ctx = Ctx::new();
    let s = StreamSink::new_with_coalescer(&mut ctx, add as Fold);
    let l = s.stream().listen(&mut ctx);
    ctx.run(|c| {
        s.send(c, 1);
        s.send(c, 2);
        s.send(c, 3);
    });
    assert_eq!(
        ctx.take_deliveries(),
        vec![Delivery { listener: l.id, value: 6 }]
    );
}

#[test]
fn coalescer_folds_in_the_order_sent() {
    let mut ctx = Ctx::new();
    let s = StreamSink::new_with_coalescer(&mut ctx, sub as Fold);
    let l = s.stream().listen(&mut ctx);
    ctx.run(|c| {
        s.send(c, 10);
        s.send(c, 3);
        s.send(c, 2);
    });
    assert_eq!(values(&mut ctx, l.id), vec![5]);
}

#[test]
fn default_sink_keeps_the_last_value() {
    let mut ctx = Ctx::new();
    let s = StreamSink::new(&mut ctx);
    let l = s.stream().listen(&mut ctx);
    ctx.run(|c| {
        s.send(c, 1);
        s.send(c, 2);
        s.send(c, 3);
    });
    assert_eq!(values(&mut ctx, l.id), vec![3]);
}

#[test]
fn nothing_fires_before_the_transaction_closes() {
    let mut ctx = Ctx::new();
    let s = StreamSink::new(&mut ctx);
    let l = s.stream().listen(&mut ctx);
    ctx.begin();
    s.send(&mut ctx, 4);
    assert_eq!(ctx.depth(), 1);
    assert_eq!(values(&mut ctx, l.id), Vec::<i32>::new());
    ctx.end();
    assert_eq!(ctx.depth(), 0);
    assert_eq!(values(&mut ctx, l.id), vec![4]);
}

#[test]
fn listener_lifetime() {
    let mut ctx = Ctx::new();
    let s = StreamSink::new(&mut ctx);
    let l = s.stream().listen(&mut ctx);
    l.unlisten(&mut ctx);
    s.send(&mut ctx, 7);
    assert_eq!(ctx.take_deliveries(), vec![]);
}

#[test]
fn second_unlisten_is_a_no_op() {
    let mut ctx = Ctx::new();
    let s = StreamSink::new(&mut ctx);
    let keep = s.stream().listen(&mut ctx);
    let gone = s.stream().listen(&mut ctx);
    gone.unlisten(&mut ctx);
    gone.unlisten(&mut ctx);
    s.send(&mut ctx, 7);
    assert_eq!(
        ctx.take_deliveries(),
        vec![Delivery { listener: keep.id, value: 7 }]
    );
}

#[test]
fn detaching_mid_transaction_keeps_what_was_delivered() {
    let mut ctx = Ctx::new();
    let out = StreamWithSend::new(&mut ctx);
    let l = out.stream().listen(&mut ctx);
    ctx.begin();
    out.send(&mut ctx, 1);
    l.unlisten(&mut ctx);
    out.send(&mut ctx, 2);
    ctx.end();
    assert_eq!(values(&mut ctx, l.id), vec![1]);
    ctx.begin();
    out.send(&mut ctx, 3);
    ctx.end();
    assert_eq!(values(&mut ctx, l.id), Vec::<i32>::new());
}

#[test]
fn listeners_fire_in_the_order_attached() {
    let mut ctx = Ctx::new();
    let s = StreamSink::new(&mut ctx);
    let first = s.stream().listen(&mut ctx);
    let second = s.stream().listen(&mut ctx);
    s.send(&mut ctx, 9);
    assert_eq!(
        ctx.take_deliveries(),
        vec![
            Delivery { listener: first.id, value: 9 },
            Delivery { listener: second.id, value: 9 }
        ]
    );
}

#[test]
fn listen_mid_transaction_gets_earlier_firings() {
    let mut ctx = Ctx::new();
    let out = StreamWithSend::new(&mut ctx);
    ctx.begin();
    out.send(&mut ctx, 1);
    out.send(&mut ctx, 2);
    let l = out.stream().listen(&mut ctx);
    out.send(&mut ctx, 3);
    ctx.end();
    assert_eq!(values(&mut ctx, l.id), vec![1, 2, 3]);
    let late = out.stream().listen(&mut ctx);
    assert_eq!(values(&mut ctx, late.id), Vec::<i32>::new());
}

#[test]
fn nested_run_is_one_transaction() {
    let mut ctx = Ctx::new();
    let s = StreamSink::new_with_coalescer(&mut ctx, add as Fold);
    let l = s.stream().listen(&mut ctx);
    let got = ctx.run(|c| {
        c.run(|c| {
            s.send(c, 1);
            s.send(c, 2);
        });
        assert_eq!(c.depth(), 1);
        assert_eq!(c.take_deliveries(), vec![]);
        s.send(c, 4);
        11
    });
    assert_eq!(got, 11);
    assert_eq!(values(&mut ctx, l.id), vec![7]);

    let mut flat = Ctx::new();
    let s = StreamSink::new_with_coalescer(&mut flat, add as Fold);
    let l = s.stream().listen(&mut flat);
    flat.run(|c| {
        s.send(c, 1);
        s.send(c, 2);
        s.send(c, 4);
    });
    assert_eq!(values(&mut flat, l.id), vec![7]);
}

#[test]
fn transaction_on_a_host_environment() {
    let mut ctx = Ctx::new();
    let s = StreamSink::new_with_coalescer(&mut ctx, add as Fold);
    let l = s.stream().listen(&mut ctx);
    Ctx::transaction(&mut ctx, &Itself, |c: &mut Ctx, _: &Itself| {
        s.send(c, 20);
        s.send(c, 22);
        assert_eq!(c.depth(), 1);
    });
    assert_eq!(ctx.depth(), 0);
    assert_eq!(values(&mut ctx, l.id), vec![42]);
}

#[test]
fn flushes_run_in_rank_order_then_insertion_order() {
    let mut ctx = Ctx::new();
    let a = StreamSink::new(&mut ctx);
    let b = StreamSink::new(&mut ctx);
    let la = a.stream().listen(&mut ctx);
    let lb = b.stream().listen(&mut ctx);
    ctx.run(|c| {
        b.send(c, 2);
        a.send(c, 1);
    });
    assert_eq!(
        ctx.take_deliveries(),
        vec![
            Delivery { listener: lb.id, value: 2 },
            Delivery { listener: la.id, value: 1 }
        ]
    );
}

#[test]
fn a_second_flush_fires_nothing() {
    let mut ctx = Ctx::new();
    let s = StreamSink::new(&mut ctx);
    let l = s.stream().listen(&mut ctx);
    ctx.begin();
    s.send(&mut ctx, 5);
    ctx.prioritized(0, Action::Flush(s.coalescer.index));
    ctx.end();
    assert_eq!(values(&mut ctx, l.id), vec![5]);
}

#[test]
fn coalescer_run_and_flush_by_hand() {
    let mut ctx = Ctx::new();
    let out = StreamWithSend::new(&mut ctx);
    let l = out.stream().listen(&mut ctx);
    let h = CoalesceHandler::new(&mut ctx, add as Fold, &out);
    assert_eq!(h.to_transaction_handler(), TransactionHandler::Coalesce(h.index));
    ctx.begin();
    h.run(&mut ctx, 1);
    ctx.invoke(h.to_transaction_handler(), 2);
    ctx.flush(h.index);
    assert_eq!(values(&mut ctx, l.id), vec![3]);
    ctx.flush(h.index);
    assert_eq!(values(&mut ctx, l.id), Vec::<i32>::new());
    ctx.end();
    assert_eq!(values(&mut ctx, l.id), Vec::<i32>::new());
}

#[test]
fn post_tokens_fall_due_when_the_outermost_transaction_ends() {
    let mut ctx = Ctx::new();
    ctx.begin();
    ctx.post(4);
    ctx.begin();
    ctx.post(9);
    ctx.end();
    assert_eq!(ctx.take_posted(), Vec::<u32>::new());
    ctx.end();
    assert_eq!(ctx.take_posted(), vec![4, 9]);
    assert_eq!(ctx.take_posted(), Vec::<u32>::new());
}

#[test]
fn last_actions_run_at_close() {
    let mut ctx = Ctx::new();
    let out = StreamWithSend::new(&mut ctx);
    ctx.begin();
    out.send(&mut ctx, 1);
    ctx.last(LastAction::ClearFirings(out.index));
    ctx.end();
    let l = out.stream().listen(&mut ctx);
    assert_eq!(values(&mut ctx, l.id), Vec::<i32>::new());
}

#[test]
fn fresh_world_counts() {
    let mut ctx = Ctx::new();
    assert_eq!(ctx.depth(), 0);
    assert_eq!(ctx.node_count(), 1);
    assert_eq!(ctx.stream_count(), 0);
    assert_eq!(ctx.cell_count(), 0);
    assert_eq!(ctx.coalescer_count(), 0);
    assert_eq!(ctx.ids_left(), u32::MAX - 1);
    let s = StreamSink::new(&mut ctx);
    assert_eq!(s.stream.index, 0);
    assert_eq!(s.coalescer.index, 0);
    assert_eq!(ctx.node_count(), 2);
    assert_eq!(ctx.stream_count(), 1);
    assert_eq!(ctx.coalescer_count(), 1);
    assert_eq!(ctx.ids_left(), u32::MAX - 2);
}

#[test]
fn a_poisoned_transaction_discards_what_was_sent() {
    let mut ctx = Ctx::new();
    let s = StreamSink::new(&mut ctx);
    let l = s.stream().listen(&mut ctx);
    ctx.begin();
    s.send(&mut ctx, 1);
    ctx.post(5);
    ctx.poison();
    ctx.end();
    assert_eq!(ctx.take_deliveries(), vec![]);
    assert_eq!(ctx.take_posted(), vec![5]);
    s.send(&mut ctx, 2);
    assert_eq!(values(&mut ctx, l.id), vec![2]);
}

#[test]
fn poison_keeps_the_last_actions() {
    let mut ctx = Ctx::new();
    let out = StreamWithSend::new(&mut ctx);
    ctx.begin();
    out.send(&mut ctx, 1);
    ctx.poison();
    ctx.end();
    let late = out.stream().listen(&mut ctx);
    assert_eq!(values(&mut ctx, late.id), Vec::<i32>::new());
}

#[test]
fn handles_the_world_does_not_hold_change_nothing() {
    let mut ctx = Ctx::new();
    let s = StreamSink::new(&mut ctx);
    let l = s.stream().listen(&mut ctx);
    let ids = ctx.ids_left();
    let stray_stream = StreamWithSend { index: 5 };
    let stray_sink = StreamSink {
        stream: stray_stream,
        coalescer: CoalesceHandler { index: 9 },
    };
    assert_eq!(
        stray_stream.stream().listen(&mut ctx),
        rusty_frp::stream::Listener::none()
    );
    assert_eq!(ctx.listen(5), None);
    assert_eq!(ctx.ids_left(), ids);
    assert_eq!(ctx.mark_all_decendent_cells_for_update(5), Vec::<usize>::new());
    stray_sink.send(&mut ctx, 1);
    ctx.begin();
    stray_stream.send(&mut ctx, 2);
    stray_sink.coalescer.run(&mut ctx, 3);
    ctx.invoke(TransactionHandler::Update(4), 4);
    ctx.invoke(TransactionHandler::Coalesce(4), 5);
    ctx.invoke(TransactionHandler::Forward(4), 6);
    ctx.flush(4);
    ctx.unlisten(5, l.id);
    ctx.end();
    assert_eq!(ctx.take_deliveries(), vec![]);
    assert_eq!(ctx.stream_count(), 1);
    assert_eq!(ctx.coalescer_count(), 1);
    s.send(&mut ctx, 7);
    assert_eq!(values(&mut ctx, l.id), vec![7]);
}

#[test]
fn a_fresh_world_marks_no_cell() {
    let ctx = Ctx::new();
    assert_eq!(ctx.mark_all_decendent_cells_for_update(7), Vec::<usize>::new());
    assert_eq!(ctx.cell_count(), 0);
}
