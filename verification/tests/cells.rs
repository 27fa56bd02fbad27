use rusty_frp::cell::{Cell, CellRef, CellSink};
use rusty_frp::frp::FrpContext;
use rusty_frp::model::Delivery;
use rusty_frp::stream::Listener;

type Fold = fn(&i32, &i32) -> i32;
type Ctx = FrpContext<i32, Fold>;

fn values(ctx: &mut Ctx, listener: u32) -> Vec<i32> {
    ctx.take_deliveries().iter().filter(|d| d.listener == listener).map(|d| d.value).collect()
}

#[test]
fn cell_update_ordering() {
    let mut ctx = Ctx::new();
    let c = CellRef::new(&mut ctx, 0);
    let l = c.observe(&mut ctx);
    c.change_value(&mut ctx, 5);
    assert_eq!(values(&mut ctx, l.id), vec![0, 5]);
}

#[test]
fn multiple_updates_coalesced_on_cell() {
    let mut ctx = Ctx::new();
    let c = CellRef::new(&mut ctx, 0);
    let l = c.observe(&mut ctx);
    assert_eq!(values(&mut ctx, l.id), vec![0]);
    ctx.run(|x| {
        c.change_value(x, 1);
        c.change_value(x, 2);
        c.change_value(x, 3);
    });
    assert_eq!(
        ctx.take_deliveries(),
        vec![Delivery { listener: l.id, value: 3 }]
    );
    assert_eq!(c.current_value(&ctx), 3);
}

#[test]
fn sample_shows_the_old_value_inside_the_transaction() {
    let mut ctx = Ctx::new();
    let c = CellRef::new(&mut ctx, 10);
    assert_eq!(c.current_value(&ctx), 10);
    ctx.begin();
    c.change_value(&mut ctx, 11);
    assert_eq!(c.current_value(&ctx), 10);
    ctx.end();
    assert_eq!(c.current_value(&ctx), 11);
}

#[test]
fn cell_ref_of_names_the_same_cell() {
    let mut ctx = Ctx::new();
    let a = CellRef::new(&mut ctx, 1);
    let b = CellRef::new(&mut ctx, 2);
    assert_eq!(a, CellRef::of(0));
    assert_eq!(b, CellRef::of(1));
    assert_eq!(CellRef::of(1).current_value(&ctx), 2);
    CellRef::of(0).change_value(&mut ctx, 8);
    assert_eq!(a.current_value(&ctx), 8);
    assert_eq!(b.current_value(&ctx), 2);
}

#[test]
fn observer_of_one_cell_does_not_hear_another() {
    let mut ctx = Ctx::new();
    let a = CellRef::new(&mut ctx, 1);
    let b = CellRef::new(&mut ctx, 2);
    let la = a.observe(&mut ctx);
    let lb = b.observe(&mut ctx);
    b.change_value(&mut ctx, 20);
    assert_eq!(
        ctx.take_deliveries(),
        vec![
            Delivery { listener: la.id, value: 1 },
            Delivery { listener: lb.id, value: 2 },
            Delivery { listener: lb.id, value: 20 }
        ]
    );
}

#[test]
fn detached_cell_observer_is_silent_and_the_cell_still_updates() {
    let mut ctx = Ctx::new();
    let c = CellRef::new(&mut ctx, 0);
    let l = c.observe(&mut ctx);
    assert_eq!(values(&mut ctx, l.id), vec![0]);
    l.unlisten(&mut ctx);
    c.change_value(&mut ctx, 4);
    assert_eq!(ctx.take_deliveries(), vec![]);
    assert_eq!(c.current_value(&ctx), 4);
}

#[test]
fn the_edge_that_wires_a_cell_cannot_be_detached() {
    let mut ctx = Ctx::new();
    let c = CellRef::new(&mut ctx, 0);
    let updates = ctx.updates_of(c.id);
    // ids: 0 the terminal node, 1 the node of the stream, 2 the wiring edge
    let forged = Listener { stream: updates, id: 2 };
    forged.unlisten(&mut ctx);
    c.change_value(&mut ctx, 6);
    assert_eq!(c.current_value(&ctx), 6);
}

#[test]
fn sample_no_trans_shows_the_value_before_the_update() {
    let mut ctx = Ctx::new();
    let c = CellRef::new(&mut ctx, 3);
    ctx.begin();
    c.change_value(&mut ctx, 4);
    assert_eq!(ctx.sample_no_trans(c.id), 3);
    ctx.end();
    ctx.begin();
    assert_eq!(ctx.sample_no_trans(c.id), 4);
    ctx.end();
}

#[test]
fn a_cell_the_world_does_not_hold_is_left_alone() {
    let mut ctx = Ctx::new();
    let known = CellRef::new(&mut ctx, 1);
    let unknown = CellRef::of(7);
    let ids = ctx.ids_left();
    let l = unknown.observe(&mut ctx);
    assert_eq!(l, Listener::none());
    assert_eq!(ctx.ids_left(), ids);
    assert_eq!(ctx.take_deliveries(), vec![]);
    l.unlisten(&mut ctx);
    unknown.change_value(&mut ctx, 9);
    assert_eq!(ctx.depth(), 0);
    assert_eq!(ctx.cell_count(), 1);
    assert_eq!(known.current_value(&ctx), 1);
    ctx.begin();
    ctx.update_cell(7, 9);
    ctx.end();
    assert_eq!(known.current_value(&ctx), 1);
    assert_eq!(ctx.observe(7), None);
    assert_eq!(ctx.observe(known.id).is_some(), true);
}

#[test]
fn the_handle_of_no_observer_detaches_nothing() {
    let mut ctx = Ctx::new();
    let c = CellRef::new(&mut ctx, 0);
    let l = c.observe(&mut ctx);
    Listener::none().unlisten(&mut ctx);
    c.change_value(&mut ctx, 2);
    assert_eq!(
        ctx.take_deliveries(),
        vec![
            Delivery { listener: l.id, value: 0 },
            Delivery { listener: l.id, value: 2 }
        ]
    );
}
