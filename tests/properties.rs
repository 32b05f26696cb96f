use rusty_frp::{Action, Cell, CellSink, Fn1, Fn2, FrpContext, FrpError, Pred};

fn out(ctx: &mut FrpContext, l: usize) -> Vec<i64> {
    ctx.take_deliveries().iter().filter(|d| d.listener == l).map(|d| d.value).collect()
}

#[test]
fn unchanged_inputs_keep_cell_value() {
    let mut ctx = FrpContext::new();
    let a = ctx.new_cell_sink(1);
    let b = ctx.new_cell_sink(10);
    let ma = ctx.map_cell(&a, Fn1::MulConst(3));
    let mb = ctx.map_cell(&b, Fn1::MulConst(3));
    let lb = ctx.listen_cell(&mb);
    a.change_value(&mut ctx, 5).unwrap();
    assert_eq!(15, ctx.sample(&ma));
    assert_eq!(30, ctx.sample(&mb));
    // Only the initial value: mb did not change.
    assert_eq!(vec![30], out(&mut ctx, lb));
    assert!(!ctx.recomputed().contains(&mb.id));
    assert!(ctx.recomputed().contains(&ma.id));
}

#[test]
fn map_cell_follows_source() {
    let mut ctx = FrpContext::new();
    let c = ctx.new_cell_sink(6);
    let d = ctx.map_cell(&c, Fn1::AddConst(100));
    assert_eq!(106, ctx.sample(&d));
    for v in [8, -3, 0, 41] {
        c.change_value(&mut ctx, v).unwrap();
        assert_eq!(v + 100, ctx.sample(&d));
    }
}

#[test]
fn lift_glitch_free_and_recomputed_once() {
    let mut ctx = FrpContext::new();
    let a = ctx.new_cell_sink(1);
    let a3 = ctx.map_cell(&a, Fn1::MulConst(3));
    let a5 = ctx.map_cell(&a, Fn1::MulConst(5));
    let b = ctx.lift2_cell(Fn2::Add, &a3, &a5);
    let l = ctx.listen_cell(&b);
    a.change_value(&mut ctx, 2).unwrap();
    assert_eq!(vec![8, 16], out(&mut ctx, l));
    let order = ctx.recomputed();
    assert_eq!(3, order.len());
    // each node once, the lift after both maps
    assert_eq!(Some(2), order.iter().position(|&v| v == b.id));
    let mut sorted = order.clone();
    sorted.sort();
    sorted.dedup();
    assert_eq!(3, sorted.len());
}

#[test]
fn lift3_and_lift4() {
    let mut ctx = FrpContext::new();
    let a = ctx.new_cell_sink(1);
    let b = ctx.new_cell_sink(2);
    let c = ctx.new_cell_sink(3);
    let d = ctx.new_cell_sink(4);
    let s3 = ctx.lift3_cell(Fn2::Sub, &a, &b, &c);
    let s4 = ctx.lift4_cell(Fn2::Max, &a, &b, &c, &d);
    assert_eq!(1 - 2 - 3, ctx.sample(&s3));
    assert_eq!(4, ctx.sample(&s4));
    ctx.transaction(&vec![Action::Change(a, 10), Action::Change(d, 7)]).unwrap();
    assert_eq!(10 - 2 - 3, ctx.sample(&s3));
    assert_eq!(10, ctx.sample(&s4));
}

#[test]
fn one_delivery_per_node_per_transaction() {
    let mut ctx = FrpContext::new();
    let s = ctx.new_stream_sink_with_coalescer(Fn2::Add);
    let a = ctx.map_stream(&s, Fn1::AddConst(1));
    let b = ctx.map_stream(&s, Fn1::AddConst(2));
    let m = ctx.merge(&a, &b, Fn2::Mul);
    let l = ctx.listen_stream(&m);
    ctx.transaction(&vec![Action::Send(s, 1), Action::Send(s, 2), Action::Send(s, 3)]).unwrap();
    assert_eq!(vec![(6 + 1) * (6 + 2)], out(&mut ctx, l));
}

#[test]
fn hold_is_delayed() {
    let mut ctx = FrpContext::new();
    let s = ctx.new_stream_sink();
    let h = ctx.hold(&s, 0);
    let pair = ctx.snapshot(&s, &h, Fn2::Right);
    let l = ctx.listen_stream(&pair);
    ctx.send(&s, 2).unwrap();
    ctx.send(&s, 3).unwrap();
    assert_eq!(vec![0, 2], out(&mut ctx, l));
    assert_eq!(3, ctx.sample(&h));
}

#[test]
fn or_else_left_biased_and_merge_symmetry() {
    let mut ctx = FrpContext::new();
    let s1 = ctx.new_stream_sink();
    let s2 = ctx.new_stream_sink();
    let left = ctx.or_else(&s1, &s2);
    let right = ctx.or_else(&s2, &s1);
    let sum12 = ctx.merge(&s1, &s2, Fn2::Add);
    let sum21 = ctx.merge(&s2, &s1, Fn2::Add);
    let sub12 = ctx.merge(&s1, &s2, Fn2::Sub);
    let sub21 = ctx.merge(&s2, &s1, Fn2::Sub);
    let ls: Vec<usize> = [left, right, sum12, sum21, sub12, sub21]
        .iter()
        .map(|s| ctx.listen_stream(s))
        .collect();
    ctx.transaction(&vec![Action::Send(s1, 10), Action::Send(s2, 3)]).unwrap();
    let ds = ctx.take_deliveries();
    let got: Vec<i64> = ls
        .iter()
        .map(|l| ds.iter().find(|d| d.listener == *l).unwrap().value)
        .collect();
    assert_eq!(vec![10, 3, 13, 13, 7, -7], got);
}

#[test]
fn simultaneous_sends_without_coalescer_fail() {
    let mut ctx = FrpContext::new();
    let s = ctx.new_stream_sink();
    let c = ctx.hold(&s, 5);
    let l = ctx.listen_stream(&s);
    let r = ctx.transaction(&vec![Action::Send(s, 1), Action::Send(s, 2)]);
    assert_eq!(Err(FrpError::NoCoalescerForSimultaneous), r);
    assert_eq!(5, ctx.sample(&c));
    assert!(out(&mut ctx, l).is_empty());
    // the context is usable afterwards
    ctx.send(&s, 4).unwrap();
    assert_eq!(vec![4], out(&mut ctx, l));
    assert_eq!(4, ctx.sample(&c));
}

#[test]
fn open_loop_fails_transaction() {
    let mut ctx = FrpContext::new();
    let cs = ctx.new_cell_sink(1);
    ctx.begin_transaction();
    let _lp = ctx.cell_loop();
    assert_eq!(Err(FrpError::LoopNotClosed), ctx.end_transaction());
    assert_eq!(Err(FrpError::LoopNotClosed), cs.change_value(&mut ctx, 2));
    assert_eq!(1, ctx.sample(&cs));
}

#[test]
fn loop_closes_once() {
    let mut ctx = FrpContext::new();
    let k = ctx.new_cell_sink(3);
    ctx.begin_transaction();
    let lp = ctx.cell_loop();
    assert_eq!(Ok(()), ctx.close_loop(&lp, &k));
    assert_eq!(Err(FrpError::LoopAlreadyClosed), ctx.close_loop(&lp, &k));
    assert_eq!(Ok(()), ctx.end_transaction());
    assert_eq!(3, ctx.sample(&lp));
}

#[test]
fn lift_loop() {
    let mut ctx = FrpContext::new();
    let b = ctx.new_cell_sink(5);
    let tea = ctx.new_cell_sink(100);
    ctx.begin_transaction();
    let a: Cell = ctx.cell_loop();
    let c = ctx.lift2_cell(Fn2::Add, &a, &b);
    ctx.close_loop(&a, &tea).unwrap();
    ctx.end_transaction().unwrap();
    let l = ctx.listen_cell(&c);
    b.change_value(&mut ctx, 7).unwrap();
    assert_eq!(vec![105, 107], out(&mut ctx, l));
}

#[test]
fn nested_transactions_commit_once() {
    let mut ctx = FrpContext::new();
    let s = ctx.new_stream_sink_with_coalescer(Fn2::Add);
    let l = ctx.listen_stream(&s);
    ctx.begin_transaction();
    ctx.send(&s, 1).unwrap();
    ctx.transaction(&vec![Action::Send(s, 2)]).unwrap();
    assert!(out(&mut ctx, l).is_empty());
    ctx.end_transaction().unwrap();
    assert_eq!(vec![3], out(&mut ctx, l));
}

#[test]
fn gate() {
    let mut ctx = FrpContext::new();
    let s = ctx.new_stream_sink();
    let pred = ctx.new_cell_sink(1);
    let g = ctx.gate(&s, &pred);
    let l = ctx.listen_stream(&g);
    ctx.send(&s, 1).unwrap();
    pred.change_value(&mut ctx, 0).unwrap();
    ctx.send(&s, 2).unwrap();
    pred.change_value(&mut ctx, 1).unwrap();
    ctx.send(&s, 3).unwrap();
    assert_eq!(vec![1, 3], out(&mut ctx, l));
}

#[test]
fn collect() {
    let mut ctx = FrpContext::new();
    let ea = ctx.new_stream_sink();
    // emit a + s + 100 (as (a + s) + 100 through two nodes), next a + s
    let sum = ctx.collect(&ea, 0, Fn2::Add, Fn2::Add);
    let plus = ctx.map_stream(&sum, Fn1::AddConst(100));
    let l = ctx.listen_stream(&plus);
    for v in [5, 7, 1, 2, 3] {
        ctx.send(&ea, v).unwrap();
    }
    assert_eq!(vec![105, 112, 113, 115, 118], out(&mut ctx, l));
}

#[test]
fn accum() {
    let mut ctx = FrpContext::new();
    let ea = ctx.new_stream_sink();
    let sum = ctx.accum(&ea, 100, Fn2::Add);
    let l = ctx.listen_cell(&sum);
    for v in [5, 7, 1, 2, 3] {
        ctx.send(&ea, v).unwrap();
    }
    assert_eq!(vec![100, 105, 112, 113, 115, 118], out(&mut ctx, l));
}

#[test]
fn once() {
    let mut ctx = FrpContext::new();
    let s = ctx.new_stream_sink();
    let o = ctx.once(&s);
    let l = ctx.listen_stream(&o);
    for v in [1, 2, 3] {
        ctx.send(&s, v).unwrap();
    }
    assert_eq!(vec![1], out(&mut ctx, l));
}

#[test]
fn hold_updates() {
    let mut ctx = FrpContext::new();
    let s = ctx.new_stream_sink();
    let c = ctx.hold(&s, 0);
    let u = ctx.updates(&c);
    let l = ctx.listen_stream(&u);
    ctx.send(&s, 2).unwrap();
    ctx.send(&s, 9).unwrap();
    ctx.send(&s, 9).unwrap();
    assert_eq!(vec![2, 9], out(&mut ctx, l));
}

#[test]
fn snapshot() {
    let mut ctx = FrpContext::new();
    let c = ctx.new_cell_sink(0);
    let s = ctx.new_stream_sink();
    let snap = ctx.snapshot(&s, &c, Fn2::Add);
    let l = ctx.listen_stream(&snap);
    ctx.send(&s, 100).unwrap();
    c.change_value(&mut ctx, 2).unwrap();
    ctx.send(&s, 200).unwrap();
    c.change_value(&mut ctx, 9).unwrap();
    c.change_value(&mut ctx, 1).unwrap();
    ctx.send(&s, 300).unwrap();
    assert_eq!(vec![100, 202, 301], out(&mut ctx, l));
}

#[test]
fn values_and_unlisten() {
    let mut ctx = FrpContext::new();
    let c: CellSink = ctx.new_cell_sink(9);
    let l = ctx.listen_cell(&c);
    c.change_value(&mut ctx, 2).unwrap();
    c.change_value(&mut ctx, 7).unwrap();
    ctx.unlisten(l);
    ctx.unlisten(l);
    ctx.unlisten(1000);
    c.change_value(&mut ctx, 8).unwrap();
    assert_eq!(vec![9, 2, 7], out(&mut ctx, l));
}

#[test]
fn listeners_in_registration_order() {
    let mut ctx = FrpContext::new();
    let s = ctx.new_stream_sink();
    let m = ctx.map_stream(&s, Fn1::Identity);
    let l1 = ctx.listen_stream(&m);
    let l0 = ctx.listen_stream(&s);
    let l2 = ctx.listen_stream(&m);
    ctx.send(&s, 4).unwrap();
    let got: Vec<usize> = ctx.take_deliveries().iter().map(|d| d.listener).collect();
    // topological order of nodes first, then registration order per node
    assert_eq!(vec![l0, l1, l2], got);
}

#[test]
fn arithmetic_wraps_and_division_by_zero_gives_zero() {
    let mut ctx = FrpContext::new();
    let c = ctx.new_cell_sink(i64::MAX);
    let inc = ctx.map_cell(&c, Fn1::AddConst(1));
    let div0 = ctx.map_cell(&c, Fn1::DivConst(0));
    let rem = ctx.map_cell(&c, Fn1::RemConst(10));
    let neg = ctx.map_cell(&c, Fn1::DivConst(-2));
    assert_eq!(i64::MIN, ctx.sample(&inc));
    assert_eq!(0, ctx.sample(&div0));
    assert_eq!(7, ctx.sample(&rem));
    assert_eq!(i64::MAX / -2, ctx.sample(&neg));
    c.change_value(&mut ctx, -17).unwrap();
    assert_eq!(-7, ctx.sample(&rem));
    assert_eq!(8, ctx.sample(&neg));
}

#[test]
fn filters() {
    let mut ctx = FrpContext::new();
    let s = ctx.new_stream_sink();
    let preds = [Pred::Always, Pred::Less(3), Pred::Greater(3), Pred::Equal(3), Pred::NotEqual(3)];
    let ls: Vec<usize> = preds
        .iter()
        .map(|p| {
            let f = ctx.filter(*p, &s);
            ctx.listen_stream(&f)
        })
        .collect();
    for v in [2, 3, 4] {
        ctx.send(&s, v).unwrap();
    }
    let ds = ctx.take_deliveries();
    let per: Vec<Vec<i64>> = ls
        .iter()
        .map(|l| ds.iter().filter(|d| d.listener == *l).map(|d| d.value).collect())
        .collect();
    assert_eq!(vec![vec![2, 3, 4], vec![2], vec![4], vec![3], vec![2, 4]], per);
}

#[test]
fn switch_to_unknown_stream_fires_nothing() {
    let mut ctx = FrpContext::new();
    let s = ctx.new_stream_sink();
    let sel = ctx.new_cell_sink(-1);
    let sw = ctx.switch_s(&sel);
    let l = ctx.listen_stream(&sw);
    ctx.send(&s, 1).unwrap();
    sel.change_value(&mut ctx, sw.id as i64).unwrap();
    ctx.send(&s, 2).unwrap();
    sel.change_value(&mut ctx, s.id as i64).unwrap();
    ctx.send(&s, 3).unwrap();
    assert_eq!(vec![3], out(&mut ctx, l));
}

#[test]
fn switch_c() {
    // Letters as numbers: upper case from 1, lower case from 101.
    let mut ctx = FrpContext::new();
    let sa = ctx.new_stream_sink();
    let sb = ctx.new_stream_sink();
    let ssw = ctx.new_stream_sink();
    let ca = ctx.hold(&sa, 1);
    let cb = ctx.hold(&sb, 101);
    let csw = ctx.hold(&ssw, ca.id as i64);
    let co = ctx.switch_c(&csw);
    let l = ctx.listen_cell(&co);
    let a = ca.id as i64;
    let b = cb.id as i64;
    let steps: Vec<(Option<i64>, Option<i64>, Option<i64>)> = vec![
        (Some(2), Some(102), None),
        (Some(3), Some(103), Some(b)),
        (Some(4), Some(104), None),
        (Some(5), Some(105), Some(a)),
        (Some(6), Some(106), None),
        (None, None, Some(b)),
        (None, None, Some(a)),
        (Some(7), Some(107), Some(b)),
        (Some(8), Some(108), Some(a)),
        (Some(9), Some(109), Some(a)),
    ];
    for (x, y, z) in steps {
        let mut body = Vec::new();
        if let Some(x) = x {
            body.push(Action::Send(sa, x));
        }
        if let Some(y) = y {
            body.push(Action::Send(sb, y));
        }
        if let Some(z) = z {
            body.push(Action::Send(ssw, z));
        }
        ctx.transaction(&body).unwrap();
    }
    assert_eq!(vec![1, 2, 103, 104, 5, 6, 106, 6, 107, 8, 9], out(&mut ctx, l));
}

#[test]
fn defer() {
    let mut ctx = FrpContext::new();
    let s = ctx.new_stream_sink();
    let c = ctx.hold(&s, 0);
    let d = ctx.defer(&s);
    let late = ctx.snapshot(&d, &c, Fn2::Right);
    let now = ctx.snapshot(&s, &c, Fn2::Right);
    let l_late = ctx.listen_stream(&late);
    let l_now = ctx.listen_stream(&now);
    ctx.send(&s, 3).unwrap();
    ctx.send(&s, 2).unwrap();
    ctx.send(&s, 1).unwrap();
    let ds = ctx.take_deliveries();
    let got = |l: usize| -> Vec<i64> { ds.iter().filter(|x| x.listener == l).map(|x| x.value).collect() };
    assert_eq!(vec![3, 2, 1], got(l_late));
    assert_eq!(vec![0, 3, 2], got(l_now));
}

#[test]
fn defer_chain_runs_before_the_call_returns() {
    let mut ctx = FrpContext::new();
    let s = ctx.new_stream_sink();
    let d1 = ctx.defer(&s);
    let d2 = ctx.defer(&d1);
    let m = ctx.map_stream(&d2, Fn1::MulConst(10));
    let l = ctx.listen_stream(&m);
    ctx.send(&s, 4).unwrap();
    assert_eq!(vec![40], out(&mut ctx, l));
}

#[test]
fn drop_node_errors_and_success() {
    let mut ctx = FrpContext::new();
    let s = ctx.new_stream_sink();
    let m = ctx.map_stream(&s, Fn1::AddConst(1));
    assert_eq!(Err(FrpError::InvalidNode), ctx.drop_node(99));
    assert_eq!(Err(FrpError::HasDependents), ctx.drop_node(s.id));
    let l = ctx.listen_stream(&m);
    assert_eq!(Err(FrpError::HasDependents), ctx.drop_node(m.id));
    ctx.unlisten(l);
    assert_eq!(Ok(()), ctx.drop_node(m.id));
    assert_eq!(Err(FrpError::InvalidNode), ctx.drop_node(m.id));
    assert_eq!(Ok(()), ctx.drop_node(s.id));
    // the rest of the graph keeps working
    let s2 = ctx.new_stream_sink();
    let l2 = ctx.listen_stream(&s2);
    ctx.send(&s2, 5).unwrap();
    assert_eq!(vec![5], out(&mut ctx, l2));
}

#[test]
fn drop_node_followed_by_switch_is_kept() {
    let mut ctx = FrpContext::new();
    let s = ctx.new_stream_sink();
    let sel = ctx.new_cell_sink(s.id as i64);
    let _sw = ctx.switch_s(&sel);
    assert_eq!(Err(FrpError::HasDependents), ctx.drop_node(s.id));
    sel.change_value(&mut ctx, -1).unwrap();
    assert_eq!(Ok(()), ctx.drop_node(s.id));
}

#[test]
fn recompute_order_is_layered_by_ascending_id() {
    let mut ctx = FrpContext::new();
    let a = ctx.new_cell_sink(1);
    let m1 = ctx.map_cell(&a, Fn1::AddConst(1));
    let m2 = ctx.map_cell(&a, Fn1::AddConst(2));
    let deep = ctx.map_cell(&m1, Fn1::AddConst(3));
    let m3 = ctx.map_cell(&a, Fn1::AddConst(4));
    let top = ctx.lift2_cell(Fn2::Add, &deep, &m3);
    a.change_value(&mut ctx, 10).unwrap();
    // layer 0: m1, m2, m3 by id; layer 1: deep; layer 2: top
    assert_eq!(vec![m1.id, m2.id, m3.id, deep.id, top.id], ctx.recomputed());
    assert_eq!(10 + 1 + 3 + 10 + 4, ctx.sample(&top));
}

#[test]
fn readers_of_a_loop_follow_it() {
    let mut ctx = FrpContext::new();
    let c = ctx.new_cell_sink(0);
    ctx.begin_transaction();
    let l = ctx.cell_loop();
    let d = ctx.map_cell(&l, Fn1::Identity);
    ctx.close_loop(&l, &c).unwrap();
    ctx.end_transaction().unwrap();
    let ld = ctx.listen_cell(&d);
    c.change_value(&mut ctx, 5).unwrap();
    assert_eq!(5, ctx.sample(&l));
    assert_eq!(5, ctx.sample(&d));
    c.change_value(&mut ctx, 7).unwrap();
    assert_eq!(7, ctx.sample(&d));
    assert_eq!(vec![0, 5, 7], out(&mut ctx, ld));
}

#[test]
fn closed_loop_is_kept() {
    let mut ctx = FrpContext::new();
    let c = ctx.new_cell_sink(0);
    ctx.begin_transaction();
    let l = ctx.cell_loop();
    ctx.close_loop(&l, &c).unwrap();
    ctx.end_transaction().unwrap();
    assert_eq!(Err(FrpError::HasDependents), ctx.drop_node(l.id));
}

#[test]
fn loop_closes_in_its_own_transaction() {
    let mut ctx = FrpContext::new();
    let c = ctx.new_cell_sink(4);
    ctx.begin_transaction();
    let l = ctx.cell_loop();
    assert_eq!(Err(FrpError::LoopNotClosed), ctx.end_transaction());
    assert_eq!(Err(FrpError::LoopNotClosed), ctx.close_loop(&l, &c));
    ctx.begin_transaction();
    assert_eq!(Err(FrpError::LoopNotClosed), ctx.close_loop(&l, &c));
    assert_eq!(Err(FrpError::LoopNotClosed), ctx.end_transaction());
    let outside = ctx.cell_loop();
    assert_eq!(Err(FrpError::LoopNotClosed), ctx.close_loop(&outside, &c));
}
