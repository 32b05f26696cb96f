use rusty_frp::{Action, Fn1, Fn2, FrpContext, FrpError, Pred};

fn out(ctx: &mut FrpContext, l: usize) -> Vec<i64> {
    ctx.take_deliveries().iter().filter(|d| d.listener == l).map(|d| d.value).collect()
}

#[test]
fn stream_sink_test_map() {
    let mut ctx = FrpContext::new();
    let s = ctx.new_stream_sink();
    let s2 = ctx.map_stream(&s, Fn1::AddConst(1));
    let l = ctx.listen_stream(&s2);
    ctx.send(&s, 7).unwrap();
    assert_eq!(vec![8], out(&mut ctx, l));
}

#[test]
fn lib_map() {
    let mut ctx = FrpContext::new();
    let s = ctx.new_stream_sink();
    let s2 = ctx.map_stream(&s, Fn1::AddConst(1));
    let l = ctx.listen_stream(&s2);
    ctx.send(&s, 7).unwrap();
    assert_eq!(out(&mut ctx, l), vec![8]);
}

#[test]
fn map_to() {
    let mut ctx = FrpContext::new();
    let s = ctx.new_stream_sink();
    let m = ctx.map_to(&s, 42);
    let l = ctx.listen_stream(&m);
    ctx.send(&s, 7).unwrap();
    ctx.send(&s, 9).unwrap();
    assert_eq!(vec![42, 42], out(&mut ctx, l));
}

#[test]
fn stream_sink_test_merge_non_simultaneous() {
    let mut ctx = FrpContext::new();
    let s1 = ctx.new_stream_sink();
    let s2 = ctx.new_stream_sink();
    let m = ctx.or_else(&s2, &s1);
    let l = ctx.listen_stream(&m);
    ctx.send(&s1, 7).unwrap();
    ctx.send(&s2, 9).unwrap();
    ctx.send(&s1, 8).unwrap();
    assert_eq!(vec![7, 9, 8], out(&mut ctx, l));
}

#[test]
fn lib_merge_non_simultaneous() {
    let mut ctx = FrpContext::new();
    let s1 = ctx.new_stream_sink();
    let s2 = ctx.new_stream_sink();
    let s3 = ctx.or_else(&s2, &s1);
    let l = ctx.listen_stream(&s3);
    ctx.send(&s1, 7).unwrap();
    ctx.send(&s2, 9).unwrap();
    ctx.send(&s1, 8).unwrap();
    assert_eq!(vec!(7, 9, 8), out(&mut ctx, l));
}

#[test]
fn merge_simultaneous() {
    let mut ctx = FrpContext::new();
    let s1 = ctx.new_stream_sink_with_coalescer(Fn2::Right);
    let s2 = ctx.new_stream_sink_with_coalescer(Fn2::Right);
    let m = ctx.or_else(&s2, &s1);
    let l = ctx.listen_stream(&m);
    ctx.transaction(&vec![Action::Send(s1, 7), Action::Send(s2, 60)]).unwrap();
    ctx.transaction(&vec![Action::Send(s1, 9)]).unwrap();
    ctx.transaction(&vec![
        Action::Send(s1, 7),
        Action::Send(s1, 60),
        Action::Send(s2, 8),
        Action::Send(s2, 90),
    ])
    .unwrap();
    ctx.transaction(&vec![
        Action::Send(s2, 8),
        Action::Send(s2, 90),
        Action::Send(s1, 7),
        Action::Send(s1, 60),
    ])
    .unwrap();
    ctx.transaction(&vec![
        Action::Send(s2, 8),
        Action::Send(s1, 7),
        Action::Send(s2, 90),
        Action::Send(s1, 60),
    ])
    .unwrap();
    assert_eq!(vec![60, 9, 90, 90, 90], out(&mut ctx, l));
}

#[test]
fn coalesce() {
    let mut ctx = FrpContext::new();
    let s = ctx.new_stream_sink_with_coalescer(Fn2::Add);
    let l = ctx.listen_stream(&s);
    ctx.transaction(&vec![Action::Send(s, 2)]).unwrap();
    ctx.transaction(&vec![Action::Send(s, 8), Action::Send(s, 40)]).unwrap();
    assert_eq!(vec![2, 48], out(&mut ctx, l));
}

#[test]
fn stream_sink_test_filter() {
    let mut ctx = FrpContext::new();
    let s = ctx.new_stream_sink();
    let f = ctx.filter(Pred::Less(10), &s);
    let l = ctx.listen_stream(&f);
    ctx.send(&s, 2).unwrap();
    ctx.send(&s, 16).unwrap();
    ctx.send(&s, 9).unwrap();
    assert_eq!(vec![2, 9], out(&mut ctx, l));
}

#[test]
fn lib_filter() {
    let mut ctx = FrpContext::new();
    let s = ctx.new_stream_sink();
    let s2 = ctx.filter(Pred::Less(10), &s);
    let l = ctx.listen_stream(&s2);
    ctx.send(&s, 2).unwrap();
    ctx.send(&s, 16).unwrap();
    ctx.send(&s, 9).unwrap();
    assert_eq!(vec![2, 9], out(&mut ctx, l));
}

#[test]
fn merge() {
    let mut ctx = FrpContext::new();
    let sa = ctx.new_stream_sink();
    let sb0 = ctx.map_stream(&sa, Fn1::DivConst(10));
    let sb = ctx.filter(Pred::NotEqual(0), &sb0);
    let sc0 = ctx.map_stream(&sa, Fn1::RemConst(10));
    let sc = ctx.merge(&sc0, &sb, Fn2::Add);
    let l = ctx.listen_stream(&sc);
    ctx.send(&sa, 2).unwrap();
    ctx.send(&sa, 52).unwrap();
    assert_eq!(vec![2, 7], out(&mut ctx, l));
}

#[test]
fn loop_cell_accumulator() {
    let mut ctx = FrpContext::new();
    let sa = ctx.new_stream_sink();
    ctx.begin_transaction();
    let sum = ctx.cell_loop();
    let snap = ctx.snapshot(&sa, &sum, Fn2::Add);
    let sum_out = ctx.hold(&snap, 0);
    ctx.close_loop(&sum, &sum_out).unwrap();
    ctx.end_transaction().unwrap();
    let l = ctx.listen_cell(&sum_out);
    ctx.send(&sa, 2).unwrap();
    ctx.send(&sa, 3).unwrap();
    ctx.send(&sa, 1).unwrap();
    assert_eq!(vec![0, 2, 5, 6], out(&mut ctx, l));
    assert_eq!(6, ctx.sample(&sum_out));
}

#[test]
fn switch_s_simultaneous() {
    let mut ctx = FrpContext::new();
    let ss1 = ctx.new_stream_sink();
    let ss2 = ctx.new_stream_sink();
    let ss3 = ctx.new_stream_sink();
    let ss4 = ctx.new_stream_sink();
    let css = ctx.new_cell_sink(ss1.id as i64);
    let sel = ctx.map_cell(&css, Fn1::Identity);
    let so = ctx.switch_s(&sel);
    let l = ctx.listen_stream(&so);
    ctx.send(&ss1, 0).unwrap();
    ctx.send(&ss1, 1).unwrap();
    ctx.send(&ss1, 2).unwrap();
    css.change_value(&mut ctx, ss2.id as i64).unwrap();
    ctx.send(&ss1, 7).unwrap();
    ctx.send(&ss2, 3).unwrap();
    ctx.send(&ss2, 4).unwrap();
    ctx.send(&ss3, 2).unwrap();
    css.change_value(&mut ctx, ss3.id as i64).unwrap();
    ctx.send(&ss3, 5).unwrap();
    ctx.send(&ss3, 6).unwrap();
    ctx.send(&ss3, 7).unwrap();
    ctx.transaction(&vec![
        Action::Send(ss3, 8),
        Action::Change(css, ss4.id as i64),
        Action::Send(ss4, 2),
    ])
    .unwrap();
    ctx.send(&ss4, 9).unwrap();
    assert_eq!(vec![0, 1, 2, 3, 4, 5, 6, 7, 8, 9], out(&mut ctx, l));
}

#[test]
fn test_via_console() {
    // cell sink
    let mut ctx = FrpContext::new();
    let cs1 = ctx.new_cell_sink(1);
    let l = ctx.listen_cell(&cs1);
    cs1.change_value(&mut ctx, 2).unwrap();
    cs1.change_value(&mut ctx, 3).unwrap();
    cs1.change_value(&mut ctx, 4).unwrap();
    assert_eq!(vec![1, 2, 3, 4], out(&mut ctx, l));
    // cell map
    let mut ctx = FrpContext::new();
    let cs1 = ctx.new_cell_sink(1);
    let c2 = ctx.map_cell(&cs1, Fn1::AddConst(1));
    let l = ctx.listen_cell(&c2);
    cs1.change_value(&mut ctx, 2).unwrap();
    cs1.change_value(&mut ctx, 3).unwrap();
    cs1.change_value(&mut ctx, 4).unwrap();
    assert_eq!(vec![2, 3, 4, 5], out(&mut ctx, l));
    // stream map
    let mut ctx = FrpContext::new();
    let ss1 = ctx.new_stream_sink();
    let s2 = ctx.map_stream(&ss1, Fn1::AddConst(1));
    let l = ctx.listen_stream(&s2);
    ctx.send(&ss1, 2).unwrap();
    ctx.send(&ss1, 3).unwrap();
    ctx.send(&ss1, 4).unwrap();
    assert_eq!(vec![3, 4, 5], out(&mut ctx, l));
    // lift2
    let mut ctx = FrpContext::new();
    let cs1 = ctx.new_cell_sink(1);
    let cs2 = ctx.new_cell_sink(1);
    let c3 = ctx.lift2_cell(Fn2::Add, &cs1, &cs2);
    let l = ctx.listen_cell(&c3);
    cs1.change_value(&mut ctx, 2).unwrap();
    cs2.change_value(&mut ctx, 3).unwrap();
    cs1.change_value(&mut ctx, 4).unwrap();
    assert_eq!(vec![2, 3, 5, 7], out(&mut ctx, l));
    // cell loop: a counter that counts pulses
    let mut ctx = FrpContext::new();
    let pulse = ctx.new_cell_sink(0);
    ctx.begin_transaction();
    let lp = ctx.cell_loop();
    let c = ctx.lift2_cell(Fn2::Add, &lp, &pulse);
    ctx.close_loop(&lp, &c).unwrap();
    ctx.end_transaction().unwrap();
    let l = ctx.listen_cell(&c);
    pulse.change_value(&mut ctx, 1).unwrap();
    pulse.change_value(&mut ctx, 1).unwrap();
    pulse.change_value(&mut ctx, 1).unwrap();
    assert_eq!(vec![0, 1, 2, 3], out(&mut ctx, l));
}
