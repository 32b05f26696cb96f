//! Laws of the engine, stated over the node table and proved.
use vstd::prelude::*;
use crate::node::{
    Node, Rule, affected, commit_all, committed, consistent, consistent_at, consistent_staged, reads_staged_loop, defines_loop, deps,
    frozen, is_cell, lemma_affected, read_new, recompute, rule_wf, table_wf, merge_spec,
};
use crate::func::Fn2;
use crate::listen::{Delivery, Listener, emissions, node_deliveries};
use crate::sched::{derived_quiet, in_pass, lemma_deps_before, propagated};

verus! {

/// After the commit, a cell holds what it showed to its readers during the
/// pass.
proof fn lemma_committed_cell(ns1: Seq<Node>, u: usize)
    requires
        u < ns1.len(),
        is_cell(ns1[u as int].rule),
    ensures
        commit_all(ns1)[u as int].value == read_new(ns1, u),
{
    assert(commit_all(ns1)[u as int] == committed(ns1, u));
}

/// A node that the staged inputs do not reach keeps an empty slot through
/// the pass, so its readers see its committed value.
proof fn lemma_unreached_quiet(ns0: Seq<Node>, ns1: Seq<Node>, u: usize)
    requires
        u < ns0.len(),
        derived_quiet(ns0),
        propagated(ns0, ns1),
        !affected(ns0, u),
    ensures
        ns1[u as int].pending is None,
        ns1[u as int].value == ns0[u as int].value,
{
    lemma_affected(ns0, u);
    assert(ns1[u as int].pending == ns0[u as int].pending);
}

/// A derived cell `d = map(c, f)`, or a lift of cells, holds `f` of the
/// values of what it reads after every transaction, when the table held that
/// before it. Loops are read like any cell; only the definition of a loop,
/// which closes its cycle, is left out.
pub proof fn lemma_commit_keeps_derived_cells(ns0: Seq<Node>, ns1: Seq<Node>)
    requires
        table_wf(ns0),
        derived_quiet(ns0),
        consistent_staged(ns0),
        propagated(ns0, ns1),
    ensures
        consistent(commit_all(ns1)),
{
    let ns3 = commit_all(ns1);
    assert forall|v: usize| v < ns3.len() implies #[trigger] consistent_at(ns3, v) by {
        assert(rule_wf(ns0, v));
        let nd1 = ns1[v as int];
        assert(ns3[v as int] == committed(ns1, v));
        assert forall|u: usize| u < ns0.len() implies (#[trigger] ns3[u as int]).rule == ns0[u as int].rule by {
            assert(ns3[u as int] == committed(ns1, u));
        }
        if defines_loop(ns0, v) {
            let u = choose|u: usize| u < ns0.len() && (#[trigger] ns0[u as int]).rule == (Rule::CellLoop { def: Some(v) });
            assert(ns3[u as int].rule == ns0[u as int].rule);
        }
        if defines_loop(ns3, v) {
            let u = choose|u: usize| u < ns3.len() && (#[trigger] ns3[u as int]).rule == (Rule::CellLoop { def: Some(v) });
            assert(ns3[u as int].rule == ns0[u as int].rule);
        }
        assert(defines_loop(ns3, v) == defines_loop(ns0, v));
        match ns0[v as int].rule {
            Rule::CellMap { .. } | Rule::CellLift2 { .. } | Rule::CellLift3 { .. } | Rule::CellLift4 { .. } => {
                lemma_deps_before(ns0, v);
                let ds = deps(ns0, v);
                assert forall|i: int| 0 <= i < ds.len() implies
                    ns3[#[trigger] ds[i] as int].value == read_new(ns1, ds[i]) by {
                    lemma_committed_cell(ns1, ds[i]);
                }
                if in_pass(ns0, v) {
                    assert(nd1.pending == recompute(ns1, v));
                } else if affected(ns0, v) {
                    assert(frozen(ns0, v));
                    let u = choose|u: usize| u < ns0.len() && crate::node::refreshing(ns0, u as int) && (#[trigger] ns0[u as int]).rule == (Rule::CellLoop { def: Some(v) });
                    assert(defines_loop(ns0, v));
                } else {
                    lemma_affected(ns0, v);
                    lemma_unreached_quiet(ns0, ns1, v);
                    assert(!reads_staged_loop(ns0, v)) by {
                        assert forall|i: int| 0 <= i < ds.len() implies (#[trigger] ns0[ds[i] as int]).pending is None by {
                            lemma_affected(ns0, ds[i]);
                        }
                    }
                    assert(consistent_at(ns0, v));
                    assert forall|i: int| 0 <= i < ds.len() implies
                        read_new(ns1, #[trigger] ds[i]) == ns0[ds[i] as int].value by {
                        lemma_unreached_quiet(ns0, ns1, ds[i]);
                    }
                }
                match ns0[v as int].rule {
                    Rule::CellMap { src, .. } => { assert(ds[0] == src); },
                    Rule::CellLift2 { a, b, .. } => { assert(ds[0] == a); assert(ds[1] == b); },
                    Rule::CellLift3 { a, b, c, .. } => { assert(ds[0] == a); assert(ds[1] == b); assert(ds[2] == c); },
                    Rule::CellLift4 { a, b, c, d, .. } => {
                        assert(ds[0] == a); assert(ds[1] == b); assert(ds[2] == c); assert(ds[3] == d);
                    },
                    _ => {},
                }
            },
            _ => {},
        }
    }
}

/// A cell that the transaction's inputs do not reach keeps its value through
/// the commit.
pub proof fn lemma_unreached_cell_unchanged(ns0: Seq<Node>, ns1: Seq<Node>, c: usize)
    requires
        derived_quiet(ns0),
        propagated(ns0, ns1),
        c < ns0.len(),
        is_cell(ns0[c as int].rule),
        !affected(ns0, c),
    ensures
        commit_all(ns1)[c as int].value == ns0[c as int].value,
{
    lemma_unreached_quiet(ns0, ns1, c);
    lemma_committed_cell(ns1, c);
}

/// A snapshot of a stream `s` against `hold(s, init)` sees the value the
/// hold had before the firing, while the hold itself takes the firing.
pub proof fn lemma_hold_is_delayed(ns0: Seq<Node>, ns1: Seq<Node>, s: usize, h: usize, sn: usize, f: Fn2, x: i64)
    requires
        table_wf(ns0),
        propagated(ns0, ns1),
        h < ns0.len(),
        sn < ns0.len(),
        ns0[h as int].rule == (Rule::CellHold { src: s }),
        ns0[sn as int].rule == (Rule::StreamSnapshot { src: s, cell: h, f }),
        ns1[s as int].pending == Some(x),
        in_pass(ns0, h),
        in_pass(ns0, sn),
    ensures
        ns1[sn as int].pending == Some(f.spec_apply(x, ns0[h as int].value)),
        commit_all(ns1)[h as int].value == x,
{
    assert(rule_wf(ns0, h));
    assert(ns1[h as int].pending == recompute(ns1, h));
    assert(ns1[sn as int].pending == recompute(ns1, sn));
    lemma_committed_cell(ns1, h);
}

/// `orElse` is a merge that keeps its left input when both fire.
pub proof fn lemma_or_else_left_biased(x: i64, y: i64)
    ensures
        merge_spec(Some(x), Some(y), Fn2::Left) == Some(x),
        merge_spec(Some(x), None, Fn2::Left) == Some(x),
        merge_spec(None, Some(y), Fn2::Left) == Some(y),
{
}

/// A merge gives the same firing with its inputs swapped exactly when its
/// combiner gives the same result with its arguments swapped.
pub proof fn lemma_merge_symmetric_iff(f: Fn2)
    ensures
        (forall|x: Option<i64>, y: Option<i64>| #[trigger] merge_spec(x, y, f) == merge_spec(y, x, f))
            <==> f.is_symmetric(),
{
    if forall|x: Option<i64>, y: Option<i64>| #[trigger] merge_spec(x, y, f) == merge_spec(y, x, f) {
        assert forall|a: i64, b: i64| #[trigger] f.spec_apply(a, b) == f.spec_apply(b, a) by {
            assert(merge_spec(Some(a), Some(b), f) == merge_spec(Some(b), Some(a), f));
        }
    }
    if f.is_symmetric() {
        assert forall|x: Option<i64>, y: Option<i64>| #[trigger] merge_spec(x, y, f) == merge_spec(y, x, f) by {
            match (x, y) {
                (Some(a), Some(b)) => { assert(f.spec_apply(a, b) == f.spec_apply(b, a)); },
                _ => {},
            }
        }
    }
}

/// The deliveries of one node's firing go to distinct listeners, all of
/// them below `j`, all from that node.
proof fn lemma_node_deliveries_distinct(ls: Seq<Listener>, j: nat, v: usize, x: i64)
    requires
        j <= ls.len(),
        ls.len() <= usize::MAX,
    ensures
        forall|i: int| 0 <= i < node_deliveries(ls, j, v, x).len() ==>
            (#[trigger] node_deliveries(ls, j, v, x)[i]).node == v && node_deliveries(ls, j, v, x)[i].listener < j,
        forall|i: int, k: int| 0 <= i < k < node_deliveries(ls, j, v, x).len() ==>
            (#[trigger] node_deliveries(ls, j, v, x)[i]).listener < (#[trigger] node_deliveries(ls, j, v, x)[k]).listener,
    decreases j,
{
    if j > 0 {
        lemma_node_deliveries_distinct(ls, (j - 1) as nat, v, x);
        let prev = node_deliveries(ls, (j - 1) as nat, v, x);
        let cur = node_deliveries(ls, j, v, x);
        let l = ls[j - 1];
        if l.active && l.node == v {
            assert(cur == prev.push(Delivery { listener: (j - 1) as usize, node: v, value: x }));
            assert forall|i: int| 0 <= i < cur.len() implies (#[trigger] cur[i]).node == v && cur[i].listener < j by {
                if i < prev.len() {
                    assert(cur[i] == prev[i]);
                }
            }
            assert forall|i: int, k: int| 0 <= i < k < cur.len() implies (#[trigger] cur[i]).listener < (#[trigger] cur[k]).listener by {
                assert(cur[i] == prev[i]);
                if k < prev.len() {
                    assert(cur[k] == prev[k]);
                }
            }
        } else {
            assert(cur == prev);
        }
    }
}

/// In one transaction a listener receives at most one delivery from each
/// node.
pub proof fn lemma_one_delivery_per_node(ns: Seq<Node>, ls: Seq<Listener>, k: nat)
    requires
        k <= ns.len(),
        ns.len() <= usize::MAX,
        ls.len() <= usize::MAX,
    ensures
        forall|i: int| 0 <= i < emissions(ns, ls, k).len() ==> (#[trigger] emissions(ns, ls, k)[i]).node < k,
        forall|i: int, j: int|
            0 <= i < j < emissions(ns, ls, k).len() ==> !((#[trigger] emissions(ns, ls, k)[i]).listener
                == (#[trigger] emissions(ns, ls, k)[j]).listener && emissions(ns, ls, k)[i].node
                == emissions(ns, ls, k)[j].node),
    decreases k,
{
    if k > 0 {
        let prev = emissions(ns, ls, (k - 1) as nat);
        lemma_one_delivery_per_node(ns, ls, (k - 1) as nat);
        match ns[k - 1].pending {
            Some(x) => {
                let nd = node_deliveries(ls, ls.len(), (k - 1) as usize, x);
                lemma_node_deliveries_distinct(ls, ls.len(), (k - 1) as usize, x);
                let e = emissions(ns, ls, k);
                assert(e == prev + nd);
                assert forall|i: int, j: int| 0 <= i < j < e.len() implies !((#[trigger] e[i]).listener
                    == (#[trigger] e[j]).listener && e[i].node == e[j].node) by {
                    if j >= prev.len() && i >= prev.len() {
                        assert(e[i] == nd[i - prev.len()]);
                        assert(e[j] == nd[j - prev.len()]);
                    } else if j >= prev.len() {
                        assert(e[j] == nd[j - prev.len()]);
                        assert(e[i] == prev[i]);
                    }
                }
                assert forall|i: int| 0 <= i < e.len() implies (#[trigger] e[i]).node < k by {
                    if i >= prev.len() {
                        assert(e[i] == nd[i - prev.len()]);
                    }
                }
            },
            None => {},
        }
    }
}

} // verus!
