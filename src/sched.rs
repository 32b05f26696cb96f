//! The recompute pass of a transaction: every node that the staged inputs
//! reach is recomputed once, in an order that the topological sorter gives.
use vstd::prelude::*;
use crate::node::{
    Node, Rule, affected, deps, deps_at, is_derived, is_derived_rule, recompute_at, committed, restaged, has_staged, committed_at, commit_all, discard_all, lemma_reach_prefix, reach_prefix, recompute,
    rule_wf, switch_target, table_wf, read_new, cell_target, frozen, refreshing,
};
use crate::topo::{ts_add_dependency, ts_insert, ts_items, ts_links, ts_new, ts_pop_batch};

verus! {

/// The derived nodes that the recompute pass evaluates: those reached, but
/// the definitions of refreshing loops.
pub open spec fn in_pass(ns: Seq<Node>, v: usize) -> bool {
    v < ns.len() && affected(ns, v) && is_derived(ns[v as int].rule) && !frozen(ns, v)
}

/// Marks the definitions of the loops that are refreshing.
fn frozen_marks(ns: &Vec<Node>) -> (fz: Vec<bool>)
    requires
        table_wf(ns@),
    ensures
        fz@.len() == ns@.len(),
        forall|v: usize| v < ns@.len() ==> fz@[v as int] == frozen(ns@, v),
{
    let n = ns.len();
    let mut fz: Vec<bool> = Vec::new();
    while fz.len() < n
        invariant
            fz@.len() <= n,
            forall|k: int| 0 <= k < fz@.len() ==> !fz@[k],
        decreases n - fz@.len(),
    {
        fz.push(false);
    }
    let mut u: usize = 0;
    while u < n
        invariant
            n == ns@.len(),
            u <= n,
            table_wf(ns@),
            fz@.len() == n,
            forall|v: usize| v < n ==> fz@[v as int] == exists|w: usize|
                w < u && refreshing(ns@, w as int) && (#[trigger] ns@[w as int]).rule == (Rule::CellLoop { def: Some(v) }),
        decreases n - u,
    {
        proof { assert(rule_wf(ns@, u)); }
        let nd = ns[u];
        if let Rule::CellLoop { def: Some(d) } = nd.rule {
            if let Some(x) = nd.pending {
                if x != nd.value {
                    fz.set(d, true);
                }
            }
        }
        proof {
            assert forall|v: usize| v < n implies fz@[v as int] == exists|w: usize|
                w < u + 1 && refreshing(ns@, w as int) && (#[trigger] ns@[w as int]).rule == (Rule::CellLoop { def: Some(v) }) by {
                if refreshing(ns@, u as int) && ns@[u as int].rule == (Rule::CellLoop { def: Some(v) }) {
                    assert(fz@[v as int]);
                }
            }
        }
        u += 1;
    }
    fz
}

/// `w` of the pass waits for `d` of the pass.
pub open spec fn pass_link(ns: Seq<Node>, d: usize, w: usize) -> bool {
    in_pass(ns, w) && in_pass(ns, d) && deps(ns, w).contains(d)
}

/// Only the slots of derived nodes change; each slot of a node of the pass
/// holds its rule evaluated on the final table.
pub open spec fn propagated(ns0: Seq<Node>, ns1: Seq<Node>) -> bool {
    &&& ns1.len() == ns0.len()
    &&& forall|v: usize|
        v < ns0.len() ==> {
            &&& (#[trigger] ns1[v as int]).rule == ns0[v as int].rule
            &&& ns1[v as int].value == ns0[v as int].value
            &&& ns1[v as int].pending == if in_pass(ns0, v) {
                recompute(ns1, v)
            } else {
                ns0[v as int].pending
            }
        }
}

/// Between the staging of inputs and the pass, no derived node has a slot.
pub open spec fn derived_quiet(ns: Seq<Node>) -> bool {
    forall|v: usize|
        v < ns.len() && is_derived(#[trigger] ns[v as int].rule) ==> ns[v as int].pending is None
}

pub open spec fn same_but_slots(ns: Seq<Node>, ms: Seq<Node>) -> bool {
    &&& ms.len() == ns.len()
    &&& forall|u: usize|
        u < ns.len() ==> (#[trigger] ms[u as int]).rule == ns[u as int].rule && ms[u as int].value
            == ns[u as int].value
}

pub proof fn lemma_deps_before(ns: Seq<Node>, v: usize)
    requires
        v < ns.len(),
        rule_wf(ns, v),
    ensures
        forall|i: int| 0 <= i < deps(ns, v).len() ==> #[trigger] deps(ns, v)[i] < v,
{
}

/// A node's evaluation reads the slots of its inputs only.
pub proof fn lemma_recompute_frame(ns: Seq<Node>, ms: Seq<Node>, v: usize)
    requires
        v < ns.len(),
        rule_wf(ns, v),
        same_but_slots(ns, ms),
        forall|i: int|
            0 <= i < deps(ns, v).len() ==> ms[#[trigger] deps(ns, v)[i] as int].pending
                == ns[deps(ns, v)[i] as int].pending,
    ensures
        deps(ms, v) == deps(ns, v),
        recompute(ms, v) == recompute(ns, v),
        rule_wf(ms, v),
{
    let r = ns[v as int].rule;
    assert(ms[v as int].rule == r);
    match r {
        Rule::StreamSwitch { outer } => {
            let x = ns[outer as int].value;
            if 0 <= x < v {
                assert(ms[x as int].rule == ns[x as int].rule);
            }
            assert(switch_target(ms, outer, v) == switch_target(ns, outer, v));
            assert(deps(ms, v) =~= deps(ns, v));
            match switch_target(ns, outer, v) {
                Some(t) => { assert(deps(ns, v)[0] == t); },
                None => {},
            }
        },
        Rule::CellSwitch { outer } => {
            assert forall|u: usize| u < v implies #[trigger] ms[u as int].pending == ns[u as int].pending
                && ms[u as int].rule == ns[u as int].rule && ms[u as int].value == ns[u as int].value by {
                assert(deps(ns, v)[u as int] == u);
            }
            assert(read_new(ms, outer) == read_new(ns, outer));
            let x = read_new(ns, outer);
            if 0 <= x < v {
                assert(ms[x as int].rule == ns[x as int].rule);
            }
            assert(cell_target(ms, x, v) == cell_target(ns, x, v));
            match cell_target(ns, x, v) {
                Some(t) => { assert(read_new(ms, t) == read_new(ns, t)); },
                None => {},
            }
            assert(deps(ms, v) =~= deps(ns, v));
        },
        Rule::CellMap { src, .. } => { assert(deps(ns, v)[0] == src); assert(ms[src as int].rule == ns[src as int].rule); },
        Rule::CellLift2 { a, b, .. } => {
            assert(deps(ns, v)[0] == a); assert(deps(ns, v)[1] == b);
            assert(ms[a as int].rule == ns[a as int].rule); assert(ms[b as int].rule == ns[b as int].rule);
        },
        Rule::CellLift3 { a, b, c, .. } => {
            assert(deps(ns, v)[0] == a); assert(deps(ns, v)[1] == b); assert(deps(ns, v)[2] == c);
            assert(ms[a as int].rule == ns[a as int].rule); assert(ms[b as int].rule == ns[b as int].rule);
            assert(ms[c as int].rule == ns[c as int].rule);
        },
        Rule::CellLift4 { a, b, c, d, .. } => {
            assert(deps(ns, v)[0] == a); assert(deps(ns, v)[1] == b); assert(deps(ns, v)[2] == c);
            assert(deps(ns, v)[3] == d);
            assert(ms[a as int].rule == ns[a as int].rule); assert(ms[b as int].rule == ns[b as int].rule);
            assert(ms[c as int].rule == ns[c as int].rule); assert(ms[d as int].rule == ns[d as int].rule);
        },
        Rule::CellHold { src } => { assert(deps(ns, v)[0] == src); assert(ms[src as int].rule == ns[src as int].rule); },
        Rule::CellAccum { src, .. } => { assert(deps(ns, v)[0] == src); assert(ms[src as int].rule == ns[src as int].rule); },
        Rule::StreamMap { src, .. } => { assert(deps(ns, v)[0] == src); assert(ms[src as int].rule == ns[src as int].rule); },
        Rule::StreamFilter { src, .. } => { assert(deps(ns, v)[0] == src); assert(ms[src as int].rule == ns[src as int].rule); },
        Rule::StreamMerge { a, b, .. } => {
            assert(deps(ns, v)[0] == a); assert(deps(ns, v)[1] == b);
            assert(ms[a as int].rule == ns[a as int].rule); assert(ms[b as int].rule == ns[b as int].rule);
        },
        Rule::StreamSnapshot { src, cell, .. } => {
            assert(deps(ns, v)[0] == src); assert(ms[src as int].rule == ns[src as int].rule);
            assert(ms[cell as int].rule == ns[cell as int].rule);
        },
        Rule::StreamGate { src, cell } => {
            assert(deps(ns, v)[0] == src); assert(ms[src as int].rule == ns[src as int].rule);
            assert(ms[cell as int].rule == ns[cell as int].rule);
        },
        Rule::StreamUpdates { cell } => { assert(deps(ns, v)[0] == cell); assert(ms[cell as int].rule == ns[cell as int].rule); },
        Rule::StreamOnce { src } => { assert(deps(ns, v)[0] == src); assert(ms[src as int].rule == ns[src as int].rule); },
        Rule::StreamCollect { src, .. } => { assert(deps(ns, v)[0] == src); assert(ms[src as int].rule == ns[src as int].rule); },
        Rule::CellLoop { def } => {
            match def { Some(d) => { assert(ms[d as int].rule == ns[d as int].rule); }, None => {} }
        },
        _ => {},
    }
}

/// Marks, in one pass in the order of creation, the nodes that the staged
/// inputs reach.
pub fn reached(ns: &Vec<Node>) -> (aff: Vec<bool>)
    requires
        table_wf(ns@),
    ensures
        aff@.len() == ns@.len(),
        forall|v: usize| v < ns@.len() ==> aff@[v as int] == affected(ns@, v),
{
    let n = ns.len();
    let mut aff: Vec<bool> = Vec::new();
    let mut v: usize = 0;
    while v < n
        invariant
            n == ns@.len(),
            v <= n,
            table_wf(ns@),
            aff@ == reach_prefix(ns@, v as nat),
        decreases n - v,
    {
        proof {
            assert(rule_wf(ns@, v));
            lemma_reach_prefix(ns@, v as nat, v as nat);
        }
        let ds = deps_at(ns, v);
        let mut hit = ns[v].pending.is_some();
        let mut i: usize = 0;
        while i < ds.len()
            invariant
                v < n,
                n == ns@.len(),
                aff@ == reach_prefix(ns@, v as nat),
                aff@.len() == v,
                ds@ == deps(ns@, v),
                i <= ds@.len(),
                hit == (ns@[v as int].pending is Some || exists|k: int|
                    0 <= k < i && ds@[k] < v && #[trigger] aff@[ds@[k] as int]),
            decreases ds@.len() - i,
        {
            let d = ds[i];
            if d < v && aff[d] {
                hit = true;
            }
            i += 1;
        }
        aff.push(hit);
        proof {
            assert(aff@ == reach_prefix(ns@, (v + 1) as nat));
        }
        v += 1;
    }
    proof {
        lemma_reach_prefix(ns@, n as nat, n as nat);
    }
    aff
}

pub open spec fn pass_items(ns: Seq<Node>, k: int) -> Set<usize> {
    Set::new(|x: usize| x < k && in_pass(ns, x))
}

pub open spec fn pass_links(ns: Seq<Node>, k: int) -> Set<(usize, usize)> {
    Set::new(|l: (usize, usize)| l.1 < k && pass_link(ns, l.0, l.1))
}

/// Loads the nodes of the pass, and the links between them, into a sorter.
fn load_sorter(ns: &Vec<Node>, aff: &Vec<bool>, fz: &Vec<bool>) -> (ts: topological_sort::TopologicalSort<usize>)
    requires
        table_wf(ns@),
        aff@.len() == ns@.len(),
        forall|v: usize| v < ns@.len() ==> aff@[v as int] == affected(ns@, v),
        fz@.len() == ns@.len(),
        forall|v: usize| v < ns@.len() ==> fz@[v as int] == frozen(ns@, v),
    ensures
        ts_items(ts) == pass_items(ns@, ns@.len() as int),
        ts_links(ts) == pass_links(ns@, ns@.len() as int),
        ts_items(ts).finite(),
{
    let n = ns.len();
    let mut ts = ts_new();
    proof {
        assert(ts_items(ts) =~= pass_items(ns@, 0));
        assert(ts_links(ts) =~= pass_links(ns@, 0));
    }
    let mut v: usize = 0;
    while v < n
        invariant
            n == ns@.len(),
            v <= n,
            table_wf(ns@),
            aff@.len() == ns@.len(),
            forall|v: usize| v < ns@.len() ==> aff@[v as int] == affected(ns@, v),
            fz@.len() == ns@.len(),
            forall|v: usize| v < ns@.len() ==> fz@[v as int] == frozen(ns@, v),
            ts_items(ts) == pass_items(ns@, v as int),
            ts_links(ts) == pass_links(ns@, v as int),
            ts_items(ts).finite(),
        decreases n - v,
    {
        proof {
            assert(rule_wf(ns@, v));
            lemma_deps_before(ns@, v);
        }
        if aff[v] && is_derived_rule(&ns[v].rule) && !fz[v] {
            ts_insert(&mut ts, v);
            let ds = deps_at(ns, v);
            let mut i: usize = 0;
            while i < ds.len()
                invariant
                    v < n,
                    n == ns@.len(),
                    table_wf(ns@),
                    aff@.len() == ns@.len(),
                    forall|v: usize| v < ns@.len() ==> aff@[v as int] == affected(ns@, v),
                    fz@.len() == ns@.len(),
                    forall|v: usize| v < ns@.len() ==> fz@[v as int] == frozen(ns@, v),
                    in_pass(ns@, v),
                    ds@ == deps(ns@, v),
                    forall|k: int| 0 <= k < ds@.len() ==> #[trigger] ds@[k] < v,
                    i <= ds@.len(),
                    ts_items(ts) == pass_items(ns@, v as int).insert(v),
                    ts_links(ts) == pass_links(ns@, v as int).union(
                        Set::new(|l: (usize, usize)| l.1 == v && exists|k: int| 0 <= k < i && ds@[k] == l.0 && in_pass(ns@, l.0)),
                    ),
                    ts_items(ts).finite(),
                decreases ds@.len() - i,
            {
                let d = ds[i];
                if aff[d] && is_derived_rule(&ns[d].rule) && !fz[d] {
                    ts_add_dependency(&mut ts, d, v);
                    proof {
                        assert(pass_items(ns@, v as int).contains(d));
                        assert(ts_items(ts) =~= pass_items(ns@, v as int).insert(v));
                    }
                }
                proof {
                    let ii = (i + 1) as int;
                    assert(ts_links(ts) =~= pass_links(ns@, v as int).union(
                        Set::new(|l: (usize, usize)| l.1 == v && exists|k: int| 0 <= k < ii && ds@[k] == l.0 && in_pass(ns@, l.0)),
                    )) by {
                        assert forall|l: (usize, usize)| #[trigger] ts_links(ts).contains(l) implies
                            pass_links(ns@, v as int).contains(l) || (l.1 == v && exists|k: int| 0 <= k < ii && ds@[k] == l.0 && in_pass(ns@, l.0)) by {
                            if l.1 == v && l.0 == d && in_pass(ns@, d) {
                                assert(ds@[i as int] == l.0);
                            }
                        }
                    }
                }
                i += 1;
            }
            proof {
                assert(ts_items(ts) =~= pass_items(ns@, v + 1));
                assert forall|l: (usize, usize)| pass_links(ns@, v + 1).contains(l) implies
                    #[trigger] ts_links(ts).contains(l) by {
                    if l.1 == v {
                        assert(deps(ns@, v).contains(l.0));
                        let k = choose|k: int| 0 <= k < ds@.len() && ds@[k] == l.0;
                    }
                }
                assert(ts_links(ts) =~= pass_links(ns@, v + 1));
            }
        } else {
            proof {
                assert(ts_items(ts) =~= pass_items(ns@, v + 1));
                assert(ts_links(ts) =~= pass_links(ns@, v + 1));
            }
        }
        v += 1;
    }
    ts
}

/// Which nodes a node reads, and whether it is well formed, do not depend on
/// the slots.
pub proof fn lemma_deps_same(ns: Seq<Node>, ms: Seq<Node>, v: usize)
    requires
        v < ns.len(),
        rule_wf(ns, v),
        same_but_slots(ns, ms),
    ensures
        deps(ms, v) == deps(ns, v),
        rule_wf(ms, v) == rule_wf(ns, v),
{
    assert(ms[v as int].rule == ns[v as int].rule);
    match ns[v as int].rule {
        Rule::StreamSwitch { outer } => {
            if outer < ns.len() {
                assert(ms[outer as int].value == ns[outer as int].value);
                let x = ns[outer as int].value;
                if 0 <= x < v {
                    assert(ms[x as int].rule == ns[x as int].rule);
                }
                assert(switch_target(ms, outer, v) == switch_target(ns, outer, v));
                assert(ms[outer as int].rule == ns[outer as int].rule);
            }
            assert(deps(ms, v) =~= deps(ns, v));
        },
        _ => {
            assert(forall|u: usize| u < ns.len() ==> ms[u as int].rule == ns[u as int].rule);
        },
    }
}

/// A node reads the same nodes in a longer table that agrees with the first
/// on the first's nodes.
pub proof fn lemma_deps_prefix(ns: Seq<Node>, ms: Seq<Node>, v: usize)
    requires
        v < ns.len() <= ms.len(),
        rule_wf(ns, v),
        forall|u: usize| u < ns.len() ==> #[trigger] ms[u as int] == ns[u as int],
    ensures
        deps(ms, v) == deps(ns, v),
{
    assert(ms[v as int] == ns[v as int]);
    match ns[v as int].rule {
        Rule::StreamSwitch { outer } => {
            assert(ms[outer as int] == ns[outer as int]);
            let x = ns[outer as int].value;
            if 0 <= x < v {
                assert(ms[x as int] == ns[x as int]);
            }
            assert(switch_target(ms, outer, v) == switch_target(ns, outer, v));
            assert(deps(ms, v) =~= deps(ns, v));
        },
        _ => {},
    }
}

/// Whether a node is well formed depends on the rules alone.
pub proof fn lemma_rule_wf_rules(ns: Seq<Node>, ms: Seq<Node>, v: usize)
    requires
        v < ns.len(),
        ms.len() == ns.len(),
        forall|u: usize| u < ns.len() ==> (#[trigger] ms[u as int]).rule == ns[u as int].rule,
    ensures
        rule_wf(ms, v) == rule_wf(ns, v),
{
    assert(ms[v as int].rule == ns[v as int].rule);
}

/// In a sorter whose links point from smaller to larger items, some item
/// waits for nothing.
proof fn lemma_some_ready(items: Set<usize>, links: Set<(usize, usize)>, x: usize)
    requires
        items.contains(x),
        forall|l: (usize, usize)| #[trigger] links.contains(l) ==> items.contains(l.0) && l.0 < l.1,
    ensures
        exists|y: usize| items.contains(y) && forall|p: usize| !(#[trigger] links.contains((p, y))),
    decreases x,
{
    if exists|p: usize| #[trigger] links.contains((p, x)) {
        let p = choose|p: usize| #[trigger] links.contains((p, x));
        lemma_some_ready(items, links, p);
    }
}

/// `order` runs through the layers of Kahn's algorithm in turn, by ascending
/// id within a layer. `lv[i]` is the layer of `order[i]`: 0 for a node that
/// waits for no node of the pass, else one more than the deepest layer of the
/// nodes it waits for.
pub open spec fn layered(ns0: Seq<Node>, order: Seq<usize>, lv: Seq<nat>) -> bool {
    &&& lv.len() == order.len()
    &&& forall|i: int, j: int|
        0 <= i < j < order.len() ==> lv[i] < lv[j] || (lv[i] == lv[j] && order[i] < order[j])
    &&& forall|i: int, j: int|
        0 <= i < order.len() && 0 <= j < order.len() && #[trigger] pass_link(ns0, order[i], order[j])
            ==> lv[i] < lv[j]
    &&& forall|j: int|
        0 <= j < order.len() && lv[j] > 0 ==> exists|i: int|
            0 <= i < order.len() && #[trigger] pass_link(ns0, order[i], order[j]) && lv[i] + 1 == lv[j]
}

/// No node of `order` comes before a node it waits for.
pub open spec fn topological(ns0: Seq<Node>, order: Seq<usize>) -> bool {
    forall|i: int, j: int| 0 <= i < j < order.len() ==> !pass_link(ns0, order[j], order[i])
}

/// Recomputes every node that the staged inputs reach, each once, after the
/// nodes it reads, and returns them in the order they were recomputed, with
/// the layer of each.
pub fn propagate(ns: &mut Vec<Node>) -> (r: (Vec<usize>, Ghost<Seq<nat>>))
    requires
        table_wf(old(ns)@),
    ensures
        propagated(old(ns)@, final(ns)@),
        table_wf(final(ns)@),
        r.0@.no_duplicates(),
        forall|v: usize| r.0@.contains(v) <==> in_pass(old(ns)@, v),
        layered(old(ns)@, r.0@, r.1@),
        topological(old(ns)@, r.0@),
{
    let ghost ns0 = ns@;
    let n = ns.len();
    let aff = reached(ns);
    let fz = frozen_marks(ns);
    let mut ts = load_sorter(ns, &aff, &fz);
    let mut order: Vec<usize> = Vec::new();
    let ghost mut done: Set<usize> = Set::empty();
    let ghost all = pass_items(ns0, n as int);
    let ghost mut lvmap: Map<usize, nat> = Map::empty();
    let ghost mut lvl: nat = 0;
    let mut mark: Vec<bool> = Vec::new();
    while mark.len() < n
        invariant
            mark@.len() <= n,
            forall|k: int| 0 <= k < mark@.len() ==> !mark@[k],
        decreases n - mark@.len(),
    {
        mark.push(false);
    }
    proof {
        assert(done =~= all.difference(ts_items(ts)));
        assert forall|l: (usize, usize)| pass_link(ns0, l.0, l.1) implies l.0 < l.1 by {
            lemma_deps_before(ns0, l.1);
        }
    }
    loop
        invariant
            n == ns0.len(),
            same_but_slots(ns0, ns@),
            table_wf(ns0),
            all == pass_items(ns0, n as int),
            ts_items(ts).finite(),
            ts_items(ts).subset_of(all),
            done == all.difference(ts_items(ts)),
            forall|l: (usize, usize)|
                #[trigger] ts_links(ts).contains(l) <==> (pass_link(ns0, l.0, l.1) && ts_items(
                    ts,
                ).contains(l.0)),
            forall|l: (usize, usize)| pass_link(ns0, l.0, l.1) ==> l.0 < l.1,
            forall|v: usize, d: usize|
                done.contains(v) && #[trigger] pass_link(ns0, d, v) ==> done.contains(d),
            forall|v: usize| v < n && done.contains(v) ==> ns@[v as int].pending == recompute(ns@, v),
            forall|v: usize|
                v < n && !done.contains(v) ==> #[trigger] ns@[v as int].pending == ns0[v as int].pending,
            order@.no_duplicates(),
            forall|v: usize| order@.contains(v) <==> done.contains(v),
            mark@.len() == n,
            forall|k: int| 0 <= k < n ==> !mark@[k],
            forall|i: int| 0 <= i < order@.len() ==> lvmap.dom().contains(#[trigger] order@[i]) && lvmap[order@[i]] < lvl,
            forall|i: int, j: int| 0 <= i < j < order@.len() ==> lvmap[order@[i]] < lvmap[order@[j]] || (lvmap[order@[i]] == lvmap[order@[j]] && order@[i] < order@[j]),
            forall|d: usize, w: usize| done.contains(d) && done.contains(w) && #[trigger] pass_link(ns0, d, w) ==> lvmap[d] < lvmap[w],
            forall|w: usize| #[trigger] done.contains(w) && lvmap[w] > 0 ==> exists|d: usize| done.contains(d) && #[trigger] pass_link(ns0, d, w) && lvmap[d] + 1 == lvmap[w],
            lvl > 0 ==> forall|x: usize| #[trigger] ts_items(ts).contains(x) ==> exists|p: usize| #[trigger] pass_link(ns0, p, x) && (ts_items(ts).contains(p) || (done.contains(p) && lvmap[p] + 1 == lvl)),
        ensures
            done == all,
            n == ns0.len(),
            same_but_slots(ns0, ns@),
            forall|v: usize| v < n && done.contains(v) ==> ns@[v as int].pending == recompute(ns@, v),
            forall|v: usize|
                v < n && !done.contains(v) ==> #[trigger] ns@[v as int].pending == ns0[v as int].pending,
            order@.no_duplicates(),
            forall|v: usize| order@.contains(v) <==> done.contains(v),
            forall|i: int| 0 <= i < order@.len() ==> lvmap.dom().contains(#[trigger] order@[i]),
            forall|i: int, j: int| 0 <= i < j < order@.len() ==> lvmap[order@[i]] < lvmap[order@[j]] || (lvmap[order@[i]] == lvmap[order@[j]] && order@[i] < order@[j]),
            forall|d: usize, w: usize| done.contains(d) && done.contains(w) && #[trigger] pass_link(ns0, d, w) ==> lvmap[d] < lvmap[w],
            forall|w: usize| #[trigger] done.contains(w) && lvmap[w] > 0 ==> exists|d: usize| done.contains(d) && #[trigger] pass_link(ns0, d, w) && lvmap[d] + 1 == lvmap[w],
        decreases ts_items(ts).len(),
    {
        let ghost items0 = ts_items(ts);
        let ghost links0 = ts_links(ts);
        let ghost done0 = done;
        let batch = ts_pop_batch(&mut ts);
        let ghost bset = batch@.to_set();
        if batch.len() == 0 {
            proof {
                if exists|x: usize| items0.contains(x) {
                    let x = choose|x: usize| items0.contains(x);
                    lemma_some_ready(items0, links0, x);
                    let y = choose|y: usize| items0.contains(y) && forall|p: usize| !(#[trigger] links0.contains((p, y)));
                    assert(batch@.contains(y));
                }
                assert(items0 =~= Set::<usize>::empty());
                assert(ts_items(ts) =~= items0);
                assert(done =~= all);
            }
            break;
        }
        proof {
            let b0 = batch@[0];
            assert(batch@.contains(b0));
            assert(ts_items(ts).subset_of(items0.remove(b0)));
            vstd::set_lib::lemma_len_subset(ts_items(ts), items0.remove(b0));
            assert forall|l: (usize, usize)|
                #[trigger] ts_links(ts).contains(l) <==> (pass_link(ns0, l.0, l.1) && ts_items(ts).contains(l.0)) by {
                if ts_links(ts).contains(l) {
                    assert(!batch@.contains(l.0));
                }
            }
            assert forall|x: usize, d: usize| bset.contains(x) && #[trigger] pass_link(ns0, d, x) implies !items0.contains(d) by {
                assert(batch@.contains(x));
                if items0.contains(d) {
                    assert(links0.contains((d, x)));
                }
            }
            assert forall|x: usize| lvl > 0 && #[trigger] bset.contains(x) implies exists|p: usize| #[trigger] pass_link(ns0, p, x) && done0.contains(p) && lvmap[p] + 1 == lvl by {
                assert(batch@.contains(x));
                assert(items0.contains(x));
                let p = choose|p: usize| #[trigger] pass_link(ns0, p, x) && (items0.contains(p) || (done0.contains(p) && lvmap[p] + 1 == lvl));
                if items0.contains(p) {
                    assert(links0.contains((p, x)));
                }
            }
            assert forall|x: usize| #[trigger] ts_items(ts).contains(x) implies exists|p: usize| #[trigger] pass_link(ns0, p, x) && items0.contains(p) by {
                assert(!batch@.contains(x));
                let p = choose|p: usize| links0.contains((p, x));
                assert(links0.contains((p, x)));
            }
        }
        let mut j: usize = 0;
        while j < batch.len()
            invariant
                n == ns0.len(),
                mark@.len() == n,
                ts_items(ts).subset_of(all),
                items0.subset_of(all),
                all == pass_items(ns0, n as int),
                forall|k: int| 0 <= k < n ==> mark@[k] == (bset.contains(k as usize) && exists|i: int| 0 <= i < j && batch@[i] == k),
                forall|x: usize| #[trigger] batch@.contains(x) ==> items0.contains(x),
                j <= batch@.len(),
                bset == batch@.to_set(),
            decreases batch@.len() - j,
        {
            let b = batch[j];
            proof {
                assert(batch@.contains(b));
                assert(bset.contains(b));
            }
            mark.set(b, true);
            proof {
                let jj = (j + 1) as int;
                assert forall|k: int| 0 <= k < n implies mark@[k] == (bset.contains(k as usize) && exists|i: int| 0 <= i < jj && batch@[i] == k) by {
                    if k == b as int {
                        assert(batch@[j as int] == k);
                    }
                }
            }
            j += 1;
        }
        proof {
            assert forall|k: int| 0 <= k < n implies mark@[k] == bset.contains(k as usize) by {
                if bset.contains(k as usize) {
                    assert(batch@.contains(k as usize));
                    let i = choose|i: int| 0 <= i < batch@.len() && batch@[i] == k as usize;
                }
            }
        }
        let res = process_batch(
            ns,
            &mut mark,
            &mut order,
            n,
            Ghost(ns0),
            Ghost(all),
            Ghost(items0),
            Ghost(ts_items(ts)),
            Ghost(bset),
            Ghost(done0),
            Ghost(lvl),
            Ghost(lvmap),
        );
        proof {
            done = res@.0;
            lvmap = res@.1;
        }
        proof {
            assert(done =~= all.difference(ts_items(ts)));
            let l1 = lvl + 1;
            assert forall|x: usize| #[trigger] ts_items(ts).contains(x) implies exists|p: usize| #[trigger] pass_link(ns0, p, x) && (ts_items(ts).contains(p) || (done.contains(p) && lvmap[p] + 1 == l1)) by {
                let p = choose|p: usize| #[trigger] pass_link(ns0, p, x) && items0.contains(p);
                if !ts_items(ts).contains(p) {
                    assert(bset.contains(p));
                    assert(done.contains(p));
                }
            }
            assert forall|i: int| 0 <= i < order@.len() implies lvmap.dom().contains(#[trigger] order@[i]) && lvmap[order@[i]] < l1 by {
                assert(lvmap.dom().contains(order@[i]));
                assert(lvmap[order@[i]] <= lvl);
            }
            lvl = l1;
        }
    }
    let ghost lv = Seq::new(order@.len(), |i: int| lvmap[order@[i]]);
    proof {
        assert forall|v: usize| order@.contains(v) <==> in_pass(ns0, v) by {
            assert(all.contains(v) == in_pass(ns0, v));
        }
        assert forall|v: usize| v < ns0.len() implies {
            &&& (#[trigger] ns@[v as int]).rule == ns0[v as int].rule
            &&& ns@[v as int].value == ns0[v as int].value
            &&& ns@[v as int].pending == if in_pass(ns0, v) { recompute(ns@, v) } else { ns0[v as int].pending }
        } by {
            if in_pass(ns0, v) {
                assert(all.contains(v));
            }
        }
        assert forall|v: usize| v < ns@.len() implies #[trigger] rule_wf(ns@, v) by {
            assert(rule_wf(ns0, v));
            lemma_deps_same(ns0, ns@, v);
        }
        assert forall|j: int| 0 <= j < order@.len() && lv[j] > 0 implies exists|i: int|
            0 <= i < order@.len() && #[trigger] pass_link(ns0, order@[i], order@[j]) && lv[i] + 1 == lv[j] by {
            let w = order@[j];
            assert(order@.contains(w));
            assert(done.contains(w));
            let d = choose|d: usize| done.contains(d) && #[trigger] pass_link(ns0, d, w) && lvmap[d] + 1 == lvmap[w];
            assert(order@.contains(d));
            let i = choose|i: int| 0 <= i < order@.len() && order@[i] == d;
            assert(pass_link(ns0, order@[i], order@[j]));
        }
        assert forall|i: int, j: int| 0 <= i < order@.len() && 0 <= j < order@.len() && #[trigger] pass_link(ns0, order@[i], order@[j])
            implies lv[i] < lv[j] by {
            assert(order@.contains(order@[i]));
            assert(order@.contains(order@[j]));
        }
        assert(layered(ns0, order@, lv));
        assert forall|i: int, j: int| 0 <= i < j < order@.len() implies !pass_link(ns0, order@[j], order@[i]) by {
            if pass_link(ns0, order@[j], order@[i]) {
                assert(lv[j] < lv[i]);
            }
        }
    }
    (order, Ghost(lv))
}

/// Recomputes the nodes of one batch of the sorter, by ascending id, at the
/// layer `lvl`.
fn process_batch(
    ns: &mut Vec<Node>,
    mark: &mut Vec<bool>,
    order: &mut Vec<usize>,
    n: usize,
    Ghost(ns0): Ghost<Seq<Node>>,
    Ghost(all): Ghost<Set<usize>>,
    Ghost(items0): Ghost<Set<usize>>,
    Ghost(items1): Ghost<Set<usize>>,
    Ghost(bset): Ghost<Set<usize>>,
    Ghost(done0): Ghost<Set<usize>>,
    Ghost(lvl): Ghost<nat>,
    Ghost(lvmap0): Ghost<Map<usize, nat>>,
) -> (r: Ghost<(Set<usize>, Map<usize, nat>)>)
    requires
            n == ns0.len(),
            same_but_slots(ns0, old(ns)@),
            table_wf(ns0),
            all == pass_items(ns0, n as int),
            items0.subset_of(all),
            items1 == items0.difference(bset),
            forall|x: usize| #[trigger] bset.contains(x) ==> items0.contains(x),
            forall|x: usize, d: usize| bset.contains(x) && #[trigger] pass_link(ns0, d, x) ==> !items0.contains(d),
            done0 == all.difference(items0),
            forall|l: (usize, usize)| pass_link(ns0, l.0, l.1) ==> l.0 < l.1,
            forall|w: usize, d: usize|
                done0.contains(w) && #[trigger] pass_link(ns0, d, w) ==> done0.contains(d),
            forall|w: usize| w < n && done0.contains(w) ==> old(ns)@[w as int].pending == recompute(old(ns)@, w),
            forall|w: usize|
                w < n && !done0.contains(w) ==> #[trigger] old(ns)@[w as int].pending == ns0[w as int].pending,
            old(order)@.no_duplicates(),
            forall|w: usize| old(order)@.contains(w) <==> done0.contains(w),
            old(mark)@.len() == n,
            forall|k: int| 0 <= k < n ==> old(mark)@[k] == bset.contains(k as usize),
            forall|x: usize| lvl > 0 && #[trigger] bset.contains(x) ==> exists|p: usize| #[trigger] pass_link(ns0, p, x) && done0.contains(p) && lvmap0[p] + 1 == lvl,
            forall|x: usize| #[trigger] items1.contains(x) ==> exists|p: usize| #[trigger] pass_link(ns0, p, x) && items0.contains(p),
            forall|w: usize| #[trigger] done0.contains(w) ==> lvmap0.dom().contains(w) && lvmap0[w] < lvl,
            forall|i: int| 0 <= i < old(order)@.len() ==> lvmap0.dom().contains(#[trigger] old(order)@[i]) && lvmap0[old(order)@[i]] < lvl,
            forall|i: int, j: int| 0 <= i < j < old(order)@.len() ==> lvmap0[old(order)@[i]] < lvmap0[old(order)@[j]] || (lvmap0[old(order)@[i]] == lvmap0[old(order)@[j]] && old(order)@[i] < old(order)@[j]),
            forall|d: usize, w: usize| done0.contains(d) && done0.contains(w) && #[trigger] pass_link(ns0, d, w) ==> lvmap0[d] < lvmap0[w],
            forall|w: usize| #[trigger] done0.contains(w) && lvmap0[w] > 0 ==> exists|d: usize| done0.contains(d) && #[trigger] pass_link(ns0, d, w) && lvmap0[d] + 1 == lvmap0[w],
            forall|w: usize| #[trigger] done0.contains(w) ==> lvmap0.dom().contains(w) && (lvmap0[w] == lvl <==> !done0.contains(w)),
    ensures
            n == ns0.len(),
            n <= n,
            same_but_slots(ns0, final(ns)@),
            table_wf(ns0),
            all == pass_items(ns0, n as int),
            items0.subset_of(all),
            items1 == items0.difference(bset),
            forall|x: usize| #[trigger] bset.contains(x) ==> items0.contains(x),
            forall|x: usize, d: usize| bset.contains(x) && #[trigger] pass_link(ns0, d, x) ==> !items0.contains(d),
            done0 == all.difference(items0),
            r@.0 == all.difference(items1),
            forall|l: (usize, usize)| pass_link(ns0, l.0, l.1) ==> l.0 < l.1,
            forall|w: usize, d: usize|
                r@.0.contains(w) && #[trigger] pass_link(ns0, d, w) ==> r@.0.contains(d),
            forall|w: usize| w < n && r@.0.contains(w) ==> final(ns)@[w as int].pending == recompute(final(ns)@, w),
            forall|w: usize|
                w < n && !r@.0.contains(w) ==> #[trigger] final(ns)@[w as int].pending == ns0[w as int].pending,
            final(order)@.no_duplicates(),
            forall|w: usize| final(order)@.contains(w) <==> r@.0.contains(w),
            final(mark)@.len() == n,
            forall|k: int| 0 <= k < n ==> !final(mark)@[k],
            forall|x: usize| lvl > 0 && #[trigger] bset.contains(x) ==> exists|p: usize| #[trigger] pass_link(ns0, p, x) && done0.contains(p) && r@.1[p] + 1 == lvl,
            forall|x: usize| #[trigger] items1.contains(x) ==> exists|p: usize| #[trigger] pass_link(ns0, p, x) && items0.contains(p),
            forall|w: usize| #[trigger] done0.contains(w) ==> r@.1.dom().contains(w) && r@.1[w] < lvl,
            forall|i: int| 0 <= i < final(order)@.len() ==> r@.1.dom().contains(#[trigger] final(order)@[i]) && r@.1[final(order)@[i]] <= lvl
                && (r@.1[final(order)@[i]] == lvl ==> final(order)@[i] < n),
            forall|i: int, j: int| 0 <= i < j < final(order)@.len() ==> r@.1[final(order)@[i]] < r@.1[final(order)@[j]] || (r@.1[final(order)@[i]] == r@.1[final(order)@[j]] && final(order)@[i] < final(order)@[j]),
            forall|d: usize, w: usize| r@.0.contains(d) && r@.0.contains(w) && #[trigger] pass_link(ns0, d, w) ==> r@.1[d] < r@.1[w],
            forall|w: usize| #[trigger] r@.0.contains(w) && r@.1[w] > 0 ==> exists|d: usize| r@.0.contains(d) && #[trigger] pass_link(ns0, d, w) && r@.1[d] + 1 == r@.1[w],
            forall|w: usize| #[trigger] r@.0.contains(w) ==> r@.1.dom().contains(w) && (r@.1[w] == lvl <==> !done0.contains(w)),
{
    let ghost mut done = done0;
    let ghost mut lvmap = lvmap0;
    proof {
        assert(done =~= all.difference(items1).filter(|x: usize| !(bset.contains(x) && x >= 0)));
    }
    let mut v: usize = 0;
    while v < n
        invariant
            n == ns0.len(),
            v <= n,
            same_but_slots(ns0, ns@),
            table_wf(ns0),
            all == pass_items(ns0, n as int),
            items0.subset_of(all),
            items1 == items0.difference(bset),
            forall|x: usize| #[trigger] bset.contains(x) ==> items0.contains(x),
            forall|x: usize, d: usize| bset.contains(x) && #[trigger] pass_link(ns0, d, x) ==> !items0.contains(d),
            done0 == all.difference(items0),
            done == all.difference(items1).filter(|x: usize| !(bset.contains(x) && x >= v)),
            forall|l: (usize, usize)| pass_link(ns0, l.0, l.1) ==> l.0 < l.1,
            forall|w: usize, d: usize|
                done.contains(w) && #[trigger] pass_link(ns0, d, w) ==> done.contains(d),
            forall|w: usize| w < n && done.contains(w) ==> ns@[w as int].pending == recompute(ns@, w),
            forall|w: usize|
                w < n && !done.contains(w) ==> #[trigger] ns@[w as int].pending == ns0[w as int].pending,
            order@.no_duplicates(),
            forall|w: usize| order@.contains(w) <==> done.contains(w),
            mark@.len() == n,
            forall|k: int| 0 <= k < v ==> !mark@[k],
            forall|k: int| v <= k < n ==> mark@[k] == bset.contains(k as usize),
            forall|x: usize| lvl > 0 && #[trigger] bset.contains(x) ==> exists|p: usize| #[trigger] pass_link(ns0, p, x) && done0.contains(p) && lvmap[p] + 1 == lvl,
            forall|x: usize| #[trigger] items1.contains(x) ==> exists|p: usize| #[trigger] pass_link(ns0, p, x) && items0.contains(p),
            forall|w: usize| #[trigger] done0.contains(w) ==> lvmap.dom().contains(w) && lvmap[w] < lvl,
            forall|i: int| 0 <= i < order@.len() ==> lvmap.dom().contains(#[trigger] order@[i]) && lvmap[order@[i]] <= lvl
                && (lvmap[order@[i]] == lvl ==> order@[i] < v),
            forall|i: int, j: int| 0 <= i < j < order@.len() ==> lvmap[order@[i]] < lvmap[order@[j]] || (lvmap[order@[i]] == lvmap[order@[j]] && order@[i] < order@[j]),
            forall|d: usize, w: usize| done.contains(d) && done.contains(w) && #[trigger] pass_link(ns0, d, w) ==> lvmap[d] < lvmap[w],
            forall|w: usize| #[trigger] done.contains(w) && lvmap[w] > 0 ==> exists|d: usize| done.contains(d) && #[trigger] pass_link(ns0, d, w) && lvmap[d] + 1 == lvmap[w],
            forall|w: usize| #[trigger] done.contains(w) ==> lvmap.dom().contains(w) && (lvmap[w] == lvl <==> !done0.contains(w)),
        decreases n - v,
    {
        if mark[v] {
            mark.set(v, false);
            proof {
                assert(rule_wf(ns0, v));
                lemma_deps_same(ns0, ns@, v);
                lemma_deps_before(ns0, v);
            }
            let r = recompute_at(ns, v);
            let ghost before = ns@;
            let old_node = ns[v];
            ns.set(v, Node { pending: r, ..old_node });
            let ghost order0 = order@;
            order.push(v);
            proof {
                assert(!done.contains(v));
                let done1 = done.insert(v);
                assert forall|w: usize, d: usize| done1.contains(w) && #[trigger] pass_link(ns0, d, w) implies done1.contains(d) by {
                    if w == v {
                        assert(!items0.contains(d));
                        assert(all.contains(d));
                    }
                }
                assert(same_but_slots(before, ns@));
                assert forall|w: usize| w < n && done1.contains(w) implies ns@[w as int].pending == recompute(ns@, w) by {
                    assert(rule_wf(ns0, w));
                    lemma_deps_same(ns0, before, w);
                    lemma_deps_before(ns0, w);
                    assert forall|i: int| 0 <= i < deps(before, w).len() implies ns@[#[trigger] deps(before, w)[i] as int].pending
                        == before[deps(before, w)[i] as int].pending by {
                        let d = deps(before, w)[i];
                        if d == v {
                            if w != v {
                                assert(deps(ns0, w).contains(d));
                                assert(pass_link(ns0, d, w));
                            }
                        }
                    }
                    lemma_recompute_frame(before, ns@, w);
                }
                let lv0 = lvmap;
                let lv1 = lvmap.insert(v, lvl);
                assert(bset.contains(v));
                assert(!done0.contains(v));
                assert forall|w: usize| #[trigger] done0.contains(w) implies lv1.dom().contains(w) && lv1[w] < lvl by {
                    assert(w != v);
                }
                assert forall|d: usize, w: usize| done1.contains(d) && done1.contains(w) && #[trigger] pass_link(ns0, d, w)
                    implies lv1[d] < lv1[w] by {
                    if w == v {
                        assert(!items0.contains(d));
                        assert(all.contains(d));
                        assert(done0.contains(d));
                        assert(d != v);
                    } else if d == v {
                        assert(done.contains(v));
                    } else {
                        assert(lv1[d] == lv0[d] && lv1[w] == lv0[w]);
                    }
                }
                assert forall|w: usize| #[trigger] done1.contains(w) && lv1[w] > 0 implies
                    exists|d: usize| done1.contains(d) && #[trigger] pass_link(ns0, d, w) && lv1[d] + 1 == lv1[w] by {
                    if w == v {
                        let p = choose|p: usize| #[trigger] pass_link(ns0, p, v) && done0.contains(p) && lvmap[p] + 1 == lvl;
                        assert(p != v);
                        assert(done1.contains(p) && pass_link(ns0, p, w) && lv1[p] + 1 == lv1[w]);
                    } else {
                        let d = choose|d: usize| done.contains(d) && #[trigger] pass_link(ns0, d, w) && lv0[d] + 1 == lv0[w];
                        assert(d != v);
                        assert(done1.contains(d) && pass_link(ns0, d, w) && lv1[d] + 1 == lv1[w]);
                    }
                }
                assert forall|w: usize| #[trigger] done1.contains(w) implies lv1.dom().contains(w) && (lv1[w] == lvl <==> !done0.contains(w)) by {
                    if w != v {
                        assert(done.contains(w));
                    }
                }
                lvmap = lv1;
                done = done1;
                assert(done =~= all.difference(items1).filter(|x: usize| !(bset.contains(x) && x >= v + 1)));
                assert(order@ == order0.push(v));
                assert forall|w: usize| order@.contains(w) <==> done.contains(w) by {
                    if w != v {
                        assert(order@.contains(w) == order0.contains(w)) by {
                            if order@.contains(w) {
                                let i = choose|i: int| 0 <= i < order@.len() && order@[i] == w;
                                assert(order0[i] == w);
                            }
                            if order0.contains(w) {
                                let i = choose|i: int| 0 <= i < order0.len() && order0[i] == w;
                                assert(order@[i] == w);
                            }
                        }
                    } else {
                        assert(order@[order0.len() as int] == v);
                    }
                }
                assert forall|i: int| 0 <= i < order@.len() implies lvmap.dom().contains(#[trigger] order@[i]) && lvmap[order@[i]] <= lvl
                    && (lvmap[order@[i]] == lvl ==> order@[i] < v + 1) by {
                    if i < order0.len() {
                        assert(order@[i] == order0[i]);
                        assert(order0[i] != v) by {
                            assert(order0.contains(order0[i]));
                        }
                        assert(lv0.dom().contains(order0[i]));
                    } else {
                        assert(order@[i] == v);
                    }
                }
                assert forall|i: int, j: int| 0 <= i < j < order@.len() implies lvmap[order@[i]] < lvmap[order@[j]] || (lvmap[order@[i]] == lvmap[order@[j]] && order@[i] < order@[j]) by {
                    assert(order@[i] == order0[i]);
                    assert(order0[i] != v) by {
                        assert(order0.contains(order0[i]));
                    }
                    assert(lv0.dom().contains(order0[i]));
                    if j < order0.len() {
                        assert(order@[j] == order0[j]);
                        assert(order0[j] != v) by {
                            assert(order0.contains(order0[j]));
                        }
                        assert(lv0.dom().contains(order0[j]));
                    } else {
                        assert(order@[j] == v);
                    }
                }
            }
        } else {
            proof {
                assert(done =~= all.difference(items1).filter(|x: usize| !(bset.contains(x) && x >= v + 1)));
                assert forall|i: int| 0 <= i < order@.len() implies lvmap.dom().contains(#[trigger] order@[i]) && lvmap[order@[i]] <= lvl
                    && (lvmap[order@[i]] == lvl ==> order@[i] < v + 1) by {
                    assert(lvmap.dom().contains(order@[i]));
                }
            }
        }
        v += 1;
    }
    proof {
        assert(done =~= all.difference(items1));
    }
    Ghost((done, lvmap))
}

/// Commits every slot into its node's value, and empties the slots.
pub fn commit_slots(ns: &mut Vec<Node>)
    requires
        table_wf(old(ns)@),
    ensures
        final(ns)@ == commit_all(old(ns)@),
        table_wf(final(ns)@),
{
    let ghost ns0 = ns@;
    let n = ns.len();
    let mut out: Vec<Node> = Vec::new();
    let mut v: usize = 0;
    while v < n
        invariant
            n == ns@.len(),
            ns@ == ns0,
            v <= n,
            table_wf(ns0),
            out@ == commit_all(ns0).subrange(0, v as int),
        decreases n - v,
    {
        proof { assert(rule_wf(ns0, v)); }
        let nd = committed_at(ns, v);
        out.push(nd);
        proof {
            assert(out@ =~= commit_all(ns0).subrange(0, v + 1));
        }
        v += 1;
    }
    proof {
        assert(out@ =~= commit_all(ns0));
        assert forall|v: usize| v < out@.len() implies #[trigger] rule_wf(out@, v) by {
            assert(rule_wf(ns0, v));
            assert forall|u: usize| u < ns0.len() implies (#[trigger] out@[u as int]).rule == ns0[u as int].rule by {
                assert(out@[u as int] == committed(ns0, u));
            }
            lemma_rule_wf_rules(ns0, out@, v);
        }
    }
    *ns = out;
}

/// Empties every slot: what a failed transaction leaves.
pub fn discard_slots(ns: &mut Vec<Node>)
    requires
        table_wf(old(ns)@),
    ensures
        final(ns)@ == discard_all(old(ns)@),
        table_wf(final(ns)@),
{
    let ghost ns0 = ns@;
    let n = ns.len();
    let mut out: Vec<Node> = Vec::new();
    let mut v: usize = 0;
    while v < n
        invariant
            n == ns@.len(),
            ns@ == ns0,
            v <= n,
            out@ == discard_all(ns0).subrange(0, v as int),
        decreases n - v,
    {
        let nd = ns[v];
        let p = match nd.rule {
            Rule::CellLoop { def: Some(_) } => nd.pending,
            _ => None,
        };
        out.push(Node { pending: p, ..nd });
        proof {
            assert(out@ =~= discard_all(ns0).subrange(0, v + 1));
        }
        v += 1;
    }
    proof {
        assert(out@ =~= discard_all(ns0));
        assert forall|v: usize| v < out@.len() implies #[trigger] rule_wf(out@, v) by {
            assert(rule_wf(ns0, v));
            assert(same_but_slots(ns0, out@));
            lemma_deps_same(ns0, out@, v);
        }
    }
    *ns = out;
}

/// Stages each deferred stream with what its source fired in `from`, the
/// slots of the transaction that `ns` commits.
pub fn restage(ns: &mut Vec<Node>, from: &Vec<Node>)
    requires
        table_wf(old(ns)@),
        from@.len() == old(ns)@.len(),
    ensures
        final(ns)@ == restaged(old(ns)@, from@),
        table_wf(final(ns)@),
{
    let ghost ns0 = ns@;
    let n = ns.len();
    let mut out: Vec<Node> = Vec::new();
    let mut v: usize = 0;
    while v < n
        invariant
            n == ns@.len(),
            ns@ == ns0,
            from@.len() == n,
            v <= n,
            table_wf(ns0),
            out@ == restaged(ns0, from@).subrange(0, v as int),
        decreases n - v,
    {
        proof { assert(rule_wf(ns0, v)); }
        let nd = ns[v];
        let p = match nd.rule {
            Rule::StreamDefer { src } => from[src].pending,
            Rule::CellLoop { def: Some(d) } => if ns[d].value != nd.value {
                Some(ns[d].value)
            } else {
                None
            },
            _ => nd.pending,
        };
        out.push(Node { pending: p, ..nd });
        proof {
            assert(out@ =~= restaged(ns0, from@).subrange(0, v + 1));
        }
        v += 1;
    }
    proof {
        assert(out@ =~= restaged(ns0, from@));
        assert(same_but_slots(ns0, out@));
        assert forall|v: usize| v < out@.len() implies #[trigger] rule_wf(out@, v) by {
            assert(rule_wf(ns0, v));
            lemma_deps_same(ns0, out@, v);
        }
    }
    *ns = out;
}

/// Whether some slot is filled.
pub fn any_staged(ns: &Vec<Node>) -> (r: bool)
    ensures
        r == has_staged(ns@),
{
    let mut v: usize = 0;
    while v < ns.len()
        invariant
            v <= ns@.len(),
            forall|u: int| 0 <= u < v ==> (#[trigger] ns@[u]).pending is None,
        decreases ns@.len() - v,
    {
        if ns[v].pending.is_some() {
            return true;
        }
        v += 1;
    }
    false
}

} // verus!
