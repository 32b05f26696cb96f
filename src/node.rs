//! Graph nodes and the rules that recompute them inside a transaction.
//!
//! Every node holds a committed `value` and a `pending` slot. For a cell the
//! slot holds its next value when it changes in the current transaction; for a
//! stream it holds its firing in the current transaction. Between
//! transactions every slot is empty, but a deferred stream's, which holds a
//! firing for the next transaction.
use vstd::prelude::*;
use crate::func::{Fn1, Fn2, Pred};

verus! {

/// What a node is, which nodes it reads, and how it is recomputed.
#[derive(Clone, Copy, Debug, PartialEq, Eq, Structural)]
#[allow(inconsistent_fields)]
pub enum Rule {
    /// A cell written from outside with `change_value`.
    CellSink,
    /// `f(src)`.
    CellMap { src: usize, f: Fn1 },
    /// `f(a, b)`.
    CellLift2 { a: usize, b: usize, f: Fn2 },
    /// `f(f(a, b), c)`.
    CellLift3 { a: usize, b: usize, c: usize, f: Fn2 },
    /// `f(f(f(a, b), c), d)`.
    CellLift4 { a: usize, b: usize, c: usize, d: usize, f: Fn2 },
    /// The last firing of the stream `src`.
    CellHold { src: usize },
    /// On each firing `x` of `src`, the value becomes `f(x, value)`.
    CellAccum { src: usize, f: Fn2 },
    /// The value of the cell whose id the cell `outer` holds (a cell created
    /// before this one); its own value when `outer` names no such cell.
    CellSwitch { outer: usize },
    /// A forward declaration, closed later by the cell `def` in the same
    /// transaction. When `def` changes, the loop takes its value in a
    /// follow-up transaction, in which the nodes reading the loop are
    /// recomputed; `def` itself is not, which breaks the cycle.
    CellLoop { def: Option<usize> },
    /// A stream written from outside with `send`, with an optional combiner
    /// for several sends in one transaction.
    StreamSink { coalescer: Option<Fn2> },
    /// Fires `f(x)` when `src` fires `x`.
    StreamMap { src: usize, f: Fn1 },
    /// Fires the firings of `src` that pass `p`.
    StreamFilter { src: usize, p: Pred },
    /// Fires what either input fires; `f(x, y)` when both do.
    StreamMerge { a: usize, b: usize, f: Fn2 },
    /// Fires `f(x, c)` when `src` fires `x`, with `c` the committed value of `cell`.
    StreamSnapshot { src: usize, cell: usize, f: Fn2 },
    /// Fires the firings of `src` while the committed value of `cell` is not 0.
    StreamGate { src: usize, cell: usize },
    /// Fires the new value of `cell` when it changes.
    StreamUpdates { cell: usize },
    /// Fires the first firing of `src` and never again.
    StreamOnce { src: usize },
    /// On each firing `x` of `src`, fires `emit(x, s)` and the state `s`
    /// becomes `next(x, s)`.
    StreamCollect { src: usize, emit: Fn2, next: Fn2 },
    /// Fires the firings of the stream whose id is the committed value of
    /// the cell `outer`.
    StreamSwitch { outer: usize },
    /// Fires each firing of `src` again, in a transaction of its own that
    /// runs right after the one in which `src` fired.
    StreamDefer { src: usize },
    /// A node that was removed from the graph; its id is not reused.
    Dropped,
}

/// One entry of the node table.
#[derive(Clone, Copy, Debug, PartialEq, Eq, Structural)]
pub struct Node {
    pub rule: Rule,
    /// The committed value of a cell, or the state of a stateful stream.
    pub value: i64,
    /// The next value of a cell, or the firing of a stream, in the current
    /// transaction.
    pub pending: Option<i64>,
}

pub open spec fn is_cell(r: Rule) -> bool {
    match r {
        Rule::CellSink | Rule::CellMap { .. } | Rule::CellLift2 { .. } | Rule::CellLift3 { .. }
        | Rule::CellLift4 { .. } | Rule::CellHold { .. } | Rule::CellAccum { .. }
        | Rule::CellSwitch { .. } | Rule::CellLoop { .. } => true,
        _ => false,
    }
}

pub open spec fn is_loop(r: Rule) -> bool {
    r is CellLoop
}

pub open spec fn is_closed_loop(r: Rule) -> bool {
    r matches Rule::CellLoop { def: Some(_) }
}

pub open spec fn is_sink(r: Rule) -> bool {
    r is CellSink || r is StreamSink
}

/// Nodes that the recompute pass evaluates. Sinks, loops and deferred
/// streams are staged instead.
pub open spec fn is_derived(r: Rule) -> bool {
    !is_sink(r) && !is_loop(r) && !(r is StreamDefer) && !(r is Dropped)
}

pub open spec fn is_stream(r: Rule) -> bool {
    !is_cell(r) && !(r is Dropped)
}

pub open spec fn is_cell_at(ns: Seq<Node>, u: usize) -> bool {
    u < ns.len() && is_cell(ns[u as int].rule)
}

pub open spec fn is_stream_at(ns: Seq<Node>, u: usize) -> bool {
    u < ns.len() && is_stream(ns[u as int].rule)
}

/// A node's rule reads only nodes of the right kind created before it.
pub open spec fn rule_wf(ns: Seq<Node>, v: usize) -> bool {
    let c = |u: usize| u < v && is_cell_at(ns, u);
    let s = |u: usize| u < v && is_stream_at(ns, u);
    match ns[v as int].rule {
        Rule::CellSink => true,
        Rule::CellMap { src, .. } => c(src),
        Rule::CellLift2 { a, b, .. } => c(a) && c(b),
        Rule::CellLift3 { a, b, c: cc, .. } => c(a) && c(b) && c(cc),
        Rule::CellLift4 { a, b, c: cc, d, .. } => c(a) && c(b) && c(cc) && c(d),
        Rule::CellHold { src } => s(src),
        Rule::CellAccum { src, .. } => s(src),
        Rule::CellSwitch { outer } => c(outer),
        Rule::CellLoop { def } => match def {
            Some(d) => is_cell_at(ns, d),
            None => true,
        },
        Rule::StreamSink { .. } => true,
        Rule::StreamMap { src, .. } => s(src),
        Rule::StreamFilter { src, .. } => s(src),
        Rule::StreamMerge { a, b, .. } => s(a) && s(b),
        Rule::StreamSnapshot { src, cell, .. } => s(src) && c(cell),
        Rule::StreamGate { src, cell } => s(src) && c(cell),
        Rule::StreamUpdates { cell } => c(cell),
        Rule::StreamOnce { src } => s(src),
        Rule::StreamCollect { src, .. } => s(src),
        Rule::StreamSwitch { outer } => c(outer),
        Rule::StreamDefer { src } => s(src),
        Rule::Dropped => true,
    }
}

/// The rule `r` names the node `id` among what it reads.
pub open spec fn names_node(r: Rule, id: usize) -> bool {
    match r {
        Rule::CellMap { src, .. } => src == id,
        Rule::CellLift2 { a, b, .. } => a == id || b == id,
        Rule::CellLift3 { a, b, c, .. } => a == id || b == id || c == id,
        Rule::CellLift4 { a, b, c, d, .. } => a == id || b == id || c == id || d == id,
        Rule::CellHold { src } => src == id,
        Rule::CellAccum { src, .. } => src == id,
        Rule::CellSwitch { outer } => outer == id,
        Rule::CellLoop { def } => def == Some(id),
        Rule::StreamMap { src, .. } => src == id,
        Rule::StreamFilter { src, .. } => src == id,
        Rule::StreamMerge { a, b, .. } => a == id || b == id,
        Rule::StreamSnapshot { src, cell, .. } => src == id || cell == id,
        Rule::StreamGate { src, cell } => src == id || cell == id,
        Rule::StreamUpdates { cell } => cell == id,
        Rule::StreamOnce { src } => src == id,
        Rule::StreamCollect { src, .. } => src == id,
        Rule::StreamSwitch { outer } => outer == id,
        Rule::StreamDefer { src } => src == id,
        _ => false,
    }
}

pub fn names_node_at(r: &Rule, id: usize) -> (b: bool)
    ensures
        b == names_node(*r, id),
{
    match *r {
        Rule::CellMap { src, .. } => src == id,
        Rule::CellLift2 { a, b, .. } => a == id || b == id,
        Rule::CellLift3 { a, b, c, .. } => a == id || b == id || c == id,
        Rule::CellLift4 { a, b, c, d, .. } => a == id || b == id || c == id || d == id,
        Rule::CellHold { src } => src == id,
        Rule::CellAccum { src, .. } => src == id,
        Rule::CellSwitch { outer } => outer == id,
        Rule::CellLoop { def } => match def {
            Some(d) => d == id,
            None => false,
        },
        Rule::StreamMap { src, .. } => src == id,
        Rule::StreamFilter { src, .. } => src == id,
        Rule::StreamMerge { a, b, .. } => a == id || b == id,
        Rule::StreamSnapshot { src, cell, .. } => src == id || cell == id,
        Rule::StreamGate { src, cell } => src == id || cell == id,
        Rule::StreamUpdates { cell } => cell == id,
        Rule::StreamOnce { src } => src == id,
        Rule::StreamCollect { src, .. } => src == id,
        Rule::StreamSwitch { outer } => outer == id,
        Rule::StreamDefer { src } => src == id,
        _ => false,
    }
}

/// What a cell shows to the nodes that read it inside a transaction: its next
/// value, or its committed value when it does not change. A loop is never
/// recomputed by the pass: its slot holds only what was staged for it.
pub open spec fn read_new(ns: Seq<Node>, u: usize) -> i64 {
    match ns[u as int].pending {
        Some(x) => x,
        None => ns[u as int].value,
    }
}

/// The loop `u` is staged to take a value other than its own: this happens in
/// the transaction that follows a change of its definition.
pub open spec fn refreshing(ns: Seq<Node>, u: int) -> bool {
    ns[u].rule matches Rule::CellLoop { def: Some(_) } && ns[u].pending is Some && ns[u].pending
        != Some(ns[u].value)
}

/// The node `v` defines a loop that is refreshing: the pass leaves it as it
/// is, which breaks the cycle the loop closes.
pub open spec fn frozen(ns: Seq<Node>, v: usize) -> bool {
    exists|u: usize| u < ns.len() && refreshing(ns, u as int) && (#[trigger] ns[u as int]).rule == (Rule::CellLoop { def: Some(v) })
}

/// The node `v` is the definition of some loop.
pub open spec fn defines_loop(ns: Seq<Node>, v: usize) -> bool {
    exists|u: usize| u < ns.len() && (#[trigger] ns[u as int]).rule == (Rule::CellLoop { def: Some(v) })
}

pub open spec fn firing(ns: Seq<Node>, u: usize) -> Option<i64> {
    ns[u as int].pending
}

/// The stream that a switch node at `v` follows: the one whose id is the
/// committed value of `outer`, where that is a stream created before `v`.
pub open spec fn switch_target(ns: Seq<Node>, outer: usize, v: usize) -> Option<usize> {
    let x = ns[outer as int].value;
    if 0 <= x < v && is_stream(ns[x as int].rule) {
        Some(x as usize)
    } else {
        None
    }
}

/// The cell that a cell switch at `v` shows, given the value `x` of its
/// outer cell.
pub open spec fn cell_target(ns: Seq<Node>, x: i64, v: usize) -> Option<usize> {
    if 0 <= x < v && is_cell(ns[x as int].rule) {
        Some(x as usize)
    } else {
        None
    }
}

/// The nodes whose next value or firing the node `v` reads in a transaction.
/// A cell switch may read any node created before it.
pub open spec fn deps(ns: Seq<Node>, v: usize) -> Seq<usize> {
    match ns[v as int].rule {
        Rule::CellMap { src, .. } => seq![src],
        Rule::CellLift2 { a, b, .. } => seq![a, b],
        Rule::CellLift3 { a, b, c, .. } => seq![a, b, c],
        Rule::CellLift4 { a, b, c, d, .. } => seq![a, b, c, d],
        Rule::CellHold { src } => seq![src],
        Rule::CellAccum { src, .. } => seq![src],
        Rule::CellSwitch { .. } => Seq::new(v as nat, |i: int| i as usize),
        Rule::StreamMap { src, .. } => seq![src],
        Rule::StreamFilter { src, .. } => seq![src],
        Rule::StreamMerge { a, b, .. } => seq![a, b],
        Rule::StreamSnapshot { src, .. } => seq![src],
        Rule::StreamGate { src, .. } => seq![src],
        Rule::StreamUpdates { cell } => seq![cell],
        Rule::StreamOnce { src } => seq![src],
        Rule::StreamCollect { src, .. } => seq![src],
        Rule::StreamSwitch { outer } => match switch_target(ns, outer, v) {
            Some(t) => seq![t],
            None => seq![],
        },
        _ => seq![],
    }
}

/// The new value of the cell `v`, from what it reads.
pub open spec fn cell_new(ns: Seq<Node>, v: usize) -> i64 {
    let own = ns[v as int].value;
    match ns[v as int].rule {
        Rule::CellMap { src, f } => f.spec_apply(read_new(ns, src)),
        Rule::CellLift2 { a, b, f } => f.spec_apply(read_new(ns, a), read_new(ns, b)),
        Rule::CellLift3 { a, b, c, f } => f.spec_apply(
            f.spec_apply(read_new(ns, a), read_new(ns, b)),
            read_new(ns, c),
        ),
        Rule::CellLift4 { a, b, c, d, f } => f.spec_apply(
            f.spec_apply(f.spec_apply(read_new(ns, a), read_new(ns, b)), read_new(ns, c)),
            read_new(ns, d),
        ),
        Rule::CellHold { src } => match firing(ns, src) {
            Some(x) => x,
            None => own,
        },
        Rule::CellAccum { src, f } => match firing(ns, src) {
            Some(x) => f.spec_apply(x, own),
            None => own,
        },
        Rule::CellSwitch { outer } => match cell_target(ns, read_new(ns, outer), v) {
            Some(t) => read_new(ns, t),
            None => own,
        },
        _ => own,
    }
}

/// Both inputs of a merge: the left one wins through `f` when both fire.
pub open spec fn merge_spec(x: Option<i64>, y: Option<i64>, f: Fn2) -> Option<i64> {
    match (x, y) {
        (Some(a), Some(b)) => Some(f.spec_apply(a, b)),
        (Some(a), None) => Some(a),
        (None, Some(b)) => Some(b),
        (None, None) => None,
    }
}

/// The firing of the stream `v`, from what it reads.
pub open spec fn stream_new(ns: Seq<Node>, v: usize) -> Option<i64> {
    let own = ns[v as int].value;
    match ns[v as int].rule {
        Rule::StreamMap { src, f } => match firing(ns, src) {
            Some(x) => Some(f.spec_apply(x)),
            None => None,
        },
        Rule::StreamFilter { src, p } => match firing(ns, src) {
            Some(x) => if p.spec_test(x) { Some(x) } else { None },
            None => None,
        },
        Rule::StreamMerge { a, b, f } => merge_spec(firing(ns, a), firing(ns, b), f),
        Rule::StreamSnapshot { src, cell, f } => match firing(ns, src) {
            Some(x) => Some(f.spec_apply(x, ns[cell as int].value)),
            None => None,
        },
        Rule::StreamGate { src, cell } => if ns[cell as int].value != 0 {
            firing(ns, src)
        } else {
            None
        },
        Rule::StreamUpdates { cell } => firing(ns, cell),
        Rule::StreamOnce { src } => if own == 0 { firing(ns, src) } else { None },
        Rule::StreamCollect { src, emit, .. } => match firing(ns, src) {
            Some(x) => Some(emit.spec_apply(x, own)),
            None => None,
        },
        Rule::StreamSwitch { outer } => match switch_target(ns, outer, v) {
            Some(t) => firing(ns, t),
            None => None,
        },
        _ => None,
    }
}

/// The slot that the recompute pass writes for the derived node `v`: a cell's
/// new value when it differs from the committed one, a stream's firing.
pub open spec fn recompute(ns: Seq<Node>, v: usize) -> Option<i64> {
    if is_cell(ns[v as int].rule) {
        let n = cell_new(ns, v);
        if n != ns[v as int].value {
            Some(n)
        } else {
            None
        }
    } else {
        stream_new(ns, v)
    }
}

/// The node `v` once the transaction commits.
pub open spec fn committed(ns: Seq<Node>, v: usize) -> Node {
    let nd = ns[v as int];
    let value = match nd.rule {
        Rule::StreamOnce { .. } => if nd.pending is Some { 1 } else { nd.value },
        Rule::StreamCollect { src, next, .. } => match firing(ns, src) {
            Some(x) => next.spec_apply(x, nd.value),
            None => nd.value,
        },
        _ => if is_cell(nd.rule) {
            match nd.pending {
                Some(x) => x,
                None => nd.value,
            }
        } else {
            nd.value
        },
    };
    Node { rule: nd.rule, value, pending: None }
}

pub open spec fn commit_all(ns: Seq<Node>) -> Seq<Node> {
    Seq::new(ns.len(), |v: int| committed(ns, v as usize))
}

/// The slot that the next transaction stages for the node `v` of a
/// committed table `ns3`, whose slots before the commit were `ns2`: a
/// deferred stream fires what its source fired; a closed loop takes its
/// definition's value where that differs from its own.
pub open spec fn next_slot(ns3: Seq<Node>, ns2: Seq<Node>, v: int) -> Option<i64> {
    match ns3[v].rule {
        Rule::StreamDefer { src } => ns2[src as int].pending,
        Rule::CellLoop { def: Some(d) } => if ns3[d as int].value != ns3[v].value {
            Some(ns3[d as int].value)
        } else {
            None
        },
        _ => ns3[v].pending,
    }
}

/// The table after a commit `ns3` of the slots `ns2`, with what the next
/// transaction runs staged.
pub open spec fn restaged(ns3: Seq<Node>, ns2: Seq<Node>) -> Seq<Node> {
    Seq::new(ns3.len(), |v: int| Node { pending: next_slot(ns3, ns2, v), ..ns3[v] })
}

/// Some slot is filled.
pub open spec fn has_staged(ns: Seq<Node>) -> bool {
    exists|v: int| 0 <= v < ns.len() && (#[trigger] ns[v]).pending is Some
}

/// What a failed transaction leaves: every slot emptied, but a closed loop's,
/// so that the nodes reading it are recomputed by the next transaction.
pub open spec fn discard_all(ns: Seq<Node>) -> Seq<Node> {
    Seq::new(
        ns.len(),
        |v: int|
            Node {
                pending: if ns[v].rule matches Rule::CellLoop { def: Some(_) } {
                    ns[v].pending
                } else {
                    None
                },
                ..ns[v]
            },
    )
}

/// Which nodes of `0..k` the transaction reaches: those staged, and those
/// that read a reached node.
pub open spec fn reach_prefix(ns: Seq<Node>, k: nat) -> Seq<bool>
    decreases k,
{
    if k == 0 {
        seq![]
    } else {
        let prev = reach_prefix(ns, (k - 1) as nat);
        let v = (k - 1) as usize;
        let ds = deps(ns, v);
        prev.push(
            ns[v as int].pending is Some || exists|i: int|
                0 <= i < ds.len() && ds[i] < v && #[trigger] prev[ds[i] as int],
        )
    }
}

/// The node `v` is staged, or reads (through any chain) a staged node.
pub open spec fn affected(ns: Seq<Node>, v: usize) -> bool {
    reach_prefix(ns, ns.len())[v as int]
}

pub proof fn lemma_reach_prefix(ns: Seq<Node>, k: nat, m: nat)
    requires
        m <= k,
    ensures
        reach_prefix(ns, k).len() == k,
        reach_prefix(ns, m) == reach_prefix(ns, k).subrange(0, m as int),
    decreases k,
{
    if k > 0 {
        lemma_reach_prefix(ns, (k - 1) as nat, if m == k { (k - 1) as nat } else { m });
        if m < k {
            assert(reach_prefix(ns, m) =~= reach_prefix(ns, k).subrange(0, m as int));
        } else {
            assert(reach_prefix(ns, k) =~= reach_prefix(ns, k).subrange(0, m as int));
        }
    }
}

/// The defining fact of `affected`, one node at a time.
pub proof fn lemma_affected(ns: Seq<Node>, v: usize)
    requires
        v < ns.len(),
    ensures
        affected(ns, v) == (ns[v as int].pending is Some || exists|i: int|
            0 <= i < deps(ns, v).len() && deps(ns, v)[i] < v && affected(ns, #[trigger] deps(ns, v)[i])),
{
    lemma_reach_prefix(ns, ns.len(), (v + 1) as nat);
    lemma_reach_prefix(ns, ns.len(), v as nat);
    let full = reach_prefix(ns, ns.len());
    let prev = reach_prefix(ns, v as nat);
    let ds = deps(ns, v);
    let here = ns[v as int].pending is Some || exists|i: int|
        0 <= i < ds.len() && ds[i] < v && #[trigger] prev[ds[i] as int];
    assert(reach_prefix(ns, (v + 1) as nat) == prev.push(here));
    assert(full[v as int] == reach_prefix(ns, (v + 1) as nat)[v as int]);
    assert forall|i: int| 0 <= i < ds.len() && ds[i] < v implies
        prev[ds[i] as int] == affected(ns, #[trigger] ds[i]) by {
        assert(prev[ds[i] as int] == full.subrange(0, v as int)[ds[i] as int]);
    }
}

/// Every node of the table is well formed.
pub open spec fn table_wf(ns: Seq<Node>) -> bool {
    forall|v: usize| v < ns.len() ==> #[trigger] rule_wf(ns, v)
}

pub fn read_new_at(ns: &Vec<Node>, u: usize) -> (r: i64)
    requires
        u < ns@.len(),
    ensures
        r == read_new(ns@, u),
{
    let nd = ns[u];
    match nd.pending {
        Some(x) => x,
        None => nd.value,
    }
}

pub fn cell_target_at(ns: &Vec<Node>, x: i64, v: usize) -> (r: Option<usize>)
    requires
        v <= ns@.len(),
    ensures
        r == cell_target(ns@, x, v),
{
    if 0 <= x && (x as u64) < (v as u64) {
        let t = x as usize;
        if is_cell_rule(&ns[t].rule) {
            Some(t)
        } else {
            None
        }
    } else {
        None
    }
}

fn switch_target_at(ns: &Vec<Node>, outer: usize, v: usize) -> (r: Option<usize>)
    requires
        outer < ns@.len(),
        v <= ns@.len(),
    ensures
        r == switch_target(ns@, outer, v),
{
    let x = ns[outer].value;
    if 0 <= x && (x as u64) < (v as u64) {
        let t = x as usize;
        match ns[t].rule {
            Rule::CellSink | Rule::CellMap { .. } | Rule::CellLift2 { .. } | Rule::CellLift3 { .. }
            | Rule::CellLift4 { .. } | Rule::CellHold { .. } | Rule::CellAccum { .. }
            | Rule::CellSwitch { .. } | Rule::CellLoop { .. } | Rule::Dropped => None,
            _ => Some(t),
        }
    } else {
        None
    }
}

/// The nodes that `v` reads in a transaction.
pub fn deps_at(ns: &Vec<Node>, v: usize) -> (r: Vec<usize>)
    requires
        v < ns@.len(),
        rule_wf(ns@, v),
    ensures
        r@ == deps(ns@, v),
{
    match ns[v].rule {
        Rule::CellMap { src, .. } => vec![src],
        Rule::CellLift2 { a, b, .. } => vec![a, b],
        Rule::CellLift3 { a, b, c, .. } => vec![a, b, c],
        Rule::CellLift4 { a, b, c, d, .. } => vec![a, b, c, d],
        Rule::CellHold { src } => vec![src],
        Rule::CellAccum { src, .. } => vec![src],
        Rule::CellSwitch { .. } => {
            let mut all: Vec<usize> = Vec::new();
            let mut i: usize = 0;
            while i < v
                invariant
                    i <= v,
                    all@ == Seq::new(i as nat, |k: int| k as usize),
                decreases v - i,
            {
                all.push(i);
                proof {
                    assert(all@ =~= Seq::new((i + 1) as nat, |k: int| k as usize));
                }
                i += 1;
            }
            all
        },
        Rule::StreamMap { src, .. } => vec![src],
        Rule::StreamFilter { src, .. } => vec![src],
        Rule::StreamMerge { a, b, .. } => vec![a, b],
        Rule::StreamSnapshot { src, .. } => vec![src],
        Rule::StreamGate { src, .. } => vec![src],
        Rule::StreamUpdates { cell } => vec![cell],
        Rule::StreamOnce { src } => vec![src],
        Rule::StreamCollect { src, .. } => vec![src],
        Rule::StreamSwitch { outer } => match switch_target_at(ns, outer, v) {
            Some(t) => vec![t],
            None => vec![],
        },
        _ => vec![],
    }
}

fn cell_new_at(ns: &Vec<Node>, v: usize) -> (r: i64)
    requires
        v < ns@.len(),
        rule_wf(ns@, v),
    ensures
        r == cell_new(ns@, v),
{
    let own = ns[v].value;
    match ns[v].rule {
        Rule::CellMap { src, f } => f.apply(read_new_at(ns, src)),
        Rule::CellLift2 { a, b, f } => f.apply(read_new_at(ns, a), read_new_at(ns, b)),
        Rule::CellLift3 { a, b, c, f } => {
            let ab = f.apply(read_new_at(ns, a), read_new_at(ns, b));
            f.apply(ab, read_new_at(ns, c))
        },
        Rule::CellLift4 { a, b, c, d, f } => {
            let ab = f.apply(read_new_at(ns, a), read_new_at(ns, b));
            let abc = f.apply(ab, read_new_at(ns, c));
            f.apply(abc, read_new_at(ns, d))
        },
        Rule::CellHold { src } => match ns[src].pending {
            Some(x) => x,
            None => own,
        },
        Rule::CellAccum { src, f } => match ns[src].pending {
            Some(x) => f.apply(x, own),
            None => own,
        },
        Rule::CellSwitch { outer } => match cell_target_at(ns, read_new_at(ns, outer), v) {
            Some(t) => read_new_at(ns, t),
            None => own,
        },
        _ => own,
    }
}

fn merge_at(x: Option<i64>, y: Option<i64>, f: Fn2) -> (r: Option<i64>)
    ensures
        r == merge_spec(x, y, f),
{
    match (x, y) {
        (Some(a), Some(b)) => Some(f.apply(a, b)),
        (Some(a), None) => Some(a),
        (None, Some(b)) => Some(b),
        (None, None) => None,
    }
}

fn stream_new_at(ns: &Vec<Node>, v: usize) -> (r: Option<i64>)
    requires
        v < ns@.len(),
        rule_wf(ns@, v),
    ensures
        r == stream_new(ns@, v),
{
    let own = ns[v].value;
    match ns[v].rule {
        Rule::StreamMap { src, f } => match ns[src].pending {
            Some(x) => Some(f.apply(x)),
            None => None,
        },
        Rule::StreamFilter { src, p } => match ns[src].pending {
            Some(x) => if p.test(x) { Some(x) } else { None },
            None => None,
        },
        Rule::StreamMerge { a, b, f } => merge_at(ns[a].pending, ns[b].pending, f),
        Rule::StreamSnapshot { src, cell, f } => match ns[src].pending {
            Some(x) => Some(f.apply(x, ns[cell].value)),
            None => None,
        },
        Rule::StreamGate { src, cell } => if ns[cell].value != 0 {
            ns[src].pending
        } else {
            None
        },
        Rule::StreamUpdates { cell } => ns[cell].pending,
        Rule::StreamOnce { src } => if own == 0 { ns[src].pending } else { None },
        Rule::StreamCollect { src, emit, .. } => match ns[src].pending {
            Some(x) => Some(emit.apply(x, own)),
            None => None,
        },
        Rule::StreamSwitch { outer } => match switch_target_at(ns, outer, v) {
            Some(t) => ns[t].pending,
            None => None,
        },
        _ => None,
    }
}

pub fn is_cell_rule(r: &Rule) -> (b: bool)
    ensures
        b == is_cell(*r),
{
    match *r {
        Rule::CellSink | Rule::CellMap { .. } | Rule::CellLift2 { .. } | Rule::CellLift3 { .. }
        | Rule::CellLift4 { .. } | Rule::CellHold { .. } | Rule::CellAccum { .. }
        | Rule::CellSwitch { .. } | Rule::CellLoop { .. } => true,
        _ => false,
    }
}

pub fn is_derived_rule(r: &Rule) -> (b: bool)
    ensures
        b == is_derived(*r),
{
    match *r {
        Rule::CellSink | Rule::StreamSink { .. } | Rule::CellLoop { .. } | Rule::StreamDefer { .. }
        | Rule::Dropped => false,
        _ => true,
    }
}

/// Evaluates the rule of the derived node `v` on the current table.
pub fn recompute_at(ns: &Vec<Node>, v: usize) -> (r: Option<i64>)
    requires
        v < ns@.len(),
        rule_wf(ns@, v),
    ensures
        r == recompute(ns@, v),
{
    if is_cell_rule(&ns[v].rule) {
        let n = cell_new_at(ns, v);
        if n != ns[v].value {
            Some(n)
        } else {
            None
        }
    } else {
        stream_new_at(ns, v)
    }
}

pub fn committed_at(ns: &Vec<Node>, v: usize) -> (r: Node)
    requires
        v < ns@.len(),
        rule_wf(ns@, v),
    ensures
        r == committed(ns@, v),
{
    let nd = ns[v];
    let value = match nd.rule {
        Rule::StreamOnce { .. } => if nd.pending.is_some() { 1 } else { nd.value },
        Rule::StreamCollect { src, next, .. } => match ns[src].pending {
            Some(x) => next.apply(x, nd.value),
            None => nd.value,
        },
        _ => if is_cell_rule(&nd.rule) {
            match nd.pending {
                Some(x) => x,
                None => nd.value,
            }
        } else {
            nd.value
        },
    };
    Node { rule: nd.rule, value, pending: None }
}

/// A cell computed from other cells holds its rule applied to their values,
/// loops included. The definition of a loop is left out: it closes the
/// loop's cycle, so it reads the loop's value of one step before.
pub open spec fn consistent_at(ns: Seq<Node>, v: usize) -> bool {
    let val = |u: usize| ns[u as int].value;
    !defines_loop(ns, v) ==> match ns[v as int].rule {
        Rule::CellMap { src, f } => val(v) == f.spec_apply(val(src)),
        Rule::CellLift2 { a, b, f } => val(v) == f.spec_apply(val(a), val(b)),
        Rule::CellLift3 { a, b, c, f } => val(v) == f.spec_apply(f.spec_apply(val(a), val(b)), val(c)),
        Rule::CellLift4 { a, b, c, d, f } => val(v) == f.spec_apply(
            f.spec_apply(f.spec_apply(val(a), val(b)), val(c)),
            val(d),
        ),
        _ => true,
    }
}

pub open spec fn consistent(ns: Seq<Node>) -> bool {
    forall|v: usize| v < ns.len() ==> #[trigger] consistent_at(ns, v)
}

/// A derived cell stays consistent when what it reads keeps its value and it
/// defines no fewer loops.
pub proof fn lemma_consistent_at_frame(ns: Seq<Node>, ms: Seq<Node>, v: usize)
    requires
        v < ns.len(),
        v < ms.len(),
        rule_wf(ns, v),
        ms[v as int].rule == ns[v as int].rule,
        ms[v as int].value == ns[v as int].value,
        forall|i: int| 0 <= i < deps(ns, v).len() ==> ms[#[trigger] deps(ns, v)[i] as int].value == ns[deps(ns, v)[i] as int].value,
        defines_loop(ns, v) ==> defines_loop(ms, v),
        consistent_at(ns, v),
    ensures
        consistent_at(ms, v),
{
    match ns[v as int].rule {
        Rule::CellMap { src, .. } => { assert(deps(ns, v)[0] == src); },
        Rule::CellLift2 { a, b, .. } => { assert(deps(ns, v)[0] == a); assert(deps(ns, v)[1] == b); },
        Rule::CellLift3 { a, b, c, .. } => {
            assert(deps(ns, v)[0] == a); assert(deps(ns, v)[1] == b); assert(deps(ns, v)[2] == c);
        },
        Rule::CellLift4 { a, b, c, d, .. } => {
            assert(deps(ns, v)[0] == a); assert(deps(ns, v)[1] == b); assert(deps(ns, v)[2] == c);
            assert(deps(ns, v)[3] == d);
        },
        _ => {},
    }
}

/// The node `v` reads a loop that is staged: the loop was given a new value
/// that `v` has not been recomputed from yet.
pub open spec fn reads_staged_loop(ns: Seq<Node>, v: usize) -> bool {
    exists|i: int|
        0 <= i < deps(ns, v).len() && is_closed_loop(ns[deps(ns, v)[i] as int].rule)
            && (#[trigger] ns[deps(ns, v)[i] as int]).pending is Some
}

/// Every derived cell is consistent, but those that read a staged loop and
/// are recomputed when the staged inputs commit.
pub open spec fn consistent_staged(ns: Seq<Node>) -> bool {
    forall|v: usize| v < ns.len() ==> reads_staged_loop(ns, v) || #[trigger] consistent_at(ns, v)
}

} // verus!
