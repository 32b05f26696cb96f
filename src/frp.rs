//! The context: the node table, the transaction manager and the listeners.
use vstd::prelude::*;
use crate::func::{Fn1, Fn2, Pred};
use crate::listen::{Delivery, Listener, emissions, push_emissions};
use crate::node::{
    Node, Rule, cell_target, cell_target_at, commit_all, committed, consistent, consistent_at, is_closed_loop, affected, consistent_staged, defines_loop, reads_staged_loop, lemma_consistent_at_frame, deps,
    discard_all, has_staged, is_cell, is_cell_at, is_derived, is_loop, is_sink, is_stream_at,
    names_node, names_node_at, read_new, read_new_at, restaged, rule_wf, table_wf,
};
use crate::sched::{
    any_staged, commit_slots, derived_quiet, discard_slots, in_pass,
    layered, lemma_deps_before, lemma_deps_prefix, lemma_deps_same, propagate, propagated, restage,
    same_but_slots, topological,
};
use crate::laws::{lemma_commit_keeps_derived_cells, lemma_one_delivery_per_node, lemma_unreached_cell_unchanged};

verus! {

/// Why a transaction, or a call, was refused.
#[derive(Clone, Copy, Debug, PartialEq, Eq, Structural)]
pub enum FrpError {
    /// A stream sink without a combiner was sent two values in one transaction.
    NoCoalescerForSimultaneous,
    /// A loop was still without definition when its transaction ended.
    LoopNotClosed,
    /// A loop was given a second definition.
    LoopAlreadyClosed,
    /// A node that others read, or that a listener observes, cannot be
    /// dropped.
    HasDependents,
    /// The id names no node, or a dropped one.
    InvalidNode,
}

/// A handle on a cell of a context.
#[derive(Clone, Copy, Debug, PartialEq, Eq, Structural)]
pub struct Cell {
    pub id: usize,
}

/// A handle on a cell that is written from outside.
#[derive(Clone, Copy, Debug, PartialEq, Eq, Structural)]
pub struct CellSink {
    pub id: usize,
}

/// A handle on a stream of a context.
#[derive(Clone, Copy, Debug, PartialEq, Eq, Structural)]
pub struct Stream {
    pub id: usize,
}

/// A handle on a stream that is written from outside.
#[derive(Clone, Copy, Debug, PartialEq, Eq, Structural)]
pub struct StreamSink {
    pub id: usize,
}

/// Anything that names a cell.
pub trait CellTrait {
    spec fn node_id(&self) -> usize;

    fn id(&self) -> (r: usize)
        ensures
            r == self.node_id(),
    ;
}

/// Anything that names a stream.
pub trait StreamTrait {
    spec fn node_id(&self) -> usize;

    fn id(&self) -> (r: usize)
        ensures
            r == self.node_id(),
    ;
}

impl Cell {
    pub fn of(id: usize) -> (r: Cell)
        ensures
            r.id == id,
    {
        Cell { id }
    }
}

impl CellSink {
    pub fn of(id: usize) -> (r: CellSink)
        ensures
            r.id == id,
    {
        CellSink { id }
    }
}

impl CellTrait for Cell {
    open spec fn node_id(&self) -> usize {
        self.id
    }

    fn id(&self) -> (r: usize) {
        self.id
    }
}

impl CellTrait for CellSink {
    open spec fn node_id(&self) -> usize {
        self.id
    }

    fn id(&self) -> (r: usize) {
        self.id
    }
}

impl StreamTrait for Stream {
    open spec fn node_id(&self) -> usize {
        self.id
    }

    fn id(&self) -> (r: usize) {
        self.id
    }
}

impl StreamTrait for StreamSink {
    open spec fn node_id(&self) -> usize {
        self.id
    }

    fn id(&self) -> (r: usize) {
        self.id
    }
}

/// One input of a scripted transaction.
#[derive(Clone, Copy, Debug, PartialEq, Eq, Structural)]
pub enum Action {
    Send(StreamSink, i64),
    Change(CellSink, i64),
}

/// The slot of a stream sink after one more send of `x`: the value itself,
/// or the earlier value combined with it.
pub open spec fn stage_send(nd: Node, x: i64) -> Option<i64> {
    match nd.pending {
        None => Some(x),
        Some(p) => match nd.rule {
            Rule::StreamSink { coalescer: Some(f) } => Some(f.spec_apply(p, x)),
            _ => Some(p),
        },
    }
}

/// A second send without a combiner in one transaction.
pub open spec fn send_collides(nd: Node) -> bool {
    nd.pending is Some && nd.rule matches Rule::StreamSink { coalescer: None }
}

/// The table and the error of a transaction after it staged `acts`.
pub open spec fn stage_actions(ns: Seq<Node>, failure: Option<FrpError>, acts: Seq<Action>) -> (Seq<Node>, Option<FrpError>)
    decreases acts.len(),
{
    if acts.len() == 0 {
        (ns, failure)
    } else {
        let (ns1, f1) = stage_actions(ns, failure, acts.drop_last());
        match acts.last() {
            Action::Send(s, x) => (
                ns1.update(s.id as int, Node { pending: stage_send(ns1[s.id as int], x), ..ns1[s.id as int] }),
                if send_collides(ns1[s.id as int]) { Some(FrpError::NoCoalescerForSimultaneous) } else { f1 },
            ),
            Action::Change(c, x) => (
                ns1.update(c.id as int, Node { pending: Some(x), ..ns1[c.id as int] }),
                f1,
            ),
        }
    }
}

/// The switch at `v` currently follows the node `id`.
pub open spec fn selects_node(ns: Seq<Node>, v: int, id: usize) -> bool {
    match ns[v].rule {
        Rule::StreamSwitch { outer } => ns[outer as int].value as int == id as int,
        Rule::CellSwitch { outer } => ns[outer as int].value as int == id as int,
        _ => false,
    }
}

/// Some node reads or follows `id`, or some active listener observes it, or
/// `id` is a closed loop, which its definition reads through the cycle.
pub open spec fn has_dependents(ns: Seq<Node>, ls: Seq<Listener>, id: usize) -> bool {
    ||| ns[id as int].rule matches Rule::CellLoop { def: Some(_) }
    ||| exists|v: int| 0 <= v < ns.len() && (names_node((#[trigger] ns[v]).rule, id) || selects_node(ns, v, id))
    ||| exists|l: int| 0 <= l < ls.len() && (#[trigger] ls[l]).active && ls[l].node == id
}

/// Some loop of the table has no definition.
pub open spec fn has_open_loop(ns: Seq<Node>) -> bool {
    exists|v: int| 0 <= v < ns.len() && (#[trigger] ns[v]).rule matches Rule::CellLoop { def: None }
}

/// The outcome of ending the outermost transaction on the table `ns`.
pub open spec fn commit_outcome(ns: Seq<Node>, failure: Option<FrpError>) -> Result<(), FrpError> {
    match failure {
        Some(e) => Err(e),
        None => if has_open_loop(ns) {
            Err(FrpError::LoopNotClosed)
        } else {
            Ok(())
        },
    }
}

/// The table that one transaction leaves, from the table its recompute pass
/// left: slots committed; deferred firings, and loops whose definition
/// changed, staged for the next one.
pub open spec fn after_round(pass: Seq<Node>) -> Seq<Node> {
    restaged(commit_all(pass), pass)
}

/// The deliveries of one transaction.
pub open spec fn round_emissions(pass: Seq<Node>, ls: Seq<Listener>) -> Seq<Delivery> {
    emissions(pass, ls, pass.len())
}

/// A node of this rule may be staged by the transaction before: a deferred
/// stream, or a closed loop.
pub open spec fn stages_later(r: Rule) -> bool {
    r is StreamDefer || r matches Rule::CellLoop { def: Some(_) }
}

/// The table after the transactions whose passes are `ps`, from `ns0`.
#[verifier::opaque]
pub open spec fn rounds_end(ns0: Seq<Node>, ps: Seq<Seq<Node>>) -> Seq<Node> {
    if ps.len() == 0 {
        ns0
    } else {
        after_round(ps.last())
    }
}

/// Each pass of `ps` recomputed the table the previous transaction left; each
/// transaction after the first had staged inputs to run.
#[verifier::opaque]
pub open spec fn rounds_ok(ns0: Seq<Node>, ps: Seq<Seq<Node>>) -> bool
    decreases ps.len(),
{
    if ps.len() == 0 {
        true
    } else {
        let prev = ps.drop_last();
        &&& rounds_ok(ns0, prev)
        &&& propagated(rounds_end(ns0, prev), ps.last())
        &&& prev.len() > 0 ==> has_staged(rounds_end(ns0, prev))
    }
}

/// The deliveries of the transactions whose passes are `ps`, in order.
#[verifier::opaque]
pub open spec fn rounds_emissions(ps: Seq<Seq<Node>>, ls: Seq<Listener>) -> Seq<Delivery>
    decreases ps.len(),
{
    if ps.len() == 0 {
        seq![]
    } else {
        rounds_emissions(ps.drop_last(), ls) + round_emissions(ps.last(), ls)
    }
}

/// One transaction from staged inputs: the recompute pass, the deliveries,
/// the commit, and the staging of what the next transaction runs.
fn commit_round(ns: &mut Vec<Node>, ls: &Vec<Listener>, q: &mut Vec<Delivery>) -> (r: (Vec<usize>, Ghost<Seq<Node>>, Ghost<Seq<nat>>))
    requires
        table_wf(old(ns)@),
        derived_quiet(old(ns)@),
        consistent_staged(old(ns)@),
    ensures
        propagated(old(ns)@, r.1@),
        final(ns)@ == after_round(r.1@),
        final(q)@ == old(q)@ + round_emissions(r.1@, ls@),
        table_wf(final(ns)@),
        derived_quiet(final(ns)@),
        consistent(final(ns)@),
        consistent_staged(final(ns)@),
        r.0@.no_duplicates(),
        forall|v: usize| r.0@.contains(v) <==> in_pass(old(ns)@, v),
        layered(old(ns)@, r.0@, r.2@),
        topological(old(ns)@, r.0@),
{
    let ghost ns0 = ns@;
    let (order, lv) = propagate(ns);
    let ghost pass = ns@;
    push_emissions(ns, ls, q);
    let slots = ns.clone();
    proof {
        assert(slots@ =~= ns@) by {
            assert(slots@.len() == ns@.len());
        }
    }
    commit_slots(ns);
    restage(ns, &slots);
    proof {
        lemma_commit_keeps_derived_cells(ns0, pass);
        let c = commit_all(pass);
        let f = ns@;
        assert forall|v: usize| v < f.len() implies #[trigger] consistent_at(f, v) by {
            assert(consistent_at(c, v));
            assert(f[v as int].rule == c[v as int].rule && f[v as int].value == c[v as int].value);
            assert(rule_wf(c, v));
            assert(forall|u: usize| u < f.len() ==> f[u as int].rule == c[u as int].rule && f[u as int].value == c[u as int].value);
            if defines_loop(c, v) {
                let u = choose|u: usize| u < c.len() && (#[trigger] c[u as int]).rule == (Rule::CellLoop { def: Some(v) });
                assert(f[u as int].rule == c[u as int].rule);
            }
        }
        assert(consistent_staged(f));
        assert forall|v: usize| v < f.len() && is_derived(#[trigger] f[v as int].rule) implies f[v as int].pending is None by {
            assert(c[v as int] == committed(pass, v));
        }
    }
    (order, Ghost(pass), lv)
}

/// Runs a transaction for what the previous one staged (deferred firings,
/// loops that take their definition's new value),
/// while there are some, and at most as many as there are nodes.
fn run_deferred(
    ns: &mut Vec<Node>,
    ls: &Vec<Listener>,
    q: &mut Vec<Delivery>,
    Ghost(ns0): Ghost<Seq<Node>>,
    Ghost(q0): Ghost<Seq<Delivery>>,
    Ghost(p0): Ghost<Seq<Node>>,
) -> (ps: Ghost<Seq<Seq<Node>>>)
    requires
        ns0.len() == old(ns)@.len(),
        propagated(ns0, p0),
        old(ns)@ == after_round(p0),
        old(q)@ == q0 + round_emissions(p0, ls@),
        table_wf(old(ns)@),
        derived_quiet(old(ns)@),
        consistent(old(ns)@),
        consistent_staged(old(ns)@),
    ensures
        1 <= ps@.len() <= ns0.len() + 1,
        rounds_ok(ns0, ps@),
        final(ns)@ == rounds_end(ns0, ps@),
        final(q)@ == q0 + rounds_emissions(ps@, ls@),
        ps@.len() <= ns0.len() ==> !has_staged(final(ns)@),
        !may_stage_next(ns0) ==> ps@.len() == 1,
        final(ns)@.len() == ns0.len(),
        forall|v: int| 0 <= v < ns0.len() ==> (#[trigger] final(ns)@[v]).rule == ns0[v].rule,
        table_wf(final(ns)@),
        derived_quiet(final(ns)@),
        consistent(final(ns)@),
        consistent_staged(final(ns)@),
{
    let n = ns.len();
    let ghost mut ps: Seq<Seq<Node>> = seq![p0];
    proof {
        reveal(rounds_ok);
        reveal(rounds_end);
        reveal(rounds_emissions);
        assert(ps.drop_last() =~= Seq::<Seq<Node>>::empty());
        assert(ps.last() == p0);
        assert(rounds_ok(ns0, ps.drop_last()));
        assert(rounds_end(ns0, ps.drop_last()) == ns0);
        assert(rounds_emissions(ps.drop_last(), ls@) == Seq::<Delivery>::empty());
        assert(rounds_emissions(ps, ls@) =~= round_emissions(p0, ls@));
    }
    proof {
        if !may_stage_next(ns0) {
            lemma_no_defer_settles(ns0, p0);
        }
        lemma_round_keeps_rules(ns0, p0);
    }
    let mut extra: usize = 0;
    while extra < n && any_staged(ns)
        invariant
            n == ns0.len(),
            extra <= n,
            ps.len() == extra + 1,
            rounds_ok(ns0, ps),
            ns@ == rounds_end(ns0, ps),
            q@ == q0 + rounds_emissions(ps, ls@),
            ns@.len() == n,
            forall|v: int| 0 <= v < n ==> (#[trigger] ns@[v]).rule == ns0[v].rule,
            table_wf(ns@),
            derived_quiet(ns@),
            consistent(ns@),
            consistent_staged(ns@),
            !may_stage_next(ns0) ==> extra == 0 && !has_staged(ns@),
        decreases n - extra,
    {
        let ghost before = ns@;
        let ghost qb = q@;
        let (_o, Ghost(p), _lv) = commit_round(ns, ls, q);
        proof {
            lemma_round_keeps_rules(before, p);
            reveal(rounds_end);
            lemma_push_round(ns0, q0, ps, p, ls@);
            vstd::seq_lib::lemma_concat_associative(q0, rounds_emissions(ps, ls@), round_emissions(p, ls@));
            ps = ps.push(p);
        }
        extra = extra + 1;
    }
    Ghost(ps)
}

/// A transaction changes no rule.
proof fn lemma_round_keeps_rules(ns0: Seq<Node>, p: Seq<Node>)
    requires
        propagated(ns0, p),
        ns0.len() <= usize::MAX,
    ensures
        after_round(p).len() == ns0.len(),
        forall|v: int| 0 <= v < ns0.len() ==> (#[trigger] after_round(p)[v]).rule == ns0[v].rule,
{
    assert forall|v: int| 0 <= v < ns0.len() implies (#[trigger] after_round(p)[v]).rule == ns0[v].rule by {
        let u = v as usize;
        assert(p[u as int].rule == ns0[u as int].rule);
        assert(commit_all(p)[v] == committed(p, u));
    }
}

/// One more transaction extends a run of them.
proof fn lemma_push_round(ns0: Seq<Node>, q0: Seq<Delivery>, ps: Seq<Seq<Node>>, p: Seq<Node>, ls: Seq<Listener>)
    requires
        ps.len() >= 1,
        rounds_ok(ns0, ps),
        has_staged(rounds_end(ns0, ps)),
        propagated(rounds_end(ns0, ps), p),
    ensures
        rounds_ok(ns0, ps.push(p)),
        rounds_end(ns0, ps.push(p)) == after_round(p),
        rounds_emissions(ps.push(p), ls) == rounds_emissions(ps, ls) + round_emissions(p, ls),
{
    let ps1 = ps.push(p);
    assert(ps1.drop_last() =~= ps);
    assert(ps1.last() == p);
    reveal(rounds_ok);
    reveal(rounds_end);
    reveal(rounds_emissions);
}

/// Some node of the table may be staged by a transaction for the next one.
pub open spec fn may_stage_next(ns: Seq<Node>) -> bool {
    exists|v: int| 0 <= v < ns.len() && stages_later((#[trigger] ns[v]).rule)
}

/// Without deferred streams or closed loops, a transaction leaves no slot
/// behind.
proof fn lemma_no_defer_settles(ns0: Seq<Node>, p: Seq<Node>)
    requires
        propagated(ns0, p),
        !may_stage_next(ns0),
    ensures
        !has_staged(after_round(p)),
{
    lemma_round_staged_only_deferred(p);
    let a = after_round(p);
    assert forall|v: int| 0 <= v < a.len() implies (#[trigger] a[v]).pending is None by {
        assert(commit_all(p)[v] == committed(p, v as usize));
        let u = v as usize;
        assert(p[u as int].rule == ns0[u as int].rule);
        assert(!stages_later(ns0[v].rule));
    }
}

/// After a transaction only deferred streams and closed loops have a slot.
proof fn lemma_round_staged_only_deferred(pass: Seq<Node>)
    ensures
        forall|v: int| 0 <= v < after_round(pass).len() && (#[trigger] after_round(pass)[v]).pending is Some
            ==> stages_later(after_round(pass)[v].rule),
{
    assert forall|v: int| 0 <= v < after_round(pass).len() && (#[trigger] after_round(pass)[v]).pending is Some
        implies stages_later(after_round(pass)[v].rule) by {
        assert(commit_all(pass)[v] == committed(pass, v as usize));
    }
}

/// The node table, the transaction state and the listeners of one FRP
/// program.
pub struct FrpContext {
    nodes: Vec<Node>,
    listeners: Vec<Listener>,
    queue: Vec<Delivery>,
    depth: u64,
    failure: Option<FrpError>,
    recomputed: Vec<usize>,
    recomputed_layers: Ghost<Seq<nat>>,
    passes: Ghost<Seq<Seq<Node>>>,
    born: Vec<u64>,
    epoch: u64,
}

impl FrpContext {
    pub closed spec fn nodes(&self) -> Seq<Node> {
        self.nodes@
    }

    pub closed spec fn listeners(&self) -> Seq<Listener> {
        self.listeners@
    }

    /// Deliveries that are queued and not yet taken.
    pub closed spec fn queue(&self) -> Seq<Delivery> {
        self.queue@
    }

    pub closed spec fn depth(&self) -> nat {
        self.depth as nat
    }

    /// The error raised so far in the current transaction.
    pub closed spec fn failure(&self) -> Option<FrpError> {
        self.failure
    }

    /// The nodes that the last commit recomputed, in order.
    pub closed spec fn recomputed_view(&self) -> Seq<usize> {
        self.recomputed@
    }

    /// The layer of each node that the last commit recomputed.
    pub closed spec fn recomputed_layers(&self) -> Seq<nat> {
        self.recomputed_layers@
    }

    /// The tables as the recompute passes of the last commit left them: its
    /// own, then one for each follow-up transaction after it.
    pub closed spec fn passes(&self) -> Seq<Seq<Node>> {
        self.passes@
    }

    /// The number of the transaction in which each node was created.
    pub closed spec fn born(&self) -> Seq<u64> {
        self.born@
    }

    /// The number of the current, or last, outermost transaction.
    pub closed spec fn epoch(&self) -> u64 {
        self.epoch
    }

    pub closed spec fn wf(&self) -> bool {
        &&& self.born@.len() == self.nodes@.len()
        &&& table_wf(self.nodes@)
        &&& derived_quiet(self.nodes@)
        &&& consistent_staged(self.nodes@)
        &&& self.depth == 0 ==> self.failure is None
        &&& self.depth == 0 ==> forall|v: int|
            0 <= v < self.nodes@.len() && (#[trigger] self.nodes@[v]).pending is Some
                ==> stages_later(self.nodes@[v].rule)
        &&& forall|l: int|
            0 <= l < self.listeners@.len() ==> (#[trigger] self.listeners@[l]).node
                < self.nodes@.len()
    }

    /// The state after a successful commit of the table `ns0`: every reached
    /// node recomputed once, slots committed, deliveries queued after `q0`;
    /// then, while deferred firings or loop values are staged (and at most
    /// once per node), a further transaction for them.
    pub open spec fn committed_from(&self, ns0: Seq<Node>, q0: Seq<Delivery>) -> bool {
        let ps = self.passes();
        &&& 1 <= ps.len() <= ns0.len() + 1
        &&& rounds_ok(ns0, ps)
        &&& self.nodes() == rounds_end(ns0, ps)
        &&& self.queue() == q0 + rounds_emissions(ps, self.listeners())
        &&& ps.len() <= ns0.len() ==> !has_staged(self.nodes())
        &&& consistent(self.nodes())
        &&& self.nodes().len() == ns0.len()
        &&& forall|v: int| 0 <= v < ns0.len() ==> (#[trigger] self.nodes()[v]).rule == ns0[v].rule
        &&& !may_stage_next(ns0) ==> {
            &&& ps.len() == 1
            &&& propagated(ns0, ps[0])
            &&& self.nodes() == after_round(ps[0])
            &&& self.queue() == q0 + round_emissions(ps[0], self.listeners())
            &&& forall|c: usize|
                c < ns0.len() && is_cell(ns0[c as int].rule) && !affected(ns0, c) ==> (#[trigger] self.nodes()[c as int]).value
                    == ns0[c as int].value
            &&& forall|i: int, j: int|
                q0.len() <= i < j < self.queue().len() ==> !((#[trigger] self.queue()[i]).listener
                    == (#[trigger] self.queue()[j]).listener && self.queue()[i].node == self.queue()[j].node)
        }
        &&& self.recomputed_view().no_duplicates()
        &&& forall|v: usize| self.recomputed_view().contains(v) <==> in_pass(ns0, v)
        &&& layered(ns0, self.recomputed_view(), self.recomputed_layers())
        &&& topological(ns0, self.recomputed_view())
    }

    /// Only the node table changed, by the new node `nd` at its end.
    pub open spec fn grew(&self, before: &Self, nd: Node) -> bool {
        &&& self.nodes() == before.nodes().push(nd)
        &&& self.listeners() == before.listeners()
        &&& self.queue() == before.queue()
        &&& self.depth() == before.depth()
        &&& self.failure() == before.failure()
        &&& self.born() == before.born().push(before.epoch())
        &&& self.epoch() == before.epoch()
    }

    pub open spec fn is_cell_id(&self, id: usize) -> bool {
        is_cell_at(self.nodes(), id)
    }

    pub open spec fn is_stream_id(&self, id: usize) -> bool {
        is_stream_at(self.nodes(), id)
    }

    pub open spec fn has_room(&self) -> bool {
        self.nodes().len() < usize::MAX
    }

    /// An empty context, outside any transaction.
    pub fn new() -> (r: FrpContext)
        ensures
            r.wf(),
            r.nodes() == Seq::<Node>::empty(),
            r.listeners() == Seq::<Listener>::empty(),
            r.queue() == Seq::<Delivery>::empty(),
            r.depth() == 0,
            r.failure() is None,
    {
        FrpContext {
            nodes: Vec::new(),
            listeners: Vec::new(),
            queue: Vec::new(),
            depth: 0,
            failure: None,
            recomputed: Vec::new(),
            recomputed_layers: Ghost(Seq::empty()),
            passes: Ghost(Seq::empty()),
            born: Vec::new(),
            epoch: 0,
        }
    }

    /// Appends a node that is well formed and keeps the table consistent.
    fn add_node(&mut self, nd: Node) -> (id: usize)
        requires
            old(self).wf(),
            old(self).has_room(),
            nd.pending is None,
            rule_wf(old(self).nodes().push(nd), old(self).nodes().len() as usize),
            consistent_at(old(self).nodes().push(nd), old(self).nodes().len() as usize),
        ensures
            final(self).wf(),
            final(self).grew(old(self), nd),
            id == old(self).nodes().len(),
    {
        let ghost ns0 = self.nodes@;
        let id = self.nodes.len();
        self.nodes.push(nd);
        self.born.push(self.epoch);
        proof {
            let ns = self.nodes@;
            assert forall|u: usize| u < ns0.len() implies (#[trigger] ns[u as int]).rule == ns0[u as int].rule by {}
            assert forall|v: usize| v < ns.len() implies #[trigger] rule_wf(ns, v) by {
                if v < ns0.len() {
                    assert(rule_wf(ns0, v));
                    assert(ns[v as int] == ns0[v as int]);
                    assert(forall|u: usize| u < v ==> ns[u as int] == ns0[u as int]);
                    lemma_rule_wf_push(ns0, nd, v);
                }
            }
            assert forall|v: usize| v < ns.len() implies reads_staged_loop(ns, v) || #[trigger] consistent_at(ns, v) by {
                if v < ns0.len() {
                    assert(rule_wf(ns0, v));
                    assert(forall|u: usize| u < ns0.len() ==> #[trigger] ns[u as int] == ns0[u as int]);
                    lemma_deps_prefix(ns0, ns, v);
                    if defines_loop(ns0, v) {
                        let u = choose|u: usize| u < ns0.len() && (#[trigger] ns0[u as int]).rule == (Rule::CellLoop { def: Some(v) });
                        assert(ns[u as int] == ns0[u as int]);
                    }
                    lemma_deps_before(ns0, v);
                    lemma_keep_staged(ns0, ns, v);
                }
            }
        }
        id
    }

    /// A cell written from outside, holding `value`.
    pub fn new_cell_sink(&mut self, value: i64) -> (r: CellSink)
        requires
            old(self).wf(),
            old(self).has_room(),
        ensures
            final(self).wf(),
            final(self).grew(old(self), Node { rule: Rule::CellSink, value, pending: None }),
            r.id == old(self).nodes().len(),
    {
        let id = self.add_node(Node { rule: Rule::CellSink, value, pending: None });
        CellSink { id }
    }

    /// A stream written from outside; two sends in one transaction fail.
    pub fn new_stream_sink(&mut self) -> (r: StreamSink)
        requires
            old(self).wf(),
            old(self).has_room(),
        ensures
            final(self).wf(),
            final(self).grew(
                old(self),
                Node { rule: Rule::StreamSink { coalescer: None }, value: 0, pending: None },
            ),
            r.id == old(self).nodes().len(),
    {
        let id = self.add_node(
            Node { rule: Rule::StreamSink { coalescer: None }, value: 0, pending: None },
        );
        StreamSink { id }
    }

    /// A stream written from outside; sends in one transaction are combined
    /// from left to right by `f`.
    pub fn new_stream_sink_with_coalescer(&mut self, f: Fn2) -> (r: StreamSink)
        requires
            old(self).wf(),
            old(self).has_room(),
        ensures
            final(self).wf(),
            final(self).grew(
                old(self),
                Node { rule: Rule::StreamSink { coalescer: Some(f) }, value: 0, pending: None },
            ),
            r.id == old(self).nodes().len(),
    {
        let id = self.add_node(
            Node { rule: Rule::StreamSink { coalescer: Some(f) }, value: 0, pending: None },
        );
        StreamSink { id }
    }

    /// The committed value of the node `id`.
    fn value_of(&self, id: usize) -> (r: i64)
        requires
            id < self.nodes().len(),
        ensures
            r == self.nodes()[id as int].value,
    {
        self.nodes[id].value
    }

    /// The cell `f(cell)`.
    pub fn map_cell<C: CellTrait>(&mut self, cell: &C, f: Fn1) -> (r: Cell)
        requires
            old(self).wf(),
            old(self).has_room(),
            old(self).is_cell_id(cell.node_id()),
        ensures
            final(self).wf(),
            final(self).grew(
                old(self),
                Node {
                    rule: Rule::CellMap { src: cell.node_id(), f },
                    value: f.spec_apply(old(self).nodes()[cell.node_id() as int].value),
                    pending: None,
                },
            ),
            r.id == old(self).nodes().len(),
    {
        let src = cell.id();
        let value = f.apply(self.value_of(src));
        let id = self.add_node(Node { rule: Rule::CellMap { src, f }, value, pending: None });
        Cell { id }
    }

    /// The cell `f(a, b)`.
    pub fn lift2_cell<A: CellTrait, B: CellTrait>(&mut self, f: Fn2, a: &A, b: &B) -> (r: Cell)
        requires
            old(self).wf(),
            old(self).has_room(),
            old(self).is_cell_id(a.node_id()),
            old(self).is_cell_id(b.node_id()),
        ensures
            final(self).wf(),
            final(self).grew(
                old(self),
                Node {
                    rule: Rule::CellLift2 { a: a.node_id(), b: b.node_id(), f },
                    value: f.spec_apply(
                        old(self).nodes()[a.node_id() as int].value,
                        old(self).nodes()[b.node_id() as int].value,
                    ),
                    pending: None,
                },
            ),
            r.id == old(self).nodes().len(),
    {
        let ia = a.id();
        let ib = b.id();
        let value = f.apply(self.value_of(ia), self.value_of(ib));
        let id = self.add_node(
            Node { rule: Rule::CellLift2 { a: ia, b: ib, f }, value, pending: None },
        );
        Cell { id }
    }

    /// The cell `f(f(a, b), c)`.
    pub fn lift3_cell<A: CellTrait, B: CellTrait, C: CellTrait>(
        &mut self,
        f: Fn2,
        a: &A,
        b: &B,
        c: &C,
    ) -> (r: Cell)
        requires
            old(self).wf(),
            old(self).has_room(),
            old(self).is_cell_id(a.node_id()),
            old(self).is_cell_id(b.node_id()),
            old(self).is_cell_id(c.node_id()),
        ensures
            final(self).wf(),
            final(self).grew(
                old(self),
                Node {
                    rule: Rule::CellLift3 { a: a.node_id(), b: b.node_id(), c: c.node_id(), f },
                    value: f.spec_apply(
                        f.spec_apply(
                            old(self).nodes()[a.node_id() as int].value,
                            old(self).nodes()[b.node_id() as int].value,
                        ),
                        old(self).nodes()[c.node_id() as int].value,
                    ),
                    pending: None,
                },
            ),
            r.id == old(self).nodes().len(),
    {
        let ia = a.id();
        let ib = b.id();
        let ic = c.id();
        let ab = f.apply(self.value_of(ia), self.value_of(ib));
        let value = f.apply(ab, self.value_of(ic));
        let id = self.add_node(
            Node { rule: Rule::CellLift3 { a: ia, b: ib, c: ic, f }, value, pending: None },
        );
        Cell { id }
    }

    /// The cell `f(f(f(a, b), c), d)`.
    pub fn lift4_cell<A: CellTrait, B: CellTrait, C: CellTrait, D: CellTrait>(
        &mut self,
        f: Fn2,
        a: &A,
        b: &B,
        c: &C,
        d: &D,
    ) -> (r: Cell)
        requires
            old(self).wf(),
            old(self).has_room(),
            old(self).is_cell_id(a.node_id()),
            old(self).is_cell_id(b.node_id()),
            old(self).is_cell_id(c.node_id()),
            old(self).is_cell_id(d.node_id()),
        ensures
            final(self).wf(),
            final(self).grew(
                old(self),
                Node {
                    rule: Rule::CellLift4 {
                        a: a.node_id(),
                        b: b.node_id(),
                        c: c.node_id(),
                        d: d.node_id(),
                        f,
                    },
                    value: f.spec_apply(
                        f.spec_apply(
                            f.spec_apply(
                                old(self).nodes()[a.node_id() as int].value,
                                old(self).nodes()[b.node_id() as int].value,
                            ),
                            old(self).nodes()[c.node_id() as int].value,
                        ),
                        old(self).nodes()[d.node_id() as int].value,
                    ),
                    pending: None,
                },
            ),
            r.id == old(self).nodes().len(),
    {
        let ia = a.id();
        let ib = b.id();
        let ic = c.id();
        let id_d = d.id();
        let ab = f.apply(self.value_of(ia), self.value_of(ib));
        let abc = f.apply(ab, self.value_of(ic));
        let value = f.apply(abc, self.value_of(id_d));
        let id = self.add_node(
            Node {
                rule: Rule::CellLift4 { a: ia, b: ib, c: ic, d: id_d, f },
                value,
                pending: None,
            },
        );
        Cell { id }
    }

    /// The cell that starts at `initial` and takes each firing of `stream`,
    /// visible from the end of the firing's transaction.
    pub fn hold<S: StreamTrait>(&mut self, stream: &S, initial: i64) -> (r: Cell)
        requires
            old(self).wf(),
            old(self).has_room(),
            old(self).is_stream_id(stream.node_id()),
        ensures
            final(self).wf(),
            final(self).grew(
                old(self),
                Node { rule: Rule::CellHold { src: stream.node_id() }, value: initial, pending: None },
            ),
            r.id == old(self).nodes().len(),
    {
        let src = stream.id();
        let id = self.add_node(Node { rule: Rule::CellHold { src }, value: initial, pending: None });
        Cell { id }
    }

    /// The cell that starts at `initial` and becomes `f(x, value)` on each
    /// firing `x` of `stream`.
    pub fn accum<S: StreamTrait>(&mut self, stream: &S, initial: i64, f: Fn2) -> (r: Cell)
        requires
            old(self).wf(),
            old(self).has_room(),
            old(self).is_stream_id(stream.node_id()),
        ensures
            final(self).wf(),
            final(self).grew(
                old(self),
                Node {
                    rule: Rule::CellAccum { src: stream.node_id(), f },
                    value: initial,
                    pending: None,
                },
            ),
            r.id == old(self).nodes().len(),
    {
        let src = stream.id();
        let id = self.add_node(
            Node { rule: Rule::CellAccum { src, f }, value: initial, pending: None },
        );
        Cell { id }
    }

    /// The cell that shows the cell whose id `cell` holds. Only cells
    /// created before the switch can be shown; while `cell` names none, the
    /// switch keeps its value (0 at first).
    pub fn switch_c<C: CellTrait>(&mut self, cell: &C) -> (r: Cell)
        requires
            old(self).wf(),
            old(self).has_room(),
            old(self).is_cell_id(cell.node_id()),
        ensures
            final(self).wf(),
            final(self).grew(
                old(self),
                Node {
                    rule: Rule::CellSwitch { outer: cell.node_id() },
                    value: match cell_target(
                        old(self).nodes(),
                        old(self).nodes()[cell.node_id() as int].value,
                        old(self).nodes().len() as usize,
                    ) {
                        Some(t) => old(self).nodes()[t as int].value,
                        None => 0,
                    },
                    pending: None,
                },
            ),
            r.id == old(self).nodes().len(),
    {
        let outer = cell.id();
        let n = self.nodes.len();
        let value = match cell_target_at(&self.nodes, self.value_of(outer), n) {
            Some(t) => self.value_of(t),
            None => 0,
        };
        let id = self.add_node(Node { rule: Rule::CellSwitch { outer }, value, pending: None });
        Cell { id }
    }

    /// A cell declared now and defined later by `close_loop`, in the same
    /// transaction. Its placeholder value is 0.
    pub fn cell_loop(&mut self) -> (r: Cell)
        requires
            old(self).wf(),
            old(self).has_room(),
        ensures
            final(self).wf(),
            final(self).grew(
                old(self),
                Node { rule: Rule::CellLoop { def: None }, value: 0, pending: None },
            ),
            r.id == old(self).nodes().len(),
    {
        let id = self.add_node(Node { rule: Rule::CellLoop { def: None }, value: 0, pending: None });
        Cell { id }
    }

    /// Adds a derived stream node.
    fn add_stream(&mut self, rule: Rule, value: i64) -> (r: Stream)
        requires
            old(self).wf(),
            old(self).has_room(),
            !is_cell(rule),
            rule_wf(
                old(self).nodes().push(Node { rule, value, pending: None }),
                old(self).nodes().len() as usize,
            ),
        ensures
            final(self).wf(),
            final(self).grew(old(self), Node { rule, value, pending: None }),
            r.id == old(self).nodes().len(),
    {
        let id = self.add_node(Node { rule, value, pending: None });
        Stream { id }
    }

    /// Fires `f(x)` for each firing `x` of `stream`.
    pub fn map_stream<S: StreamTrait>(&mut self, stream: &S, f: Fn1) -> (r: Stream)
        requires
            old(self).wf(),
            old(self).has_room(),
            old(self).is_stream_id(stream.node_id()),
        ensures
            final(self).wf(),
            final(self).grew(
                old(self),
                Node { rule: Rule::StreamMap { src: stream.node_id(), f }, value: 0, pending: None },
            ),
            r.id == old(self).nodes().len(),
    {
        let src = stream.id();
        self.add_stream(Rule::StreamMap { src, f }, 0)
    }

    /// Fires `k` for each firing of `stream`.
    pub fn map_to<S: StreamTrait>(&mut self, stream: &S, k: i64) -> (r: Stream)
        requires
            old(self).wf(),
            old(self).has_room(),
            old(self).is_stream_id(stream.node_id()),
        ensures
            final(self).wf(),
            final(self).grew(
                old(self),
                Node {
                    rule: Rule::StreamMap { src: stream.node_id(), f: Fn1::Constant(k) },
                    value: 0,
                    pending: None,
                },
            ),
            r.id == old(self).nodes().len(),
    {
        self.map_stream(stream, Fn1::Constant(k))
    }

    /// Fires the firings of `stream` that pass `p`.
    pub fn filter<S: StreamTrait>(&mut self, p: Pred, stream: &S) -> (r: Stream)
        requires
            old(self).wf(),
            old(self).has_room(),
            old(self).is_stream_id(stream.node_id()),
        ensures
            final(self).wf(),
            final(self).grew(
                old(self),
                Node { rule: Rule::StreamFilter { src: stream.node_id(), p }, value: 0, pending: None },
            ),
            r.id == old(self).nodes().len(),
    {
        let src = stream.id();
        self.add_stream(Rule::StreamFilter { src, p }, 0)
    }

    /// Fires what `a` or `b` fires, and `f(x, y)` when both fire.
    pub fn merge<A: StreamTrait, B: StreamTrait>(&mut self, a: &A, b: &B, f: Fn2) -> (r: Stream)
        requires
            old(self).wf(),
            old(self).has_room(),
            old(self).is_stream_id(a.node_id()),
            old(self).is_stream_id(b.node_id()),
        ensures
            final(self).wf(),
            final(self).grew(
                old(self),
                Node {
                    rule: Rule::StreamMerge { a: a.node_id(), b: b.node_id(), f },
                    value: 0,
                    pending: None,
                },
            ),
            r.id == old(self).nodes().len(),
    {
        let ia = a.id();
        let ib = b.id();
        self.add_stream(Rule::StreamMerge { a: ia, b: ib, f }, 0)
    }

    /// Fires what `a` or `b` fires; `a` wins when both fire.
    pub fn or_else<A: StreamTrait, B: StreamTrait>(&mut self, a: &A, b: &B) -> (r: Stream)
        requires
            old(self).wf(),
            old(self).has_room(),
            old(self).is_stream_id(a.node_id()),
            old(self).is_stream_id(b.node_id()),
        ensures
            final(self).wf(),
            final(self).grew(
                old(self),
                Node {
                    rule: Rule::StreamMerge { a: a.node_id(), b: b.node_id(), f: Fn2::Left },
                    value: 0,
                    pending: None,
                },
            ),
            r.id == old(self).nodes().len(),
    {
        self.merge(a, b, Fn2::Left)
    }

    /// Fires `f(x, c)` for each firing `x` of `stream`, where `c` is the value
    /// of `cell` before the transaction.
    pub fn snapshot<S: StreamTrait, C: CellTrait>(&mut self, stream: &S, cell: &C, f: Fn2) -> (r: Stream)
        requires
            old(self).wf(),
            old(self).has_room(),
            old(self).is_stream_id(stream.node_id()),
            old(self).is_cell_id(cell.node_id()),
        ensures
            final(self).wf(),
            final(self).grew(
                old(self),
                Node {
                    rule: Rule::StreamSnapshot { src: stream.node_id(), cell: cell.node_id(), f },
                    value: 0,
                    pending: None,
                },
            ),
            r.id == old(self).nodes().len(),
    {
        let src = stream.id();
        let c = cell.id();
        self.add_stream(Rule::StreamSnapshot { src, cell: c, f }, 0)
    }

    /// Fires the firings of `stream` while `cell` held a value other than 0
    /// before the transaction.
    pub fn gate<S: StreamTrait, C: CellTrait>(&mut self, stream: &S, cell: &C) -> (r: Stream)
        requires
            old(self).wf(),
            old(self).has_room(),
            old(self).is_stream_id(stream.node_id()),
            old(self).is_cell_id(cell.node_id()),
        ensures
            final(self).wf(),
            final(self).grew(
                old(self),
                Node {
                    rule: Rule::StreamGate { src: stream.node_id(), cell: cell.node_id() },
                    value: 0,
                    pending: None,
                },
            ),
            r.id == old(self).nodes().len(),
    {
        let src = stream.id();
        let c = cell.id();
        self.add_stream(Rule::StreamGate { src, cell: c }, 0)
    }

    /// Fires the new value of `cell` whenever it changes.
    pub fn updates<C: CellTrait>(&mut self, cell: &C) -> (r: Stream)
        requires
            old(self).wf(),
            old(self).has_room(),
            old(self).is_cell_id(cell.node_id()),
        ensures
            final(self).wf(),
            final(self).grew(
                old(self),
                Node { rule: Rule::StreamUpdates { cell: cell.node_id() }, value: 0, pending: None },
            ),
            r.id == old(self).nodes().len(),
    {
        let c = cell.id();
        self.add_stream(Rule::StreamUpdates { cell: c }, 0)
    }

    /// Fires the first firing of `stream`, and nothing after it.
    pub fn once<S: StreamTrait>(&mut self, stream: &S) -> (r: Stream)
        requires
            old(self).wf(),
            old(self).has_room(),
            old(self).is_stream_id(stream.node_id()),
        ensures
            final(self).wf(),
            final(self).grew(
                old(self),
                Node { rule: Rule::StreamOnce { src: stream.node_id() }, value: 0, pending: None },
            ),
            r.id == old(self).nodes().len(),
    {
        let src = stream.id();
        self.add_stream(Rule::StreamOnce { src }, 0)
    }

    /// Folds `stream` from the state `initial`: on a firing `x` in state `s`,
    /// fires `emit(x, s)` and moves to `next(x, s)`.
    pub fn collect<S: StreamTrait>(&mut self, stream: &S, initial: i64, emit: Fn2, next: Fn2) -> (r: Stream)
        requires
            old(self).wf(),
            old(self).has_room(),
            old(self).is_stream_id(stream.node_id()),
        ensures
            final(self).wf(),
            final(self).grew(
                old(self),
                Node {
                    rule: Rule::StreamCollect { src: stream.node_id(), emit, next },
                    value: initial,
                    pending: None,
                },
            ),
            r.id == old(self).nodes().len(),
    {
        let src = stream.id();
        self.add_stream(Rule::StreamCollect { src, emit, next }, initial)
    }

    /// Fires each firing of `stream` again in a transaction of its own, run
    /// right after the one in which `stream` fired commits.
    pub fn defer<S: StreamTrait>(&mut self, stream: &S) -> (r: Stream)
        requires
            old(self).wf(),
            old(self).has_room(),
            old(self).is_stream_id(stream.node_id()),
        ensures
            final(self).wf(),
            final(self).grew(
                old(self),
                Node { rule: Rule::StreamDefer { src: stream.node_id() }, value: 0, pending: None },
            ),
            r.id == old(self).nodes().len(),
    {
        let src = stream.id();
        self.add_stream(Rule::StreamDefer { src }, 0)
    }

    /// Fires the firings of the stream whose id `cell` held before the
    /// transaction (a stream created before this one; nothing otherwise).
    pub fn switch_s<C: CellTrait>(&mut self, cell: &C) -> (r: Stream)
        requires
            old(self).wf(),
            old(self).has_room(),
            old(self).is_cell_id(cell.node_id()),
        ensures
            final(self).wf(),
            final(self).grew(
                old(self),
                Node { rule: Rule::StreamSwitch { outer: cell.node_id() }, value: 0, pending: None },
            ),
            r.id == old(self).nodes().len(),
    {
        let outer = cell.id();
        self.add_stream(Rule::StreamSwitch { outer }, 0)
    }

    /// The committed value of a cell: the one before the current transaction
    /// while it runs, and the new one after it.
    pub fn sample<C: CellTrait>(&self, cell: &C) -> (r: i64)
        requires
            self.is_cell_id(cell.node_id()),
        ensures
            r == self.nodes()[cell.node_id() as int].value,
    {
        self.value_of(cell.id())
    }

    fn depends_on(&self, id: usize) -> (r: bool)
        requires
            table_wf(self.nodes()),
            id < self.nodes().len(),
        ensures
            r == has_dependents(self.nodes(), self.listeners(), id),
    {
        if let Rule::CellLoop { def: Some(_) } = self.nodes[id].rule {
            return true;
        }
        let mut v: usize = 0;
        while v < self.nodes.len()
            invariant
                v <= self.nodes@.len(),
                table_wf(self.nodes@),
                forall|u: int| 0 <= u < v ==> !(names_node((#[trigger] self.nodes@[u]).rule, id) || selects_node(self.nodes@, u, id)),
            decreases self.nodes@.len() - v,
        {
            let nd = self.nodes[v];
            if names_node_at(&nd.rule, id) {
                return true;
            }
            proof { assert(rule_wf(self.nodes@, v)); }
            match nd.rule {
                Rule::StreamSwitch { outer } | Rule::CellSwitch { outer } => {
                    let x = self.nodes[outer].value;
                    if x >= 0 && (x as u64) == (id as u64) {
                        return true;
                    }
                },
                _ => {},
            }
            v += 1;
        }
        let mut l: usize = 0;
        while l < self.listeners.len()
            invariant
                l <= self.listeners@.len(),
                forall|u: int| 0 <= u < self.nodes@.len() ==> !(names_node((#[trigger] self.nodes@[u]).rule, id) || selects_node(self.nodes@, u, id)),
                forall|k: int| 0 <= k < l ==> !((#[trigger] self.listeners@[k]).active && self.listeners@[k].node == id),
            decreases self.listeners@.len() - l,
        {
            let ls = self.listeners[l];
            if ls.active && ls.node == id {
                return true;
            }
            l += 1;
        }
        false
    }

    /// Removes the node `id` from the graph. It fails when no such node
    /// exists, or when another node reads or follows it, or a listener
    /// observes it. The id is not reused.
    pub fn drop_node(&mut self, id: usize) -> (r: Result<(), FrpError>)
        requires
            old(self).wf(),
        ensures
            final(self).wf(),
            final(self).born() == old(self).born(),
            final(self).epoch() == old(self).epoch(),
            r == if id >= old(self).nodes().len() || old(self).nodes()[id as int].rule is Dropped {
                Err::<(), FrpError>(FrpError::InvalidNode)
            } else if has_dependents(old(self).nodes(), old(self).listeners(), id) {
                Err(FrpError::HasDependents)
            } else {
                Ok(())
            },
            r is Ok ==> final(self).nodes() == old(self).nodes().update(
                id as int,
                Node { rule: Rule::Dropped, value: 0, pending: None },
            ),
            r is Err ==> final(self).nodes() == old(self).nodes(),
            final(self).listeners() == old(self).listeners(),
            final(self).queue() == old(self).queue(),
            final(self).depth() == old(self).depth(),
            final(self).failure() == old(self).failure(),
    {
        if id >= self.nodes.len() {
            return Err(FrpError::InvalidNode);
        }
        if let Rule::Dropped = self.nodes[id].rule {
            return Err(FrpError::InvalidNode);
        }
        if self.depends_on(id) {
            return Err(FrpError::HasDependents);
        }
        let ghost ns0 = self.nodes@;
        self.nodes.set(id, Node { rule: Rule::Dropped, value: 0, pending: None });
        proof {
            let ns = self.nodes@;
            assert forall|v: usize| v < ns.len() implies #[trigger] rule_wf(ns, v) by {
                if v != id {
                    assert(rule_wf(ns0, v));
                    assert(!names_node(ns0[v as int].rule, id));
                    assert(ns[v as int] == ns0[v as int]);
                }
            }
            assert forall|v: usize| v < ns.len() implies reads_staged_loop(ns, v) || #[trigger] consistent_at(ns, v) by {
                if v != id {
                    assert(rule_wf(ns0, v));
                    assert(!names_node(ns0[v as int].rule, id));
                    assert(ns[v as int] == ns0[v as int]);
                    if defines_loop(ns0, v) {
                        let u = choose|u: usize| u < ns0.len() && (#[trigger] ns0[u as int]).rule == (Rule::CellLoop { def: Some(v) });
                        assert(u != id);
                        assert(ns[u as int] == ns0[u as int]);
                    }
                    match ns0[v as int].rule {
                        Rule::CellMap { .. } | Rule::CellLift2 { .. } | Rule::CellLift3 { .. } | Rule::CellLift4 { .. } => {
                            assert(deps(ns, v) =~= deps(ns0, v));
                            lemma_keep_staged(ns0, ns, v);
                        },
                        _ => {},
                    }
                }
            }
            assert(derived_quiet(ns));
            assert(self.depth == 0 ==> forall|v: int|
                0 <= v < ns.len() && (#[trigger] ns[v]).pending is Some ==> stages_later(ns[v].rule));
        }
        Ok(())
    }

    /// Opens a transaction, or a nested one inside it.
    pub fn begin_transaction(&mut self)
        requires
            old(self).wf(),
            old(self).depth() < u64::MAX,
        ensures
            final(self).wf(),
            final(self).born() == old(self).born(),
            final(self).epoch() == if old(self).depth() == 0 { old(self).epoch().wrapping_add(1) } else { old(self).epoch() },
            final(self).depth() == old(self).depth() + 1,
            final(self).nodes() == old(self).nodes(),
            final(self).listeners() == old(self).listeners(),
            final(self).queue() == old(self).queue(),
            final(self).failure() == old(self).failure(),
    {
        if self.depth == 0 {
            self.epoch = self.epoch.wrapping_add(1);
        }
        self.depth = self.depth + 1;
    }

    fn open_loop(&self) -> (r: bool)
        ensures
            r == has_open_loop(self.nodes()),
    {
        let mut v: usize = 0;
        while v < self.nodes.len()
            invariant
                v <= self.nodes@.len(),
                forall|u: int| 0 <= u < v ==> !((#[trigger] self.nodes@[u]).rule matches Rule::CellLoop { def: None }),
            decreases self.nodes@.len() - v,
        {
            if let Rule::CellLoop { def: None } = self.nodes[v].rule {
                return true;
            }
            v += 1;
        }
        false
    }

    /// Closes a transaction. Closing the outermost one commits it: every
    /// node that the staged inputs reach is recomputed once, in topological
    /// order; then values are committed and deliveries queued. A transaction
    /// that raised an error, or left a loop open, is dropped instead: its
    /// staged inputs are discarded and nothing is delivered.
    pub fn end_transaction(&mut self) -> (r: Result<(), FrpError>)
        requires
            old(self).wf(),
            old(self).depth() > 0,
        ensures
            final(self).wf(),
            final(self).born() == old(self).born(),
            final(self).epoch() == old(self).epoch(),
            final(self).depth() == 0 ==> final(self).failure() is None,
            final(self).depth() == old(self).depth() - 1,
            final(self).listeners() == old(self).listeners(),
            old(self).depth() > 1 ==> {
                &&& r is Ok
                &&& final(self).nodes() == old(self).nodes()
                &&& final(self).queue() == old(self).queue()
                &&& final(self).failure() == old(self).failure()
            },
            old(self).depth() == 1 ==> {
                &&& r == commit_outcome(old(self).nodes(), old(self).failure())
                &&& r is Ok ==> final(self).committed_from(old(self).nodes(), old(self).queue())
                &&& r is Err ==> final(self).nodes() == discard_all(old(self).nodes())
                    && final(self).queue() == old(self).queue()
            },
    {
        self.depth = self.depth - 1;
        if self.depth > 0 {
            return Ok(());
        }
        let outcome = match self.failure {
            Some(e) => Err(e),
            None => if self.open_loop() {
                Err(FrpError::LoopNotClosed)
            } else {
                Ok(())
            },
        };
        if outcome.is_err() {
            let ghost ns0 = self.nodes@;
            discard_slots(&mut self.nodes);
            self.failure = None;
            proof {
                let ns = self.nodes@;
                assert(same_but_slots(ns0, ns));
                assert forall|v: usize| v < ns.len() implies reads_staged_loop(ns, v) || #[trigger] consistent_at(ns, v) by {
                    assert(rule_wf(ns0, v));
                    lemma_deps_same(ns0, ns, v);
                    if defines_loop(ns0, v) {
                        let u = choose|u: usize| u < ns0.len() && (#[trigger] ns0[u as int]).rule == (Rule::CellLoop { def: Some(v) });
                        assert(ns[u as int].rule == ns0[u as int].rule);
                    }
                    lemma_deps_before(ns0, v);
                    lemma_keep_staged(ns0, ns, v);
                }
                assert forall|v: int| 0 <= v < ns.len() && (#[trigger] ns[v]).pending is Some implies stages_later(ns[v].rule) by {}
            }
            return outcome;
        }
        let ghost ns0 = self.nodes@;
        let ghost q0 = self.queue@;
        let n = self.nodes.len();
        let (order, Ghost(p0), lv) = commit_round(&mut self.nodes, &self.listeners, &mut self.queue);
        self.recomputed = order;
        self.recomputed_layers = lv;
        let ps = run_deferred(&mut self.nodes, &self.listeners, &mut self.queue, Ghost(ns0), Ghost(q0), Ghost(p0));
        self.passes = ps;
        proof {
            reveal(rounds_end);
            lemma_round_staged_only_deferred(ps@.last());
            if !may_stage_next(ns0) {
                reveal(rounds_emissions);
                reveal(rounds_ok);
                assert(ps@.drop_last() =~= Seq::<Seq<Node>>::empty());
                assert(rounds_emissions(ps@.drop_last(), self.listeners@) == Seq::<Delivery>::empty());
                assert(rounds_emissions(ps@, self.listeners@) =~= round_emissions(ps@[0], self.listeners@));
                let p = ps@[0];
                assert forall|c: usize| c < ns0.len() && is_cell(ns0[c as int].rule) && !affected(ns0, c)
                    implies (#[trigger] self.nodes@[c as int]).value == ns0[c as int].value by {
                    lemma_unreached_cell_unchanged(ns0, p, c);
                    assert(after_round(p)[c as int].value == commit_all(p)[c as int].value);
                }
                let nl = self.listeners.len();
                lemma_one_delivery_per_node(p, self.listeners@, p.len());
                let e = round_emissions(p, self.listeners@);
                let q = self.queue@;
                assert forall|i: int, j: int| q0.len() <= i < j < q.len() implies !((#[trigger] q[i]).listener
                    == (#[trigger] q[j]).listener && q[i].node == q[j].node) by {
                    assert(q[i] == e[i - q0.len()]);
                    assert(q[j] == e[j - q0.len()]);
                }
            }
        }
        Ok(())
    }

    /// Puts `p` in the slot of the sink `id`, inside a transaction.
    fn set_slot(&mut self, id: usize, p: Option<i64>)
        requires
            old(self).wf(),
            old(self).depth() > 0,
            id < old(self).nodes().len(),
            is_sink(old(self).nodes()[id as int].rule),
        ensures
            final(self).wf(),
            final(self).born() == old(self).born(),
            final(self).epoch() == old(self).epoch(),
            final(self).nodes() == old(self).nodes().update(
                id as int,
                Node { pending: p, ..old(self).nodes()[id as int] },
            ),
            final(self).listeners() == old(self).listeners(),
            final(self).queue() == old(self).queue(),
            final(self).depth() == old(self).depth(),
            final(self).failure() == old(self).failure(),
    {
        let ghost ns0 = self.nodes@;
        let nd = self.nodes[id];
        self.nodes.set(id, Node { pending: p, ..nd });
        proof {
            let ns = self.nodes@;
            assert(same_but_slots(ns0, ns));
            assert forall|v: usize| v < ns.len() implies #[trigger] rule_wf(ns, v) by {
                assert(rule_wf(ns0, v));
                lemma_deps_same(ns0, ns, v);
            }
            assert forall|v: usize| v < ns.len() implies reads_staged_loop(ns, v) || #[trigger] consistent_at(ns, v) by {
                assert(rule_wf(ns0, v));
                lemma_deps_same(ns0, ns, v);
                if defines_loop(ns0, v) {
                    let u = choose|u: usize| u < ns0.len() && (#[trigger] ns0[u as int]).rule == (Rule::CellLoop { def: Some(v) });
                    assert(ns[u as int].rule == ns0[u as int].rule);
                }
                lemma_deps_before(ns0, v);
                lemma_keep_staged(ns0, ns, v);
            }
        }
    }

    /// Stages a firing of `sink` inside a transaction.
    fn stage_send(&mut self, sink: &StreamSink, x: i64) -> (r: Result<(), FrpError>)
        requires
            old(self).wf(),
            old(self).depth() > 0,
            old(self).nodes().len() > sink.id,
            old(self).nodes()[sink.id as int].rule is StreamSink,
        ensures
            final(self).wf(),
            final(self).born() == old(self).born(),
            final(self).epoch() == old(self).epoch(),
            final(self).nodes() == old(self).nodes().update(
                sink.id as int,
                Node {
                    pending: stage_send(old(self).nodes()[sink.id as int], x),
                    ..old(self).nodes()[sink.id as int]
                },
            ),
            final(self).failure() == if send_collides(old(self).nodes()[sink.id as int]) {
                Some(FrpError::NoCoalescerForSimultaneous)
            } else {
                old(self).failure()
            },
            r == if send_collides(old(self).nodes()[sink.id as int]) {
                Err::<(), FrpError>(FrpError::NoCoalescerForSimultaneous)
            } else {
                Ok(())
            },
            final(self).listeners() == old(self).listeners(),
            final(self).queue() == old(self).queue(),
            final(self).depth() == old(self).depth(),
    {
        let nd = self.nodes[sink.id];
        match nd.pending {
            None => {
                self.set_slot(sink.id, Some(x));
                Ok(())
            },
            Some(p) => match nd.rule {
                Rule::StreamSink { coalescer: Some(f) } => {
                    let c = f.apply(p, x);
                    self.set_slot(sink.id, Some(c));
                    Ok(())
                },
                _ => {
                    self.set_slot(sink.id, Some(p));
                    self.failure = Some(FrpError::NoCoalescerForSimultaneous);
                    Err(FrpError::NoCoalescerForSimultaneous)
                },
            },
        }
    }

    /// Sends `x` on `sink`. Inside a transaction the firing is staged (and
    /// combined with an earlier one by the sink's combiner); outside, the
    /// send is a transaction of its own, committed at once.
    pub fn send(&mut self, sink: &StreamSink, x: i64) -> (r: Result<(), FrpError>)
        requires
            old(self).wf(),
            old(self).depth() < u64::MAX,
            old(self).nodes().len() > sink.id,
            old(self).nodes()[sink.id as int].rule is StreamSink,
        ensures
            final(self).wf(),
            final(self).born() == old(self).born(),
            final(self).epoch() == if old(self).depth() == 0 { old(self).epoch().wrapping_add(1) } else { old(self).epoch() },
            final(self).depth() == 0 ==> final(self).failure() is None,
            final(self).listeners() == old(self).listeners(),
            final(self).depth() == old(self).depth(),
            old(self).depth() > 0 ==> {
                &&& final(self).nodes() == old(self).nodes().update(
                    sink.id as int,
                    Node {
                        pending: stage_send(old(self).nodes()[sink.id as int], x),
                        ..old(self).nodes()[sink.id as int]
                    },
                )
                &&& final(self).failure() == if send_collides(old(self).nodes()[sink.id as int]) {
                    Some(FrpError::NoCoalescerForSimultaneous)
                } else {
                    old(self).failure()
                }
                &&& r == if send_collides(old(self).nodes()[sink.id as int]) {
                    Err::<(), FrpError>(FrpError::NoCoalescerForSimultaneous)
                } else {
                    Ok(())
                }
                &&& final(self).queue() == old(self).queue()
            },
            old(self).depth() == 0 ==> {
                let staged = old(self).nodes().update(
                    sink.id as int,
                    Node { pending: Some(x), ..old(self).nodes()[sink.id as int] },
                );
                &&& r == commit_outcome(staged, None)
                &&& r is Ok ==> final(self).committed_from(staged, old(self).queue())
                &&& r is Err ==> final(self).nodes() == discard_all(staged) && final(self).queue()
                    == old(self).queue()
            },
    {
        if self.depth > 0 {
            self.stage_send(sink, x)
        } else {
            self.begin_transaction();
            let _ = self.stage_send(sink, x);
            self.end_transaction()
        }
    }

    /// Sets the next value of `sink` inside a transaction.
    fn stage_change(&mut self, sink: &CellSink, x: i64)
        requires
            old(self).wf(),
            old(self).depth() > 0,
            old(self).nodes().len() > sink.id,
            old(self).nodes()[sink.id as int].rule is CellSink,
        ensures
            final(self).wf(),
            final(self).born() == old(self).born(),
            final(self).epoch() == old(self).epoch(),
            final(self).nodes() == old(self).nodes().update(
                sink.id as int,
                Node { pending: Some(x), ..old(self).nodes()[sink.id as int] },
            ),
            final(self).failure() == old(self).failure(),
            final(self).listeners() == old(self).listeners(),
            final(self).queue() == old(self).queue(),
            final(self).depth() == old(self).depth(),
    {
        self.set_slot(sink.id, Some(x));
    }

    /// Runs `body` as one transaction: all its inputs appear together to
    /// listeners. Inside an open transaction it only stages them.
    pub fn transaction(&mut self, body: &Vec<Action>) -> (r: Result<(), FrpError>)
        requires
            old(self).wf(),
            old(self).depth() < u64::MAX,
            forall|i: int| 0 <= i < body@.len() ==> old(self).action_ok(#[trigger] body@[i]),
        ensures
            final(self).wf(),
            final(self).born() == old(self).born(),
            final(self).epoch() == if old(self).depth() == 0 { old(self).epoch().wrapping_add(1) } else { old(self).epoch() },
            final(self).depth() == 0 ==> final(self).failure() is None,
            final(self).listeners() == old(self).listeners(),
            final(self).depth() == old(self).depth(),
            ({
                let (staged, failure) = stage_actions(old(self).nodes(), old(self).failure(), body@);
                &&& old(self).depth() > 0 ==> {
                    &&& r is Ok
                    &&& final(self).nodes() == staged
                    &&& final(self).failure() == failure
                    &&& final(self).queue() == old(self).queue()
                }
                &&& old(self).depth() == 0 ==> {
                    &&& r == commit_outcome(staged, failure)
                    &&& r is Ok ==> final(self).committed_from(staged, old(self).queue())
                    &&& r is Err ==> final(self).nodes() == discard_all(staged) && final(self).queue()
                        == old(self).queue()
                }
            }),
    {
        self.begin_transaction();
        let ghost e1 = self.epoch();
        let mut i: usize = 0;
        while i < body.len()
            invariant
                self.wf(),
                self.depth() == old(self).depth() + 1,
                self.listeners() == old(self).listeners(),
                self.born() == old(self).born(),
                self.epoch() == e1,
                self.queue() == old(self).queue(),
                self.nodes().len() == old(self).nodes().len(),
                forall|v: int| 0 <= v < self.nodes().len() ==> (#[trigger] self.nodes()[v]).rule == old(self).nodes()[v].rule,
                i <= body@.len(),
                forall|k: int| 0 <= k < body@.len() ==> old(self).action_ok(#[trigger] body@[k]),
                (self.nodes(), self.failure()) == stage_actions(old(self).nodes(), old(self).failure(), body@.subrange(0, i as int)),
            decreases body@.len() - i,
        {
            let a = body[i];
            proof {
                assert(old(self).action_ok(body@[i as int]));
            }
            match a {
                Action::Send(s, x) => {
                    let _ = self.stage_send(&s, x);
                },
                Action::Change(c, x) => {
                    self.stage_change(&c, x);
                },
            }
            proof {
                assert(body@.subrange(0, i + 1).drop_last() =~= body@.subrange(0, i as int));
            }
            i += 1;
        }
        proof {
            assert(body@.subrange(0, body@.len() as int) =~= body@);
        }
        if self.depth > 1 {
            self.depth = self.depth - 1;
            Ok(())
        } else {
            self.end_transaction()
        }
    }

    pub open spec fn action_ok(&self, a: Action) -> bool {
        match a {
            Action::Send(s, _) => s.id < self.nodes().len() && self.nodes()[s.id as int].rule is StreamSink,
            Action::Change(c, _) => c.id < self.nodes().len() && self.nodes()[c.id as int].rule is CellSink,
        }
    }

    /// Registers a listener of a cell. The cell's current value is delivered
    /// to it at once; later changes after their transactions commit.
    pub fn listen_cell<C: CellTrait>(&mut self, cell: &C) -> (r: usize)
        requires
            old(self).wf(),
            old(self).is_cell_id(cell.node_id()),
            old(self).listeners().len() < usize::MAX,
        ensures
            final(self).wf(),
            final(self).born() == old(self).born(),
            final(self).epoch() == old(self).epoch(),
            r == old(self).listeners().len(),
            final(self).listeners() == old(self).listeners().push(
                Listener { node: cell.node_id(), active: true },
            ),
            final(self).queue() == old(self).queue().push(
                Delivery {
                    listener: r,
                    node: cell.node_id(),
                    value: old(self).nodes()[cell.node_id() as int].value,
                },
            ),
            final(self).nodes() == old(self).nodes(),
            final(self).depth() == old(self).depth(),
            final(self).failure() == old(self).failure(),
    {
        let id = cell.id();
        let l = self.listeners.len();
        self.listeners.push(Listener { node: id, active: true });
        let value = self.nodes[id].value;
        self.queue.push(Delivery { listener: l, node: id, value });
        l
    }

    /// Registers a listener of a stream: it receives the firings of later
    /// transactions, once each transaction commits.
    pub fn listen_stream<S: StreamTrait>(&mut self, stream: &S) -> (r: usize)
        requires
            old(self).wf(),
            old(self).is_stream_id(stream.node_id()),
            old(self).listeners().len() < usize::MAX,
        ensures
            final(self).wf(),
            final(self).born() == old(self).born(),
            final(self).epoch() == old(self).epoch(),
            r == old(self).listeners().len(),
            final(self).listeners() == old(self).listeners().push(
                Listener { node: stream.node_id(), active: true },
            ),
            final(self).queue() == old(self).queue(),
            final(self).nodes() == old(self).nodes(),
            final(self).depth() == old(self).depth(),
            final(self).failure() == old(self).failure(),
    {
        let id = stream.id();
        let l = self.listeners.len();
        self.listeners.push(Listener { node: id, active: true });
        l
    }

    /// Stops the listener `l`; calling it again, or on an unknown id, does
    /// nothing.
    pub fn unlisten(&mut self, l: usize)
        requires
            old(self).wf(),
        ensures
            final(self).wf(),
            final(self).born() == old(self).born(),
            final(self).epoch() == old(self).epoch(),
            final(self).listeners() == if l < old(self).listeners().len() {
                old(self).listeners().update(l as int, Listener { active: false, ..old(self).listeners()[l as int] })
            } else {
                old(self).listeners()
            },
            final(self).queue() == old(self).queue(),
            final(self).nodes() == old(self).nodes(),
            final(self).depth() == old(self).depth(),
            final(self).failure() == old(self).failure(),
    {
        if l < self.listeners.len() {
            let ls = self.listeners[l];
            self.listeners.set(l, Listener { active: false, ..ls });
        }
    }

    /// Hands out the queued deliveries, oldest first, and empties the queue.
    pub fn take_deliveries(&mut self) -> (r: Vec<Delivery>)
        requires
            old(self).wf(),
        ensures
            final(self).wf(),
            final(self).born() == old(self).born(),
            final(self).epoch() == old(self).epoch(),
            r@ == old(self).queue(),
            final(self).passes() == old(self).passes(),
            final(self).recomputed_view() == old(self).recomputed_view(),
            final(self).recomputed_layers() == old(self).recomputed_layers(),
            final(self).queue() == Seq::<Delivery>::empty(),
            final(self).listeners() == old(self).listeners(),
            final(self).nodes() == old(self).nodes(),
            final(self).depth() == old(self).depth(),
            final(self).failure() == old(self).failure(),
    {
        let mut out: Vec<Delivery> = Vec::new();
        std::mem::swap(&mut out, &mut self.queue);
        out
    }

    /// The nodes that the last commit recomputed, in the order it did so.
    pub fn recomputed(&self) -> (r: Vec<usize>)
        ensures
            r@ == self.recomputed_view(),
    {
        let mut out: Vec<usize> = Vec::new();
        let mut i: usize = 0;
        while i < self.recomputed.len()
            invariant
                i <= self.recomputed@.len(),
                out@ == self.recomputed@.subrange(0, i as int),
            decreases self.recomputed@.len() - i,
        {
            out.push(self.recomputed[i]);
            proof {
                assert(out@ =~= self.recomputed@.subrange(0, i + 1));
            }
            i += 1;
        }
        proof {
            assert(out@ =~= self.recomputed@);
        }
        out
    }

    /// Gives the loop `lp` its definition `def`, inside a transaction. The
    /// loop takes `def`'s value at once, and the nodes that read it are
    /// recomputed when the transaction commits.
    fn stage_close(&mut self, lp: &Cell, d: usize)
        requires
            old(self).wf(),
            old(self).depth() > 0,
            old(self).nodes().len() > lp.id,
            old(self).nodes()[lp.id as int].rule == (Rule::CellLoop { def: None }),
            old(self).is_cell_id(d),
        ensures
            final(self).wf(),
            final(self).born() == old(self).born(),
            final(self).epoch() == old(self).epoch(),
            final(self).nodes() == old(self).closed_loop(lp.id, d),
            final(self).failure() == old(self).failure(),
            final(self).listeners() == old(self).listeners(),
            final(self).queue() == old(self).queue(),
            final(self).depth() == old(self).depth(),
    {
        let ghost ns0 = self.nodes@;
        let x = read_new_at(&self.nodes, d);
        self.nodes.set(lp.id, Node { rule: Rule::CellLoop { def: Some(d) }, value: x, pending: Some(x) });
        proof {
            let ns = self.nodes@;
            assert forall|u: usize| u < ns.len() implies #[trigger] is_cell(ns[u as int].rule) == is_cell(ns0[u as int].rule)
                && is_loop(ns[u as int].rule) == is_loop(ns0[u as int].rule) by {}
            assert forall|v: usize| v < ns.len() implies #[trigger] rule_wf(ns, v) by {
                assert(rule_wf(ns0, v));
            }
            assert forall|v: usize| v < ns.len() implies reads_staged_loop(ns, v) || #[trigger] consistent_at(ns, v) by {
                assert(rule_wf(ns0, v));
                lemma_deps_before(ns0, v);
                if defines_loop(ns0, v) {
                    let u = choose|u: usize| u < ns0.len() && (#[trigger] ns0[u as int]).rule == (Rule::CellLoop { def: Some(v) });
                    assert(u != lp.id);
                    assert(ns[u as int] == ns0[u as int]);
                }
                match ns0[v as int].rule {
                    Rule::CellMap { .. } | Rule::CellLift2 { .. } | Rule::CellLift3 { .. } | Rule::CellLift4 { .. } => {
                        assert(deps(ns, v) =~= deps(ns0, v));
                        if deps(ns0, v).contains(lp.id) {
                            let i = choose|i: int| 0 <= i < deps(ns0, v).len() && deps(ns0, v)[i] == lp.id;
                            assert(ns[deps(ns, v)[i] as int].pending is Some);
                            assert(reads_staged_loop(ns, v));
                        } else {
                            lemma_keep_staged(ns0, ns, v);
                        }
                    },
                    _ => {},
                }
            }
        }
    }

    /// The table once the loop `lp` is closed by `d`.
    pub open spec fn closed_loop(&self, lp: usize, d: usize) -> Seq<Node> {
        let x = read_new(self.nodes(), d);
        self.nodes().update(
            lp as int,
            Node { rule: Rule::CellLoop { def: Some(d) }, value: x, pending: Some(x) },
        )
    }

    /// Closes the loop `lp` with its definition `def`. This must happen in
    /// the transaction that created the loop; a loop closes once.
    pub fn close_loop<C: CellTrait>(&mut self, lp: &Cell, def: &C) -> (r: Result<(), FrpError>)
        requires
            old(self).wf(),
            old(self).nodes().len() > lp.id,
            old(self).nodes()[lp.id as int].rule is CellLoop,
            old(self).is_cell_id(def.node_id()),
        ensures
            final(self).wf(),
            final(self).born() == old(self).born(),
            final(self).epoch() == old(self).epoch(),
            final(self).listeners() == old(self).listeners(),
            final(self).depth() == old(self).depth(),
            final(self).queue() == old(self).queue(),
            final(self).failure() == old(self).failure(),
            r == if old(self).nodes()[lp.id as int].rule != (Rule::CellLoop { def: None }) {
                Err::<(), FrpError>(FrpError::LoopAlreadyClosed)
            } else if old(self).depth() == 0 || old(self).born()[lp.id as int] != old(self).epoch() {
                Err(FrpError::LoopNotClosed)
            } else {
                Ok(())
            },
            r is Ok ==> final(self).nodes() == old(self).closed_loop(lp.id, def.node_id()),
            r is Err ==> final(self).nodes() == old(self).nodes(),
    {
        let d = def.id();
        if let Rule::CellLoop { def: Some(_) } = self.nodes[lp.id].rule {
            return Err(FrpError::LoopAlreadyClosed);
        }
        if self.depth == 0 || self.born[lp.id] != self.epoch {
            return Err(FrpError::LoopNotClosed);
        }
        self.stage_close(lp, d);
        Ok(())
    }
}

/// What a well-formed context guarantees its callers: outside a transaction
/// no error is pending and only deferred streams and closed loops hold a
/// slot; every node is
/// well formed; derived cells hold their rule's value; every listener
/// observes an existing node.
pub proof fn lemma_wf_facts(ctx: &FrpContext)
    requires
        ctx.wf(),
    ensures
        ctx.depth() == 0 ==> ctx.failure() is None,
        ctx.depth() == 0 ==> forall|v: int|
            0 <= v < ctx.nodes().len() && (#[trigger] ctx.nodes()[v]).pending is Some
                ==> stages_later(ctx.nodes()[v].rule),
        table_wf(ctx.nodes()),
        derived_quiet(ctx.nodes()),
        consistent_staged(ctx.nodes()),
        forall|l: int| 0 <= l < ctx.listeners().len() ==> (#[trigger] ctx.listeners()[l]).node < ctx.nodes().len(),
{
}

/// A node that was consistent, or read a staged loop, still is, when what it
/// reads keeps its value and rule and no staged loop loses its slot.
proof fn lemma_keep_staged(ns0: Seq<Node>, ns: Seq<Node>, v: usize)
    requires
        v < ns0.len(),
        v < ns.len(),
        rule_wf(ns0, v),
        reads_staged_loop(ns0, v) || consistent_at(ns0, v),
        deps(ns, v) == deps(ns0, v),
        ns[v as int].rule == ns0[v as int].rule,
        ns[v as int].value == ns0[v as int].value,
        forall|i: int| 0 <= i < deps(ns0, v).len() ==> {
            &&& ns[#[trigger] deps(ns0, v)[i] as int].value == ns0[deps(ns0, v)[i] as int].value
            &&& ns[deps(ns0, v)[i] as int].rule == ns0[deps(ns0, v)[i] as int].rule
            &&& is_closed_loop(ns0[deps(ns0, v)[i] as int].rule) && ns0[deps(ns0, v)[i] as int].pending is Some
                ==> ns[deps(ns0, v)[i] as int].pending is Some
        },
        defines_loop(ns0, v) ==> defines_loop(ns, v),
    ensures
        reads_staged_loop(ns, v) || consistent_at(ns, v),
{
    if reads_staged_loop(ns0, v) {
        let ds = deps(ns0, v);
        let i = choose|i: int|
            0 <= i < ds.len() && is_closed_loop(ns0[ds[i] as int].rule) && (#[trigger] ns0[ds[i] as int]).pending is Some;
        assert(ns[deps(ns, v)[i] as int].pending is Some);
    } else {
        lemma_consistent_at_frame(ns0, ns, v);
    }
}

/// Appending a node keeps the earlier nodes well formed.
proof fn lemma_rule_wf_push(ns0: Seq<Node>, nd: Node, v: usize)
    requires
        v < ns0.len(),
        rule_wf(ns0, v),
    ensures
        rule_wf(ns0.push(nd), v),
{
    let ns = ns0.push(nd);
    assert(ns[v as int] == ns0[v as int]);
    assert(forall|u: usize| u < ns0.len() ==> ns[u as int] == ns0[u as int]);
}

} // verus!

verus! {

impl CellSink {
    /// Sets the value of the cell. Inside a transaction the new value is
    /// staged (the last one wins); outside, the change is a transaction of
    /// its own, committed at once.
    pub fn change_value(&self, ctx: &mut FrpContext, value: i64) -> (r: Result<(), FrpError>)
        requires
            old(ctx).wf(),
            old(ctx).depth() < u64::MAX,
            old(ctx).nodes().len() > self.id,
            old(ctx).nodes()[self.id as int].rule is CellSink,
        ensures
            final(ctx).wf(),
            final(ctx).born() == old(ctx).born(),
            final(ctx).epoch() == if old(ctx).depth() == 0 { old(ctx).epoch().wrapping_add(1) } else { old(ctx).epoch() },
            final(ctx).depth() == 0 ==> final(ctx).failure() is None,
            final(ctx).listeners() == old(ctx).listeners(),
            final(ctx).depth() == old(ctx).depth(),
            ({
                let staged = old(ctx).nodes().update(
                    self.id as int,
                    Node { pending: Some(value), ..old(ctx).nodes()[self.id as int] },
                );
                &&& old(ctx).depth() > 0 ==> {
                    &&& r is Ok
                    &&& final(ctx).nodes() == staged
                    &&& final(ctx).queue() == old(ctx).queue()
                    &&& final(ctx).failure() == old(ctx).failure()
                }
                &&& old(ctx).depth() == 0 ==> {
                    &&& r == commit_outcome(staged, None)
                    &&& r is Ok ==> final(ctx).committed_from(staged, old(ctx).queue())
                    &&& r is Err ==> final(ctx).nodes() == discard_all(staged) && final(ctx).queue()
                        == old(ctx).queue()
                }
            }),
    {
        let acts = vec![Action::Change(*self, value)];
        proof {
            assert(acts@.drop_last() =~= Seq::<Action>::empty());
            assert(acts@.last() == Action::Change(*self, value));
            let e = stage_actions(ctx.nodes(), ctx.failure(), Seq::<Action>::empty());
            assert(e == (ctx.nodes(), ctx.failure()));
            assert(stage_actions(ctx.nodes(), ctx.failure(), acts@) == (
                ctx.nodes().update(self.id as int, Node { pending: Some(value), ..ctx.nodes()[self.id as int] }),
                ctx.failure(),
            ));
            assert(ctx.depth() == 0 ==> ctx.failure() is None);
        }
        ctx.transaction(&acts)
    }
}

} // verus!
