//! Listeners and the deliveries that a transaction queues for them.
use vstd::prelude::*;
use crate::node::Node;

verus! {

/// A registered observer of one node. Its id is its index in the table.
#[derive(Clone, Copy, Debug, PartialEq, Eq, Structural)]
pub struct Listener {
    pub node: usize,
    pub active: bool,
}

/// One value handed to one listener.
#[derive(Clone, Copy, Debug, PartialEq, Eq, Structural)]
pub struct Delivery {
    pub listener: usize,
    pub node: usize,
    pub value: i64,
}

/// The deliveries of `x` from the node `v` to the listeners `0..j`, in order
/// of registration.
pub open spec fn node_deliveries(ls: Seq<Listener>, j: nat, v: usize, x: i64) -> Seq<Delivery>
    decreases j,
{
    if j == 0 {
        seq![]
    } else {
        let prev = node_deliveries(ls, (j - 1) as nat, v, x);
        let l = ls[j - 1];
        if l.active && l.node == v {
            prev.push(Delivery { listener: (j - 1) as usize, node: v, value: x })
        } else {
            prev
        }
    }
}

/// The deliveries from the nodes `0..k` whose slot is filled: changed cells
/// and firing streams, in the order of creation, which is a topological one.
pub open spec fn emissions(ns: Seq<Node>, ls: Seq<Listener>, k: nat) -> Seq<Delivery>
    decreases k,
{
    if k == 0 {
        seq![]
    } else {
        let prev = emissions(ns, ls, (k - 1) as nat);
        match ns[k - 1].pending {
            Some(x) => prev + node_deliveries(ls, ls.len(), (k - 1) as usize, x),
            None => prev,
        }
    }
}

/// Appends to `out` the deliveries of `x` from `v` to its active listeners.
pub fn push_node_deliveries(ls: &Vec<Listener>, v: usize, x: i64, out: &mut Vec<Delivery>)
    ensures
        final(out)@ == old(out)@ + node_deliveries(ls@, ls@.len(), v, x),
{
    let ghost out0 = out@;
    let mut j: usize = 0;
    while j < ls.len()
        invariant
            j <= ls@.len(),
            out@ == out0 + node_deliveries(ls@, j as nat, v, x),
        decreases ls@.len() - j,
    {
        let l = ls[j];
        if l.active && l.node == v {
            out.push(Delivery { listener: j, node: v, value: x });
        }
        proof {
            assert(out@ =~= out0 + node_deliveries(ls@, (j + 1) as nat, v, x));
        }
        j += 1;
    }
}

/// Appends to `out` the deliveries of every filled slot.
pub fn push_emissions(ns: &Vec<Node>, ls: &Vec<Listener>, out: &mut Vec<Delivery>)
    ensures
        final(out)@ == old(out)@ + emissions(ns@, ls@, ns@.len()),
{
    let ghost out0 = out@;
    let mut v: usize = 0;
    while v < ns.len()
        invariant
            v <= ns@.len(),
            out@ == out0 + emissions(ns@, ls@, v as nat),
        decreases ns@.len() - v,
    {
        let ghost before = out@;
        match ns[v].pending {
            Some(x) => {
                push_node_deliveries(ls, v, x, out);
                proof {
                    assert(out@ =~= out0 + emissions(ns@, ls@, (v + 1) as nat));
                }
            },
            None => {},
        }
        v += 1;
    }
}

} // verus!
