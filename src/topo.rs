//! The outside topological sorter that orders the recompute pass.
use vstd::prelude::*;
use topological_sort::TopologicalSort;

verus! {

#[verifier::external_type_specification]
#[verifier::external_body]
#[verifier::reject_recursive_types(T)]
pub struct ExTopologicalSort<T>(TopologicalSort<T>);

/// The items that are still in the sort.
pub uninterp spec fn ts_items(ts: TopologicalSort<usize>) -> Set<usize>;

/// The dependency links `(prec, succ)` whose `prec` is still in the sort.
pub uninterp spec fn ts_links(ts: TopologicalSort<usize>) -> Set<(usize, usize)>;

/// Relies on `TopologicalSort::new`: the sort starts with no item and no link.
#[verifier::external_body]
pub(crate) fn ts_new() -> (ts: TopologicalSort<usize>)
    ensures
        ts_items(ts) == Set::<usize>::empty(),
        ts_links(ts) == Set::<(usize, usize)>::empty(),
{
    TopologicalSort::new()
}

/// Relies on `TopologicalSort::insert`: the item is added, links are kept.
#[verifier::external_body]
pub(crate) fn ts_insert(ts: &mut TopologicalSort<usize>, x: usize)
    ensures
        ts_items(*final(ts)) == ts_items(*old(ts)).insert(x),
        ts_links(*final(ts)) == ts_links(*old(ts)),
{
    ts.insert(x);
}

/// Relies on `TopologicalSort::add_dependency`: both items are added, and the
/// link that makes `succ` wait for `prec`.
#[verifier::external_body]
pub(crate) fn ts_add_dependency(ts: &mut TopologicalSort<usize>, prec: usize, succ: usize)
    ensures
        ts_items(*final(ts)) == ts_items(*old(ts)).insert(prec).insert(succ),
        ts_links(*final(ts)) == ts_links(*old(ts)).insert((prec, succ)),
{
    ts.add_dependency(prec, succ);
}

/// Relies on `TopologicalSort::pop_batch`: it removes and returns, once each,
/// exactly the items that no link from a remaining item points to; the links
/// out of them go with them.
#[verifier::external_body]
pub(crate) fn ts_pop_batch(ts: &mut TopologicalSort<usize>) -> (r: Vec<usize>)
    ensures
        r@.no_duplicates(),
        forall|x: usize|
            #![trigger r@.contains(x)]
            r@.contains(x) <==> (ts_items(*old(ts)).contains(x) && forall|p: usize|
                !ts_links(*old(ts)).contains((p, x))),
        ts_items(*final(ts)) == ts_items(*old(ts)).difference(r@.to_set()),
        ts_links(*final(ts)) == ts_links(*old(ts)).filter(|l: (usize, usize)| !r@.contains(l.0)),
{
    ts.pop_batch::<Vec<usize>>()
}

} // verus!
