//! Walks through a list of undirected links, and the distance between two
//! handles that they define.

use vstd::prelude::*;

verus! {

/// A structural edge: its two end handles and its weight.
pub type Link = (int, int, u32);

/// The link joins `u` and `v`, in either direction.
pub open spec fn joins(link: Link, u: int, v: int) -> bool {
    (link.0 == u && link.1 == v) || (link.0 == v && link.1 == u)
}

/// Some link joins `u` and `v`.
pub open spec fn linked(links: Seq<Link>, u: int, v: int) -> bool {
    exists|e: int| 0 <= e < links.len() && joins(#[trigger] links[e], u, v)
}

/// Some link touches `u`.
pub open spec fn touched(links: Seq<Link>, u: int) -> bool {
    exists|e: int| 0 <= e < links.len() && ((#[trigger] links[e]).0 == u || links[e].1 == u)
}

/// Every link has weight one.
pub open spec fn unit_weights(links: Seq<Link>) -> bool {
    forall|e: int| 0 <= e < links.len() ==> (#[trigger] links[e]).2 == 1
}

/// `path` lists the handles of a walk: it is not empty, and each handle is
/// linked to the next.
pub open spec fn is_walk(links: Seq<Link>, path: Seq<int>) -> bool {
    &&& path.len() >= 1
    &&& forall|i: int| 0 <= i < path.len() - 1 ==> linked(links, #[trigger] path[i], path[i + 1])
}

/// `path` is a walk that starts at `from` and ends at `to`.
pub open spec fn walk_between(links: Seq<Link>, path: Seq<int>, from: int, to: int) -> bool {
    &&& is_walk(links, path)
    &&& path[0] == from
    &&& path[path.len() - 1] == to
}

/// Some walk leads from `from` to `to`.
pub open spec fn reachable(links: Seq<Link>, from: int, to: int) -> bool {
    exists|path: Seq<int>| walk_between(links, path, from, to)
}

/// `hops` is the number of links of a shortest walk from `from` to `to`.
pub open spec fn distance_is(links: Seq<Link>, from: int, to: int, hops: int) -> bool {
    &&& exists|path: Seq<int>| #[trigger] walk_between(links, path, from, to) && path.len() == hops + 1
    &&& forall|path: Seq<int>| #[trigger] walk_between(links, path, from, to) ==> path.len() >= hops + 1
}

/// A handle is at distance zero from itself.
pub proof fn lemma_distance_to_self(links: Seq<Link>, at: int)
    ensures
        distance_is(links, at, at, 0),
{
    let path = seq![at];
    assert(walk_between(links, path, at, at));
}

/// Two walks of least length are equally long: the distance is unique.
pub proof fn lemma_distance_unique(links: Seq<Link>, from: int, to: int, d1: int, d2: int)
    requires
        distance_is(links, from, to, d1),
        distance_is(links, from, to, d2),
    ensures
        d1 == d2,
{
}

/// A handle that no link touches reaches no other handle.
pub proof fn lemma_untouched_is_isolated(links: Seq<Link>, from: int, to: int)
    requires
        !touched(links, from),
        from != to,
    ensures
        !reachable(links, from, to),
{
    assert forall|path: Seq<int>| !walk_between(links, path, from, to) by {
        if walk_between(links, path, from, to) {
            assert(path.len() >= 2);
            assert(linked(links, path[0], path[1]));
            let e = choose|e: int| 0 <= e < links.len() && joins(#[trigger] links[e], path[0], path[1]);
            assert(links[e].0 == from || links[e].1 == from);
        }
    }
}

} // verus!
