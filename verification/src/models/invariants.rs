//! The mathematical view of a graph and what holds of every graph that the
//! library hands out.

use vstd::prelude::*;
use crate::models::records::{ConnectionView, EdgeKindRefView, EdgeKindView, MetadataView, NodeView, RefView, RuntimeRefView};
use crate::models::structure::CORE_LIMIT;
use crate::models::walks::{joins, lemma_untouched_is_isolated, reachable, touched, Link};

verus! {

/// A graph as the contracts see it.
pub struct GraphoView<T> {
    /// The graph's name.
    pub name: Seq<char>,
    /// The structural edges, each at the position of its handle.
    pub links: Seq<Link>,
    /// The node store, each node at the position of its handle.
    pub nodes: Seq<NodeView<T>>,
    /// The graph's own list of edge references.
    pub edges: Seq<RefView<usize>>,
    /// The catalogs.
    pub runtime_ref: RuntimeRefView,
    pub metadata: MetadataView,
    /// The relation kinds, in the order of their creation.
    pub edge_kinds: Seq<EdgeKindView>,
    /// The lookup cache from a node's name to its handle.
    pub index: Map<Seq<char>, usize>,
}

/// How many entries of the edge catalog carry the kind `kind`.
pub open spec fn tally(catalog: Seq<RefView<usize>>, kind: Seq<char>) -> nat
    decreases catalog.len(),
{
    if catalog.len() == 0 {
        0
    } else {
        tally(catalog.drop_last(), kind) + if catalog.last().name == kind {
            1nat
        } else {
            0nat
        }
    }
}

/// A catalog holds at most as many entries of a kind as it has entries.
pub proof fn lemma_tally_bound(catalog: Seq<RefView<usize>>, kind: Seq<char>)
    ensures
        tally(catalog, kind) <= catalog.len(),
    decreases catalog.len(),
{
    if catalog.len() > 0 {
        lemma_tally_bound(catalog.drop_last(), kind);
    }
}

/// One more entry counts for its own kind and for no other.
pub proof fn lemma_tally_push(catalog: Seq<RefView<usize>>, entry: RefView<usize>, kind: Seq<char>)
    ensures
        tally(catalog.push(entry), kind) == tally(catalog, kind) + if entry.name == kind {
            1nat
        } else {
            0nat
        },
{
    assert(catalog.push(entry).drop_last() =~= catalog);
}

impl<T> GraphoView<T> {
    /// `i` is the handle of a node.
    pub open spec fn handle(self, i: int) -> bool {
        0 <= i < self.nodes.len()
    }

    /// `k` is a position in the adjacency list of the node `i`.
    pub open spec fn entry(self, i: int, k: int) -> bool {
        self.handle(i) && 0 <= k < self.nodes[i].connections.len()
    }

    /// The adjacency entry at position `k` of node `i`.
    pub open spec fn at(self, i: int, k: int) -> ConnectionView {
        self.nodes[i].connections[k]
    }

    /// The relation kind of the structural edge `e`.
    pub open spec fn kind_of(self, e: int) -> Seq<char> {
        self.runtime_ref.edges[e].name
    }

    /// Node `a` lists a connection to node `b` under `kind`.
    pub open spec fn leads(self, a: int, b: int, kind: Seq<char>) -> bool {
        self.handle(a) && self.nodes[a].leads(b, kind)
    }

    /// One of the two nodes lists a connection to the other under `kind`.
    pub open spec fn connected(self, a: int, b: int, kind: Seq<char>) -> bool {
        self.leads(a, b, kind) || self.leads(b, a, kind)
    }

    /// The node `i` holds its own handle and its degree, and the lookup cache
    /// finds it by its name.
    pub open spec fn node_ok(self, i: int) -> bool {
        &&& self.nodes[i].node_index == i
        &&& self.nodes[i].energy == self.nodes[i].connections.len()
        &&& self.index.contains_key(self.nodes[i].name)
        &&& self.index[self.nodes[i].name] == i
    }

    /// The entry `c` refers to a node of the store by its handle, name and
    /// identifier.
    pub open spec fn entry_ok(self, c: ConnectionView) -> bool {
        &&& self.handle(c.node.index as int)
        &&& c.node.name == self.nodes[c.node.index as int].name
        &&& c.node.uuid == self.nodes[c.node.index as int].metadata.id
        &&& c.edge.index == c.edge.uuid
    }

    /// Some relation kind has the name and the identifier that `c` gives.
    pub open spec fn entry_kind_ok(self, c: ConnectionView) -> bool {
        exists|j: int|
            0 <= j < self.edge_kinds.len() && (#[trigger] self.edge_kinds[j]).name == c.edge.name
                && self.edge_kinds[j].metadata.id == c.edge.uuid
    }

    /// Some structural edge of the kind of `c` joins node `i` and the node
    /// that `c` leads to.
    pub open spec fn entry_backed(self, i: int, c: ConnectionView) -> bool {
        exists|e: int|
            0 <= e < self.links.len() && joins(#[trigger] self.links[e], i, c.node.index as int)
                && self.kind_of(e) == c.edge.name
    }

    /// The structural edge `e` joins two nodes of the store with weight one, is
    /// catalogued under its handle, and each of its ends lists the other under
    /// its kind.
    pub open spec fn link_ok(self, e: int) -> bool {
        &&& self.handle(self.links[e].0)
        &&& self.handle(self.links[e].1)
        &&& self.links[e].2 == 1
        &&& self.runtime_ref.edges[e].index == e
        &&& self.nodes[self.links[e].0].leads(self.links[e].1, self.kind_of(e))
        &&& self.nodes[self.links[e].1].leads(self.links[e].0, self.kind_of(e))
    }

    /// Some relation kind is named `kind`.
    pub open spec fn kind_known(self, kind: Seq<char>) -> bool {
        exists|j: int| 0 <= j < self.edge_kinds.len() && (#[trigger] self.edge_kinds[j]).name == kind
    }

    /// The node store: handles, degrees and the lookup cache agree.
    pub open spec fn store_ok(self) -> bool {
        &&& self.nodes.len() <= CORE_LIMIT
        &&& forall|i: int| 0 <= i < self.nodes.len() ==> #[trigger] self.node_ok(i)
        &&& forall|s: Seq<char>| #[trigger]
            self.index.contains_key(s) ==> self.index[s] < self.nodes.len() && self.nodes[self.index[s] as int].name
                == s
    }

    /// The adjacency lists: each entry refers to a node and to a kind, is
    /// backed by a structural edge, and stands once in its list.
    pub open spec fn entries_ok(self) -> bool {
        &&& forall|i: int, k: int| self.entry(i, k) ==> self.entry_ok(#[trigger] self.at(i, k))
        &&& forall|i: int, k: int| self.entry(i, k) ==> self.entry_kind_ok(#[trigger] self.at(i, k))
        &&& forall|i: int, k: int| self.entry(i, k) ==> self.entry_backed(i, #[trigger] self.at(i, k))
        &&& forall|i: int, k1: int, k2: int|
            self.entry(i, k1) && self.entry(i, k2) && k1 != k2 ==> !(#[trigger] self.at(i, k1)).leads(
                (#[trigger] self.at(i, k2)).node.index as int,
                self.at(i, k2).edge.name,
            )
    }

    /// The structural edges: one catalog entry each, both ends aware of it, and
    /// no two of one kind between the same two nodes.
    pub open spec fn links_ok(self) -> bool {
        &&& self.runtime_ref.edges.len() == self.links.len()
        &&& self.links.len() <= CORE_LIMIT
        &&& forall|e: int| 0 <= e < self.links.len() ==> #[trigger] self.link_ok(e)
        &&& forall|e1: int, e2: int|
            0 <= e1 < e2 < self.links.len() && joins(#[trigger] self.links[e1], (#[trigger] self.links[e2]).0, self.links[e2].1)
                ==> self.kind_of(e1) != self.kind_of(e2)
    }

    /// The relation kinds: names that differ, a usage counter that equals the
    /// number of structural edges of the kind, and catalog entries that name
    /// kinds.
    pub open spec fn kinds_ok(self) -> bool {
        &&& forall|j1: int, j2: int|
            0 <= j1 < j2 < self.edge_kinds.len() ==> (#[trigger] self.edge_kinds[j1]).name != (#[trigger] self.edge_kinds[j2]).name
        &&& forall|j: int|
            0 <= j < self.edge_kinds.len() ==> (#[trigger] self.edge_kinds[j]).energy == tally(
                self.runtime_ref.edges,
                self.edge_kinds[j].name,
            )
        &&& forall|e: int| 0 <= e < self.runtime_ref.edges.len() ==> self.kind_known((#[trigger] self.runtime_ref.edges[e]).name)
        &&& forall|p: int|
            0 <= p < self.runtime_ref.edge_kinds.len() ==> self.kind_known((#[trigger] self.runtime_ref.edge_kinds[p]).name)
    }

    /// The node catalog: one entry for each node, with its handle, name and
    /// identifier.
    pub open spec fn catalog_ok(self) -> bool {
        &&& self.runtime_ref.nodes.len() == self.nodes.len()
        &&& forall|p: int|
            0 <= p < self.runtime_ref.nodes.len() ==> self.catalog_entry_ok(#[trigger] self.runtime_ref.nodes[p])
        &&& forall|p: int, q: int|
            0 <= p < q < self.runtime_ref.nodes.len() ==> (#[trigger] self.runtime_ref.nodes[p]).index
                != (#[trigger] self.runtime_ref.nodes[q]).index
    }

    /// The catalog entry `r` gives the handle, name and identifier of a node.
    pub open spec fn catalog_entry_ok(self, r: RefView<usize>) -> bool {
        &&& self.handle(r.index as int)
        &&& r.name == self.nodes[r.index as int].name
        &&& r.uuid == self.nodes[r.index as int].metadata.id
    }

    /// What holds of every graph.
    pub open spec fn wf(self) -> bool {
        &&& self.store_ok()
        &&& self.entries_ok()
        &&& self.links_ok()
        &&& self.kinds_ok()
        &&& self.catalog_ok()
    }

    /// The degree counter of each node equals the length of its adjacency
    /// list.
    pub open spec fn degrees_hold(self) -> bool {
        forall|i: int| 0 <= i < self.nodes.len() ==> (#[trigger] self.nodes[i]).energy == self.nodes[i].connections.len()
    }

    /// Every adjacency entry has its mirror: the node that it leads to lists
    /// the node that holds it, under the same kind and the same kind
    /// identifier.
    pub open spec fn symmetric(self) -> bool {
        forall|i: int, k: int|
            self.entry(i, k) ==> self.mirrored(i, #[trigger] self.at(i, k))
    }

    /// The node that `c` leads to lists node `i` under the kind of `c`.
    pub open spec fn mirrored(self, i: int, c: ConnectionView) -> bool {
        exists|k: int|
            self.entry(c.node.index as int, k) && (#[trigger] self.at(c.node.index as int, k)).node.index == i
                && self.at(c.node.index as int, k).edge == c.edge
    }

    /// In a consistent graph no walk leads from a node
    /// without connections to another node.
    pub proof fn lemma_lone_node(self, from: int, to: int)
        requires
            self.wf(),
            self.handle(from),
            self.nodes[from].connections.len() == 0,
            from != to,
        ensures
            !reachable(self.links, from, to),
    {
        if touched(self.links, from) {
            let e = choose|e: int| 0 <= e < self.links.len() && ((#[trigger] self.links[e]).0 == from || self.links[e].1 == from);
            assert(self.link_ok(e));
        }
        lemma_untouched_is_isolated(self.links, from, to);
    }
}

} // verus!
