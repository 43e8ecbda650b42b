//! The steps by which a graph changes, as functions on its view.

use vstd::prelude::*;
use crate::models::invariants::GraphoView;
use crate::models::ranking::{ranked, Ranked};
use crate::models::records::{
    ConnectionView, EdgeKindRefView, EdgeKindView, MetadataView, NodeView, Ref, RefView, RuntimeRefView, Timestamp,
};
use crate::models::structure::CORE_LIMIT;
use crate::models::text::{lemma_lex_total, lemma_lex_transitive, lex_le, text_le};

verus! {

/// What one call draws from the clock and from the source of identifiers.
pub struct Fresh {
    /// The time of the call, which every record that it changes is stamped with.
    pub stamp: Timestamp,
    /// The identifier of a kind that the call creates.
    pub kind_id: u128,
    /// The time at which a kind that the call creates came to be.
    pub kind_created: Timestamp,
    /// The identifier of the catalog entry of a structural edge that the call adds.
    pub edge_id: u128,
}

/// A catalog entry together with the degree of the node that it stands for.
pub struct Scored {
    pub energy: u32,
    pub entry: Ref<usize>,
}

/// A scored catalog entry as the contracts see it.
pub struct ScoredView {
    pub energy: u32,
    pub entry: RefView<usize>,
}

impl View for Scored {
    type V = ScoredView;

    open spec fn view(&self) -> ScoredView {
        ScoredView { energy: self.energy, entry: self.entry@ }
    }
}

impl Ranked for Scored {
    /// The higher degree stands first.
    open spec fn precedes(a: ScoredView, b: ScoredView) -> bool {
        a.energy >= b.energy
    }

    fn goes_before(&self, other: &Self) -> (b: bool) {
        self.energy >= other.energy
    }

    proof fn lemma_total(a: ScoredView, b: ScoredView) {
    }

    proof fn lemma_transitive(a: ScoredView, b: ScoredView, c: ScoredView) {
    }
}

/// A relation kind's name with its usage counter.
pub struct KindStat {
    pub name: String,
    pub energy: u32,
}

/// A kind's name and counter as the contracts see them.
pub struct KindStatView {
    pub name: Seq<char>,
    pub energy: u32,
}

impl View for KindStat {
    type V = KindStatView;

    open spec fn view(&self) -> KindStatView {
        KindStatView { name: self.name@, energy: self.energy }
    }
}

impl Ranked for KindStat {
    /// The higher counter stands first; of two equal counters, the name that
    /// comes first in lexicographic order.
    open spec fn precedes(a: KindStatView, b: KindStatView) -> bool {
        a.energy > b.energy || (a.energy == b.energy && lex_le(a.name, b.name))
    }

    fn goes_before(&self, other: &Self) -> (b: bool) {
        self.energy > other.energy || (self.energy == other.energy && text_le(self.name.as_str(), other.name.as_str()))
    }

    proof fn lemma_total(a: KindStatView, b: KindStatView) {
        lemma_lex_total(a.name, b.name);
    }

    proof fn lemma_transitive(a: KindStatView, b: KindStatView, c: KindStatView) {
        if a.energy == b.energy && b.energy == c.energy {
            lemma_lex_transitive(a.name, b.name, c.name);
        }
    }
}

/// The kinds `kinds`, each as its name and its usage counter.
pub open spec fn stats(kinds: Seq<EdgeKindView>) -> Seq<KindStatView> {
    kinds.map_values(|k: EdgeKindView| KindStatView { name: k.name, energy: k.energy })
}

/// The peers of the entries of `list` that carry the kind `kind`, in the
/// order of the list.
pub open spec fn peers_under(list: Seq<ConnectionView>, kind: Seq<char>) -> Seq<RefView<usize>> {
    list.filter(|c: ConnectionView| c.edge.name == kind).map_values(|c: ConnectionView| c.node)
}

/// The first position of a kind named `kind` in `kinds`.
pub open spec fn kind_at(kinds: Seq<EdgeKindView>, kind: Seq<char>) -> int {
    choose|j: int| 0 <= j < kinds.len() && (#[trigger] kinds[j]).name == kind && forall|i: int|
        0 <= i < j ==> (#[trigger] kinds[i]).name != kind
}

/// The first position of a kind named `kind` is the one before which no
/// kind has that name.
pub proof fn lemma_kind_at(kinds: Seq<EdgeKindView>, kind: Seq<char>, j: int)
    requires
        0 <= j < kinds.len(),
        kinds[j].name == kind,
        forall|i: int| 0 <= i < j ==> (#[trigger] kinds[i]).name != kind,
    ensures
        kind_at(kinds, kind) == j,
{
    let found = kind_at(kinds, kind);
    if found < j {
        assert(kinds[found].name != kind);
    } else if j < found {
        assert(kinds[j].name != kind);
    }
}

/// A kind after one more use at `stamp`.
pub open spec fn used(kind: EdgeKindView, stamp: Timestamp) -> EdgeKindView {
    EdgeKindView { energy: kind.energy.saturating_add(1), metadata: kind.metadata.touched(stamp), ..kind }
}

/// The entry that leads to the node `peer` of `nodes` under `edge`.
pub open spec fn entry_to<T>(nodes: Seq<NodeView<T>>, peer: int, edge: RefView<u128>) -> ConnectionView {
    ConnectionView {
        node: RefView { uuid: nodes[peer].metadata.id, name: nodes[peer].name, index: peer as usize },
        edge,
    }
}

/// The catalog `catalog` with each entry's node degree beside it.
pub open spec fn scored<T>(catalog: Seq<RefView<usize>>, nodes: Seq<NodeView<T>>) -> Seq<ScoredView> {
    catalog.map_values(|r: RefView<usize>| ScoredView { energy: nodes[r.index as int].energy, entry: r })
}

/// The node catalog by descending degree; entries of equal degree keep their
/// order.
pub open spec fn by_degree<T>(catalog: Seq<RefView<usize>>, nodes: Seq<NodeView<T>>) -> Seq<RefView<usize>> {
    ranked::<Scored>(scored(catalog, nodes)).map_values(|s: ScoredView| s.entry)
}

impl<T> GraphoView<T> {
    /// The graph has a node named `name`.
    pub open spec fn has(self, name: Seq<char>) -> bool {
        self.index.contains_key(name)
    }

    /// The handle of the node named `name`.
    pub open spec fn find(self, name: Seq<char>) -> int {
        self.index[name] as int
    }

    /// The graph after a get-or-insert of `node` by its name: a node of that
    /// name stays as it is; else `node` enters without connections under the
    /// next handle, is catalogued and cached, and the graph is stamped.
    pub open spec fn with_node(self, node: NodeView<T>, stamp: Timestamp) -> GraphoView<T> {
        if self.has(node.name) {
            self
        } else {
            let h = self.nodes.len() as usize;
            GraphoView {
                nodes: self.nodes.push(node.admitted(h)),
                runtime_ref: RuntimeRefView {
                    nodes: self.runtime_ref.nodes.push(RefView { uuid: node.metadata.id, name: node.name, index: h }),
                    ..self.runtime_ref
                },
                index: self.index.insert(node.name, h),
                metadata: self.metadata.touched(stamp),
                ..self
            }
        }
    }

    /// The kinds after one use of the kind named `kind`: its counter goes up
    /// by one; a kind that was not there is created with `description`.
    pub open spec fn kinds_using(self, kind: Seq<char>, description: Seq<char>, fresh: Fresh) -> Seq<EdgeKindView> {
        if self.kind_known(kind) {
            let j = kind_at(self.edge_kinds, kind);
            self.edge_kinds.update(j, used(self.edge_kinds[j], fresh.stamp))
        } else {
            self.edge_kinds.push(
                used(
                    EdgeKindView {
                        name: kind,
                        energy: 0,
                        metadata: MetadataView {
                            id: fresh.kind_id,
                            description,
                            created_at: fresh.kind_created,
                            updated_at: fresh.kind_created,
                        },
                    },
                    fresh.stamp,
                ),
            )
        }
    }

    /// The kind catalog with an entry for the identifier `kid`, added under
    /// the name `kind` unless the catalog has one of that identifier.
    pub open spec fn kind_catalog_with(self, kind: Seq<char>, kid: u128) -> Seq<EdgeKindRefView> {
        if exists|p: int| 0 <= p < self.runtime_ref.edge_kinds.len() && (#[trigger] self.runtime_ref.edge_kinds[p]).uuid == kid {
            self.runtime_ref.edge_kinds
        } else {
            self.runtime_ref.edge_kinds.push(EdgeKindRefView { uuid: kid, name: kind })
        }
    }

    /// The reference to the kind named `kind` that a new connection under it
    /// carries: the kind's name and its identifier, after the kind was
    /// looked up or created.
    pub open spec fn kind_ref(self, kind: Seq<char>, description: Seq<char>, fresh: Fresh) -> RefView<u128> {
        let kinds = self.kinds_using(kind, description, fresh);
        let kid = kinds[kind_at(kinds, kind)].metadata.id;
        RefView { uuid: kid, name: kind, index: kid }
    }

    /// The graph after a new structural edge between the nodes `a` and `b`
    /// was recorded under `kind`: the edge of weight one with its catalog
    /// entry, one more use of the kind and its catalog entry, and the graph's
    /// stamp. The adjacency lists are as before.
    pub open spec fn recorded(self, a: int, b: int, kind: Seq<char>, description: Seq<char>, fresh: Fresh) -> GraphoView<T> {
        GraphoView {
            links: self.links.push((a, b, 1u32)),
            edge_kinds: self.kinds_using(kind, description, fresh),
            runtime_ref: RuntimeRefView {
                edges: self.runtime_ref.edges.push(
                    RefView { uuid: fresh.edge_id, name: kind, index: self.links.len() as usize },
                ),
                nodes: self.runtime_ref.nodes,
                edge_kinds: self.kind_catalog_with(kind, self.kind_ref(kind, description, fresh).uuid),
            },
            metadata: self.metadata.touched(fresh.stamp),
            ..self
        }
    }

    /// The graph after a new logical connection between the nodes `a` and `b`
    /// under `kind`: the structural edge is recorded, and each end lists the
    /// other at the end of its adjacency list, with its degree counter up to
    /// date. Where the two ends are one node, it lists itself once.
    pub open spec fn linked_up(self, a: int, b: int, kind: Seq<char>, description: Seq<char>, fresh: Fresh) -> GraphoView<T> {
        let edge = self.kind_ref(kind, description, fresh);
        let first = self.nodes.update(
            a,
            self.nodes[a].with_entry(entry_to(self.nodes, b, edge), fresh.stamp).refreshed(a as usize),
        );
        let both = if a == b {
            first
        } else {
            first.update(b, first[b].with_entry(entry_to(self.nodes, a, edge), fresh.stamp).refreshed(b as usize))
        };
        GraphoView { nodes: both, ..self.recorded(a, b, kind, description, fresh) }
    }

    /// The graph in which node `a` lists node `b` under the kind of `edge`:
    /// unless it does so already, it gets the entry at the end of its list
    /// and is stamped.
    pub open spec fn ensured(self, a: int, b: int, edge: RefView<u128>, stamp: Timestamp) -> GraphoView<T> {
        if self.nodes[a].leads(b, edge.name) {
            self
        } else {
            GraphoView {
                nodes: self.nodes.update(a, self.nodes[a].with_entry(entry_to(self.nodes, b, edge), stamp)),
                ..self
            }
        }
    }

    /// The graph in which node `a` holds its handle and its current degree.
    pub open spec fn refreshed_at(self, a: int) -> GraphoView<T> {
        GraphoView { nodes: self.nodes.update(a, self.nodes[a].refreshed(a as usize)), ..self }
    }

    /// The graph with its node catalog ranked by descending degree.
    pub open spec fn reranked(self) -> GraphoView<T> {
        GraphoView {
            runtime_ref: RuntimeRefView { nodes: by_degree(self.runtime_ref.nodes, self.nodes), ..self.runtime_ref },
            ..self
        }
    }

    /// The nodes named `from` and `to` are there and one lists the other
    /// under `kind`.
    pub open spec fn bound(self, from: Seq<char>, to: Seq<char>, kind: Seq<char>) -> bool {
        self.has(from) && self.has(to) && self.connected(self.find(from), self.find(to), kind)
    }

    /// How many nodes a connection between `from` and `to` would add.
    pub open spec fn newcomers(self, from: Seq<char>, to: Seq<char>) -> int {
        (if self.has(from) {
            0int
        } else {
            1int
        }) + (if self.has(to) || to == from {
            0int
        } else {
            1int
        })
    }

    /// The graph has room for a connection between `from` and `to` under
    /// `kind`: for the nodes that it would add and, unless the two are
    /// connected under `kind` already, for one more structural edge and for
    /// one more adjacency entry at each end.
    pub open spec fn room_for(self, from: Seq<char>, to: Seq<char>, kind: Seq<char>) -> bool {
        &&& self.nodes.len() + self.newcomers(from, to) <= CORE_LIMIT
        &&& self.bound(from, to, kind) || {
            &&& self.links.len() < CORE_LIMIT
            &&& self.has(from) ==> self.nodes[self.find(from)].connections.len() < u32::MAX
            &&& self.has(to) ==> self.nodes[self.find(to)].connections.len() < u32::MAX
        }
    }

    /// The graph after `add_connection`: both nodes are there; if one lists
    /// the other under `kind` nothing else changes, else the two are linked
    /// up; at last the node catalog is ranked by degree.
    pub open spec fn connect(
        self,
        from: NodeView<T>,
        to: NodeView<T>,
        kind: Seq<char>,
        description: Seq<char>,
        fresh: Fresh,
    ) -> GraphoView<T> {
        let staged = self.with_node(from, fresh.stamp).with_node(to, fresh.stamp);
        let a = staged.find(from.name);
        let b = staged.find(to.name);
        if staged.connected(a, b, kind) {
            staged.reranked()
        } else {
            staged.linked_up(a, b, kind, description, fresh).reranked()
        }
    }
}

} // verus!
