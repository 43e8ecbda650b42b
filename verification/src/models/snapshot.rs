//! The snapshot of a graph: what is written when a graph is saved, in an
//! order that does not depend on how the graph came to be.

use vstd::prelude::*;
use crate::models::invariants::GraphoView;
use crate::models::ranking::{rank, ranked, views, Ranked};
use crate::models::records::{
    connection_views, kind_ref_views, kind_views, node_views, ref_views, Connection, EdgeKind, EdgeKindRef,
    EdgeKindRefView, EdgeKindView, Metadata, Node, NodeView, Ref, RefView, RuntimeRef, RuntimeRefView,
};
use crate::models::text::{lemma_lex_total, lemma_lex_transitive, lex_le, text_le};
use crate::models::walks::Link;

verus! {

impl Ranked for Ref<usize> {
    /// The lower handle stands first.
    open spec fn precedes(a: RefView<usize>, b: RefView<usize>) -> bool {
        a.index <= b.index
    }

    fn goes_before(&self, other: &Self) -> (b: bool) {
        self.index <= other.index
    }

    proof fn lemma_total(a: RefView<usize>, b: RefView<usize>) {
    }

    proof fn lemma_transitive(a: RefView<usize>, b: RefView<usize>, c: RefView<usize>) {
    }
}

impl Ranked for EdgeKindRef {
    /// The name that comes first in lexicographic order stands first.
    open spec fn precedes(a: EdgeKindRefView, b: EdgeKindRefView) -> bool {
        lex_le(a.name, b.name)
    }

    fn goes_before(&self, other: &Self) -> (b: bool) {
        text_le(self.name.as_str(), other.name.as_str())
    }

    proof fn lemma_total(a: EdgeKindRefView, b: EdgeKindRefView) {
        lemma_lex_total(a.name, b.name);
    }

    proof fn lemma_transitive(a: EdgeKindRefView, b: EdgeKindRefView, c: EdgeKindRefView) {
        lemma_lex_transitive(a.name, b.name, c.name);
    }
}

impl Ranked for EdgeKind {
    /// The name that comes first in lexicographic order stands first.
    open spec fn precedes(a: EdgeKindView, b: EdgeKindView) -> bool {
        lex_le(a.name, b.name)
    }

    fn goes_before(&self, other: &Self) -> (b: bool) {
        text_le(self.name.as_str(), other.name.as_str())
    }

    proof fn lemma_total(a: EdgeKindView, b: EdgeKindView) {
        lemma_lex_total(a.name, b.name);
    }

    proof fn lemma_transitive(a: EdgeKindView, b: EdgeKindView, c: EdgeKindView) {
        lemma_lex_transitive(a.name, b.name, c.name);
    }
}

/// The parts of a graph that are saved. The lookup cache is not among them.
pub struct Snapshot<T> {
    pub name: String,
    /// The structural edges in the order of their handles, each as its two
    /// ends and its weight.
    pub links: Vec<(usize, usize, u32)>,
    /// The nodes in the order of their handles.
    pub nodes: Vec<Node<T>>,
    pub edges: Vec<Ref<usize>>,
    pub runtime_ref: RuntimeRef,
    pub metadata: Metadata,
    pub edge_kinds: Vec<EdgeKind>,
}

/// The links of a list of structural edges.
pub open spec fn link_views(list: Seq<(usize, usize, u32)>) -> Seq<Link> {
    list.map_values(|l: (usize, usize, u32)| (l.0 as int, l.1 as int, l.2))
}

impl<T> View for Snapshot<T> {
    type V = GraphoView<T>;

    /// The graph that the snapshot describes, with an empty lookup cache.
    open spec fn view(&self) -> GraphoView<T> {
        GraphoView {
            name: self.name@,
            links: link_views(self.links@),
            nodes: node_views(self.nodes@),
            edges: ref_views(self.edges@),
            runtime_ref: self.runtime_ref@,
            metadata: self.metadata@,
            edge_kinds: kind_views(self.edge_kinds@),
            index: Map::empty(),
        }
    }
}

/// The node `copy` is the node `node` with a clone of its payload.
pub open spec fn copied<T: Clone>(node: NodeView<T>, copy: NodeView<T>) -> bool {
    &&& copy == (NodeView { content: copy.content, ..node })
    &&& cloned(node.content, copy.content)
}

/// `snapshot` is the normal form of the graph `g`: the same name, record,
/// structural edges and edge list; the nodes with clones of their payloads;
/// the node catalog and the edge catalog by ascending handle; the kinds and
/// the kind catalog by name in lexicographic order. Entries that tie keep
/// their order.
pub open spec fn normal_form<T: Clone>(g: GraphoView<T>, snapshot: GraphoView<T>) -> bool {
    &&& snapshot.name == g.name
    &&& snapshot.metadata == g.metadata
    &&& snapshot.links == g.links
    &&& snapshot.edges == g.edges
    &&& snapshot.nodes.len() == g.nodes.len()
    &&& forall|i: int| 0 <= i < g.nodes.len() ==> copied(g.nodes[i], #[trigger] snapshot.nodes[i])
    &&& snapshot.edge_kinds == ranked::<EdgeKind>(g.edge_kinds)
    &&& snapshot.runtime_ref.nodes == ranked::<Ref<usize>>(g.runtime_ref.nodes)
    &&& snapshot.runtime_ref.edges == ranked::<Ref<usize>>(g.runtime_ref.edges)
    &&& snapshot.runtime_ref.edge_kinds == ranked::<EdgeKindRef>(g.runtime_ref.edge_kinds)
    &&& snapshot.index == Map::<Seq<char>, usize>::empty()
}

/// A copy of a list of references.
#[verifier::loop_isolation(false)]
pub fn duplicate_refs(list: &Vec<Ref<usize>>) -> (copy: Vec<Ref<usize>>)
    ensures
        ref_views(copy@) == ref_views(list@),
{
    let mut copy: Vec<Ref<usize>> = Vec::new();
    let mut i: usize = 0;
    while i < list.len()
        invariant
            i <= list.len(),
            ref_views(copy@) =~= ref_views(list@).subrange(0, i as int),
        decreases list.len() - i,
    {
        let ghost before = ref_views(copy@);
        copy.push(list[i].duplicate());
        assert(ref_views(copy@) =~= before.push(list@[i as int]@));
        i += 1;
    }
    assert(ref_views(copy@) =~= ref_views(list@));
    copy
}

/// A copy of a list of kind references.
#[verifier::loop_isolation(false)]
pub fn duplicate_kind_refs(list: &Vec<EdgeKindRef>) -> (copy: Vec<EdgeKindRef>)
    ensures
        kind_ref_views(copy@) == kind_ref_views(list@),
{
    let mut copy: Vec<EdgeKindRef> = Vec::new();
    let mut i: usize = 0;
    while i < list.len()
        invariant
            i <= list.len(),
            kind_ref_views(copy@) =~= kind_ref_views(list@).subrange(0, i as int),
        decreases list.len() - i,
    {
        let ghost before = kind_ref_views(copy@);
        copy.push(list[i].duplicate());
        assert(kind_ref_views(copy@) =~= before.push(list@[i as int]@));
        i += 1;
    }
    assert(kind_ref_views(copy@) =~= kind_ref_views(list@));
    copy
}

/// A copy of a list of kinds.
#[verifier::loop_isolation(false)]
pub fn duplicate_kinds(list: &Vec<EdgeKind>) -> (copy: Vec<EdgeKind>)
    ensures
        kind_views(copy@) == kind_views(list@),
{
    let mut copy: Vec<EdgeKind> = Vec::new();
    let mut i: usize = 0;
    while i < list.len()
        invariant
            i <= list.len(),
            kind_views(copy@) =~= kind_views(list@).subrange(0, i as int),
        decreases list.len() - i,
    {
        let ghost before = kind_views(copy@);
        copy.push(list[i].duplicate());
        assert(kind_views(copy@) =~= before.push(list@[i as int]@));
        i += 1;
    }
    assert(kind_views(copy@) =~= kind_views(list@));
    copy
}

/// A copy of an adjacency list.
#[verifier::loop_isolation(false)]
pub fn duplicate_connections(list: &Vec<Connection>) -> (copy: Vec<Connection>)
    ensures
        connection_views(copy@) == connection_views(list@),
{
    let mut copy: Vec<Connection> = Vec::new();
    let mut i: usize = 0;
    while i < list.len()
        invariant
            i <= list.len(),
            connection_views(copy@) =~= connection_views(list@).subrange(0, i as int),
        decreases list.len() - i,
    {
        let ghost before = connection_views(copy@);
        copy.push(list[i].duplicate());
        assert(connection_views(copy@) =~= before.push(list@[i as int]@));
        i += 1;
    }
    assert(connection_views(copy@) =~= connection_views(list@));
    copy
}

/// A copy of a node, with a clone of its payload.
pub fn duplicate_node<T: Clone>(node: &Node<T>) -> (copy: Node<T>)
    ensures
        copied(node@, copy@),
{
    Node {
        name: node.name.clone(),
        content: node.content.clone(),
        energy: node.energy,
        connections: duplicate_connections(&node.connections),
        node_index: node.node_index,
        metadata: node.metadata.duplicate(),
    }
}

/// A copy of a node store, with clones of the payloads.
pub fn duplicate_nodes<T: Clone>(list: &Vec<Node<T>>) -> (copy: Vec<Node<T>>)
    ensures
        copy@.len() == list@.len(),
        forall|i: int| 0 <= i < list@.len() ==> copied(list@[i]@, #[trigger] copy@[i]@),
{
    let mut copy: Vec<Node<T>> = Vec::new();
    let mut i: usize = 0;
    while i < list.len()
        invariant
            i <= list.len(),
            copy@.len() == i,
            forall|q: int| 0 <= q < i ==> copied(list@[q]@, #[trigger] copy@[q]@),
        decreases list.len() - i,
    {
        copy.push(duplicate_node(&list[i]));
        i += 1;
    }
    copy
}

/// The copies of the lists that ranking turns a graph's catalogs and kinds
/// into.
pub fn normal_catalogs(catalogs: &RuntimeRef) -> (out: RuntimeRef)
    ensures
        out@.nodes == ranked::<Ref<usize>>(catalogs@.nodes),
        out@.edges == ranked::<Ref<usize>>(catalogs@.edges),
        out@.edge_kinds == ranked::<EdgeKindRef>(catalogs@.edge_kinds),
{
    let nodes = rank(duplicate_refs(&catalogs.nodes));
    let edges = rank(duplicate_refs(&catalogs.edges));
    let edge_kinds = rank(duplicate_kind_refs(&catalogs.edge_kinds));
    RuntimeRef { edges, nodes, edge_kinds }
}

/// The lookup cache that a scan of the node store builds: each name with the
/// handle of the node that has it; of two nodes with one name, the later.
pub open spec fn index_of_names<T>(nodes: Seq<NodeView<T>>) -> Map<Seq<char>, usize>
    decreases nodes.len(),
{
    if nodes.len() == 0 {
        Map::empty()
    } else {
        index_of_names(nodes.drop_last()).insert(nodes.last().name, (nodes.len() - 1) as usize)
    }
}

/// The names of the nodes differ.
pub open spec fn names_differ<T>(nodes: Seq<NodeView<T>>) -> bool {
    forall|i: int, j: int| 0 <= i < j < nodes.len() ==> (#[trigger] nodes[i]).name != (#[trigger] nodes[j]).name
}

/// The rebuilt cache knows the names of the nodes and no others, and leads
/// from each name to a node of that name.
pub proof fn lemma_index_of_names<T>(nodes: Seq<NodeView<T>>)
    requires
        nodes.len() <= usize::MAX,
    ensures
        forall|s: Seq<char>| #[trigger]
            index_of_names(nodes).contains_key(s) ==> index_of_names(nodes)[s] < nodes.len() && nodes[index_of_names(
                nodes,
            )[s] as int].name == s,
        forall|i: int| 0 <= i < nodes.len() ==> index_of_names(nodes).contains_key((#[trigger] nodes[i]).name),
    decreases nodes.len(),
{
    if nodes.len() > 0 {
        let rest = nodes.drop_last();
        lemma_index_of_names(rest);
        assert forall|s: Seq<char>| #[trigger] index_of_names(nodes).contains_key(s) implies index_of_names(nodes)[s]
            < nodes.len() && nodes[index_of_names(nodes)[s] as int].name == s by {
            if s != nodes.last().name {
                assert(index_of_names(rest).contains_key(s));
                assert(rest[index_of_names(rest)[s] as int] == nodes[index_of_names(rest)[s] as int]);
            }
        }
        assert forall|i: int| 0 <= i < nodes.len() implies index_of_names(nodes).contains_key(
            (#[trigger] nodes[i]).name,
        ) by {
            if i < rest.len() {
                assert(rest[i] == nodes[i]);
            }
        }
    }
}

/// Where the names differ, the rebuilt cache leads from the name of each
/// node to its handle.
pub proof fn lemma_index_finds<T>(nodes: Seq<NodeView<T>>)
    requires
        nodes.len() <= usize::MAX,
        names_differ(nodes),
    ensures
        forall|i: int|
            0 <= i < nodes.len() ==> index_of_names(nodes).contains_key((#[trigger] nodes[i]).name) && index_of_names(
                nodes,
            )[nodes[i].name] == i,
    decreases nodes.len(),
{
    if nodes.len() > 0 {
        let rest = nodes.drop_last();
        assert(names_differ(rest)) by {
            assert forall|i: int, j: int| 0 <= i < j < rest.len() implies (#[trigger] rest[i]).name != (
            #[trigger] rest[j]).name by {
                assert(rest[i] == nodes[i] && rest[j] == nodes[j]);
            }
        }
        lemma_index_finds(rest);
        assert forall|i: int| 0 <= i < nodes.len() implies index_of_names(nodes).contains_key(
            (#[trigger] nodes[i]).name,
        ) && index_of_names(nodes)[nodes[i].name] == i by {
            if i < rest.len() {
                assert(rest[i] == nodes[i]);
                assert(nodes[i].name != nodes[nodes.len() - 1].name);
            }
        }
    }
}

impl<T> GraphoView<T> {
    /// The graph with its lookup cache rebuilt from the node store.
    pub open spec fn restored(self) -> GraphoView<T> {
        GraphoView { index: index_of_names(self.nodes), ..self }
    }
}

} // verus!
