//! The records that make up a graph, each with the mathematical view that the
//! contracts speak of.

use vstd::prelude::*;

verus! {

/// A point in time: whole seconds since the Unix epoch, and the nanoseconds
/// past that second.
#[derive(Clone, Copy, Debug, PartialEq, Eq, Structural)]
pub struct Timestamp {
    pub secs: i64,
    pub nanos: u32,
}

/// Identity and audit record attached to every entity.
#[derive(Debug)]
pub struct Metadata {
    pub id: u128,
    pub description: String,
    pub created_at: Timestamp,
    pub updated_at: Timestamp,
}

/// A record as the contracts see it.
pub struct MetadataView {
    pub id: u128,
    pub description: Seq<char>,
    pub created_at: Timestamp,
    pub updated_at: Timestamp,
}

impl View for Metadata {
    type V = MetadataView;

    open spec fn view(&self) -> MetadataView {
        MetadataView {
            id: self.id,
            description: self.description@,
            created_at: self.created_at,
            updated_at: self.updated_at,
        }
    }
}

/// Reads the clock: `chrono::Utc::now`, taken apart into seconds and
/// nanoseconds. Nothing is claimed of the value.
#[verifier::external_body]
pub(crate) fn clock_now() -> Timestamp {
    let now = chrono::Utc::now();
    Timestamp { secs: now.timestamp(), nanos: now.timestamp_subsec_nanos() }
}

/// Draws a random identifier: `uuid::Uuid::new_v4`, as its 128-bit number.
/// Nothing is claimed of the value; two draws may coincide.
#[verifier::external_body]
pub(crate) fn fresh_id() -> u128 {
    uuid::Uuid::new_v4().as_u128()
}

impl Metadata {
    /// A record with a fresh identifier, stamped with the current time.
    pub fn new(description: String) -> (m: Metadata)
        ensures
            m@.description == description@,
            m@.updated_at == m@.created_at,
    {
        let now = clock_now();
        Metadata { created_at: now, updated_at: now, id: fresh_id(), description }
    }

    /// Marks the owning entity as changed now.
    pub fn update(&mut self)
        ensures
            final(self)@.same_identity(old(self)@),
    {
        self.touch(clock_now());
    }

    /// Marks the owning entity as changed at `stamp`.
    pub fn touch(&mut self, stamp: Timestamp)
        ensures
            final(self)@ == old(self)@.touched(stamp),
    {
        self.updated_at = stamp;
    }

    /// A copy with the same view.
    pub fn duplicate(&self) -> (m: Metadata)
        ensures
            m@ == self@,
    {
        Metadata {
            id: self.id,
            description: self.description.clone(),
            created_at: self.created_at,
            updated_at: self.updated_at,
        }
    }
}

impl MetadataView {
    /// The record after its entity changed at `stamp`.
    pub open spec fn touched(self, stamp: Timestamp) -> MetadataView {
        MetadataView { updated_at: stamp, ..self }
    }

    /// Two records of one entity: they differ at most in `updated_at`.
    pub open spec fn same_identity(self, other: MetadataView) -> bool {
        &&& self.id == other.id
        &&& self.description == other.description
        &&& self.created_at == other.created_at
    }
}

/// A reference to an entity: its identifier, its name and a handle.
#[derive(Debug)]
pub struct Ref<I> {
    pub uuid: u128,
    pub name: String,
    pub index: I,
}

/// A reference as the contracts see it.
pub struct RefView<I> {
    pub uuid: u128,
    pub name: Seq<char>,
    pub index: I,
}

impl<I> View for Ref<I> {
    type V = RefView<I>;

    open spec fn view(&self) -> RefView<I> {
        RefView { uuid: self.uuid, name: self.name@, index: self.index }
    }
}

impl<I: Copy> Ref<I> {
    /// A copy with the same view.
    pub fn duplicate(&self) -> (r: Ref<I>)
        ensures
            r@ == self@,
    {
        Ref { uuid: self.uuid, name: self.name.clone(), index: self.index }
    }
}

/// A reference to a relation kind: its identifier and its name.
#[derive(Debug)]
pub struct EdgeKindRef {
    pub uuid: u128,
    pub name: String,
}

/// A reference to a relation kind as the contracts see it.
pub struct EdgeKindRefView {
    pub uuid: u128,
    pub name: Seq<char>,
}

impl View for EdgeKindRef {
    type V = EdgeKindRefView;

    open spec fn view(&self) -> EdgeKindRefView {
        EdgeKindRefView { uuid: self.uuid, name: self.name@ }
    }
}

impl EdgeKindRef {
    /// A copy with the same view.
    pub fn duplicate(&self) -> (r: EdgeKindRef)
        ensures
            r@ == self@,
    {
        EdgeKindRef { uuid: self.uuid, name: self.name.clone() }
    }
}

/// One entry of a node's adjacency list: the node at the other end, and the
/// relation kind that the two share.
#[derive(Debug)]
pub struct Connection {
    pub node: Ref<usize>,
    pub edge: Ref<u128>,
}

/// An adjacency entry as the contracts see it.
pub struct ConnectionView {
    pub node: RefView<usize>,
    pub edge: RefView<u128>,
}

impl View for Connection {
    type V = ConnectionView;

    open spec fn view(&self) -> ConnectionView {
        ConnectionView { node: self.node@, edge: self.edge@ }
    }
}

impl Connection {
    /// A copy with the same view.
    pub fn duplicate(&self) -> (c: Connection)
        ensures
            c@ == self@,
    {
        Connection { node: self.node.duplicate(), edge: self.edge.duplicate() }
    }
}

impl ConnectionView {
    /// The entry leads to the node with handle `peer` under the kind `kind`.
    pub open spec fn leads(self, peer: int, kind: Seq<char>) -> bool {
        self.node.index == peer && self.edge.name == kind
    }
}

/// The views of a list of connections, in order.
pub open spec fn connection_views(list: Seq<Connection>) -> Seq<ConnectionView> {
    list.map_values(|c: Connection| c@)
}

/// A node: a named payload with its degree and its adjacency list.
#[derive(Debug)]
pub struct Node<T> {
    pub name: String,
    pub content: T,
    pub energy: u32,
    pub connections: Vec<Connection>,
    pub node_index: usize,
    pub metadata: Metadata,
}

/// A node as the contracts see it.
pub struct NodeView<T> {
    pub name: Seq<char>,
    pub content: T,
    pub energy: u32,
    pub connections: Seq<ConnectionView>,
    pub node_index: usize,
    pub metadata: MetadataView,
}

impl<T> View for Node<T> {
    type V = NodeView<T>;

    open spec fn view(&self) -> NodeView<T> {
        NodeView {
            name: self.name@,
            content: self.content,
            energy: self.energy,
            connections: connection_views(self.connections@),
            node_index: self.node_index,
            metadata: self.metadata@,
        }
    }
}

impl<T> NodeView<T> {
    /// Some entry of the adjacency list leads to `peer` under `kind`.
    pub open spec fn leads(self, peer: int, kind: Seq<char>) -> bool {
        exists|k: int| 0 <= k < self.connections.len() && (#[trigger] self.connections[k]).leads(peer, kind)
    }

    /// The record as it enters a graph under the handle `handle`: without
    /// connections.
    pub open spec fn admitted(self, handle: usize) -> NodeView<T> {
        NodeView { energy: 0, connections: Seq::empty(), node_index: handle, ..self }
    }

    /// The degree that the counter shows for the adjacency list: its length,
    /// capped at the counter's range.
    pub open spec fn degree(self) -> u32 {
        if self.connections.len() <= u32::MAX {
            self.connections.len() as u32
        } else {
            u32::MAX
        }
    }

    /// The node with one more adjacency entry, changed at `stamp`. The degree
    /// counter is not yet brought up to date.
    pub open spec fn with_entry(self, c: ConnectionView, stamp: Timestamp) -> NodeView<T> {
        NodeView { connections: self.connections.push(c), metadata: self.metadata.touched(stamp), ..self }
    }

    /// The node with its handle set to `handle` and its degree counter brought
    /// up to date.
    pub open spec fn refreshed(self, handle: usize) -> NodeView<T> {
        NodeView { node_index: handle, energy: self.degree(), ..self }
    }
}

impl<T> Node<T> {
    /// A node that is not yet part of a graph. Its degree counter is the
    /// length of `connections`, capped at the counter's range.
    pub fn new(name: &str, content: T, connections: Vec<Connection>, description: &str) -> (node: Node<T>)
        ensures
            node@.name == name@,
            node@.content == content,
            node@.connections == connection_views(connections@),
            node@.energy == if connections.len() <= u32::MAX { connections.len() as int } else { u32::MAX as int },
            node@.node_index == 0,
            node@.metadata.description == description@,
            node@.metadata.updated_at == node@.metadata.created_at,
    {
        let degree: u32 = if connections.len() <= u32::MAX as usize { connections.len() as u32 } else { u32::MAX };
        Node {
            name: name.to_owned(),
            content,
            energy: degree,
            connections,
            node_index: 0,
            metadata: Metadata::new(description.to_owned()),
        }
    }
}

/// A relation kind, shared by every connection of that name.
#[derive(Debug)]
pub struct EdgeKind {
    pub name: String,
    pub energy: u32,
    pub metadata: Metadata,
}

/// A relation kind as the contracts see it.
pub struct EdgeKindView {
    pub name: Seq<char>,
    pub energy: u32,
    pub metadata: MetadataView,
}

impl View for EdgeKind {
    type V = EdgeKindView;

    open spec fn view(&self) -> EdgeKindView {
        EdgeKindView { name: self.name@, energy: self.energy, metadata: self.metadata@ }
    }
}

impl EdgeKind {
    /// A kind that no connection uses yet.
    pub fn new(name: &str, description: &str) -> (kind: EdgeKind)
        ensures
            kind@.name == name@,
            kind@.energy == 0,
            kind@.metadata.description == description@,
            kind@.metadata.updated_at == kind@.metadata.created_at,
    {
        EdgeKind { name: name.to_owned(), energy: 0, metadata: Metadata::new(description.to_owned()) }
    }

    /// A copy with the same view.
    pub fn duplicate(&self) -> (k: EdgeKind)
        ensures
            k@ == self@,
    {
        EdgeKind { name: self.name.clone(), energy: self.energy, metadata: self.metadata.duplicate() }
    }
}

/// The catalogs of a graph: one entry for each structural edge, for each node
/// and for each relation kind.
#[derive(Debug)]
pub struct RuntimeRef {
    pub edges: Vec<Ref<usize>>,
    pub nodes: Vec<Ref<usize>>,
    pub edge_kinds: Vec<EdgeKindRef>,
}

/// The catalogs as the contracts see them.
pub struct RuntimeRefView {
    pub edges: Seq<RefView<usize>>,
    pub nodes: Seq<RefView<usize>>,
    pub edge_kinds: Seq<EdgeKindRefView>,
}

/// The views of a list of references, in order.
pub open spec fn ref_views(list: Seq<Ref<usize>>) -> Seq<RefView<usize>> {
    list.map_values(|r: Ref<usize>| r@)
}

/// The views of a list of kind references, in order.
pub open spec fn kind_ref_views(list: Seq<EdgeKindRef>) -> Seq<EdgeKindRefView> {
    list.map_values(|r: EdgeKindRef| r@)
}

/// The views of a list of nodes, in order.
pub open spec fn node_views<T>(list: Seq<Node<T>>) -> Seq<NodeView<T>> {
    list.map_values(|n: Node<T>| n@)
}

/// The views of a list of kinds, in order.
pub open spec fn kind_views(list: Seq<EdgeKind>) -> Seq<EdgeKindView> {
    list.map_values(|k: EdgeKind| k@)
}

impl View for RuntimeRef {
    type V = RuntimeRefView;

    open spec fn view(&self) -> RuntimeRefView {
        RuntimeRefView {
            edges: ref_views(self.edges@),
            nodes: ref_views(self.nodes@),
            edge_kinds: kind_ref_views(self.edge_kinds@),
        }
    }
}

} // verus!
