//! The graph: node store, relation kinds, catalogs and the structural graph,
//! kept consistent by every operation.

use vstd::hash_map::StringHashMap;
use vstd::prelude::*;
use vstd::string::StringExecFns;
use crate::models::invariants::GraphoView;
use crate::models::laws::{
    lemma_degrees, lemma_linked_up_wf, lemma_reranked_wf, lemma_settled, lemma_staged, lemma_symmetric,
    lemma_with_node_wf, may_link,
};
use crate::models::node_types::NodeTypesProps;
use crate::models::records::{
    connection_views, kind_ref_views, kind_views, node_views, ref_views, Connection, EdgeKind, EdgeKindRef,
    clock_now, fresh_id, ConnectionView, EdgeKindRefView, Metadata, Node, Ref, RefView, RuntimeRef, RuntimeRefView, Timestamp,
};
use crate::models::structure::{
    core_add_edge, core_add_node, core_edges, core_link_list, core_links, core_new, core_node_count, core_scores,
    Core, CORE_LIMIT,
};
use crate::models::ranking::{lemma_ranked_permutes, rank, views};
use crate::models::snapshot::{
    duplicate_kinds, duplicate_nodes, duplicate_refs, index_of_names, link_views, normal_catalogs, normal_form,
    Snapshot,
};
use crate::models::steps::{
    by_degree, entry_to, kind_at, lemma_kind_at, peers_under, scored, stats, used, Fresh, KindStat, KindStatView,
    Scored, ScoredView,
};
use crate::models::ranking::ranked;
use crate::runtime::persist::{PersistError, PersistErrorView};
use crate::models::walks::{distance_is, lemma_untouched_is_isolated, reachable, touched, Link};

verus! {

/// Why an operation on a graph gave no result.
#[derive(Debug, PartialEq, Eq)]
pub enum GraphError {
    /// What was asked for is not there: no such node, or no path to it.
    NotFound,
    /// The structural graph takes no further node or edge.
    Full,
}

impl GraphError {
    /// The error in words.
    pub fn message(&self) -> (text: String)
        ensures
            text@ == match self {
                GraphError::NotFound => "not found"@,
                GraphError::Full => "the graph is full"@,
            },
    {
        match self {
            GraphError::NotFound => "not found".to_owned(),
            GraphError::Full => "the graph is full".to_owned(),
        }
    }
}

/// A named graph of nodes that carry a payload of type `T`.
pub struct Grapho<T: NodeTypesProps> {
    name: String,
    core: Core,
    nodes: Vec<Node<T>>,
    edges: Vec<Ref<usize>>,
    runtime_ref: RuntimeRef,
    metadata: Metadata,
    edge_kinds: Vec<EdgeKind>,
    node_index_by_name: StringHashMap<usize>,
}

impl<T: NodeTypesProps> View for Grapho<T> {
    type V = GraphoView<T>;

    closed spec fn view(&self) -> GraphoView<T> {
        GraphoView {
            name: self.name@,
            links: core_links(self.core),
            nodes: node_views(self.nodes@),
            edges: ref_views(self.edges@),
            runtime_ref: self.runtime_ref@,
            metadata: self.metadata@,
            edge_kinds: kind_views(self.edge_kinds@),
            index: self.node_index_by_name@,
        }
    }
}

impl<T: NodeTypesProps> Grapho<T> {
    /// The graph is consistent: its view is, and the structural graph has one
    /// node for each node of the store.
    pub closed spec fn wf(&self) -> bool {
        &&& self@.wf()
        &&& core_node_count(self.core) == self.nodes@.len()
    }

    /// An empty graph named `name`.
    pub fn new(name: &str) -> (g: Grapho<T>)
        ensures
            g.wf(),
            g@.name == name@,
            g@.metadata.description == name@ + " graph."@,
            g@.links.len() == 0,
            g@.nodes.len() == 0,
            g@.edges.len() == 0,
            g@.edge_kinds.len() == 0,
            g@.runtime_ref == (RuntimeRefView { edges: Seq::empty(), nodes: Seq::empty(), edge_kinds: Seq::empty() }),
            g@.index == Map::<Seq<char>, usize>::empty(),
    {
        let description = name.to_owned().concat(" graph.");
        let g = Grapho {
            name: name.to_owned(),
            core: core_new(),
            nodes: Vec::new(),
            edges: Vec::new(),
            runtime_ref: RuntimeRef { edges: Vec::new(), nodes: Vec::new(), edge_kinds: Vec::new() },
            metadata: Metadata::new(description),
            edge_kinds: Vec::new(),
            node_index_by_name: StringHashMap::new(),
        };
        assert(g@.runtime_ref.edges =~= Seq::empty());
        assert(g@.runtime_ref.nodes =~= Seq::empty());
        assert(g@.runtime_ref.edge_kinds =~= Seq::empty());
        g
    }

    /// A consistent graph has a consistent view: what is proved of such
    /// views holds of the graph.
    pub proof fn lemma_consistent(&self)
        requires
            self.wf(),
        ensures
            self@.wf(),
    {
    }

    /// The graph's name.
    pub fn name(&self) -> (name: &String)
        ensures
            name@ == self@.name,
    {
        &self.name
    }

    /// The graph's own record.
    pub fn metadata(&self) -> (metadata: &Metadata)
        ensures
            metadata@ == self@.metadata,
    {
        &self.metadata
    }

    /// The node store: each node at the position of its handle.
    pub fn nodes(&self) -> (nodes: &Vec<Node<T>>)
        ensures
            node_views(nodes@) == self@.nodes,
    {
        &self.nodes
    }

    /// The node with the handle `handle`, if the graph has one.
    pub fn node(&self, handle: usize) -> (node: Option<&Node<T>>)
        ensures
            match node {
                Some(found) => self@.handle(handle as int) && found@ == self@.nodes[handle as int],
                None => !self@.handle(handle as int),
            },
    {
        assert(self@.nodes.len() == self.nodes@.len());
        if handle < self.nodes.len() {
            Some(&self.nodes[handle])
        } else {
            None
        }
    }

    /// The relation kinds, in the order of their creation.
    pub fn edge_kinds(&self) -> (kinds: &Vec<EdgeKind>)
        ensures
            kind_views(kinds@) == self@.edge_kinds,
    {
        &self.edge_kinds
    }

    /// The graph's own list of edge references.
    pub fn edges(&self) -> (edges: &Vec<Ref<usize>>)
        ensures
            ref_views(edges@) == self@.edges,
    {
        &self.edges
    }

    /// The catalogs.
    pub fn runtime_ref(&self) -> (catalogs: &RuntimeRef)
        ensures
            catalogs@ == self@.runtime_ref,
    {
        &self.runtime_ref
    }

    /// The structural edges in the order of their handles, each as its two
    /// ends and its weight.
    pub fn links(&self) -> (links: Vec<(usize, usize, u32)>)
        ensures
            links@.len() == self@.links.len(),
            forall|e: int|
                0 <= e < links@.len() ==> (#[trigger] links@[e]).0 == self@.links[e].0 && links@[e].1
                    == self@.links[e].1 && links@[e].2 == self@.links[e].2,
    {
        core_link_list(&self.core)
    }

    /// The number of nodes.
    pub fn node_count(&self) -> (count: usize)
        ensures
            count == self@.nodes.len(),
    {
        assert(self@.nodes.len() == self.nodes@.len());
        self.nodes.len()
    }

    /// The number of structural edges.
    pub fn edge_count(&self) -> (count: usize)
        ensures
            count == self@.links.len(),
    {
        core_edges(&self.core)
    }

    /// The handle of the node named `name`, if the graph has one.
    pub fn get_node_index_by_name(&self, name: &str) -> (handle: Option<usize>)
        requires
            self.wf(),
        ensures
            match handle {
                Some(h) => self@.handle(h as int) && self@.nodes[h as int].name == name@,
                None => forall|i: int| 0 <= i < self@.nodes.len() ==> self@.nodes[i].name != name@,
            },
            handle == if self@.index.contains_key(name@) {
                Some(self@.index[name@])
            } else {
                None
            },
    {
        match self.node_index_by_name.get(name) {
            Some(h) => {
                assert(self@.index.contains_key(name@));
                Some(*h)
            },
            None => {
                assert forall|i: int| 0 <= i < self@.nodes.len() implies self@.nodes[i].name != name@ by {
                    assert(self@.node_ok(i));
                }
                None
            },
        }
    }

    /// Connects two nodes under the relation kind `name`. Each node is looked
    /// up by its name and enters the graph if it is not there. Where one of
    /// the two lists the other under `name` already, nothing is added; else
    /// the two get one structural edge, the kind gets one more use (a kind
    /// that is new is created with `description`), and each node lists the
    /// other. At last the node catalog is ranked by descending degree.
    ///
    /// The call fails, and leaves the graph as it was, exactly when the graph
    /// has no room for what would be added.
    pub fn add_connection(&mut self, from: Node<T>, to: Node<T>, name: &str, description: &str) -> (r: Result<
        (),
        GraphError,
    >)
        requires
            old(self).wf(),
        ensures
            final(self).wf(),
            final(self)@.symmetric(),
            final(self)@.degrees_hold(),
            r is Ok <==> old(self)@.room_for(from@.name, to@.name, name@),
            r matches Ok(_) ==> exists|fresh: Fresh|
                final(self)@ == #[trigger] old(self)@.connect(from@, to@, name@, description@, fresh),
            r matches Err(e) ==> e == GraphError::Full && final(self)@ == old(self)@,
    {
        let kind = name.to_owned();
        if !self.has_room(&from.name, &to.name, &kind) {
            proof {
                lemma_symmetric(self@);
                lemma_degrees(self@);
            }
            return Err(GraphError::Full);
        }
        let stamp = clock_now();
        let ghost pre = self@;
        let ghost from_v = from@;
        let ghost to_v = to@;
        let from_idx = self.get_or_add_node(from, stamp);
        let ghost mid = self@;
        proof {
            lemma_with_node_wf(pre, from_v, stamp);
        }
        let to_idx = self.get_or_add_node(to, stamp);
        let ghost staged = self@;
        let ghost a = from_idx as int;
        let ghost b = to_idx as int;
        proof {
            lemma_with_node_wf(mid, to_v, stamp);
            lemma_staged(pre, from_v, to_v, kind@, stamp);
            assert(staged.nodes.len() == self.nodes@.len());
            assert(staged.catalog_ok());
            assert forall|p: int| 0 <= p < staged.runtime_ref.nodes.len() implies (#[trigger] staged.runtime_ref.nodes[p]).index
                < self.nodes@.len() by {
                assert(staged.catalog_entry_ok(staged.runtime_ref.nodes[p]));
            }
        }
        match self.find_existing_connection(&kind, from_idx, to_idx) {
            Some(edge_ref) => {
                self.ensure_connections_present(from_idx, to_idx, edge_ref, stamp);
                proof {
                    lemma_settled(staged, a, b, edge_ref@, stamp);
                }
                self.update_metrics_and_sort(from_idx, to_idx);
                proof {
                    lemma_reranked_wf(staged);
                    let fresh = Fresh { stamp, kind_id: 0, kind_created: stamp, edge_id: 0 };
                    assert(self@ == pre.connect(from_v, to_v, name@, description@, fresh));
                }
            },
            None => {
                let fresh = self.link_up(from_idx, to_idx, &kind, description, stamp);
                proof {
                    assert(self@ == pre.connect(from_v, to_v, name@, description@, fresh@));
                }
            },
        }
        proof {
            lemma_symmetric(self@);
            lemma_degrees(self@);
        }
        Ok(())
    }

    /// Records a new structural edge between two nodes under `kind`: the edge
    /// and its catalog entry, one more use of the kind, the kind's catalog
    /// entry and the graph's stamp. Returns the identifier of the kind.
    fn record_link(&mut self, from_idx: usize, to_idx: usize, kind: &String, description: &str, stamp: Timestamp) -> (out: (
        u128,
        Ghost<Fresh>,
    ))
        requires
            may_link(old(self)@, from_idx as int, to_idx as int, kind@),
            core_node_count(old(self).core) == old(self).nodes@.len(),
        ensures
            out.1@.stamp == stamp,
            final(self)@ == old(self)@.recorded(from_idx as int, to_idx as int, kind@, description@, out.1@),
            out.0 == old(self)@.kind_ref(kind@, description@, out.1@).uuid,
            core_node_count(final(self).core) == final(self).nodes@.len(),
            final(self).nodes@.len() == old(self).nodes@.len(),
    {
        let ghost staged = self@;
        proof {
            assert(staged.links_ok());
            assert(staged.nodes.len() == self.nodes@.len());
        }
        let edge_index = self.add_core_edge(from_idx, to_idx);
        let position = self.get_or_create_edge_kind(kind, description);
        let ghost created = self@.edge_kinds[position as int];
        self.increment_edge_kind_energy(position, stamp);
        assert(self@.edge_kinds.len() == self.edge_kinds@.len());
        let kid = self.edge_kinds[position].metadata.id;
        let ghost kinds = self@.edge_kinds;
        assert(kinds[position as int] == self.edge_kinds@[position as int]@);
        self.ensure_runtime_edge_instance(kind, edge_index);
        let ghost edge_id = self@.runtime_ref.edges.last().uuid;
        let ghost fresh = Fresh { stamp, kind_id: created.metadata.id, kind_created: created.metadata.created_at, edge_id };
        proof {
            assert forall|p: int| 0 <= p < staged.runtime_ref.edges.len() implies (#[trigger] staged.runtime_ref.edges[p]).index
                != edge_index by {
                assert(staged.link_ok(p));
            }
            assert(self@.runtime_ref.edges =~= staged.runtime_ref.edges.push(
                RefView { uuid: edge_id, name: kind@, index: edge_index },
            ));
            if staged.kind_known(kind@) {
                assert(kinds == staged.kinds_using(kind@, description@, fresh));
            } else {
                assert(kinds =~= staged.kinds_using(kind@, description@, fresh));
            }
            lemma_kind_at(kinds, kind@, position as int);
        }
        self.ensure_runtime_edge_kind(kind, kid);
        self.metadata.touch(stamp);
        (kid, Ghost(fresh))
    }

    /// Links up two nodes that are not yet connected under `kind`, and ranks
    /// the node catalog.
    fn link_up(&mut self, from_idx: usize, to_idx: usize, kind: &String, description: &str, stamp: Timestamp) -> (fresh: Ghost<
        Fresh,
    >)
        requires
            may_link(old(self)@, from_idx as int, to_idx as int, kind@),
            core_node_count(old(self).core) == old(self).nodes@.len(),
        ensures
            fresh@.stamp == stamp,
            final(self)@ == old(self)@.linked_up(from_idx as int, to_idx as int, kind@, description@, fresh@).reranked(),
            final(self).wf(),
    {
        let ghost staged = self@;
        let ghost a = from_idx as int;
        let ghost b = to_idx as int;
        assert(staged.nodes.len() == self.nodes@.len());
        let (kid, fresh) = self.record_link(from_idx, to_idx, kind, description, stamp);
        let ghost before = self@;
        self.push_connection(from_idx, to_idx, kind, kid, stamp);
        let ghost pushed = self@;
        proof {
            assert(staged.catalog_ok());
            assert forall|p: int| 0 <= p < pushed.runtime_ref.nodes.len() implies (#[trigger] pushed.runtime_ref.nodes[p]).index
                < self.nodes@.len() by {
                assert(staged.catalog_entry_ok(staged.runtime_ref.nodes[p]));
            }
        }
        self.update_metrics_and_sort(from_idx, to_idx);
        proof {
            let edge = RefView { uuid: kid, name: kind@, index: kid };
            let target = staged.linked_up(a, b, kind@, description@, fresh@);
            assert(before.nodes == staged.nodes);
            let one = before.ensured(a, b, edge, stamp);
            assert(!before.nodes[a].leads(b, kind@));
            let last = staged.nodes[a].connections.len() as int;
            assert(one.nodes[a].connections[last].leads(b, kind@));
            if a != b {
                assert(one.nodes[b] == staged.nodes[b]);
                assert(!one.nodes[b].leads(a, kind@));
            }
            assert(entry_to(one.nodes, a, edge) == entry_to(staged.nodes, a, edge));
            let done = pushed.refreshed_at(a).refreshed_at(b);
            assert(done.nodes =~= target.nodes);
            assert(done == target);
            lemma_linked_up_wf(staged, a, b, kind@, description@, fresh@);
            lemma_reranked_wf(target);
        }
        fresh
    }

    /// The number of links of a shortest walk from the node `from` to the
    /// node `to`, over the structural edges in either direction. A node is
    /// at distance zero from itself. The call gives `NotFound` where one of
    /// the two is no node of the graph, or where no walk leads to `to`; so it
    /// does for a node without connections and any other node.
    #[verifier::loop_isolation(false)]
    pub fn calculate_distance(&self, from: usize, to: usize) -> (r: Result<u32, GraphError>)
        requires
            self.wf(),
        ensures
            match r {
                Ok(hops) => self@.handle(from as int) && self@.handle(to as int) && distance_is(
                    self@.links,
                    from as int,
                    to as int,
                    hops as int,
                ),
                Err(e) => e == GraphError::NotFound && (!self@.handle(from as int) || !self@.handle(to as int)
                    || !reachable(self@.links, from as int, to as int)),
            },
            self@.handle(from as int) && self@.nodes[from as int].connections.len() == 0 && from != to ==> r is Err,
    {
        proof {
            assert(self@.nodes.len() == self.nodes@.len());
            if self@.handle(from as int) && self@.nodes[from as int].connections.len() == 0 && from != to {
                self@.lemma_lone_node(from as int, to as int);
            }
        }
        if from >= self.nodes.len() || to >= self.nodes.len() {
            return Err(GraphError::NotFound);
        }
        proof {
            assert forall|e: int| 0 <= e < self@.links.len() implies (#[trigger] self@.links[e]).2 == 1 by {
                assert(self@.link_ok(e));
            }
        }
        let scores = core_scores(&self.core, from, to);
        let mut i: usize = 0;
        while i < scores.len()
            invariant
                i <= scores.len(),
                forall|q: int| 0 <= q < i ==> (#[trigger] scores@[q]).0 != to,
            decreases scores.len() - i,
        {
            if scores[i].0 == to {
                return Ok(scores[i].1);
            }
            i += 1;
        }
        Err(GraphError::NotFound)
    }

    /// The first `k` entries of the node catalog ranked by descending degree,
    /// entries of equal degree in the order of the catalog; all entries where
    /// the catalog has fewer than `k`.
    pub fn top_k_nodes_by_energy(&self, k: usize) -> (top: Vec<Ref<usize>>)
        requires
            self.wf(),
        ensures
            ref_views(top@) == by_degree(self@.runtime_ref.nodes, self@.nodes).take(
                if k <= self@.nodes.len() {
                    k as int
                } else {
                    self@.nodes.len() as int
                },
            ),
    {
        proof {
            assert(self@.catalog_ok());
            assert forall|p: int| 0 <= p < self.runtime_ref.nodes@.len() implies (#[trigger] self.runtime_ref.nodes@[p]).index
                < self.nodes@.len() by {
                assert(self@.catalog_entry_ok(self@.runtime_ref.nodes[p]));
                assert(self@.runtime_ref.nodes[p] == self.runtime_ref.nodes@[p]@);
                assert(self@.nodes.len() == self.nodes@.len());
            }
        }
        let mut top = rank_catalog(&self.runtime_ref.nodes, &self.nodes);
        let ghost all = ref_views(top@);
        proof {
            lemma_ranked_permutes::<Scored>(scored(self@.runtime_ref.nodes, self@.nodes));
            assert(all.len() == self@.nodes.len());
        }
        top.truncate(k);
        assert(ref_views(top@) =~= all.take(
            if k <= self@.nodes.len() {
                k as int
            } else {
                self@.nodes.len() as int
            },
        ));
        top
    }

    /// The peers that the node `node_idx` lists under the kind
    /// `edge_kind_name`, in the order of its adjacency list; none where
    /// `node_idx` is no node of the graph.
    #[verifier::loop_isolation(false)]
    pub fn neighbors_by_edge_kind(&self, node_idx: usize, edge_kind_name: &str) -> (peers: Vec<Ref<usize>>)
        ensures
            ref_views(peers@) == if self@.handle(node_idx as int) {
                peers_under(self@.nodes[node_idx as int].connections, edge_kind_name@)
            } else {
                Seq::empty()
            },
    {
        let mut peers: Vec<Ref<usize>> = Vec::new();
        assert(self@.nodes.len() == self.nodes@.len());
        if node_idx >= self.nodes.len() {
            assert(ref_views(peers@) =~= Seq::empty());
            return peers;
        }
        let kind = edge_kind_name.to_owned();
        let list = &self.nodes[node_idx].connections;
        let ghost row = self@.nodes[node_idx as int].connections;
        let ghost wanted = |c: ConnectionView| c.edge.name == kind@;
        let mut k: usize = 0;
        assert(row.take(0) =~= Seq::empty());
        proof {
            reveal(Seq::filter);
        }
        assert(ref_views(peers@) =~= peers_under(row.take(0), kind@));
        while k < list.len()
            invariant
                k <= list.len(),
                row == connection_views(list@),
                ref_views(peers@) == row.take(k as int).filter(wanted).map_values(|c: ConnectionView| c.node),
            decreases list.len() - k,
        {
            proof {
                reveal(Seq::filter);
                assert(row.take(k + 1).drop_last() =~= row.take(k as int));
                assert(row.take(k + 1).last() == list@[k as int]@);
            }
            let ghost before = ref_views(peers@);
            if list[k].edge.name == kind {
                peers.push(list[k].node.duplicate());
                assert(ref_views(peers@) =~= before.push(list@[k as int]@.node));
                assert(row.take(k + 1).filter(wanted) == row.take(k as int).filter(wanted).push(list@[k as int]@));
                assert(row.take(k + 1).filter(wanted).map_values(|c: ConnectionView| c.node) =~= before.push(
                    list@[k as int]@.node,
                ));
            } else {
                assert(row.take(k + 1).filter(wanted) == row.take(k as int).filter(wanted));
            }
            k += 1;
        }
        assert(row.take(k as int) =~= row);
        peers
    }

    /// Every relation kind with its usage counter, by descending counter;
    /// kinds of equal counter by their names in lexicographic order.
    #[verifier::loop_isolation(false)]
    pub fn edge_kind_stats(&self) -> (list: Vec<(String, u32)>)
        ensures
            list@.len() == self@.edge_kinds.len(),
            forall|i: int|
                0 <= i < list@.len() ==> (#[trigger] list@[i]).0@ == ranked::<KindStat>(stats(self@.edge_kinds))[i].name
                    && list@[i].1 == ranked::<KindStat>(stats(self@.edge_kinds))[i].energy,
    {
        let ghost target = stats(self@.edge_kinds);
        let mut rows: Vec<KindStat> = Vec::new();
        let mut j: usize = 0;
        while j < self.edge_kinds.len()
            invariant
                j <= self.edge_kinds.len(),
                views(rows@) =~= target.subrange(0, j as int),
            decreases self.edge_kinds.len() - j,
        {
            rows.push(KindStat { name: self.edge_kinds[j].name.clone(), energy: self.edge_kinds[j].energy });
            j += 1;
        }
        assert(views(rows@) =~= target);
        let sorted = rank(rows);
        proof {
            lemma_ranked_permutes::<KindStat>(target);
        }
        let mut list: Vec<(String, u32)> = Vec::new();
        let mut i: usize = 0;
        while i < sorted.len()
            invariant
                i <= sorted.len(),
                list@.len() == i,
                forall|q: int|
                    0 <= q < i ==> (#[trigger] list@[q]).0@ == views(sorted@)[q].name && list@[q].1 == views(
                        sorted@,
                    )[q].energy,
            decreases sorted.len() - i,
        {
            list.push((sorted[i].name.clone(), sorted[i].energy));
            i += 1;
        }
        list
    }

    /// Whether the graph has room for a connection between the nodes named
    /// `from` and `to` under `kind`.
    fn has_room(&self, from: &String, to: &String, kind: &String) -> (b: bool)
        requires
            self.wf(),
        ensures
            b == self@.room_for(from@, to@, kind@),
    {
        let fa = self.get_node_index_by_name(from.as_str());
        let fb = self.get_node_index_by_name(to.as_str());
        let mut newcomers: usize = 0;
        if fa.is_none() {
            newcomers = newcomers + 1;
        }
        if fb.is_none() && !(*to == *from) {
            newcomers = newcomers + 1;
        }
        assert(newcomers == self@.newcomers(from@, to@));
        if self.nodes.len() > CORE_LIMIT - newcomers {
            return false;
        }
        let bound = match (fa, fb) {
            (Some(a), Some(b)) => self.find_entry(a, b, kind).is_some() || self.find_entry(b, a, kind).is_some(),
            _ => false,
        };
        assert(bound == self@.bound(from@, to@, kind@));
        if bound {
            return true;
        }
        if core_edges(&self.core) >= CORE_LIMIT {
            return false;
        }
        let room_a = match fa {
            Some(a) => self.nodes[a].connections.len() < u32::MAX as usize,
            None => true,
        };
        let room_b = match fb {
            Some(b) => self.nodes[b].connections.len() < u32::MAX as usize,
            None => true,
        };
        room_a && room_b
    }

    /// The position of the first entry in the adjacency list of node `a` that
    /// leads to node `b` under `kind`.
    #[verifier::loop_isolation(false)]
    fn find_entry(&self, a: usize, b: usize, kind: &String) -> (found: Option<usize>)
        requires
            a < self.nodes@.len(),
        ensures
            match found {
                Some(k) => self@.entry(a as int, k as int) && self@.at(a as int, k as int).leads(b as int, kind@)
                    && forall|q: int| 0 <= q < k ==> !self@.at(a as int, q).leads(b as int, kind@),
                None => !self@.nodes[a as int].leads(b as int, kind@),
            },
    {
        let list = &self.nodes[a].connections;
        let ghost row = self@.nodes[a as int].connections;
        let mut k: usize = 0;
        while k < list.len()
            invariant
                k <= list.len(),
                row == connection_views(list@),
                forall|q: int| 0 <= q < k ==> !(#[trigger] row[q]).leads(b as int, kind@),
            decreases list.len() - k,
        {
            if list[k].node.index == b && list[k].edge.name == *kind {
                assert(row[k as int] == list@[k as int]@);
                return Some(k);
            }
            assert(row[k as int] == list@[k as int]@);
            k += 1;
        }
        None
    }

    /// The kind reference of a connection between the nodes `from_idx` and
    /// `to_idx` under `name`, looked for in the list of the first and then in
    /// that of the second.
    fn find_existing_connection(&self, name: &String, from_idx: usize, to_idx: usize) -> (found: Option<Ref<u128>>)
        requires
            from_idx < self.nodes@.len(),
            to_idx < self.nodes@.len(),
        ensures
            found is Some <==> self@.connected(from_idx as int, to_idx as int, name@),
            found matches Some(edge) ==> edge@.name == name@ && exists|i: int, k: int|
                self@.entry(i, k) && (i == from_idx || i == to_idx) && (#[trigger] self@.at(i, k)).edge == edge@,
    {
        match self.find_entry(from_idx, to_idx, name) {
            Some(k) => {
                assert(self@.at(from_idx as int, k as int) == self.nodes@[from_idx as int].connections@[k as int]@);
                Some(self.nodes[from_idx].connections[k].edge.duplicate())
            },
            None => match self.find_entry(to_idx, from_idx, name) {
                Some(k) => {
                    assert(self@.at(to_idx as int, k as int) == self.nodes@[to_idx as int].connections@[k as int]@);
                    Some(self.nodes[to_idx].connections[k].edge.duplicate())
                },
                None => None,
            },
        }
    }

    /// Get-or-insert of a node by its name. A node that enters leaves its
    /// connections behind.
    fn get_or_add_node(&mut self, node: Node<T>, stamp: Timestamp) -> (handle: usize)
        requires
            core_node_count(old(self).core) == old(self).nodes@.len(),
            old(self)@.has(node@.name) || old(self).nodes@.len() < CORE_LIMIT,
        ensures
            final(self)@ == old(self)@.with_node(node@, stamp),
            core_node_count(final(self).core) == final(self).nodes@.len(),
            handle == if old(self)@.has(node@.name) {
                old(self)@.index[node@.name]
            } else {
                old(self).nodes@.len() as usize
            },
    {
        match self.node_index_by_name.get(node.name.as_str()) {
            Some(found) => *found,
            None => {
                let ghost entering = node@;
                let idx = core_add_node(&mut self.core);
                let mut node = node;
                let name = node.name.clone();
                let uuid = node.metadata.id;
                node.node_index = idx;
                node.energy = 0;
                node.connections = Vec::new();
                assert(node@.connections =~= Seq::empty());
                assert(node@ == entering.admitted(idx));
                self.runtime_ref.nodes.push(Ref { name: name.clone(), uuid, index: idx });
                self.node_index_by_name.insert(name, idx);
                self.nodes.push(node);
                self.metadata.touch(stamp);
                proof {
                    let target = old(self)@.with_node(entering, stamp);
                    assert(self@.nodes =~= target.nodes);
                    assert(self@.runtime_ref.nodes =~= target.runtime_ref.nodes);
                    assert(self@.runtime_ref == target.runtime_ref);
                }
                idx
            },
        }
    }

    /// Makes node `a` list node `b` under the kind that `edge` refers to.
    fn ensure_entry(&mut self, a: usize, b: usize, edge: &Ref<u128>, stamp: Timestamp)
        requires
            a < old(self).nodes@.len(),
            b < old(self).nodes@.len(),
        ensures
            final(self)@ == old(self)@.ensured(a as int, b as int, edge@, stamp),
            final(self).nodes@.len() == old(self).nodes@.len(),
            core_node_count(final(self).core) == core_node_count(old(self).core),
    {
        if self.find_entry(a, b, &edge.name).is_none() {
            let peer = Ref { name: self.nodes[b].name.clone(), uuid: self.nodes[b].metadata.id, index: b };
            let entry = Connection { node: peer, edge: edge.duplicate() };
            assert(entry@ == entry_to(old(self)@.nodes, b as int, edge@));
            self.nodes[a].connections.push(entry);
            self.nodes[a].metadata.touch(stamp);
            proof {
                let target = old(self)@.ensured(a as int, b as int, edge@, stamp);
                assert(self@.nodes[a as int].connections =~= target.nodes[a as int].connections);
                assert(self@.nodes =~= target.nodes);
            }
        }
    }

    /// Heals a connection that is known at one end: each of the two nodes
    /// lists the other under the kind of `edge_ref` afterwards.
    fn ensure_connections_present(&mut self, from_idx: usize, to_idx: usize, edge_ref: Ref<u128>, stamp: Timestamp)
        requires
            from_idx < old(self).nodes@.len(),
            to_idx < old(self).nodes@.len(),
        ensures
            final(self)@ == old(self)@.ensured(from_idx as int, to_idx as int, edge_ref@, stamp).ensured(
                to_idx as int,
                from_idx as int,
                edge_ref@,
                stamp,
            ),
            core_node_count(final(self).core) == core_node_count(old(self).core),
            final(self).nodes@.len() == old(self).nodes@.len(),
    {
        self.ensure_entry(from_idx, to_idx, &edge_ref, stamp);
        self.ensure_entry(to_idx, from_idx, &edge_ref, stamp);
    }

    /// Enters a new connection at both ends, under the kind named `name` with
    /// the identifier `edge_kind_id`.
    fn push_connection(&mut self, from_idx: usize, to_idx: usize, name: &String, edge_kind_id: u128, stamp: Timestamp)
        requires
            from_idx < old(self).nodes@.len(),
            to_idx < old(self).nodes@.len(),
        ensures
            final(self)@ == old(self)@.ensured(
                from_idx as int,
                to_idx as int,
                RefView { uuid: edge_kind_id, name: name@, index: edge_kind_id },
                stamp,
            ).ensured(
                to_idx as int,
                from_idx as int,
                RefView { uuid: edge_kind_id, name: name@, index: edge_kind_id },
                stamp,
            ),
            core_node_count(final(self).core) == core_node_count(old(self).core),
            final(self).nodes@.len() == old(self).nodes@.len(),
    {
        let edge = Ref { name: name.clone(), uuid: edge_kind_id, index: edge_kind_id };
        self.ensure_entry(from_idx, to_idx, &edge, stamp);
        self.ensure_entry(to_idx, from_idx, &edge, stamp);
    }

    /// One more structural edge, of weight one.
    fn add_core_edge(&mut self, from_idx: usize, to_idx: usize) -> (edge_index: usize)
        requires
            from_idx < core_node_count(old(self).core),
            to_idx < core_node_count(old(self).core),
            old(self)@.links.len() < CORE_LIMIT,
        ensures
            final(self)@ == (GraphoView { links: old(self)@.links.push((from_idx as int, to_idx as int, 1u32)), ..old(self)@ }),
            edge_index == old(self)@.links.len(),
            core_node_count(final(self).core) == core_node_count(old(self).core),
            final(self).nodes@.len() == old(self).nodes@.len(),
    {
        core_add_edge(&mut self.core, from_idx, to_idx, 1)
    }

    /// The position of the kind named `name`; a kind that is not there yet is
    /// created with `description` and comes last.
    #[verifier::loop_isolation(false)]
    fn get_or_create_edge_kind(&mut self, name: &String, description: &str) -> (position: usize)
        ensures
            position < final(self)@.edge_kinds.len(),
            position == kind_at(final(self)@.edge_kinds, name@),
            final(self)@.edge_kinds[position as int].name == name@,
            final(self)@ == (GraphoView { edge_kinds: final(self)@.edge_kinds, ..old(self)@ }),
            old(self)@.kind_known(name@) ==> final(self)@.edge_kinds == old(self)@.edge_kinds,
            !old(self)@.kind_known(name@) ==> {
                let created = final(self)@.edge_kinds[position as int];
                &&& final(self)@.edge_kinds == old(self)@.edge_kinds.push(created)
                &&& created.energy == 0
                &&& created.metadata.description == description@
                &&& created.metadata.updated_at == created.metadata.created_at
            },
            core_node_count(final(self).core) == core_node_count(old(self).core),
            final(self).nodes@.len() == old(self).nodes@.len(),
    {
        let ghost kinds = self@.edge_kinds;
        let mut j: usize = 0;
        while j < self.edge_kinds.len()
            invariant
                j <= self.edge_kinds.len(),
                forall|i: int| 0 <= i < j ==> (#[trigger] kinds[i]).name != name@,
            decreases self.edge_kinds.len() - j,
        {
            assert(kinds[j as int] == self.edge_kinds@[j as int]@);
            if self.edge_kinds[j].name == *name {
                proof {
                    lemma_kind_at(kinds, name@, j as int);
                }
                return j;
            }
            j += 1;
        }
        let kind = EdgeKind::new(name.as_str(), description);
        self.edge_kinds.push(kind);
        assert(self@.edge_kinds =~= kinds.push(kind@));
        assert(!old(self)@.kind_known(name@));
        proof {
            lemma_kind_at(self@.edge_kinds, name@, j as int);
        }
        j
    }

    /// One more use of the kind at `position`.
    fn increment_edge_kind_energy(&mut self, position: usize, stamp: Timestamp)
        requires
            position < old(self)@.edge_kinds.len(),
        ensures
            final(self)@ == (GraphoView {
                edge_kinds: old(self)@.edge_kinds.update(
                    position as int,
                    used(old(self)@.edge_kinds[position as int], stamp),
                ),
                ..old(self)@
            }),
            core_node_count(final(self).core) == core_node_count(old(self).core),
            final(self).nodes@.len() == old(self).nodes@.len(),
    {
        let energy = self.edge_kinds[position].energy;
        self.edge_kinds[position].energy = energy.saturating_add(1);
        self.edge_kinds[position].metadata.touch(stamp);
        assert(self@.edge_kinds =~= old(self)@.edge_kinds.update(
            position as int,
            used(old(self)@.edge_kinds[position as int], stamp),
        ));
    }

    /// Catalogues the structural edge `edge_index` under the kind `name`,
    /// unless the catalog has an entry for that edge.
    #[verifier::loop_isolation(false)]
    fn ensure_runtime_edge_instance(&mut self, name: &String, edge_index: usize)
        ensures
            final(self)@ == (GraphoView {
                runtime_ref: RuntimeRefView { edges: final(self)@.runtime_ref.edges, ..old(self)@.runtime_ref },
                ..old(self)@
            }),
            (exists|p: int| 0 <= p < old(self)@.runtime_ref.edges.len() && (#[trigger] old(self)@.runtime_ref.edges[p]).index == edge_index)
                ==> final(self)@.runtime_ref.edges == old(self)@.runtime_ref.edges,
            (forall|p: int| 0 <= p < old(self)@.runtime_ref.edges.len() ==> (#[trigger] old(self)@.runtime_ref.edges[p]).index != edge_index)
                ==> {
                let entry = final(self)@.runtime_ref.edges.last();
                &&& final(self)@.runtime_ref.edges == old(self)@.runtime_ref.edges.push(entry)
                &&& entry.name == name@
                &&& entry.index == edge_index
            },
            core_node_count(final(self).core) == core_node_count(old(self).core),
            final(self).nodes@.len() == old(self).nodes@.len(),
    {
        let ghost catalog = self@.runtime_ref.edges;
        let mut p: usize = 0;
        while p < self.runtime_ref.edges.len()
            invariant
                p <= self.runtime_ref.edges.len(),
                forall|q: int| 0 <= q < p ==> (#[trigger] catalog[q]).index != edge_index,
            decreases self.runtime_ref.edges.len() - p,
        {
            assert(catalog[p as int] == self.runtime_ref.edges@[p as int]@);
            if self.runtime_ref.edges[p].index == edge_index {
                return ;
            }
            p += 1;
        }
        let entry = Ref { name: name.clone(), uuid: fresh_id(), index: edge_index };
        self.runtime_ref.edges.push(entry);
        assert(self@.runtime_ref.edges =~= catalog.push(entry@));
    }

    /// Catalogues the kind `name` under its identifier, unless the catalog has
    /// an entry of that identifier.
    #[verifier::loop_isolation(false)]
    fn ensure_runtime_edge_kind(&mut self, name: &String, edge_kind_id: u128)
        ensures
            final(self)@ == (GraphoView {
                runtime_ref: RuntimeRefView {
                    edge_kinds: old(self)@.kind_catalog_with(name@, edge_kind_id),
                    ..old(self)@.runtime_ref
                },
                ..old(self)@
            }),
            core_node_count(final(self).core) == core_node_count(old(self).core),
            final(self).nodes@.len() == old(self).nodes@.len(),
    {
        let ghost catalog = self@.runtime_ref.edge_kinds;
        let mut p: usize = 0;
        while p < self.runtime_ref.edge_kinds.len()
            invariant
                p <= self.runtime_ref.edge_kinds.len(),
                forall|q: int| 0 <= q < p ==> (#[trigger] catalog[q]).uuid != edge_kind_id,
            decreases self.runtime_ref.edge_kinds.len() - p,
        {
            assert(catalog[p as int] == self.runtime_ref.edge_kinds@[p as int]@);
            if self.runtime_ref.edge_kinds[p].uuid == edge_kind_id {
                return ;
            }
            p += 1;
        }
        let entry = EdgeKindRef { name: name.clone(), uuid: edge_kind_id };
        self.runtime_ref.edge_kinds.push(entry);
        assert(self@.runtime_ref.edge_kinds =~= catalog.push(entry@));
    }

    /// Brings the handle and the degree counter of both nodes up to date, and
    /// ranks the node catalog by descending degree.
    fn update_metrics_and_sort(&mut self, from_idx: usize, to_idx: usize)
        requires
            from_idx < old(self).nodes@.len(),
            to_idx < old(self).nodes@.len(),
            forall|p: int|
                0 <= p < old(self)@.runtime_ref.nodes.len() ==> (#[trigger] old(self)@.runtime_ref.nodes[p]).index
                    < old(self).nodes@.len(),
        ensures
            final(self)@ == old(self)@.refreshed_at(from_idx as int).refreshed_at(to_idx as int).reranked(),
            core_node_count(final(self).core) == core_node_count(old(self).core),
            final(self).nodes@.len() == old(self).nodes@.len(),
    {
        self.nodes[from_idx].node_index = from_idx;
        self.nodes[from_idx].energy = degree_of(&self.nodes[from_idx].connections);
        assert(self@.nodes =~= old(self)@.refreshed_at(from_idx as int).nodes);
        let ghost mid = self@;
        self.nodes[to_idx].node_index = to_idx;
        self.nodes[to_idx].energy = degree_of(&self.nodes[to_idx].connections);
        assert(self@.nodes =~= mid.refreshed_at(to_idx as int).nodes);
        assert forall|p: int| 0 <= p < self.runtime_ref.nodes@.len() implies (#[trigger] self.runtime_ref.nodes@[p]).index
            < self.nodes@.len() by {
            assert(old(self)@.runtime_ref.nodes[p] == self.runtime_ref.nodes@[p]@);
        }
        let sorted = rank_catalog(&self.runtime_ref.nodes, &self.nodes);
        self.runtime_ref.nodes = sorted;
    }
}

impl<T: NodeTypesProps + Clone> Grapho<T> {
    /// The snapshot that is written when the graph is saved: the graph in
    /// its normal form, which does not depend on the order in which catalogs
    /// and kinds came to be.
    pub fn clone_for_save(&self) -> (snapshot: Snapshot<T>)
        ensures
            normal_form(self@, snapshot@),
    {
        let links = core_link_list(&self.core);
        assert(link_views(links@) =~= self@.links);
        let snapshot = Snapshot {
            name: self.name.clone(),
            links,
            nodes: duplicate_nodes(&self.nodes),
            edges: duplicate_refs(&self.edges),
            runtime_ref: normal_catalogs(&self.runtime_ref),
            metadata: self.metadata.duplicate(),
            edge_kinds: rank(duplicate_kinds(&self.edge_kinds)),
        };
        assert(snapshot@.nodes.len() == self@.nodes.len());
        assert forall|i: int| 0 <= i < self@.nodes.len() implies crate::models::snapshot::copied(
            self@.nodes[i],
            #[trigger] snapshot@.nodes[i],
        ) by {
            assert(snapshot@.nodes[i] == snapshot.nodes@[i]@);
            assert(self@.nodes[i] == self.nodes@[i]@);
        }
        snapshot
    }
}

impl<T: NodeTypesProps> Grapho<T> {
    /// Rebuilds the lookup cache by a scan of the node store.
    #[verifier::loop_isolation(false)]
    fn rebuild_indexes(&mut self)
        ensures
            final(self)@ == old(self)@.restored(),
            core_node_count(final(self).core) == core_node_count(old(self).core),
            final(self).nodes@.len() == old(self).nodes@.len(),
    {
        self.node_index_by_name.clear();
        let ghost all = self@.nodes;
        let mut i: usize = 0;
        assert(all.take(0) =~= Seq::empty());
        while i < self.nodes.len()
            invariant
                i <= self.nodes.len(),
                all == node_views(self.nodes@),
                self.node_index_by_name@ == index_of_names(all.take(i as int)),
                self@ == (GraphoView { index: self.node_index_by_name@, ..old(self)@ }),
                core_node_count(self.core) == core_node_count(old(self).core),
                self.nodes@.len() == old(self).nodes@.len(),
            decreases self.nodes.len() - i,
        {
            let name = self.nodes[i].name.clone();
            self.node_index_by_name.insert(name, i);
            proof {
                assert(all.take(i + 1).drop_last() =~= all.take(i as int));
                assert(all.take(i + 1).last() == self.nodes@[i as int]@);
            }
            i += 1;
        }
        assert(all.take(i as int) =~= all);
    }
}

/// The structural graph with `count` nodes and the edges `links`.
#[verifier::loop_isolation(false)]
fn build_core(count: usize, links: &Vec<(usize, usize, u32)>) -> (core: Core)
    requires
        count <= CORE_LIMIT,
        links@.len() <= CORE_LIMIT,
        forall|e: int| 0 <= e < links@.len() ==> (#[trigger] links@[e]).0 < count && links@[e].1 < count,
    ensures
        core_node_count(core) == count,
        core_links(core) == link_views(links@),
{
    let mut core = core_new();
    let mut i: usize = 0;
    while i < count
        invariant
            i <= count,
            core_node_count(core) == i,
            core_links(core) == Seq::<Link>::empty(),
        decreases count - i,
    {
        core_add_node(&mut core);
        i += 1;
    }
    let ghost target = link_views(links@);
    let mut e: usize = 0;
    while e < links.len()
        invariant
            e <= links.len(),
            core_node_count(core) == count,
            core_links(core) =~= target.take(e as int),
        decreases links.len() - e,
    {
        let l = links[e];
        core_add_edge(&mut core, l.0, l.1, l.2);
        e += 1;
    }
    assert(target.take(e as int) =~= target);
    core
}

impl<T: NodeTypesProps> Grapho<T> {
    /// The graph that a snapshot describes, with its lookup cache rebuilt by
    /// a scan of the node store. A snapshot that describes no consistent
    /// graph is rejected.
    pub fn from_snapshot(snapshot: Snapshot<T>) -> (r: Result<Grapho<T>, PersistError>)
        ensures
            r is Ok <==> snapshot@.restored().wf(),
            r matches Ok(g) ==> g.wf() && g@ == snapshot@.restored(),
            r matches Err(e) ==> e@ == PersistErrorView::Serde("inconsistent graph"@),
    {
        if !snapshot.is_consistent() {
            return Err(PersistError::Serde("inconsistent graph".to_owned()));
        }
        let ghost wanted = snapshot@.restored();
        proof {
            assert(wanted.store_ok() && wanted.links_ok());
            assert(wanted.nodes.len() == snapshot.nodes@.len());
            assert(wanted.links.len() == snapshot.links@.len());
            assert forall|e: int| 0 <= e < snapshot.links@.len() implies (#[trigger] snapshot.links@[e]).0
                < snapshot.nodes@.len() && snapshot.links@[e].1 < snapshot.nodes@.len() by {
                assert(wanted.link_ok(e));
                assert(wanted.links[e] == (
                    snapshot.links@[e].0 as int,
                    snapshot.links@[e].1 as int,
                    snapshot.links@[e].2,
                ));
            }
        }
        let core = build_core(snapshot.nodes.len(), &snapshot.links);
        let mut g = Grapho {
            name: snapshot.name,
            core,
            nodes: snapshot.nodes,
            edges: snapshot.edges,
            runtime_ref: snapshot.runtime_ref,
            metadata: snapshot.metadata,
            edge_kinds: snapshot.edge_kinds,
            node_index_by_name: StringHashMap::new(),
        };
        g.rebuild_indexes();
        assert(g@ == wanted);
        Ok(g)
    }
}

/// The degree that the counter shows for an adjacency list: its length, capped
/// at the counter's range.
fn degree_of(list: &Vec<Connection>) -> (degree: u32)
    ensures
        degree == if list@.len() <= u32::MAX {
            list@.len() as u32
        } else {
            u32::MAX
        },
{
    if list.len() <= u32::MAX as usize {
        list.len() as u32
    } else {
        u32::MAX
    }
}

/// The node catalog `catalog` by descending degree of its nodes; entries of
/// equal degree keep their order.
#[verifier::loop_isolation(false)]
fn rank_catalog<T>(catalog: &Vec<Ref<usize>>, nodes: &Vec<Node<T>>) -> (out: Vec<Ref<usize>>)
    requires
        forall|p: int| 0 <= p < catalog@.len() ==> (#[trigger] catalog@[p]).index < nodes@.len(),
    ensures
        ref_views(out@) == by_degree(ref_views(catalog@), node_views(nodes@)),
{
    let ghost target = scored(ref_views(catalog@), node_views(nodes@));
    let mut rows: Vec<Scored> = Vec::new();
    let mut p: usize = 0;
    while p < catalog.len()
        invariant
            p <= catalog.len(),
            views(rows@) =~= target.subrange(0, p as int),
        decreases catalog.len() - p,
    {
        let entry = catalog[p].duplicate();
        rows.push(Scored { energy: nodes[catalog[p].index].energy, entry });
        p += 1;
    }
    assert(views(rows@) =~= target);
    let ranked_rows = rank(rows);
    let ghost wanted = views(ranked_rows@).map_values(|s: ScoredView| s.entry);
    let mut out: Vec<Ref<usize>> = Vec::new();
    let mut q: usize = 0;
    while q < ranked_rows.len()
        invariant
            q <= ranked_rows.len(),
            ref_views(out@) =~= wanted.subrange(0, q as int),
        decreases ranked_rows.len() - q,
    {
        out.push(ranked_rows[q].entry.duplicate());
        q += 1;
    }
    assert(ref_views(out@) =~= wanted);
    out
}


} // verus!
