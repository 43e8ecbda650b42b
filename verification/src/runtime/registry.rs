//! The registry of graphs: graphs by their names, and identifiers of relation
//! kinds that graphs share.

use vstd::hash_map::StringHashMap;
use vstd::prelude::*;
use crate::models::graph_models::Grapho;
use crate::models::invariants::GraphoView;
use crate::models::node_types::NodeTypesProps;
use crate::models::records::fresh_id;

verus! {

/// Graphs by their names, and the identifiers of the relation kinds that
/// they share.
pub struct GraphSpace<T: NodeTypesProps> {
    graphs: Vec<Grapho<T>>,
    global_edge_kinds: StringHashMap<u128>,
}

impl<T: NodeTypesProps> GraphSpace<T> {
    /// The graphs of the registry, in the order in which their names came in.
    pub closed spec fn graphs(&self) -> Seq<Grapho<T>> {
        self.graphs@
    }

    /// The identifiers of the shared relation kinds, by name.
    pub closed spec fn kinds(&self) -> Map<Seq<char>, u128> {
        self.global_edge_kinds@
    }

    /// `i` is the position of a graph named `name`.
    pub open spec fn holds(&self, i: int, name: Seq<char>) -> bool {
        0 <= i < self.graphs().len() && self.graphs()[i]@.name == name
    }

    /// Some graph is named `name`.
    pub open spec fn has(&self, name: Seq<char>) -> bool {
        exists|i: int| #[trigger] self.holds(i, name)
    }

    /// `i` is the first position of a graph named `name`.
    pub open spec fn first_holds(&self, i: int, name: Seq<char>) -> bool {
        self.holds(i, name) && forall|q: int| 0 <= q < i ==> !#[trigger] self.holds(q, name)
    }

    /// The first position of a graph named `name`.
    pub open spec fn position(&self, name: Seq<char>) -> int {
        choose|i: int| #[trigger] self.first_holds(i, name)
    }

    /// The registry is consistent: the names of its graphs differ, and each
    /// graph is consistent.
    pub open spec fn wf(&self) -> bool {
        &&& forall|i: int, j: int|
            0 <= i < j < self.graphs().len() ==> (#[trigger] self.graphs()[i])@.name != (#[trigger] self.graphs()[j])@.name
        &&& forall|i: int| 0 <= i < self.graphs().len() ==> (#[trigger] self.graphs()[i]).wf()
    }

    /// An empty registry.
    pub fn new() -> (space: GraphSpace<T>)
        ensures
            space.wf(),
            space.graphs().len() == 0,
            space.kinds() == Map::<Seq<char>, u128>::empty(),
    {
        GraphSpace { graphs: Vec::new(), global_edge_kinds: StringHashMap::new() }
    }

    /// The position of the graph named `name`.
    #[verifier::loop_isolation(false)]
    fn find(&self, name: &str) -> (found: Option<usize>)
        ensures
            match found {
                Some(i) => self.has(name@) && i == self.position(name@) && self.first_holds(i as int, name@),
                None => !self.has(name@),
            },
    {
        let wanted = name.to_owned();
        let mut i: usize = 0;
        while i < self.graphs.len()
            invariant
                i <= self.graphs.len(),
                forall|q: int| 0 <= q < i ==> !#[trigger] self.holds(q, name@),
            decreases self.graphs.len() - i,
        {
            if *self.graphs[i].name() == wanted {
                proof {
                    self.lemma_position(i as int, name@);
                }
                return Some(i);
            }
            i += 1;
        }
        None
    }

    /// The graph named `name`, if the registry has one.
    pub fn get_graph(&self, name: &str) -> (found: Option<&Grapho<T>>)
        ensures
            match found {
                Some(g) => self.has(name@) && *g == self.graphs()[self.position(name@)] && g@.name == name@,
                None => !self.has(name@),
            },
            self.wf() ==> (found matches Some(g) ==> g.wf()),
    {
        match self.find(name) {
            Some(i) => Some(&self.graphs[i]),
            None => None,
        }
    }

    /// The graph named `name`, to be changed in place.
    pub fn get_graph_mut(&mut self, name: &str) -> (found: Option<&mut Grapho<T>>)
        ensures
            match found {
                Some(g) => old(self).has(name@) && *g == old(self).graphs()[old(self).position(name@)]
                    && final(self).graphs() == old(self).graphs().update(old(self).position(name@), *final(g))
                    && final(self).kinds() == old(self).kinds(),
                None => !old(self).has(name@) && final(self).graphs() == old(self).graphs() && final(self).kinds()
                    == old(self).kinds(),
            },
    {
        match self.find(name) {
            Some(i) => Some(&mut self.graphs[i]),
            None => None,
        }
    }

    /// Puts `graph` into the registry under its name, in the place of a
    /// graph of that name if there is one.
    pub fn add_graph(&mut self, graph: Grapho<T>)
        ensures
            final(self).graphs() == if old(self).has(graph@.name) {
                old(self).graphs().update(old(self).position(graph@.name), graph)
            } else {
                old(self).graphs().push(graph)
            },
            final(self).kinds() == old(self).kinds(),
            final(self).has(graph@.name),
            final(self).graphs()[final(self).position(graph@.name)] == graph,
            old(self).wf() && graph.wf() ==> final(self).wf(),
    {
        let ghost name = graph@.name;
        match self.find(graph.name().as_str()) {
            Some(i) => {
                self.graphs[i] = graph;
                proof {
                    assert(self.holds(i as int, name));
                    assert forall|q: int| 0 <= q < i implies !#[trigger] self.holds(q, name) by {
                        assert(!old(self).holds(q, name));
                    }
                    self.lemma_position(i as int, name);
                    if old(self).wf() && graph.wf() {
                        assert forall|p: int, q: int| 0 <= p < q < self.graphs().len() implies (
                        #[trigger] self.graphs()[p])@.name != (#[trigger] self.graphs()[q])@.name by {
                            assert(old(self).graphs()[p]@.name != old(self).graphs()[q]@.name);
                        }
                    }
                }
            },
            None => {
                self.graphs.push(graph);
                proof {
                    let i = old(self).graphs().len() as int;
                    assert(self.holds(i, name));
                    assert forall|q: int| 0 <= q < i implies !#[trigger] self.holds(q, name) by {
                        assert(!old(self).holds(q, name));
                    }
                    self.lemma_position(i, name);
                    if old(self).wf() && graph.wf() {
                        assert forall|p: int, q: int| 0 <= p < q < self.graphs().len() implies (
                        #[trigger] self.graphs()[p])@.name != (#[trigger] self.graphs()[q])@.name by {
                            if q < i {
                                assert(old(self).graphs()[p]@.name != old(self).graphs()[q]@.name);
                            } else {
                                assert(!old(self).holds(p, name));
                            }
                        }
                    }
                }
            },
        }
    }

    /// The identifier that the graphs share for the relation kind `name`;
    /// a kind that has none yet gets a fresh one.
    pub fn link_edge_kind(&mut self, name: &str) -> (id: u128)
        ensures
            final(self).graphs() == old(self).graphs(),
            final(self).kinds() == if old(self).kinds().contains_key(name@) {
                old(self).kinds()
            } else {
                old(self).kinds().insert(name@, id)
            },
            final(self).kinds().contains_key(name@),
            final(self).kinds()[name@] == id,
    {
        match self.global_edge_kinds.get(name) {
            Some(id) => *id,
            None => {
                let id = fresh_id();
                self.global_edge_kinds.insert(name.to_owned(), id);
                id
            },
        }
    }

    /// The position before which no graph has the name is the name's first.
    proof fn lemma_position(&self, i: int, name: Seq<char>)
        requires
            self.first_holds(i, name),
        ensures
            self.has(name),
            self.position(name) == i,
    {
        let p = self.position(name);
        assert(self.first_holds(p, name));
        if p < i {
            assert(!self.holds(p, name));
        } else if i < p {
            assert(!self.holds(i, name));
        }
    }
}

} // verus!
