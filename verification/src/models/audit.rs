//! The audit of a snapshot: whether the graph that it describes is
//! consistent once its lookup cache is rebuilt.

use vstd::hash_map::StringHashMap;
use vstd::prelude::*;
use crate::models::invariants::{tally, GraphoView};
use crate::models::records::{
    connection_views, kind_ref_views, kind_views, node_views, ref_views, Connection, ConnectionView, EdgeKind,
    EdgeKindRef, EdgeKindView, Node, NodeView, Ref, RefView,
};
use crate::models::snapshot::{
    index_of_names, lemma_index_finds, lemma_index_of_names, link_views, names_differ, Snapshot,
};
use crate::models::structure::CORE_LIMIT;
use crate::models::walks::{joins, Link};

verus! {

/// The position of the first entry of `list` that leads to `peer` under
/// `kind`.
#[verifier::loop_isolation(false)]
pub fn first_entry(list: &Vec<Connection>, peer: usize, kind: &String) -> (found: Option<usize>)
    ensures
        match found {
            Some(k) => k < list@.len() && connection_views(list@)[k as int].leads(peer as int, kind@) && forall|q: int|
                0 <= q < k ==> !(#[trigger] connection_views(list@)[q]).leads(peer as int, kind@),
            None => forall|q: int|
                0 <= q < list@.len() ==> !(#[trigger] connection_views(list@)[q]).leads(peer as int, kind@),
        },
{
    let ghost row = connection_views(list@);
    let mut k: usize = 0;
    while k < list.len()
        invariant
            k <= list.len(),
            forall|q: int| 0 <= q < k ==> !(#[trigger] row[q]).leads(peer as int, kind@),
        decreases list.len() - k,
    {
        assert(row[k as int] == list@[k as int]@);
        if list[k].node.index == peer && list[k].edge.name == *kind {
            return Some(k);
        }
        k += 1;
    }
    None
}

/// The catalogued kind of the link at `e` is `kind`, and the link joins `a`
/// and `b`.
pub open spec fn link_matches(links: Seq<Link>, catalog: Seq<RefView<usize>>, e: int, a: int, b: int, kind: Seq<char>) -> bool {
    joins(links[e], a, b) && catalog[e].name == kind
}

/// The position of the first structural edge of the kind `kind` that joins
/// `a` and `b`.
#[verifier::loop_isolation(false)]
pub fn first_link(links: &Vec<(usize, usize, u32)>, catalog: &Vec<Ref<usize>>, a: usize, b: usize, kind: &String) -> (found:
    Option<usize>)
    requires
        catalog@.len() == links@.len(),
    ensures
        match found {
            Some(e) => e < links@.len() && link_matches(
                link_views(links@),
                ref_views(catalog@),
                e as int,
                a as int,
                b as int,
                kind@,
            ) && forall|q: int|
                0 <= q < e ==> !#[trigger] link_matches(
                    link_views(links@),
                    ref_views(catalog@),
                    q,
                    a as int,
                    b as int,
                    kind@,
                ),
            None => forall|q: int|
                0 <= q < links@.len() ==> !#[trigger] link_matches(
                    link_views(links@),
                    ref_views(catalog@),
                    q,
                    a as int,
                    b as int,
                    kind@,
                ),
        },
{
    let ghost row = link_views(links@);
    let ghost names = ref_views(catalog@);
    let mut e: usize = 0;
    while e < links.len()
        invariant
            e <= links.len(),
            forall|q: int| 0 <= q < e ==> !#[trigger] link_matches(row, names, q, a as int, b as int, kind@),
        decreases links.len() - e,
    {
        assert(row[e as int] == (links@[e as int].0 as int, links@[e as int].1 as int, links@[e as int].2));
        assert(names[e as int] == catalog@[e as int]@);
        let l = links[e];
        if ((l.0 == a && l.1 == b) || (l.0 == b && l.1 == a)) && catalog[e].name == *kind {
            return Some(e);
        }
        e += 1;
    }
    None
}

/// The position of the first kind named `name`.
#[verifier::loop_isolation(false)]
pub fn first_kind(kinds: &Vec<EdgeKind>, name: &String) -> (found: Option<usize>)
    ensures
        match found {
            Some(j) => j < kinds@.len() && kind_views(kinds@)[j as int].name == name@ && forall|q: int|
                0 <= q < j ==> (#[trigger] kind_views(kinds@)[q]).name != name@,
            None => forall|q: int| 0 <= q < kinds@.len() ==> (#[trigger] kind_views(kinds@)[q]).name != name@,
        },
{
    let ghost row = kind_views(kinds@);
    let mut j: usize = 0;
    while j < kinds.len()
        invariant
            j <= kinds.len(),
            forall|q: int| 0 <= q < j ==> (#[trigger] row[q]).name != name@,
        decreases kinds.len() - j,
    {
        assert(row[j as int] == kinds@[j as int]@);
        if kinds[j].name == *name {
            return Some(j);
        }
        j += 1;
    }
    None
}

/// Whether some kind has the name `name` and the identifier `id`.
#[verifier::loop_isolation(false)]
pub fn has_kind(kinds: &Vec<EdgeKind>, name: &String, id: u128) -> (found: bool)
    ensures
        found == exists|j: int|
            0 <= j < kinds@.len() && (#[trigger] kind_views(kinds@)[j]).name == name@ && kind_views(
                kinds@,
            )[j].metadata.id == id,
{
    let ghost row = kind_views(kinds@);
    let mut j: usize = 0;
    while j < kinds.len()
        invariant
            j <= kinds.len(),
            forall|q: int| 0 <= q < j ==> !((#[trigger] row[q]).name == name@ && row[q].metadata.id == id),
        decreases kinds.len() - j,
    {
        assert(row[j as int] == kinds@[j as int]@);
        if kinds[j].name == *name && kinds[j].metadata.id == id {
            return true;
        }
        j += 1;
    }
    false
}

/// How many entries of the edge catalog carry the kind `name`.
#[verifier::loop_isolation(false)]
pub fn count_kind(catalog: &Vec<Ref<usize>>, name: &String) -> (count: usize)
    ensures
        count == tally(ref_views(catalog@), name@),
{
    let ghost row = ref_views(catalog@);
    let mut count: usize = 0;
    let mut e: usize = 0;
    assert(row.take(0) =~= Seq::empty());
    while e < catalog.len()
        invariant
            e <= catalog.len(),
            count <= e,
            count == tally(row.take(e as int), name@),
        decreases catalog.len() - e,
    {
        proof {
            assert(row.take(e + 1).drop_last() =~= row.take(e as int));
            assert(row.take(e + 1).last() == catalog@[e as int]@);
        }
        if catalog[e].name == *name {
            count += 1;
        }
        e += 1;
    }
    assert(row.take(e as int) =~= row);
    count
}

/// The position of the first entry of the node catalog with the handle
/// `handle`.
#[verifier::loop_isolation(false)]
pub fn first_catalogued(catalog: &Vec<Ref<usize>>, handle: usize) -> (found: Option<usize>)
    ensures
        match found {
            Some(p) => p < catalog@.len() && ref_views(catalog@)[p as int].index == handle && forall|q: int|
                0 <= q < p ==> (#[trigger] ref_views(catalog@)[q]).index != handle,
            None => forall|q: int| 0 <= q < catalog@.len() ==> (#[trigger] ref_views(catalog@)[q]).index != handle,
        },
{
    let ghost row = ref_views(catalog@);
    let mut p: usize = 0;
    while p < catalog.len()
        invariant
            p <= catalog.len(),
            forall|q: int| 0 <= q < p ==> (#[trigger] row[q]).index != handle,
        decreases catalog.len() - p,
    {
        assert(row[p as int] == catalog@[p as int]@);
        if catalog[p].index == handle {
            return Some(p);
        }
        p += 1;
    }
    None
}

/// Whether the names of the nodes differ.
#[verifier::loop_isolation(false)]
pub fn names_unique<T>(nodes: &Vec<Node<T>>) -> (ok: bool)
    ensures
        ok == names_differ(node_views(nodes@)),
{
    let ghost all = node_views(nodes@);
    let mut seen: StringHashMap<usize> = StringHashMap::new();
    let mut i: usize = 0;
    while i < nodes.len()
        invariant
            i <= nodes.len(),
            forall|p: int, q: int| 0 <= p < q < i ==> (#[trigger] all[p]).name != (#[trigger] all[q]).name,
            forall|s: Seq<char>| #[trigger] seen@.contains_key(s) ==> seen@[s] < i && all[seen@[s] as int].name == s,
            forall|p: int| 0 <= p < i ==> seen@.contains_key((#[trigger] all[p]).name),
        decreases nodes.len() - i,
    {
        assert(all[i as int] == nodes@[i as int]@);
        if seen.contains_key(nodes[i].name.as_str()) {
            let ghost j = seen@[all[i as int].name] as int;
            assert(all[j].name == all[i as int].name);
            return false;
        }
        seen.insert(nodes[i].name.clone(), i);
        i += 1;
    }
    true
}

impl<T> GraphoView<T> {
    /// The adjacency entry at position `k` of node `i` is in order: it
    /// refers to a node and to a kind, a structural edge backs it, and no
    /// earlier entry of the list leads to the same node under the same kind.
    pub open spec fn entry_sound(self, i: int, k: int) -> bool {
        &&& self.entry_ok(self.at(i, k))
        &&& self.entry_kind_ok(self.at(i, k))
        &&& self.entry_backed(i, self.at(i, k))
        &&& forall|q: int|
            0 <= q < k ==> !(#[trigger] self.at(i, q)).leads(self.at(i, k).node.index as int, self.at(i, k).edge.name)
    }

    /// The structural edge `e` is in order, and no earlier edge of its kind
    /// joins the same two nodes.
    pub open spec fn link_sound(self, e: int) -> bool {
        &&& self.link_ok(e)
        &&& forall|q: int|
            0 <= q < e ==> !#[trigger] link_matches(
                self.links,
                self.runtime_ref.edges,
                q,
                self.links[e].0,
                self.links[e].1,
                self.kind_of(e),
            )
    }

    /// The kind at position `j` has a name that no earlier kind has, and its
    /// counter equals the number of structural edges of the kind.
    pub open spec fn kind_sound(self, j: int) -> bool {
        &&& forall|q: int| 0 <= q < j ==> (#[trigger] self.edge_kinds[q]).name != self.edge_kinds[j].name
        &&& self.edge_kinds[j].energy == tally(self.runtime_ref.edges, self.edge_kinds[j].name)
    }

    /// The entry at position `p` of the node catalog stands for a node, and
    /// no earlier entry stands for the same node.
    pub open spec fn catalogued_sound(self, p: int) -> bool {
        &&& self.catalog_entry_ok(self.runtime_ref.nodes[p])
        &&& forall|q: int| 0 <= q < p ==> (#[trigger] self.runtime_ref.nodes[q]).index != self.runtime_ref.nodes[p].index
    }

    /// The adjacency lists are consistent exactly if each entry is in order.
    pub proof fn lemma_entries_sound(self)
        ensures
            self.entries_ok() <==> forall|i: int, k: int| self.entry(i, k) ==> #[trigger] self.entry_sound(i, k),
    {
        if self.entries_ok() {
            assert forall|i: int, k: int| self.entry(i, k) implies #[trigger] self.entry_sound(i, k) by {
                assert(self.entry_ok(self.at(i, k)));
                assert(self.entry_kind_ok(self.at(i, k)));
                assert(self.entry_backed(i, self.at(i, k)));
                assert forall|q: int| 0 <= q < k implies !(#[trigger] self.at(i, q)).leads(
                    self.at(i, k).node.index as int,
                    self.at(i, k).edge.name,
                ) by {
                    assert(self.entry(i, q));
                }
            }
        }
        if forall|i: int, k: int| self.entry(i, k) ==> #[trigger] self.entry_sound(i, k) {
            assert forall|i: int, k: int| self.entry(i, k) implies self.entry_ok(#[trigger] self.at(i, k)) by {
                assert(self.entry_sound(i, k));
            }
            assert forall|i: int, k: int| self.entry(i, k) implies self.entry_kind_ok(#[trigger] self.at(i, k)) by {
                assert(self.entry_sound(i, k));
            }
            assert forall|i: int, k: int| self.entry(i, k) implies self.entry_backed(i, #[trigger] self.at(i, k)) by {
                assert(self.entry_sound(i, k));
            }
            assert forall|i: int, k1: int, k2: int| self.entry(i, k1) && self.entry(i, k2) && k1 != k2 implies !(
            #[trigger] self.at(i, k1)).leads((#[trigger] self.at(i, k2)).node.index as int, self.at(i, k2).edge.name) by {
                assert(self.entry_sound(i, k1) && self.entry_sound(i, k2));
                if k1 < k2 {
                    assert(!self.at(i, k1).leads(self.at(i, k2).node.index as int, self.at(i, k2).edge.name));
                } else {
                    assert(!self.at(i, k2).leads(self.at(i, k1).node.index as int, self.at(i, k1).edge.name));
                }
            }
        }
    }

    /// The structural edges are consistent exactly if the catalog has one
    /// entry for each, they are within the limit, and each is in order.
    pub proof fn lemma_links_sound(self)
        ensures
            self.links_ok() <==> self.runtime_ref.edges.len() == self.links.len() && self.links.len() <= CORE_LIMIT
                && forall|e: int| 0 <= e < self.links.len() ==> #[trigger] self.link_sound(e),
    {
        if self.links_ok() {
            assert forall|e: int| 0 <= e < self.links.len() implies #[trigger] self.link_sound(e) by {
                assert(self.link_ok(e));
                assert forall|q: int| 0 <= q < e implies !#[trigger] link_matches(
                    self.links,
                    self.runtime_ref.edges,
                    q,
                    self.links[e].0,
                    self.links[e].1,
                    self.kind_of(e),
                ) by {
                    if joins(self.links[q], self.links[e].0, self.links[e].1) {
                        assert(self.kind_of(q) != self.kind_of(e));
                    }
                }
            }
        }
        if self.runtime_ref.edges.len() == self.links.len() && self.links.len() <= CORE_LIMIT && forall|e: int|
            0 <= e < self.links.len() ==> #[trigger] self.link_sound(e) {
            assert forall|e: int| 0 <= e < self.links.len() implies #[trigger] self.link_ok(e) by {
                assert(self.link_sound(e));
            }
            assert forall|e1: int, e2: int|
                0 <= e1 < e2 < self.links.len() && joins(
                    #[trigger] self.links[e1],
                    (#[trigger] self.links[e2]).0,
                    self.links[e2].1,
                ) implies self.kind_of(e1) != self.kind_of(e2) by {
                assert(self.link_sound(e2));
                assert(!link_matches(
                    self.links,
                    self.runtime_ref.edges,
                    e1,
                    self.links[e2].0,
                    self.links[e2].1,
                    self.kind_of(e2),
                ));
            }
        }
    }

    /// The kinds are consistent exactly if each is in order and the catalogs
    /// name kinds.
    pub proof fn lemma_kinds_sound(self)
        ensures
            self.kinds_ok() <==> (forall|j: int| 0 <= j < self.edge_kinds.len() ==> #[trigger] self.kind_sound(j))
                && (forall|e: int|
                0 <= e < self.runtime_ref.edges.len() ==> self.kind_known((#[trigger] self.runtime_ref.edges[e]).name))
                && (forall|p: int|
                0 <= p < self.runtime_ref.edge_kinds.len() ==> self.kind_known(
                    (#[trigger] self.runtime_ref.edge_kinds[p]).name,
                )),
    {
        if self.kinds_ok() {
            assert forall|j: int| 0 <= j < self.edge_kinds.len() implies #[trigger] self.kind_sound(j) by {
                assert forall|q: int| 0 <= q < j implies (#[trigger] self.edge_kinds[q]).name
                    != self.edge_kinds[j].name by {
                    assert(self.edge_kinds[q].name != self.edge_kinds[j].name);
                }
            }
        }
        if forall|j: int| 0 <= j < self.edge_kinds.len() ==> #[trigger] self.kind_sound(j) {
            assert forall|j1: int, j2: int| 0 <= j1 < j2 < self.edge_kinds.len() implies (
            #[trigger] self.edge_kinds[j1]).name != (#[trigger] self.edge_kinds[j2]).name by {
                assert(self.kind_sound(j2));
            }
            assert forall|j: int| 0 <= j < self.edge_kinds.len() implies (#[trigger] self.edge_kinds[j]).energy
                == tally(self.runtime_ref.edges, self.edge_kinds[j].name) by {
                assert(self.kind_sound(j));
            }
        }
    }

    /// The node catalog is consistent exactly if it has one entry for each
    /// node and each entry is in order.
    pub proof fn lemma_catalog_sound(self)
        ensures
            self.catalog_ok() <==> self.runtime_ref.nodes.len() == self.nodes.len() && forall|p: int|
                0 <= p < self.runtime_ref.nodes.len() ==> #[trigger] self.catalogued_sound(p),
    {
        if self.catalog_ok() {
            assert forall|p: int| 0 <= p < self.runtime_ref.nodes.len() implies #[trigger] self.catalogued_sound(
                p,
            ) by {
                assert(self.catalog_entry_ok(self.runtime_ref.nodes[p]));
                assert forall|q: int| 0 <= q < p implies (#[trigger] self.runtime_ref.nodes[q]).index
                    != self.runtime_ref.nodes[p].index by {
                    assert(self.runtime_ref.nodes[q].index != self.runtime_ref.nodes[p].index);
                }
            }
        }
        if self.runtime_ref.nodes.len() == self.nodes.len() && forall|p: int|
            0 <= p < self.runtime_ref.nodes.len() ==> #[trigger] self.catalogued_sound(p) {
            assert forall|p: int| 0 <= p < self.runtime_ref.nodes.len() implies self.catalog_entry_ok(
                #[trigger] self.runtime_ref.nodes[p],
            ) by {
                assert(self.catalogued_sound(p));
            }
            assert forall|p: int, q: int| 0 <= p < q < self.runtime_ref.nodes.len() implies (
            #[trigger] self.runtime_ref.nodes[p]).index != (#[trigger] self.runtime_ref.nodes[q]).index by {
                assert(self.catalogued_sound(q));
            }
        }
    }
}

impl<T> Snapshot<T> {
    /// Whether the node store is consistent once the lookup cache is
    /// rebuilt: it is within the limit, the names differ, and each node
    /// holds its handle and its degree.
    #[verifier::loop_isolation(false)]
    pub fn store_sound(&self) -> (ok: bool)
        ensures
            ok == self@.restored().store_ok(),
    {
        let ghost r = self@.restored();
        let count = self.nodes.len();
        proof {
            assert(r.nodes.len() == count);
            lemma_index_of_names(r.nodes);
        }
        if self.nodes.len() > CORE_LIMIT {
            return false;
        }
        if !names_unique(&self.nodes) {
            proof {
                if r.store_ok() {
                    assert forall|i: int, j: int| 0 <= i < j < r.nodes.len() implies (#[trigger] r.nodes[i]).name != (
                    #[trigger] r.nodes[j]).name by {
                        assert(r.node_ok(i) && r.node_ok(j));
                    }
                }
            }
            return false;
        }
        proof {
            lemma_index_finds(r.nodes);
        }
        let mut i: usize = 0;
        while i < self.nodes.len()
            invariant
                i <= self.nodes.len(),
                forall|q: int| 0 <= q < i ==> #[trigger] r.node_ok(q),
            decreases self.nodes.len() - i,
        {
            assert(r.nodes[i as int] == self.nodes@[i as int]@);
            if self.nodes[i].node_index != i || self.nodes[i].connections.len() > u32::MAX as usize
                || self.nodes[i].energy as usize != self.nodes[i].connections.len() {
                assert(!r.node_ok(i as int));
                return false;
            }
            i += 1;
        }
        true
    }

    /// Whether the adjacency entry at position `k` of node `i` is in order.
    pub fn entry_in_order(&self, i: usize, k: usize) -> (ok: bool)
        requires
            self.runtime_ref.edges@.len() == self.links@.len(),
            self@.restored().entry(i as int, k as int),
        ensures
            ok == self@.restored().entry_sound(i as int, k as int),
    {
        let ghost r = self@.restored();
        assert(r.nodes[i as int] == self.nodes@[i as int]@);
        let list = &self.nodes[i].connections;
        let c = &list[k];
        assert(r.at(i as int, k as int) == c@);
        let peer = c.node.index;
        if peer >= self.nodes.len() {
            return false;
        }
        assert(r.nodes[peer as int] == self.nodes@[peer as int]@);
        if !(c.node.name == self.nodes[peer].name) || c.node.uuid != self.nodes[peer].metadata.id || c.edge.index
            != c.edge.uuid {
            return false;
        }
        assert(r.entry_ok(c@));
        assert(r.edge_kinds == kind_views(self.edge_kinds@));
        if !has_kind(&self.edge_kinds, &c.edge.name, c.edge.uuid) {
            assert(!r.entry_kind_ok(c@));
            return false;
        }
        assert(r.entry_kind_ok(c@));
        match first_link(&self.links, &self.runtime_ref.edges, i, peer, &c.edge.name) {
            None => {
                assert(!r.entry_backed(i as int, c@)) by {
                    if r.entry_backed(i as int, c@) {
                        let e = choose|e: int|
                            0 <= e < r.links.len() && joins(#[trigger] r.links[e], i as int, peer as int) && r.kind_of(e)
                                == c@.edge.name;
                        assert(link_matches(r.links, r.runtime_ref.edges, e, i as int, peer as int, c@.edge.name));
                    }
                }
                return false;
            },
            Some(e) => {
                assert(link_matches(r.links, r.runtime_ref.edges, e as int, i as int, peer as int, c@.edge.name));
                assert(joins(r.links[e as int], i as int, peer as int));
                assert(r.entry_backed(i as int, c@));
            },
        }
        match first_entry(list, peer, &c.edge.name) {
            Some(first) => {
                if first != k {
                    assert(first < k);
                    assert(r.at(i as int, first as int).leads(peer as int, c@.edge.name));
                    false
                } else {
                    true
                }
            },
            None => {
                assert(connection_views(list@)[k as int].leads(peer as int, c@.edge.name));
                false
            },
        }
    }

    /// Whether the adjacency lists are consistent.
    #[verifier::loop_isolation(false)]
    pub fn entries_sound(&self) -> (ok: bool)
        requires
            self.runtime_ref.edges@.len() == self.links@.len(),
        ensures
            ok == self@.restored().entries_ok(),
    {
        let ghost r = self@.restored();
        proof {
            r.lemma_entries_sound();
        }
        let mut i: usize = 0;
        while i < self.nodes.len()
            invariant
                i <= self.nodes.len(),
                forall|p: int, q: int| 0 <= p < i && r.entry(p, q) ==> #[trigger] r.entry_sound(p, q),
            decreases self.nodes.len() - i,
        {
            assert(r.nodes[i as int] == self.nodes@[i as int]@);
            let mut k: usize = 0;
            let degree = self.nodes[i].connections.len();
            while k < degree
                invariant
                    k <= degree,
                    degree == self.nodes@[i as int].connections@.len(),
                    forall|q: int| 0 <= q < k ==> #[trigger] r.entry_sound(i as int, q),
                decreases degree - k,
            {
                if !self.entry_in_order(i, k) {
                    assert(r.entry(i as int, k as int));
                    return false;
                }
                k += 1;
            }
            i += 1;
        }
        true
    }

    /// Whether the structural edge `e` is in order.
    pub fn link_in_order(&self, e: usize) -> (ok: bool)
        requires
            self.runtime_ref.edges@.len() == self.links@.len(),
            e < self.links@.len(),
        ensures
            ok == self@.restored().link_sound(e as int),
    {
        let ghost r = self@.restored();
        let l = self.links[e];
        assert(r.links[e as int] == (l.0 as int, l.1 as int, l.2));
        assert(r.runtime_ref.edges[e as int] == self.runtime_ref.edges@[e as int]@);
        if l.0 >= self.nodes.len() || l.1 >= self.nodes.len() || l.2 != 1 || self.runtime_ref.edges[e].index != e {
            return false;
        }
        let kind = &self.runtime_ref.edges[e].name;
        assert(r.nodes[l.0 as int] == self.nodes@[l.0 as int]@);
        assert(r.nodes[l.1 as int] == self.nodes@[l.1 as int]@);
        match first_entry(&self.nodes[l.0].connections, l.1, kind) {
            None => {
                assert(!r.nodes[l.0 as int].leads(l.1 as int, kind@));
                return false;
            },
            Some(k) => {
                assert(r.nodes[l.0 as int].connections[k as int].leads(l.1 as int, kind@));
            },
        }
        match first_entry(&self.nodes[l.1].connections, l.0, kind) {
            None => {
                assert(!r.nodes[l.1 as int].leads(l.0 as int, kind@));
                return false;
            },
            Some(k) => {
                assert(r.nodes[l.1 as int].connections[k as int].leads(l.0 as int, kind@));
            },
        }
        assert(r.link_ok(e as int));
        match first_link(&self.links, &self.runtime_ref.edges, l.0, l.1, kind) {
            Some(first) => {
                if first != e {
                    assert(first < e) by {
                        assert(link_matches(r.links, r.runtime_ref.edges, e as int, l.0 as int, l.1 as int, kind@));
                    }
                    false
                } else {
                    true
                }
            },
            None => {
                assert(link_matches(r.links, r.runtime_ref.edges, e as int, l.0 as int, l.1 as int, kind@));
                false
            },
        }
    }

    /// Whether the structural edges are consistent.
    #[verifier::loop_isolation(false)]
    pub fn links_sound(&self) -> (ok: bool)
        ensures
            ok == self@.restored().links_ok(),
            ok ==> self.runtime_ref.edges@.len() == self.links@.len(),
    {
        let ghost r = self@.restored();
        proof {
            r.lemma_links_sound();
        }
        if self.runtime_ref.edges.len() != self.links.len() || self.links.len() > CORE_LIMIT {
            return false;
        }
        let mut e: usize = 0;
        while e < self.links.len()
            invariant
                e <= self.links.len(),
                forall|q: int| 0 <= q < e ==> #[trigger] r.link_sound(q),
            decreases self.links.len() - e,
        {
            if !self.link_in_order(e) {
                return false;
            }
            e += 1;
        }
        true
    }

    /// Whether the relation kinds are consistent.
    #[verifier::loop_isolation(false)]
    pub fn kinds_sound(&self) -> (ok: bool)
        ensures
            ok == self@.restored().kinds_ok(),
    {
        let ghost r = self@.restored();
        proof {
            r.lemma_kinds_sound();
        }
        let mut j: usize = 0;
        while j < self.edge_kinds.len()
            invariant
                j <= self.edge_kinds.len(),
                forall|q: int| 0 <= q < j ==> #[trigger] r.kind_sound(q),
            decreases self.edge_kinds.len() - j,
        {
            assert(r.edge_kinds[j as int] == self.edge_kinds@[j as int]@);
            let name = &self.edge_kinds[j].name;
            match first_kind(&self.edge_kinds, name) {
                Some(first) => {
                    if first != j {
                        assert(first < j);
                        assert(!r.kind_sound(j as int));
                        return false;
                    }
                },
                None => {
                    return false;
                },
            }
            if count_kind(&self.runtime_ref.edges, name) != self.edge_kinds[j].energy as usize {
                assert(!r.kind_sound(j as int));
                return false;
            }
            assert(r.kind_sound(j as int));
            j += 1;
        }
        let mut e: usize = 0;
        while e < self.runtime_ref.edges.len()
            invariant
                e <= self.runtime_ref.edges.len(),
                forall|q: int| 0 <= q < e ==> r.kind_known((#[trigger] r.runtime_ref.edges[q]).name),
            decreases self.runtime_ref.edges.len() - e,
        {
            assert(r.runtime_ref.edges[e as int] == self.runtime_ref.edges@[e as int]@);
            match first_kind(&self.edge_kinds, &self.runtime_ref.edges[e].name) {
                Some(found) => {
                    assert(r.edge_kinds[found as int].name == r.runtime_ref.edges[e as int].name);
                },
                None => {
                    assert(!r.kind_known(r.runtime_ref.edges[e as int].name));
                    return false;
                },
            }
            e += 1;
        }
        let mut p: usize = 0;
        while p < self.runtime_ref.edge_kinds.len()
            invariant
                p <= self.runtime_ref.edge_kinds.len(),
                forall|q: int| 0 <= q < p ==> r.kind_known((#[trigger] r.runtime_ref.edge_kinds[q]).name),
            decreases self.runtime_ref.edge_kinds.len() - p,
        {
            assert(r.runtime_ref.edge_kinds[p as int] == self.runtime_ref.edge_kinds@[p as int]@);
            match first_kind(&self.edge_kinds, &self.runtime_ref.edge_kinds[p].name) {
                Some(found) => {
                    assert(r.edge_kinds[found as int].name == r.runtime_ref.edge_kinds[p as int].name);
                },
                None => {
                    assert(!r.kind_known(r.runtime_ref.edge_kinds[p as int].name));
                    return false;
                },
            }
            p += 1;
        }
        true
    }

    /// Whether the node catalog is consistent.
    #[verifier::loop_isolation(false)]
    pub fn catalog_sound(&self) -> (ok: bool)
        ensures
            ok == self@.restored().catalog_ok(),
    {
        let ghost r = self@.restored();
        proof {
            r.lemma_catalog_sound();
        }
        if self.runtime_ref.nodes.len() != self.nodes.len() {
            return false;
        }
        let mut p: usize = 0;
        while p < self.runtime_ref.nodes.len()
            invariant
                p <= self.runtime_ref.nodes.len(),
                forall|q: int| 0 <= q < p ==> #[trigger] r.catalogued_sound(q),
            decreases self.runtime_ref.nodes.len() - p,
        {
            assert(r.runtime_ref.nodes[p as int] == self.runtime_ref.nodes@[p as int]@);
            let entry = &self.runtime_ref.nodes[p];
            if entry.index >= self.nodes.len() {
                assert(!r.catalogued_sound(p as int));
                return false;
            }
            assert(r.nodes[entry.index as int] == self.nodes@[entry.index as int]@);
            if !(entry.name == self.nodes[entry.index].name) || entry.uuid != self.nodes[entry.index].metadata.id {
                assert(!r.catalogued_sound(p as int));
                return false;
            }
            match first_catalogued(&self.runtime_ref.nodes, entry.index) {
                Some(first) => {
                    if first != p {
                        assert(first < p);
                        assert(!r.catalogued_sound(p as int));
                        return false;
                    }
                },
                None => {
                    return false;
                },
            }
            assert(r.catalogued_sound(p as int));
            p += 1;
        }
        true
    }

    /// Whether the graph that the snapshot describes is consistent once its
    /// lookup cache is rebuilt.
    pub fn is_consistent(&self) -> (ok: bool)
        ensures
            ok == self@.restored().wf(),
    {
        self.store_sound() && self.links_sound() && self.entries_sound() && self.kinds_sound() && self.catalog_sound()
    }
}

} // verus!
