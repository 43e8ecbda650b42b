//! Proofs that the steps of a graph keep it consistent, and the laws that
//! follow.

use vstd::prelude::*;
use crate::models::invariants::{lemma_tally_bound, lemma_tally_push, tally, GraphoView};
use crate::models::ranking::{
    lemma_ranked_in_order, lemma_ranked_of_ordered, lemma_ranked_permutes, lemma_ranked_rearranged, ranked, Ranked,
};
use crate::models::text::lemma_lex_antisymmetric;
use crate::models::records::{ConnectionView, EdgeKind, EdgeKindRef, EdgeKindView, NodeView, Ref, RefView, Timestamp};
use crate::models::snapshot::{copied, index_of_names, lemma_index_finds, lemma_index_of_names, names_differ, normal_form};
use crate::models::steps::{
    by_degree, entry_to, kind_at, lemma_kind_at, scored, stats, used, Fresh, KindStat, Scored, ScoredView,
};
use crate::models::structure::CORE_LIMIT;
use crate::models::walks::joins;

verus! {

/// A node that enters leaves the graph consistent.
pub proof fn lemma_with_node_wf<T>(g: GraphoView<T>, node: NodeView<T>, stamp: Timestamp)
    requires
        g.wf(),
        g.has(node.name) || g.nodes.len() < CORE_LIMIT,
    ensures
        g.with_node(node, stamp).wf(),
{
    let post = g.with_node(node, stamp);
    if !g.has(node.name) {
        let n = g.nodes.len() as int;
        assert(post.edge_kinds == g.edge_kinds);
        assert(post.links == g.links);
        assert(post.runtime_ref.edges == g.runtime_ref.edges);
        assert(post.runtime_ref.edge_kinds == g.runtime_ref.edge_kinds);
        assert forall|i: int| 0 <= i < post.nodes.len() implies #[trigger] post.node_ok(i) by {
            if i < n {
                assert(g.node_ok(i));
            }
        }
        assert forall|s: Seq<char>| #[trigger] post.index.contains_key(s) implies post.index[s] < post.nodes.len()
            && post.nodes[post.index[s] as int].name == s by {
            if s != node.name {
                assert(g.index.contains_key(s));
            }
        }
        assert(post.store_ok());
        assert forall|i: int, k: int| post.entry(i, k) implies post.entry_ok(#[trigger] post.at(i, k))
            && post.entry_kind_ok(post.at(i, k)) && post.entry_backed(i, post.at(i, k)) by {
            assert(g.entry(i, k));
            let c = g.at(i, k);
            assert(g.entry_ok(c) && g.entry_kind_ok(c) && g.entry_backed(i, c));
            assert(post.at(i, k) == c);
            assert(post.entry_ok(c));
            assert(post.entry_kind_ok(c));
            assert(post.entry_backed(i, c));
        }
        assert forall|i: int, k1: int, k2: int| post.entry(i, k1) && post.entry(i, k2) && k1 != k2 implies !(
        #[trigger] post.at(i, k1)).leads((#[trigger] post.at(i, k2)).node.index as int, post.at(i, k2).edge.name) by {
            assert(g.entry(i, k1) && g.entry(i, k2));
            assert(!g.at(i, k1).leads(g.at(i, k2).node.index as int, g.at(i, k2).edge.name));
        }
        assert(post.entries_ok());
        assert forall|e: int| 0 <= e < post.links.len() implies #[trigger] post.link_ok(e) by {
            assert(g.link_ok(e));
        }
        assert(post.links_ok());
        assert(g.kinds_ok());
        assert forall|e: int| 0 <= e < post.runtime_ref.edges.len() implies post.kind_known(
            (#[trigger] post.runtime_ref.edges[e]).name,
        ) by {
            assert(g.kind_known(g.runtime_ref.edges[e].name));
        }
        assert forall|p: int| 0 <= p < post.runtime_ref.edge_kinds.len() implies post.kind_known(
            (#[trigger] post.runtime_ref.edge_kinds[p]).name,
        ) by {
            assert(g.kind_known(g.runtime_ref.edge_kinds[p].name));
        }
        assert(post.kinds_ok());
        assert forall|p: int| 0 <= p < post.runtime_ref.nodes.len() implies post.catalog_entry_ok(
            #[trigger] post.runtime_ref.nodes[p],
        ) by {
            if p < n {
                assert(g.catalog_entry_ok(g.runtime_ref.nodes[p]));
            }
        }
        assert forall|p: int, q: int| 0 <= p < q < post.runtime_ref.nodes.len() implies (
        #[trigger] post.runtime_ref.nodes[p]).index != (#[trigger] post.runtime_ref.nodes[q]).index by {
            assert(g.catalog_entry_ok(g.runtime_ref.nodes[p]));
            if q < n {
                assert(g.catalog_entry_ok(g.runtime_ref.nodes[q]));
            }
        }
        assert(post.catalog_ok());
    }
}

/// Ranking rearranges the node catalog: each entry of the ranked catalog is
/// an entry of the catalog, and no entry is taken twice.
pub proof fn lemma_by_degree_permutes<T>(catalog: Seq<RefView<usize>>, nodes: Seq<NodeView<T>>) -> (origin: Seq<int>)
    ensures
        by_degree(catalog, nodes).len() == catalog.len(),
        origin.len() == catalog.len(),
        forall|i: int| 0 <= i < catalog.len() ==> 0 <= #[trigger] origin[i] < catalog.len(),
        forall|i: int| 0 <= i < catalog.len() ==> #[trigger] by_degree(catalog, nodes)[i] == catalog[origin[i]],
        forall|i: int, j: int| 0 <= i < j < catalog.len() ==> #[trigger] origin[i] != #[trigger] origin[j],
        forall|k: int| 0 <= k < catalog.len() ==> #[trigger] origin.contains(k),
{
    let rows = scored(catalog, nodes);
    let origin = lemma_ranked_permutes::<Scored>(rows);
    assert forall|i: int| 0 <= i < catalog.len() implies #[trigger] by_degree(catalog, nodes)[i] == catalog[origin[i]] by {
        assert(ranked::<Scored>(rows)[i] == rows[origin[i]]);
    }
    origin
}

/// The ranked catalog lists its nodes by descending degree.
pub proof fn lemma_by_degree_descends<T>(catalog: Seq<RefView<usize>>, nodes: Seq<NodeView<T>>)
    ensures
        forall|i: int, j: int|
            0 <= i < j < catalog.len() ==> nodes[(#[trigger] by_degree(catalog, nodes)[i]).index as int].energy
                >= nodes[(#[trigger] by_degree(catalog, nodes)[j]).index as int].energy,
{
    let rows = scored(catalog, nodes);
    let origin = lemma_ranked_permutes::<Scored>(rows);
    lemma_ranked_in_order::<Scored>(rows);
    let out = ranked::<Scored>(rows);
    assert forall|i: int, j: int| 0 <= i < j < catalog.len() implies nodes[(#[trigger] by_degree(
        catalog,
        nodes,
    )[i]).index as int].energy >= nodes[(#[trigger] by_degree(catalog, nodes)[j]).index as int].energy by {
        assert(Scored::precedes(out[i], out[j]));
        assert(out[i] == rows[origin[i]]);
        assert(out[j] == rows[origin[j]]);
    }
}

/// A catalog that lists its nodes by descending degree is its own ranking.
pub proof fn lemma_by_degree_of_descending<T>(catalog: Seq<RefView<usize>>, nodes: Seq<NodeView<T>>)
    requires
        forall|i: int, j: int|
            0 <= i < j < catalog.len() ==> nodes[(#[trigger] catalog[i]).index as int].energy >= nodes[(
            #[trigger] catalog[j]).index as int].energy,
    ensures
        by_degree(catalog, nodes) == catalog,
{
    let rows = scored(catalog, nodes);
    assert forall|i: int, j: int| 0 <= i < j < rows.len() implies Scored::precedes(
        #[trigger] rows[i],
        #[trigger] rows[j],
    ) by {
        assert(rows[i].energy == nodes[catalog[i].index as int].energy);
        assert(rows[j].energy == nodes[catalog[j].index as int].energy);
    }
    lemma_ranked_of_ordered::<Scored>(rows);
    assert(by_degree(catalog, nodes) =~= catalog);
}

/// Ranking the node catalog leaves the graph consistent.
pub proof fn lemma_reranked_wf<T>(g: GraphoView<T>)
    requires
        g.wf(),
    ensures
        g.reranked().wf(),
{
    let post = g.reranked();
    let origin = lemma_by_degree_permutes(g.runtime_ref.nodes, g.nodes);
    assert(post.edge_kinds == g.edge_kinds);
    assert(post.links == g.links);
    assert(post.nodes == g.nodes);
    assert(post.index == g.index);
    assert(post.runtime_ref.edges == g.runtime_ref.edges);
    assert(post.runtime_ref.edge_kinds == g.runtime_ref.edge_kinds);
    assert forall|i: int| 0 <= i < post.nodes.len() implies #[trigger] post.node_ok(i) by {
        assert(g.node_ok(i));
    }
    assert(post.store_ok());
    assert forall|i: int, k: int| post.entry(i, k) implies post.entry_ok(#[trigger] post.at(i, k))
        && post.entry_kind_ok(post.at(i, k)) && post.entry_backed(i, post.at(i, k)) by {
        let c = g.at(i, k);
        assert(g.entry_ok(c) && g.entry_kind_ok(c) && g.entry_backed(i, c));
    }
    assert forall|i: int, k1: int, k2: int| post.entry(i, k1) && post.entry(i, k2) && k1 != k2 implies !(
    #[trigger] post.at(i, k1)).leads((#[trigger] post.at(i, k2)).node.index as int, post.at(i, k2).edge.name) by {
        assert(!g.at(i, k1).leads(g.at(i, k2).node.index as int, g.at(i, k2).edge.name));
    }
    assert(post.entries_ok());
    assert forall|e: int| 0 <= e < post.links.len() implies #[trigger] post.link_ok(e) by {
        assert(g.link_ok(e));
    }
    assert(post.links_ok());
    assert forall|e: int| 0 <= e < post.runtime_ref.edges.len() implies post.kind_known(
        (#[trigger] post.runtime_ref.edges[e]).name,
    ) by {
        assert(g.kind_known(g.runtime_ref.edges[e].name));
    }
    assert forall|p: int| 0 <= p < post.runtime_ref.edge_kinds.len() implies post.kind_known(
        (#[trigger] post.runtime_ref.edge_kinds[p]).name,
    ) by {
        assert(g.kind_known(g.runtime_ref.edge_kinds[p].name));
    }
    assert(post.kinds_ok());
    assert forall|p: int| 0 <= p < post.runtime_ref.nodes.len() implies post.catalog_entry_ok(
        #[trigger] post.runtime_ref.nodes[p],
    ) by {
        assert(post.runtime_ref.nodes[p] == g.runtime_ref.nodes[origin[p]]);
        assert(g.catalog_entry_ok(g.runtime_ref.nodes[origin[p]]));
    }
    assert forall|p: int, q: int| 0 <= p < q < post.runtime_ref.nodes.len() implies (
    #[trigger] post.runtime_ref.nodes[p]).index != (#[trigger] post.runtime_ref.nodes[q]).index by {
        assert(post.runtime_ref.nodes[p] == g.runtime_ref.nodes[origin[p]]);
        assert(post.runtime_ref.nodes[q] == g.runtime_ref.nodes[origin[q]]);
        assert(origin[p] != origin[q]);
    }
    assert(post.catalog_ok());
}

/// In a consistent graph an adjacency entry has its mirror: the node that it
/// leads to lists the node that holds it, under the same kind reference.
pub proof fn lemma_entry_mirrored<T>(g: GraphoView<T>, i: int, k: int)
    requires
        g.wf(),
        g.entry(i, k),
    ensures
        g.mirrored(i, g.at(i, k)),
{
    let c = g.at(i, k);
    let peer = c.node.index as int;
    assert(g.entry_ok(c) && g.entry_kind_ok(c) && g.entry_backed(i, c));
    let e = choose|e: int| 0 <= e < g.links.len() && joins(#[trigger] g.links[e], i, peer) && g.kind_of(e) == c.edge.name;
    assert(g.link_ok(e));
    assert(g.nodes[peer].leads(i, c.edge.name));
    let k2 = choose|k2: int|
        0 <= k2 < g.nodes[peer].connections.len() && (#[trigger] g.nodes[peer].connections[k2]).leads(i, c.edge.name);
    let c2 = g.at(peer, k2);
    assert(g.entry(peer, k2));
    assert(g.entry_ok(c2) && g.entry_kind_ok(c2));
    let j1 = choose|j: int|
        0 <= j < g.edge_kinds.len() && (#[trigger] g.edge_kinds[j]).name == c.edge.name && g.edge_kinds[j].metadata.id
            == c.edge.uuid;
    let j2 = choose|j: int|
        0 <= j < g.edge_kinds.len() && (#[trigger] g.edge_kinds[j]).name == c2.edge.name && g.edge_kinds[j].metadata.id
            == c2.edge.uuid;
    if j1 < j2 {
        assert(g.edge_kinds[j1].name != g.edge_kinds[j2].name);
    } else if j2 < j1 {
        assert(g.edge_kinds[j2].name != g.edge_kinds[j1].name);
    }
    assert(c2.edge == c.edge);
}

/// In a consistent graph every adjacency entry has its mirror.
pub proof fn lemma_symmetric<T>(g: GraphoView<T>)
    requires
        g.wf(),
    ensures
        g.symmetric(),
{
    assert forall|i: int, k: int| g.entry(i, k) implies g.mirrored(i, #[trigger] g.at(i, k)) by {
        lemma_entry_mirrored(g, i, k);
    }
}

/// In a consistent graph the degree counter of each node
/// equals the length of its adjacency list.
pub proof fn lemma_degrees<T>(g: GraphoView<T>)
    requires
        g.wf(),
    ensures
        g.degrees_hold(),
{
    assert forall|i: int| 0 <= i < g.nodes.len() implies (#[trigger] g.nodes[i]).energy
        == g.nodes[i].connections.len() by {
        assert(g.node_ok(i));
    }
}

/// In a consistent graph the names of the nodes differ.
pub proof fn lemma_names_differ<T>(g: GraphoView<T>)
    requires
        g.wf(),
    ensures
        forall|i: int, j: int| 0 <= i < j < g.nodes.len() ==> (#[trigger] g.nodes[i]).name != (#[trigger] g.nodes[j]).name,
{
    assert forall|i: int, j: int| 0 <= i < j < g.nodes.len() implies (#[trigger] g.nodes[i]).name != (
    #[trigger] g.nodes[j]).name by {
        assert(g.node_ok(i) && g.node_ok(j));
    }
}

/// In a consistent graph a node that lists another under a kind is listed by
/// it under that kind.
pub proof fn lemma_leads_back<T>(g: GraphoView<T>, a: int, b: int, kind: Seq<char>)
    requires
        g.wf(),
        g.leads(a, b, kind),
    ensures
        g.leads(b, a, kind),
{
    let k = choose|k: int| 0 <= k < g.nodes[a].connections.len() && (#[trigger] g.nodes[a].connections[k]).leads(b, kind);
    assert(g.entry(a, k));
    lemma_entry_mirrored(g, a, k);
    let c = g.at(a, k);
    let k2 = choose|k2: int|
        g.entry(c.node.index as int, k2) && (#[trigger] g.at(c.node.index as int, k2)).node.index == a && g.at(
            c.node.index as int,
            k2,
        ).edge == c.edge;
    assert(g.nodes[b].connections[k2].leads(a, kind));
}

/// A connection that both ends list needs no healing, and the counters of its
/// ends are up to date.
pub proof fn lemma_settled<T>(g: GraphoView<T>, a: int, b: int, edge: RefView<u128>, stamp: Timestamp)
    requires
        g.wf(),
        g.handle(a),
        g.handle(b),
        g.connected(a, b, edge.name),
    ensures
        g.ensured(a, b, edge, stamp).ensured(b, a, edge, stamp) == g,
        g.refreshed_at(a).refreshed_at(b) == g,
{
    if g.leads(a, b, edge.name) {
        lemma_leads_back(g, a, b, edge.name);
    } else {
        lemma_leads_back(g, b, a, edge.name);
    }
    assert(g.node_ok(a) && g.node_ok(b));
    assert(g.refreshed_at(a).nodes =~= g.nodes);
    assert(g.refreshed_at(a) == g);
    assert(g.refreshed_at(b).nodes =~= g.nodes);
}

/// A catalog without an entry of a kind counts none of that kind.
pub proof fn lemma_tally_none(catalog: Seq<RefView<usize>>, kind: Seq<char>)
    requires
        forall|e: int| 0 <= e < catalog.len() ==> (#[trigger] catalog[e]).name != kind,
    ensures
        tally(catalog, kind) == 0,
    decreases catalog.len(),
{
    if catalog.len() > 0 {
        let rest = catalog.drop_last();
        assert forall|e: int| 0 <= e < rest.len() implies (#[trigger] rest[e]).name != kind by {
            assert(rest[e] == catalog[e]);
        }
        lemma_tally_none(rest, kind);
        assert(catalog.last() == catalog[catalog.len() - 1]);
    }
}

/// What a new connection under `kind` does to the relation kinds: the kind is
/// found or comes last, its counter goes up by one, and every other kind
/// stays as it is.
pub proof fn lemma_kinds_using<T>(g: GraphoView<T>, kind: Seq<char>, description: Seq<char>, fresh: Fresh) -> (j: int)
    requires
        g.kinds_ok(),
        g.runtime_ref.edges.len() < CORE_LIMIT,
    ensures
        j == kind_at(g.kinds_using(kind, description, fresh), kind),
        0 <= j < g.kinds_using(kind, description, fresh).len(),
        g.kinds_using(kind, description, fresh)[j].name == kind,
        g.kinds_using(kind, description, fresh)[j].energy == tally(g.runtime_ref.edges, kind) + 1,
        g.kind_ref(kind, description, fresh).uuid == g.kinds_using(kind, description, fresh)[j].metadata.id,
        g.kind_known(kind) ==> j < g.edge_kinds.len() && g.kinds_using(kind, description, fresh).len()
            == g.edge_kinds.len() && g.kinds_using(kind, description, fresh)[j].metadata.id
            == g.edge_kinds[j].metadata.id,
        !g.kind_known(kind) ==> j == g.edge_kinds.len() && g.kinds_using(kind, description, fresh).len()
            == g.edge_kinds.len() + 1,
        forall|i: int|
            0 <= i < g.edge_kinds.len() && i != j ==> #[trigger] g.kinds_using(kind, description, fresh)[i]
                == g.edge_kinds[i],
        forall|i: int| 0 <= i < g.edge_kinds.len() && i != j ==> (#[trigger] g.edge_kinds[i]).name != kind,
{
    let kinds = g.kinds_using(kind, description, fresh);
    lemma_tally_bound(g.runtime_ref.edges, kind);
    if g.kind_known(kind) {
        let w = choose|w: int| 0 <= w < g.edge_kinds.len() && (#[trigger] g.edge_kinds[w]).name == kind;
        assert forall|i: int| 0 <= i < w implies (#[trigger] g.edge_kinds[i]).name != kind by {
            assert(g.edge_kinds[i].name != g.edge_kinds[w].name);
        }
        lemma_kind_at(g.edge_kinds, kind, w);
        assert(kinds == g.edge_kinds.update(w, used(g.edge_kinds[w], fresh.stamp)));
        assert forall|i: int| 0 <= i < w implies (#[trigger] kinds[i]).name != kind by {
            assert(kinds[i] == g.edge_kinds[i]);
        }
        lemma_kind_at(kinds, kind, w);
        assert forall|i: int| 0 <= i < g.edge_kinds.len() && i != w implies (#[trigger] g.edge_kinds[i]).name
            != kind by {
            if i < w {
                assert(g.edge_kinds[i].name != g.edge_kinds[w].name);
            } else {
                assert(g.edge_kinds[w].name != g.edge_kinds[i].name);
            }
        }
        w
    } else {
        let w = g.edge_kinds.len() as int;
        assert forall|i: int| 0 <= i < w implies (#[trigger] kinds[i]).name != kind by {
            assert(kinds[i] == g.edge_kinds[i]);
        }
        lemma_kind_at(kinds, kind, w);
        assert forall|e: int| 0 <= e < g.runtime_ref.edges.len() implies (#[trigger] g.runtime_ref.edges[e]).name
            != kind by {
            assert(g.kind_known(g.runtime_ref.edges[e].name));
        }
        lemma_tally_none(g.runtime_ref.edges, kind);
        w
    }
}

/// The inputs on which two nodes of a consistent graph are linked up: both
/// are nodes, neither lists the other under `kind`, and the graph has room.
pub open spec fn may_link<T>(g: GraphoView<T>, a: int, b: int, kind: Seq<char>) -> bool {
    &&& g.wf()
    &&& g.handle(a)
    &&& g.handle(b)
    &&& !g.connected(a, b, kind)
    &&& g.links.len() < CORE_LIMIT
    &&& g.nodes[a].connections.len() < u32::MAX
    &&& g.nodes[b].connections.len() < u32::MAX
}

/// What linking up does to the nodes: each end gets one entry at the end of
/// its list (one entry in all where the ends are one node) and an up-to-date
/// counter; names, identifiers and all other nodes stay.
pub proof fn lemma_linked_up_nodes<T>(
    g: GraphoView<T>,
    a: int,
    b: int,
    kind: Seq<char>,
    description: Seq<char>,
    fresh: Fresh,
)
    requires
        may_link(g, a, b, kind),
    ensures
        ({
            let post = g.linked_up(a, b, kind, description, fresh);
            let edge = g.kind_ref(kind, description, fresh);
            &&& post.nodes.len() == g.nodes.len()
            &&& post.index == g.index
            &&& post.links == g.links.push((a, b, 1u32))
            &&& post.runtime_ref.nodes == g.runtime_ref.nodes
            &&& post.runtime_ref.edges == g.runtime_ref.edges.push(
                RefView { uuid: fresh.edge_id, name: kind, index: g.links.len() as usize },
            )
            &&& post.edge_kinds == g.kinds_using(kind, description, fresh)
            &&& post.runtime_ref.edge_kinds == g.kind_catalog_with(kind, edge.uuid)
            &&& forall|i: int|
                0 <= i < g.nodes.len() ==> (#[trigger] post.nodes[i]).name == g.nodes[i].name
                    && post.nodes[i].metadata.id == g.nodes[i].metadata.id && post.nodes[i].node_index == i
                    && post.nodes[i].energy == post.nodes[i].connections.len()
            &&& forall|i: int|
                0 <= i < g.nodes.len() && i != a && i != b ==> (#[trigger] post.nodes[i]).connections
                    == g.nodes[i].connections
            &&& post.nodes[a].connections == g.nodes[a].connections.push(entry_to(g.nodes, b, edge))
            &&& a != b ==> post.nodes[b].connections == g.nodes[b].connections.push(entry_to(g.nodes, a, edge))
        }),
{
    let post = g.linked_up(a, b, kind, description, fresh);
    assert forall|i: int| 0 <= i < g.nodes.len() implies (#[trigger] post.nodes[i]).name == g.nodes[i].name
        && post.nodes[i].metadata.id == g.nodes[i].metadata.id && post.nodes[i].node_index == i
        && post.nodes[i].energy == post.nodes[i].connections.len() by {
        assert(g.node_ok(i));
    }
}

/// Linking up keeps the node store consistent.
proof fn lemma_linked_up_store<T>(g: GraphoView<T>, a: int, b: int, kind: Seq<char>, description: Seq<char>, fresh: Fresh)
    requires
        may_link(g, a, b, kind),
    ensures
        g.linked_up(a, b, kind, description, fresh).store_ok(),
        g.linked_up(a, b, kind, description, fresh).catalog_ok(),
{
    let post = g.linked_up(a, b, kind, description, fresh);
    lemma_linked_up_nodes(g, a, b, kind, description, fresh);
    assert forall|i: int| 0 <= i < post.nodes.len() implies #[trigger] post.node_ok(i) by {
        assert(g.node_ok(i));
    }
    assert forall|s: Seq<char>| #[trigger] post.index.contains_key(s) implies post.index[s] < post.nodes.len()
        && post.nodes[post.index[s] as int].name == s by {
        assert(g.index.contains_key(s));
    }
    assert forall|p: int| 0 <= p < post.runtime_ref.nodes.len() implies post.catalog_entry_ok(
        #[trigger] post.runtime_ref.nodes[p],
    ) by {
        assert(g.catalog_entry_ok(g.runtime_ref.nodes[p]));
    }
}

/// Linking up keeps the relation kinds consistent.
proof fn lemma_linked_up_kinds<T>(g: GraphoView<T>, a: int, b: int, kind: Seq<char>, description: Seq<char>, fresh: Fresh)
    requires
        may_link(g, a, b, kind),
    ensures
        g.linked_up(a, b, kind, description, fresh).kinds_ok(),
{
    let post = g.linked_up(a, b, kind, description, fresh);
    lemma_linked_up_nodes(g, a, b, kind, description, fresh);
    let j = lemma_kinds_using(g, kind, description, fresh);
    let entry = RefView { uuid: fresh.edge_id, name: kind, index: g.links.len() as usize };
    let kinds = post.edge_kinds;
    assert forall|j1: int, j2: int| 0 <= j1 < j2 < kinds.len() implies (#[trigger] kinds[j1]).name != (
    #[trigger] kinds[j2]).name by {
        if j1 != j && j2 != j {
            assert(kinds[j1] == g.edge_kinds[j1] && kinds[j2] == g.edge_kinds[j2]);
            assert(g.edge_kinds[j1].name != g.edge_kinds[j2].name);
        } else if j1 == j {
            assert(kinds[j2] == g.edge_kinds[j2]);
            assert(g.edge_kinds[j2].name != kind);
        } else {
            assert(kinds[j1] == g.edge_kinds[j1]);
            assert(g.edge_kinds[j1].name != kind);
        }
    }
    assert forall|i: int| 0 <= i < kinds.len() implies (#[trigger] kinds[i]).energy == tally(
        post.runtime_ref.edges,
        kinds[i].name,
    ) by {
        lemma_tally_push(g.runtime_ref.edges, entry, kinds[i].name);
        if i != j {
            assert(kinds[i] == g.edge_kinds[i]);
            assert(g.edge_kinds[i].name != kind);
        }
    }
    assert forall|e: int| 0 <= e < post.runtime_ref.edges.len() implies post.kind_known(
        (#[trigger] post.runtime_ref.edges[e]).name,
    ) by {
        if e < g.runtime_ref.edges.len() {
            lemma_known_stays(g, kind, description, fresh, g.runtime_ref.edges[e].name);
        } else {
            assert(kinds[j].name == kind);
        }
    }
    assert forall|p: int| 0 <= p < post.runtime_ref.edge_kinds.len() implies post.kind_known(
        (#[trigger] post.runtime_ref.edge_kinds[p]).name,
    ) by {
        if p < g.runtime_ref.edge_kinds.len() {
            lemma_known_stays(g, kind, description, fresh, g.runtime_ref.edge_kinds[p].name);
        } else {
            assert(kinds[j].name == kind);
        }
    }
}

/// A kind that is known stays known when a kind is used.
proof fn lemma_known_stays<T>(g: GraphoView<T>, kind: Seq<char>, description: Seq<char>, fresh: Fresh, other: Seq<char>)
    requires
        g.kinds_ok(),
        g.runtime_ref.edges.len() < CORE_LIMIT,
        g.kind_known(other),
    ensures
        exists|j: int|
            0 <= j < g.kinds_using(kind, description, fresh).len() && (#[trigger] g.kinds_using(
                kind,
                description,
                fresh,
            )[j]).name == other,
{
    let kinds = g.kinds_using(kind, description, fresh);
    let j = lemma_kinds_using(g, kind, description, fresh);
    let w = choose|w: int| 0 <= w < g.edge_kinds.len() && (#[trigger] g.edge_kinds[w]).name == other;
    if w == j {
        assert(g.edge_kinds[w].name == kind || w == g.edge_kinds.len());
        assert(kinds[j].name == other);
    } else {
        assert(kinds[w] == g.edge_kinds[w]);
    }
}

/// Linking up keeps the adjacency lists consistent.
proof fn lemma_linked_up_entries<T>(g: GraphoView<T>, a: int, b: int, kind: Seq<char>, description: Seq<char>, fresh: Fresh)
    requires
        may_link(g, a, b, kind),
    ensures
        g.linked_up(a, b, kind, description, fresh).entries_ok(),
{
    let post = g.linked_up(a, b, kind, description, fresh);
    let edge = g.kind_ref(kind, description, fresh);
    lemma_linked_up_nodes(g, a, b, kind, description, fresh);
    let j = lemma_kinds_using(g, kind, description, fresh);
    let e_new = g.links.len() as int;
    assert(post.links[e_new] == (a, b, 1u32));
    assert(post.kind_of(e_new) == kind);
    assert forall|i: int, k: int| post.entry(i, k) implies post.entry_ok(#[trigger] post.at(i, k))
        && post.entry_kind_ok(post.at(i, k)) && post.entry_backed(i, post.at(i, k)) by {
        let c = post.at(i, k);
        if k < g.nodes[i].connections.len() {
            assert(g.entry(i, k));
            assert(c == g.at(i, k));
            assert(g.entry_ok(c) && g.entry_kind_ok(c) && g.entry_backed(i, c));
            let w = choose|w: int|
                0 <= w < g.edge_kinds.len() && (#[trigger] g.edge_kinds[w]).name == c.edge.name
                    && g.edge_kinds[w].metadata.id == c.edge.uuid;
            if w != j {
                assert(post.edge_kinds[w] == g.edge_kinds[w]);
            }
            assert(post.edge_kinds[w].name == c.edge.name && post.edge_kinds[w].metadata.id == c.edge.uuid);
            let e = choose|e: int|
                0 <= e < g.links.len() && joins(#[trigger] g.links[e], i, c.node.index as int) && g.kind_of(e)
                    == c.edge.name;
            assert(post.links[e] == g.links[e]);
            assert(post.kind_of(e) == g.kind_of(e));
        } else {
            assert(i == a || i == b);
            assert(post.edge_kinds[j].name == kind && post.edge_kinds[j].metadata.id == edge.uuid);
            if i == a {
                assert(c == entry_to(g.nodes, b, edge));
                assert(joins(post.links[e_new], a, b));
            } else {
                assert(c == entry_to(g.nodes, a, edge));
                assert(joins(post.links[e_new], b, a));
            }
        }
    }
    assert forall|i: int, k1: int, k2: int| post.entry(i, k1) && post.entry(i, k2) && k1 != k2 implies !(
    #[trigger] post.at(i, k1)).leads((#[trigger] post.at(i, k2)).node.index as int, post.at(i, k2).edge.name) by {
        let n = g.nodes[i].connections.len() as int;
        if k1 < n && k2 < n {
            assert(g.entry(i, k1) && g.entry(i, k2));
            assert(post.at(i, k1) == g.at(i, k1) && post.at(i, k2) == g.at(i, k2));
            assert(!g.at(i, k1).leads(g.at(i, k2).node.index as int, g.at(i, k2).edge.name));
        } else {
            let old = if k1 < n {
                k1
            } else {
                k2
            };
            assert(old < n);
            assert(post.at(i, old) == g.nodes[i].connections[old]);
            if i == a {
                assert(!g.nodes[a].leads(b, kind));
                assert(!g.nodes[a].connections[old].leads(b, kind));
            } else {
                assert(i == b);
                assert(!g.nodes[b].leads(a, kind));
                assert(!g.nodes[b].connections[old].leads(a, kind));
            }
        }
    }
}

/// Linking up keeps the structural edges consistent.
proof fn lemma_linked_up_links<T>(g: GraphoView<T>, a: int, b: int, kind: Seq<char>, description: Seq<char>, fresh: Fresh)
    requires
        may_link(g, a, b, kind),
    ensures
        g.linked_up(a, b, kind, description, fresh).links_ok(),
{
    let post = g.linked_up(a, b, kind, description, fresh);
    let edge = g.kind_ref(kind, description, fresh);
    lemma_linked_up_nodes(g, a, b, kind, description, fresh);
    let e_new = g.links.len() as int;
    assert(post.links[e_new] == (a, b, 1u32));
    assert(post.kind_of(e_new) == kind);
    assert forall|e: int| 0 <= e < post.links.len() implies #[trigger] post.link_ok(e) by {
        if e < e_new {
            assert(g.link_ok(e));
            assert(post.links[e] == g.links[e]);
            assert(post.kind_of(e) == g.kind_of(e));
            lemma_leads_stays(g, a, b, kind, description, fresh, g.links[e].0, g.links[e].1, g.kind_of(e));
            lemma_leads_stays(g, a, b, kind, description, fresh, g.links[e].1, g.links[e].0, g.kind_of(e));
        } else {
            let last_a = g.nodes[a].connections.len() as int;
            assert(post.nodes[a].connections[last_a] == entry_to(g.nodes, b, edge));
            assert(post.nodes[a].connections[last_a].leads(b, kind));
            if a != b {
                let last_b = g.nodes[b].connections.len() as int;
                assert(post.nodes[b].connections[last_b] == entry_to(g.nodes, a, edge));
                assert(post.nodes[b].connections[last_b].leads(a, kind));
            }
        }
    }
    assert forall|e1: int, e2: int|
        0 <= e1 < e2 < post.links.len() && joins(#[trigger] post.links[e1], (#[trigger] post.links[e2]).0, post.links[e2].1)
        implies post.kind_of(e1) != post.kind_of(e2) by {
        assert(post.links[e1] == g.links[e1]);
        assert(post.kind_of(e1) == g.kind_of(e1));
        if e2 < e_new {
            assert(post.links[e2] == g.links[e2]);
            assert(post.kind_of(e2) == g.kind_of(e2));
        } else {
            assert(g.link_ok(e1));
            if g.kind_of(e1) == kind {
                assert(g.leads(a, b, kind) || g.leads(b, a, kind));
            }
        }
    }
}

/// An adjacency entry that a node lists stays listed when two nodes are
/// linked up.
proof fn lemma_leads_stays<T>(
    g: GraphoView<T>,
    a: int,
    b: int,
    kind: Seq<char>,
    description: Seq<char>,
    fresh: Fresh,
    i: int,
    peer: int,
    other: Seq<char>,
)
    requires
        may_link(g, a, b, kind),
        g.handle(i),
        g.nodes[i].leads(peer, other),
    ensures
        g.linked_up(a, b, kind, description, fresh).nodes[i].leads(peer, other),
{
    let post = g.linked_up(a, b, kind, description, fresh);
    lemma_linked_up_nodes(g, a, b, kind, description, fresh);
    let k = choose|k: int| 0 <= k < g.nodes[i].connections.len() && (#[trigger] g.nodes[i].connections[k]).leads(peer, other);
    assert(post.nodes[i].connections[k] == g.nodes[i].connections[k]);
}

/// Linking up two nodes that are not yet connected under `kind` leaves the
/// graph consistent.
pub proof fn lemma_linked_up_wf<T>(g: GraphoView<T>, a: int, b: int, kind: Seq<char>, description: Seq<char>, fresh: Fresh)
    requires
        may_link(g, a, b, kind),
    ensures
        g.linked_up(a, b, kind, description, fresh).wf(),
{
    lemma_linked_up_store(g, a, b, kind, description, fresh);
    lemma_linked_up_entries(g, a, b, kind, description, fresh);
    lemma_linked_up_links(g, a, b, kind, description, fresh);
    lemma_linked_up_kinds(g, a, b, kind, description, fresh);
}

/// After both nodes of a connection were looked up or taken in: the graph is
/// consistent, both are nodes of it, and one lists the other under `kind`
/// exactly if the two were connected under `kind` before. If they are not,
/// the room that the graph had for the connection is the room to link them
/// up.
pub proof fn lemma_staged<T>(g: GraphoView<T>, from: NodeView<T>, to: NodeView<T>, kind: Seq<char>, stamp: Timestamp)
    requires
        g.wf(),
        g.room_for(from.name, to.name, kind),
    ensures
        ({
            let mid = g.with_node(from, stamp);
            let staged = mid.with_node(to, stamp);
            let a = staged.find(from.name);
            let b = staged.find(to.name);
            &&& mid.wf()
            &&& mid.has(to.name) || mid.nodes.len() < CORE_LIMIT
            &&& staged.wf()
            &&& staged.handle(a)
            &&& staged.handle(b)
            &&& a == (if g.has(from.name) {
                g.find(from.name)
            } else {
                g.nodes.len() as int
            })
            &&& b == (if mid.has(to.name) {
                mid.find(to.name)
            } else {
                mid.nodes.len() as int
            })
            &&& staged.connected(a, b, kind) <==> g.bound(from.name, to.name, kind)
            &&& !staged.connected(a, b, kind) ==> may_link(staged, a, b, kind)
        }),
{
    let mid = g.with_node(from, stamp);
    lemma_with_node_wf(g, from, stamp);
    let staged = mid.with_node(to, stamp);
    lemma_with_node_wf(mid, to, stamp);
    let a = staged.find(from.name);
    let b = staged.find(to.name);
    assert(mid.index.contains_key(from.name));
    assert(staged.index.contains_key(from.name));
    assert(staged.index.contains_key(to.name));
    assert(staged.links == g.links);
    let n = g.nodes.len() as int;
    assert forall|i: int, peer: int, other: Seq<char>| staged.handle(i) && #[trigger] staged.nodes[i].leads(peer, other)
        implies i < n && peer < n && g.nodes[i].leads(peer, other) by {
        let k = choose|k: int|
            0 <= k < staged.nodes[i].connections.len() && (#[trigger] staged.nodes[i].connections[k]).leads(peer, other);
        assert(staged.entry(i, k));
        if i >= n {
            assert(staged.nodes[i].connections.len() == 0);
        } else {
            assert(staged.nodes[i] == g.nodes[i]);
            assert(g.entry(i, k));
            assert(g.entry_ok(g.at(i, k)));
        }
    }
    if a < n && b < n {
        assert(staged.nodes[a] == g.nodes[a]);
        assert(staged.nodes[b] == g.nodes[b]);
        assert(g.index.contains_key(staged.nodes[a].name)) by {
            assert(g.node_ok(a));
        }
        assert(g.index.contains_key(staged.nodes[b].name)) by {
            assert(g.node_ok(b));
        }
        assert(staged.node_ok(a) && staged.node_ok(b));
    } else {
        assert(!staged.connected(a, b, kind));
        if g.has(from.name) && g.has(to.name) {
            assert(g.index.contains_key(from.name) && g.index.contains_key(to.name));
        }
    }
    if !staged.connected(a, b, kind) {
        assert(!g.bound(from.name, to.name, kind));
        if a >= n {
            assert(staged.nodes[a].connections.len() == 0);
        } else {
            assert(staged.nodes[a] == g.nodes[a]);
        }
        if b >= n {
            assert(staged.nodes[b].connections.len() == 0);
        } else {
            assert(staged.nodes[b] == g.nodes[b]);
        }
    }
}

/// A connection leaves the graph consistent, with both nodes in it and each
/// listing the other under `kind`.
pub proof fn lemma_connect_wf<T>(
    g: GraphoView<T>,
    from: NodeView<T>,
    to: NodeView<T>,
    kind: Seq<char>,
    description: Seq<char>,
    fresh: Fresh,
)
    requires
        g.wf(),
        g.room_for(from.name, to.name, kind),
    ensures
        ({
            let once = g.connect(from, to, kind, description, fresh);
            &&& once.wf()
            &&& once.has(from.name)
            &&& once.has(to.name)
            &&& once.leads(once.find(from.name), once.find(to.name), kind)
            &&& once.leads(once.find(to.name), once.find(from.name), kind)
            &&& once.runtime_ref.nodes == by_degree(once.runtime_ref.nodes, once.nodes)
        }),
{
    let staged = g.with_node(from, fresh.stamp).with_node(to, fresh.stamp);
    lemma_staged(g, from, to, kind, fresh.stamp);
    let a = staged.find(from.name);
    let b = staged.find(to.name);
    let once = g.connect(from, to, kind, description, fresh);
    if staged.connected(a, b, kind) {
        lemma_reranked_wf(staged);
        assert(once == staged.reranked());
        lemma_by_degree_descends(staged.runtime_ref.nodes, staged.nodes);
        lemma_by_degree_of_descending(once.runtime_ref.nodes, once.nodes);
    } else {
        let target = staged.linked_up(a, b, kind, description, fresh);
        lemma_linked_up_wf(staged, a, b, kind, description, fresh);
        lemma_linked_up_nodes(staged, a, b, kind, description, fresh);
        lemma_reranked_wf(target);
        assert(once == target.reranked());
        let edge = staged.kind_ref(kind, description, fresh);
        let last = staged.nodes[a].connections.len() as int;
        assert(target.nodes[a].connections[last] == entry_to(staged.nodes, b, edge));
        assert(target.nodes[a].connections[last].leads(b, kind));
        assert(once.leads(a, b, kind));
        lemma_by_degree_descends(target.runtime_ref.nodes, target.nodes);
        lemma_by_degree_of_descending(once.runtime_ref.nodes, once.nodes);
    }
    if once.leads(a, b, kind) {
        lemma_leads_back(once, a, b, kind);
    } else {
        lemma_leads_back(once, b, a, kind);
    }
}

/// Once two nodes are connected under a kind, connecting them
/// again under that kind, in either order, succeeds and leaves the graph
/// exactly as it is: the same degrees, the same kinds with the same
/// counters, the same structural edges.
pub proof fn lemma_reconnect<T>(
    g: GraphoView<T>,
    from: NodeView<T>,
    to: NodeView<T>,
    kind: Seq<char>,
    description: Seq<char>,
    fresh: Fresh,
    again_from: NodeView<T>,
    again_to: NodeView<T>,
    again_description: Seq<char>,
    again: Fresh,
)
    requires
        g.wf(),
        g.room_for(from.name, to.name, kind),
        (again_from.name == from.name && again_to.name == to.name) || (again_from.name == to.name && again_to.name
            == from.name),
    ensures
        ({
            let once = g.connect(from, to, kind, description, fresh);
            &&& once.room_for(again_from.name, again_to.name, kind)
            &&& once.connect(again_from, again_to, kind, again_description, again) == once
        }),
{
    let once = g.connect(from, to, kind, description, fresh);
    lemma_connect_wf(g, from, to, kind, description, fresh);
    assert(once.with_node(again_from, again.stamp) == once);
    assert(once.with_node(again_from, again.stamp).with_node(again_to, again.stamp) == once);
    assert(once.reranked() == once);
}

/// Saving and loading: the normal form of a consistent graph, with its
/// lookup cache rebuilt, is a consistent graph with the same nodes under the
/// same handles (the same names, degrees, adjacency lists and records, and
/// clones of the payloads), the same structural edges with the same catalog
/// entries, and the same kinds with the same counters, in another order.
pub proof fn lemma_snapshot_restores<T: Clone>(g: GraphoView<T>, snapshot: GraphoView<T>)
    requires
        g.wf(),
        normal_form(g, snapshot),
    ensures
        snapshot.restored().wf(),
        snapshot.restored().nodes.len() == g.nodes.len(),
        forall|i: int| 0 <= i < g.nodes.len() ==> copied(g.nodes[i], #[trigger] snapshot.restored().nodes[i]),
        forall|s: Seq<char>| g.has(s) ==> snapshot.restored().has(s) && snapshot.restored().find(s) == g.find(s),
        snapshot.restored().links == g.links,
        snapshot.restored().runtime_ref.edges == g.runtime_ref.edges,
        snapshot.restored().edge_kinds.len() == g.edge_kinds.len(),
        forall|j: int| 0 <= j < g.edge_kinds.len() ==> snapshot.restored().edge_kinds.contains(#[trigger] g.edge_kinds[j]),
        forall|j: int| 0 <= j < g.edge_kinds.len() ==> g.edge_kinds.contains(#[trigger] snapshot.restored().edge_kinds[j]),
        ranked::<KindStat>(stats(snapshot.restored().edge_kinds)) == ranked::<KindStat>(stats(g.edge_kinds)),
{
    let r = snapshot.restored();
    assert(r.nodes == snapshot.nodes);
    assert(r.links == g.links);
    assert(r.edge_kinds == ranked::<EdgeKind>(g.edge_kinds));
    assert(r.runtime_ref.nodes == ranked::<Ref<usize>>(g.runtime_ref.nodes));
    assert(r.runtime_ref.edge_kinds == ranked::<EdgeKindRef>(g.runtime_ref.edge_kinds));
    // the edge catalog stands in the order of its handles already
    assert forall|e1: int, e2: int| 0 <= e1 < e2 < g.runtime_ref.edges.len() implies Ref::<usize>::precedes(
        #[trigger] g.runtime_ref.edges[e1],
        #[trigger] g.runtime_ref.edges[e2],
    ) by {
        assert(g.link_ok(e1) && g.link_ok(e2));
    }
    lemma_ranked_of_ordered::<Ref<usize>>(g.runtime_ref.edges);
    assert(r.runtime_ref.edges == g.runtime_ref.edges);
    let kinds_from = lemma_ranked_permutes::<EdgeKind>(g.edge_kinds);
    let nodes_from = lemma_ranked_permutes::<Ref<usize>>(g.runtime_ref.nodes);
    let refs_from = lemma_ranked_permutes::<EdgeKindRef>(g.runtime_ref.edge_kinds);
    assert forall|i: int| 0 <= i < g.nodes.len() implies copied(g.nodes[i], #[trigger] r.nodes[i]) by {
        assert(copied(g.nodes[i], snapshot.nodes[i]));
    }
    // the node store
    assert(names_differ(r.nodes)) by {
        assert forall|i: int, j: int| 0 <= i < j < r.nodes.len() implies (#[trigger] r.nodes[i]).name != (
        #[trigger] r.nodes[j]).name by {
            assert(g.node_ok(i) && g.node_ok(j));
            assert(copied(g.nodes[i], r.nodes[i]) && copied(g.nodes[j], r.nodes[j]));
        }
    }
    lemma_index_of_names(r.nodes);
    lemma_index_finds(r.nodes);
    assert forall|i: int| 0 <= i < r.nodes.len() implies #[trigger] r.node_ok(i) by {
        assert(g.node_ok(i));
        assert(copied(g.nodes[i], r.nodes[i]));
    }
    assert(r.store_ok());
    assert forall|s: Seq<char>| g.has(s) implies r.has(s) && r.find(s) == g.find(s) by {
        assert(g.index.contains_key(s));
        let i = g.index[s] as int;
        assert(copied(g.nodes[i], r.nodes[i]));
        assert(r.node_ok(i));
    }
    // the kinds
    assert forall|j: int| 0 <= j < g.edge_kinds.len() implies r.edge_kinds.contains(#[trigger] g.edge_kinds[j]) by {
        assert(kinds_from.contains(j));
        let w = choose|w: int| 0 <= w < kinds_from.len() && kinds_from[w] == j;
        assert(r.edge_kinds[w] == g.edge_kinds[kinds_from[w]]);
    }
    assert forall|j: int| 0 <= j < g.edge_kinds.len() implies g.edge_kinds.contains(#[trigger] r.edge_kinds[j]) by {
        assert(r.edge_kinds[j] == g.edge_kinds[kinds_from[j]]);
    }
    assert forall|name: Seq<char>| g.kind_known(name) implies r.kind_known(name) by {
        let j = choose|j: int| 0 <= j < g.edge_kinds.len() && (#[trigger] g.edge_kinds[j]).name == name;
        assert(r.edge_kinds.contains(g.edge_kinds[j]));
        let w = choose|w: int| 0 <= w < r.edge_kinds.len() && r.edge_kinds[w] == g.edge_kinds[j];
        assert(r.edge_kinds[w].name == name);
    }
    assert forall|j1: int, j2: int| 0 <= j1 < j2 < r.edge_kinds.len() implies (#[trigger] r.edge_kinds[j1]).name != (
    #[trigger] r.edge_kinds[j2]).name by {
        let o1 = kinds_from[j1];
        let o2 = kinds_from[j2];
        assert(r.edge_kinds[j1] == g.edge_kinds[o1] && r.edge_kinds[j2] == g.edge_kinds[o2]);
        assert(o1 != o2);
        if o1 < o2 {
            assert(g.edge_kinds[o1].name != g.edge_kinds[o2].name);
        } else {
            assert(g.edge_kinds[o2].name != g.edge_kinds[o1].name);
        }
    }
    assert forall|j: int| 0 <= j < r.edge_kinds.len() implies (#[trigger] r.edge_kinds[j]).energy == tally(
        r.runtime_ref.edges,
        r.edge_kinds[j].name,
    ) by {
        assert(r.edge_kinds[j] == g.edge_kinds[kinds_from[j]]);
    }
    assert forall|e: int| 0 <= e < r.runtime_ref.edges.len() implies r.kind_known(
        (#[trigger] r.runtime_ref.edges[e]).name,
    ) by {
        assert(g.kind_known(g.runtime_ref.edges[e].name));
    }
    assert forall|p: int| 0 <= p < r.runtime_ref.edge_kinds.len() implies r.kind_known(
        (#[trigger] r.runtime_ref.edge_kinds[p]).name,
    ) by {
        assert(r.runtime_ref.edge_kinds[p] == g.runtime_ref.edge_kinds[refs_from[p]]);
        assert(g.kind_known(g.runtime_ref.edge_kinds[refs_from[p]].name));
    }
    assert(r.kinds_ok());
    // the adjacency lists
    assert forall|i: int, k: int| r.entry(i, k) implies r.entry_ok(#[trigger] r.at(i, k)) && r.entry_kind_ok(
        r.at(i, k),
    ) && r.entry_backed(i, r.at(i, k)) by {
        assert(copied(g.nodes[i], r.nodes[i]));
        assert(g.entry(i, k));
        let c = g.at(i, k);
        assert(r.at(i, k) == c);
        assert(g.entry_ok(c) && g.entry_kind_ok(c) && g.entry_backed(i, c));
        assert(copied(g.nodes[c.node.index as int], r.nodes[c.node.index as int]));
        let j = choose|j: int|
            0 <= j < g.edge_kinds.len() && (#[trigger] g.edge_kinds[j]).name == c.edge.name && g.edge_kinds[j].metadata.id
                == c.edge.uuid;
        assert(r.edge_kinds.contains(g.edge_kinds[j]));
        let w = choose|w: int| 0 <= w < r.edge_kinds.len() && r.edge_kinds[w] == g.edge_kinds[j];
        assert(r.edge_kinds[w].name == c.edge.name && r.edge_kinds[w].metadata.id == c.edge.uuid);
        let e = choose|e: int|
            0 <= e < g.links.len() && joins(#[trigger] g.links[e], i, c.node.index as int) && g.kind_of(e) == c.edge.name;
        assert(joins(r.links[e], i, c.node.index as int) && r.kind_of(e) == c.edge.name);
    }
    assert forall|i: int, k1: int, k2: int| r.entry(i, k1) && r.entry(i, k2) && k1 != k2 implies !(
    #[trigger] r.at(i, k1)).leads((#[trigger] r.at(i, k2)).node.index as int, r.at(i, k2).edge.name) by {
        assert(copied(g.nodes[i], r.nodes[i]));
        assert(g.entry(i, k1) && g.entry(i, k2));
        assert(!g.at(i, k1).leads(g.at(i, k2).node.index as int, g.at(i, k2).edge.name));
    }
    assert(r.entries_ok());
    // the structural edges
    assert forall|e: int| 0 <= e < r.links.len() implies #[trigger] r.link_ok(e) by {
        assert(g.link_ok(e));
        let a = g.links[e].0;
        let b = g.links[e].1;
        assert(copied(g.nodes[a], r.nodes[a]) && copied(g.nodes[b], r.nodes[b]));
        assert(r.nodes[a].connections == g.nodes[a].connections);
        assert(r.nodes[b].connections == g.nodes[b].connections);
        assert(r.kind_of(e) == g.kind_of(e));
    }
    assert forall|e1: int, e2: int|
        0 <= e1 < e2 < r.links.len() && joins(#[trigger] r.links[e1], (#[trigger] r.links[e2]).0, r.links[e2].1)
        implies r.kind_of(e1) != r.kind_of(e2) by {
        assert(g.kind_of(e1) != g.kind_of(e2));
    }
    assert(r.links_ok());
    // the node catalog
    assert forall|p: int| 0 <= p < r.runtime_ref.nodes.len() implies r.catalog_entry_ok(
        #[trigger] r.runtime_ref.nodes[p],
    ) by {
        assert(r.runtime_ref.nodes[p] == g.runtime_ref.nodes[nodes_from[p]]);
        let entry = g.runtime_ref.nodes[nodes_from[p]];
        assert(g.catalog_entry_ok(entry));
        assert(copied(g.nodes[entry.index as int], r.nodes[entry.index as int]));
    }
    assert forall|p: int, q: int| 0 <= p < q < r.runtime_ref.nodes.len() implies (#[trigger] r.runtime_ref.nodes[p]).index
        != (#[trigger] r.runtime_ref.nodes[q]).index by {
        assert(r.runtime_ref.nodes[p] == g.runtime_ref.nodes[nodes_from[p]]);
        assert(r.runtime_ref.nodes[q] == g.runtime_ref.nodes[nodes_from[q]]);
        assert(nodes_from[p] != nodes_from[q]);
    }
    assert(r.catalog_ok());
    // the kinds with their counters
    let list = stats(g.edge_kinds);
    let other = stats(r.edge_kinds);
    assert forall|i: int| 0 <= i < list.len() implies #[trigger] other[i] == list[kinds_from[i]] by {
        assert(r.edge_kinds[i] == g.edge_kinds[kinds_from[i]]);
    }
    assert forall|i: int, j: int| 0 <= i < j < list.len() implies !(KindStat::precedes(
        #[trigger] list[i],
        #[trigger] list[j],
    ) && KindStat::precedes(list[j], list[i])) by {
        assert(g.edge_kinds[i].name != g.edge_kinds[j].name);
        if KindStat::precedes(list[i], list[j]) && KindStat::precedes(list[j], list[i]) {
            lemma_lex_antisymmetric(list[i].name, list[j].name);
        }
    }
    lemma_ranked_rearranged::<KindStat>(list, other, kinds_from);
}

} // verus!
