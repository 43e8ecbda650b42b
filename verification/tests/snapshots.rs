use grapho::models::graph_models::{GraphError, Grapho};
use grapho::models::node_types::NodeTypesProps;
use grapho::models::records::{Connection, Node, Ref};
use grapho::models::snapshot::Snapshot;
use grapho::runtime::persist::PersistError;

impl NodeTypesProps for Label {}

#[derive(Debug, Clone, PartialEq)]
struct Label(String);

fn town(name: &str) -> Node<Label> {
    Node::new(name, Label(name.to_uppercase()), vec![], "a town")
}

fn roads() -> Grapho<Label> {
    let mut g = Grapho::<Label>::new("roads");
    g.add_connection(town("ulm"), town("bonn"), "road", "by road").unwrap();
    g.add_connection(town("kiel"), town("bonn"), "rail", "by rail").unwrap();
    g.add_connection(town("bonn"), town("trier"), "road", "by road").unwrap();
    g.add_connection(town("kiel"), town("trier"), "air", "by air").unwrap();
    g
}

fn names_and_degrees(g: &Grapho<Label>) -> Vec<(String, u32)> {
    g.nodes().iter().map(|n| (n.name.clone(), n.energy)).collect()
}

fn rejected(snapshot: Snapshot<Label>) -> bool {
    match Grapho::from_snapshot(snapshot) {
        Err(PersistError::Serde(text)) => text == "inconsistent graph",
        _ => false,
    }
}

#[test]
fn snapshot_is_in_normal_form() {
    let g = roads();
    let by_degree: Vec<String> = g.runtime_ref().nodes.iter().map(|r| r.name.clone()).collect();
    assert_eq!(by_degree, vec!["bonn", "kiel", "trier", "ulm"]);
    let created: Vec<String> = g.edge_kinds().iter().map(|k| k.name.clone()).collect();
    assert_eq!(created, vec!["road", "rail", "air"]);
    let s = g.clone_for_save();
    assert_eq!(s.name, "roads");
    assert_eq!(s.metadata.id, g.metadata().id);
    assert_eq!(s.links, vec![(0, 1, 1), (2, 1, 1), (1, 3, 1), (2, 3, 1)]);
    let handles: Vec<usize> = s.runtime_ref.nodes.iter().map(|r| r.index).collect();
    assert_eq!(handles, vec![0, 1, 2, 3]);
    let by_handle: Vec<String> = s.runtime_ref.nodes.iter().map(|r| r.name.clone()).collect();
    assert_eq!(by_handle, vec!["ulm", "bonn", "kiel", "trier"]);
    let edges: Vec<usize> = s.runtime_ref.edges.iter().map(|r| r.index).collect();
    assert_eq!(edges, vec![0, 1, 2, 3]);
    let kinds: Vec<(String, u32)> = s.edge_kinds.iter().map(|k| (k.name.clone(), k.energy)).collect();
    assert_eq!(kinds, vec![("air".to_string(), 1), ("rail".to_string(), 1), ("road".to_string(), 2)]);
    let catalogued: Vec<String> = s.runtime_ref.edge_kinds.iter().map(|r| r.name.clone()).collect();
    assert_eq!(catalogued, vec!["air", "rail", "road"]);
    assert_eq!(s.nodes.len(), 4);
    assert_eq!(s.nodes[1].name, "bonn");
    assert_eq!(s.nodes[1].content, Label("BONN".to_string()));
    assert_eq!(s.nodes[1].energy, 3);
    assert_eq!(s.nodes[1].connections.len(), 3);
    assert!(s.edges.is_empty());
    assert!(s.is_consistent());
}

#[test]
fn snapshots_of_equal_graphs_agree_whatever_the_order_of_creation() {
    let mut one = Grapho::<Label>::new("g");
    one.add_connection(town("a"), town("b"), "x", "d").unwrap();
    one.add_connection(town("a"), town("b"), "y", "d").unwrap();
    let mut other = Grapho::<Label>::new("g");
    other.add_connection(town("a"), town("b"), "y", "d").unwrap();
    other.add_connection(town("a"), town("b"), "x", "d").unwrap();
    let kinds = |g: &Grapho<Label>| -> Vec<String> { g.clone_for_save().edge_kinds.iter().map(|k| k.name.clone()).collect() };
    assert_eq!(kinds(&one), vec!["x", "y"]);
    assert_eq!(kinds(&other), vec!["x", "y"]);
}

#[test]
fn snapshot_round_trip() {
    let g = roads();
    let back = Grapho::from_snapshot(g.clone_for_save()).unwrap();
    assert_eq!(back.name(), "roads");
    assert_eq!(names_and_degrees(&back), names_and_degrees(&g));
    assert_eq!(back.edge_kind_stats(), g.edge_kind_stats());
    assert_eq!(back.links(), g.links());
    for name in ["ulm", "bonn", "kiel", "trier"] {
        assert_eq!(back.get_node_index_by_name(name), g.get_node_index_by_name(name));
    }
    assert_eq!(back.get_node_index_by_name("rome"), None);
    assert_eq!(back.calculate_distance(0, 3), Ok(2));
    assert_eq!(back.calculate_distance(0, 2), Ok(2));
    let top: Vec<String> = back.top_k_nodes_by_energy(2).iter().map(|r| r.name.clone()).collect();
    assert_eq!(top, vec!["bonn", "kiel"]);
    assert_eq!(back.node(1).unwrap().content, Label("BONN".to_string()));
    assert_eq!(back.node(1).unwrap().metadata.id, g.node(1).unwrap().metadata.id);
}

#[test]
fn a_restored_graph_goes_on() {
    let mut back = Grapho::from_snapshot(roads().clone_for_save()).unwrap();
    back.add_connection(town("ulm"), town("rome"), "air", "by air").unwrap();
    back.add_connection(town("ulm"), town("bonn"), "road", "by road").unwrap();
    assert_eq!(back.node_count(), 5);
    assert_eq!(back.edge_count(), 5);
    assert_eq!(back.edge_kind_stats(), vec![("air".to_string(), 2), ("road".to_string(), 2), ("rail".to_string(), 1)]);
    assert_eq!(back.calculate_distance(4, 2), Ok(3));
}

#[test]
fn a_node_without_connections_reaches_no_other() {
    let mut s = roads().clone_for_save();
    let lone = town("lone");
    let id = lone.metadata.id;
    let mut lone = lone;
    lone.node_index = 4;
    s.nodes.push(lone);
    s.runtime_ref.nodes.push(Ref { uuid: id, name: "lone".to_string(), index: 4 });
    let g = Grapho::from_snapshot(s).unwrap();
    let lone = g.get_node_index_by_name("lone").unwrap();
    assert_eq!(lone, 4);
    assert_eq!(g.node(lone).unwrap().energy, 0);
    for other in 0..4 {
        assert_eq!(g.calculate_distance(lone, other), Err(GraphError::NotFound));
        assert_eq!(g.calculate_distance(other, lone), Err(GraphError::NotFound));
    }
    assert_eq!(g.calculate_distance(lone, lone), Ok(0));
}

#[test]
fn an_empty_snapshot_is_a_graph() {
    let g = Grapho::<Label>::new("void");
    let back = Grapho::from_snapshot(g.clone_for_save()).unwrap();
    assert_eq!(back.node_count(), 0);
    assert_eq!(back.name(), "void");
}

#[test]
fn a_wrong_degree_is_rejected() {
    let mut s = roads().clone_for_save();
    s.nodes[0].energy = 2;
    assert!(!s.store_sound());
    assert!(rejected(s));
}

#[test]
fn a_wrong_handle_is_rejected() {
    let mut s = roads().clone_for_save();
    s.nodes[2].node_index = 0;
    assert!(rejected(s));
}

#[test]
fn a_name_that_stands_twice_is_rejected() {
    let mut s = roads().clone_for_save();
    s.nodes[3].name = "ulm".to_string();
    assert!(!s.store_sound());
    assert!(rejected(s));
}

#[test]
fn an_entry_without_its_mirror_is_rejected() {
    let mut s = roads().clone_for_save();
    s.nodes[0].connections.clear();
    s.nodes[0].energy = 0;
    assert!(s.store_sound());
    assert!(!s.links_sound());
    assert!(rejected(s));
}

#[test]
fn an_entry_without_a_structural_edge_is_rejected() {
    let mut s = roads().clone_for_save();
    let air = s.nodes[2].connections[1].edge.duplicate();
    let entry = |index: usize, name: &str, uuid: u128| Connection {
        node: Ref { uuid, name: name.to_string(), index },
        edge: air.duplicate(),
    };
    let ulm = s.nodes[0].metadata.id;
    let kiel = s.nodes[2].metadata.id;
    s.nodes[0].connections.push(entry(2, "kiel", kiel));
    s.nodes[0].energy = 2;
    s.nodes[2].connections.push(entry(0, "ulm", ulm));
    s.nodes[2].energy = 3;
    assert!(s.store_sound());
    assert!(s.links_sound());
    assert!(!s.entries_sound());
    assert!(rejected(s));
}

#[test]
fn an_entry_that_stands_twice_is_rejected() {
    let mut s = roads().clone_for_save();
    let again = s.nodes[0].connections[0].duplicate();
    s.nodes[0].connections.push(again);
    s.nodes[0].energy = 2;
    assert!(!s.entries_sound());
    assert!(rejected(s));
}

#[test]
fn an_entry_with_a_wrong_peer_name_is_rejected() {
    let mut s = roads().clone_for_save();
    s.nodes[0].connections[0].node.name = "rome".to_string();
    assert!(!s.entries_sound());
    assert!(rejected(s));
}

#[test]
fn a_structural_edge_to_nowhere_is_rejected() {
    let mut s = roads().clone_for_save();
    s.links[0] = (0, 9, 1);
    assert!(!s.links_sound());
    assert!(rejected(s));
}

#[test]
fn a_weight_other_than_one_is_rejected() {
    let mut s = roads().clone_for_save();
    s.links[0] = (0, 1, 2);
    assert!(rejected(s));
}

#[test]
fn a_second_edge_of_one_kind_between_two_nodes_is_rejected() {
    let mut s = roads().clone_for_save();
    s.links.push((1, 0, 1));
    s.runtime_ref.edges.push(Ref { uuid: 1, name: "road".to_string(), index: 4 });
    for kind in s.edge_kinds.iter_mut() {
        if kind.name == "road" {
            kind.energy = 3;
        }
    }
    assert!(s.kinds_sound());
    assert!(!s.links_sound());
    assert!(rejected(s));
}

#[test]
fn a_wrong_usage_counter_is_rejected() {
    let mut s = roads().clone_for_save();
    s.edge_kinds[0].energy = 5;
    assert!(!s.kinds_sound());
    assert!(rejected(s));
}

#[test]
fn a_kind_that_stands_twice_is_rejected() {
    let mut s = roads().clone_for_save();
    let again = s.edge_kinds[0].duplicate();
    s.edge_kinds.push(again);
    assert!(!s.kinds_sound());
    assert!(rejected(s));
}

#[test]
fn a_catalogued_kind_that_is_unknown_is_rejected() {
    let mut s = roads().clone_for_save();
    s.runtime_ref.edge_kinds[0].name = "sea".to_string();
    assert!(!s.kinds_sound());
    assert!(rejected(s));
}

#[test]
fn a_node_catalog_with_a_gap_is_rejected() {
    let mut s = roads().clone_for_save();
    s.runtime_ref.nodes.pop();
    assert!(!s.catalog_sound());
    assert!(rejected(s));
    let mut s = roads().clone_for_save();
    s.runtime_ref.nodes[3] = s.runtime_ref.nodes[0].duplicate();
    assert!(!s.catalog_sound());
    assert!(rejected(s));
}

#[test]
fn an_edge_catalog_out_of_step_is_rejected() {
    let mut s = roads().clone_for_save();
    s.runtime_ref.edges.pop();
    assert!(rejected(s));
    let mut s = roads().clone_for_save();
    s.runtime_ref.edges[1].index = 3;
    assert!(rejected(s));
}
