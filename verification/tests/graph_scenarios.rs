use grapho::models::graph_models::{GraphError, Grapho};
use grapho::models::node_types::NodeTypesProps;
use grapho::models::records::{Connection, EdgeKind, Metadata, Node, Ref, Timestamp};

#[derive(Debug, Clone, PartialEq)]
enum Payload {
    Text(String),
    Num(isize),
    Fnum64(f64),
}

impl NodeTypesProps for Payload {}

fn person(name: &str) -> Node<Payload> {
    Node::new(name, Payload::Text(name.to_string()), vec![], "a person")
}

fn friends() -> Grapho<Payload> {
    let mut g = Grapho::<Payload>::new("friends");
    g.add_connection(person("p1"), person("p2"), "friendship", "friends").unwrap();
    g.add_connection(person("p2"), person("p3"), "friendship", "friends").unwrap();
    g.add_connection(person("p2"), person("p4"), "friendship", "friends").unwrap();
    g
}

fn handle(g: &Grapho<Payload>, name: &str) -> usize {
    g.get_node_index_by_name(name).unwrap()
}

fn energy(g: &Grapho<Payload>, name: &str) -> u32 {
    g.node(handle(g, name)).unwrap().energy
}

fn degrees(g: &Grapho<Payload>) -> Vec<(String, u32, usize)> {
    g.nodes().iter().map(|n| (n.name.clone(), n.energy, n.connections.len())).collect()
}

fn catalog_names(g: &Grapho<Payload>) -> Vec<String> {
    g.runtime_ref().nodes.iter().map(|r| r.name.clone()).collect()
}

fn is_symmetric(g: &Grapho<Payload>) -> bool {
    g.nodes().iter().enumerate().all(|(i, node)| {
        node.connections.iter().all(|c| {
            g.node(c.node.index).map_or(false, |peer| {
                peer.connections
                    .iter()
                    .any(|back| back.node.index == i && back.edge.name == c.edge.name && back.edge.uuid == c.edge.uuid)
            })
        })
    })
}

#[test]
fn new_graph_is_empty() {
    let g = Grapho::<Payload>::new("graphos");
    assert_eq!(g.name(), "graphos");
    assert_eq!(g.metadata().description, "graphos graph.");
    assert_eq!(g.metadata().created_at, g.metadata().updated_at);
    assert_eq!(g.node_count(), 0);
    assert_eq!(g.edge_count(), 0);
    assert!(g.nodes().is_empty());
    assert!(g.edge_kinds().is_empty());
    assert!(g.edges().is_empty());
    assert!(g.links().is_empty());
    assert!(g.runtime_ref().nodes.is_empty());
    assert!(g.runtime_ref().edges.is_empty());
    assert!(g.runtime_ref().edge_kinds.is_empty());
    assert_eq!(g.get_node_index_by_name("p1"), None);
    assert!(g.edge_kind_stats().is_empty());
    assert!(g.top_k_nodes_by_energy(3).is_empty());
}

#[test]
fn shortest_path_scenario() {
    let g = friends();
    assert_eq!(energy(&g, "p2"), 3);
    assert_eq!(energy(&g, "p1"), 1);
    assert_eq!(energy(&g, "p3"), 1);
    assert_eq!(energy(&g, "p4"), 1);
    assert_eq!(g.edge_kind_stats(), vec![("friendship".to_string(), 3)]);
    assert_eq!(g.calculate_distance(handle(&g, "p4"), handle(&g, "p3")), Ok(2));
    let top = g.top_k_nodes_by_energy(1);
    assert_eq!(top.len(), 1);
    assert_eq!(top[0].name, "p2");
    assert_eq!(top[0].index, handle(&g, "p2"));
}

#[test]
fn first_connection_in_detail() {
    let mut g = Grapho::<Payload>::new("g");
    let a = person("a");
    let b = person("b");
    let a_id = a.metadata.id;
    let b_id = b.metadata.id;
    assert_eq!(g.add_connection(a, b, "knows", "knows of"), Ok(()));
    assert_eq!(handle(&g, "a"), 0);
    assert_eq!(handle(&g, "b"), 1);
    assert_eq!(g.links(), vec![(0, 1, 1)]);
    assert_eq!(g.edge_count(), 1);
    let kinds = g.edge_kinds();
    assert_eq!(kinds.len(), 1);
    assert_eq!(kinds[0].name, "knows");
    assert_eq!(kinds[0].energy, 1);
    assert_eq!(kinds[0].metadata.description, "knows of");
    let kid = kinds[0].metadata.id;
    let node_a = g.node(0).unwrap();
    assert_eq!(node_a.node_index, 0);
    assert_eq!(node_a.metadata.id, a_id);
    assert_eq!(node_a.connections.len(), 1);
    assert_eq!(node_a.connections[0].node.index, 1);
    assert_eq!(node_a.connections[0].node.name, "b");
    assert_eq!(node_a.connections[0].node.uuid, b_id);
    assert_eq!(node_a.connections[0].edge.name, "knows");
    assert_eq!(node_a.connections[0].edge.uuid, kid);
    assert_eq!(node_a.connections[0].edge.index, kid);
    let node_b = g.node(1).unwrap();
    assert_eq!(node_b.node_index, 1);
    assert_eq!(node_b.connections.len(), 1);
    assert_eq!(node_b.connections[0].node.index, 0);
    assert_eq!(node_b.connections[0].node.name, "a");
    assert_eq!(node_b.connections[0].node.uuid, a_id);
    assert_eq!(node_b.connections[0].edge.uuid, kid);
    let catalogs = g.runtime_ref();
    assert_eq!(catalogs.edges.len(), 1);
    assert_eq!(catalogs.edges[0].name, "knows");
    assert_eq!(catalogs.edges[0].index, 0);
    assert_eq!(catalogs.edge_kinds.len(), 1);
    assert_eq!(catalogs.edge_kinds[0].name, "knows");
    assert_eq!(catalogs.edge_kinds[0].uuid, kid);
    assert_eq!(catalog_names(&g), vec!["a".to_string(), "b".to_string()]);
    assert!(g.node(2).is_none());
}

#[test]
fn every_connection_has_its_mirror() {
    let mut g = friends();
    g.add_connection(person("p4"), person("p1"), "work", "colleagues").unwrap();
    g.add_connection(person("p1"), person("p2"), "work", "colleagues").unwrap();
    g.add_connection(person("p5"), person("p5"), "work", "colleagues").unwrap();
    assert!(is_symmetric(&g));
}

#[test]
fn connecting_twice_changes_nothing() {
    let mut once = Grapho::<Payload>::new("g");
    once.add_connection(person("a"), person("b"), "k", "d").unwrap();
    let mut twice = Grapho::<Payload>::new("g");
    twice.add_connection(person("a"), person("b"), "k", "d").unwrap();
    twice.add_connection(person("a"), person("b"), "k", "d").unwrap();
    twice.add_connection(person("b"), person("a"), "k", "other words").unwrap();
    assert_eq!(degrees(&twice), degrees(&once));
    assert_eq!(degrees(&twice), vec![("a".to_string(), 1, 1), ("b".to_string(), 1, 1)]);
    assert_eq!(twice.edge_kind_stats(), vec![("k".to_string(), 1)]);
    assert_eq!(twice.edge_kinds().len(), 1);
    assert_eq!(twice.edge_kinds()[0].metadata.description, "d");
    assert_eq!(twice.links(), vec![(0, 1, 1)]);
    assert_eq!(twice.runtime_ref().edges.len(), 1);
    assert_eq!(twice.runtime_ref().edge_kinds.len(), 1);
    assert_eq!(catalog_names(&twice), catalog_names(&once));
}

#[test]
fn connecting_again_leaves_the_records_untouched() {
    let mut g = Grapho::<Payload>::new("g");
    g.add_connection(person("a"), person("b"), "k", "d").unwrap();
    let graph_stamp = g.metadata().updated_at;
    let node_stamp = g.node(0).unwrap().metadata.updated_at;
    let kind_stamp = g.edge_kinds()[0].metadata.updated_at;
    let kind_id = g.edge_kinds()[0].metadata.id;
    g.add_connection(person("b"), person("a"), "k", "d").unwrap();
    assert_eq!(g.metadata().updated_at, graph_stamp);
    assert_eq!(g.node(0).unwrap().metadata.updated_at, node_stamp);
    assert_eq!(g.edge_kinds()[0].metadata.updated_at, kind_stamp);
    assert_eq!(g.edge_kinds()[0].metadata.id, kind_id);
}

#[test]
fn degree_equals_the_length_of_the_adjacency_list() {
    let mut g = friends();
    g.add_connection(person("p3"), person("p4"), "work", "colleagues").unwrap();
    g.add_connection(person("p3"), person("p4"), "friendship", "friends").unwrap();
    for (_, energy, length) in degrees(&g) {
        assert_eq!(energy as usize, length);
    }
    assert_eq!(energy(&g, "p3"), 3);
    assert_eq!(energy(&g, "p4"), 3);
}

#[test]
fn two_kinds_between_the_same_nodes() {
    let mut g = Grapho::<Payload>::new("g");
    g.add_connection(person("a"), person("b"), "friendship", "friends").unwrap();
    g.add_connection(person("b"), person("a"), "work", "colleagues").unwrap();
    assert_eq!(g.links(), vec![(0, 1, 1), (1, 0, 1)]);
    assert_eq!(energy(&g, "a"), 2);
    assert_eq!(energy(&g, "b"), 2);
    assert_eq!(g.edge_kind_stats(), vec![("friendship".to_string(), 1), ("work".to_string(), 1)]);
    assert_eq!(g.runtime_ref().edges[1].name, "work");
    assert_eq!(g.runtime_ref().edges[1].index, 1);
    assert!(is_symmetric(&g));
}

#[test]
fn a_node_connected_to_itself() {
    let mut g = Grapho::<Payload>::new("g");
    g.add_connection(person("a"), person("a"), "self", "itself").unwrap();
    assert_eq!(g.node_count(), 1);
    assert_eq!(g.links(), vec![(0, 0, 1)]);
    assert_eq!(energy(&g, "a"), 1);
    assert_eq!(g.node(0).unwrap().connections[0].node.index, 0);
    assert_eq!(g.edge_kind_stats(), vec![("self".to_string(), 1)]);
    assert_eq!(g.calculate_distance(0, 0), Ok(0));
    g.add_connection(person("a"), person("a"), "self", "itself").unwrap();
    assert_eq!(energy(&g, "a"), 1);
    assert_eq!(g.edge_count(), 1);
}

#[test]
fn a_node_enters_without_the_connections_it_brings() {
    let mut g = Grapho::<Payload>::new("g");
    let stray = Connection {
        node: Ref { uuid: 7, name: "nobody".to_string(), index: 42 },
        edge: Ref { uuid: 9, name: "ghost".to_string(), index: 9 },
    };
    let a = Node::new("a", Payload::Num(1), vec![stray], "with baggage");
    assert_eq!(a.energy, 1);
    assert_eq!(a.connections.len(), 1);
    g.add_connection(a, person("b"), "k", "d").unwrap();
    let stored = g.node(0).unwrap();
    assert_eq!(stored.content, Payload::Num(1));
    assert_eq!(stored.metadata.description, "with baggage");
    assert_eq!(stored.connections.len(), 1);
    assert_eq!(stored.connections[0].edge.name, "k");
    assert_eq!(stored.energy, 1);
}

#[test]
fn a_known_name_keeps_its_node() {
    let mut g = Grapho::<Payload>::new("g");
    g.add_connection(Node::new("a", Payload::Num(1), vec![], "first"), person("b"), "k", "d").unwrap();
    g.add_connection(Node::new("a", Payload::Num(2), vec![], "second"), person("c"), "k", "d").unwrap();
    assert_eq!(g.node_count(), 3);
    assert_eq!(g.node(0).unwrap().content, Payload::Num(1));
    assert_eq!(g.node(0).unwrap().metadata.description, "first");
    assert_eq!(energy(&g, "a"), 2);
}

#[test]
fn unreachable_path() {
    let mut g = friends();
    g.add_connection(person("q1"), person("q2"), "friendship", "friends").unwrap();
    let p1 = handle(&g, "p1");
    let q1 = handle(&g, "q1");
    assert_eq!(g.calculate_distance(p1, q1), Err(GraphError::NotFound));
    assert_eq!(g.calculate_distance(q1, p1), Err(GraphError::NotFound));
    assert_eq!(g.calculate_distance(q1, handle(&g, "q2")), Ok(1));
}

#[test]
fn distances() {
    let g = friends();
    let p1 = handle(&g, "p1");
    assert_eq!(g.calculate_distance(p1, p1), Ok(0));
    assert_eq!(g.calculate_distance(p1, handle(&g, "p2")), Ok(1));
    assert_eq!(g.calculate_distance(handle(&g, "p3"), p1), Ok(2));
    assert_eq!(g.calculate_distance(p1, 1000), Err(GraphError::NotFound));
    assert_eq!(g.calculate_distance(1000, p1), Err(GraphError::NotFound));
    assert_eq!(g.calculate_distance(1000, 1000), Err(GraphError::NotFound));
}

#[test]
fn a_shorter_way_is_found() {
    let mut g = Grapho::<Payload>::new("ring");
    g.add_connection(person("a"), person("b"), "k", "d").unwrap();
    g.add_connection(person("b"), person("c"), "k", "d").unwrap();
    g.add_connection(person("c"), person("d"), "k", "d").unwrap();
    g.add_connection(person("d"), person("e"), "k", "d").unwrap();
    assert_eq!(g.calculate_distance(handle(&g, "a"), handle(&g, "e")), Ok(4));
    g.add_connection(person("e"), person("a"), "k", "d").unwrap();
    assert_eq!(g.calculate_distance(handle(&g, "a"), handle(&g, "e")), Ok(1));
    assert_eq!(g.calculate_distance(handle(&g, "a"), handle(&g, "d")), Ok(2));
}

#[test]
fn top_nodes_by_degree() {
    let mut g = friends();
    assert_eq!(catalog_names(&g), vec!["p2", "p1", "p3", "p4"]);
    g.add_connection(person("p4"), person("p3"), "friendship", "friends").unwrap();
    assert_eq!(catalog_names(&g), vec!["p2", "p3", "p4", "p1"]);
    let names = |k: usize| -> Vec<String> { g.top_k_nodes_by_energy(k).iter().map(|r| r.name.clone()).collect() };
    assert!(names(0).is_empty());
    assert_eq!(names(2), vec!["p2", "p3"]);
    assert_eq!(names(4), vec!["p2", "p3", "p4", "p1"]);
    assert_eq!(names(9), vec!["p2", "p3", "p4", "p1"]);
}

#[test]
fn neighbours_under_a_kind() {
    let mut g = friends();
    g.add_connection(person("p2"), person("p5"), "work", "colleagues").unwrap();
    g.add_connection(person("p2"), person("p1"), "work", "colleagues").unwrap();
    let p2 = handle(&g, "p2");
    let names = |kind: &str| -> Vec<String> {
        g.neighbors_by_edge_kind(p2, kind).iter().map(|r| r.name.clone()).collect()
    };
    assert_eq!(names("friendship"), vec!["p1", "p3", "p4"]);
    assert_eq!(names("work"), vec!["p5", "p1"]);
    assert!(names("family").is_empty());
    let peers = g.neighbors_by_edge_kind(p2, "work");
    assert_eq!(peers[0].index, handle(&g, "p5"));
    assert_eq!(peers[0].uuid, g.node(handle(&g, "p5")).unwrap().metadata.id);
    assert!(g.neighbors_by_edge_kind(1000, "friendship").is_empty());
}

#[test]
fn kinds_by_usage_then_by_name() {
    let mut g = Grapho::<Payload>::new("g");
    g.add_connection(person("a"), person("b"), "zeta", "d").unwrap();
    g.add_connection(person("a"), person("c"), "beta", "d").unwrap();
    g.add_connection(person("a"), person("d"), "alpha", "d").unwrap();
    g.add_connection(person("b"), person("c"), "beta", "d").unwrap();
    g.add_connection(person("b"), person("d"), "be", "d").unwrap();
    assert_eq!(
        g.edge_kind_stats(),
        vec![
            ("beta".to_string(), 2),
            ("alpha".to_string(), 1),
            ("be".to_string(), 1),
            ("zeta".to_string(), 1),
        ]
    );
    let created: Vec<String> = g.edge_kinds().iter().map(|k| k.name.clone()).collect();
    assert_eq!(created, vec!["zeta", "beta", "alpha", "be"]);
}

#[test]
fn payloads_of_several_kinds() {
    let mut g = Grapho::<Payload>::new("mixed");
    let a = Node::new("a", Payload::Num(3), vec![], "a number");
    let b = Node::new("b", Payload::Fnum64(0.5), vec![], "a fraction");
    g.add_connection(a, b, "next", "follows").unwrap();
    assert_eq!(g.node(0).unwrap().content, Payload::Num(3));
    assert_eq!(g.node(1).unwrap().content, Payload::Fnum64(0.5));
}

#[test]
fn records() {
    let m = Metadata::new("first".to_string());
    assert_eq!(m.description, "first");
    assert_eq!(m.created_at, m.updated_at);
    assert!(m.created_at.secs > 1_600_000_000);
    let other = Metadata::new("second".to_string());
    assert_ne!(m.id, other.id);
    let mut touched = m.duplicate();
    touched.touch(Timestamp { secs: 5, nanos: 6 });
    assert_eq!(touched.updated_at, Timestamp { secs: 5, nanos: 6 });
    assert_eq!(touched.created_at, m.created_at);
    assert_eq!(touched.id, m.id);
    assert_eq!(touched.description, "first");
    let mut updated = m.duplicate();
    updated.update();
    assert_eq!(updated.id, m.id);
    assert_eq!(updated.created_at, m.created_at);
    assert!(updated.updated_at.secs >= m.updated_at.secs);
    let kind = EdgeKind::new("k", "d");
    assert_eq!(kind.name, "k");
    assert_eq!(kind.energy, 0);
    assert_eq!(kind.metadata.description, "d");
    let copy = kind.duplicate();
    assert_eq!(copy.metadata.id, kind.metadata.id);
    let node = Node::new("n", Payload::Text("t".to_string()), vec![], "d");
    assert_eq!(node.name, "n");
    assert_eq!(node.energy, 0);
    assert_eq!(node.node_index, 0);
}

#[test]
fn errors_in_words() {
    assert_eq!(GraphError::NotFound.message(), "not found");
    assert_eq!(GraphError::Full.message(), "the graph is full");
}
