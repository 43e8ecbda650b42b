use grapho::models::graph_models::Grapho;
use grapho::models::node_types::NodeTypesProps;
use grapho::models::records::{Node, Timestamp};
use grapho::runtime::loader_agent::{CacheEntry, GraphLoaderAgent, GraphMetadata, LoadGraphOperations, LoaderConfig};
use grapho::runtime::persist::PersistError;
use grapho::runtime::registry::GraphSpace;

#[derive(Debug, Clone, PartialEq)]
struct Word(String);

impl NodeTypesProps for Word {}

fn word(name: &str) -> Node<Word> {
    Node::new(name, Word(name.to_string()), vec![], "a word")
}

fn graph(name: &str, pairs: &[(&str, &str)]) -> Grapho<Word> {
    let mut g = Grapho::<Word>::new(name);
    for (a, b) in pairs {
        g.add_connection(word(a), word(b), "rhymes", "sounds alike").unwrap();
    }
    g
}

#[test]
fn graphs_by_name() {
    let mut space = GraphSpace::<Word>::new();
    assert!(space.get_graph("short").is_none());
    space.add_graph(graph("short", &[("cat", "hat")]));
    space.add_graph(graph("long", &[("cat", "hat"), ("hat", "bat")]));
    assert_eq!(space.get_graph("short").unwrap().node_count(), 2);
    assert_eq!(space.get_graph("long").unwrap().node_count(), 3);
    assert!(space.get_graph("none").is_none());
    assert!(space.get_graph_mut("none").is_none());
}

#[test]
fn a_graph_of_a_known_name_takes_the_place_of_the_other() {
    let mut space = GraphSpace::<Word>::new();
    space.add_graph(graph("g", &[("cat", "hat")]));
    space.add_graph(graph("h", &[]));
    space.add_graph(graph("g", &[("cat", "hat"), ("hat", "bat"), ("bat", "rat")]));
    assert_eq!(space.get_graph("g").unwrap().node_count(), 4);
    assert_eq!(space.get_graph("h").unwrap().node_count(), 0);
}

#[test]
fn a_graph_is_changed_in_place() {
    let mut space = GraphSpace::<Word>::new();
    space.add_graph(graph("g", &[("cat", "hat")]));
    space.add_graph(graph("h", &[("one", "two")]));
    space.get_graph_mut("g").unwrap().add_connection(word("hat"), word("bat"), "rhymes", "sounds alike").unwrap();
    assert_eq!(space.get_graph("g").unwrap().node_count(), 3);
    assert_eq!(space.get_graph("g").unwrap().edge_kind_stats(), vec![("rhymes".to_string(), 2)]);
    assert_eq!(space.get_graph("h").unwrap().node_count(), 2);
}

#[test]
fn shared_kinds_keep_their_identifiers() {
    let mut space = GraphSpace::<Word>::new();
    let rhymes = space.link_edge_kind("rhymes");
    let means = space.link_edge_kind("means");
    assert_ne!(rhymes, means);
    assert_eq!(space.link_edge_kind("rhymes"), rhymes);
    assert_eq!(space.link_edge_kind("means"), means);
}

#[test]
fn default_configuration() {
    let config = LoaderConfig::default();
    assert_eq!(config.cache_ttl, 300);
    assert_eq!(config.max_memory_usage, 100 * 1024 * 1024);
    assert!(config.prefetch_popular);
    assert!(config.auto_cleanup);
}

struct NoFiles(GraphLoaderAgent);

impl LoadGraphOperations<Word> for NoFiles {
    fn load_graph(&mut self, name: &str) -> Result<Grapho<Word>, PersistError> {
        Err(PersistError::Io(format!("{}: no such file", name)))
    }

    fn peek_metadata(&mut self, name: &str) -> Result<GraphMetadata, PersistError> {
        Err(PersistError::Io(format!("{}: no such file", name)))
    }

    fn is_available(&self, _name: &str) -> bool {
        false
    }
}

#[test]
fn a_loader_keeps_its_configuration() {
    let config = LoaderConfig { cache_ttl: 5, max_memory_usage: 1024, prefetch_popular: false, auto_cleanup: true };
    let agent = GraphLoaderAgent::new(config);
    assert_eq!(agent.config(), config);
    let mut loader = NoFiles(agent);
    assert!(!loader.is_available("g"));
    assert!(loader.load_graph("g").is_err());
    assert!(loader.peek_metadata("g").is_err());
    let entry = CacheEntry {
        file_path: "files/g.json".to_string(),
        last_accessed: Timestamp { secs: 2, nanos: 0 },
        last_modified: Timestamp { secs: 1, nanos: 0 },
        file_size: 10,
        is_encrypted: false,
        passphrase: None,
    };
    assert_eq!(entry.file_size, 10);
}
