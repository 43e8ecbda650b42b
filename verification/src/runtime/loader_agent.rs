//! The interface of a loader that keeps graphs on file and their summaries in
//! a cache. The library defines what such a loader is configured with and
//! what it keeps; reading files is left to whoever implements it.

use vstd::hash_map::StringHashMap;
use vstd::prelude::*;
use crate::models::graph_models::Grapho;
use crate::models::node_types::NodeTypesProps;
use crate::models::records::{Metadata, Timestamp};
use crate::runtime::persist::PersistError;

verus! {

/// What a loader offers: a graph by its name, the summary of a graph without
/// loading it, and whether a graph can be had. Nothing is promised of an
/// implementation.
pub trait LoadGraphOperations<T: NodeTypesProps> {
    fn load_graph(&mut self, name: &str) -> Result<Grapho<T>, PersistError>;

    fn peek_metadata(&mut self, name: &str) -> Result<GraphMetadata, PersistError>;

    fn is_available(&self, name: &str) -> bool;
}

/// What the loader knows of one file.
#[derive(Debug)]
pub struct CacheEntry {
    pub file_path: String,
    pub last_accessed: Timestamp,
    pub last_modified: Timestamp,
    pub file_size: u64,
    pub is_encrypted: bool,
    pub passphrase: Option<String>,
}

/// The summary of a graph.
#[derive(Debug)]
pub struct GraphMetadata {
    pub name: String,
    pub node_count: usize,
    pub edge_count: usize,
    pub edge_kinds: Vec<String>,
    pub top_nodes: Vec<String>,
    pub metadata: Metadata,
}

/// How a loader is configured.
#[derive(Clone, Copy, Debug, PartialEq, Eq, Structural)]
pub struct LoaderConfig {
    /// For how many seconds a cached summary is taken as current.
    pub cache_ttl: u64,
    /// How many bytes the loaded graphs may take together.
    pub max_memory_usage: usize,
    /// Whether the graphs that are asked for most are loaded ahead.
    pub prefetch_popular: bool,
    /// Whether entries that are out of date are dropped without being asked.
    pub auto_cleanup: bool,
}

impl Default for LoaderConfig {
    /// Five minutes, a hundred mebibytes, loading ahead and cleaning up.
    fn default() -> (config: LoaderConfig)
        ensures
            config == (LoaderConfig {
                cache_ttl: 300,
                max_memory_usage: 104857600,
                prefetch_popular: true,
                auto_cleanup: true,
            }),
    {
        LoaderConfig { cache_ttl: 300, max_memory_usage: 104857600, prefetch_popular: true, auto_cleanup: true }
    }
}

/// A loader's state: its configuration, what it knows of the files, the
/// summaries that it has cached, how often each graph was asked for, and the
/// memory that the loaded graphs take.
pub struct GraphLoaderAgent {
    config: LoaderConfig,
    file_registry: StringHashMap<CacheEntry>,
    metadata_cache: StringHashMap<GraphMetadata>,
    access_frequency: StringHashMap<u32>,
    memory_usage: usize,
}

impl GraphLoaderAgent {
    /// The loader's configuration.
    pub closed spec fn configured(&self) -> LoaderConfig {
        self.config
    }

    /// The names of the files that the loader knows.
    pub closed spec fn known(&self) -> Set<Seq<char>> {
        self.file_registry@.dom()
    }

    /// The names of the graphs whose summaries are cached.
    pub closed spec fn cached(&self) -> Set<Seq<char>> {
        self.metadata_cache@.dom()
    }

    /// How often each graph was asked for.
    pub closed spec fn asked(&self) -> Map<Seq<char>, u32> {
        self.access_frequency@
    }

    /// The memory that the loaded graphs take.
    pub closed spec fn used(&self) -> usize {
        self.memory_usage
    }

    /// A loader that knows no file yet.
    pub fn new(config: LoaderConfig) -> (agent: GraphLoaderAgent)
        ensures
            agent.configured() == config,
            agent.known() == Set::<Seq<char>>::empty(),
            agent.cached() == Set::<Seq<char>>::empty(),
            agent.asked() == Map::<Seq<char>, u32>::empty(),
            agent.used() == 0,
    {
        let agent = GraphLoaderAgent {
            config,
            file_registry: StringHashMap::new(),
            metadata_cache: StringHashMap::new(),
            access_frequency: StringHashMap::new(),
            memory_usage: 0,
        };
        assert(agent.known() =~= Set::<Seq<char>>::empty());
        assert(agent.cached() =~= Set::<Seq<char>>::empty());
        agent
    }

    /// The loader's configuration.
    pub fn config(&self) -> (config: LoaderConfig)
        ensures
            config == self.configured(),
    {
        self.config
    }
}

} // verus!
