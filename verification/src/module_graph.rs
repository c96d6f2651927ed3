//! The module graph: which modules an application reaches from its entries,
//! and which module refers to which.

use crate::digraph::edges_within;
use crate::digraph::graph_edges;
use crate::digraph::graph_node_count;
use crate::digraph::graph_node_weight;
use crate::digraph::graph_weights;
use crate::digraph::ModuleDiGraph;
use crate::digraph::GRAPH_LIMIT;
use std::collections::HashMap;
use vstd::prelude::*;

verus! {

/// The identity of a module. Two modules are the same exactly when their
/// identities are equal.
pub type ModuleId = u64;

/// What a visitor of edges answers for the edge it was shown.
#[derive(PartialEq, Eq, Debug, Clone, Copy, Structural)]
pub enum GraphTraversalAction {
    /// Continue visiting children
    Continue,
    /// Skip the immediate children
    Skip,
}

/// Why a graph could not be built or queried.
#[derive(PartialEq, Eq, Debug, Clone, Copy, Structural)]
pub enum GraphError {
    /// The module that a query started from is not among the graph's entries.
    EntryNotFound,
    /// The graph cannot take another node or edge.
    CapacityExceeded,
}

impl GraphError {
    /// The error in words.
    pub open spec fn text(self) -> Seq<char> {
        match self {
            GraphError::EntryNotFound => "Couldn't find entry module in graph"@,
            GraphError::CapacityExceeded => "The module graph cannot take another node or edge"@,
        }
    }

    /// The error in words.
    pub fn message(&self) -> (message: String)
        ensures
            message@ == self.text(),
    {
        match self {
            GraphError::EntryNotFound => "Couldn't find entry module in graph".to_owned(),
            GraphError::CapacityExceeded => {
                "The module graph cannot take another node or edge".to_owned()
            },
        }
    }
}

/// One outgoing reference of a module: the module it leads to, and the file
/// extension of that module's path where it has one.
#[derive(Debug, Clone)]
pub struct ModuleReference {
    pub module: ModuleId,
    pub extension: Option<String>,
}

impl ModuleReference {
    /// The reference leads to a source map, which no graph takes up.
    pub open spec fn is_source_map(self) -> bool {
        self.extension matches Some(extension) && extension@ == seq!['m', 'a', 'p']
    }

    /// Whether the reference leads to a source map.
    pub fn targets_source_map(&self) -> (answer: bool)
        ensures
            answer == self.is_source_map(),
    {
        match &self.extension {
            Some(extension) => {
                let text = extension.as_str();
                if text.unicode_len() != 3 {
                    false
                } else {
                    let answer = text.get_char(0) == 'm' && text.get_char(1) == 'a'
                        && text.get_char(2) == 'p';
                    assert(answer ==> extension@ =~= seq!['m', 'a', 'p']);
                    answer
                }
            },
            None => false,
        }
    }
}

/// A directed graph of modules. Each node holds one module, no two nodes the
/// same one; an edge says that its source refers to its target. The entries
/// are the modules from which queries may start, each with its node.
pub struct SingleModuleGraph {
    graph: ModuleDiGraph,
    entries: HashMap<ModuleId, usize>,
}

impl SingleModuleGraph {
    /// The modules of the nodes, by node index.
    pub closed spec fn nodes(&self) -> Seq<ModuleId> {
        graph_weights(self.graph)
    }

    /// The edges as (source index, target index), in the order of their
    /// addition.
    pub closed spec fn edges(&self) -> Seq<(int, int)> {
        graph_edges(self.graph)
    }

    /// The node index of each entry.
    pub closed spec fn entries(&self) -> Map<ModuleId, usize> {
        self.entries@
    }

    /// The invariant of a graph: no module has two nodes, every edge joins
    /// two nodes, and every entry is recorded with the node that holds it.
    pub open spec fn wf(&self) -> bool {
        &&& self.nodes().no_duplicates()
        &&& self.nodes().len() <= GRAPH_LIMIT
        &&& edges_within(self.edges(), self.nodes().len() as int)
        &&& forall|m: ModuleId| #[trigger]
            self.entries().contains_key(m) ==> self.entries()[m] < self.nodes().len()
                && self.nodes()[self.entries()[m] as int] == m
    }

    /// Whether some node holds `module`.
    pub open spec fn contains_module(&self, module: ModuleId) -> bool {
        self.nodes().contains(module)
    }

    pub(crate) fn from_parts(graph: ModuleDiGraph, entries: HashMap<ModuleId, usize>) -> (made:
        Self)
        ensures
            made.nodes() == graph_weights(graph),
            made.edges() == graph_edges(graph),
            made.entries() == entries@,
    {
        SingleModuleGraph { graph, entries }
    }

    pub(crate) fn digraph(&self) -> (graph: &ModuleDiGraph)
        ensures
            graph_weights(*graph) == self.nodes(),
            graph_edges(*graph) == self.edges(),
    {
        &self.graph
    }

    /// The node of the entry `module`.
    pub fn get_entry(&self, module: ModuleId) -> (found: Result<usize, GraphError>)
        ensures
            match found {
                Ok(index) => self.entries().contains_key(module) && index == self.entries()[module],
                Err(error) => !self.entries().contains_key(module) && error
                    == GraphError::EntryNotFound,
            },
    {
        match self.entries.get(&module) {
            Some(index) => Ok(*index),
            None => Err(GraphError::EntryNotFound),
        }
    }

    /// The module that the node at `node` holds.
    pub fn module_at(&self, node: usize) -> (module: ModuleId)
        requires
            self.wf(),
            node < self.nodes().len(),
        ensures
            module == self.nodes()[node as int],
    {
        graph_node_weight(&self.graph, node)
    }

    /// The number of nodes.
    pub fn node_count(&self) -> (count: usize)
        ensures
            count == self.nodes().len(),
    {
        graph_node_count(&self.graph)
    }

    /// Every node with its module, by node index.
    pub fn enumerate_nodes(&self) -> (listed: Vec<(usize, ModuleId)>)
        requires
            self.wf(),
        ensures
            listed@.len() == self.nodes().len(),
            forall|i: int|
                0 <= i < listed@.len() ==> #[trigger] listed@[i] == (i as usize, self.nodes()[i]),
    {
        let count = graph_node_count(&self.graph);
        let mut listed: Vec<(usize, ModuleId)> = Vec::new();
        let mut index: usize = 0;
        while index < count
            invariant
                count == self.nodes().len(),
                count <= GRAPH_LIMIT,
                index <= count,
                listed@.len() == index,
                forall|i: int|
                    0 <= i < listed@.len() ==> #[trigger] listed@[i] == (
                        i as usize,
                        self.nodes()[i],
                    ),
            decreases count - index,
        {
            listed.push((index, graph_node_weight(&self.graph, index)));
            index = index + 1;
        }
        listed
    }
}

} // verus!
