//! Dynamic imports: which modules of a graph import others on demand, and
//! which of them an endpoint reaches.

use crate::module_graph::GraphError;
use crate::module_graph::ModuleId;
use crate::module_graph::SingleModuleGraph;
use crate::ordered_map::lemma_put;
use crate::ordered_map::OrderedMap;
use crate::traversal::among;
use vstd::prelude::*;

verus! {

/// One dynamic import of a module: what the import names, and the client
/// module that it leads to.
#[derive(Debug)]
pub struct DynamicImport {
    pub specifier: String,
    pub module: ModuleId,
}

impl DynamicImport {
    /// A copy of the import.
    pub fn duplicate(&self) -> (copy: Self)
        ensures
            copy == *self,
    {
        DynamicImport { specifier: self.specifier.clone(), module: self.module }
    }
}

/// For each importing module, its dynamic imports.
pub type DynamicImports = OrderedMap<ModuleId, Vec<DynamicImport>>;

/// The views of the lists of imports.
pub open spec fn import_views(values: Seq<Vec<DynamicImport>>) -> Seq<Seq<DynamicImport>> {
    values.map_values(|imports: Vec<DynamicImport>| imports@)
}

/// A copy of the list of imports.
pub fn copy_imports(imports: &Vec<DynamicImport>) -> (copy: Vec<DynamicImport>)
    ensures
        copy@ == imports@,
{
    let mut copy: Vec<DynamicImport> = Vec::new();
    let mut position: usize = 0;
    while position < imports.len()
        invariant
            position <= imports@.len(),
            copy@ == imports@.take(position as int),
        decreases imports.len() - position,
    {
        copy.push(imports[position].duplicate());
        position = position + 1;
        assert(copy@ =~= imports@.take(position as int));
    }
    assert(imports@.take(position as int) =~= imports@);
    copy
}

/// The dynamic imports of a graph's modules, and the graph.
pub struct NextDynamicGraph<'a> {
    is_single_page: bool,
    graph: &'a SingleModuleGraph,
    /// RSC/SSR importer -> dynamic imports (specifier and client module)
    data: &'a DynamicImports,
}

impl<'a> NextDynamicGraph<'a> {
    /// The graph.
    pub closed spec fn graph(&self) -> SingleModuleGraph {
        *self.graph
    }

    /// Whether the graph holds the modules of one endpoint only.
    pub closed spec fn is_single_page(&self) -> bool {
        self.is_single_page
    }

    /// The importing modules, in order.
    pub closed spec fn importers(&self) -> Seq<ModuleId> {
        self.data.keys()
    }

    /// The imports of each importing module, in the order of
    /// [`NextDynamicGraph::importers`].
    pub closed spec fn imports(&self) -> Seq<Seq<DynamicImport>> {
        import_views(self.data.values())
    }

    /// The invariant: the graph's, and each importing module stands once.
    pub open spec fn wf(&self) -> bool {
        &&& self.graph().wf()
        &&& self.importers().no_duplicates()
        &&& self.importers().len() == self.imports().len()
    }

    /// The query for the entry `entry` fails.
    pub open spec fn misses(&self, entry: ModuleId) -> bool {
        !self.is_single_page() && !self.graph().entries().contains_key(entry)
    }

    /// `result` answers the query for the entry `entry`: for a graph of one
    /// endpoint it holds every importing module, in their order; else it
    /// holds those that the entry reaches, in the order in which the graph is
    /// visited from the entry. Each module has its imports.
    pub open spec fn answers(&self, entry: ModuleId, result: Result<DynamicImports, GraphError>) -> bool {
        match result {
            Ok(found) => {
                &&& !self.misses(entry)
                &&& found.wf()
                &&& if self.is_single_page() {
                    &&& found.keys() == self.importers()
                    &&& import_views(found.values()) == self.imports()
                } else {
                    &&& exists|visited: Seq<ModuleId>| #[trigger]
                        self.graph().searches(entry, visited) && found.keys() == visited.filter(
                            among(self.importers()),
                        )
                    &&& forall|i: int|
                        0 <= i < found.keys().len() ==> #[trigger] import_views(found.values())[i]
                            == self.imports()[self.importers().index_of(found.keys()[i])]
                }
            },
            Err(error) => error == GraphError::EntryNotFound && self.misses(entry),
        }
    }

    /// Pairs `graph` with the dynamic imports of its modules.
    pub fn new_with_entries(
        graph: &'a SingleModuleGraph,
        is_single_page: bool,
        data: &'a DynamicImports,
    ) -> (made: Self)
        requires
            graph.wf(),
            data.wf(),
        ensures
            made.wf(),
            made.graph() == *graph,
            made.is_single_page() == is_single_page,
            made.importers() == data.keys(),
            made.imports() == import_views(data.values()),
    {
        NextDynamicGraph { is_single_page, graph, data }
    }

    /// The dynamic imports that belong to the endpoint of the entry `entry`.
    pub fn get_next_dynamic_imports_for_endpoint(&self, entry: ModuleId) -> (result: Result<
        DynamicImports,
        GraphError,
    >)
        requires
            self.wf(),
        ensures
            self.answers(entry, result),
    {
        let mut found: DynamicImports = OrderedMap::new();
        if self.is_single_page {
            // The graph contains the endpoint (= `entry`) only, no need to filter.
            let count = self.data.len();
            let mut position: usize = 0;
            while position < count
                invariant
                    self.wf(),
                    self.data.wf(),
                    count == self.data.keys().len(),
                    position <= count,
                    found.wf(),
                    found.keys() == self.data.keys().take(position as int),
                    import_views(found.values()) == import_views(self.data.values()).take(
                        position as int,
                    ),
                decreases count - position,
            {
                let key = *self.data.key_at(position);
                let imports = copy_imports(self.data.value_at(position));
                proof {
                    let ghost keys = found.keys();
                    assert(!keys.contains(key)) by {
                        if keys.contains(key) {
                            let i = choose|i: int| 0 <= i < keys.len() && keys[i] == key;
                            assert(self.data.keys()[i] == self.data.keys()[position as int]);
                        }
                    }
                }
                let ghost before = import_views(found.values());
                found.insert(key, imports);
                position = position + 1;
                proof {
                    assert(found.keys() =~= self.data.keys().take(position as int));
                    assert(import_views(found.values()) =~= before.push(imports@));
                    assert(import_views(found.values()) =~= import_views(self.data.values()).take(
                        position as int,
                    ));
                }
            }
            proof {
                assert(self.data.keys().take(position as int) =~= self.data.keys());
                assert(import_views(self.data.values()).take(position as int) =~= import_views(
                    self.data.values(),
                ));
            }
            Ok(found)
        } else {
            // The graph contains the whole app, traverse and collect all reachable imports.
            let modules = match self.graph.traverse_known_from_entry(entry, self.data) {
                Ok(modules) => modules,
                Err(error) => {
                    return Err(error);
                },
            };
            let mut position: usize = 0;
            assert(found.keys() =~= modules@.take(0));
            while position < modules.len()
                invariant
                    self.wf(),
                    self.data.wf(),
                    modules@.no_duplicates(),
                    forall|i: int|
                        0 <= i < modules@.len() ==> self.data.keys().contains(
                            #[trigger] modules@[i],
                        ),
                    position <= modules@.len(),
                    found.wf(),
                    found.keys() == modules@.take(position as int),
                    forall|i: int|
                        0 <= i < found.keys().len() ==> #[trigger] import_views(found.values())[i]
                            == import_views(self.data.values())[self.data.keys().index_of(
                            found.keys()[i],
                        )],
                decreases modules.len() - position,
            {
                let module = modules[position];
                let ghost keys = found.keys();
                let ghost values = found.values();
                proof {
                    assert(!keys.contains(module)) by {
                        if keys.contains(module) {
                            let i = choose|i: int| 0 <= i < keys.len() && keys[i] == module;
                            assert(modules@[i] == modules@[position as int]);
                        }
                    }
                    assert(self.data.keys().contains(modules@[position as int]));
                }
                match self.data.position(&module) {
                    Some(index) => {
                        let imports = copy_imports(self.data.value_at(index));
                        proof {
                            lemma_put(keys, values, module, imports);
                        }
                        found.insert(module, imports);
                        proof {
                            assert(found.keys() == keys.push(module));
                            assert(found.values() == values.push(imports));
                            assert(found.keys() =~= modules@.take(position + 1));
                            assert forall|i: int| 0 <= i < found.keys().len() implies #[trigger] import_views(
                                found.values(),
                            )[i] == import_views(self.data.values())[self.data.keys().index_of(
                                found.keys()[i],
                            )] by {
                                if i < keys.len() {
                                    assert(import_views(found.values())[i] == import_views(
                                        values,
                                    )[i]);
                                    assert(found.keys()[i] == keys[i]);
                                }
                            }
                        }
                    },
                    None => {},
                }
                position = position + 1;
            }
            assert(modules@.take(position as int) =~= modules@);
            Ok(found)
        }
    }
}

} // verus!
