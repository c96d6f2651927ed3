use std::collections::HashMap;
use std::collections::HashSet;

use module_graph::builder::BuildStep;
use module_graph::builder::GraphBuilder;
use module_graph::client_references::ClientReference;
use module_graph::client_references::ClientReferenceGraphResult;
use module_graph::client_references::ClientReferenceType;
use module_graph::client_references::ModuleKinds;
use module_graph::client_references::ServerEntries;
use module_graph::endpoint_graphs::get_module_graph_for_app_without_issues;
use module_graph::endpoint_graphs::get_module_graph_for_endpoint;
use module_graph::endpoint_graphs::get_reduced_graphs_for_endpoint;
use module_graph::endpoint_graphs::GraphData;
use module_graph::endpoint_graphs::GraphsStep;
use module_graph::endpoint_graphs::NextMode;
use module_graph::module_graph::GraphError;
use module_graph::module_graph::ModuleReference;
use module_graph::module_graph::SingleModuleGraph;
use module_graph::next_dynamic::DynamicImport;
use module_graph::next_dynamic::DynamicImports;
use module_graph::ordered_map::OrderedMap;
use module_graph::server_actions::ActionLayer;
use module_graph::server_actions::AllActions;
use module_graph::server_actions::AllModuleActions;
use module_graph::server_actions::ModuleActions;
use module_graph::server_actions::ServerAction;

const A: u64 = 1;
const B: u64 = 2;
const C: u64 = 3;
const D: u64 = 4;
const B_SSR: u64 = 102;

const PAGE: u64 = 10;
const UTIL: u64 = 11;
const SHARED: u64 = 12;
const LAYOUT: u64 = 13;
const INNER: u64 = 14;
const MENU: u64 = 15;
const FOOTER: u64 = 16;
const BODY: u64 = 17;

fn references_of(rows: &[(u64, Vec<u64>)]) -> HashMap<u64, Vec<ModuleReference>> {
    let mut table = HashMap::new();
    for (module, targets) in rows {
        let references: Vec<ModuleReference> = targets
            .iter()
            .map(|target| ModuleReference { module: *target, extension: Some(String::from("js")) })
            .collect();
        table.insert(*module, references);
    }
    table
}

fn walk_to_end(
    builder: GraphBuilder,
    table: &HashMap<u64, Vec<ModuleReference>>,
) -> SingleModuleGraph {
    let mut builder = builder;
    loop {
        match builder.advance().unwrap() {
            BuildStep::Resolve(pending) => {
                let references = table.get(&pending.module()).cloned().unwrap_or_default();
                builder = pending.resolve(&references);
            }
            BuildStep::Complete(graph) => return graph,
        }
    }
}

fn chain_of(
    entry: u64,
    server_entries: &ServerEntries,
    table: &HashMap<u64, Vec<ModuleReference>>,
) -> Vec<SingleModuleGraph> {
    let mut builder = get_module_graph_for_endpoint(entry, server_entries);
    loop {
        match builder.advance().unwrap() {
            GraphsStep::Resolve(pending) => {
                let references = table.get(&pending.module()).cloned().unwrap_or_default();
                builder = pending.resolve(&references);
            }
            GraphsStep::Complete(graphs) => return graphs,
        }
    }
}

fn held(graph: &SingleModuleGraph) -> Vec<u64> {
    graph.enumerate_nodes().into_iter().map(|(_, module)| module).collect()
}

fn no_data() -> GraphData {
    GraphData {
        dynamic_imports: OrderedMap::new(),
        server_actions: OrderedMap::new(),
        kinds: HashMap::new(),
    }
}

fn buckets(result: &ClientReferenceGraphResult) -> Vec<(Option<u64>, Vec<u64>)> {
    let map = &result.client_references_by_server_component;
    (0..map.len()).map(|i| (*map.key_at(i), map.value_at(i).clone())).collect()
}

fn importers(map: &DynamicImports) -> Vec<u64> {
    (0..map.len()).map(|i| *map.key_at(i)).collect()
}

fn hashes(map: &AllActions) -> Vec<String> {
    (0..map.len()).map(|i| map.key_at(i).clone()).collect()
}

fn one_import(module: u64) -> DynamicImports {
    let mut map: DynamicImports = OrderedMap::new();
    map.insert(module, vec![DynamicImport { specifier: String::from("./lazy"), module: 900 }]);
    map
}

fn one_action(module: u64, hash: &str) -> AllModuleActions {
    let mut map: AllModuleActions = OrderedMap::new();
    map.insert(
        module,
        ModuleActions {
            layer: ActionLayer::Rsc,
            rsc_module: module,
            actions: vec![ServerAction { hash: String::from(hash), name: String::from("run") }],
        },
    );
    map
}

fn route() -> (ServerEntries, HashMap<u64, Vec<ModuleReference>>) {
    let server_entries =
        ServerEntries { server_utils: vec![UTIL], server_component_entries: vec![LAYOUT, INNER] };
    let table = references_of(&[
        (UTIL, vec![SHARED]),
        (LAYOUT, vec![SHARED, MENU]),
        (INNER, vec![MENU, FOOTER]),
        (PAGE, vec![LAYOUT, BODY, FOOTER]),
    ]);
    (server_entries, table)
}

#[test]
fn client_references_of_a_small_application() {
    let table = references_of(&[(A, vec![B, C]), (C, vec![D])]);
    let graph = walk_to_end(get_module_graph_for_app_without_issues(vec![A]), &table);
    let mut modules = held(&graph);
    modules.sort();
    assert_eq!(modules, vec![A, B, C, D]);
    let mut kinds = HashMap::new();
    kinds.insert(
        B,
        ModuleKinds {
            ecmascript_client_reference: Some((B, B_SSR)),
            css_module: None,
            server_component: None,
        },
    );
    kinds.insert(
        D,
        ModuleKinds {
            ecmascript_client_reference: None,
            css_module: None,
            server_component: Some(D),
        },
    );
    let graphs = vec![graph];
    let data = vec![GraphData { kinds, ..no_data() }];
    let reduced = get_reduced_graphs_for_endpoint(NextMode::Build, &graphs, &data);
    let server_entries = ServerEntries { server_utils: vec![], server_component_entries: vec![] };
    let result = reduced.get_client_references_for_endpoint(A, &server_entries).ok().unwrap();
    assert_eq!(
        result.client_references,
        vec![ClientReference {
            server_component: None,
            ty: ClientReferenceType::EcmascriptClientReference { parent_module: A, module: B },
        }]
    );
    assert_eq!(buckets(&result), vec![(None, vec![B_SSR]), (Some(D), vec![])]);
}

#[test]
fn second_of_two_builds_holds_only_its_entry_of_the_first() {
    let table = references_of(&[
        (PAGE, vec![LAYOUT, BODY]),
        (LAYOUT, vec![SHARED, MENU]),
        (BODY, vec![SHARED]),
    ]);
    let first = walk_to_end(SingleModuleGraph::new_with_entries(vec![PAGE]), &table);
    let placed: HashSet<u64> = held(&first).into_iter().collect();
    assert_eq!(placed, [PAGE, LAYOUT, BODY, SHARED, MENU].into_iter().collect());
    let second = walk_to_end(
        SingleModuleGraph::new_with_entries_visited(PAGE, vec![LAYOUT], placed.clone()),
        &table,
    );
    assert_eq!(held(&second), vec![LAYOUT, PAGE]);
    assert!(second.get_entry(LAYOUT).is_ok());
    assert!(second.get_entry(PAGE).is_ok());
}

#[test]
fn chain_has_a_graph_for_the_utils_each_segment_and_the_endpoint() {
    let (server_entries, table) = route();
    let graphs = chain_of(PAGE, &server_entries, &table);
    assert_eq!(graphs.len(), 4);
    assert_eq!(held(&graphs[0]), vec![UTIL, SHARED, PAGE]);
    assert_eq!(held(&graphs[1]), vec![LAYOUT, MENU, PAGE]);
    assert_eq!(held(&graphs[2]), vec![INNER, FOOTER, PAGE]);
    assert_eq!(held(&graphs[3]), vec![PAGE, BODY]);
    for graph in &graphs {
        assert!(graph.get_entry(PAGE).is_ok());
    }
    assert!(graphs[0].get_entry(UTIL).is_ok());
    assert!(graphs[1].get_entry(LAYOUT).is_ok());
    assert!(graphs[2].get_entry(INNER).is_ok());
    assert_eq!(graphs[1].get_entry(UTIL), Err(GraphError::EntryNotFound));
}

#[test]
fn chain_asks_for_each_module_once() {
    let (server_entries, table) = route();
    let mut builder = get_module_graph_for_endpoint(PAGE, &server_entries);
    let mut asked = Vec::new();
    loop {
        match builder.advance().unwrap() {
            GraphsStep::Resolve(pending) => {
                asked.push(pending.module());
                let references = table.get(&pending.module()).cloned().unwrap_or_default();
                builder = pending.resolve(&references);
            }
            GraphsStep::Complete(_) => break,
        }
    }
    assert_eq!(asked, vec![UTIL, SHARED, LAYOUT, MENU, INNER, FOOTER, PAGE, BODY]);
}

#[test]
fn chain_without_segments_has_two_graphs() {
    let server_entries = ServerEntries { server_utils: vec![], server_component_entries: vec![] };
    let table = references_of(&[(PAGE, vec![BODY])]);
    let graphs = chain_of(PAGE, &server_entries, &table);
    assert_eq!(graphs.len(), 2);
    assert_eq!(held(&graphs[0]), vec![PAGE]);
    assert_eq!(held(&graphs[1]), vec![PAGE, BODY]);
}

#[test]
fn later_graph_of_a_chain_shares_only_entries_with_earlier_ones() {
    let (server_entries, table) = route();
    let graphs = chain_of(PAGE, &server_entries, &table);
    for later in 1..graphs.len() {
        for earlier in 0..later {
            for module in held(&graphs[later]) {
                if held(&graphs[earlier]).contains(&module) {
                    assert!(graphs[later].get_entry(module).is_ok());
                }
            }
        }
    }
}

#[test]
fn development_graphs_answer_without_filtering() {
    let (server_entries, table) = route();
    let graphs = chain_of(PAGE, &server_entries, &table);
    let data = vec![
        GraphData {
            dynamic_imports: one_import(SHARED),
            server_actions: one_action(UTIL, "h0"),
            ..no_data()
        },
        GraphData {
            dynamic_imports: one_import(MENU),
            server_actions: one_action(MENU, "h1"),
            ..no_data()
        },
        GraphData { dynamic_imports: one_import(SHARED), ..no_data() },
        GraphData { server_actions: one_action(BODY, "h1"), ..no_data() },
    ];
    let reduced = get_reduced_graphs_for_endpoint(NextMode::Development, &graphs, &data);
    let imports = reduced.get_next_dynamic_imports_for_endpoint(PAGE).ok().unwrap();
    assert_eq!(importers(&imports), vec![SHARED, MENU]);
    let actions = reduced.get_server_actions_for_endpoint(PAGE).ok().unwrap();
    assert_eq!(hashes(&actions), vec![String::from("h0"), String::from("h1")]);
    assert_eq!(actions.get(&String::from("h1")).unwrap().2, BODY);
    let references = reduced.get_client_references_for_endpoint(PAGE, &server_entries);
    let references = references.ok().unwrap();
    assert_eq!(references.client_references, vec![]);
    assert_eq!(buckets(&references), vec![(None, vec![])]);
    assert_eq!(references.server_utils, vec![UTIL]);
    assert_eq!(references.server_component_entries, vec![LAYOUT, INNER]);
}

#[test]
fn build_graph_answers_for_what_the_entry_reaches() {
    let table = references_of(&[(A, vec![B]), (C, vec![D])]);
    let graph = walk_to_end(get_module_graph_for_app_without_issues(vec![A, C]), &table);
    let graphs = vec![graph];
    let mut imports: DynamicImports = OrderedMap::new();
    imports.insert(D, vec![]);
    imports.insert(B, vec![]);
    let mut actions = one_action(B, "hb");
    actions.append(one_action(D, "hd"));
    let data = vec![GraphData { dynamic_imports: imports, server_actions: actions, ..no_data() }];
    let reduced = get_reduced_graphs_for_endpoint(NextMode::Build, &graphs, &data);
    let found = reduced.get_next_dynamic_imports_for_endpoint(A).ok().unwrap();
    assert_eq!(importers(&found), vec![B]);
    let found = reduced.get_next_dynamic_imports_for_endpoint(C).ok().unwrap();
    assert_eq!(importers(&found), vec![D]);
    let found = reduced.get_server_actions_for_endpoint(C).ok().unwrap();
    assert_eq!(hashes(&found), vec![String::from("hd")]);
    assert_eq!(
        reduced.get_server_actions_for_endpoint(B).err(),
        Some(GraphError::EntryNotFound)
    );
}

#[test]
fn reduced_graphs_of_no_graphs_are_empty() {
    let graphs: Vec<SingleModuleGraph> = vec![];
    let data: Vec<GraphData> = vec![];
    let reduced = get_reduced_graphs_for_endpoint(NextMode::Build, &graphs, &data);
    assert_eq!(reduced.get_next_dynamic_imports_for_endpoint(A).ok().unwrap().len(), 0);
}
