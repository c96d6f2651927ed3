use std::collections::HashMap;

use module_graph::builder::BuildStep;
use module_graph::builder::GraphBuilder;
use module_graph::client_references::map_client_references;
use module_graph::client_references::ClientReference;
use module_graph::client_references::ClientReferenceGraphResult;
use module_graph::client_references::ClientReferenceMapType;
use module_graph::client_references::ClientReferenceType;
use module_graph::client_references::ClientReferencesGraph;
use module_graph::client_references::ModuleKinds;
use module_graph::client_references::ServerEntries;
use module_graph::module_graph::GraphError;
use module_graph::module_graph::ModuleReference;
use module_graph::module_graph::SingleModuleGraph;
use module_graph::next_dynamic::copy_imports;
use module_graph::next_dynamic::DynamicImport;
use module_graph::next_dynamic::DynamicImports;
use module_graph::next_dynamic::NextDynamicGraph;
use module_graph::ordered_map::OrderedMap;
use module_graph::reduced_graphs::ReducedGraphs;
use module_graph::server_actions::register_actions;
use module_graph::server_actions::ActionLayer;
use module_graph::server_actions::AllActions;
use module_graph::server_actions::AllModuleActions;
use module_graph::server_actions::ModuleActions;
use module_graph::server_actions::ServerAction;
use module_graph::server_actions::ServerActionsGraph;

const A: u64 = 1;
const B: u64 = 2;
const C: u64 = 3;
const D: u64 = 4;
const E: u64 = 5;
const F: u64 = 6;
const B_SSR: u64 = 102;
const E_SSR: u64 = 105;
const F_SSR: u64 = 106;

fn graph_of(entries: Vec<u64>, rows: &[(u64, Vec<u64>)]) -> SingleModuleGraph {
    let mut table: HashMap<u64, Vec<ModuleReference>> = HashMap::new();
    for (module, targets) in rows {
        let references =
            targets.iter().map(|target| ModuleReference { module: *target, extension: None });
        table.insert(*module, references.collect());
    }
    let mut builder: GraphBuilder = SingleModuleGraph::new_with_entries(entries);
    loop {
        match builder.advance().unwrap() {
            BuildStep::Resolve(pending) => {
                let references = table.get(&pending.module()).cloned().unwrap_or_default();
                builder = pending.resolve(&references);
            }
            BuildStep::Complete(graph) => return graph,
        }
    }
}

fn nothing() -> ModuleKinds {
    ModuleKinds { ecmascript_client_reference: None, css_module: None, server_component: None }
}

fn script(module: u64, ssr_module: u64) -> ModuleKinds {
    ModuleKinds { ecmascript_client_reference: Some((module, ssr_module)), ..nothing() }
}

fn stylesheet(module: u64) -> ModuleKinds {
    ModuleKinds { css_module: Some(module), ..nothing() }
}

fn server_component(module: u64) -> ModuleKinds {
    ModuleKinds { server_component: Some(module), ..nothing() }
}

fn kinds_of(rows: &[(u64, ModuleKinds)]) -> HashMap<u64, ModuleKinds> {
    rows.iter().copied().collect()
}

fn no_entries() -> ServerEntries {
    ServerEntries { server_utils: vec![], server_component_entries: vec![] }
}

fn buckets_of(result: &ClientReferenceGraphResult) -> Vec<(Option<u64>, Vec<u64>)> {
    let map = &result.client_references_by_server_component;
    (0..map.len()).map(|i| (*map.key_at(i), map.value_at(i).clone())).collect()
}

fn import(specifier: &str, module: u64) -> DynamicImport {
    DynamicImport { specifier: String::from(specifier), module }
}

fn imports_of(rows: Vec<(u64, Vec<DynamicImport>)>) -> DynamicImports {
    let mut map = OrderedMap::new();
    for (module, imports) in rows {
        map.insert(module, imports);
    }
    map
}

fn listed_imports(map: &DynamicImports) -> Vec<(u64, Vec<(String, u64)>)> {
    (0..map.len())
        .map(|i| {
            let imports = map.value_at(i);
            (*map.key_at(i), imports.iter().map(|i| (i.specifier.clone(), i.module)).collect())
        })
        .collect()
}

fn action(hash: &str, name: &str) -> ServerAction {
    ServerAction { hash: String::from(hash), name: String::from(name) }
}

fn actions_of(rows: Vec<(u64, ActionLayer, u64, Vec<ServerAction>)>) -> AllModuleActions {
    let mut map = OrderedMap::new();
    for (module, layer, rsc_module, actions) in rows {
        map.insert(module, ModuleActions { layer, rsc_module, actions });
    }
    map
}

fn listed_actions(map: &AllActions) -> Vec<(String, ActionLayer, String, u64)> {
    (0..map.len())
        .map(|i| {
            let record = map.value_at(i);
            (map.key_at(i).clone(), record.0, record.1.clone(), record.2)
        })
        .collect()
}

fn registered(hash: &str, layer: ActionLayer, name: &str, module: u64) -> (String, ActionLayer, String, u64) {
    (String::from(hash), layer, String::from(name), module)
}

#[test]
fn kinds_are_tried_in_order() {
    let all = ModuleKinds {
        ecmascript_client_reference: Some((A, B)),
        css_module: Some(C),
        server_component: Some(D),
    };
    assert_eq!(
        all.classify(),
        Some(ClientReferenceMapType::EcmascriptClientReference { module: A, ssr_module: B })
    );
    let two = ModuleKinds { css_module: Some(C), server_component: Some(D), ..nothing() };
    assert_eq!(two.classify(), Some(ClientReferenceMapType::CssClientReference(C)));
    assert_eq!(server_component(D).classify(), Some(ClientReferenceMapType::ServerComponent(D)));
    assert_eq!(nothing().classify(), None);
}

#[test]
fn mapping_keeps_the_classified_modules_of_the_graph() {
    let graph = graph_of(vec![A], &[(A, vec![B, C, D])]);
    let kinds = kinds_of(&[
        (B, script(B, B_SSR)),
        (C, nothing()),
        (D, server_component(D)),
        (E, stylesheet(E)),
    ]);
    let mapped = map_client_references(&graph, &kinds);
    assert_eq!(mapped.0.len(), 2);
    assert_eq!(
        mapped.0.get(&B),
        Some(&ClientReferenceMapType::EcmascriptClientReference { module: B, ssr_module: B_SSR })
    );
    assert_eq!(mapped.0.get(&D), Some(&ClientReferenceMapType::ServerComponent(D)));
    assert_eq!(mapped.0.get(&A), None);
    assert_eq!(mapped.0.get(&C), None);
    assert_eq!(mapped.0.get(&E), None);
}

#[test]
fn client_reference_below_a_server_component_names_it() {
    let graph = graph_of(vec![A], &[(A, vec![B]), (B, vec![E])]);
    let kinds = kinds_of(&[(B, server_component(B)), (E, script(E, E_SSR))]);
    let view = ClientReferencesGraph::new_with_entries(&graph, false, &kinds);
    let result = view.get_client_references_for_endpoint(A, &no_entries()).ok().unwrap();
    assert_eq!(
        result.client_references,
        vec![ClientReference {
            server_component: Some(B),
            ty: ClientReferenceType::EcmascriptClientReference { parent_module: B, module: E },
        }]
    );
    assert_eq!(buckets_of(&result), vec![(None, vec![]), (Some(B), vec![E_SSR])]);
}

#[test]
fn client_reference_below_no_server_component_names_none() {
    let graph = graph_of(vec![A], &[(A, vec![E])]);
    let kinds = kinds_of(&[(E, script(E, E_SSR))]);
    let view = ClientReferencesGraph::new_with_entries(&graph, false, &kinds);
    let result = view.get_client_references_for_endpoint(A, &no_entries()).ok().unwrap();
    assert_eq!(
        result.client_references,
        vec![ClientReference {
            server_component: None,
            ty: ClientReferenceType::EcmascriptClientReference { parent_module: A, module: E },
        }]
    );
    assert_eq!(buckets_of(&result), vec![(None, vec![E_SSR])]);
}

#[test]
fn bucket_of_no_server_component_is_there_without_references() {
    let graph = graph_of(vec![A], &[(A, vec![B])]);
    let view = ClientReferencesGraph::new_with_entries(&graph, false, &kinds_of(&[]));
    let result = view.get_client_references_for_endpoint(A, &no_entries()).ok().unwrap();
    assert_eq!(result.client_references, vec![]);
    assert_eq!(buckets_of(&result), vec![(None, vec![])]);
}

#[test]
fn boundary_is_handed_down_through_plain_modules() {
    let graph = graph_of(vec![A], &[(A, vec![B]), (B, vec![C]), (C, vec![D]), (D, vec![E, F])]);
    let kinds = kinds_of(&[(B, server_component(B)), (E, script(E, E_SSR)), (F, stylesheet(F))]);
    let view = ClientReferencesGraph::new_with_entries(&graph, true, &kinds);
    let result = view.get_client_references_for_endpoint(A, &no_entries()).ok().unwrap();
    assert_eq!(
        result.client_references,
        vec![
            ClientReference {
                server_component: Some(B),
                ty: ClientReferenceType::EcmascriptClientReference { parent_module: D, module: E },
            },
            ClientReference {
                server_component: Some(B),
                ty: ClientReferenceType::CssClientReference(F),
            },
        ]
    );
    assert_eq!(buckets_of(&result), vec![(None, vec![]), (Some(B), vec![E_SSR])]);
}

#[test]
fn nearest_server_component_wins() {
    let graph = graph_of(vec![A], &[(A, vec![B]), (B, vec![C]), (C, vec![E])]);
    let kinds =
        kinds_of(&[(B, server_component(B)), (C, server_component(C)), (E, script(E, E_SSR))]);
    let view = ClientReferencesGraph::new_with_entries(&graph, false, &kinds);
    let result = view.get_client_references_for_endpoint(A, &no_entries()).ok().unwrap();
    assert_eq!(result.client_references.len(), 1);
    assert_eq!(result.client_references[0].server_component, Some(C));
    assert_eq!(
        buckets_of(&result),
        vec![(None, vec![]), (Some(B), vec![]), (Some(C), vec![E_SSR])]
    );
}

#[test]
fn walk_stops_at_client_references() {
    let graph = graph_of(vec![A], &[(A, vec![E, F]), (E, vec![B]), (F, vec![C])]);
    let kinds = kinds_of(&[
        (E, script(E, E_SSR)),
        (F, stylesheet(F)),
        (B, script(B, B_SSR)),
        (C, stylesheet(C)),
    ]);
    let view = ClientReferencesGraph::new_with_entries(&graph, false, &kinds);
    let result = view.get_client_references_for_endpoint(A, &no_entries()).ok().unwrap();
    assert_eq!(
        result.client_references,
        vec![
            ClientReference {
                server_component: None,
                ty: ClientReferenceType::EcmascriptClientReference { parent_module: A, module: E },
            },
            ClientReference {
                server_component: None,
                ty: ClientReferenceType::CssClientReference(F),
            },
        ]
    );
    assert_eq!(buckets_of(&result), vec![(None, vec![E_SSR])]);
}

#[test]
fn client_reference_is_recorded_for_each_edge_that_leads_to_it() {
    let graph = graph_of(vec![A], &[(A, vec![B, C]), (B, vec![E]), (C, vec![E])]);
    let kinds = kinds_of(&[(B, server_component(B)), (E, script(E, E_SSR))]);
    let view = ClientReferencesGraph::new_with_entries(&graph, false, &kinds);
    let result = view.get_client_references_for_endpoint(A, &no_entries()).ok().unwrap();
    assert_eq!(
        result.client_references,
        vec![
            ClientReference {
                server_component: None,
                ty: ClientReferenceType::EcmascriptClientReference { parent_module: C, module: E },
            },
            ClientReference {
                server_component: Some(B),
                ty: ClientReferenceType::EcmascriptClientReference { parent_module: B, module: E },
            },
        ]
    );
    assert_eq!(buckets_of(&result), vec![(None, vec![E_SSR]), (Some(B), vec![E_SSR])]);
}

#[test]
fn client_references_take_the_server_entries_as_given() {
    let graph = graph_of(vec![A], &[(A, vec![B])]);
    let view = ClientReferencesGraph::new_with_entries(&graph, false, &kinds_of(&[]));
    let entries = ServerEntries { server_utils: vec![C, D], server_component_entries: vec![E] };
    let result = view.get_client_references_for_endpoint(A, &entries).ok().unwrap();
    assert_eq!(result.server_utils, vec![C, D]);
    assert_eq!(result.server_component_entries, vec![E]);
}

#[test]
fn client_references_of_an_unknown_entry_fail() {
    let graph = graph_of(vec![A], &[(A, vec![B])]);
    let view = ClientReferencesGraph::new_with_entries(&graph, true, &kinds_of(&[]));
    assert_eq!(
        view.get_client_references_for_endpoint(B, &no_entries()).err(),
        Some(GraphError::EntryNotFound)
    );
}

#[test]
fn extending_adds_references_and_bucket_items() {
    let graph = graph_of(vec![A, C], &[(A, vec![B]), (B, vec![E]), (C, vec![F, D]), (D, vec![E])]);
    let kinds = kinds_of(&[
        (B, server_component(B)),
        (D, server_component(D)),
        (E, script(E, E_SSR)),
        (F, script(F, F_SSR)),
    ]);
    let view = ClientReferencesGraph::new_with_entries(&graph, false, &kinds);
    let mut first = view.get_client_references_for_endpoint(A, &no_entries()).ok().unwrap();
    let second = view.get_client_references_for_endpoint(C, &no_entries()).ok().unwrap();
    assert_eq!(buckets_of(&first), vec![(None, vec![]), (Some(B), vec![E_SSR])]);
    assert_eq!(buckets_of(&second), vec![(None, vec![F_SSR]), (Some(D), vec![E_SSR])]);
    first.extend(&second);
    assert_eq!(first.client_references.len(), 3);
    assert_eq!(first.client_references[0].server_component, Some(B));
    assert_eq!(first.client_references[1].server_component, None);
    assert_eq!(first.client_references[2].server_component, Some(D));
    assert_eq!(
        buckets_of(&first),
        vec![(None, vec![F_SSR]), (Some(B), vec![E_SSR]), (Some(D), vec![E_SSR])]
    );
}

#[test]
fn dynamic_imports_of_one_page_are_not_filtered() {
    let graph = graph_of(vec![A], &[(A, vec![B])]);
    let data = imports_of(vec![
        (F, vec![import("./f", 60)]),
        (B, vec![import("./b", 20), import("./b2", 21)]),
    ]);
    let view = NextDynamicGraph::new_with_entries(&graph, true, &data);
    let expected = vec![
        (F, vec![(String::from("./f"), 60)]),
        (B, vec![(String::from("./b"), 20), (String::from("./b2"), 21)]),
    ];
    let found = view.get_next_dynamic_imports_for_endpoint(A).ok().unwrap();
    assert_eq!(listed_imports(&found), expected);
    let other = view.get_next_dynamic_imports_for_endpoint(E).ok().unwrap();
    assert_eq!(listed_imports(&other), expected);
}

#[test]
fn dynamic_imports_of_the_whole_app_are_filtered() {
    let graph = graph_of(vec![A, E], &[(A, vec![B, C]), (C, vec![D]), (E, vec![D, F])]);
    let data = imports_of(vec![
        (F, vec![import("./f", 60)]),
        (D, vec![import("./d", 40)]),
        (B, vec![import("./b", 20)]),
        (A, vec![]),
    ]);
    let view = NextDynamicGraph::new_with_entries(&graph, false, &data);
    let found = view.get_next_dynamic_imports_for_endpoint(A).ok().unwrap();
    let mut listed = listed_imports(&found);
    assert_eq!(listed[0], (A, vec![]));
    listed.sort();
    assert_eq!(
        listed,
        vec![
            (A, vec![]),
            (B, vec![(String::from("./b"), 20)]),
            (D, vec![(String::from("./d"), 40)]),
        ]
    );
    let other = view.get_next_dynamic_imports_for_endpoint(E).ok().unwrap();
    let mut listed = listed_imports(&other);
    listed.sort();
    assert_eq!(
        listed,
        vec![(D, vec![(String::from("./d"), 40)]), (F, vec![(String::from("./f"), 60)])]
    );
    assert_eq!(
        view.get_next_dynamic_imports_for_endpoint(B).err(),
        Some(GraphError::EntryNotFound)
    );
}

#[test]
fn copying_imports_keeps_them() {
    let imports = vec![import("./a", 1), import("", 2)];
    let copy = copy_imports(&imports);
    assert_eq!(copy.len(), 2);
    assert_eq!(copy[0].specifier, "./a");
    assert_eq!(copy[0].module, 1);
    assert_eq!(copy[1].specifier, "");
    assert_eq!(copy[1].module, 2);
    let one = imports[0].duplicate();
    assert_eq!(one.specifier, "./a");
    assert_eq!(one.module, 1);
}

#[test]
fn actions_are_registered_under_the_module_of_the_server_layer() {
    let data = actions_of(vec![
        (A, ActionLayer::Rsc, 901, vec![action("h1", "save"), action("h2", "load")]),
        (B, ActionLayer::ActionBrowser, 902, vec![action("h3", "send")]),
    ]);
    let found = register_actions(&data, &vec![A, B]);
    assert_eq!(
        listed_actions(&found),
        vec![
            registered("h1", ActionLayer::Rsc, "save", A),
            registered("h2", ActionLayer::Rsc, "load", A),
            registered("h3", ActionLayer::ActionBrowser, "send", 902),
        ]
    );
}

#[test]
fn action_hash_that_comes_again_keeps_its_place_and_takes_the_later_record() {
    let data = actions_of(vec![
        (A, ActionLayer::Rsc, 901, vec![action("h1", "save"), action("h2", "load")]),
        (B, ActionLayer::ActionBrowser, 902, vec![action("h1", "send"), action("h4", "drop")]),
    ]);
    let found = register_actions(&data, &vec![A, B]);
    assert_eq!(
        listed_actions(&found),
        vec![
            registered("h1", ActionLayer::ActionBrowser, "send", 902),
            registered("h2", ActionLayer::Rsc, "load", A),
            registered("h4", ActionLayer::ActionBrowser, "drop", 902),
        ]
    );
    let turned = register_actions(&data, &vec![B, A]);
    assert_eq!(
        listed_actions(&turned),
        vec![
            registered("h1", ActionLayer::Rsc, "save", A),
            registered("h4", ActionLayer::ActionBrowser, "drop", 902),
            registered("h2", ActionLayer::Rsc, "load", A),
        ]
    );
}

#[test]
fn server_actions_of_one_page_are_not_filtered() {
    let graph = graph_of(vec![A], &[(A, vec![B])]);
    let data = actions_of(vec![
        (F, ActionLayer::Rsc, 906, vec![action("hf", "far")]),
        (B, ActionLayer::ActionBrowser, 902, vec![action("hb", "near")]),
    ]);
    let view = ServerActionsGraph::new_with_entries(&graph, true, &data);
    let expected = vec![
        registered("hf", ActionLayer::Rsc, "far", F),
        registered("hb", ActionLayer::ActionBrowser, "near", 902),
    ];
    let found = view.get_server_actions_for_endpoint(A).ok().unwrap();
    assert_eq!(listed_actions(&found), expected);
    let other = view.get_server_actions_for_endpoint(D).ok().unwrap();
    assert_eq!(listed_actions(&other), expected);
}

#[test]
fn server_actions_of_the_whole_app_are_filtered() {
    let graph = graph_of(vec![A, E], &[(A, vec![B]), (E, vec![F])]);
    let data = actions_of(vec![
        (F, ActionLayer::Rsc, 906, vec![action("hf", "far")]),
        (B, ActionLayer::ActionBrowser, 902, vec![action("hb", "near")]),
    ]);
    let view = ServerActionsGraph::new_with_entries(&graph, false, &data);
    let found = view.get_server_actions_for_endpoint(A).ok().unwrap();
    assert_eq!(
        listed_actions(&found),
        vec![registered("hb", ActionLayer::ActionBrowser, "near", 902)]
    );
    let other = view.get_server_actions_for_endpoint(E).ok().unwrap();
    assert_eq!(listed_actions(&other), vec![registered("hf", ActionLayer::Rsc, "far", F)]);
    assert_eq!(view.get_server_actions_for_endpoint(B).err(), Some(GraphError::EntryNotFound));
}

#[test]
fn reduced_graphs_of_one_graph_answer_as_the_graph_does() {
    let graph = graph_of(vec![A], &[(A, vec![B, C]), (C, vec![E])]);
    let imports = imports_of(vec![(C, vec![import("./c", 30)]), (F, vec![import("./f", 60)])]);
    let actions = actions_of(vec![
        (B, ActionLayer::ActionBrowser, 902, vec![action("hb", "near")]),
        (F, ActionLayer::Rsc, 906, vec![action("hf", "far")]),
    ]);
    let kinds = kinds_of(&[(C, server_component(C)), (E, script(E, E_SSR))]);
    let entries = ServerEntries { server_utils: vec![D], server_component_entries: vec![C] };
    let reduced = ReducedGraphs::new(
        vec![NextDynamicGraph::new_with_entries(&graph, false, &imports)],
        vec![ServerActionsGraph::new_with_entries(&graph, false, &actions)],
        vec![ClientReferencesGraph::new_with_entries(&graph, false, &kinds)],
    );
    let own_imports = NextDynamicGraph::new_with_entries(&graph, false, &imports)
        .get_next_dynamic_imports_for_endpoint(A)
        .ok()
        .unwrap();
    let merged_imports = reduced.get_next_dynamic_imports_for_endpoint(A).ok().unwrap();
    assert_eq!(listed_imports(&merged_imports), listed_imports(&own_imports));
    assert_eq!(listed_imports(&merged_imports), vec![(C, vec![(String::from("./c"), 30)])]);
    let own_actions = ServerActionsGraph::new_with_entries(&graph, false, &actions)
        .get_server_actions_for_endpoint(A)
        .ok()
        .unwrap();
    let merged_actions = reduced.get_server_actions_for_endpoint(A).ok().unwrap();
    assert_eq!(listed_actions(&merged_actions), listed_actions(&own_actions));
    assert_eq!(
        listed_actions(&merged_actions),
        vec![registered("hb", ActionLayer::ActionBrowser, "near", 902)]
    );
    let own_references = ClientReferencesGraph::new_with_entries(&graph, false, &kinds)
        .get_client_references_for_endpoint(A, &entries)
        .ok()
        .unwrap();
    let merged_references = reduced.get_client_references_for_endpoint(A, &entries).ok().unwrap();
    assert_eq!(merged_references.client_references, own_references.client_references);
    assert_eq!(buckets_of(&merged_references), buckets_of(&own_references));
    assert_eq!(merged_references.server_utils, own_references.server_utils);
    assert_eq!(
        merged_references.server_component_entries,
        own_references.server_component_entries
    );
    assert_eq!(buckets_of(&merged_references), vec![(None, vec![]), (Some(C), vec![E_SSR])]);
    assert_eq!(
        reduced.get_next_dynamic_imports_for_endpoint(B).err(),
        Some(GraphError::EntryNotFound)
    );
    assert_eq!(reduced.get_server_actions_for_endpoint(B).err(), Some(GraphError::EntryNotFound));
    assert_eq!(
        reduced.get_client_references_for_endpoint(B, &entries).err(),
        Some(GraphError::EntryNotFound)
    );
}

#[test]
fn reduced_graphs_of_several_graphs_merge_their_answers() {
    let first = graph_of(vec![A], &[(A, vec![B]), (B, vec![E])]);
    let second = graph_of(vec![A], &[(A, vec![C, F])]);
    let first_imports =
        imports_of(vec![(B, vec![import("./b", 20)]), (A, vec![import("./a", 10)])]);
    let second_imports =
        imports_of(vec![(C, vec![import("./c", 30)]), (A, vec![import("./late", 11)])]);
    let first_actions = actions_of(vec![
        (B, ActionLayer::Rsc, 902, vec![action("h1", "one"), action("h2", "two")]),
    ]);
    let second_actions = actions_of(vec![
        (C, ActionLayer::ActionBrowser, 903, vec![action("h2", "again"), action("h3", "three")]),
    ]);
    let first_kinds = kinds_of(&[(B, server_component(B)), (E, script(E, E_SSR))]);
    let second_kinds = kinds_of(&[(C, stylesheet(C)), (F, script(F, F_SSR))]);
    let entries = ServerEntries { server_utils: vec![D], server_component_entries: vec![B] };
    let reduced = ReducedGraphs::new(
        vec![
            NextDynamicGraph::new_with_entries(&first, true, &first_imports),
            NextDynamicGraph::new_with_entries(&second, true, &second_imports),
        ],
        vec![
            ServerActionsGraph::new_with_entries(&first, true, &first_actions),
            ServerActionsGraph::new_with_entries(&second, true, &second_actions),
        ],
        vec![
            ClientReferencesGraph::new_with_entries(&first, true, &first_kinds),
            ClientReferencesGraph::new_with_entries(&second, true, &second_kinds),
        ],
    );
    let imports = reduced.get_next_dynamic_imports_for_endpoint(A).ok().unwrap();
    assert_eq!(
        listed_imports(&imports),
        vec![
            (B, vec![(String::from("./b"), 20)]),
            (A, vec![(String::from("./late"), 11)]),
            (C, vec![(String::from("./c"), 30)]),
        ]
    );
    let actions = reduced.get_server_actions_for_endpoint(A).ok().unwrap();
    assert_eq!(
        listed_actions(&actions),
        vec![
            registered("h1", ActionLayer::Rsc, "one", B),
            registered("h2", ActionLayer::ActionBrowser, "again", 903),
            registered("h3", ActionLayer::ActionBrowser, "three", 903),
        ]
    );
    let references = reduced.get_client_references_for_endpoint(A, &entries).ok().unwrap();
    assert_eq!(
        references.client_references,
        vec![
            ClientReference {
                server_component: Some(B),
                ty: ClientReferenceType::EcmascriptClientReference { parent_module: B, module: E },
            },
            ClientReference {
                server_component: None,
                ty: ClientReferenceType::CssClientReference(C),
            },
            ClientReference {
                server_component: None,
                ty: ClientReferenceType::EcmascriptClientReference { parent_module: A, module: F },
            },
        ]
    );
    assert_eq!(buckets_of(&references), vec![(None, vec![F_SSR]), (Some(B), vec![E_SSR])]);
    assert_eq!(references.server_utils, vec![D]);
    assert_eq!(references.server_component_entries, vec![B]);
}

#[test]
fn reduced_graphs_without_graphs_have_nothing() {
    let reduced = ReducedGraphs::new(vec![], vec![], vec![]);
    assert_eq!(reduced.get_next_dynamic_imports_for_endpoint(A).ok().unwrap().len(), 0);
    assert_eq!(reduced.get_server_actions_for_endpoint(A).ok().unwrap().len(), 0);
}

#[test]
fn reduced_graphs_fail_where_one_graph_does() {
    let first = graph_of(vec![A], &[(A, vec![B])]);
    let second = graph_of(vec![C], &[(C, vec![B])]);
    let imports = imports_of(vec![(B, vec![import("./b", 20)])]);
    let actions = actions_of(vec![(B, ActionLayer::Rsc, 902, vec![action("h1", "one")])]);
    let kinds = kinds_of(&[]);
    let reduced = ReducedGraphs::new(
        vec![
            NextDynamicGraph::new_with_entries(&first, false, &imports),
            NextDynamicGraph::new_with_entries(&second, false, &imports),
        ],
        vec![
            ServerActionsGraph::new_with_entries(&first, false, &actions),
            ServerActionsGraph::new_with_entries(&second, false, &actions),
        ],
        vec![
            ClientReferencesGraph::new_with_entries(&first, false, &kinds),
            ClientReferencesGraph::new_with_entries(&second, false, &kinds),
        ],
    );
    assert_eq!(
        reduced.get_next_dynamic_imports_for_endpoint(A).err(),
        Some(GraphError::EntryNotFound)
    );
    assert_eq!(reduced.get_server_actions_for_endpoint(C).err(), Some(GraphError::EntryNotFound));
    assert_eq!(
        reduced.get_client_references_for_endpoint(A, &no_entries()).err(),
        Some(GraphError::EntryNotFound)
    );
}

#[test]
fn ordered_map_keeps_the_place_of_a_key() {
    let mut map: OrderedMap<u64, u64> = OrderedMap::new();
    assert_eq!(map.len(), 0);
    map.insert(7, 70);
    map.insert(3, 30);
    map.insert(7, 71);
    map.insert(9, 90);
    assert_eq!(map.len(), 3);
    assert_eq!((*map.key_at(0), *map.value_at(0)), (7, 71));
    assert_eq!((*map.key_at(1), *map.value_at(1)), (3, 30));
    assert_eq!((*map.key_at(2), *map.value_at(2)), (9, 90));
    assert_eq!(map.position(&3), Some(1));
    assert_eq!(map.position(&4), None);
    assert_eq!(map.get(&9), Some(&90));
    assert_eq!(map.get(&8), None);
    assert_eq!(map.replace_at(1, 31), 30);
    assert_eq!(map.get(&3), Some(&31));
    let mut other: OrderedMap<u64, u64> = OrderedMap::new();
    other.insert(5, 50);
    other.insert(3, 32);
    other.insert(1, 10);
    map.append(other);
    assert_eq!(map.len(), 5);
    let listed: Vec<(u64, u64)> = (0..5).map(|i| (*map.key_at(i), *map.value_at(i))).collect();
    assert_eq!(listed, vec![(7, 71), (3, 32), (9, 90), (5, 50), (1, 10)]);
}

#[test]
fn ordered_map_tells_keys_by_their_text() {
    let mut map: OrderedMap<String, u64> = OrderedMap::new();
    map.insert(String::from("a"), 1);
    map.insert(String::from("b"), 2);
    map.insert(String::from("a"), 3);
    assert_eq!(map.len(), 2);
    assert_eq!(map.get(&String::from("a")), Some(&3));
    let mut keyed: OrderedMap<Option<u64>, u64> = OrderedMap::new();
    keyed.insert(None, 1);
    keyed.insert(Some(0), 2);
    keyed.insert(None, 3);
    assert_eq!(keyed.len(), 2);
    assert_eq!(keyed.position(&Some(0)), Some(1));
    assert_eq!(keyed.get(&None), Some(&3));
}
