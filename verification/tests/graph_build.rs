use std::collections::HashMap;
use std::collections::HashSet;

use module_graph::builder::BuildStep;
use module_graph::builder::GraphBuilder;
use module_graph::module_graph::GraphError;
use module_graph::module_graph::GraphTraversalAction;
use module_graph::module_graph::ModuleReference;
use module_graph::module_graph::SingleModuleGraph;
use module_graph::ordered_map::OrderedMap;

const A: u64 = 1;
const B: u64 = 2;
const C: u64 = 3;
const D: u64 = 4;
const E: u64 = 5;
const F: u64 = 6;

fn plain(module: u64) -> ModuleReference {
    ModuleReference { module, extension: Some(String::from("js")) }
}

fn with_extension(module: u64, extension: &str) -> ModuleReference {
    ModuleReference { module, extension: Some(String::from(extension)) }
}

fn table(rows: &[(u64, Vec<ModuleReference>)]) -> HashMap<u64, Vec<ModuleReference>> {
    let mut table = HashMap::new();
    for (module, references) in rows {
        table.insert(*module, references.clone());
    }
    table
}

fn drive(builder: GraphBuilder, table: &HashMap<u64, Vec<ModuleReference>>) -> SingleModuleGraph {
    let mut builder = builder;
    loop {
        match builder.advance().unwrap() {
            BuildStep::Resolve(pending) => {
                let references = table.get(&pending.module()).cloned().unwrap_or_default();
                builder = pending.resolve(&references);
            }
            BuildStep::Complete(graph) => return graph,
        }
    }
}

fn modules_of(graph: &SingleModuleGraph) -> Vec<u64> {
    graph.enumerate_nodes().into_iter().map(|(_, module)| module).collect()
}

fn sorted(mut modules: Vec<u64>) -> Vec<u64> {
    modules.sort();
    modules
}

fn edges_shown(graph: &SingleModuleGraph, entry: u64, skip: &[u64]) -> Vec<(Option<u64>, u64)> {
    let mut walk = graph.traverse_edges_from_entry(entry).ok().unwrap();
    let mut shown = Vec::new();
    let mut action = GraphTraversalAction::Continue;
    while let Some((parent, child)) = walk.next(action) {
        shown.push((parent, child));
        action = if skip.contains(&child) {
            GraphTraversalAction::Skip
        } else {
            GraphTraversalAction::Continue
        };
    }
    shown
}

#[test]
fn errors_say_what_went_wrong() {
    assert_eq!(GraphError::EntryNotFound.message(), "Couldn't find entry module in graph");
    assert_eq!(
        GraphError::CapacityExceeded.message(),
        "The module graph cannot take another node or edge"
    );
}

#[test]
fn source_map_is_told_by_its_extension() {
    assert!(with_extension(B, "map").targets_source_map());
    assert!(!with_extension(B, "js").targets_source_map());
    assert!(!with_extension(B, "maps").targets_source_map());
    assert!(!with_extension(B, "ma").targets_source_map());
    assert!(!with_extension(B, "MAP").targets_source_map());
    assert!(!with_extension(B, "").targets_source_map());
    assert!(!ModuleReference { module: B, extension: None }.targets_source_map());
}

#[test]
fn build_holds_every_reachable_module_once() {
    let references = table(&[
        (A, vec![plain(B), plain(C)]),
        (B, vec![plain(D)]),
        (C, vec![plain(D), plain(A)]),
        (E, vec![plain(F)]),
    ]);
    let graph = drive(SingleModuleGraph::new_with_entries(vec![A]), &references);
    assert_eq!(sorted(modules_of(&graph)), vec![A, B, C, D]);
    assert_eq!(graph.node_count(), 4);
}

#[test]
fn build_numbers_nodes_in_the_order_of_the_walk() {
    let references = table(&[(A, vec![plain(B), plain(C)]), (C, vec![plain(D)])]);
    let graph = drive(SingleModuleGraph::new_with_entries(vec![A]), &references);
    assert_eq!(graph.enumerate_nodes(), vec![(0, A), (1, C), (2, D), (3, B)]);
    assert_eq!(graph.module_at(1), C);
}

#[test]
fn build_leaves_out_source_maps() {
    let references = table(&[
        (A, vec![plain(B), with_extension(C, "map")]),
        (C, vec![plain(D)]),
    ]);
    let graph = drive(SingleModuleGraph::new_with_entries(vec![A]), &references);
    assert_eq!(sorted(modules_of(&graph)), vec![A, B]);
}

#[test]
fn build_of_no_entries_is_empty() {
    let graph = drive(SingleModuleGraph::new_with_entries(vec![]), &table(&[]));
    assert_eq!(graph.node_count(), 0);
    assert_eq!(graph.get_entry(A), Err(GraphError::EntryNotFound));
}

#[test]
fn build_takes_a_repeated_entry_once() {
    let references = table(&[(A, vec![plain(B)])]);
    let graph = drive(SingleModuleGraph::new_with_entries(vec![A, A]), &references);
    assert_eq!(sorted(modules_of(&graph)), vec![A, B]);
}

#[test]
fn build_asks_for_each_module_once() {
    let references = table(&[
        (A, vec![plain(B), plain(C)]),
        (B, vec![plain(D)]),
        (C, vec![plain(D)]),
    ]);
    let mut builder = SingleModuleGraph::new_with_entries(vec![A]);
    let mut asked = Vec::new();
    loop {
        match builder.advance().unwrap() {
            BuildStep::Resolve(pending) => {
                asked.push(pending.module());
                let known = references.get(&pending.module()).cloned().unwrap_or_default();
                builder = pending.resolve(&known);
            }
            BuildStep::Complete(_) => break,
        }
    }
    assert_eq!(asked, vec![A, C, D, B]);
}

#[test]
fn build_records_the_entries() {
    let references = table(&[(A, vec![plain(B)]), (C, vec![plain(B)])]);
    let graph = drive(SingleModuleGraph::new_with_entries(vec![A, C]), &references);
    let first = graph.get_entry(A).unwrap();
    let second = graph.get_entry(C).unwrap();
    assert_eq!(graph.module_at(first), A);
    assert_eq!(graph.module_at(second), C);
    assert_eq!(graph.get_entry(B), Err(GraphError::EntryNotFound));
}

#[test]
fn root_is_put_above_the_entries() {
    let references = table(&[(A, vec![plain(B)]), (C, vec![])]);
    let graph =
        drive(SingleModuleGraph::new_with_entries_visited(E, vec![A, C], HashSet::new()), &references);
    assert_eq!(graph.enumerate_nodes(), vec![(0, C), (1, A), (2, B), (3, E)]);
    assert_eq!(graph.get_entry(E), Ok(3));
    assert_eq!(sorted(graph.traverse_from_entry(E).unwrap()), vec![A, B, C, E]);
    assert_eq!(
        edges_shown(&graph, E, &[]),
        vec![(None, E), (Some(E), C), (Some(E), A), (Some(A), B)]
    );
}

#[test]
fn root_that_the_walk_reaches_gets_no_second_node() {
    let references = table(&[(A, vec![plain(E)])]);
    let graph =
        drive(SingleModuleGraph::new_with_entries_visited(E, vec![A], HashSet::new()), &references);
    assert_eq!(sorted(modules_of(&graph)), vec![A, E]);
    assert_eq!(graph.get_entry(E), Err(GraphError::EntryNotFound));
    assert!(graph.get_entry(A).is_ok());
}

#[test]
fn visited_modules_get_no_node() {
    let references = table(&[(A, vec![plain(B), plain(C)]), (B, vec![plain(D)]), (C, vec![])]);
    let visited: HashSet<u64> = [B, D].into_iter().collect();
    let graph = drive(SingleModuleGraph::new_inner(None, vec![A], visited), &references);
    assert_eq!(sorted(modules_of(&graph)), vec![A, C]);
}

#[test]
fn visited_entry_is_kept() {
    let references = table(&[(A, vec![plain(B)]), (B, vec![plain(A), plain(C)])]);
    let visited: HashSet<u64> = [A, C].into_iter().collect();
    let graph = drive(SingleModuleGraph::new_inner(None, vec![A], visited), &references);
    assert_eq!(sorted(modules_of(&graph)), vec![A, B]);
    assert_eq!(edges_shown(&graph, A, &[]), vec![(None, A), (Some(A), B)]);
}

#[test]
fn second_build_holds_nothing_of_the_first_but_its_entry() {
    let references = table(&[
        (A, vec![plain(B), plain(C)]),
        (B, vec![plain(D)]),
        (C, vec![plain(D)]),
        (E, vec![plain(B), plain(F)]),
        (F, vec![plain(C)]),
    ]);
    let first = drive(SingleModuleGraph::new_with_entries(vec![A]), &references);
    let placed: HashSet<u64> = modules_of(&first).into_iter().collect();
    assert_eq!(placed, [A, B, C, D].into_iter().collect());
    let second = drive(SingleModuleGraph::new_inner(None, vec![E, B], placed.clone()), &references);
    let held = modules_of(&second);
    assert_eq!(sorted(held.clone()), vec![B, E, F]);
    for module in held {
        assert!(!placed.contains(&module) || module == B);
    }
}

#[test]
fn references_that_repeat_give_one_edge() {
    let references = table(&[(A, vec![plain(B), plain(B), plain(C), plain(B)])]);
    let graph = drive(SingleModuleGraph::new_with_entries(vec![A]), &references);
    assert_eq!(
        edges_shown(&graph, A, &[]),
        vec![(None, A), (Some(A), B), (Some(A), C)]
    );
}

#[test]
fn references_are_walked_in_their_order() {
    let references = table(&[(
        A,
        vec![plain(D), with_extension(E, "map"), plain(B), plain(D), plain(C), plain(B)],
    )]);
    let graph = drive(SingleModuleGraph::new_with_entries(vec![A]), &references);
    assert_eq!(graph.enumerate_nodes(), vec![(0, A), (1, C), (2, B), (3, D)]);
    assert_eq!(
        edges_shown(&graph, A, &[]),
        vec![(None, A), (Some(A), D), (Some(A), B), (Some(A), C)]
    );
}

#[test]
fn traversal_keeps_the_modules_that_data_knows() {
    let references = table(&[(A, vec![plain(B), plain(C)]), (C, vec![plain(D)]), (E, vec![])]);
    let graph = drive(SingleModuleGraph::new_with_entries(vec![A, E]), &references);
    let mut data: OrderedMap<u64, u64> = OrderedMap::new();
    data.insert(E, 50);
    data.insert(B, 20);
    data.insert(D, 40);
    data.insert(F, 60);
    assert_eq!(graph.traverse_from_entry(A), Ok(vec![A, C, D, B]));
    assert_eq!(graph.traverse_known_from_entry(A, &data), Ok(vec![D, B]));
    assert_eq!(graph.traverse_known_from_entry(E, &data), Ok(vec![E]));
    assert_eq!(graph.traverse_known_from_entry(B, &data), Err(GraphError::EntryNotFound));
    let empty: OrderedMap<u64, u64> = OrderedMap::new();
    assert_eq!(graph.traverse_known_from_entry(A, &empty), Ok(vec![]));
}

#[test]
fn edges_from_different_parents_are_kept() {
    let references = table(&[(A, vec![plain(B), plain(C)]), (B, vec![plain(C)])]);
    let graph = drive(SingleModuleGraph::new_with_entries(vec![A]), &references);
    let shown = edges_shown(&graph, A, &[]);
    assert_eq!(shown.iter().filter(|edge| edge.1 == C).count(), 2);
    assert!(shown.contains(&(Some(A), C)));
    assert!(shown.contains(&(Some(B), C)));
}

#[test]
fn traversal_visits_what_the_entry_reaches_once() {
    let references = table(&[
        (A, vec![plain(B), plain(C)]),
        (B, vec![plain(D)]),
        (C, vec![plain(D), plain(A)]),
        (E, vec![plain(D), plain(F)]),
    ]);
    let graph = drive(SingleModuleGraph::new_with_entries(vec![A, E]), &references);
    let from_a = graph.traverse_from_entry(A).unwrap();
    assert_eq!(from_a[0], A);
    assert_eq!(sorted(from_a), vec![A, B, C, D]);
    let from_e = graph.traverse_from_entry(E).unwrap();
    assert_eq!(from_e[0], E);
    assert_eq!(sorted(from_e), vec![D, E, F]);
}

#[test]
fn traversal_follows_the_depth_first_search() {
    let references = table(&[(A, vec![plain(B), plain(C)]), (C, vec![plain(D)])]);
    let graph = drive(SingleModuleGraph::new_with_entries(vec![A]), &references);
    assert_eq!(graph.traverse_from_entry(A), Ok(vec![A, C, D, B]));
}

#[test]
fn traversal_of_an_unknown_entry_fails() {
    let references = table(&[(A, vec![plain(B)])]);
    let graph = drive(SingleModuleGraph::new_with_entries(vec![A]), &references);
    assert_eq!(graph.traverse_from_entry(B), Err(GraphError::EntryNotFound));
    assert_eq!(graph.traverse_from_entry(F), Err(GraphError::EntryNotFound));
    assert_eq!(
        graph.traverse_edges_from_entry(B).err(),
        Some(GraphError::EntryNotFound)
    );
}

#[test]
fn edge_walk_shows_the_entry_first() {
    let references = table(&[(A, vec![plain(B)])]);
    let graph = drive(SingleModuleGraph::new_with_entries(vec![A]), &references);
    let mut walk = graph.traverse_edges_from_entry(A).ok().unwrap();
    assert_eq!(walk.next(GraphTraversalAction::Skip), Some((None, A)));
    assert_eq!(walk.next(GraphTraversalAction::Skip), Some((Some(A), B)));
    assert_eq!(walk.next(GraphTraversalAction::Skip), None);
    assert_eq!(walk.next(GraphTraversalAction::Continue), None);
}

#[test]
fn edge_walk_shows_each_edge_of_what_it_descends_into() {
    let references = table(&[
        (A, vec![plain(B), plain(C)]),
        (B, vec![plain(D)]),
        (C, vec![plain(D)]),
        (D, vec![plain(A)]),
    ]);
    let graph = drive(SingleModuleGraph::new_with_entries(vec![A]), &references);
    assert_eq!(
        edges_shown(&graph, A, &[]),
        vec![
            (None, A),
            (Some(A), B),
            (Some(A), C),
            (Some(C), D),
            (Some(D), A),
            (Some(B), D),
        ]
    );
}

#[test]
fn edge_walk_does_not_descend_after_skip() {
    let references = table(&[
        (A, vec![plain(B), plain(C)]),
        (B, vec![plain(D)]),
        (C, vec![plain(E)]),
    ]);
    let graph = drive(SingleModuleGraph::new_with_entries(vec![A]), &references);
    let shown = edges_shown(&graph, A, &[B]);
    assert_eq!(shown, vec![(None, A), (Some(A), B), (Some(A), C), (Some(C), E)]);
    assert!(shown.iter().all(|edge| edge.0 != Some(B)));
}

#[test]
fn edge_walk_descends_where_another_edge_was_not_skipped() {
    let references = table(&[(A, vec![plain(B), plain(C)]), (C, vec![plain(B)]), (B, vec![plain(D)])]);
    let graph = drive(SingleModuleGraph::new_with_entries(vec![A]), &references);
    let mut walk = graph.traverse_edges_from_entry(A).ok().unwrap();
    let mut shown = Vec::new();
    let mut action = GraphTraversalAction::Continue;
    while let Some((parent, child)) = walk.next(action) {
        shown.push((parent, child));
        action = if parent == Some(A) && child == B {
            GraphTraversalAction::Skip
        } else {
            GraphTraversalAction::Continue
        };
    }
    assert!(shown.contains(&(Some(A), B)));
    assert!(shown.contains(&(Some(C), B)));
    assert!(shown.contains(&(Some(B), D)));
}

#[test]
fn edge_walk_ignores_the_answer_to_the_entry() {
    let references = table(&[(A, vec![plain(B)])]);
    let graph = drive(SingleModuleGraph::new_with_entries(vec![A]), &references);
    assert_eq!(edges_shown(&graph, A, &[A]), vec![(None, A), (Some(A), B)]);
}

#[test]
fn edge_walk_follows_a_loop_once() {
    let references = table(&[(A, vec![plain(A), plain(B)]), (B, vec![plain(A)])]);
    let graph = drive(SingleModuleGraph::new_with_entries(vec![A]), &references);
    assert_eq!(
        edges_shown(&graph, A, &[]),
        vec![(None, A), (Some(A), A), (Some(A), B), (Some(B), A)]
    );
}
