//! Building a module graph.
//!
//! A graph is built by a depth-first walk from the entries that never recurses:
//! the work still to do waits on a stack. What a module refers to is not known
//! here, so the walk is a state machine. [`GraphBuilder::advance`] walks until
//! it has made a node for a module it has not met before and hands that module
//! out; the caller answers with the module's references
//! ([`PendingReferences::resolve`]), and the walk goes on. When the stack is
//! empty, `advance` hands out the finished graph.

use crate::digraph::edges_within;
use crate::digraph::graph_add_edge;
use crate::digraph::graph_add_node;
use crate::digraph::graph_edge_count;
use crate::digraph::graph_edges;
use crate::digraph::graph_new;
use crate::digraph::graph_node_count;
use crate::digraph::graph_weights;
use crate::digraph::ModuleDiGraph;
use crate::digraph::GRAPH_LIMIT;
use crate::module_graph::GraphError;
use crate::module_graph::ModuleId;
use crate::module_graph::ModuleReference;
use crate::module_graph::SingleModuleGraph;
use crate::reach::lemma_reachable_closed;
use crate::reach::lemma_reachable_mono;
use crate::reach::lemma_reachable_source;
use crate::reach::lemma_reachable_step;
use crate::reach::reachable;
use std::collections::HashMap;
use std::collections::HashSet;
use vstd::prelude::*;

verus! {

/// What was answered so far: for each module whose references were asked for,
/// the references that came back.
pub type Supplied = Map<ModuleId, Seq<ModuleReference>>;

/// An item of work: a module, and the node of the module that referred to it
/// (none for an entry).
pub type WorkItem = (Option<usize>, ModuleId);

/// The modules that `references` lead to, source maps left out.
pub open spec fn targets(references: Seq<ModuleReference>) -> Set<ModuleId> {
    Set::new(
        |m: ModuleId|
            exists|i: int|
                0 <= i < references.len() && !(#[trigger] references[i]).is_source_map()
                    && references[i].module == m,
    )
}

/// `parent` refers to `child`, not through a source map, and `child` was not
/// placed in an earlier graph.
pub open spec fn refers(
    supplied: Supplied,
    visited: Set<ModuleId>,
    parent: ModuleId,
    child: ModuleId,
) -> bool {
    &&& supplied.contains_key(parent)
    &&& targets(supplied[parent]).contains(child)
    &&& !visited.contains(child)
}

/// [`refers`] as a relation between modules.
pub open spec fn refers_rel(supplied: Supplied, visited: Set<ModuleId>) -> spec_fn(
    ModuleId,
    ModuleId,
) -> bool {
    |parent: ModuleId, child: ModuleId| refers(supplied, visited, parent, child)
}

/// Some edge leads from the node `source` to the node that holds `module`.
pub open spec fn has_edge(
    nodes: Seq<ModuleId>,
    edges: Seq<(int, int)>,
    source: int,
    module: ModuleId,
) -> bool {
    exists|k: int|
        0 <= k < edges.len() && (#[trigger] edges[k]).0 == source && 0 <= edges[k].1 < nodes.len()
            && nodes[edges[k].1] == module
}

/// `index` finds each node by its module.
pub open spec fn index_matches(nodes: Seq<ModuleId>, index: Map<ModuleId, usize>) -> bool {
    &&& forall|m: ModuleId| #[trigger]
        index.contains_key(m) ==> index[m] < nodes.len() && nodes[index[m] as int] == m
    &&& forall|i: int| 0 <= i < nodes.len() ==> index.contains_key(#[trigger] nodes[i])
}

/// References were supplied for exactly the modules of the nodes, but for the
/// node that still waits for them.
pub open spec fn supplied_matches(
    nodes: Seq<ModuleId>,
    supplied: Supplied,
    pending: Option<int>,
) -> bool {
    &&& forall|m: ModuleId| #[trigger] supplied.contains_key(m) ==> nodes.contains(m)
    &&& forall|i: int|
        0 <= i < nodes.len() ==> (supplied.contains_key(#[trigger] nodes[i]) <==> pending != Some(
            i,
        ))
    &&& pending matches Some(p) ==> 0 <= p < nodes.len()
}

/// Each item of work comes from an entry or from a reference that was
/// supplied for its parent.
pub open spec fn stack_valid(
    nodes: Seq<ModuleId>,
    stack: Seq<WorkItem>,
    entries: Seq<ModuleId>,
    supplied: Supplied,
) -> bool {
    forall|k: int|
        0 <= k < stack.len() ==> match (#[trigger] stack[k]).0 {
            Some(p) => p < nodes.len() && supplied.contains_key(nodes[p as int]) && targets(
                supplied[nodes[p as int]],
            ).contains(stack[k].1),
            None => entries.contains(stack[k].1),
        }
}

/// No item with a parent waits twice, and none waits for an edge that is
/// already there.
pub open spec fn stack_fresh(
    nodes: Seq<ModuleId>,
    edges: Seq<(int, int)>,
    stack: Seq<WorkItem>,
) -> bool {
    &&& forall|j: int, k: int|
        0 <= j < k < stack.len() && (#[trigger] stack[j]).0 is Some ==> stack[j]
            != #[trigger] stack[k]
    &&& forall|k: int|
        0 <= k < stack.len() ==> match (#[trigger] stack[k]).0 {
            Some(p) => !has_edge(nodes, edges, p as int, stack[k].1),
            None => true,
        }
}

/// Each edge stands for a reference.
pub open spec fn edges_sound(
    nodes: Seq<ModuleId>,
    edges: Seq<(int, int)>,
    supplied: Supplied,
    visited: Set<ModuleId>,
) -> bool {
    forall|k: int|
        0 <= k < edges.len() ==> refers(
            supplied,
            visited,
            nodes[(#[trigger] edges[k]).0],
            nodes[edges[k].1],
        )
}

/// Each node's module is reachable from an entry, and is an entry where it
/// was placed in an earlier graph.
pub open spec fn nodes_sound(
    nodes: Seq<ModuleId>,
    entries: Seq<ModuleId>,
    supplied: Supplied,
    visited: Set<ModuleId>,
) -> bool {
    forall|i: int|
        0 <= i < nodes.len() ==> reachable(
            refers_rel(supplied, visited),
            entries.to_set(),
            #[trigger] nodes[i],
        ) && (visited.contains(nodes[i]) ==> entries.contains(nodes[i]))
}

/// Each entry has its node or waits on the stack.
pub open spec fn entries_covered(
    nodes: Seq<ModuleId>,
    stack: Seq<WorkItem>,
    entries: Seq<ModuleId>,
) -> bool {
    forall|k: int|
        0 <= k < entries.len() ==> nodes.contains(#[trigger] entries[k]) || stack.contains(
            (None, entries[k]),
        )
}

/// Each reference that was supplied has its edge or waits on the stack.
pub open spec fn references_covered(
    nodes: Seq<ModuleId>,
    edges: Seq<(int, int)>,
    stack: Seq<WorkItem>,
    supplied: Supplied,
    visited: Set<ModuleId>,
) -> bool {
    forall|i: int, c: ModuleId|
        0 <= i < nodes.len() && #[trigger] refers(supplied, visited, nodes[i], c) ==> has_edge(
            nodes,
            edges,
            i,
            c,
        ) || stack.contains((Some(i as usize), c))
}

/// What holds of a walk between any two of its steps. `pending` is the node
/// whose references have been asked for and not yet supplied.
pub open spec fn walk_inv(
    nodes: Seq<ModuleId>,
    edges: Seq<(int, int)>,
    index: Map<ModuleId, usize>,
    stack: Seq<WorkItem>,
    entries: Seq<ModuleId>,
    visited: Set<ModuleId>,
    supplied: Supplied,
    pending: Option<int>,
) -> bool {
    &&& nodes.no_duplicates()
    &&& edges.no_duplicates()
    &&& edges_within(edges, nodes.len() as int)
    &&& index_matches(nodes, index)
    &&& supplied_matches(nodes, supplied, pending)
    &&& stack_valid(nodes, stack, entries, supplied)
    &&& stack_fresh(nodes, edges, stack)
    &&& edges_sound(nodes, edges, supplied, visited)
    &&& nodes_sound(nodes, entries, supplied, visited)
    &&& entries_covered(nodes, stack, entries)
    &&& references_covered(nodes, edges, stack, supplied, visited)
}

/// The walk has room for the nodes and edges that its stack, and the root
/// with its edges to the entries, can still ask for.
pub open spec fn room_left(nodes: int, edges: int, stack: int, entries: int) -> bool {
    nodes + stack < GRAPH_LIMIT && edges + stack + entries < GRAPH_LIMIT
}

/// Dropping the next item keeps the invariant where the item has a parent and
/// its module was placed in an earlier graph.
proof fn lemma_drop_visited(
    nodes: Seq<ModuleId>,
    edges: Seq<(int, int)>,
    index: Map<ModuleId, usize>,
    stack: Seq<WorkItem>,
    entries: Seq<ModuleId>,
    visited: Set<ModuleId>,
    supplied: Supplied,
)
    requires
        walk_inv(nodes, edges, index, stack, entries, visited, supplied, None),
        stack.len() > 0,
        stack.last().0 is Some,
        visited.contains(stack.last().1),
    ensures
        walk_inv(nodes, edges, index, stack.drop_last(), entries, visited, supplied, None),
{
    let rest = stack.drop_last();
    assert forall|k: int| 0 <= k < entries.len() implies nodes.contains(#[trigger] entries[k])
        || rest.contains((None, entries[k])) by {
        if !nodes.contains(entries[k]) {
            let j = choose|j: int| 0 <= j < stack.len() && stack[j] == (None::<usize>, entries[k]);
            assert(rest[j] == stack[j]);
        }
    }
    assert forall|i: int, c: ModuleId|
        0 <= i < nodes.len() && #[trigger] refers(supplied, visited, nodes[i], c) implies has_edge(
        nodes,
        edges,
        i,
        c,
    ) || rest.contains((Some(i as usize), c)) by {
        if !has_edge(nodes, edges, i, c) {
            let j = choose|j: int| 0 <= j < stack.len() && stack[j] == (Some(i as usize), c);
            assert(rest[j] == stack[j]);
        }
    }
    assert forall|k: int| 0 <= k < rest.len() implies match (#[trigger] rest[k]).0 {
        Some(p) => !has_edge(nodes, edges, p as int, rest[k].1),
        None => true,
    } by {
        assert(rest[k] == stack[k]);
    }
    assert forall|j: int, k: int|
        0 <= j < k < rest.len() && (#[trigger] rest[j]).0 is Some implies rest[j]
        != #[trigger] rest[k] by {
        assert(rest[j] == stack[j] && rest[k] == stack[k]);
    }
    assert forall|k: int| 0 <= k < rest.len() implies match (#[trigger] rest[k]).0 {
        Some(p) => p < nodes.len() && supplied.contains_key(nodes[p as int]) && targets(
            supplied[nodes[p as int]],
        ).contains(rest[k].1),
        None => entries.contains(rest[k].1),
    } by {
        assert(rest[k] == stack[k]);
    }
}

/// The edges after the next item was linked to the node `target`.
pub open spec fn linked(edges: Seq<(int, int)>, parent: Option<usize>, target: int) -> Seq<
    (int, int),
> {
    match parent {
        Some(p) => edges.push((p as int, target)),
        None => edges,
    }
}

/// Linking the next item to the node that already holds its module keeps the
/// invariant.
proof fn lemma_link_known(
    nodes: Seq<ModuleId>,
    edges: Seq<(int, int)>,
    index: Map<ModuleId, usize>,
    stack: Seq<WorkItem>,
    entries: Seq<ModuleId>,
    visited: Set<ModuleId>,
    supplied: Supplied,
)
    requires
        walk_inv(nodes, edges, index, stack, entries, visited, supplied, None),
        stack.len() > 0,
        index.contains_key(stack.last().1),
        stack.last().0 is Some ==> !visited.contains(stack.last().1),
    ensures
        walk_inv(
            nodes,
            linked(edges, stack.last().0, index[stack.last().1] as int),
            index,
            stack.drop_last(),
            entries,
            visited,
            supplied,
            None,
        ),
{
    let rest = stack.drop_last();
    let parent = stack.last().0;
    let module = stack.last().1;
    let target = index[module] as int;
    let after = linked(edges, parent, target);
    let last = stack.len() - 1;
    assert(nodes[target] == module);
    assert(stack[last] == (parent, module));
    assert forall|k: int| 0 <= k < edges.len() implies after[k] == edges[k] by {}
    if parent is Some {
        let p = parent.unwrap() as int;
        assert(after[edges.len() as int] == (p, target));
        assert(!has_edge(nodes, edges, p, module));
        assert forall|k: int| 0 <= k < edges.len() implies edges[k] != (p, target) by {
            if edges[k] == (p, target) {
                assert(edges[k].0 == p && nodes[edges[k].1] == module);
            }
        }
        assert(after.no_duplicates());
        assert(refers(supplied, visited, nodes[p], module));
    }
    assert(edges_within(after, nodes.len() as int));
    assert(edges_sound(nodes, after, supplied, visited));
    assert forall|k: int| 0 <= k < entries.len() implies nodes.contains(#[trigger] entries[k])
        || rest.contains((None, entries[k])) by {
        if !nodes.contains(entries[k]) {
            let j = choose|j: int| 0 <= j < stack.len() && stack[j] == (None::<usize>, entries[k]);
            if j == last {
                assert(nodes[target] == entries[k]);
            } else {
                assert(rest[j] == stack[j]);
            }
        }
    }
    assert forall|i: int, c: ModuleId|
        0 <= i < nodes.len() && #[trigger] refers(supplied, visited, nodes[i], c) implies has_edge(
        nodes,
        after,
        i,
        c,
    ) || rest.contains((Some(i as usize), c)) by {
        if has_edge(nodes, edges, i, c) {
            let k = choose|k: int|
                0 <= k < edges.len() && (#[trigger] edges[k]).0 == i && 0 <= edges[k].1
                    < nodes.len() && nodes[edges[k].1] == c;
            assert(after[k] == edges[k]);
        } else {
            let j = choose|j: int| 0 <= j < stack.len() && stack[j] == (Some(i as usize), c);
            if j == last {
                assert(after[edges.len() as int] == (i, target));
            } else {
                assert(rest[j] == stack[j]);
            }
        }
    }
    assert forall|k: int| 0 <= k < rest.len() implies match (#[trigger] rest[k]).0 {
        Some(p) => !has_edge(nodes, after, p as int, rest[k].1),
        None => true,
    } by {
        assert(rest[k] == stack[k]);
        if rest[k].0 is Some {
            let p = rest[k].0.unwrap() as int;
            if has_edge(nodes, after, p, rest[k].1) {
                let e = choose|e: int|
                    0 <= e < after.len() && (#[trigger] after[e]).0 == p && 0 <= after[e].1
                        < nodes.len() && nodes[after[e].1] == rest[k].1;
                if e < edges.len() {
                    assert(edges[e] == after[e]);
                    assert(has_edge(nodes, edges, p, rest[k].1));
                } else {
                    assert(stack[k] == stack[last]);
                }
            }
        }
    }
    assert forall|j: int, k: int|
        0 <= j < k < rest.len() && (#[trigger] rest[j]).0 is Some implies rest[j]
        != #[trigger] rest[k] by {
        assert(rest[j] == stack[j] && rest[k] == stack[k]);
    }
    assert forall|k: int| 0 <= k < rest.len() implies match (#[trigger] rest[k]).0 {
        Some(p) => p < nodes.len() && supplied.contains_key(nodes[p as int]) && targets(
            supplied[nodes[p as int]],
        ).contains(rest[k].1),
        None => entries.contains(rest[k].1),
    } by {
        assert(rest[k] == stack[k]);
    }
}

/// Making a node for the module of the next item, and linking the item to
/// it, keeps the invariant; the new node then waits for its references.
proof fn lemma_new_node(
    nodes: Seq<ModuleId>,
    edges: Seq<(int, int)>,
    index: Map<ModuleId, usize>,
    stack: Seq<WorkItem>,
    entries: Seq<ModuleId>,
    visited: Set<ModuleId>,
    supplied: Supplied,
)
    requires
        walk_inv(nodes, edges, index, stack, entries, visited, supplied, None),
        stack.len() > 0,
        !index.contains_key(stack.last().1),
        stack.last().0 is Some ==> !visited.contains(stack.last().1),
        nodes.len() < GRAPH_LIMIT,
    ensures
        walk_inv(
            nodes.push(stack.last().1),
            linked(edges, stack.last().0, nodes.len() as int),
            index.insert(stack.last().1, nodes.len() as usize),
            stack.drop_last(),
            entries,
            visited,
            supplied,
            Some(nodes.len() as int),
        ),
{
    let rest = stack.drop_last();
    let parent = stack.last().0;
    let module = stack.last().1;
    let target = nodes.len() as int;
    let after = linked(edges, parent, target);
    let grown = nodes.push(module);
    let found = index.insert(module, nodes.len() as usize);
    let last = stack.len() - 1;
    let rel = refers_rel(supplied, visited);
    assert(stack[last] == (parent, module));
    assert forall|i: int| 0 <= i < nodes.len() implies nodes[i] != module && grown[i]
        == nodes[i] by {
        assert(index.contains_key(nodes[i]));
    }
    assert(grown[target] == module);
    assert(grown.no_duplicates());
    assert(!supplied.contains_key(module)) by {
        if supplied.contains_key(module) {
            assert(nodes.contains(module));
        }
    }
    assert forall|k: int| 0 <= k < edges.len() implies after[k] == edges[k] by {}
    assert forall|m: ModuleId| #[trigger] found.contains_key(m) implies found[m] < grown.len()
        && grown[found[m] as int] == m by {
        if m != module {
            assert(index.contains_key(m));
        }
    }
    assert forall|i: int| 0 <= i < grown.len() implies found.contains_key(
        #[trigger] grown[i],
    ) by {
        if i < nodes.len() {
            assert(index.contains_key(nodes[i]));
        }
    }
    assert forall|m: ModuleId| #[trigger] supplied.contains_key(m) implies grown.contains(m) by {
        let i = choose|i: int| 0 <= i < nodes.len() && nodes[i] == m;
        assert(grown[i] == m);
    }
    assert(supplied_matches(grown, supplied, Some(target)));
    if parent is Some {
        let p = parent.unwrap() as int;
        assert(after[edges.len() as int] == (p, target));
        assert forall|k: int| 0 <= k < edges.len() implies edges[k] != (p, target) by {}
        assert(after.no_duplicates());
        assert(refers(supplied, visited, nodes[p], module));
        assert(rel(nodes[p], module));
        lemma_reachable_step(rel, entries.to_set(), nodes[p], module);
    } else {
        assert(entries.to_set().contains(module));
        lemma_reachable_source(rel, entries.to_set(), module);
    }
    assert(edges_within(after, grown.len() as int));
    assert forall|k: int| 0 <= k < after.len() implies refers(
        supplied,
        visited,
        grown[(#[trigger] after[k]).0],
        grown[after[k].1],
    ) by {
        if k < edges.len() {
            assert(after[k] == edges[k]);
        }
    }
    assert(nodes_sound(grown, entries, supplied, visited));
    assert forall|k: int| 0 <= k < entries.len() implies grown.contains(#[trigger] entries[k])
        || rest.contains((None, entries[k])) by {
        if nodes.contains(entries[k]) {
            let i = choose|i: int| 0 <= i < nodes.len() && nodes[i] == entries[k];
            assert(grown[i] == entries[k]);
        } else {
            let j = choose|j: int| 0 <= j < stack.len() && stack[j] == (None::<usize>, entries[k]);
            if j == last {
                assert(grown[target] == entries[k]);
            } else {
                assert(rest[j] == stack[j]);
            }
        }
    }
    assert forall|i: int, c: ModuleId|
        0 <= i < grown.len() && #[trigger] refers(supplied, visited, grown[i], c) implies has_edge(
        grown,
        after,
        i,
        c,
    ) || rest.contains((Some(i as usize), c)) by {
        assert(i < nodes.len());
        if has_edge(nodes, edges, i, c) {
            let k = choose|k: int|
                0 <= k < edges.len() && (#[trigger] edges[k]).0 == i && 0 <= edges[k].1
                    < nodes.len() && nodes[edges[k].1] == c;
            assert(after[k] == edges[k]);
            assert(grown[after[k].1] == c);
        } else {
            let j = choose|j: int| 0 <= j < stack.len() && stack[j] == (Some(i as usize), c);
            if j == last {
                assert(after[edges.len() as int] == (i, target));
            } else {
                assert(rest[j] == stack[j]);
            }
        }
    }
    assert forall|k: int| 0 <= k < rest.len() implies match (#[trigger] rest[k]).0 {
        Some(p) => !has_edge(grown, after, p as int, rest[k].1),
        None => true,
    } by {
        assert(rest[k] == stack[k]);
        if rest[k].0 is Some {
            let p = rest[k].0.unwrap() as int;
            if has_edge(grown, after, p, rest[k].1) {
                let e = choose|e: int|
                    0 <= e < after.len() && (#[trigger] after[e]).0 == p && 0 <= after[e].1
                        < grown.len() && grown[after[e].1] == rest[k].1;
                if e < edges.len() {
                    assert(edges[e] == after[e]);
                    assert(has_edge(nodes, edges, p, rest[k].1));
                } else {
                    assert(stack[k] == stack[last]);
                }
            }
        }
    }
    assert forall|j: int, k: int|
        0 <= j < k < rest.len() && (#[trigger] rest[j]).0 is Some implies rest[j]
        != #[trigger] rest[k] by {
        assert(rest[j] == stack[j] && rest[k] == stack[k]);
    }
    assert forall|k: int| 0 <= k < rest.len() implies match (#[trigger] rest[k]).0 {
        Some(p) => p < grown.len() && supplied.contains_key(grown[p as int]) && targets(
            supplied[grown[p as int]],
        ).contains(rest[k].1),
        None => entries.contains(rest[k].1),
    } by {
        assert(rest[k] == stack[k]);
    }
}

/// The items that are pushed for the references of the node `node`: one for
/// each module in `kept`.
pub open spec fn items_of(node: usize, kept: Seq<ModuleId>) -> Seq<WorkItem> {
    kept.map_values(|c: ModuleId| (Some(node), c))
}

/// Taking the references of the waiting node, and pushing one item for each
/// module they lead to, keeps the invariant; no node waits any more.
proof fn lemma_resolve(
    nodes: Seq<ModuleId>,
    edges: Seq<(int, int)>,
    index: Map<ModuleId, usize>,
    stack: Seq<WorkItem>,
    entries: Seq<ModuleId>,
    visited: Set<ModuleId>,
    supplied: Supplied,
    node: usize,
    references: Seq<ModuleReference>,
    kept: Seq<ModuleId>,
)
    requires
        walk_inv(nodes, edges, index, stack, entries, visited, supplied, Some(node as int)),
        kept.no_duplicates(),
        forall|c: ModuleId| kept.contains(c) <==> #[trigger] targets(references).contains(c),
    ensures
        walk_inv(
            nodes,
            edges,
            index,
            stack + items_of(node, kept),
            entries,
            visited,
            supplied.insert(nodes[node as int], references),
            None,
        ),
{
    let module = nodes[node as int];
    let pushed = items_of(node, kept);
    let after = stack + pushed;
    let answered = supplied.insert(module, references);
    let rel = refers_rel(supplied, visited);
    let wider = refers_rel(answered, visited);
    assert(!supplied.contains_key(module));
    assert forall|k: int| 0 <= k < stack.len() implies after[k] == stack[k] by {}
    assert forall|k: int| 0 <= k < pushed.len() implies after[stack.len() + k] == (
        Some(node),
        kept[k],
    ) by {}
    assert forall|m: ModuleId| #[trigger] answered.contains_key(m) implies nodes.contains(m) by {
        if m == module {
            assert(nodes[node as int] == m);
        }
    }
    assert forall|i: int| 0 <= i < nodes.len() implies answered.contains_key(
        #[trigger] nodes[i],
    ) by {
        if i != node {
            assert(supplied.contains_key(nodes[i]));
        }
    }
    assert forall|a: ModuleId, b: ModuleId| #[trigger] rel(a, b) implies wider(a, b) by {
        assert(refers(supplied, visited, a, b));
        assert(answered[a] == supplied[a]);
        assert(refers(answered, visited, a, b));
    }
    assert forall|i: int| 0 <= i < nodes.len() implies reachable(
        wider,
        entries.to_set(),
        #[trigger] nodes[i],
    ) by {
        lemma_reachable_mono(rel, wider, entries.to_set(), entries.to_set(), nodes[i]);
    }
    assert forall|k: int| 0 <= k < edges.len() implies refers(
        answered,
        visited,
        nodes[(#[trigger] edges[k]).0],
        nodes[edges[k].1],
    ) by {
        assert(rel(nodes[edges[k].0], nodes[edges[k].1]));
    }
    assert forall|k: int| 0 <= k < after.len() implies match (#[trigger] after[k]).0 {
        Some(p) => p < nodes.len() && answered.contains_key(nodes[p as int]) && targets(
            answered[nodes[p as int]],
        ).contains(after[k].1),
        None => entries.contains(after[k].1),
    } by {
        if k < stack.len() {
            assert(after[k] == stack[k]);
            if stack[k].0 is Some {
                assert(supplied.contains_key(nodes[stack[k].0.unwrap() as int]));
            }
        } else {
            assert(after[k] == (Some(node), kept[k - stack.len()]));
            assert(kept.contains(kept[k - stack.len()]));
        }
    }
    assert forall|k: int| 0 <= k < after.len() implies match (#[trigger] after[k]).0 {
        Some(p) => !has_edge(nodes, edges, p as int, after[k].1),
        None => true,
    } by {
        if k < stack.len() {
            assert(after[k] == stack[k]);
        } else {
            if has_edge(nodes, edges, node as int, after[k].1) {
                let e = choose|e: int|
                    0 <= e < edges.len() && (#[trigger] edges[e]).0 == node as int && 0
                        <= edges[e].1 < nodes.len() && nodes[edges[e].1] == after[k].1;
                assert(refers(supplied, visited, nodes[edges[e].0], nodes[edges[e].1]));
            }
        }
    }
    assert forall|j: int, k: int|
        0 <= j < k < after.len() && (#[trigger] after[j]).0 is Some implies after[j]
        != #[trigger] after[k] by {
        if k < stack.len() {
            assert(after[j] == stack[j] && after[k] == stack[k]);
        } else if j < stack.len() {
            assert(after[j] == stack[j]);
            assert(supplied.contains_key(nodes[stack[j].0.unwrap() as int]));
            assert(after[k] == (Some(node), kept[k - stack.len()]));
        } else {
            assert(after[j] == (Some(node), kept[j - stack.len()]));
            assert(after[k] == (Some(node), kept[k - stack.len()]));
        }
    }
    assert forall|k: int| 0 <= k < entries.len() implies nodes.contains(#[trigger] entries[k])
        || after.contains((None, entries[k])) by {
        if !nodes.contains(entries[k]) {
            let j = choose|j: int| 0 <= j < stack.len() && stack[j] == (None::<usize>, entries[k]);
            assert(after[j] == stack[j]);
        }
    }
    assert forall|i: int, c: ModuleId|
        0 <= i < nodes.len() && #[trigger] refers(answered, visited, nodes[i], c) implies has_edge(
        nodes,
        edges,
        i,
        c,
    ) || after.contains((Some(i as usize), c)) by {
        if i == node {
            assert(targets(references).contains(c));
            let j = choose|j: int| 0 <= j < kept.len() && kept[j] == c;
            assert(after[stack.len() + j] == (Some(node), c));
        } else {
            assert(supplied.contains_key(nodes[i]));
            assert(refers(supplied, visited, nodes[i], c));
            if !has_edge(nodes, edges, i, c) {
                let j = choose|j: int| 0 <= j < stack.len() && stack[j] == (Some(i as usize), c);
                assert(after[j] == stack[j]);
            }
        }
    }
}

/// When no work waits, the nodes hold exactly the modules that are reachable
/// from the entries, and the edges are exactly the references between them.
proof fn lemma_walk_complete(
    nodes: Seq<ModuleId>,
    edges: Seq<(int, int)>,
    index: Map<ModuleId, usize>,
    entries: Seq<ModuleId>,
    visited: Set<ModuleId>,
    supplied: Supplied,
)
    requires
        walk_inv(nodes, edges, index, Seq::<WorkItem>::empty(), entries, visited, supplied, None),
    ensures
        forall|m: ModuleId| #[trigger]
            reachable(refers_rel(supplied, visited), entries.to_set(), m) ==> nodes.contains(m),
        forall|a: int, b: int|
            0 <= a < nodes.len() && 0 <= b < nodes.len() && refers(
                supplied,
                visited,
                #[trigger] nodes[a],
                #[trigger] nodes[b],
            ) ==> edges.contains((a, b)),
{
    let rel = refers_rel(supplied, visited);
    let stack = Seq::<WorkItem>::empty();
    let inside = nodes.to_set();
    assert forall|a: ModuleId| #[trigger] entries.to_set().contains(a) implies inside.contains(
        a,
    ) by {
        let k = choose|k: int| 0 <= k < entries.len() && entries[k] == a;
        assert(nodes.contains(entries[k]) || stack.contains((None, entries[k])));
    }
    assert forall|a: ModuleId, b: ModuleId| inside.contains(a) && #[trigger] rel(
        a,
        b,
    ) implies inside.contains(b) by {
        let i = choose|i: int| 0 <= i < nodes.len() && nodes[i] == a;
        assert(refers(supplied, visited, nodes[i], b));
        assert(has_edge(nodes, edges, i, b) || stack.contains((Some(i as usize), b)));
        let k = choose|k: int|
            0 <= k < edges.len() && (#[trigger] edges[k]).0 == i && 0 <= edges[k].1 < nodes.len()
                && nodes[edges[k].1] == b;
        assert(nodes.contains(b));
    }
    assert forall|m: ModuleId| #[trigger] reachable(rel, entries.to_set(), m) implies nodes.contains(
        m,
    ) by {
        lemma_reachable_closed(rel, entries.to_set(), inside, m);
    }
    assert forall|a: int, b: int|
        0 <= a < nodes.len() && 0 <= b < nodes.len() && refers(
            supplied,
            visited,
            #[trigger] nodes[a],
            #[trigger] nodes[b],
        ) implies edges.contains((a, b)) by {
        assert(has_edge(nodes, edges, a, nodes[b]) || stack.contains((Some(a as usize), nodes[b])));
        let k = choose|k: int|
            0 <= k < edges.len() && (#[trigger] edges[k]).0 == a && 0 <= edges[k].1 < nodes.len()
                && nodes[edges[k].1] == nodes[b];
        assert(edges[k] == (a, b));
    }
}

/// The references up to and with the one at `position` lead where those
/// before it lead, and to its module where it is no source map.
proof fn lemma_targets_take(references: Seq<ModuleReference>, position: int)
    requires
        0 <= position < references.len(),
    ensures
        forall|c: ModuleId| #[trigger]
            targets(references.take(position + 1)).contains(c) <==> targets(
                references.take(position),
            ).contains(c) || (!references[position].is_source_map() && references[position].module
                == c),
{
    let shorter = references.take(position);
    let longer = references.take(position + 1);
    assert forall|c: ModuleId| #[trigger]
        targets(longer).contains(c) <==> targets(shorter).contains(c) || (
        !references[position].is_source_map() && references[position].module == c) by {
        if targets(longer).contains(c) {
            let i = choose|i: int|
                0 <= i < longer.len() && !(#[trigger] longer[i]).is_source_map() && longer[i].module
                    == c;
            if i < position {
                assert(shorter[i] == longer[i]);
            }
        }
        if targets(shorter).contains(c) {
            let i = choose|i: int|
                0 <= i < shorter.len() && !(#[trigger] shorter[i]).is_source_map()
                    && shorter[i].module == c;
            assert(longer[i] == shorter[i]);
        }
        if !references[position].is_source_map() && references[position].module == c {
            assert(longer[position] == references[position]);
        }
    }
}

/// `graph` is what a walk from `entries` builds when `supplied` is what the
/// modules refer to and `visited` holds the modules that earlier graphs have
/// placed.
///
/// The nodes of the walk come first: they hold exactly the modules that are
/// reachable from an entry, each once, and none that an earlier graph placed
/// but entries. Where `root` is given and the walk has not reached it, one
/// more node holds it. The edges of the walk come first: one for each
/// reference between two of its nodes. After them the root's edges, one to
/// each entry, in the entries' order. The graph's entries are `entries`, and
/// the root where it got a node.
pub open spec fn is_build_of(
    graph: SingleModuleGraph,
    entries: Seq<ModuleId>,
    root: Option<ModuleId>,
    visited: Set<ModuleId>,
    supplied: Supplied,
) -> bool {
    let rel = refers_rel(supplied, visited);
    let sources = entries.to_set();
    let rooted = root is Some && !reachable(rel, sources, root.unwrap());
    let walked = graph.nodes().len() - if rooted { 1int } else { 0int };
    let linked = graph.edges().len() - if rooted { entries.len() as int } else { 0int };
    let nodes = graph.nodes();
    let edges = graph.edges();
    &&& walked >= 0 && linked >= 0
    &&& forall|i: int| 0 <= i < walked ==> reachable(rel, sources, #[trigger] nodes[i])
    &&& forall|m: ModuleId| #[trigger]
        reachable(rel, sources, m) ==> exists|i: int| 0 <= i < walked && #[trigger] nodes[i] == m
    &&& forall|i: int|
        0 <= i < walked && visited.contains(#[trigger] nodes[i]) ==> entries.contains(nodes[i])
    &&& rooted ==> nodes.last() == root.unwrap()
    &&& forall|j: int, k: int| 0 <= j < k < linked ==> #[trigger] edges[j] != #[trigger] edges[k]
    &&& forall|k: int|
        0 <= k < linked ==> 0 <= (#[trigger] edges[k]).0 < walked && 0 <= edges[k].1 < walked
            && refers(supplied, visited, nodes[edges[k].0], nodes[edges[k].1])
    &&& forall|a: int, b: int|
        0 <= a < walked && 0 <= b < walked && refers(
            supplied,
            visited,
            #[trigger] nodes[a],
            #[trigger] nodes[b],
        ) ==> exists|k: int| 0 <= k < linked && #[trigger] edges[k] == (a, b)
    &&& forall|k: int|
        linked <= k < edges.len() ==> (#[trigger] edges[k]).0 == walked && 0 <= edges[k].1
            < walked && nodes[edges[k].1] == entries[k - linked]
    &&& forall|m: ModuleId| #[trigger]
        graph.entries().contains_key(m) <==> entries.contains(m) || (rooted && root == Some(m))
}

/// The modules that `references` lead to, source maps left out, each once, in
/// the order of the first reference to each.
pub open spec fn kept_targets(references: Seq<ModuleReference>) -> Seq<ModuleId>
    decreases references.len(),
{
    if references.len() == 0 {
        Seq::empty()
    } else {
        let before = kept_targets(references.drop_last());
        if references.last().is_source_map() || before.contains(references.last().module) {
            before
        } else {
            before.push(references.last().module)
        }
    }
}

/// Takes items off the top of the stack until one of them gets a new node.
/// An item with a parent whose module is in `visited` is dropped. An item
/// whose module has a node gets its edge from the parent. Any other item
/// gets a new node and its edge from the parent, and there the taking stops.
/// Gives the nodes, the edges and the stack after that, and the new node;
/// no node where the stack runs empty.
pub open spec fn settle(
    nodes: Seq<ModuleId>,
    edges: Seq<(int, int)>,
    stack: Seq<WorkItem>,
    visited: Set<ModuleId>,
) -> (Seq<ModuleId>, Seq<(int, int)>, Seq<WorkItem>, Option<int>)
    decreases stack.len(),
{
    if stack.len() == 0 {
        (nodes, edges, stack, None)
    } else if stack.last().0 is Some && visited.contains(stack.last().1) {
        settle(nodes, edges, stack.drop_last(), visited)
    } else if nodes.contains(stack.last().1) {
        settle(
            nodes,
            linked(edges, stack.last().0, nodes.index_of(stack.last().1)),
            stack.drop_last(),
            visited,
        )
    } else {
        (
            nodes.push(stack.last().1),
            linked(edges, stack.last().0, nodes.len() as int),
            stack.drop_last(),
            Some(nodes.len() as int),
        )
    }
}

/// The edges that lead from the node `above` to the nodes of `entries`, in
/// the entries' order.
pub open spec fn root_edges(nodes: Seq<ModuleId>, entries: Seq<ModuleId>, above: int) -> Seq<
    (int, int),
> {
    Seq::new(entries.len(), |k: int| (above, nodes.index_of(entries[k])))
}

/// `graph` is what a walk that ends with `nodes` and `edges` hands out: where
/// `root` is given and has no node, it gets the last node, and edges lead
/// from it to the entries, in their order.
pub open spec fn completes(
    graph: SingleModuleGraph,
    nodes: Seq<ModuleId>,
    edges: Seq<(int, int)>,
    entries: Seq<ModuleId>,
    root: Option<ModuleId>,
) -> bool {
    let rooted = root is Some && !nodes.contains(root.unwrap());
    &&& graph.nodes() == if rooted {
        nodes.push(root.unwrap())
    } else {
        nodes
    }
    &&& graph.edges() == if rooted {
        edges + root_edges(nodes, entries, nodes.len() as int)
    } else {
        edges
    }
}

/// A graph that is built without a root, and with no module placed before,
/// holds exactly the modules that are reachable from its entries, each once.
pub proof fn lemma_build_holds_what_entries_reach(
    graph: SingleModuleGraph,
    entries: Seq<ModuleId>,
    supplied: Supplied,
)
    requires
        graph.wf(),
        is_build_of(graph, entries, None, Set::empty(), supplied),
    ensures
        graph.nodes().no_duplicates(),
        forall|m: ModuleId|
            graph.contains_module(m) <==> #[trigger] reachable(
                refers_rel(supplied, Set::empty()),
                entries.to_set(),
                m,
            ),
{
    let rel = refers_rel(supplied, Set::empty());
    assert forall|m: ModuleId|
        graph.contains_module(m) <==> #[trigger] reachable(rel, entries.to_set(), m) by {
        if graph.contains_module(m) {
            let i = choose|i: int| 0 <= i < graph.nodes().len() && graph.nodes()[i] == m;
            assert(reachable(rel, entries.to_set(), graph.nodes()[i]));
        }
        if reachable(rel, entries.to_set(), m) {
            let i = choose|i: int| 0 <= i < graph.nodes().len() && #[trigger] graph.nodes()[i] == m;
            assert(graph.nodes()[i] == m);
        }
    }
}

/// A graph holds no module that an earlier graph has placed, but its own
/// entries.
pub proof fn lemma_build_leaves_out_visited(
    graph: SingleModuleGraph,
    entries: Seq<ModuleId>,
    root: Option<ModuleId>,
    visited: Set<ModuleId>,
    supplied: Supplied,
    module: ModuleId,
)
    requires
        graph.wf(),
        is_build_of(graph, entries, root, visited, supplied),
        graph.contains_module(module),
        visited.contains(module),
    ensures
        graph.entries().contains_key(module),
{
    let rel = refers_rel(supplied, visited);
    let rooted = root is Some && !reachable(rel, entries.to_set(), root.unwrap());
    let walked = graph.nodes().len() - if rooted { 1int } else { 0int };
    let i = choose|i: int| 0 <= i < graph.nodes().len() && graph.nodes()[i] == module;
    if i < walked {
        assert(visited.contains(graph.nodes()[i]));
        assert(entries.contains(graph.nodes()[i]));
    } else {
        assert(graph.nodes().last() == root.unwrap());
    }
}

/// A walk in progress that is ready to go on.
pub struct GraphBuilder {
    graph: ModuleDiGraph,
    modules: HashMap<ModuleId, usize>,
    stack: Vec<WorkItem>,
    entries: Vec<ModuleId>,
    root: Option<ModuleId>,
    visited: HashSet<ModuleId>,
    supplied: Ghost<Supplied>,
}

/// A walk in progress that waits for the references of one module.
pub struct PendingReferences {
    builder: GraphBuilder,
    node: usize,
    module: ModuleId,
}

/// What a walk hands out when it stops.
pub enum BuildStep {
    /// The references of a module are needed.
    Resolve(PendingReferences),
    /// The walk is over.
    Complete(SingleModuleGraph),
}

impl GraphBuilder {
    /// The modules of the nodes made so far, by node index.
    pub closed spec fn nodes(&self) -> Seq<ModuleId> {
        graph_weights(self.graph)
    }

    /// The edges made so far.
    pub closed spec fn edges(&self) -> Seq<(int, int)> {
        graph_edges(self.graph)
    }

    /// The node of each module that has one.
    pub closed spec fn index(&self) -> Map<ModuleId, usize> {
        self.modules@
    }

    /// The work that waits, the next item last.
    pub closed spec fn stack(&self) -> Seq<WorkItem> {
        self.stack@
    }

    /// The entries that the walk started from.
    pub closed spec fn entries(&self) -> Seq<ModuleId> {
        self.entries@
    }

    /// The module that is put above the entries when the walk is over.
    pub closed spec fn root(&self) -> Option<ModuleId> {
        self.root
    }

    /// The modules that earlier graphs have placed.
    pub closed spec fn visited(&self) -> Set<ModuleId> {
        self.visited@
    }

    /// The references that were supplied so far.
    pub closed spec fn supplied(&self) -> Supplied {
        self.supplied@
    }

    /// The invariant of a walk that is ready to go on.
    pub open spec fn wf(&self) -> bool {
        walk_inv(
            self.nodes(),
            self.edges(),
            self.index(),
            self.stack(),
            self.entries(),
            self.visited(),
            self.supplied(),
            None,
        )
    }

    /// See [`room_left`].
    pub open spec fn has_room(&self) -> bool {
        room_left(
            self.nodes().len() as int,
            self.edges().len() as int,
            self.stack().len() as int,
            self.entries().len() as int,
        )
    }

    /// A walk that has not started: every entry waits on the stack, the first
    /// one at the bottom.
    pub fn new(root: Option<ModuleId>, entries: Vec<ModuleId>, visited_modules: HashSet<ModuleId>) -> (builder: Self)
        ensures
            builder.wf(),
            builder.nodes().len() == 0,
            builder.edges().len() == 0,
            builder.stack() == entries@.map_values(|e: ModuleId| (None::<usize>, e)),
            builder.entries() == entries@,
            builder.root() == root,
            builder.visited() == visited_modules@,
            builder.supplied() == Supplied::empty(),
    {
        let graph = graph_new();
        let modules: HashMap<ModuleId, usize> = HashMap::new();
        let mut stack: Vec<WorkItem> = Vec::new();
        let mut position: usize = 0;
        while position < entries.len()
            invariant
                position <= entries.len(),
                stack@ == entries@.take(position as int).map_values(
                    |e: ModuleId| (None::<usize>, e),
                ),
            decreases entries.len() - position,
        {
            stack.push((None, entries[position]));
            position = position + 1;
            assert(stack@ =~= entries@.take(position as int).map_values(
                |e: ModuleId| (None::<usize>, e),
            ));
        }
        assert(entries@.take(position as int) =~= entries@);
        let builder = GraphBuilder {
            graph,
            modules,
            stack,
            entries,
            root,
            visited: visited_modules,
            supplied: Ghost(Supplied::empty()),
        };
        proof {
            assert forall|k: int| 0 <= k < builder.entries().len() implies builder.stack().contains(
                (None, #[trigger] builder.entries()[k]),
            ) by {
                assert(builder.stack()[k] == (None::<usize>, builder.entries()[k]));
            }
            assert forall|k: int| 0 <= k < builder.stack().len() implies builder.entries().contains(
                (#[trigger] builder.stack()[k]).1,
            ) by {
                assert(builder.entries()[k] == builder.stack()[k].1);
            }
        }
        builder
    }

    /// Walks on. Items are taken from the top of the stack. An item with a
    /// parent whose module an earlier graph has placed is dropped. An item
    /// whose module has a node gets its edge from the parent. Any other item
    /// gets a new node, and its edge from the parent, and the walk stops to
    /// ask for the references of the item's module. When no item is left the
    /// root is put above the entries, where one was given and has no node yet,
    /// and the graph is handed out.
    ///
    /// Nothing is done, and the error returned, where the graph might not
    /// hold what the items on the stack can still ask for.
    pub fn advance(self) -> (step: Result<BuildStep, GraphError>)
        requires
            self.wf(),
        ensures
            step is Err <==> !self.has_room(),
            match step {
                Ok(BuildStep::Resolve(pending)) => {
                    &&& pending.wf()
                    &&& pending.entries() == self.entries()
                    &&& pending.root() == self.root()
                    &&& pending.visited() == self.visited()
                    &&& pending.supplied() == self.supplied()
                    &&& !self.nodes().contains(pending.waiting_module())
                    &&& pending.node() < pending.nodes().len()
                    &&& pending.nodes()[pending.node() as int] == pending.waiting_module()
                    &&& (
                        pending.nodes(),
                        pending.edges(),
                        pending.stack(),
                        Some(pending.node() as int),
                    ) == settle(self.nodes(), self.edges(), self.stack(), self.visited())
                },
                Ok(BuildStep::Complete(graph)) => {
                    let settled = settle(
                        self.nodes(),
                        self.edges(),
                        self.stack(),
                        self.visited(),
                    );
                    &&& graph.wf()
                    &&& is_build_of(
                        graph,
                        self.entries(),
                        self.root(),
                        self.visited(),
                        self.supplied(),
                    )
                    &&& settled.3 is None
                    &&& completes(graph, settled.0, settled.1, self.entries(), self.root())
                },
                Err(error) => error == GraphError::CapacityExceeded,
            },
    {
        let ghost first_edges = self.edges();
        let ghost first_stack = self.stack();
        let GraphBuilder { graph, modules, stack, entries, root, visited, supplied } = self;
        let mut graph = graph;
        let mut modules = modules;
        let mut stack = stack;
        let node_count = graph_node_count(&graph);
        let edge_count = graph_edge_count(&graph);
        let waiting = stack.len();
        if waiting >= GRAPH_LIMIT || node_count >= GRAPH_LIMIT - waiting {
            return Err(GraphError::CapacityExceeded);
        }
        if entries.len() >= GRAPH_LIMIT - waiting || edge_count >= GRAPH_LIMIT - waiting
            - entries.len() {
            return Err(GraphError::CapacityExceeded);
        }
        let ghost first_nodes = graph_weights(graph);
        while stack.len() > 0
            invariant
                walk_inv(
                    graph_weights(graph),
                    graph_edges(graph),
                    modules@,
                    stack@,
                    entries@,
                    visited@,
                    supplied@,
                    None,
                ),
                room_left(
                    graph_weights(graph).len() as int,
                    graph_edges(graph).len() as int,
                    stack@.len() as int,
                    entries@.len() as int,
                ),
                self.has_room(),
                first_nodes == self.nodes(),
                entries@ == self.entries(),
                root == self.root(),
                visited@ == self.visited(),
                supplied@ == self.supplied(),
                first_nodes.len() <= graph_weights(graph).len(),
                forall|i: int|
                    0 <= i < first_nodes.len() ==> #[trigger] first_nodes[i] == graph_weights(
                        graph,
                    )[i],
                first_edges == self.edges(),
                first_stack == self.stack(),
                settle(graph_weights(graph), graph_edges(graph), stack@, visited@) == settle(
                    first_nodes,
                    first_edges,
                    first_stack,
                    visited@,
                ),
            decreases stack.len(),
        {
            let ghost nodes = graph_weights(graph);
            let ghost edges = graph_edges(graph);
            let ghost index = modules@;
            let ghost items = stack@;
            proof {
                let module = items.last().1;
                if nodes.contains(module) {
                    let i = nodes.index_of(module);
                    assert(index.contains_key(nodes[i]));
                    assert(nodes[index[module] as int] == module);
                } else if index.contains_key(module) {
                    assert(nodes[index[module] as int] == module);
                }
                assert(settle(nodes, edges, items, visited@) == if items.last().0 is Some
                    && visited@.contains(module) {
                    settle(nodes, edges, items.drop_last(), visited@)
                } else if nodes.contains(module) {
                    settle(
                        nodes,
                        linked(edges, items.last().0, nodes.index_of(module)),
                        items.drop_last(),
                        visited@,
                    )
                } else {
                    (
                        nodes.push(module),
                        linked(edges, items.last().0, nodes.len() as int),
                        items.drop_last(),
                        Some(nodes.len() as int),
                    )
                });
            }
            let (parent, module) = stack.pop().unwrap();
            let dropped = match parent {
                Some(_) => visited.contains(&module),
                None => false,
            };
            if dropped {
                proof {
                    lemma_drop_visited(nodes, edges, index, items, entries@, visited@, supplied@);
                }
            } else {
                let known: Option<usize> = match modules.get(&module) {
                    Some(found) => Some(*found),
                    None => None,
                };
                match known {
                    Some(target) => {
                        proof {
                            lemma_link_known(
                                nodes,
                                edges,
                                index,
                                items,
                                entries@,
                                visited@,
                                supplied@,
                            );
                        }
                        match parent {
                            Some(source) => {
                                graph_add_edge(&mut graph, source, target);
                            },
                            None => {},
                        }
                    },
                    None => {
                        proof {
                            lemma_new_node(
                                nodes,
                                edges,
                                index,
                                items,
                                entries@,
                                visited@,
                                supplied@,
                            );
                        }
                        let node = graph_add_node(&mut graph, module);
                        modules.insert(module, node);
                        match parent {
                            Some(source) => {
                                graph_add_edge(&mut graph, source, node);
                            },
                            None => {},
                        }
                        proof {
                            if first_nodes.contains(module) {
                                let i = choose|i: int|
                                    0 <= i < first_nodes.len() && first_nodes[i] == module;
                                assert(nodes[i] == module);
                                assert(index.contains_key(nodes[i]));
                            }
                        }
                        let builder = GraphBuilder {
                            graph,
                            modules,
                            stack,
                            entries,
                            root,
                            visited,
                            supplied,
                        };
                        return Ok(BuildStep::Resolve(PendingReferences { builder, node, module }));
                    },
                }
            }
        }
        assert(stack@ =~= Seq::<WorkItem>::empty());
        let graph = finish(graph, modules, entries, root, Ghost(visited@), supplied);
        Ok(BuildStep::Complete(graph))
    }
}

impl PendingReferences {
    /// See [`GraphBuilder::nodes`].
    pub closed spec fn nodes(&self) -> Seq<ModuleId> {
        self.builder.nodes()
    }

    /// See [`GraphBuilder::edges`].
    pub closed spec fn edges(&self) -> Seq<(int, int)> {
        self.builder.edges()
    }

    /// See [`GraphBuilder::stack`].
    pub closed spec fn stack(&self) -> Seq<WorkItem> {
        self.builder.stack()
    }

    /// The node of the module whose references the walk waits for.
    pub closed spec fn node(&self) -> usize {
        self.node
    }
}

/// Puts the root above the entries and records the entries, when the walk is
/// over.
fn finish(
    graph: ModuleDiGraph,
    modules: HashMap<ModuleId, usize>,
    entries: Vec<ModuleId>,
    root: Option<ModuleId>,
    Ghost(visited): Ghost<Set<ModuleId>>,
    Ghost(supplied): Ghost<Supplied>,
) -> (made: SingleModuleGraph)
    requires
        walk_inv(
            graph_weights(graph),
            graph_edges(graph),
            modules@,
            Seq::<WorkItem>::empty(),
            entries@,
            visited,
            supplied,
            None,
        ),
        room_left(
            graph_weights(graph).len() as int,
            graph_edges(graph).len() as int,
            0,
            entries@.len() as int,
        ),
    ensures
        made.wf(),
        is_build_of(made, entries@, root, visited, supplied),
        made.nodes() == if root is Some && !graph_weights(graph).contains(root.unwrap()) {
            graph_weights(graph).push(root.unwrap())
        } else {
            graph_weights(graph)
        },
        made.edges() == if root is Some && !graph_weights(graph).contains(root.unwrap()) {
            graph_edges(graph) + root_edges(
                graph_weights(graph),
                entries@,
                graph_weights(graph).len() as int,
            )
        } else {
            graph_edges(graph)
        },
{
    let mut graph = graph;
    let ghost nodes = graph_weights(graph);
    let ghost edges = graph_edges(graph);
    let ghost rel = refers_rel(supplied, visited);
    let ghost sources = entries@.to_set();
    proof {
        lemma_walk_complete(nodes, edges, modules@, entries@, visited, supplied);
        assert forall|k: int| 0 <= k < entries@.len() implies modules@.contains_key(
            #[trigger] entries@[k],
        ) by {
            assert(nodes.contains(entries@[k]) || Seq::<WorkItem>::empty().contains(
                (None, entries@[k]),
            ));
            let i = choose|i: int| 0 <= i < nodes.len() && nodes[i] == entries@[k];
            assert(modules@.contains_key(nodes[i]));
        }
    }
    let mut entry_nodes: HashMap<ModuleId, usize> = HashMap::new();
    let mut position: usize = 0;
    while position < entries.len()
        invariant
            position <= entries.len(),
            forall|k: int| 0 <= k < entries@.len() ==> modules@.contains_key(#[trigger] entries@[k]),
            forall|m: ModuleId| #[trigger]
                entry_nodes@.contains_key(m) <==> entries@.take(position as int).contains(m),
            forall|m: ModuleId| #[trigger]
                entry_nodes@.contains_key(m) ==> modules@.contains_key(m) && entry_nodes@[m]
                    == modules@[m],
        decreases entries.len() - position,
    {
        let entry = entries[position];
        let ghost before = entry_nodes@;
        match modules.get(&entry) {
            Some(node) => {
                entry_nodes.insert(entry, *node);
            },
            None => {},
        }
        proof {
            let shorter = entries@.take(position as int);
            let longer = entries@.take(position + 1);
            assert(longer =~= shorter.push(entry));
            assert forall|m: ModuleId| #[trigger]
                entry_nodes@.contains_key(m) <==> longer.contains(m) by {
                if shorter.contains(m) {
                    let i = choose|i: int| 0 <= i < shorter.len() && shorter[i] == m;
                    assert(longer[i] == m);
                }
                if m == entry {
                    assert(longer[position as int] == m);
                }
                if longer.contains(m) && m != entry {
                    let i = choose|i: int| 0 <= i < longer.len() && longer[i] == m;
                    assert(shorter[i] == m);
                }
            }
        }
        position = position + 1;
    }
    assert(entries@.take(position as int) =~= entries@);
    let rootless = match root {
        Some(module) => modules.contains_key(&module),
        None => true,
    };
    proof {
        if root is Some {
            let module = root.unwrap();
            if modules@.contains_key(module) {
                assert(nodes[modules@[module] as int] == module);
                assert(reachable(rel, sources, nodes[modules@[module] as int]));
            } else if reachable(rel, sources, module) {
                assert(nodes.contains(module));
                let i = choose|i: int| 0 <= i < nodes.len() && nodes[i] == module;
                assert(modules@.contains_key(nodes[i]));
            }
        }
    }
    if !rootless {
        let module = root.unwrap();
        let above = graph_add_node(&mut graph, module);
        let mut position: usize = 0;
        while position < entries.len()
            invariant
                position <= entries.len(),
                above == nodes.len(),
                nodes.len() < GRAPH_LIMIT,
                edges.len() + entries@.len() < GRAPH_LIMIT,
                graph_weights(graph) == nodes.push(module),
                graph_edges(graph).len() == edges.len() + position,
                graph_edges(graph).take(edges.len() as int) == edges,
                index_matches(nodes, modules@),
                forall|k: int|
                    0 <= k < entries@.len() ==> modules@.contains_key(#[trigger] entries@[k]),
                forall|k: int|
                    0 <= k < position ==> #[trigger] graph_edges(graph)[edges.len() + k] == (
                        above as int,
                        modules@[entries@[k]] as int,
                    ),
            decreases entries.len() - position,
        {
            let entry = entries[position];
            let ghost before = graph_edges(graph);
            match modules.get(&entry) {
                Some(node) => {
                    graph_add_edge(&mut graph, above, *node);
                },
                None => {},
            }
            proof {
                assert(graph_edges(graph) == before.push((above as int, modules@[entry] as int)));
                assert(graph_edges(graph).take(edges.len() as int) =~= before.take(
                    edges.len() as int,
                ));
                assert forall|k: int| 0 <= k < position + 1 implies #[trigger] graph_edges(
                    graph,
                )[edges.len() + k] == (above as int, modules@[entries@[k]] as int) by {
                    if k < position {
                        assert(graph_edges(graph)[edges.len() + k] == before[edges.len() + k]);
                    }
                }
            }
            position = position + 1;
        }
        entry_nodes.insert(module, above);
        proof {
            let grown = graph_weights(graph);
            let all = graph_edges(graph);
            assert(grown.take(nodes.len() as int) =~= nodes);
            assert(grown.no_duplicates()) by {
                assert forall|i: int| 0 <= i < nodes.len() implies nodes[i] != module by {
                    assert(modules@.contains_key(nodes[i]));
                }
            }
            assert forall|k: int| 0 <= k < all.len() implies 0 <= (#[trigger] all[k]).0
                < grown.len() && 0 <= all[k].1 < grown.len() by {
                if k < edges.len() {
                    assert(all[k] == all.take(edges.len() as int)[k]);
                } else {
                    assert(all[k] == all[edges.len() + (k - edges.len())]);
                }
            }
            assert forall|k: int| 0 <= k < entries@.len() implies (#[trigger] all[edges.len()
                + k]).0 == nodes.len() && 0 <= all[edges.len() + k].1 < nodes.len()
                && nodes[all[edges.len() + k].1] == entries@[k] by {}
            assert forall|m: ModuleId| #[trigger] entry_nodes@.contains_key(m) implies entry_nodes@[m]
                < grown.len() && grown[entry_nodes@[m] as int] == m by {
                if m != module {
                    assert(modules@.contains_key(m));
                }
            }
        }
    } else {
        proof {
            assert(graph_weights(graph).take(nodes.len() as int) =~= nodes);
            assert(graph_edges(graph).take(edges.len() as int) =~= edges);
        }
    }
    let made = SingleModuleGraph::from_parts(graph, entry_nodes);
    proof {
        let grown = made.nodes();
        let all = made.edges();
        let walked = nodes.len() as int;
        let linked = edges.len() as int;
        assert forall|i: int| 0 <= i < walked implies #[trigger] grown[i] == nodes[i] by {
            assert(grown.take(walked)[i] == nodes[i]);
        }
        assert forall|k: int| 0 <= k < linked implies #[trigger] all[k] == edges[k] by {
            assert(all.take(linked)[k] == edges[k]);
        }
        assert forall|m: ModuleId| #[trigger] reachable(rel, sources, m) implies exists|i: int|
            0 <= i < walked && #[trigger] grown[i] == m by {
            assert(nodes.contains(m));
            let i = choose|i: int| 0 <= i < nodes.len() && nodes[i] == m;
            assert(grown[i] == m);
        }
        assert forall|i: int| 0 <= i < walked implies reachable(
            rel,
            sources,
            #[trigger] grown[i],
        ) && (visited.contains(grown[i]) ==> entries@.contains(grown[i])) by {
            assert(grown[i] == nodes[i]);
        }
        assert forall|j: int, k: int| 0 <= j < k < linked implies #[trigger] all[j]
            != #[trigger] all[k] by {
            assert(all[j] == edges[j] && all[k] == edges[k]);
        }
        assert forall|k: int| 0 <= k < linked implies 0 <= (#[trigger] all[k]).0 < walked && 0
            <= all[k].1 < walked && refers(supplied, visited, grown[all[k].0], grown[all[k].1]) by {
            assert(all[k] == edges[k]);
            assert(grown[edges[k].0] == nodes[edges[k].0]);
            assert(grown[edges[k].1] == nodes[edges[k].1]);
        }
        assert forall|a: int, b: int|
            0 <= a < walked && 0 <= b < walked && refers(
                supplied,
                visited,
                #[trigger] grown[a],
                #[trigger] grown[b],
            ) implies exists|k: int| 0 <= k < linked && #[trigger] all[k] == (a, b) by {
            assert(grown[a] == nodes[a] && grown[b] == nodes[b]);
            assert(edges.contains((a, b)));
            let k = choose|k: int| 0 <= k < edges.len() && edges[k] == (a, b);
            assert(all[k] == (a, b));
        }
        assert forall|k: int| linked <= k < all.len() implies (#[trigger] all[k]).0 == walked && 0
            <= all[k].1 < walked && grown[all[k].1] == entries@[k - linked] by {
            assert(all[k] == all[linked + (k - linked)]);
            assert(modules@.contains_key(entries@[k - linked]));
        }
        if rootless {
            if root is Some {
                assert(nodes[modules@[root.unwrap()] as int] == root.unwrap());
            }
            assert(grown =~= nodes);
            assert(all =~= edges);
        } else {
            if nodes.contains(root.unwrap()) {
                let i = choose|i: int| 0 <= i < nodes.len() && nodes[i] == root.unwrap();
                assert(modules@.contains_key(nodes[i]));
            }
            let above = root_edges(nodes, entries@, walked);
            assert(all.len() == linked + entries@.len());
            assert forall|k: int| 0 <= k < all.len() implies all[k] == (edges + above)[k] by {
                if k >= linked {
                    let entry = entries@[k - linked];
                    assert(all[k] == all[linked + (k - linked)]);
                    assert(modules@.contains_key(entry));
                    assert(nodes[modules@[entry] as int] == entry);
                    assert(nodes[nodes.index_of(entry)] == entry);
                }
            }
            assert(all =~= edges + above);
        }
    }
    made
}

impl PendingReferences {
    /// The module whose references the walk waits for.
    pub closed spec fn waiting_module(&self) -> ModuleId {
        self.module
    }

    /// See [`GraphBuilder::entries`].
    pub closed spec fn entries(&self) -> Seq<ModuleId> {
        self.builder.entries()
    }

    /// See [`GraphBuilder::root`].
    pub closed spec fn root(&self) -> Option<ModuleId> {
        self.builder.root()
    }

    /// See [`GraphBuilder::visited`].
    pub closed spec fn visited(&self) -> Set<ModuleId> {
        self.builder.visited()
    }

    /// See [`GraphBuilder::supplied`].
    pub closed spec fn supplied(&self) -> Supplied {
        self.builder.supplied()
    }

    /// The invariant of a walk that waits for references.
    pub closed spec fn wf(&self) -> bool {
        &&& self.node < self.builder.nodes().len()
        &&& self.builder.nodes()[self.node as int] == self.module
        &&& walk_inv(
            self.builder.nodes(),
            self.builder.edges(),
            self.builder.index(),
            self.builder.stack(),
            self.builder.entries(),
            self.builder.visited(),
            self.builder.supplied(),
            Some(self.node as int),
        )
    }

    /// The module whose references the walk waits for.
    pub fn module(&self) -> (module: ModuleId)
        ensures
            module == self.waiting_module(),
    {
        self.module
    }

    /// Takes the references of the module that the walk waits for. For each
    /// of them in turn that leads to no source map, and to no module that an
    /// earlier one of them leads to, an item is pushed.
    pub fn resolve(self, references: &Vec<ModuleReference>) -> (builder: GraphBuilder)
        requires
            self.wf(),
        ensures
            builder.wf(),
            builder.entries() == self.entries(),
            builder.root() == self.root(),
            builder.visited() == self.visited(),
            builder.supplied() == self.supplied().insert(self.waiting_module(), references@),
            builder.nodes() == self.nodes(),
            builder.edges() == self.edges(),
            builder.stack() == self.stack() + items_of(self.node(), kept_targets(references@)),
    {
        let PendingReferences { builder, node, module } = self;
        let GraphBuilder { graph, modules, stack, entries, root, visited, supplied } = builder;
        let mut stack = stack;
        let mut seen: HashSet<ModuleId> = HashSet::new();
        let ghost before = stack@;
        let ghost mut kept: Seq<ModuleId> = Seq::empty();
        let mut position: usize = 0;
        assert(stack@ =~= before + items_of(node, kept));
        assert(references@.take(0) =~= Seq::<ModuleReference>::empty());
        while position < references.len()
            invariant
                position <= references.len(),
                stack@ == before + items_of(node, kept),
                kept == kept_targets(references@.take(position as int)),
                kept.no_duplicates(),
                forall|c: ModuleId| seen@.contains(c) <==> kept.contains(c),
                forall|c: ModuleId|
                    kept.contains(c) <==> #[trigger] targets(
                        references@.take(position as int),
                    ).contains(c),
            decreases references.len() - position,
        {
            let target = references[position].module;
            let ghost earlier = kept;
            proof {
                lemma_targets_take(references@, position as int);
                assert(references@.take(position + 1).drop_last() =~= references@.take(
                    position as int,
                ));
                assert(references@.take(position + 1).last() == references@[position as int]);
            }
            if !references[position].targets_source_map() && !seen.contains(&target) {
                seen.insert(target);
                stack.push((Some(node), target));
                proof {
                    assert(!earlier.contains(target));
                    kept = kept.push(target);
                    assert forall|i: int, j: int|
                        0 <= i < kept.len() && 0 <= j < kept.len() && i != j implies kept[i]
                        != kept[j] by {
                        if i < earlier.len() {
                            assert(earlier.contains(kept[i]));
                        }
                        if j < earlier.len() {
                            assert(earlier.contains(kept[j]));
                        }
                    }
                    assert(stack@ =~= before + items_of(node, kept));
                    assert forall|c: ModuleId| kept.contains(c) <==> earlier.contains(c) || c
                        == target by {
                        if earlier.contains(c) {
                            let i = choose|i: int| 0 <= i < earlier.len() && earlier[i] == c;
                            assert(kept[i] == c);
                        }
                        if c == target {
                            assert(kept[earlier.len() as int] == c);
                        }
                    }
                }
            }
            position = position + 1;
        }
        assert(references@.take(position as int) =~= references@);
        proof {
            lemma_resolve(
                graph_weights(graph),
                graph_edges(graph),
                modules@,
                before,
                entries@,
                visited@,
                supplied@,
                node,
                references@,
                kept,
            );
        }
        GraphBuilder {
            graph,
            modules,
            stack,
            entries,
            root,
            visited,
            supplied: Ghost(supplied@.insert(module, references@)),
        }
    }
}

impl SingleModuleGraph {
    /// Starts the walk that builds a graph from `entries`. Where `root` is
    /// given, it is put above the entries and becomes an entry too. No module
    /// in `visited_modules` gets a node unless it is an entry or the root.
    pub fn new_inner(
        root: Option<ModuleId>,
        entries: Vec<ModuleId>,
        visited_modules: HashSet<ModuleId>,
    ) -> (builder: GraphBuilder)
        ensures
            builder.wf(),
            builder.nodes().len() == 0,
            builder.edges().len() == 0,
            builder.stack() == entries@.map_values(|e: ModuleId| (None::<usize>, e)),
            builder.entries() == entries@,
            builder.root() == root,
            builder.visited() == visited_modules@,
            builder.supplied() == Supplied::empty(),
    {
        GraphBuilder::new(root, entries, visited_modules)
    }

    /// Starts the walk that builds a graph from `entries`, without a root and
    /// with no module placed before.
    pub fn new_with_entries(entries: Vec<ModuleId>) -> (builder: GraphBuilder)
        ensures
            builder.wf(),
            builder.nodes().len() == 0,
            builder.edges().len() == 0,
            builder.stack() == entries@.map_values(|e: ModuleId| (None::<usize>, e)),
            builder.entries() == entries@,
            builder.root() == None::<ModuleId>,
            builder.visited() == Set::<ModuleId>::empty(),
            builder.supplied() == Supplied::empty(),
    {
        GraphBuilder::new(None, entries, HashSet::new())
    }

    /// Starts the walk that builds a graph from `entries` under `root`, in
    /// which the modules in `visited_modules` get no node unless they are
    /// entries.
    pub fn new_with_entries_visited(
        root: ModuleId,
        entries: Vec<ModuleId>,
        visited_modules: HashSet<ModuleId>,
    ) -> (builder: GraphBuilder)
        ensures
            builder.wf(),
            builder.nodes().len() == 0,
            builder.edges().len() == 0,
            builder.stack() == entries@.map_values(|e: ModuleId| (None::<usize>, e)),
            builder.entries() == entries@,
            builder.root() == Some(root),
            builder.visited() == visited_modules@,
            builder.supplied() == Supplied::empty(),
    {
        GraphBuilder::new(Some(root), entries, visited_modules)
    }
}

} // verus!
