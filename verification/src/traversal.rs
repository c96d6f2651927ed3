//! Visiting what an entry of a module graph reaches.

use crate::digraph::dfs_discovered;
use crate::digraph::dfs_len;
use crate::digraph::dfs_new;
use crate::digraph::dfs_next;
use crate::digraph::dfs_stack;
use crate::digraph::edges_within;
use crate::digraph::graph_edges;
use crate::digraph::graph_node_weight;
use crate::digraph::graph_weights;
use crate::digraph::nodes_within;
use crate::digraph::successors;
use crate::digraph::top_undiscovered;
use crate::digraph::undiscovered;
use crate::module_graph::GraphError;
use crate::module_graph::ModuleId;
use crate::module_graph::SingleModuleGraph;
use crate::ordered_map::OrderedMap;
use crate::reach::lemma_reachable_closed;
use crate::reach::lemma_reachable_source;
use crate::reach::lemma_reachable_step;
use crate::reach::reachable;
use vstd::prelude::*;
use vstd::set_lib::lemma_int_range;
use vstd::set_lib::lemma_len_subset;
use vstd::set_lib::set_int_range;

verus! {

/// Being one of `keys`.
pub open spec fn among(keys: Seq<ModuleId>) -> spec_fn(ModuleId) -> bool {
    |m: ModuleId| keys.contains(m)
}

/// The relation between node indices that the edges make.
pub open spec fn edge_rel(edges: Seq<(int, int)>) -> spec_fn(int, int) -> bool {
    |source: int, target: int| edges.contains((source, target))
}

/// The successors of a node are the targets of the edges that leave it.
pub proof fn lemma_successors(edges: Seq<(int, int)>, node: int)
    ensures
        forall|target: int| #[trigger]
            successors(edges, node).contains(target) <==> edges.contains((node, target)),
    decreases edges.len(),
{
    if edges.len() > 0 {
        let before = edges.drop_last();
        let earlier = successors(before, node);
        let all = successors(edges, node);
        lemma_successors(before, node);
        assert forall|target: int| #[trigger]
            all.contains(target) <==> edges.contains((node, target)) by {
            if all.contains(target) {
                let i = choose|i: int| 0 <= i < all.len() && all[i] == target;
                if edges.last().0 == node && i == 0 {
                    assert(edges[edges.len() - 1] == (node, target));
                } else {
                    if edges.last().0 == node {
                        assert(earlier[i - 1] == target);
                    }
                    assert(earlier.contains(target));
                    let k = choose|k: int| 0 <= k < before.len() && before[k] == (node, target);
                    assert(edges[k] == (node, target));
                }
            }
            if edges.contains((node, target)) {
                let k = choose|k: int| 0 <= k < edges.len() && edges[k] == (node, target);
                if k == edges.len() - 1 {
                    assert(all[0] == target);
                } else {
                    assert(before[k] == (node, target));
                    assert(earlier.contains(target));
                    let i = choose|i: int| 0 <= i < earlier.len() && earlier[i] == target;
                    if edges.last().0 == node {
                        assert(all[i + 1] == target);
                    }
                }
            }
        }
    }
}

/// Where [`top_undiscovered`] points.
pub proof fn lemma_top_undiscovered(stack: Seq<int>, discovered: Set<int>)
    ensures
        -1 <= top_undiscovered(stack, discovered) < stack.len(),
        top_undiscovered(stack, discovered) >= 0 ==> !discovered.contains(
            stack[top_undiscovered(stack, discovered)],
        ),
        forall|k: int|
            top_undiscovered(stack, discovered) < k < stack.len() ==> discovered.contains(
                #[trigger] stack[k],
            ),
    decreases stack.len(),
{
    if stack.len() > 0 && discovered.contains(stack.last()) {
        lemma_top_undiscovered(stack.drop_last(), discovered);
        assert forall|k: int|
            top_undiscovered(stack, discovered) < k < stack.len() implies discovered.contains(
            #[trigger] stack[k],
        ) by {
            if k < stack.len() - 1 {
                assert(stack.drop_last()[k] == stack[k]);
            }
        }
    }
}

/// A sequence of distinct node indices below `len` has at most `len` entries.
pub proof fn lemma_distinct_nodes_len(nodes: Seq<int>, len: int)
    requires
        0 <= len,
        nodes.no_duplicates(),
        nodes_within(nodes, len),
    ensures
        nodes.len() <= len,
{
    nodes.unique_seq_to_set();
    lemma_int_range(0, len);
    assert(nodes.to_set().subset_of(set_int_range(0, len))) by {
        assert forall|j: int| nodes.to_set().contains(j) implies set_int_range(0, len).contains(
            j,
        ) by {
            let i = choose|i: int| 0 <= i < nodes.len() && nodes[i] == j;
            assert(0 <= nodes[i] < len);
        }
    }
    lemma_len_subset(nodes.to_set(), set_int_range(0, len));
}

/// What holds of a depth-first search from `start` between any two of its
/// steps: `order` lists what it has discovered, each node once; whatever it
/// has discovered or holds on its stack is reachable from `start`; and
/// whatever a discovered node leads to is discovered or waits on the stack.
pub open spec fn search_inv(
    len: int,
    edges: Seq<(int, int)>,
    start: int,
    stack: Seq<int>,
    discovered: Set<int>,
    order: Seq<int>,
) -> bool {
    let rel = edge_rel(edges);
    &&& 0 <= start < len
    &&& edges_within(edges, len)
    &&& nodes_within(stack, len)
    &&& nodes_within(order, len)
    &&& order.no_duplicates()
    &&& order.to_set() =~= discovered
    &&& forall|i: int| 0 <= i < order.len() ==> reachable(rel, set![start], #[trigger] order[i])
    &&& forall|k: int| 0 <= k < stack.len() ==> reachable(rel, set![start], #[trigger] stack[k])
    &&& discovered.contains(start) || stack.contains(start)
    &&& forall|a: int, b: int|
        discovered.contains(a) && #[trigger] edges.contains((a, b)) ==> discovered.contains(b)
            || stack.contains(b)
}

/// One step of the search that finds an undiscovered node keeps
/// [`search_inv`].
pub proof fn lemma_search_step(
    len: int,
    edges: Seq<(int, int)>,
    start: int,
    stack: Seq<int>,
    discovered: Set<int>,
    order: Seq<int>,
)
    requires
        search_inv(len, edges, start, stack, discovered, order),
        top_undiscovered(stack, discovered) >= 0,
    ensures
        ({
            let top = top_undiscovered(stack, discovered);
            let node = stack[top];
            let found = discovered.insert(node);
            &&& 0 <= top < stack.len()
            &&& 0 <= node < len
            &&& order.len() < len
            &&& search_inv(
                len,
                edges,
                start,
                stack.take(top) + undiscovered(successors(edges, node), found),
                found,
                order.push(node),
            )
        }),
{
    let rel = edge_rel(edges);
    let top = top_undiscovered(stack, discovered);
    lemma_top_undiscovered(stack, discovered);
    let node = stack[top];
    let found = discovered.insert(node);
    let next = successors(edges, node);
    let fresh = |n: int| !found.contains(n);
    let pushed = next.filter(fresh);
    let after = stack.take(top) + pushed;
    let longer = order.push(node);
    lemma_successors(edges, node);
    assert(reachable(rel, set![start], stack[top]));
    assert forall|k: int| 0 <= k < pushed.len() implies edges.contains(
        (node, #[trigger] pushed[k]),
    ) && !found.contains(pushed[k]) by {
        next.lemma_filter_pred(fresh, k);
        assert(pushed.contains(pushed[k]));
        next.lemma_filter_contains_rev(fresh, pushed[k]);
    }
    assert forall|k: int| 0 <= k < after.len() implies 0 <= #[trigger] after[k] < len && reachable(
        rel,
        set![start],
        after[k],
    ) by {
        if k < top {
            assert(after[k] == stack[k]);
        } else {
            let target = pushed[k - top];
            assert(after[k] == target);
            assert(edges.contains((node, target)));
            let e = choose|e: int| 0 <= e < edges.len() && edges[e] == (node, target);
            assert(0 <= edges[e].1 < len);
            assert(rel(node, target));
            lemma_reachable_step(rel, set![start], node, target);
        }
    }
    assert(!order.contains(node)) by {
        if order.contains(node) {
            assert(order.to_set().contains(node));
        }
    }
    assert forall|i: int, j: int|
        0 <= i < longer.len() && 0 <= j < longer.len() && i != j implies longer[i]
        != longer[j] by {
        if i < order.len() {
            assert(order.contains(longer[i]));
        }
        if j < order.len() {
            assert(order.contains(longer[j]));
        }
    }
    assert forall|j: int| longer.to_set().contains(j) <==> found.contains(j) by {
        if longer.to_set().contains(j) {
            let i = choose|i: int| 0 <= i < longer.len() && longer[i] == j;
            if i < order.len() {
                assert(order.to_set().contains(order[i]));
            }
        }
        if found.contains(j) {
            if j == node {
                assert(longer[order.len() as int] == j);
            } else {
                assert(order.to_set().contains(j));
                let i = choose|i: int| 0 <= i < order.len() && order[i] == j;
                assert(longer[i] == j);
            }
        }
    }
    assert(longer.to_set() =~= found);
    assert forall|i: int| 0 <= i < longer.len() implies 0 <= #[trigger] longer[i] < len
        && reachable(rel, set![start], longer[i]) by {
        if i < order.len() {
            assert(longer[i] == order[i]);
        }
    }
    assert(found.contains(start) || after.contains(start)) by {
        if !discovered.contains(start) {
            let k = choose|k: int| 0 <= k < stack.len() && stack[k] == start;
            if k < top {
                assert(after[k] == start);
            } else if k > top {
                assert(discovered.contains(stack[k]));
            }
        }
    }
    assert forall|a: int, b: int|
        found.contains(a) && #[trigger] edges.contains((a, b)) implies found.contains(b)
        || after.contains(b) by {
        if !found.contains(b) {
            if a == node {
                assert(next.contains(b));
                let i = choose|i: int| 0 <= i < next.len() && next[i] == b;
                assert(fresh(next[i]));
                next.lemma_filter_contains(fresh, i);
                let j = choose|j: int| 0 <= j < pushed.len() && pushed[j] == b;
                assert(after[top + j] == b);
            } else {
                assert(discovered.contains(a));
                assert(stack.contains(b));
                let k = choose|k: int| 0 <= k < stack.len() && stack[k] == b;
                if k < top {
                    assert(after[k] == b);
                } else if k > top {
                    assert(discovered.contains(stack[k]));
                }
            }
        }
    }
    lemma_distinct_nodes_len(longer, len);
}

/// When its stack is empty, the search has discovered whatever is reachable.
pub proof fn lemma_search_done(
    len: int,
    edges: Seq<(int, int)>,
    start: int,
    discovered: Set<int>,
    order: Seq<int>,
)
    requires
        search_inv(len, edges, start, Seq::<int>::empty(), discovered, order),
    ensures
        forall|j: int| #[trigger] reachable(edge_rel(edges), set![start], j) ==> order.contains(j),
{
    let rel = edge_rel(edges);
    let stack = Seq::<int>::empty();
    assert forall|a: int, b: int| discovered.contains(a) && #[trigger] rel(
        a,
        b,
    ) implies discovered.contains(b) by {
        assert(edges.contains((a, b)));
        assert(discovered.contains(b) || stack.contains(b));
    }
    assert forall|j: int| #[trigger] reachable(rel, set![start], j) implies order.contains(j) by {
        lemma_reachable_closed(rel, set![start], discovered, j);
        assert(order.to_set().contains(j));
    }
}

/// Where a depth-first search stands.
pub struct SearchState {
    /// The nodes that wait to be popped, the next one last.
    pub stack: Seq<int>,
    /// The nodes that were visited.
    pub discovered: Set<int>,
    /// The nodes that were visited, in the order of their visits.
    pub order: Seq<int>,
    /// Nothing is left to visit.
    pub finished: bool,
}

/// A search from `start` before its first step.
pub open spec fn search_start(start: int) -> SearchState {
    SearchState { stack: seq![start], discovered: Set::empty(), order: Seq::empty(), finished: false }
}

/// The search's next step: the stack is popped down to its topmost node that
/// is not yet visited; that node is visited, and its successors that are then
/// unvisited are pushed, the target of the most recently added edge first.
/// Where the stack holds no such node, the search is over.
pub open spec fn search_step(edges: Seq<(int, int)>, s: SearchState) -> SearchState {
    let top = top_undiscovered(s.stack, s.discovered);
    if s.finished {
        s
    } else if top < 0 {
        SearchState { stack: Seq::empty(), finished: true, ..s }
    } else {
        SearchState {
            stack: s.stack.take(top) + undiscovered(
                successors(edges, s.stack[top]),
                s.discovered.insert(s.stack[top]),
            ),
            discovered: s.discovered.insert(s.stack[top]),
            order: s.order.push(s.stack[top]),
            finished: false,
        }
    }
}

/// Where the search from `start` stands after `steps` steps.
pub open spec fn search_after(edges: Seq<(int, int)>, start: int, steps: nat) -> SearchState
    decreases steps,
{
    if steps == 0 {
        search_start(start)
    } else {
        search_step(edges, search_after(edges, start, (steps - 1) as nat))
    }
}

/// The modules that the nodes in `order` hold.
pub open spec fn modules_at(nodes: Seq<ModuleId>, order: Seq<int>) -> Seq<ModuleId> {
    order.map_values(|node: int| nodes[node])
}

impl SingleModuleGraph {
    /// Edges lead from the node of the entry `entry` to a node that holds
    /// `module`.
    pub open spec fn reaches(&self, entry: ModuleId, module: ModuleId) -> bool {
        exists|j: int|
            0 <= j < self.nodes().len() && #[trigger] self.nodes()[j] == module && reachable(
                edge_rel(self.edges()),
                set![self.entries()[entry] as int],
                j,
            )
    }

    /// `visited` lists the modules that a depth-first search from the entry
    /// `entry` visits, in the order of their visits.
    pub open spec fn searches(&self, entry: ModuleId, visited: Seq<ModuleId>) -> bool {
        exists|steps: nat|
            (#[trigger] search_after(
                self.edges(),
                self.entries()[entry] as int,
                steps,
            )).finished && visited == modules_at(
                self.nodes(),
                search_after(self.edges(), self.entries()[entry] as int, steps).order,
            )
    }

    /// `visited` lists the modules that the entry `entry` reaches, itself
    /// among them, each once.
    pub open spec fn visits(&self, entry: ModuleId, visited: Seq<ModuleId>) -> bool {
        &&& visited.no_duplicates()
        &&& forall|m: ModuleId| visited.contains(m) <==> self.reaches(entry, m)
    }

    /// The modules that the entry `entry` reaches and that have an entry in
    /// `data`, in the order in which [`SingleModuleGraph::traverse_from_entry`]
    /// visits them.
    pub fn traverse_known_from_entry<V>(
        &self,
        entry: ModuleId,
        data: &OrderedMap<ModuleId, V>,
    ) -> (selected: Result<Vec<ModuleId>, GraphError>)
        requires
            self.wf(),
            data.wf(),
        ensures
            match selected {
                Ok(known) => {
                    &&& self.entries().contains_key(entry)
                    &&& known@.no_duplicates()
                    &&& forall|i: int| 0 <= i < known@.len() ==> data.keys().contains(
                        #[trigger] known@[i],
                    )
                    &&& exists|visited: Seq<ModuleId>| #[trigger]
                        self.searches(entry, visited) && self.visits(entry, visited) && known@
                            == visited.filter(among(data.keys()))
                },
                Err(error) => error == GraphError::EntryNotFound && !self.entries().contains_key(
                    entry,
                ),
            },
    {
        let modules = match self.traverse_from_entry(entry) {
            Ok(modules) => modules,
            Err(error) => {
                return Err(error);
            },
        };
        let ghost kept = among(data.keys());
        let mut known: Vec<ModuleId> = Vec::new();
        let mut position: usize = 0;
        proof {
            assert(modules@.take(0) =~= Seq::<ModuleId>::empty());
            assert(Seq::<ModuleId>::empty().filter(kept) =~= Seq::<ModuleId>::empty()) by {
                Seq::<ModuleId>::empty().lemma_filter_len(kept);
            }
        }
        while position < modules.len()
            invariant
                data.wf(),
                kept == among(data.keys()),
                modules@.no_duplicates(),
                position <= modules@.len(),
                known@ == modules@.take(position as int).filter(kept),
                known@.no_duplicates(),
                forall|i: int|
                    0 <= i < known@.len() ==> data.keys().contains(#[trigger] known@[i])
                        && modules@.take(position as int).contains(known@[i]),
            decreases modules.len() - position,
        {
            let module = modules[position];
            let ghost before = known@;
            let ghost shorter = modules@.take(position as int);
            proof {
                assert(modules@.take(position + 1) =~= shorter.push(module));
                shorter.lemma_filter_push(module, kept);
                assert forall|i: int| 0 <= i < before.len() implies before[i] != module
                    && modules@.take(position + 1).contains(#[trigger] before[i]) by {
                    let j = choose|j: int| 0 <= j < shorter.len() && shorter[j] == before[i];
                    assert(modules@[j] == before[i]);
                    assert(modules@.take(position + 1)[j] == before[i]);
                }
                assert(modules@.take(position + 1)[position as int] == module);
            }
            match data.position(&module) {
                Some(_) => {
                    known.push(module);
                },
                None => {},
            }
            position = position + 1;
        }
        proof {
            assert(modules@.take(position as int) =~= modules@);
            assert(self.searches(entry, modules@) && self.visits(entry, modules@));
        }
        Ok(known)
    }

    /// The modules that a depth-first search from the entry `entry` visits,
    /// in the order of their visits: these are the modules that the entry
    /// reaches, itself among them, each once.
    pub fn traverse_from_entry(&self, entry: ModuleId) -> (visited: Result<
        Vec<ModuleId>,
        GraphError,
    >)
        requires
            self.wf(),
        ensures
            match visited {
                Ok(modules) => {
                    &&& self.entries().contains_key(entry)
                    &&& self.searches(entry, modules@)
                    &&& self.visits(entry, modules@)
                },
                Err(error) => error == GraphError::EntryNotFound && !self.entries().contains_key(
                    entry,
                ),
            },
    {
        let start = match self.get_entry(entry) {
            Ok(start) => start,
            Err(error) => {
                return Err(error);
            },
        };
        let graph = self.digraph();
        let ghost nodes = self.nodes();
        let ghost edges = self.edges();
        let ghost len = nodes.len() as int;
        let ghost rel = edge_rel(edges);
        let mut dfs = dfs_new(graph, start);
        let mut modules: Vec<ModuleId> = Vec::new();
        let ghost mut order: Seq<int> = Seq::empty();
        let ghost mut steps: nat = 0;
        proof {
            lemma_reachable_source(rel, set![start as int], start as int);
            assert(dfs_stack(dfs)[0] == start as int);
            assert(order.to_set() =~= dfs_discovered(dfs));
        }
        loop
            invariant_except_break
                search_after(edges, start as int, steps) == (SearchState {
                    stack: dfs_stack(dfs),
                    discovered: dfs_discovered(dfs),
                    order,
                    finished: false,
                }),
            invariant
                self.wf(),
                nodes == self.nodes(),
                edges == self.edges(),
                len == nodes.len(),
                graph_weights(*graph) == nodes,
                graph_edges(*graph) == edges,
                dfs_len(dfs) == len,
                search_inv(len, edges, start as int, dfs_stack(dfs), dfs_discovered(dfs), order),
                modules@.len() == order.len(),
                forall|i: int| 0 <= i < order.len() ==> #[trigger] modules@[i] == nodes[order[i]],
            ensures
                dfs_stack(dfs).len() == 0,
                search_step(edges, search_after(edges, start as int, steps)) == (SearchState {
                    stack: dfs_stack(dfs),
                    discovered: dfs_discovered(dfs),
                    order,
                    finished: true,
                }),
            decreases len - order.len(),
        {
            let ghost stack = dfs_stack(dfs);
            let ghost discovered = dfs_discovered(dfs);
            proof {
                lemma_top_undiscovered(stack, discovered);
                if top_undiscovered(stack, discovered) >= 0 {
                    lemma_search_step(len, edges, start as int, stack, discovered, order);
                }
            }
            match dfs_next(&mut dfs, graph) {
                Some(node) => {
                    modules.push(graph_node_weight(graph, node));
                    proof {
                        order = order.push(node as int);
                        steps = steps + 1;
                    }
                },
                None => {
                    proof {
                        assert(dfs_stack(dfs) =~= Seq::<int>::empty());
                    }
                    break ;
                },
            }
        }
        proof {
            assert(dfs_stack(dfs) =~= Seq::<int>::empty());
            assert(modules@ =~= modules_at(nodes, order));
            assert(search_after(edges, start as int, steps + 1).finished);
            assert(self.searches(entry, modules@));
            lemma_search_done(len, edges, start as int, dfs_discovered(dfs), order);
            assert forall|i: int, j: int|
                0 <= i < modules@.len() && 0 <= j < modules@.len() && i != j implies modules@[i]
                != modules@[j] by {
                assert(order[i] != order[j]);
            }
            assert forall|m: ModuleId| modules@.contains(m) <==> self.reaches(entry, m) by {
                if modules@.contains(m) {
                    let i = choose|i: int| 0 <= i < modules@.len() && modules@[i] == m;
                    assert(nodes[order[i]] == m);
                    assert(reachable(rel, set![start as int], order[i]));
                }
                if self.reaches(entry, m) {
                    let j = choose|j: int|
                        0 <= j < nodes.len() && #[trigger] nodes[j] == m && reachable(
                            rel,
                            set![start as int],
                            j,
                        );
                    assert(order.contains(j));
                    let i = choose|i: int| 0 <= i < order.len() && order[i] == j;
                    assert(modules@[i] == m);
                }
            }
        }
        Ok(modules)
    }
}

} // verus!
