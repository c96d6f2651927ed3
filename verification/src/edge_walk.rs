//! Walking the edges that an entry of a module graph reaches, one edge at a
//! time, with the caller deciding after each edge whether the walk descends
//! into the edge's target.
//!
//! The walk first shows the edge that leads from nowhere to the entry. It
//! keeps a stack of nodes, which starts with the entry's node, and a set of
//! discovered nodes. A node that is popped and not yet discovered becomes
//! discovered, and each edge that leaves it is shown in turn. After an edge
//! the caller answers: on `Continue` the edge's target is pushed unless it is
//! discovered already; on `Skip` it is not. A node can so wait on the stack
//! more than once; its edges are shown once.

use crate::digraph::bitset_len;
use crate::digraph::bitset_members;
use crate::digraph::edges_within;
use crate::digraph::graph_neighbors;
use crate::digraph::graph_visit_map;
use crate::digraph::nodes_within;
use crate::digraph::successors;
use crate::digraph::visit_map_is_visited;
use crate::digraph::visit_map_visit;
use crate::module_graph::GraphError;
use crate::module_graph::GraphTraversalAction;
use crate::module_graph::ModuleId;
use crate::module_graph::SingleModuleGraph;
use crate::traversal::lemma_distinct_nodes_len;
use crate::traversal::lemma_successors;
use fixedbitset::FixedBitSet;
use vstd::prelude::*;

verus! {

/// An edge as the walk shows it: the source node, none for the edge that
/// leads to the entry, and the target node.
pub type ShownEdge = (Option<int>, int);

/// Where a walk stands.
pub struct WalkState {
    /// The node of the entry.
    pub entry: int,
    /// The edge to the entry was shown.
    pub started: bool,
    /// No edge is left to show.
    pub finished: bool,
    /// The nodes that wait to be popped, the next one last.
    pub stack: Seq<int>,
    /// The nodes whose edges were shown or are being shown.
    pub discovered: Set<int>,
    /// The node whose edges are being shown.
    pub parent: int,
    /// The target of the edge shown last, where that edge had a source.
    pub asked: Option<int>,
    /// The targets of the edges of `parent` that are still to show.
    pub waiting: Seq<int>,
    /// The entry, and every target of a shown edge that was answered with
    /// `Continue`.
    pub allowed: Set<int>,
    /// Every edge shown so far.
    pub trace: Seq<ShownEdge>,
}

/// A walk from `entry` before its first step.
pub open spec fn walk_start(entry: int) -> WalkState {
    WalkState {
        entry,
        started: false,
        finished: false,
        stack: seq![entry],
        discovered: Set::empty(),
        parent: entry,
        asked: None,
        waiting: Seq::empty(),
        allowed: set![entry],
        trace: Seq::empty(),
    }
}

/// Pops `stack` down to its topmost node that is undiscovered and has an edge
/// leaving it. Gives what is left of the stack below that node, what is then
/// discovered, and the node; no node where the stack runs empty. A popped
/// node that is undiscovered and has no edge becomes discovered on the way.
pub open spec fn descend(edges: Seq<(int, int)>, stack: Seq<int>, discovered: Set<int>) -> (
    Seq<int>,
    Set<int>,
    Option<int>,
)
    decreases stack.len(),
{
    if stack.len() == 0 {
        (stack, discovered, None)
    } else if discovered.contains(stack.last()) {
        descend(edges, stack.drop_last(), discovered)
    } else if successors(edges, stack.last()).len() == 0 {
        descend(edges, stack.drop_last(), discovered.insert(stack.last()))
    } else {
        (stack.drop_last(), discovered.insert(stack.last()), Some(stack.last()))
    }
}

/// The walk's next step, when `answer` is the answer to the edge shown last.
/// Where the step shows an edge, it is the last of the trace.
pub open spec fn walk_step(
    edges: Seq<(int, int)>,
    s: WalkState,
    answer: GraphTraversalAction,
) -> WalkState {
    if s.finished {
        s
    } else if !s.started {
        WalkState { started: true, trace: s.trace.push((None, s.entry)), ..s }
    } else {
        let descends = s.asked is Some && answer == GraphTraversalAction::Continue;
        let stack = if descends && !s.discovered.contains(s.asked.unwrap()) {
            s.stack.push(s.asked.unwrap())
        } else {
            s.stack
        };
        let allowed = if descends {
            s.allowed.insert(s.asked.unwrap())
        } else {
            s.allowed
        };
        if s.waiting.len() > 0 {
            WalkState {
                stack,
                allowed,
                asked: Some(s.waiting[0]),
                waiting: s.waiting.drop_first(),
                trace: s.trace.push((Some(s.parent), s.waiting[0])),
                ..s
            }
        } else {
            let (rest, found, node) = descend(edges, stack, s.discovered);
            match node {
                Some(n) => WalkState {
                    stack: rest,
                    discovered: found,
                    allowed,
                    parent: n,
                    asked: Some(successors(edges, n)[0]),
                    waiting: successors(edges, n).drop_first(),
                    trace: s.trace.push((Some(n), successors(edges, n)[0])),
                    ..s
                },
                None => WalkState {
                    finished: true,
                    stack: rest,
                    discovered: found,
                    allowed,
                    asked: None,
                    ..s
                },
            }
        }
    }
}

/// The edge that the step from `before` to `after` has shown.
pub open spec fn shown_by(before: WalkState, after: WalkState) -> Option<ShownEdge> {
    if after.trace.len() > before.trace.len() {
        Some(after.trace.last())
    } else {
        None
    }
}

/// A shown edge by the modules of its nodes.
pub open spec fn edge_modules(nodes: Seq<ModuleId>, edge: ShownEdge) -> (Option<ModuleId>, ModuleId) {
    (
        match edge.0 {
            Some(source) => Some(nodes[source]),
            None => None,
        },
        nodes[edge.1],
    )
}

/// Where the walk from `entry` stands after `steps` steps, when `decide`
/// gives for the edges shown so far the answer to the last of them.
pub open spec fn walk_after(
    edges: Seq<(int, int)>,
    entry: int,
    decide: spec_fn(Seq<ShownEdge>) -> GraphTraversalAction,
    steps: nat,
) -> WalkState
    decreases steps,
{
    if steps == 0 {
        walk_start(entry)
    } else {
        let before = walk_after(edges, entry, decide, (steps - 1) as nat);
        walk_step(edges, before, decide(before.trace))
    }
}

/// What holds of a walk over a graph of `len` nodes between any two of its
/// steps. The first edge shown is the one to the entry, and every other edge
/// shown leaves a node that is the entry or the target of an edge that was
/// answered with `Continue`.
pub open spec fn walk_inv(len: int, s: WalkState) -> bool {
    &&& 0 <= s.entry < len
    &&& nodes_within(s.stack, len)
    &&& nodes_within(s.waiting, len)
    &&& 0 <= s.parent < len
    &&& s.asked matches Some(target) ==> 0 <= target < len
    &&& s.allowed.contains(s.entry)
    &&& s.allowed.contains(s.parent)
    &&& forall|k: int| 0 <= k < s.stack.len() ==> s.allowed.contains(#[trigger] s.stack[k])
    &&& forall|i: int|
        0 <= i < s.trace.len() ==> ((#[trigger] s.trace[i]).0 matches Some(source)
            ==> s.allowed.contains(source))
    &&& forall|i: int|
        0 <= i < s.trace.len() ==> 0 <= (#[trigger] s.trace[i]).1 < len && (s.trace[i].0 matches Some(
            source,
        ) ==> 0 <= source < len)
    &&& s.started ==> s.trace.len() > 0 && s.trace[0] == (None::<int>, s.entry)
    &&& !s.started ==> s == walk_start(s.entry)
    &&& s.waiting.len() > 0 ==> s.asked is Some
    &&& s.asked matches Some(target) ==> s.trace.len() > 0 && s.trace.last() == (
        Some(s.parent),
        target,
    )
    &&& s.finished ==> s.started && s.asked is None && s.waiting.len() == 0 && s.stack.len() == 0
}

/// What [`descend`] gives when the stack holds nodes that are allowed: what
/// is left of the stack does so too, and the node found is an allowed node
/// that an edge leaves.
pub proof fn lemma_descend(
    len: int,
    edges: Seq<(int, int)>,
    stack: Seq<int>,
    discovered: Set<int>,
    allowed: Set<int>,
)
    requires
        nodes_within(stack, len),
        forall|k: int| 0 <= k < stack.len() ==> allowed.contains(#[trigger] stack[k]),
    ensures
        nodes_within(descend(edges, stack, discovered).0, len),
        forall|k: int|
            0 <= k < descend(edges, stack, discovered).0.len() ==> allowed.contains(
                #[trigger] descend(edges, stack, discovered).0[k],
            ),
        match descend(edges, stack, discovered).2 {
            Some(node) => 0 <= node < len && allowed.contains(node) && successors(edges, node).len()
                > 0,
            None => descend(edges, stack, discovered).0.len() == 0,
        },
    decreases stack.len(),
{
    if stack.len() > 0 {
        let rest = stack.drop_last();
        assert(stack[stack.len() - 1] == stack.last());
        assert forall|k: int| 0 <= k < rest.len() implies 0 <= #[trigger] rest[k] < len
            && allowed.contains(rest[k]) by {
            assert(rest[k] == stack[k]);
        }
        if discovered.contains(stack.last()) {
            lemma_descend(len, edges, rest, discovered, allowed);
        } else if successors(edges, stack.last()).len() == 0 {
            lemma_descend(len, edges, rest, discovered.insert(stack.last()), allowed);
        }
    }
}

/// A step of the walk keeps [`walk_inv`], whatever the answer.
pub proof fn lemma_walk_step(
    len: int,
    edges: Seq<(int, int)>,
    s: WalkState,
    answer: GraphTraversalAction,
)
    requires
        edges_within(edges, len),
        walk_inv(len, s),
    ensures
        walk_inv(len, walk_step(edges, s, answer)),
{
    let after = walk_step(edges, s, answer);
    if s.finished {
    } else if !s.started {
        assert(after.trace[0] == (None::<int>, s.entry));
        assert(after.stack[0] == s.entry);
    } else {
        let descends = s.asked is Some && answer == GraphTraversalAction::Continue;
        let stack = if descends && !s.discovered.contains(s.asked.unwrap()) {
            s.stack.push(s.asked.unwrap())
        } else {
            s.stack
        };
        let allowed = if descends {
            s.allowed.insert(s.asked.unwrap())
        } else {
            s.allowed
        };
        assert forall|k: int| 0 <= k < stack.len() implies 0 <= #[trigger] stack[k] < len
            && allowed.contains(stack[k]) by {
            if k < s.stack.len() {
                assert(stack[k] == s.stack[k]);
            }
        }
        assert forall|i: int| 0 <= i < after.trace.len() implies ((
        #[trigger] after.trace[i]).0 matches Some(source) ==> allowed.contains(source)) && 0
            <= after.trace[i].1 < len && (after.trace[i].0 matches Some(source) ==> 0 <= source
            < len) by {
            if i < s.trace.len() {
                assert(after.trace[i] == s.trace[i]);
            } else if s.waiting.len() > 0 {
                assert(after.trace[i] == (Some(s.parent), s.waiting[0]));
            } else {
                lemma_descend(len, edges, stack, s.discovered, allowed);
                let node = descend(edges, stack, s.discovered).2.unwrap();
                lemma_successors_within(edges, node, len);
                assert(after.trace[i] == (Some(node), successors(edges, node)[0]));
            }
        }
        assert(after.trace[0] == s.trace[0]);
        if s.waiting.len() > 0 {
            assert forall|k: int| 0 <= k < after.waiting.len() implies 0
                <= #[trigger] after.waiting[k] < len by {
                assert(after.waiting[k] == s.waiting[k + 1]);
            }
        } else {
            lemma_descend(len, edges, stack, s.discovered, allowed);
            if descend(edges, stack, s.discovered).2 is Some {
                let node = descend(edges, stack, s.discovered).2.unwrap();
                lemma_successors_within(edges, node, len);
                let next = successors(edges, node);
                assert(0 <= next[0] < len);
                assert forall|k: int| 0 <= k < after.waiting.len() implies 0
                    <= #[trigger] after.waiting[k] < len by {
                    assert(after.waiting[k] == next[k + 1]);
                }
            }
        }
    }
}

/// Whatever the answers, [`walk_inv`] holds of the walk after any number of
/// steps: the first edge shown is the one that leads to the entry, and every
/// edge shown after it leaves an allowed node.
pub proof fn lemma_walk_after(
    len: int,
    edges: Seq<(int, int)>,
    entry: int,
    decide: spec_fn(Seq<ShownEdge>) -> GraphTraversalAction,
    steps: nat,
)
    requires
        0 <= entry < len,
        edges_within(edges, len),
    ensures
        walk_inv(len, walk_after(edges, entry, decide, steps)),
    decreases steps,
{
    if steps == 0 {
        assert(walk_start(entry).stack[0] == entry);
    } else {
        lemma_walk_after(len, edges, entry, decide, (steps - 1) as nat);
        let before = walk_after(edges, entry, decide, (steps - 1) as nat);
        lemma_walk_step(len, edges, before, decide(before.trace));
    }
}

/// A node is allowed only where it is the entry or some edge that leads to
/// it was shown and answered with `Continue`. So the edges of a node that is
/// not the entry are never shown where every edge that leads to it is
/// answered with `Skip`.
pub proof fn lemma_walk_allows(
    len: int,
    edges: Seq<(int, int)>,
    entry: int,
    decide: spec_fn(Seq<ShownEdge>) -> GraphTraversalAction,
    steps: nat,
    node: int,
)
    requires
        0 <= entry < len,
        edges_within(edges, len),
        walk_after(edges, entry, decide, steps).allowed.contains(node),
    ensures
        node == entry || exists|i: int|
            0 <= i < walk_after(edges, entry, decide, steps).trace.len() && (
            #[trigger] walk_after(edges, entry, decide, steps).trace[i]).0 is Some && walk_after(
                edges,
                entry,
                decide,
                steps,
            ).trace[i].1 == node && decide(
                walk_after(edges, entry, decide, steps).trace.take(i + 1),
            ) == GraphTraversalAction::Continue,
    decreases steps,
{
    if steps > 0 {
        let before = walk_after(edges, entry, decide, (steps - 1) as nat);
        let after = walk_after(edges, entry, decide, steps);
        let answer = decide(before.trace);
        lemma_walk_after(len, edges, entry, decide, (steps - 1) as nat);
        assert(after == walk_step(edges, before, answer));
        assert(before.trace.len() <= after.trace.len());
        assert forall|i: int| 0 <= i < before.trace.len() implies after.trace.take(i + 1)
            == before.trace.take(i + 1) && #[trigger] after.trace[i] == before.trace[i] by {
            assert(after.trace.take(i + 1) =~= before.trace.take(i + 1));
        }
        if before.allowed.contains(node) {
            lemma_walk_allows(len, edges, entry, decide, (steps - 1) as nat, node);
            if node != entry {
                let i = choose|i: int|
                    0 <= i < before.trace.len() && (#[trigger] before.trace[i]).0 is Some
                        && before.trace[i].1 == node && decide(before.trace.take(i + 1))
                        == GraphTraversalAction::Continue;
                assert(after.trace[i] == before.trace[i]);
                assert(after.trace.take(i + 1) == before.trace.take(i + 1));
            }
        } else {
            let last = before.trace.len() - 1;
            assert(before.asked == Some(node));
            assert(answer == GraphTraversalAction::Continue);
            assert(before.trace.take(last + 1) =~= before.trace);
            assert(after.trace[last] == before.trace[last]);
            assert(after.trace.take(last + 1) == before.trace.take(last + 1));
        }
    }
}

/// The successors of a node are nodes.
pub proof fn lemma_successors_within(edges: Seq<(int, int)>, node: int, len: int)
    requires
        edges_within(edges, len),
    ensures
        nodes_within(successors(edges, node), len),
{
    lemma_successors(edges, node);
    let next = successors(edges, node);
    assert forall|i: int| 0 <= i < next.len() implies 0 <= #[trigger] next[i] < len by {
        assert(next.contains(next[i]));
        let e = choose|e: int| 0 <= e < edges.len() && edges[e] == (node, next[i]);
        assert(0 <= edges[e].1 < len);
    }
}

/// Node indices as integers.
pub open spec fn ints(nodes: Seq<usize>) -> Seq<int> {
    nodes.map_values(|n: usize| n as int)
}

/// A walk of the edges that an entry of a graph reaches.
pub struct EdgeWalk<'a> {
    graph: &'a SingleModuleGraph,
    entry: usize,
    started: bool,
    finished: bool,
    stack: Vec<usize>,
    discovered: FixedBitSet,
    parent: usize,
    targets: Vec<usize>,
    position: usize,
    asked: Option<usize>,
    allowed: Ghost<Set<int>>,
    trace: Ghost<Seq<ShownEdge>>,
    order: Ghost<Seq<int>>,
}

impl<'a> EdgeWalk<'a> {
    /// The graph that is walked.
    pub closed spec fn graph(&self) -> SingleModuleGraph {
        *self.graph
    }

    /// Where the walk stands.
    pub closed spec fn view(&self) -> WalkState {
        WalkState {
            entry: self.entry as int,
            started: self.started,
            finished: self.finished,
            stack: ints(self.stack@),
            discovered: bitset_members(self.discovered),
            parent: self.parent as int,
            asked: match self.asked {
                Some(target) => Some(target as int),
                None => None,
            },
            waiting: ints(self.targets@).skip(self.position as int),
            allowed: self.allowed@,
            trace: self.trace@,
        }
    }

    /// What ties the walk's own bookkeeping to where it stands.
    pub closed spec fn consistent(&self) -> bool {
        &&& bitset_len(self.discovered) == self.graph.nodes().len()
        &&& self.position <= self.targets@.len()
        &&& self.order@.no_duplicates()
        &&& nodes_within(self.order@, self.graph.nodes().len() as int)
        &&& self.order@.to_set() =~= bitset_members(self.discovered)
    }

    /// The invariant of a walk.
    pub open spec fn wf(&self) -> bool {
        &&& self.graph().wf()
        &&& walk_inv(self.graph().nodes().len() as int, self@)
        &&& self.consistent()
    }

    /// The number of nodes that are not discovered.
    pub closed spec fn undiscovered_nodes(&self) -> nat {
        (self.graph.nodes().len() - self.order@.len()) as nat
    }

    /// The number of edges that are due before the next node is popped.
    pub closed spec fn due_edges(&self) -> nat {
        (self.targets@.len() - self.position + if self.started {
            0int
        } else {
            1int
        }) as nat
    }

    /// Shows the next edge, by the modules of its nodes, or nothing when the
    /// walk is over. `previous` answers the edge shown before; the answer to
    /// the entry's edge counts for nothing.
    pub fn next(&mut self, previous: GraphTraversalAction) -> (shown: Option<
        (Option<ModuleId>, ModuleId),
    >)
        requires
            old(self).wf(),
        ensures
            final(self).wf(),
            final(self).graph() == old(self).graph(),
            final(self)@ == walk_step(old(self).graph().edges(), old(self)@, previous),
            shown == match shown_by(old(self)@, final(self)@) {
                Some(edge) => Some(edge_modules(old(self).graph().nodes(), edge)),
                None => None,
            },
            shown is Some ==> final(self).undiscovered_nodes() < old(self).undiscovered_nodes() || (
            final(self).undiscovered_nodes() == old(self).undiscovered_nodes()
                && final(self).due_edges() < old(self).due_edges()),
    {
        let graph = self.graph;
        let ghost before = self@;
        let ghost edges = graph.edges();
        let ghost len = graph.nodes().len() as int;
        if self.finished {
            return None;
        }
        if !self.started {
            self.started = true;
            proof {
                self.trace = Ghost(self.trace@.push((None, self.entry as int)));
            }
            let module = graph.module_at(self.entry);
            assert(self@ == walk_step(edges, before, previous));
            return Some((None, module));
        }
        match self.asked {
            Some(target) => {
                if previous == GraphTraversalAction::Continue {
                    if !visit_map_is_visited(&self.discovered, target) {
                        self.stack.push(target);
                    }
                    proof {
                        self.allowed = Ghost(self.allowed@.insert(target as int));
                    }
                }
            },
            None => {},
        }
        let ghost pushed_stack = ints(self.stack@);
        let ghost allowed_now = self.allowed@;
        proof {
            let descends = before.asked is Some && previous == GraphTraversalAction::Continue;
            assert(pushed_stack =~= if descends && !before.discovered.contains(
                before.asked.unwrap(),
            ) {
                before.stack.push(before.asked.unwrap())
            } else {
                before.stack
            });
            assert forall|k: int| 0 <= k < pushed_stack.len() implies allowed_now.contains(
                #[trigger] pushed_stack[k],
            ) && 0 <= pushed_stack[k] < len by {
                if k < before.stack.len() {
                    assert(pushed_stack[k] == before.stack[k]);
                }
            }
        }
        if self.position < self.targets.len() {
            let target = self.targets[self.position];
            proof {
                assert(before.waiting[0] == target as int);
                assert(ints(self.targets@).skip(self.position as int + 1)
                    =~= before.waiting.drop_first());
                self.trace = Ghost(self.trace@.push((Some(self.parent as int), target as int)));
            }
            self.position = self.position + 1;
            self.asked = Some(target);
            let source = graph.module_at(self.parent);
            let module = graph.module_at(target);
            assert(self@ == walk_step(edges, before, previous));
            return Some((Some(source), module));
        }
        assert(before.waiting =~= Seq::<int>::empty());
        while self.stack.len() > 0
            invariant
                graph.wf(),
                self.graph == graph,
                old(self).graph == graph,
                edges == graph.edges(),
                len == graph.nodes().len(),
                before == old(self)@,
                walk_inv(len, before),
                before.started,
                !before.finished,
                before.waiting.len() == 0,
                self.consistent(),
                self.started,
                !self.finished,
                self.entry == before.entry,
                self.parent == before.parent,
                self.trace@ == before.trace,
                self.position == self.targets@.len(),
                self.order@.len() >= old(self).order@.len(),
                self.allowed@ == allowed_now,
                pushed_stack == if before.asked is Some && previous
                    == GraphTraversalAction::Continue && !before.discovered.contains(
                    before.asked.unwrap(),
                ) {
                    before.stack.push(before.asked.unwrap())
                } else {
                    before.stack
                },
                allowed_now == if before.asked is Some && previous
                    == GraphTraversalAction::Continue {
                    before.allowed.insert(before.asked.unwrap())
                } else {
                    before.allowed
                },
                forall|k: int|
                    0 <= k < ints(self.stack@).len() ==> allowed_now.contains(
                        #[trigger] ints(self.stack@)[k],
                    ) && 0 <= ints(self.stack@)[k] < len,
                descend(edges, ints(self.stack@), bitset_members(self.discovered)) == descend(
                    edges,
                    pushed_stack,
                    before.discovered,
                ),
            decreases self.stack.len(),
        {
            let ghost stack = ints(self.stack@);
            let ghost discovered = bitset_members(self.discovered);
            let ghost order = self.order@;
            let node = self.stack.pop().unwrap();
            proof {
                assert(stack.last() == node as int);
                assert(ints(self.stack@) =~= stack.drop_last());
                assert(0 <= stack[stack.len() - 1] < len);
                assert(allowed_now.contains(stack[stack.len() - 1]));
                assert forall|k: int| 0 <= k < ints(self.stack@).len() implies allowed_now.contains(
                    #[trigger] ints(self.stack@)[k],
                ) && 0 <= ints(self.stack@)[k] < len by {
                    assert(ints(self.stack@)[k] == stack[k]);
                }
                assert(descend(edges, stack, discovered) == if discovered.contains(stack.last()) {
                    descend(edges, stack.drop_last(), discovered)
                } else if successors(edges, stack.last()).len() == 0 {
                    descend(edges, stack.drop_last(), discovered.insert(stack.last()))
                } else {
                    (stack.drop_last(), discovered.insert(stack.last()), Some(stack.last()))
                });
            }
            if visit_map_visit(&mut self.discovered, node) {
                proof {
                    self.order = Ghost(order.push(node as int));
                    assert(!order.contains(node as int)) by {
                        if order.contains(node as int) {
                            assert(order.to_set().contains(node as int));
                        }
                    }
                    assert(self.order@.to_set() =~= bitset_members(self.discovered)) by {
                        assert forall|j: int|
                            self.order@.to_set().contains(j) <==> bitset_members(
                                self.discovered,
                            ).contains(j) by {
                            if self.order@.to_set().contains(j) {
                                let i = choose|i: int|
                                    0 <= i < self.order@.len() && self.order@[i] == j;
                                if i < order.len() {
                                    assert(order.to_set().contains(order[i]));
                                }
                            }
                            if discovered.contains(j) {
                                assert(order.to_set().contains(j));
                                let i = choose|i: int| 0 <= i < order.len() && order[i] == j;
                                assert(self.order@[i] == j);
                            }
                            if j == node as int {
                                assert(self.order@[order.len() as int] == j);
                            }
                        }
                    }
                    assert forall|i: int, j: int|
                        0 <= i < self.order@.len() && 0 <= j < self.order@.len() && i
                            != j implies self.order@[i] != self.order@[j] by {
                        if i < order.len() {
                            assert(order.contains(self.order@[i]));
                        }
                        if j < order.len() {
                            assert(order.contains(self.order@[j]));
                        }
                    }
                    assert forall|i: int| 0 <= i < self.order@.len() implies 0
                        <= #[trigger] self.order@[i] < len by {
                        if i < order.len() {
                            assert(self.order@[i] == order[i]);
                        }
                    }
                    lemma_successors_within(edges, node as int, len);
                    lemma_distinct_nodes_len(self.order@, len);
                }
                let targets = graph_neighbors(graph.digraph(), node);
                proof {
                    assert(ints(targets@) == successors(edges, node as int));
                    assert(ints(targets@).len() == targets@.len());
                }
                if targets.len() > 0 {
                    let target = targets[0];
                    proof {
                        let next = successors(edges, node as int);
                        assert(next[0] == ints(targets@)[0]);
                        assert(next[0] == target as int);
                        assert(ints(targets@).skip(1) =~= next.drop_first());
                        self.trace = Ghost(
                            self.trace@.push((Some(node as int), target as int)),
                        );
                        assert(0 <= next[0] < len);
                        assert forall|i: int| 0 <= i < next.drop_first().len() implies 0
                            <= #[trigger] next.drop_first()[i] < len by {
                            assert(next.drop_first()[i] == next[i + 1]);
                        }
                        assert forall|i: int| 0 <= i < self.trace@.len() implies ((
                        #[trigger] self.trace@[i]).0 matches Some(source) ==> allowed_now.contains(
                            source,
                        )) && 0 <= self.trace@[i].1 < len && (self.trace@[i].0 matches Some(source)
                            ==> 0 <= source < len) by {
                            if i < before.trace.len() {
                                assert(self.trace@[i] == before.trace[i]);
                            }
                        }
                        assert(self.trace@[0] == before.trace[0]);
                    }
                    self.parent = node;
                    self.targets = targets;
                    self.position = 1;
                    self.asked = Some(target);
                    let source = graph.module_at(node);
                    let module = graph.module_at(target);
                    proof {
                        assert(descend(edges, pushed_stack, before.discovered) == (
                            stack.drop_last(),
                            discovered.insert(node as int),
                            Some(node as int),
                        ));
                        assert(self@.waiting =~= successors(edges, node as int).drop_first());
                        assert(self@ == walk_step(edges, before, previous));
                    }
                    return Some((Some(source), module));
                }
            } else {
                proof {
                    assert(bitset_members(self.discovered) =~= discovered);
                }
            }
        }
        self.finished = true;
        self.asked = None;
        proof {
            assert(ints(self.stack@) =~= Seq::<int>::empty());
            assert(self@.waiting =~= before.waiting);
            assert(self@ == walk_step(edges, before, previous));
            assert forall|i: int| 0 <= i < self.trace@.len() implies ((
            #[trigger] self.trace@[i]).0 matches Some(source) ==> allowed_now.contains(source)) by {
                assert(self.trace@[i] == before.trace[i]);
            }
        }
        None
    }
}

impl SingleModuleGraph {
    /// Starts a walk of the edges that the entry `entry` reaches.
    pub fn traverse_edges_from_entry<'a>(&'a self, entry: ModuleId) -> (walk: Result<
        EdgeWalk<'a>,
        GraphError,
    >)
        requires
            self.wf(),
        ensures
            match walk {
                Ok(walk) => {
                    &&& self.entries().contains_key(entry)
                    &&& walk.wf()
                    &&& walk.graph() == *self
                    &&& walk@ == walk_start(self.entries()[entry] as int)
                },
                Err(error) => error == GraphError::EntryNotFound && !self.entries().contains_key(
                    entry,
                ),
            },
    {
        let start = match self.get_entry(entry) {
            Ok(start) => start,
            Err(error) => {
                return Err(error);
            },
        };
        let mut stack: Vec<usize> = Vec::new();
        stack.push(start);
        let discovered = graph_visit_map(self.digraph());
        let ghost allowed: Set<int> = Set::empty().insert(start as int);
        let walk = EdgeWalk {
            graph: self,
            entry: start,
            started: false,
            finished: false,
            stack,
            discovered,
            parent: start,
            targets: Vec::new(),
            position: 0,
            asked: None,
            allowed: Ghost(allowed),
            trace: Ghost(Seq::empty()),
            order: Ghost(Seq::empty()),
        };
        proof {
            assert(walk@.stack =~= seq![start as int]);
            assert(walk@.allowed =~= set![start as int]);
            assert(walk@.waiting =~= Seq::<int>::empty());
            assert(walk@ == walk_start(start as int));
            assert(walk.order@.to_set() =~= bitset_members(walk.discovered));
        }
        Ok(walk)
    }
}

} // verus!
