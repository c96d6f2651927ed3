//! Which graphs are built for an endpoint.
//!
//! For the whole application one graph is built from all its entries. For one
//! endpoint a chain of graphs is built, so that what the endpoint's layout
//! segments share is walked and stored once: first a graph from the modules
//! that every segment shares; then, in the route's order, a graph from the
//! server component of each segment; last a graph from the endpoint itself.
//! Each graph is built with the modules of all the graphs before it counted
//! as visited, so it holds none of them but its own entries. The endpoint is
//! the root of every graph of the chain.

use crate::builder::completes;
use crate::builder::is_build_of;
use crate::builder::items_of;
use crate::builder::kept_targets;
use crate::builder::lemma_build_leaves_out_visited;
use crate::builder::settle;
use crate::builder::BuildStep;
use crate::builder::WorkItem;
use crate::builder::GraphBuilder;
use crate::builder::PendingReferences;
use crate::builder::Supplied;
use crate::client_references::ClientReferencesGraph;
use crate::client_references::ModuleKinds;
use crate::client_references::ServerEntries;
use crate::module_graph::GraphError;
use crate::module_graph::ModuleId;
use crate::module_graph::ModuleReference;
use crate::module_graph::SingleModuleGraph;
use crate::next_dynamic::import_views;
use crate::next_dynamic::DynamicImports;
use crate::next_dynamic::NextDynamicGraph;
use crate::reduced_graphs::ReducedGraphs;
use crate::server_actions::AllModuleActions;
use crate::server_actions::ServerActionsGraph;
use std::collections::HashMap;
use std::collections::HashSet;
use vstd::prelude::*;

verus! {

/// How the application is built.
#[derive(Clone, Copy, PartialEq, Eq, Debug, Structural)]
pub enum NextMode {
    /// Each endpoint is built on its own, when it is asked for.
    Development,
    /// The whole application is built at once.
    Build,
}

/// The modules that the graphs hold.
pub open spec fn modules_of(graphs: Seq<SingleModuleGraph>) -> Set<ModuleId> {
    Set::new(
        |m: ModuleId|
            exists|i: int| 0 <= i < graphs.len() && (#[trigger] graphs[i]).contains_module(m),
    )
}

/// The entries of the graph at `index` of a chain: the shared modules for the
/// first graph, one module of `plan` for each later one.
pub open spec fn chain_entries(utils: Seq<ModuleId>, plan: Seq<ModuleId>, index: int) -> Seq<
    ModuleId,
> {
    if index == 0 {
        utils
    } else {
        seq![plan[index - 1]]
    }
}

/// `graphs` are the first graphs of the chain under `root`: each is built
/// from its entries (see [`chain_entries`]) with the modules of the graphs
/// before it counted as visited, when `answered` holds for each graph what
/// its modules refer to.
pub open spec fn is_chain(
    graphs: Seq<SingleModuleGraph>,
    root: ModuleId,
    utils: Seq<ModuleId>,
    plan: Seq<ModuleId>,
    answered: Seq<Supplied>,
) -> bool {
    &&& graphs.len() <= answered.len()
    &&& graphs.len() <= plan.len() + 1
    &&& forall|i: int|
        0 <= i < graphs.len() ==> (#[trigger] graphs[i]).wf() && is_build_of(
            graphs[i],
            chain_entries(utils, plan, i),
            Some(root),
            modules_of(graphs.take(i)),
            answered[i],
        )
}

/// A graph of a chain holds no module of an earlier graph of the chain but
/// its own entries.
pub proof fn lemma_chain_shares_only_entries(
    graphs: Seq<SingleModuleGraph>,
    root: ModuleId,
    utils: Seq<ModuleId>,
    plan: Seq<ModuleId>,
    answered: Seq<Supplied>,
    earlier: int,
    later: int,
    module: ModuleId,
)
    requires
        is_chain(graphs, root, utils, plan, answered),
        0 <= earlier < later < graphs.len(),
        graphs[earlier].contains_module(module),
        graphs[later].contains_module(module),
    ensures
        graphs[later].entries().contains_key(module),
{
    let graph = graphs[later];
    let visited = modules_of(graphs.take(later));
    assert(graphs.take(later)[earlier] == graphs[earlier]);
    assert(visited.contains(module));
    lemma_build_leaves_out_visited(
        graph,
        chain_entries(utils, plan, later),
        Some(root),
        visited,
        answered[later],
        module,
    );
}

/// The graphs of an endpoint in the making, ready to go on.
pub struct ModuleGraphsBuilder {
    root: ModuleId,
    utils: Ghost<Seq<ModuleId>>,
    plan: Vec<ModuleId>,
    graphs: Vec<SingleModuleGraph>,
    visited: Vec<ModuleId>,
    current: GraphBuilder,
    answered: Ghost<Seq<Supplied>>,
}

/// The graphs of an endpoint in the making, waiting for the references of
/// one module.
pub struct PendingGraphs {
    root: ModuleId,
    utils: Ghost<Seq<ModuleId>>,
    plan: Vec<ModuleId>,
    graphs: Vec<SingleModuleGraph>,
    visited: Vec<ModuleId>,
    current: PendingReferences,
    answered: Ghost<Seq<Supplied>>,
}

/// What the making of an endpoint's graphs hands out when it stops.
pub enum GraphsStep {
    /// The references of a module are needed.
    Resolve(PendingGraphs),
    /// All graphs are built.
    Complete(Vec<SingleModuleGraph>),
}

/// What holds of the parts of a chain in the making, whose current graph is
/// built from `entries` with `visited` counted as visited.
pub open spec fn chain_inv(
    root: ModuleId,
    utils: Seq<ModuleId>,
    plan: Seq<ModuleId>,
    graphs: Seq<SingleModuleGraph>,
    listed: Seq<ModuleId>,
    answered: Seq<Supplied>,
    current_root: Option<ModuleId>,
    entries: Seq<ModuleId>,
    visited: Set<ModuleId>,
) -> bool {
    &&& is_chain(graphs, root, utils, plan, answered)
    &&& answered.len() == graphs.len()
    &&& graphs.len() <= plan.len()
    &&& listed.to_set() =~= modules_of(graphs)
    &&& current_root == Some(root)
    &&& entries == chain_entries(utils, plan, graphs.len() as int)
    &&& visited == modules_of(graphs)
}

impl ModuleGraphsBuilder {
    /// The endpoint, which is the root of every graph.
    pub closed spec fn root(&self) -> ModuleId {
        self.root
    }

    /// The modules that every layout segment shares.
    pub closed spec fn utils(&self) -> Seq<ModuleId> {
        self.utils@
    }

    /// The entries of the graphs after the first: the server component of
    /// each layout segment, and last the endpoint.
    pub closed spec fn plan(&self) -> Seq<ModuleId> {
        self.plan@
    }

    /// The graphs that are built.
    pub closed spec fn finished(&self) -> Seq<SingleModuleGraph> {
        self.graphs@
    }

    /// For each graph that is built or being built, the references that were
    /// supplied to its walk.
    pub closed spec fn answered(&self) -> Seq<Supplied> {
        self.answered@.push(self.current.supplied())
    }

    /// The invariant.
    pub closed spec fn wf(&self) -> bool {
        &&& self.current.wf()
        &&& chain_inv(
            self.root,
            self.utils@,
            self.plan@,
            self.graphs@,
            self.visited@,
            self.answered@,
            self.current.root(),
            self.current.entries(),
            self.current.visited(),
        )
    }

    /// The graph that is being built has room for what its walk can still
    /// ask for.
    pub closed spec fn has_room(&self) -> bool {
        self.current.has_room()
    }

    /// The nodes of the graph that is being built.
    pub closed spec fn nodes(&self) -> Seq<ModuleId> {
        self.current.nodes()
    }

    /// The edges of the graph that is being built.
    pub closed spec fn edges(&self) -> Seq<(int, int)> {
        self.current.edges()
    }

    /// The work that waits in the walk of the graph that is being built.
    pub closed spec fn stack(&self) -> Seq<WorkItem> {
        self.current.stack()
    }

    /// The entries of the graph that is being built.
    pub closed spec fn entries(&self) -> Seq<ModuleId> {
        self.current.entries()
    }

    /// The modules of the graphs that are built.
    pub closed spec fn visited(&self) -> Set<ModuleId> {
        self.current.visited()
    }

    /// Goes on building. The walk of the graph in the making goes on (see
    /// [`GraphBuilder::advance`]). Where it stops for a module's references,
    /// so does this. Where it hands out its graph, the graph's modules count
    /// as visited from then on, and the walk of the next graph of the chain
    /// starts; after the last graph, the graphs are handed out.
    pub fn advance(self) -> (step: Result<GraphsStep, GraphError>)
        requires
            self.wf(),
        ensures
            step is Err <==> !self.has_room(),
            match step {
                Ok(GraphsStep::Resolve(pending)) => {
                    &&& pending.wf()
                    &&& pending.root() == self.root()
                    &&& pending.utils() == self.utils()
                    &&& pending.plan() == self.plan()
                    &&& pending.node() < pending.nodes().len()
                    &&& pending.nodes()[pending.node() as int] == pending.waiting_module()
                    &&& pending.visited() == modules_of(pending.finished())
                    &&& pending.entries() == chain_entries(
                        pending.utils(),
                        pending.plan(),
                        pending.finished().len() as int,
                    )
                    &&& self.finished() == pending.finished().take(self.finished().len() as int)
                    &&& self.answered() == pending.answered().take(self.answered().len() as int)
                    &&& forall|i: int|
                        self.answered().len() <= i < pending.answered().len()
                            ==> #[trigger] pending.answered()[i] == Supplied::empty()
                },
                Ok(GraphsStep::Complete(graphs)) => {
                    &&& graphs@.len() == self.plan().len() + 1
                    &&& self.finished() == graphs@.take(self.finished().len() as int)
                    &&& exists|answered: Seq<Supplied>| #[trigger]
                        is_chain(graphs@, self.root(), self.utils(), self.plan(), answered)
                            && self.answered() == answered.take(self.answered().len() as int)
                },
                Err(error) => error == GraphError::CapacityExceeded,
            },
            ({
                let settled = settle(self.nodes(), self.edges(), self.stack(), self.visited());
                match step {
                    Ok(GraphsStep::Resolve(pending)) => if settled.3 is Some {
                        &&& pending.finished() == self.finished()
                        &&& (
                            pending.nodes(),
                            pending.edges(),
                            pending.stack(),
                            Some(pending.node() as int),
                        ) == settled
                    } else {
                        &&& pending.finished().len() == self.finished().len() + 1
                        &&& completes(
                            pending.finished().last(),
                            settled.0,
                            settled.1,
                            self.entries(),
                            Some(self.root()),
                        )
                        &&& pending.nodes() == seq![self.plan()[self.finished().len() as int]]
                        &&& pending.edges() == Seq::<(int, int)>::empty()
                        &&& pending.stack() == Seq::<WorkItem>::empty()
                        &&& pending.node() == 0
                    },
                    Ok(GraphsStep::Complete(graphs)) => settled.3 is None && completes(
                        graphs@.last(),
                        settled.0,
                        settled.1,
                        self.entries(),
                        Some(self.root()),
                    ),
                    Err(_) => true,
                }
            }),
    {
        let ghost settled = settle(self.nodes(), self.edges(), self.stack(), self.visited());
        let ghost first_entries = self.entries();
        let ModuleGraphsBuilder { root, utils, plan, graphs, visited, current, answered } = self;
        let mut graphs = graphs;
        let mut visited = visited;
        let mut current = current;
        let ghost mut answered = answered@;
        let ghost mut first = true;
        loop
            invariant
                self.wf(),
                settled == settle(self.nodes(), self.edges(), self.stack(), self.visited()),
                first_entries == self.entries(),
                first ==> graphs@ == self.graphs@,
                !first ==> {
                    &&& settled.3 is None
                    &&& graphs@.len() == self.graphs@.len() + 1
                    &&& completes(graphs@.last(), settled.0, settled.1, first_entries, Some(root))
                    &&& current.nodes() == Seq::<ModuleId>::empty()
                    &&& current.edges() == Seq::<(int, int)>::empty()
                    &&& current.stack() == seq![(None::<usize>, plan@[self.graphs@.len() as int])]
                },
                root == self.root,
                utils@ == self.utils@,
                plan@ == self.plan@,
                current.wf(),
                chain_inv(
                    root,
                    utils@,
                    plan@,
                    graphs@,
                    visited@,
                    answered,
                    current.root(),
                    current.entries(),
                    current.visited(),
                ),
                self.graphs@ == graphs@.take(self.graphs@.len() as int),
                self.graphs@.len() <= graphs@.len(),
                self.answered() == answered.push(current.supplied()).take(
                    self.answered().len() as int,
                ),
                forall|i: int|
                    self.answered().len() <= i < answered.len() + 1 ==> #[trigger] answered.push(
                        current.supplied(),
                    )[i] == Supplied::empty(),
                first ==> current == self.current,
                !first ==> self.has_room() && current.has_room(),
            decreases plan@.len() - graphs@.len(),
        {
            let ghost before = current;
            let ghost done = graphs@;
            proof {
                if !first {
                    let entry = plan@[self.graphs@.len() as int];
                    let items = seq![(None::<usize>, entry)];
                    assert(items.last() == (None::<usize>, entry));
                    assert(!Seq::<ModuleId>::empty().contains(entry));
                    assert(settle(
                        Seq::<ModuleId>::empty(),
                        Seq::<(int, int)>::empty(),
                        items,
                        before.visited(),
                    ) == (
                        Seq::<ModuleId>::empty().push(entry),
                        Seq::<(int, int)>::empty(),
                        items.drop_last(),
                        Some(0int),
                    ));
                    assert(items.drop_last() =~= Seq::<WorkItem>::empty());
                    assert(Seq::<ModuleId>::empty().push(entry) =~= seq![entry]);
                }
            }
            let step = match current.advance() {
                Ok(step) => step,
                Err(error) => {
                    return Err(error);
                },
            };
            match step {
                BuildStep::Resolve(pending) => {
                    let waiting = PendingGraphs {
                        root,
                        utils,
                        plan,
                        graphs,
                        visited,
                        current: pending,
                        answered: Ghost(answered),
                    };
                    proof {
                        assert(waiting.answered() =~= answered.push(before.supplied()));
                    }
                    return Ok(GraphsStep::Resolve(waiting));
                },
                BuildStep::Complete(graph) => {
                    let nodes = graph.enumerate_nodes();
                    let ghost listed = visited@;
                    let mut position: usize = 0;
                    while position < nodes.len()
                        invariant
                            position <= nodes@.len(),
                            nodes@.len() == graph.nodes().len(),
                            forall|i: int|
                                0 <= i < nodes@.len() ==> (#[trigger] nodes@[i]).1
                                    == graph.nodes()[i],
                            visited@ == listed + graph.nodes().take(position as int),
                        decreases nodes.len() - position,
                    {
                        visited.push(nodes[position].1);
                        position = position + 1;
                        assert(visited@ =~= listed + graph.nodes().take(position as int));
                    }
                    let ghost supplied = before.supplied();
                    proof {
                        assert(graph.nodes().take(position as int) =~= graph.nodes());
                        let longer = done.push(graph);
                        assert(longer.take(done.len() as int) =~= done);
                        assert forall|m: ModuleId|
                            visited@.to_set().contains(m) <==> modules_of(longer).contains(m) by {
                            if visited@.to_set().contains(m) {
                                let i = choose|i: int| 0 <= i < visited@.len() && visited@[i] == m;
                                if i < listed.len() {
                                    assert(listed.to_set().contains(listed[i]));
                                    let j = choose|j: int|
                                        0 <= j < done.len() && (#[trigger] done[j]).contains_module(
                                            m,
                                        );
                                    assert(longer[j].contains_module(m));
                                } else {
                                    assert(graph.nodes()[i - listed.len()] == m);
                                    assert(longer[done.len() as int].contains_module(m));
                                }
                            }
                            if modules_of(longer).contains(m) {
                                let j = choose|j: int|
                                    0 <= j < longer.len() && (#[trigger] longer[j]).contains_module(
                                        m,
                                    );
                                if j < done.len() {
                                    assert(done[j].contains_module(m));
                                    assert(listed.to_set().contains(m));
                                    let i = choose|i: int| 0 <= i < listed.len() && listed[i] == m;
                                    assert(visited@[i] == m);
                                } else {
                                    let i = choose|i: int|
                                        0 <= i < graph.nodes().len() && graph.nodes()[i] == m;
                                    assert(visited@[listed.len() + i] == m);
                                }
                            }
                        }
                        assert(visited@.to_set() =~= modules_of(longer));
                        let more = answered.push(supplied);
                        assert forall|i: int| 0 <= i < longer.len() implies (
                        #[trigger] longer[i]).wf() && is_build_of(
                            longer[i],
                            chain_entries(utils@, plan@, i),
                            Some(root),
                            modules_of(longer.take(i)),
                            more[i],
                        ) by {
                            if i < done.len() {
                                assert(longer.take(i) =~= done.take(i));
                                assert(longer[i] == done[i]);
                            } else {
                                assert(longer.take(i) =~= done);
                            }
                        }
                        answered = more;
                    }
                    graphs.push(graph);
                    if graphs.len() > plan.len() {
                        proof {
                            assert(self.answered() =~= answered.take(self.answered().len() as int));
                            assert(self.finished() =~= graphs@.take(self.finished().len() as int));
                            assert(is_chain(
                                graphs@,
                                self.root(),
                                self.utils(),
                                self.plan(),
                                answered,
                            ));
                        }
                        return Ok(GraphsStep::Complete(graphs));
                    }
                    let entry = plan[graphs.len() - 1];
                    let mut entries: Vec<ModuleId> = Vec::new();
                    entries.push(entry);
                    let mut seen: HashSet<ModuleId> = HashSet::new();
                    let mut turn: usize = 0;
                    while turn < visited.len()
                        invariant
                            turn <= visited@.len(),
                            seen@ =~= visited@.take(turn as int).to_set(),
                        decreases visited.len() - turn,
                    {
                        seen.insert(visited[turn]);
                        proof {
                            let shorter = visited@.take(turn as int);
                            let longer = visited@.take(turn + 1);
                            assert(longer =~= shorter.push(visited@[turn as int]));
                            assert forall|m: ModuleId| longer.to_set().contains(m)
                                <==> shorter.to_set().contains(m) || m == visited@[turn as int] by {
                                if shorter.to_set().contains(m) {
                                    let i = choose|i: int| 0 <= i < shorter.len() && shorter[i] == m;
                                    assert(longer[i] == m);
                                }
                                if m == visited@[turn as int] {
                                    assert(longer[turn as int] == m);
                                }
                                if longer.to_set().contains(m) && m != visited@[turn as int] {
                                    let i = choose|i: int| 0 <= i < longer.len() && longer[i] == m;
                                    assert(shorter[i] == m);
                                }
                            }
                        }
                        turn = turn + 1;
                    }
                    proof {
                        assert(visited@.take(turn as int) =~= visited@);
                        assert(entries@ =~= seq![entry]);
                        assert(self.answered() =~= answered.take(self.answered().len() as int));
                        first = false;
                    }
                    current = SingleModuleGraph::new_with_entries_visited(root, entries, seen);
                    proof {
                        assert(current.stack().len() == 1);
                        assert(current.entries().len() == 1);
                        assert(current.stack() =~= seq![(None::<usize>, entry)]);
                        assert(current.nodes() =~= Seq::<ModuleId>::empty());
                        assert(current.edges() =~= Seq::<(int, int)>::empty());
                    }
                },
            }
        }
    }
}

impl PendingGraphs {
    /// See [`ModuleGraphsBuilder::root`].
    pub closed spec fn root(&self) -> ModuleId {
        self.root
    }

    /// See [`ModuleGraphsBuilder::utils`].
    pub closed spec fn utils(&self) -> Seq<ModuleId> {
        self.utils@
    }

    /// See [`ModuleGraphsBuilder::plan`].
    pub closed spec fn plan(&self) -> Seq<ModuleId> {
        self.plan@
    }

    /// See [`ModuleGraphsBuilder::finished`].
    pub closed spec fn finished(&self) -> Seq<SingleModuleGraph> {
        self.graphs@
    }

    /// See [`ModuleGraphsBuilder::answered`].
    pub closed spec fn answered(&self) -> Seq<Supplied> {
        self.answered@.push(self.current.supplied())
    }

    /// The module whose references are waited for.
    pub closed spec fn waiting_module(&self) -> ModuleId {
        self.current.waiting_module()
    }

    /// See [`ModuleGraphsBuilder::nodes`].
    pub closed spec fn nodes(&self) -> Seq<ModuleId> {
        self.current.nodes()
    }

    /// See [`ModuleGraphsBuilder::edges`].
    pub closed spec fn edges(&self) -> Seq<(int, int)> {
        self.current.edges()
    }

    /// See [`ModuleGraphsBuilder::stack`].
    pub closed spec fn stack(&self) -> Seq<WorkItem> {
        self.current.stack()
    }

    /// See [`ModuleGraphsBuilder::entries`].
    pub closed spec fn entries(&self) -> Seq<ModuleId> {
        self.current.entries()
    }

    /// See [`ModuleGraphsBuilder::visited`].
    pub closed spec fn visited(&self) -> Set<ModuleId> {
        self.current.visited()
    }

    /// The node of the module whose references are waited for.
    pub closed spec fn node(&self) -> usize {
        self.current.node()
    }

    /// The invariant.
    pub closed spec fn wf(&self) -> bool {
        &&& self.current.wf()
        &&& chain_inv(
            self.root,
            self.utils@,
            self.plan@,
            self.graphs@,
            self.visited@,
            self.answered@,
            self.current.root(),
            self.current.entries(),
            self.current.visited(),
        )
    }

    /// The module whose references are waited for.
    pub fn module(&self) -> (module: ModuleId)
        ensures
            module == self.waiting_module(),
    {
        self.current.module()
    }

    /// Takes the references of the module that is waited for (see
    /// [`PendingReferences::resolve`]).
    pub fn resolve(self, references: &Vec<ModuleReference>) -> (builder: ModuleGraphsBuilder)
        requires
            self.wf(),
        ensures
            builder.wf(),
            builder.root() == self.root(),
            builder.utils() == self.utils(),
            builder.plan() == self.plan(),
            builder.finished() == self.finished(),
            builder.answered() == self.answered().update(
                self.answered().len() - 1,
                self.answered().last().insert(self.waiting_module(), references@),
            ),
            builder.nodes() == self.nodes(),
            builder.edges() == self.edges(),
            builder.entries() == self.entries(),
            builder.visited() == self.visited(),
            builder.stack() == self.stack() + items_of(self.node(), kept_targets(references@)),
    {
        let PendingGraphs { root, utils, plan, graphs, visited, current, answered } = self;
        let current = current.resolve(references);
        let builder = ModuleGraphsBuilder { root, utils, plan, graphs, visited, current, answered };
        proof {
            assert(builder.answered() =~= self.answered().update(
                self.answered().len() - 1,
                self.answered().last().insert(self.waiting_module(), references@),
            ));
        }
        builder
    }
}

/// Implements layout segment optimization to compute a graph "chain" for each layout segment
///
/// Starts the making of the graphs of the endpoint `entry`, whose server
/// entries are `server_entries`.
pub fn get_module_graph_for_endpoint(entry: ModuleId, server_entries: &ServerEntries) -> (builder:
    ModuleGraphsBuilder)
    ensures
        builder.wf(),
        builder.root() == entry,
        builder.utils() == server_entries.server_utils@,
        builder.plan() == server_entries.server_component_entries@.push(entry),
        builder.finished() == Seq::<SingleModuleGraph>::empty(),
        builder.answered() == seq![Supplied::empty()],
        builder.nodes() == Seq::<ModuleId>::empty(),
        builder.edges() == Seq::<(int, int)>::empty(),
        builder.stack() == server_entries.server_utils@.map_values(
            |e: ModuleId| (None::<usize>, e),
        ),
        builder.entries() == server_entries.server_utils@,
        builder.visited() == Set::<ModuleId>::empty(),
{
    let mut utils: Vec<ModuleId> = Vec::new();
    let mut position: usize = 0;
    while position < server_entries.server_utils.len()
        invariant
            position <= server_entries.server_utils@.len(),
            utils@ == server_entries.server_utils@.take(position as int),
        decreases server_entries.server_utils.len() - position,
    {
        utils.push(server_entries.server_utils[position]);
        position = position + 1;
        assert(utils@ =~= server_entries.server_utils@.take(position as int));
    }
    assert(server_entries.server_utils@.take(position as int) =~= server_entries.server_utils@);
    let mut plan: Vec<ModuleId> = Vec::new();
    let mut position: usize = 0;
    while position < server_entries.server_component_entries.len()
        invariant
            position <= server_entries.server_component_entries@.len(),
            plan@ == server_entries.server_component_entries@.take(position as int),
        decreases server_entries.server_component_entries.len() - position,
    {
        plan.push(server_entries.server_component_entries[position]);
        position = position + 1;
        assert(plan@ =~= server_entries.server_component_entries@.take(position as int));
    }
    assert(server_entries.server_component_entries@.take(position as int)
        =~= server_entries.server_component_entries@);
    plan.push(entry);
    let current = SingleModuleGraph::new_with_entries_visited(entry, utils, HashSet::new());
    let builder = ModuleGraphsBuilder {
        root: entry,
        utils: Ghost(server_entries.server_utils@),
        plan,
        graphs: Vec::new(),
        visited: Vec::new(),
        current,
        answered: Ghost(Seq::empty()),
    };
    proof {
        assert(builder.visited@.to_set() =~= modules_of(builder.graphs@));
        assert(builder.current.visited() =~= modules_of(builder.graphs@));
        assert(builder.answered() =~= seq![Supplied::empty()]);
    }
    builder
}

/// Starts the walk that builds the one graph of the whole application from
/// all its entries.
pub fn get_module_graph_for_app_without_issues(entries: Vec<ModuleId>) -> (builder: GraphBuilder)
    ensures
        builder.wf(),
        builder.nodes().len() == 0,
        builder.edges().len() == 0,
        builder.stack() == entries@.map_values(|e: ModuleId| (None::<usize>, e)),
        builder.entries() == entries@,
        builder.root() == None::<ModuleId>,
        builder.visited() == Set::<ModuleId>::empty(),
        builder.supplied() == Supplied::empty(),
{
    SingleModuleGraph::new_with_entries(entries)
}

/// What is known of the modules of one graph.
pub struct GraphData {
    /// The dynamic imports of the graph's modules.
    pub dynamic_imports: DynamicImports,
    /// The server actions of the graph's modules.
    pub server_actions: AllModuleActions,
    /// The kinds of the graph's modules.
    pub kinds: HashMap<ModuleId, ModuleKinds>,
}

/// Generates a [ReducedGraphs] for the given graphs containing information that is
/// either global (module ids, chunking) or computed globally as a performance optimization (client
/// references, etc).
///
/// In development the graphs are those of one endpoint, so queries need not
/// filter; in a build the one graph holds the whole application.
pub fn get_reduced_graphs_for_endpoint<'a>(
    mode: NextMode,
    graphs: &'a Vec<SingleModuleGraph>,
    data: &'a Vec<GraphData>,
) -> (reduced: ReducedGraphs<'a>)
    requires
        graphs@.len() == data@.len(),
        forall|i: int| 0 <= i < graphs@.len() ==> (#[trigger] graphs@[i]).wf(),
        forall|i: int|
            0 <= i < data@.len() ==> (#[trigger] data@[i]).dynamic_imports.wf()
                && data@[i].server_actions.wf(),
    ensures
        reduced.wf(),
        reduced.next_dynamic().len() == graphs@.len(),
        reduced.server_actions().len() == graphs@.len(),
        reduced.client_references().len() == graphs@.len(),
        forall|i: int|
            0 <= i < graphs@.len() ==> {
                &&& (#[trigger] reduced.next_dynamic()[i]).graph() == graphs@[i]
                &&& reduced.next_dynamic()[i].is_single_page() == (mode == NextMode::Development)
                &&& reduced.next_dynamic()[i].importers() == data@[i].dynamic_imports.keys()
                &&& reduced.next_dynamic()[i].imports() == import_views(
                    data@[i].dynamic_imports.values(),
                )
            },
        forall|i: int|
            0 <= i < graphs@.len() ==> {
                &&& (#[trigger] reduced.server_actions()[i]).graph() == graphs@[i]
                &&& reduced.server_actions()[i].is_single_page() == (mode == NextMode::Development)
                &&& reduced.server_actions()[i].modules() == data@[i].server_actions.keys()
                &&& reduced.server_actions()[i].actions() == data@[i].server_actions.values()
            },
        forall|i: int|
            0 <= i < graphs@.len() ==> {
                &&& (#[trigger] reduced.client_references()[i]).graph() == graphs@[i]
                &&& reduced.client_references()[i].is_single_page() == (mode
                    == NextMode::Development)
                &&& forall|m: ModuleId| #[trigger]
                    reduced.client_references()[i].data().contains_key(m)
                        <==> graphs@[i].contains_module(m) && data@[i].kinds@.contains_key(m)
                        && data@[i].kinds@[m].classification() is Some
                &&& forall|m: ModuleId| #[trigger]
                    reduced.client_references()[i].data().contains_key(m) ==> Some(
                        reduced.client_references()[i].data()[m],
                    ) == data@[i].kinds@[m].classification()
            },
{
    let is_single_page = match mode {
        NextMode::Development => true,
        NextMode::Build => false,
    };
    let mut next_dynamic: Vec<NextDynamicGraph<'a>> = Vec::new();
    let mut server_actions: Vec<ServerActionsGraph<'a>> = Vec::new();
    let mut client_references: Vec<ClientReferencesGraph<'a>> = Vec::new();
    let mut position: usize = 0;
    while position < graphs.len()
        invariant
            position <= graphs@.len(),
            graphs@.len() == data@.len(),
            is_single_page == (mode == NextMode::Development),
            forall|i: int| 0 <= i < graphs@.len() ==> (#[trigger] graphs@[i]).wf(),
            forall|i: int|
                0 <= i < data@.len() ==> (#[trigger] data@[i]).dynamic_imports.wf()
                    && data@[i].server_actions.wf(),
            next_dynamic@.len() == position,
            server_actions@.len() == position,
            client_references@.len() == position,
            forall|i: int|
                0 <= i < position ==> {
                    &&& (#[trigger] next_dynamic@[i]).wf()
                    &&& next_dynamic@[i].graph() == graphs@[i]
                    &&& next_dynamic@[i].is_single_page() == is_single_page
                    &&& next_dynamic@[i].importers() == data@[i].dynamic_imports.keys()
                    &&& next_dynamic@[i].imports() == import_views(
                        data@[i].dynamic_imports.values(),
                    )
                },
            forall|i: int|
                0 <= i < position ==> {
                    &&& (#[trigger] server_actions@[i]).wf()
                    &&& server_actions@[i].graph() == graphs@[i]
                    &&& server_actions@[i].is_single_page() == is_single_page
                    &&& server_actions@[i].modules() == data@[i].server_actions.keys()
                    &&& server_actions@[i].actions() == data@[i].server_actions.values()
                },
            forall|i: int|
                0 <= i < position ==> {
                    &&& (#[trigger] client_references@[i]).wf()
                    &&& client_references@[i].graph() == graphs@[i]
                    &&& client_references@[i].is_single_page() == is_single_page
                    &&& forall|m: ModuleId| #[trigger]
                        client_references@[i].data().contains_key(m) <==> graphs@[i].contains_module(
                            m,
                        ) && data@[i].kinds@.contains_key(m) && data@[i].kinds@[m].classification()
                            is Some
                    &&& forall|m: ModuleId| #[trigger]
                        client_references@[i].data().contains_key(m) ==> Some(
                            client_references@[i].data()[m],
                        ) == data@[i].kinds@[m].classification()
                },
        decreases graphs.len() - position,
    {
        let graph = &graphs[position];
        let known = &data[position];
        assert(graphs@[position as int].wf());
        assert(data@[position as int].dynamic_imports.wf());
        next_dynamic.push(
            NextDynamicGraph::new_with_entries(graph, is_single_page, &known.dynamic_imports),
        );
        server_actions.push(
            ServerActionsGraph::new_with_entries(graph, is_single_page, &known.server_actions),
        );
        client_references.push(
            ClientReferencesGraph::new_with_entries(graph, is_single_page, &known.kinds),
        );
        position = position + 1;
    }
    ReducedGraphs::new(next_dynamic, server_actions, client_references)
}

} // verus!
