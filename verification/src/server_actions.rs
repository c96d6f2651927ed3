//! Server actions: which modules of a graph declare actions, and which
//! actions an endpoint registers.

use crate::module_graph::GraphError;
use crate::module_graph::ModuleId;
use crate::module_graph::SingleModuleGraph;
use crate::ordered_map::put_all;
use crate::ordered_map::OrderedMap;
use crate::traversal::among;
use vstd::prelude::*;

verus! {

/// The layer in which a module declares its actions.
#[derive(Clone, Copy, PartialEq, Eq, Debug, Structural)]
pub enum ActionLayer {
    Rsc,
    ActionBrowser,
}

/// One action: its hash and the name it is exported under.
#[derive(Debug)]
pub struct ServerAction {
    pub hash: String,
    pub name: String,
}

/// The actions that a module declares, the layer it declares them in, and
/// the module that stands for it in the server-component layer.
#[derive(Debug)]
pub struct ModuleActions {
    pub layer: ActionLayer,
    pub rsc_module: ModuleId,
    pub actions: Vec<ServerAction>,
}

/// (Layer, RSC or Browser module) -> list of actions
pub type AllModuleActions = OrderedMap<ModuleId, ModuleActions>;

/// What is registered for an action: its layer, its name, and the module
/// that declares it, as the server-component layer knows it.
pub type ActionRecord = (ActionLayer, String, ModuleId);

/// For each action hash, what is registered for it.
pub type AllActions = OrderedMap<String, ActionRecord>;

/// An action hash with what is registered for it.
pub type HashedAction = (Seq<char>, ActionRecord);

/// The module under which the actions of `module` are registered: itself
/// where it declares them in the server-component layer, else the module
/// that stands for it there.
pub open spec fn registering_module(module: ModuleId, actions: ModuleActions) -> ModuleId {
    if actions.layer == ActionLayer::Rsc {
        module
    } else {
        actions.rsc_module
    }
}

/// What the actions of `module` register, in their order.
pub open spec fn records_of(module: ModuleId, actions: ModuleActions) -> Seq<HashedAction> {
    Seq::new(
        actions.actions@.len(),
        |i: int|
            (
                actions.actions@[i].hash@,
                (actions.layer, actions.actions@[i].name, registering_module(module, actions)),
            ),
    )
}

/// What the actions of the modules in `selected` register, module after
/// module. A module that is not among `modules` registers nothing.
pub open spec fn actions_of(
    modules: Seq<ModuleId>,
    actions: Seq<ModuleActions>,
    selected: Seq<ModuleId>,
) -> Seq<HashedAction>
    decreases selected.len(),
{
    if selected.len() == 0 {
        Seq::empty()
    } else if modules.contains(selected.last()) {
        actions_of(modules, actions, selected.drop_last()) + records_of(
            selected.last(),
            actions[modules.index_of(selected.last())],
        )
    } else {
        actions_of(modules, actions, selected.drop_last())
    }
}

/// Registers the actions of the modules in `selected`, module after module.
/// Where a hash comes again, what is registered for it is replaced.
pub fn register_actions(data: &AllModuleActions, selected: &Vec<ModuleId>) -> (found: AllActions)
    requires
        data.wf(),
    ensures
        found.wf(),
        (found.keys(), found.values()) == put_all(
            Seq::<Seq<char>>::empty(),
            Seq::<ActionRecord>::empty(),
            actions_of(data.keys(), data.values(), selected@),
        ),
{
    let mut found: AllActions = OrderedMap::new();
    let ghost none = Seq::<Seq<char>>::empty();
    let ghost nothing = Seq::<ActionRecord>::empty();
    let mut position: usize = 0;
    assert(selected@.take(0) =~= Seq::<ModuleId>::empty());
    while position < selected.len()
        invariant
            data.wf(),
            position <= selected@.len(),
            found.wf(),
            (found.keys(), found.values()) == put_all(
                none,
                nothing,
                actions_of(data.keys(), data.values(), selected@.take(position as int)),
            ),
        decreases selected.len() - position,
    {
        let module = selected[position];
        let ghost base = actions_of(data.keys(), data.values(), selected@.take(position as int));
        proof {
            assert(selected@.take(position + 1).drop_last() =~= selected@.take(position as int));
            assert(selected@.take(position + 1).last() == module);
        }
        match data.position(&module) {
            Some(index) => {
                let declared = data.value_at(index);
                let ghost records = records_of(module, *declared);
                let registering = match declared.layer {
                    ActionLayer::Rsc => module,
                    ActionLayer::ActionBrowser => declared.rsc_module,
                };
                let mut turn: usize = 0;
                assert(base + records.take(0) =~= base);
                while turn < declared.actions.len()
                    invariant
                        turn <= declared.actions@.len(),
                        records == records_of(module, *declared),
                        registering == registering_module(module, *declared),
                        found.wf(),
                        (found.keys(), found.values()) == put_all(
                            none,
                            nothing,
                            base + records.take(turn as int),
                        ),
                    decreases declared.actions.len() - turn,
                {
                    let hash = declared.actions[turn].hash.clone();
                    let name = declared.actions[turn].name.clone();
                    proof {
                        let longer = base + records.take(turn + 1);
                        assert(longer.drop_last() =~= base + records.take(turn as int));
                        assert(longer.last() == records[turn as int]);
                        assert(records[turn as int] == (
                            hash@,
                            (declared.layer, name, registering),
                        ));
                    }
                    found.insert(hash, (declared.layer, name, registering));
                    turn = turn + 1;
                }
                proof {
                    assert(records.take(turn as int) =~= records);
                    assert(selected@.take(position + 1).drop_last() =~= selected@.take(
                        position as int,
                    ));
                    assert(selected@.take(position + 1).last() == module);
                }
            },
            None => {},
        }
        position = position + 1;
    }
    assert(selected@.take(position as int) =~= selected@);
    found
}

/// The actions of a graph's modules, and the graph.
pub struct ServerActionsGraph<'a> {
    is_single_page: bool,
    graph: &'a SingleModuleGraph,
    /// (Layer, RSC or Browser module) -> list of actions
    data: &'a AllModuleActions,
}

impl<'a> ServerActionsGraph<'a> {
    /// The graph.
    pub closed spec fn graph(&self) -> SingleModuleGraph {
        *self.graph
    }

    /// Whether the graph holds the modules of one endpoint only.
    pub closed spec fn is_single_page(&self) -> bool {
        self.is_single_page
    }

    /// The modules that declare actions, in order.
    pub closed spec fn modules(&self) -> Seq<ModuleId> {
        self.data.keys()
    }

    /// What each module declares, in the order of
    /// [`ServerActionsGraph::modules`].
    pub closed spec fn actions(&self) -> Seq<ModuleActions> {
        self.data.values()
    }

    /// The invariant: the graph's, and each declaring module stands once.
    pub open spec fn wf(&self) -> bool {
        &&& self.graph().wf()
        &&& self.modules().no_duplicates()
        &&& self.modules().len() == self.actions().len()
    }

    /// The query for the entry `entry` fails.
    pub open spec fn misses(&self, entry: ModuleId) -> bool {
        !self.is_single_page() && !self.graph().entries().contains_key(entry)
    }

    /// `selected` lists the modules whose actions belong to the endpoint of
    /// the entry `entry`: for a graph of one endpoint every declaring module,
    /// in their order; else those that the entry reaches, in the order in
    /// which the graph is visited from the entry.
    pub open spec fn selects(&self, entry: ModuleId, selected: Seq<ModuleId>) -> bool {
        if self.is_single_page() {
            selected == self.modules()
        } else {
            exists|visited: Seq<ModuleId>| #[trigger]
                self.graph().searches(entry, visited) && selected == visited.filter(
                    among(self.modules()),
                )
        }
    }

    /// `result` answers the query for the entry `entry`.
    pub open spec fn answers(&self, entry: ModuleId, result: Result<AllActions, GraphError>) -> bool {
        match result {
            Ok(found) => {
                &&& !self.misses(entry)
                &&& found.wf()
                &&& exists|selected: Seq<ModuleId>| #[trigger]
                    self.selects(entry, selected) && (found.keys(), found.values()) == put_all(
                        Seq::<Seq<char>>::empty(),
                        Seq::<ActionRecord>::empty(),
                        actions_of(self.modules(), self.actions(), selected),
                    )
            },
            Err(error) => error == GraphError::EntryNotFound && self.misses(entry),
        }
    }

    /// Pairs `graph` with the actions of its modules.
    pub fn new_with_entries(
        graph: &'a SingleModuleGraph,
        is_single_page: bool,
        data: &'a AllModuleActions,
    ) -> (made: Self)
        requires
            graph.wf(),
            data.wf(),
        ensures
            made.wf(),
            made.graph() == *graph,
            made.is_single_page() == is_single_page,
            made.modules() == data.keys(),
            made.actions() == data.values(),
    {
        ServerActionsGraph { is_single_page, graph, data }
    }

    /// The actions that the endpoint of the entry `entry` registers, by
    /// their hashes.
    pub fn get_server_actions_for_endpoint(&self, entry: ModuleId) -> (result: Result<
        AllActions,
        GraphError,
    >)
        requires
            self.wf(),
        ensures
            self.answers(entry, result),
    {
        let mut selected: Vec<ModuleId> = Vec::new();
        if self.is_single_page {
            // The graph contains the page (= `entry`) only, no need to filter.
            let count = self.data.len();
            let mut position: usize = 0;
            while position < count
                invariant
                    self.data.wf(),
                    count == self.data.keys().len(),
                    position <= count,
                    selected@ == self.data.keys().take(position as int),
                decreases count - position,
            {
                selected.push(*self.data.key_at(position));
                position = position + 1;
                assert(selected@ =~= self.data.keys().take(position as int));
            }
            assert(self.data.keys().take(position as int) =~= self.data.keys());
        } else {
            // The graph contains the whole app, traverse and collect all reachable imports.
            selected = match self.graph.traverse_known_from_entry(entry, self.data) {
                Ok(known) => known,
                Err(error) => {
                    return Err(error);
                },
            };
        }
        let found = register_actions(self.data, &selected);
        assert(self.selects(entry, selected@));
        Ok(found)
    }
}

} // verus!
