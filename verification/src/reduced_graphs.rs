//! What is known of an endpoint's modules, drawn from one graph of the whole
//! application or from the graphs of the endpoint's layout segments.

use crate::client_references::with_buckets;
use crate::client_references::ClientReference;
use crate::client_references::ClientReferenceGraphResult;
use crate::client_references::ClientReferencesGraph;
use crate::client_references::ServerEntries;
use crate::module_graph::GraphError;
use crate::module_graph::ModuleId;
use crate::next_dynamic::DynamicImport;
use crate::next_dynamic::DynamicImports;
use crate::next_dynamic::NextDynamicGraph;
use crate::ordered_map::entries_of_all;
use crate::ordered_map::lemma_put_all_add;
use crate::ordered_map::put_all;
use crate::ordered_map::OrderedMap;
use crate::server_actions::ActionRecord;
use crate::server_actions::AllActions;
use crate::server_actions::ServerActionsGraph;
use vstd::prelude::*;

verus! {

/// The references of the results in `parts`, result after result.
pub open spec fn references_of_all(parts: Seq<ClientReferenceGraphResult>) -> Seq<ClientReference>
    decreases parts.len(),
{
    if parts.len() == 0 {
        Seq::empty()
    } else {
        references_of_all(parts.drop_last()) + parts.last().client_references@
    }
}

/// The buckets of the first of `parts`, with the items of the buckets of
/// each later one added in turn.
pub open spec fn buckets_of_all(parts: Seq<ClientReferenceGraphResult>) -> (
    Seq<Option<ModuleId>>,
    Seq<Seq<ModuleId>>,
)
    decreases parts.len(),
{
    if parts.len() == 0 {
        (Seq::empty(), Seq::empty())
    } else if parts.len() == 1 {
        (parts[0].bucket_keys(), parts[0].buckets())
    } else {
        let (keys, buckets) = buckets_of_all(parts.drop_last());
        with_buckets(keys, buckets, parts.last().bucket_keys(), parts.last().buckets())
    }
}

/// The consumers of this shouldn't need to care about the exact contents since it's abstracted
/// away by the accessor functions, but
/// - In dev, contains information about the modules of the current endpoint only
/// - In prod, there is a single `ReducedGraphs` for the whole app, containing all pages
pub struct ReducedGraphs<'a> {
    next_dynamic: Vec<NextDynamicGraph<'a>>,
    server_actions: Vec<ServerActionsGraph<'a>>,
    client_references: Vec<ClientReferencesGraph<'a>>,
}

impl<'a> ReducedGraphs<'a> {
    /// The dynamic imports of each graph.
    pub closed spec fn next_dynamic(&self) -> Seq<NextDynamicGraph<'a>> {
        self.next_dynamic@
    }

    /// The server actions of each graph.
    pub closed spec fn server_actions(&self) -> Seq<ServerActionsGraph<'a>> {
        self.server_actions@
    }

    /// The client references of each graph.
    pub closed spec fn client_references(&self) -> Seq<ClientReferencesGraph<'a>> {
        self.client_references@
    }

    /// The invariant: that of each part.
    pub open spec fn wf(&self) -> bool {
        &&& forall|i: int|
            0 <= i < self.next_dynamic().len() ==> (#[trigger] self.next_dynamic()[i]).wf()
        &&& forall|i: int|
            0 <= i < self.server_actions().len() ==> (#[trigger] self.server_actions()[i]).wf()
        &&& forall|i: int|
            0 <= i < self.client_references().len() ==> (
            #[trigger] self.client_references()[i]).wf()
    }

    /// Puts the parts together.
    pub fn new(
        next_dynamic: Vec<NextDynamicGraph<'a>>,
        server_actions: Vec<ServerActionsGraph<'a>>,
        client_references: Vec<ClientReferencesGraph<'a>>,
    ) -> (made: Self)
        ensures
            made.next_dynamic() == next_dynamic@,
            made.server_actions() == server_actions@,
            made.client_references() == client_references@,
    {
        ReducedGraphs { next_dynamic, server_actions, client_references }
    }

    /// `parts` holds an answer of each graph's dynamic imports to the query
    /// for the entry `entry`.
    pub open spec fn dynamic_parts(&self, entry: ModuleId, parts: Seq<DynamicImports>) -> bool {
        &&& parts.len() == self.next_dynamic().len()
        &&& forall|i: int|
            0 <= i < parts.len() ==> self.next_dynamic()[i].answers(entry, Ok(#[trigger] parts[i]))
    }

    /// `parts` holds an answer of each graph's server actions to the query
    /// for the entry `entry`.
    pub open spec fn action_parts(&self, entry: ModuleId, parts: Seq<AllActions>) -> bool {
        &&& parts.len() == self.server_actions().len()
        &&& forall|i: int|
            0 <= i < parts.len() ==> self.server_actions()[i].answers(
                entry,
                Ok(#[trigger] parts[i]),
            )
    }

    /// `parts` holds an answer of each graph's client references to the query
    /// for the entry `entry`.
    pub open spec fn reference_parts(
        &self,
        entry: ModuleId,
        entries: ServerEntries,
        parts: Seq<ClientReferenceGraphResult>,
    ) -> bool {
        &&& parts.len() == self.client_references().len()
        &&& forall|i: int|
            0 <= i < parts.len() ==> self.client_references()[i].answers(
                entry,
                entries,
                Ok(#[trigger] parts[i]),
            )
    }

    /// Returns the dynamic imports in RSC and SSR modules for the given endpoint.
    ///
    /// With one graph, this is the graph's own answer. Else the entries of
    /// the graphs' answers are put into one map, graph after graph; the query
    /// fails where that of one graph does.
    pub fn get_next_dynamic_imports_for_endpoint(&self, entry: ModuleId) -> (result: Result<
        DynamicImports,
        GraphError,
    >)
        requires
            self.wf(),
        ensures
            self.next_dynamic().len() == 1 ==> self.next_dynamic()[0].answers(entry, result),
            self.next_dynamic().len() != 1 ==> match result {
                Ok(merged) => {
                    &&& merged.wf()
                    &&& exists|parts: Seq<DynamicImports>| #[trigger]
                        self.dynamic_parts(entry, parts) && (merged.keys(), merged.values())
                            == put_all(
                            Seq::<ModuleId>::empty(),
                            Seq::<Vec<DynamicImport>>::empty(),
                            entries_of_all(parts),
                        )
                },
                Err(error) => error == GraphError::EntryNotFound && exists|i: int|
                    0 <= i < self.next_dynamic().len() && (
                    #[trigger] self.next_dynamic()[i]).misses(entry),
            },
    {
        if self.next_dynamic.len() == 1 {
            // Just a single graph, no need to merge results
            assert(self.next_dynamic()[0].wf());
            return self.next_dynamic[0].get_next_dynamic_imports_for_endpoint(entry);
        }
        let mut merged: DynamicImports = OrderedMap::new();
        let ghost mut parts: Seq<DynamicImports> = Seq::empty();
        let mut position: usize = 0;
        while position < self.next_dynamic.len()
            invariant
                self.wf(),
                position <= self.next_dynamic@.len(),
                merged.wf(),
                parts.len() == position,
                forall|i: int|
                    0 <= i < parts.len() ==> self.next_dynamic()[i].answers(
                        entry,
                        Ok(#[trigger] parts[i]),
                    ),
                (merged.keys(), merged.values()) == put_all(
                    Seq::<ModuleId>::empty(),
                    Seq::<Vec<DynamicImport>>::empty(),
                    entries_of_all(parts),
                ),
            decreases self.next_dynamic.len() - position,
        {
            assert(self.next_dynamic()[position as int].wf());
            let part = match self.next_dynamic[position].get_next_dynamic_imports_for_endpoint(
                entry,
            ) {
                Ok(part) => part,
                Err(error) => {
                    assert(self.next_dynamic()[position as int].misses(entry));
                    return Err(error);
                },
            };
            proof {
                let longer = parts.push(part);
                assert(longer.drop_last() =~= parts);
                lemma_put_all_add(
                    Seq::<ModuleId>::empty(),
                    Seq::<Vec<DynamicImport>>::empty(),
                    entries_of_all(parts),
                    part.entries(),
                );
                parts = longer;
            }
            merged.append(part);
            position = position + 1;
        }
        assert(self.dynamic_parts(entry, parts));
        Ok(merged)
    }

    /// Returns the server actions for the given page.
    ///
    /// With one graph, this is the graph's own answer. Else the entries of
    /// the graphs' answers are put into one map, graph after graph, so that
    /// a hash that comes again keeps its place and takes what the later graph
    /// registers; the query fails where that of one graph does.
    pub fn get_server_actions_for_endpoint(&self, entry: ModuleId) -> (result: Result<
        AllActions,
        GraphError,
    >)
        requires
            self.wf(),
        ensures
            self.server_actions().len() == 1 ==> self.server_actions()[0].answers(entry, result),
            self.server_actions().len() != 1 ==> match result {
                Ok(merged) => {
                    &&& merged.wf()
                    &&& exists|parts: Seq<AllActions>| #[trigger]
                        self.action_parts(entry, parts) && (merged.keys(), merged.values())
                            == put_all(
                            Seq::<Seq<char>>::empty(),
                            Seq::<ActionRecord>::empty(),
                            entries_of_all(parts),
                        )
                },
                Err(error) => error == GraphError::EntryNotFound && exists|i: int|
                    0 <= i < self.server_actions().len() && (
                    #[trigger] self.server_actions()[i]).misses(entry),
            },
    {
        if self.server_actions.len() == 1 {
            // Just a single graph, no need to merge results
            assert(self.server_actions()[0].wf());
            return self.server_actions[0].get_server_actions_for_endpoint(entry);
        }
        let mut merged: AllActions = OrderedMap::new();
        let ghost mut parts: Seq<AllActions> = Seq::empty();
        let mut position: usize = 0;
        while position < self.server_actions.len()
            invariant
                self.wf(),
                position <= self.server_actions@.len(),
                merged.wf(),
                parts.len() == position,
                forall|i: int|
                    0 <= i < parts.len() ==> self.server_actions()[i].answers(
                        entry,
                        Ok(#[trigger] parts[i]),
                    ),
                (merged.keys(), merged.values()) == put_all(
                    Seq::<Seq<char>>::empty(),
                    Seq::<ActionRecord>::empty(),
                    entries_of_all(parts),
                ),
            decreases self.server_actions.len() - position,
        {
            assert(self.server_actions()[position as int].wf());
            let part = match self.server_actions[position].get_server_actions_for_endpoint(entry) {
                Ok(part) => part,
                Err(error) => {
                    assert(self.server_actions()[position as int].misses(entry));
                    return Err(error);
                },
            };
            proof {
                let longer = parts.push(part);
                assert(longer.drop_last() =~= parts);
                lemma_put_all_add(
                    Seq::<Seq<char>>::empty(),
                    Seq::<ActionRecord>::empty(),
                    entries_of_all(parts),
                    part.entries(),
                );
                parts = longer;
            }
            merged.append(part);
            position = position + 1;
        }
        assert(self.action_parts(entry, parts));
        Ok(merged)
    }

    /// Returns the client references for the given page.
    ///
    /// With one graph, this is the graph's own answer. Else the answer of the
    /// first graph is extended by that of each later graph in turn (see
    /// [`ClientReferenceGraphResult::extend`]); the query fails where that of
    /// one graph does.
    pub fn get_client_references_for_endpoint(
        &self,
        entry: ModuleId,
        server_entries: &ServerEntries,
    ) -> (result: Result<ClientReferenceGraphResult, GraphError>)
        requires
            self.wf(),
            self.client_references().len() > 0,
        ensures
            self.client_references().len() == 1 ==> self.client_references()[0].answers(
                entry,
                *server_entries,
                result,
            ),
            self.client_references().len() != 1 ==> match result {
                Ok(merged) => {
                    &&& merged.wf()
                    &&& merged.server_utils@ == server_entries.server_utils@
                    &&& merged.server_component_entries@ == server_entries.server_component_entries@
                    &&& exists|parts: Seq<ClientReferenceGraphResult>| #[trigger]
                        self.reference_parts(entry, *server_entries, parts)
                            && merged.client_references@ == references_of_all(parts) && (
                        merged.bucket_keys(),
                        merged.buckets(),
                    ) == buckets_of_all(parts)
                },
                Err(error) => error == GraphError::EntryNotFound && exists|i: int|
                    0 <= i < self.client_references().len() && !(
                    #[trigger] self.client_references()[i]).graph().entries().contains_key(entry),
            },
    {
        assert(self.client_references()[0].wf());
        if self.client_references.len() == 1 {
            // Just a single graph, no need to merge results
            return self.client_references[0].get_client_references_for_endpoint(
                entry,
                server_entries,
            );
        }
        let mut merged = match self.client_references[0].get_client_references_for_endpoint(
            entry,
            server_entries,
        ) {
            Ok(first) => first,
            Err(error) => {
                return Err(error);
            },
        };
        let ghost mut parts: Seq<ClientReferenceGraphResult> = Seq::empty().push(merged);
        proof {
            assert(parts.drop_last() =~= Seq::<ClientReferenceGraphResult>::empty());
            assert(parts.last() == merged);
            assert(references_of_all(parts.drop_last()) =~= Seq::empty());
            assert(references_of_all(parts) =~= merged.client_references@);
        }
        let mut position: usize = 1;
        while position < self.client_references.len()
            invariant
                self.wf(),
                1 <= position <= self.client_references@.len(),
                merged.wf(),
                merged.server_utils@ == server_entries.server_utils@,
                merged.server_component_entries@ == server_entries.server_component_entries@,
                parts.len() == position,
                forall|i: int|
                    0 <= i < parts.len() ==> self.client_references()[i].answers(
                        entry,
                        *server_entries,
                        Ok(#[trigger] parts[i]),
                    ),
                merged.client_references@ == references_of_all(parts),
                (merged.bucket_keys(), merged.buckets()) == buckets_of_all(parts),
            decreases self.client_references.len() - position,
        {
            assert(self.client_references()[position as int].wf());
            let part = match self.client_references[position].get_client_references_for_endpoint(
                entry,
                server_entries,
            ) {
                Ok(part) => part,
                Err(error) => {
                    return Err(error);
                },
            };
            proof {
                let longer = parts.push(part);
                assert(longer.drop_last() =~= parts);
                parts = longer;
            }
            merged.extend(&part);
            position = position + 1;
        }
        assert(self.reference_parts(entry, *server_entries, parts));
        Ok(merged)
    }
}

} // verus!
