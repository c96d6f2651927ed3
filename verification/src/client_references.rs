//! Client references: the modules at which rendering passes from the server
//! to the client, and the server components that enclose them.

use crate::edge_walk::edge_modules;
use crate::edge_walk::walk_after;
use crate::edge_walk::ShownEdge;
use crate::module_graph::GraphError;
use crate::module_graph::GraphTraversalAction;
use crate::module_graph::ModuleId;
use crate::module_graph::SingleModuleGraph;
use crate::ordered_map::lemma_put;
use crate::ordered_map::OrderedMap;
use std::collections::HashMap;
use vstd::prelude::*;

verus! {

/// What a module is to the client boundary.
#[derive(Clone, Copy, PartialEq, Eq, Debug, Structural)]
pub enum ClientReferenceMapType {
    /// A script that runs on the client, with the module that renders it on
    /// the server.
    EcmascriptClientReference { module: ModuleId, ssr_module: ModuleId },
    /// A stylesheet.
    CssClientReference(ModuleId),
    /// A server component.
    ServerComponent(ModuleId),
}

/// What is known of a module's kind: for each of the three kinds that matter
/// here, what the module is as that kind, where it is of that kind.
#[derive(Clone, Copy, Debug)]
pub struct ModuleKinds {
    /// As a client script: the module and the module that renders it on the
    /// server.
    pub ecmascript_client_reference: Option<(ModuleId, ModuleId)>,
    /// As a stylesheet.
    pub css_module: Option<ModuleId>,
    /// As a server component.
    pub server_component: Option<ModuleId>,
}

impl ModuleKinds {
    /// What the module is to the client boundary: a client script before a
    /// stylesheet, a stylesheet before a server component, and nothing where
    /// it is none of the three.
    pub open spec fn classification(self) -> Option<ClientReferenceMapType> {
        match self.ecmascript_client_reference {
            Some((module, ssr_module)) => Some(
                ClientReferenceMapType::EcmascriptClientReference { module, ssr_module },
            ),
            None => match self.css_module {
                Some(module) => Some(ClientReferenceMapType::CssClientReference(module)),
                None => match self.server_component {
                    Some(module) => Some(ClientReferenceMapType::ServerComponent(module)),
                    None => None,
                },
            },
        }
    }

    /// See [`ModuleKinds::classification`].
    pub fn classify(&self) -> (kind: Option<ClientReferenceMapType>)
        ensures
            kind == self.classification(),
    {
        match self.ecmascript_client_reference {
            Some((module, ssr_module)) => Some(
                ClientReferenceMapType::EcmascriptClientReference { module, ssr_module },
            ),
            None => match self.css_module {
                Some(module) => Some(ClientReferenceMapType::CssClientReference(module)),
                None => match self.server_component {
                    Some(module) => Some(ClientReferenceMapType::ServerComponent(module)),
                    None => None,
                },
            },
        }
    }
}

/// The modules of a graph that are something to the client boundary, each
/// with what it is.
pub struct ClientReferencesSet(pub HashMap<ModuleId, ClientReferenceMapType>);

impl View for ClientReferencesSet {
    type V = Map<ModuleId, ClientReferenceMapType>;

    open spec fn view(&self) -> Map<ModuleId, ClientReferenceMapType> {
        self.0@
    }
}

/// Classifies each module of `graph` by what `kinds` knows of it. A module
/// that `kinds` does not know, or that is of none of the three kinds, is left
/// out.
pub fn map_client_references(
    graph: &SingleModuleGraph,
    kinds: &HashMap<ModuleId, ModuleKinds>,
) -> (mapped: ClientReferencesSet)
    requires
        graph.wf(),
    ensures
        forall|m: ModuleId| #[trigger]
            mapped@.contains_key(m) <==> graph.contains_module(m) && kinds@.contains_key(m)
                && kinds@[m].classification() is Some,
        forall|m: ModuleId| #[trigger]
            mapped@.contains_key(m) ==> Some(mapped@[m]) == kinds@[m].classification(),
{
    let nodes = graph.enumerate_nodes();
    let mut mapped: HashMap<ModuleId, ClientReferenceMapType> = HashMap::new();
    let mut position: usize = 0;
    while position < nodes.len()
        invariant
            position <= nodes@.len(),
            nodes@.len() == graph.nodes().len(),
            forall|i: int| 0 <= i < nodes@.len() ==> (#[trigger] nodes@[i]).1 == graph.nodes()[i],
            forall|m: ModuleId| #[trigger]
                mapped@.contains_key(m) <==> graph.nodes().take(position as int).contains(m)
                    && kinds@.contains_key(m) && kinds@[m].classification() is Some,
            forall|m: ModuleId| #[trigger]
                mapped@.contains_key(m) ==> Some(mapped@[m]) == kinds@[m].classification(),
        decreases nodes.len() - position,
    {
        let module = nodes[position].1;
        let ghost shorter = graph.nodes().take(position as int);
        let ghost longer = graph.nodes().take(position + 1);
        match kinds.get(&module) {
            Some(known) => {
                match known.classify() {
                    Some(kind) => {
                        mapped.insert(module, kind);
                    },
                    None => {},
                }
            },
            None => {},
        }
        proof {
            assert(longer =~= shorter.push(module));
            assert forall|m: ModuleId| longer.contains(m) <==> shorter.contains(m) || m
                == module by {
                if shorter.contains(m) {
                    let i = choose|i: int| 0 <= i < shorter.len() && shorter[i] == m;
                    assert(longer[i] == m);
                }
                if m == module {
                    assert(longer[position as int] == m);
                }
                if longer.contains(m) && m != module {
                    let i = choose|i: int| 0 <= i < longer.len() && longer[i] == m;
                    assert(shorter[i] == m);
                }
            }
        }
        position = position + 1;
    }
    assert(graph.nodes().take(position as int) =~= graph.nodes());
    ClientReferencesSet(mapped)
}

/// What a client reference is.
#[derive(Clone, Copy, PartialEq, Eq, Debug, Structural)]
pub enum ClientReferenceType {
    /// A client script, with the module that refers to it.
    EcmascriptClientReference { parent_module: ModuleId, module: ModuleId },
    /// A stylesheet.
    CssClientReference(ModuleId),
}

/// A client reference, with the nearest server component above it.
#[derive(Clone, Copy, PartialEq, Eq, Debug, Structural)]
pub struct ClientReference {
    pub server_component: Option<ModuleId>,
    pub ty: ClientReferenceType,
}

/// The modules that every layout segment of a route shares, and the server
/// component of each segment in the route's order.
#[derive(Clone, Debug)]
pub struct ServerEntries {
    pub server_utils: Vec<ModuleId>,
    pub server_component_entries: Vec<ModuleId>,
}

/// The client references that an endpoint reaches.
pub struct ClientReferenceGraphResult {
    /// The references, in the order in which the walk met them.
    pub client_references: Vec<ClientReference>,
    /// For each server component, and first for no server component, the
    /// server-side modules of the client scripts right below it.
    pub client_references_by_server_component: OrderedMap<Option<ModuleId>, Vec<ModuleId>>,
    pub server_utils: Vec<ModuleId>,
    pub server_component_entries: Vec<ModuleId>,
}

/// What a walk has collected.
pub struct Collected {
    /// For each module that an edge has led to, the nearest server component
    /// at or above it on the way of the last such edge.
    pub nearest: Map<ModuleId, Option<ModuleId>>,
    /// The client references met.
    pub references: Seq<ClientReference>,
    /// The server components that have a bucket, no server component first.
    pub bucket_keys: Seq<Option<ModuleId>>,
    /// The buckets, in the order of their keys.
    pub buckets: Seq<Seq<ModuleId>>,
}

/// Nothing collected: only the bucket of no server component, empty.
pub open spec fn collect_start() -> Collected {
    Collected {
        nearest: Map::empty(),
        references: Seq::empty(),
        bucket_keys: seq![None],
        buckets: seq![Seq::empty()],
    }
}

/// The buckets with one for `key` among them.
pub open spec fn with_bucket(
    keys: Seq<Option<ModuleId>>,
    buckets: Seq<Seq<ModuleId>>,
    key: Option<ModuleId>,
) -> (Seq<Option<ModuleId>>, Seq<Seq<ModuleId>>) {
    if keys.contains(key) {
        (keys, buckets)
    } else {
        (keys.push(key), buckets.push(Seq::empty()))
    }
}

/// The buckets after `items` were added to the bucket of `key`.
pub open spec fn with_items(
    keys: Seq<Option<ModuleId>>,
    buckets: Seq<Seq<ModuleId>>,
    key: Option<ModuleId>,
    items: Seq<ModuleId>,
) -> (Seq<Option<ModuleId>>, Seq<Seq<ModuleId>>) {
    let (keys, buckets) = with_bucket(keys, buckets, key);
    (keys, buckets.update(keys.index_of(key), buckets[keys.index_of(key)] + items))
}

/// What `data` says of `module`.
pub open spec fn kind_of(
    data: Map<ModuleId, ClientReferenceMapType>,
    module: ModuleId,
) -> Option<ClientReferenceMapType> {
    if data.contains_key(module) {
        Some(data[module])
    } else {
        None
    }
}

/// The answer to an edge that leads to `child`: the walk does not descend
/// into a client reference.
pub open spec fn answer_for(
    data: Map<ModuleId, ClientReferenceMapType>,
    child: ModuleId,
) -> GraphTraversalAction {
    match kind_of(data, child) {
        Some(ClientReferenceMapType::EcmascriptClientReference { .. }) => GraphTraversalAction::Skip,
        Some(ClientReferenceMapType::CssClientReference(_)) => GraphTraversalAction::Skip,
        _ => GraphTraversalAction::Continue,
    }
}

/// The nearest server component at or above `child`, when the edge from
/// `parent` leads to it: the child itself where it is a server component,
/// else what was recorded for the parent.
pub open spec fn boundary_of(
    data: Map<ModuleId, ClientReferenceMapType>,
    nearest: Map<ModuleId, Option<ModuleId>>,
    parent: ModuleId,
    child: ModuleId,
) -> Option<ModuleId> {
    match kind_of(data, child) {
        Some(ClientReferenceMapType::ServerComponent(module)) => Some(module),
        _ => if nearest.contains_key(parent) {
            nearest[parent]
        } else {
            None
        },
    }
}

/// What is collected after the edge from `parent` to `child` was shown.
pub open spec fn collect_edge(
    data: Map<ModuleId, ClientReferenceMapType>,
    c: Collected,
    parent: ModuleId,
    child: ModuleId,
) -> Collected {
    let boundary = boundary_of(data, c.nearest, parent, child);
    let nearest = c.nearest.insert(child, boundary);
    match kind_of(data, child) {
        Some(ClientReferenceMapType::EcmascriptClientReference { module, ssr_module }) => {
            let (bucket_keys, buckets) = with_items(
                c.bucket_keys,
                c.buckets,
                boundary,
                seq![ssr_module],
            );
            Collected {
                nearest,
                references: c.references.push(
                    ClientReference {
                        server_component: boundary,
                        ty: ClientReferenceType::EcmascriptClientReference {
                            parent_module: parent,
                            module,
                        },
                    },
                ),
                bucket_keys,
                buckets,
            }
        },
        Some(ClientReferenceMapType::CssClientReference(module)) => Collected {
            nearest,
            references: c.references.push(
                ClientReference {
                    server_component: boundary,
                    ty: ClientReferenceType::CssClientReference(module),
                },
            ),
            ..c
        },
        Some(ClientReferenceMapType::ServerComponent(_)) => {
            let (bucket_keys, buckets) = with_bucket(c.bucket_keys, c.buckets, boundary);
            Collected { nearest, bucket_keys, buckets, ..c }
        },
        None => Collected { nearest, ..c },
    }
}

/// What is collected after the edges of `trace` were shown in turn. The edge
/// to the entry counts for nothing.
pub open spec fn collect_trace(
    data: Map<ModuleId, ClientReferenceMapType>,
    nodes: Seq<ModuleId>,
    trace: Seq<ShownEdge>,
) -> Collected
    decreases trace.len(),
{
    if trace.len() == 0 {
        collect_start()
    } else {
        let before = collect_trace(data, nodes, trace.drop_last());
        match trace.last().0 {
            Some(source) => collect_edge(data, before, nodes[source], nodes[trace.last().1]),
            None => before,
        }
    }
}

/// The answers that the walk for client references gives: see
/// [`answer_for`].
pub open spec fn decide_by(
    data: Map<ModuleId, ClientReferenceMapType>,
    nodes: Seq<ModuleId>,
) -> spec_fn(Seq<ShownEdge>) -> GraphTraversalAction {
    |trace: Seq<ShownEdge>|
        if trace.len() == 0 || trace.last().0 is None {
            GraphTraversalAction::Continue
        } else {
            answer_for(data, nodes[trace.last().1])
        }
}

/// The views of the buckets.
pub open spec fn bucket_views(buckets: Seq<Vec<ModuleId>>) -> Seq<Seq<ModuleId>> {
    buckets.map_values(|bucket: Vec<ModuleId>| bucket@)
}

/// Makes sure that `key` has a bucket.
pub fn ensure_bucket(map: &mut OrderedMap<Option<ModuleId>, Vec<ModuleId>>, key: Option<ModuleId>)
    requires
        old(map).wf(),
    ensures
        final(map).wf(),
        (final(map).keys(), bucket_views(final(map).values())) == with_bucket(
            old(map).keys(),
            bucket_views(old(map).values()),
            key,
        ),
{
    match map.position(&key) {
        Some(_) => {},
        None => {
            let bucket: Vec<ModuleId> = Vec::new();
            proof {
                lemma_put(map.keys(), map.values(), key, bucket);
            }
            map.insert(key, bucket);
            assert(bucket_views(map.values()) =~= bucket_views(old(map).values()).push(
                Seq::empty(),
            ));
        },
    }
}

/// Adds `items` to the bucket of `key`, which is made where it is missing.
pub fn extend_bucket(
    map: &mut OrderedMap<Option<ModuleId>, Vec<ModuleId>>,
    key: Option<ModuleId>,
    items: &Vec<ModuleId>,
)
    requires
        old(map).wf(),
    ensures
        final(map).wf(),
        (final(map).keys(), bucket_views(final(map).values())) == with_items(
            old(map).keys(),
            bucket_views(old(map).values()),
            key,
            items@,
        ),
{
    ensure_bucket(map, key);
    let ghost keys = map.keys();
    let ghost made = bucket_views(map.values());
    proof {
        if !old(map).keys().contains(key) {
            assert(keys[old(map).keys().len() as int] == key);
        }
        assert(keys.contains(key));
    }
    match map.position(&key) {
        Some(index) => {
            let mut bucket = map.replace_at(index, Vec::new());
            let ghost first = bucket@;
            let mut position: usize = 0;
            while position < items.len()
                invariant
                    position <= items@.len(),
                    bucket@ == first + items@.take(position as int),
                decreases items.len() - position,
            {
                bucket.push(items[position]);
                position = position + 1;
                assert(bucket@ =~= first + items@.take(position as int));
            }
            assert(items@.take(position as int) =~= items@);
            let _ = map.replace_at(index, bucket);
            assert(bucket_views(map.values()) =~= made.update(
                index as int,
                made[index as int] + items@,
            ));
        },
        None => {},
    }
}

/// The client references of a graph, and the graph they were found in.
pub struct ClientReferencesGraph<'a> {
    is_single_page: bool,
    graph: &'a SingleModuleGraph,
    data: ClientReferencesSet,
}

impl<'a> ClientReferencesGraph<'a> {
    /// The graph.
    pub closed spec fn graph(&self) -> SingleModuleGraph {
        *self.graph
    }

    /// What each module of the graph is to the client boundary.
    pub closed spec fn data(&self) -> Map<ModuleId, ClientReferenceMapType> {
        self.data@
    }

    /// Whether the graph holds the modules of one endpoint only.
    pub closed spec fn is_single_page(&self) -> bool {
        self.is_single_page
    }

    /// The invariant: the graph's.
    pub open spec fn wf(&self) -> bool {
        self.graph().wf()
    }

    /// `c` is what the walk from the entry `entry` collects, and the walk is
    /// over after `steps` steps.
    pub open spec fn collects(&self, entry: ModuleId, steps: nat, c: Collected) -> bool {
        let after = walk_after(
            self.graph().edges(),
            self.graph().entries()[entry] as int,
            decide_by(self.data(), self.graph().nodes()),
            steps,
        );
        after.finished && c == collect_trace(self.data(), self.graph().nodes(), after.trace)
    }

    /// `result` answers the query for the entry `entry`, when `entries` is
    /// what is known of the endpoint's server entries.
    pub open spec fn answers(
        &self,
        entry: ModuleId,
        entries: ServerEntries,
        result: Result<ClientReferenceGraphResult, GraphError>,
    ) -> bool {
        match result {
            Ok(found) => {
                &&& self.graph().entries().contains_key(entry)
                &&& found.wf()
                &&& found.server_utils@ == entries.server_utils@
                &&& found.server_component_entries@ == entries.server_component_entries@
                &&& exists|steps: nat| #[trigger]
                    self.collects(
                        entry,
                        steps,
                        Collected {
                            nearest: collect_trace(
                                self.data(),
                                self.graph().nodes(),
                                walk_after(
                                    self.graph().edges(),
                                    self.graph().entries()[entry] as int,
                                    decide_by(self.data(), self.graph().nodes()),
                                    steps,
                                ).trace,
                            ).nearest,
                            references: found.client_references@,
                            bucket_keys: found.client_references_by_server_component.keys(),
                            buckets: bucket_views(
                                found.client_references_by_server_component.values(),
                            ),
                        },
                    )
            },
            Err(error) => error == GraphError::EntryNotFound
                && !self.graph().entries().contains_key(entry),
        }
    }

    /// Classifies the modules of `graph`.
    pub fn new_with_entries(
        graph: &'a SingleModuleGraph,
        is_single_page: bool,
        kinds: &HashMap<ModuleId, ModuleKinds>,
    ) -> (made: Self)
        requires
            graph.wf(),
        ensures
            made.wf(),
            made.graph() == *graph,
            made.is_single_page() == is_single_page,
            forall|m: ModuleId| #[trigger]
                made.data().contains_key(m) <==> graph.contains_module(m) && kinds@.contains_key(
                    m,
                ) && kinds@[m].classification() is Some,
            forall|m: ModuleId| #[trigger]
                made.data().contains_key(m) ==> Some(made.data()[m])
                    == kinds@[m].classification(),
    {
        let data = map_client_references(graph, kinds);
        ClientReferencesGraph { is_single_page, graph, data }
    }

    /// The client references that the entry `entry` reaches.
    ///
    /// The edges are walked from the entry. Each module that an edge leads to
    /// gets its nearest server component: itself where it is one, else the
    /// one of the edge's source. A server component gets a bucket. A client
    /// script is recorded with its nearest server component and the edge's
    /// source, and its server-side module is added to the bucket of that
    /// server component. A stylesheet is recorded with its nearest server
    /// component. The walk does not descend into a script or a stylesheet.
    /// The bucket of no server component always stands first.
    pub fn get_client_references_for_endpoint(
        &self,
        entry: ModuleId,
        server_entries: &ServerEntries,
    ) -> (result: Result<ClientReferenceGraphResult, GraphError>)
        requires
            self.wf(),
        ensures
            self.answers(entry, *server_entries, result),
    {
        let graph = self.graph;
        let mut walk = match graph.traverse_edges_from_entry(entry) {
            Ok(walk) => walk,
            Err(error) => {
                return Err(error);
            },
        };
        let ghost edges = graph.edges();
        let ghost nodes = graph.nodes();
        let ghost start = graph.entries()[entry] as int;
        let ghost data = self.data@;
        let ghost decide = decide_by(data, nodes);
        let ghost mut steps: nat = 0;
        let mut references: Vec<ClientReference> = Vec::new();
        let mut buckets: OrderedMap<Option<ModuleId>, Vec<ModuleId>> = OrderedMap::new();
        ensure_bucket(&mut buckets, None);
        let mut nearest: HashMap<ModuleId, Option<ModuleId>> = HashMap::new();
        let mut action = GraphTraversalAction::Continue;
        proof {
            assert(buckets.keys() =~= seq![None]);
            assert(bucket_views(buckets.values()) =~= seq![Seq::<ModuleId>::empty()]);
        }
        loop
            invariant
                self.wf(),
                graph == self.graph,
                edges == graph.edges(),
                nodes == graph.nodes(),
                data == self.data@,
                decide == decide_by(data, nodes),
                start == graph.entries()[entry] as int,
                walk.wf(),
                walk.graph() == *graph,
                walk@ == walk_after(edges, start, decide, steps),
                action == decide(walk@.trace),
                buckets.wf(),
                buckets.keys().len() > 0,
                buckets.keys()[0] == None::<ModuleId>,
                collect_trace(data, nodes, walk@.trace) == (Collected {
                    nearest: nearest@,
                    references: references@,
                    bucket_keys: buckets.keys(),
                    buckets: bucket_views(buckets.values()),
                }),
            ensures
                walk@.finished,
            decreases walk.undiscovered_nodes(), walk.due_edges(),
        {
            let ghost before = walk@;
            let ghost had = collect_trace(data, nodes, before.trace);
            let shown = walk.next(action);
            proof {
                steps = steps + 1;
                assert(walk@ == walk_after(edges, start, decide, steps));
            }
            match shown {
                Some((source, child)) => {
                    let ghost edge = walk@.trace.last();
                    proof {
                        assert(walk@.trace.drop_last() =~= before.trace);
                        assert((source, child) == edge_modules(nodes, edge));
                    }
                    match source {
                        Some(parent) => {
                            let kind: Option<ClientReferenceMapType> = match self.data.0.get(
                                &child,
                            ) {
                                Some(kind) => Some(*kind),
                                None => None,
                            };
                            let inherited: Option<ModuleId> = match nearest.get(&parent) {
                                Some(boundary) => *boundary,
                                None => None,
                            };
                            let boundary = match kind {
                                Some(ClientReferenceMapType::ServerComponent(module)) => Some(
                                    module,
                                ),
                                _ => inherited,
                            };
                            assert(kind == kind_of(data, child));
                            assert(boundary == boundary_of(data, had.nearest, parent, child));
                            nearest.insert(child, boundary);
                            match kind {
                                Some(
                                    ClientReferenceMapType::EcmascriptClientReference {
                                        module,
                                        ssr_module,
                                    },
                                ) => {
                                    references.push(
                                        ClientReference {
                                            server_component: boundary,
                                            ty: ClientReferenceType::EcmascriptClientReference {
                                                parent_module: parent,
                                                module,
                                            },
                                        },
                                    );
                                    let mut items: Vec<ModuleId> = Vec::new();
                                    items.push(ssr_module);
                                    assert(items@ =~= seq![ssr_module]);
                                    extend_bucket(&mut buckets, boundary, &items);
                                    action = GraphTraversalAction::Skip;
                                },
                                Some(ClientReferenceMapType::CssClientReference(module)) => {
                                    references.push(
                                        ClientReference {
                                            server_component: boundary,
                                            ty: ClientReferenceType::CssClientReference(module),
                                        },
                                    );
                                    action = GraphTraversalAction::Skip;
                                },
                                Some(ClientReferenceMapType::ServerComponent(_)) => {
                                    ensure_bucket(&mut buckets, boundary);
                                    action = GraphTraversalAction::Continue;
                                },
                                None => {
                                    action = GraphTraversalAction::Continue;
                                },
                            }
                            proof {
                                assert(collect_trace(data, nodes, walk@.trace) == collect_edge(
                                    data,
                                    had,
                                    nodes[edge.0.unwrap()],
                                    nodes[edge.1],
                                ));
                            }
                        },
                        None => {
                            action = GraphTraversalAction::Continue;
                        },
                    }
                },
                None => {
                    proof {
                        assert(walk@.trace == before.trace);
                    }
                    break ;
                },
            }
        }
        let mut server_utils: Vec<ModuleId> = Vec::new();
        let mut position: usize = 0;
        while position < server_entries.server_utils.len()
            invariant
                position <= server_entries.server_utils@.len(),
                server_utils@ == server_entries.server_utils@.take(position as int),
            decreases server_entries.server_utils.len() - position,
        {
            server_utils.push(server_entries.server_utils[position]);
            position = position + 1;
            assert(server_utils@ =~= server_entries.server_utils@.take(position as int));
        }
        assert(server_entries.server_utils@.take(position as int) =~= server_entries.server_utils@);
        let mut server_component_entries: Vec<ModuleId> = Vec::new();
        let mut position: usize = 0;
        while position < server_entries.server_component_entries.len()
            invariant
                position <= server_entries.server_component_entries@.len(),
                server_component_entries@ == server_entries.server_component_entries@.take(
                    position as int,
                ),
            decreases server_entries.server_component_entries.len() - position,
        {
            server_component_entries.push(server_entries.server_component_entries[position]);
            position = position + 1;
            assert(server_component_entries@ =~= server_entries.server_component_entries@.take(
                position as int,
            ));
        }
        assert(server_entries.server_component_entries@.take(position as int)
            =~= server_entries.server_component_entries@);
        let found = ClientReferenceGraphResult {
            client_references: references,
            client_references_by_server_component: buckets,
            server_utils,
            server_component_entries,
        };
        proof {
            assert(self.collects(
                entry,
                steps,
                Collected {
                    nearest: collect_trace(
                        self.data(),
                        self.graph().nodes(),
                        walk_after(
                            self.graph().edges(),
                            self.graph().entries()[entry] as int,
                            decide_by(self.data(), self.graph().nodes()),
                            steps,
                        ).trace,
                    ).nearest,
                    references: found.client_references@,
                    bucket_keys: found.client_references_by_server_component.keys(),
                    buckets: bucket_views(found.client_references_by_server_component.values()),
                },
            ));
        }
        Ok(found)
    }
}

/// The buckets after the items of each bucket of `others` were added, bucket
/// after bucket, to the bucket of the same key.
pub open spec fn with_buckets(
    keys: Seq<Option<ModuleId>>,
    buckets: Seq<Seq<ModuleId>>,
    other_keys: Seq<Option<ModuleId>>,
    others: Seq<Seq<ModuleId>>,
) -> (Seq<Option<ModuleId>>, Seq<Seq<ModuleId>>)
    decreases other_keys.len(),
{
    if other_keys.len() == 0 {
        (keys, buckets)
    } else {
        let (keys, buckets) = with_buckets(
            keys,
            buckets,
            other_keys.drop_last(),
            others.drop_last(),
        );
        with_items(keys, buckets, other_keys.last(), others.last())
    }
}

impl ClientReferenceGraphResult {
    /// The invariant: each server component has one bucket, and the bucket of
    /// no server component stands first.
    pub open spec fn wf(&self) -> bool {
        &&& self.client_references_by_server_component.wf()
        &&& self.client_references_by_server_component.keys().len() > 0
        &&& self.client_references_by_server_component.keys()[0] == None::<ModuleId>
    }

    /// The server components that have a bucket, no server component first.
    pub open spec fn bucket_keys(&self) -> Seq<Option<ModuleId>> {
        self.client_references_by_server_component.keys()
    }

    /// The buckets, in the order of their keys.
    pub open spec fn buckets(&self) -> Seq<Seq<ModuleId>> {
        bucket_views(self.client_references_by_server_component.values())
    }

    /// Adds what `other` holds: its references come after the references
    /// held, and the items of each of its buckets after those of the bucket
    /// of the same server component. The server entries stay.
    pub fn extend(&mut self, other: &Self)
        requires
            old(self).wf(),
            other.wf(),
        ensures
            final(self).wf(),
            final(self).client_references@ == old(self).client_references@
                + other.client_references@,
            (final(self).bucket_keys(), final(self).buckets()) == with_buckets(
                old(self).bucket_keys(),
                old(self).buckets(),
                other.bucket_keys(),
                other.buckets(),
            ),
            final(self).server_utils@ == old(self).server_utils@,
            final(self).server_component_entries@ == old(self).server_component_entries@,
    {
        let mut position: usize = 0;
        assert(self.client_references@ =~= old(self).client_references@
            + other.client_references@.take(0));
        while position < other.client_references.len()
            invariant
                position <= other.client_references@.len(),
                self.client_references@ == old(self).client_references@
                    + other.client_references@.take(position as int),
                self.client_references_by_server_component == old(
                    self,
                ).client_references_by_server_component,
                self.server_utils == old(self).server_utils,
                self.server_component_entries == old(self).server_component_entries,
            decreases other.client_references.len() - position,
        {
            self.client_references.push(other.client_references[position]);
            position = position + 1;
            assert(self.client_references@ =~= old(self).client_references@
                + other.client_references@.take(position as int));
        }
        assert(other.client_references@.take(position as int) =~= other.client_references@);
        let count = other.client_references_by_server_component.len();
        let ghost other_keys = other.bucket_keys();
        let ghost others = other.buckets();
        let mut turn: usize = 0;
        assert(other_keys.take(0) =~= Seq::<Option<ModuleId>>::empty());
        while turn < count
            invariant
                other.wf(),
                other_keys == other.bucket_keys(),
                others == other.buckets(),
                count == other_keys.len(),
                count == others.len(),
                turn <= count,
                self.wf(),
                self.client_references@ == old(self).client_references@
                    + other.client_references@,
                self.server_utils == old(self).server_utils,
                self.server_component_entries == old(self).server_component_entries,
                (self.bucket_keys(), self.buckets()) == with_buckets(
                    old(self).bucket_keys(),
                    old(self).buckets(),
                    other_keys.take(turn as int),
                    others.take(turn as int),
                ),
            decreases count - turn,
        {
            let key = *other.client_references_by_server_component.key_at(turn);
            let items = other.client_references_by_server_component.value_at(turn);
            proof {
                assert(other_keys.take(turn + 1).drop_last() =~= other_keys.take(turn as int));
                assert(others.take(turn + 1).drop_last() =~= others.take(turn as int));
                assert(other_keys.take(turn + 1).last() == key);
                assert(others.take(turn + 1).last() == items@);
            }
            extend_bucket(&mut self.client_references_by_server_component, key, items);
            turn = turn + 1;
        }
        proof {
            assert(other_keys.take(turn as int) =~= other_keys);
            assert(others.take(turn as int) =~= others);
        }
    }
}

} // verus!
