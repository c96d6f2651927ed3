//! The directed graph, visit map and depth-first search of `petgraph`, as the
//! rest of the crate sees them.
//!
//! Nothing in this file is proved. Each function is a thin call into
//! `petgraph` (or `fixedbitset`, whose bit set `petgraph` uses as its visit
//! map); its contract is what the source of that call shows, stated over the
//! spec functions [`graph_weights`], [`graph_edges`], [`bitset_members`],
//! [`bitset_len`], [`dfs_stack`], [`dfs_discovered`] and [`dfs_len`].
//!
//! Node indices cross this boundary as `usize`. `petgraph` stores them as
//! `u32` and converts with a truncating cast, so every index handed in must be
//! at most `u32::MAX`.

use fixedbitset::FixedBitSet;
use petgraph::graph::Graph;
use petgraph::graph::NodeIndex;
use petgraph::visit::Dfs;
use petgraph::visit::VisitMap;
use petgraph::visit::Visitable;
use petgraph::Directed;
use vstd::prelude::*;

verus! {

/// `petgraph::graph::Graph`, of which nothing is seen but through the
/// functions below.
#[verifier::external_type_specification]
#[verifier::external_body]
#[verifier::reject_recursive_types(N)]
#[verifier::reject_recursive_types(E)]
#[verifier::reject_recursive_types(Ty)]
#[verifier::reject_recursive_types(Ix)]
pub struct ExGraph<N, E, Ty, Ix>(Graph<N, E, Ty, Ix>);

/// `petgraph::Directed`, the marker of a graph whose edges have a direction.
#[verifier::external_type_specification]
#[verifier::external_body]
pub struct ExDirected(Directed);

/// `petgraph::graph::NodeIndex`. It is named in the type of the search only;
/// node indices cross the boundary as `usize`.
#[verifier::external_type_specification]
#[verifier::external_body]
#[verifier::reject_recursive_types(Ix)]
pub struct ExNodeIndex<Ix>(NodeIndex<Ix>);

/// `fixedbitset::FixedBitSet`, the visit map of a `petgraph` graph.
#[verifier::external_type_specification]
#[verifier::external_body]
pub struct ExFixedBitSet(FixedBitSet);

/// `petgraph::visit::Dfs`, the depth-first search.
#[verifier::external_type_specification]
#[verifier::external_body]
#[verifier::reject_recursive_types(N)]
#[verifier::reject_recursive_types(VM)]
pub struct ExDfs<N, VM>(Dfs<N, VM>);

/// A directed graph whose node weights are module identities and whose edges
/// carry no weight.
pub type ModuleDiGraph = Graph<u64, (), Directed, u32>;

/// The depth-first search over a [`ModuleDiGraph`].
pub type ModuleDfs = Dfs<NodeIndex<u32>, FixedBitSet>;

/// The largest number of nodes, and of edges, that a [`ModuleDiGraph`] holds:
/// the index `u32::MAX` is kept free as an end marker.
pub const GRAPH_LIMIT: usize = 0xffff_ffff;

/// The weights of the graph's nodes, by node index.
pub uninterp spec fn graph_weights(g: ModuleDiGraph) -> Seq<u64>;

/// The graph's edges as (source index, target index), in the order in which
/// they were added.
pub uninterp spec fn graph_edges(g: ModuleDiGraph) -> Seq<(int, int)>;

/// The bits that are enabled in the bit set.
pub uninterp spec fn bitset_members(b: FixedBitSet) -> Set<int>;

/// The number of bits that the bit set was made with.
pub uninterp spec fn bitset_len(b: FixedBitSet) -> nat;

/// The node indices that the search still holds on its stack, bottom first.
pub uninterp spec fn dfs_stack(d: ModuleDfs) -> Seq<int>;

/// The node indices that the search has emitted so far.
pub uninterp spec fn dfs_discovered(d: ModuleDfs) -> Set<int>;

/// The number of nodes that the search's visit map was made for.
pub uninterp spec fn dfs_len(d: ModuleDfs) -> nat;

/// Every endpoint of every edge is a node index below `len`.
pub open spec fn edges_within(edges: Seq<(int, int)>, len: int) -> bool {
    forall|i: int|
        0 <= i < edges.len() ==> 0 <= (#[trigger] edges[i]).0 < len && 0 <= edges[i].1 < len
}

/// Every entry of `nodes` is a node index below `len`.
pub open spec fn nodes_within(nodes: Seq<int>, len: int) -> bool {
    forall|i: int| 0 <= i < nodes.len() ==> 0 <= #[trigger] nodes[i] < len
}

/// The targets of the edges that leave `node`, the most recently added edge
/// first.
pub open spec fn successors(edges: Seq<(int, int)>, node: int) -> Seq<int>
    decreases edges.len(),
{
    if edges.len() == 0 {
        Seq::empty()
    } else {
        let earlier = successors(edges.drop_last(), node);
        if edges.last().0 == node {
            seq![edges.last().1] + earlier
        } else {
            earlier
        }
    }
}

/// The position in `stack` of its topmost entry that is not in `discovered`,
/// or -1 where every entry is in it.
pub open spec fn top_undiscovered(stack: Seq<int>, discovered: Set<int>) -> int
    decreases stack.len(),
{
    if stack.len() == 0 {
        -1
    } else if !discovered.contains(stack.last()) {
        stack.len() - 1
    } else {
        top_undiscovered(stack.drop_last(), discovered)
    }
}

/// The node indices in `nodes` that are not in `discovered`, in order.
pub open spec fn undiscovered(nodes: Seq<int>, discovered: Set<int>) -> Seq<int> {
    nodes.filter(|n: int| !discovered.contains(n))
}

/// `Graph::new`: a graph without nodes or edges.
#[verifier::external_body]
pub(crate) fn graph_new() -> (g: ModuleDiGraph)
    ensures
        graph_weights(g) == Seq::<u64>::empty(),
        graph_edges(g) == Seq::<(int, int)>::empty(),
{
    Graph::new()
}

/// `Graph::node_count`: the number of nodes.
#[verifier::external_body]
pub(crate) fn graph_node_count(g: &ModuleDiGraph) -> (count: usize)
    ensures
        count == graph_weights(*g).len(),
{
    g.node_count()
}

/// `Graph::edge_count`: the number of edges.
#[verifier::external_body]
pub(crate) fn graph_edge_count(g: &ModuleDiGraph) -> (count: usize)
    ensures
        count == graph_edges(*g).len(),
{
    g.edge_count()
}

/// `Graph::add_node`: appends a node and returns its index, which is the
/// number of nodes before the call. The edges stay. `petgraph` panics where
/// the graph already holds `u32::MAX` nodes.
#[verifier::external_body]
pub(crate) fn graph_add_node(g: &mut ModuleDiGraph, weight: u64) -> (index: usize)
    requires
        graph_weights(*old(g)).len() < GRAPH_LIMIT,
    ensures
        index == graph_weights(*old(g)).len(),
        graph_weights(*final(g)) == graph_weights(*old(g)).push(weight),
        graph_edges(*final(g)) == graph_edges(*old(g)),
{
    g.add_node(weight).index()
}

/// `Graph::add_edge`: appends an edge from `source` to `target`. The nodes
/// stay. `petgraph` panics where one of the two nodes does not exist or where
/// the graph already holds `u32::MAX` edges.
#[verifier::external_body]
pub(crate) fn graph_add_edge(g: &mut ModuleDiGraph, source: usize, target: usize)
    requires
        source < graph_weights(*old(g)).len(),
        target < graph_weights(*old(g)).len(),
        graph_weights(*old(g)).len() <= GRAPH_LIMIT,
        graph_edges(*old(g)).len() < GRAPH_LIMIT,
    ensures
        graph_weights(*final(g)) == graph_weights(*old(g)),
        graph_edges(*final(g)) == graph_edges(*old(g)).push((source as int, target as int)),
{
    g.add_edge(NodeIndex::new(source), NodeIndex::new(target), ());
}

/// Indexing the graph by a node index: the weight of the node at `index`.
/// `petgraph` panics where the graph has no such node.
#[verifier::external_body]
pub(crate) fn graph_node_weight(g: &ModuleDiGraph, index: usize) -> (weight: u64)
    requires
        index < graph_weights(*g).len(),
        index <= GRAPH_LIMIT,
    ensures
        weight == graph_weights(*g)[index as int],
{
    g[NodeIndex::new(index)]
}

/// `Graph::neighbors`: the targets of the edges that leave `node`. For a
/// directed graph `petgraph` lists them in reverse order of their addition.
#[verifier::external_body]
pub(crate) fn graph_neighbors(g: &ModuleDiGraph, node: usize) -> (targets: Vec<usize>)
    requires
        node <= GRAPH_LIMIT,
    ensures
        targets@.map_values(|t: usize| t as int) == successors(graph_edges(*g), node as int),
{
    g.neighbors(NodeIndex::new(node)).map(|n| n.index()).collect()
}

/// `Visitable::visit_map` of the graph: a bit set with one bit for each node,
/// none of them enabled.
#[verifier::external_body]
pub(crate) fn graph_visit_map(g: &ModuleDiGraph) -> (map: FixedBitSet)
    ensures
        bitset_members(map) == Set::<int>::empty(),
        bitset_len(map) == graph_weights(*g).len(),
{
    g.visit_map()
}

/// `VisitMap::visit` of the bit set: enables the bit of `node` and says
/// whether it was disabled before. `fixedbitset` panics where the set has no
/// such bit.
#[verifier::external_body]
pub(crate) fn visit_map_visit(map: &mut FixedBitSet, node: usize) -> (first: bool)
    requires
        node < bitset_len(*old(map)),
        node <= GRAPH_LIMIT,
    ensures
        first == !bitset_members(*old(map)).contains(node as int),
        bitset_members(*final(map)) == bitset_members(*old(map)).insert(node as int),
        bitset_len(*final(map)) == bitset_len(*old(map)),
{
    map.visit(NodeIndex::<u32>::new(node))
}

/// `VisitMap::is_visited` of the bit set: whether the bit of `node` is
/// enabled.
#[verifier::external_body]
pub(crate) fn visit_map_is_visited(map: &FixedBitSet, node: usize) -> (seen: bool)
    requires
        node <= GRAPH_LIMIT,
    ensures
        seen == bitset_members(*map).contains(node as int),
{
    map.is_visited(&NodeIndex::<u32>::new(node))
}

/// `Dfs::new`: a search whose stack holds `start` alone and that has
/// discovered nothing; its visit map is the graph's.
#[verifier::external_body]
pub(crate) fn dfs_new(g: &ModuleDiGraph, start: usize) -> (dfs: ModuleDfs)
    requires
        start <= GRAPH_LIMIT,
    ensures
        dfs_stack(dfs) == seq![start as int],
        dfs_discovered(dfs) == Set::<int>::empty(),
        dfs_len(dfs) == graph_weights(*g).len(),
{
    Dfs::new(g, NodeIndex::new(start))
}

/// `Dfs::next`: pops the stack down to its topmost entry that is not yet
/// discovered. Where there is none, the stack ends empty and the result is
/// `None`. Otherwise that entry is marked discovered and returned, and its
/// successors that are then undiscovered are pushed in the order in which
/// `Graph::neighbors` lists them. `fixedbitset` panics on an index that the
/// visit map was not made for.
#[verifier::external_body]
pub(crate) fn dfs_next(dfs: &mut ModuleDfs, g: &ModuleDiGraph) -> (node: Option<usize>)
    requires
        dfs_len(*old(dfs)) <= GRAPH_LIMIT,
        nodes_within(dfs_stack(*old(dfs)), dfs_len(*old(dfs)) as int),
        edges_within(graph_edges(*g), dfs_len(*old(dfs)) as int),
    ensures
        dfs_len(*final(dfs)) == dfs_len(*old(dfs)),
        ({
            let stack = dfs_stack(*old(dfs));
            let discovered = dfs_discovered(*old(dfs));
            let top = top_undiscovered(stack, discovered);
            if top < 0 {
                &&& node is None
                &&& dfs_stack(*final(dfs)) == Seq::<int>::empty()
                &&& dfs_discovered(*final(dfs)) == discovered
            } else {
                &&& node == Some(stack[top] as usize)
                &&& dfs_discovered(*final(dfs)) == discovered.insert(stack[top])
                &&& dfs_stack(*final(dfs)) == stack.take(top) + undiscovered(
                    successors(graph_edges(*g), stack[top]),
                    discovered.insert(stack[top]),
                )
            }
        }),
{
    dfs.next(g).map(|n| n.index())
}

} // verus!
