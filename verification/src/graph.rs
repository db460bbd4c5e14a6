//! The ancestry graph, kept in a `petgraph::Graph`.
//!
//! A graph is modelled by its node labels and its edges, both in the order
//! in which they were added.

use vstd::prelude::*;
use petgraph::Graph;
use petgraph::Undirected;
use petgraph::graph::NodeIndex;

verus! {

/// An undirected graph whose nodes are labelled `(generation, element)` and
/// whose edges carry a waiting time.
pub type AncestryGraph = Graph<(usize, usize), u64, Undirected, u32>;

/// `petgraph::Graph`, taken as it is: nothing of its fields is known here,
/// only what the functions below say of its nodes and edges.
#[verifier::external_type_specification]
#[verifier::external_body]
#[verifier::reject_recursive_types(N)]
#[verifier::reject_recursive_types(E)]
#[verifier::reject_recursive_types(Ty)]
#[verifier::reject_recursive_types(Ix)]
pub struct ExGraph<N, E, Ty, Ix>(Graph<N, E, Ty, Ix>);

/// `petgraph::Undirected`, the marker of graphs whose edges have no
/// direction.
#[verifier::external_type_specification]
#[verifier::external_body]
pub struct ExUndirected(Undirected);

/// The labels of a graph's nodes, at each node's index.
pub uninterp spec fn graph_nodes(g: Graph<(usize, usize), u64, Undirected, u32>) -> Seq<(usize, usize)>;

/// The edges of a graph, at each edge's index: the indices of its two end
/// nodes, and its weight.
pub uninterp spec fn graph_edges(g: Graph<(usize, usize), u64, Undirected, u32>) -> Seq<(int, int, u64)>;

/// The label of the node that the event `g` creates: the lesser of the least
/// elements of the two sets it merges.
pub open spec fn parent_label(states: Seq<Seq<int>>, steps: Seq<[usize; 2]>, g: int) -> int {
    let first = states[g][steps[g][0] as int];
    let second = states[g][steps[g][1] as int];
    if first <= second { first } else { second }
}

/// Index of the most recent node, among those that exist before the event
/// `g`, of the lineage whose least element is `r`: the node of the last
/// earlier event that created a node labelled `r`, or else the node of the
/// element `r` itself.
pub open spec fn latest_node(states: Seq<Seq<int>>, steps: Seq<[usize; 2]>, g: int, r: int) -> int
    decreases g,
{
    if g <= 0 {
        r
    } else if parent_label(states, steps, g - 1) == r {
        states[0].len() + g - 1
    } else {
        latest_node(states, steps, g - 1, r)
    }
}

/// The nodes of the ancestry graph of a history: one for each element,
/// labelled `(0, element)`, then one for each event `g`, labelled
/// `(g + 1, parent_label)`. Without any event it is the single node `(0, 0)`.
pub open spec fn ancestry_nodes(states: Seq<Seq<int>>, steps: Seq<[usize; 2]>) -> Seq<(usize, usize)> {
    let n = states[0].len() as int;
    if steps.len() == 0 {
        seq![(0usize, 0usize)]
    } else {
        Seq::new(
            (n + steps.len()) as nat,
            |k: int|
                if k < n {
                    (0usize, k as usize)
                } else {
                    ((k - n + 1) as usize, parent_label(states, steps, k - n) as usize)
                },
        )
    }
}

/// The edges of the ancestry graph of a history: two for each event `g`,
/// from the node it creates to the most recent node of each of the two
/// lineages it merges, both weighted by the waiting time before the event.
pub open spec fn ancestry_edges(states: Seq<Seq<int>>, steps: Seq<[usize; 2]>, times: Seq<u64>) -> Seq<(int, int, u64)> {
    Seq::new(
        2 * steps.len(),
        |k: int|
            {
                let g = k / 2;
                let merged_element = if k % 2 == 0 { steps[g][0] } else { steps[g][1] };
                (
                    states[0].len() + g,
                    latest_node(states, steps, g, states[g][merged_element as int]),
                    times[g],
                )
            },
    )
}

/// `g` is the ancestry graph of the history with the given waiting times.
pub open spec fn depicts(
    g: Graph<(usize, usize), u64, Undirected, u32>,
    states: Seq<Seq<int>>,
    steps: Seq<[usize; 2]>,
    times: Seq<u64>,
) -> bool {
    &&& graph_nodes(g) == ancestry_nodes(states, steps)
    &&& graph_edges(g) == ancestry_edges(states, steps, times)
}

/// `Graph::new_undirected`: a graph without nodes or edges.
#[verifier::external_body]
pub(crate) fn new_graph() -> (g: Graph<(usize, usize), u64, Undirected, u32>)
    ensures
        graph_nodes(g) == Seq::<(usize, usize)>::empty(),
        graph_edges(g) == Seq::<(int, int, u64)>::empty(),
{
    Graph::new_undirected()
}

/// `Graph::add_node`: appends a node with the given label and returns its
/// index, the number of nodes before. It panics where the index would not
/// fit the index type.
#[verifier::external_body]
pub(crate) fn add_node(g: &mut Graph<(usize, usize), u64, Undirected, u32>, label: (usize, usize)) -> (index: usize)
    requires
        graph_nodes(*old(g)).len() < u32::MAX,
    ensures
        index == graph_nodes(*old(g)).len(),
        graph_nodes(*final(g)) == graph_nodes(*old(g)).push(label),
        graph_edges(*final(g)) == graph_edges(*old(g)),
{
    g.add_node(label).index()
}

/// `Graph::add_edge`: appends an edge between two existing nodes. It panics
/// where a node is missing or the edge's index would not fit the index type.
#[verifier::external_body]
pub(crate) fn add_edge(g: &mut Graph<(usize, usize), u64, Undirected, u32>, from: usize, to: usize, weight: u64)
    requires
        from < graph_nodes(*old(g)).len(),
        to < graph_nodes(*old(g)).len(),
        graph_nodes(*old(g)).len() <= u32::MAX,
        graph_edges(*old(g)).len() < u32::MAX,
    ensures
        graph_nodes(*final(g)) == graph_nodes(*old(g)),
        graph_edges(*final(g)) == graph_edges(*old(g)).push((from as int, to as int, weight)),
{
    g.add_edge(NodeIndex::new(from), NodeIndex::new(to), weight);
}

/// `Clone` of a `Graph`: the same nodes and edges.
#[verifier::external_body]
pub(crate) fn copy_of_graph(g: &Graph<(usize, usize), u64, Undirected, u32>) -> (copy: Graph<
    (usize, usize),
    u64,
    Undirected,
    u32,
>)
    ensures
        graph_nodes(copy) == graph_nodes(*g),
        graph_edges(copy) == graph_edges(*g),
{
    g.clone()
}

} // verus!
