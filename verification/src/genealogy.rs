//! The genealogy of a sample: the history of one run of the coalescent
//! process, from singletons to the common ancestor.

use vstd::prelude::*;
use partitions::PartitionVec;
use petgraph::Graph;
use petgraph::Undirected;
use crate::divergence::{coalescence, first_together, pairs_joined};
use crate::graph::{
    add_edge, add_node, ancestry_edges, ancestry_nodes, copy_of_graph, depicts, graph_edges,
    graph_nodes, latest_node, new_graph, parent_label,
};
use crate::partition::{
    amount_of_sets, canonical, class_count, classes, copy_of, element_count, follows,
    least_member, lemma_merged, lemma_singletons, lemma_some_class, len_of_set, merged,
    new_singletons, same_set, separates, singletons, union,
};

verus! {

/// Event `i` leads from state `i` to state `i + 1`: it names two elements of
/// different sets, and the next state has these two sets merged.
pub open spec fn event_at(states: Seq<Seq<int>>, steps: Seq<[usize; 2]>, i: int) -> bool {
    follows(states[i], steps[i], states[i + 1])
}

/// `states` and `steps` are the history of a run: it starts from
/// singletons, and each event leads from one state to the next.
pub open spec fn history(states: Seq<Seq<int>>, steps: Seq<[usize; 2]>) -> bool {
    &&& states.len() == steps.len() + 1
    &&& states[0] == singletons(states[0].len())
    &&& forall|i: int| 0 <= i < steps.len() ==> #[trigger] event_at(states, steps, i)
}

/// In a history every state is a canonical partition of the same elements,
/// and state `i` has `i` sets fewer than there are elements.
pub proof fn lemma_history_state(states: Seq<Seq<int>>, steps: Seq<[usize; 2]>, i: int)
    requires
        history(states, steps),
        0 <= i <= steps.len(),
    ensures
        states[i].len() == states[0].len(),
        canonical(states[i]),
        class_count(states[i]) + i == states[0].len(),
    decreases i,
{
    if i == 0 {
        lemma_singletons(states[0].len());
    } else {
        lemma_history_state(states, steps, i - 1);
        assert(event_at(states, steps, i - 1));
        lemma_merged(states[i - 1], steps[i - 1][0] as int, steps[i - 1][1] as int);
    }
}

/// A history that has reached a single set, from `n >= 1` elements, has
/// `n` states and `n - 1` events; its ancestry graph has `2n - 1` nodes and
/// `2(n - 1)` edges. For one element that is one node and no edge.
pub proof fn lemma_complete_history(states: Seq<Seq<int>>, steps: Seq<[usize; 2]>, times: Seq<u64>)
    requires
        history(states, steps),
        states[0].len() >= 1,
        class_count(states.last()) <= 1,
    ensures
        states.len() == states[0].len(),
        steps.len() == states[0].len() - 1,
        class_count(states.last()) == 1,
        ancestry_nodes(states, steps).len() == 2 * states[0].len() - 1,
        ancestry_edges(states, steps, times).len() == 2 * (states[0].len() - 1),
{
    lemma_history_state(states, steps, steps.len() as int);
    lemma_some_class(states.last(), states[0].len() as int);
}

/// The record of a run of the coalescent process: the states it went
/// through, the pair of elements merged at each event, and the waiting time
/// before each event.
///
/// A waiting time is kept as the 64-bit pattern of a real number. The record
/// stores it and hands it on; where a statistic needs arithmetic on waiting
/// times, the caller hands in the operations.
#[derive(Debug)]
pub struct Genealogy {
    path: Vec<PartitionVec<()>>,
    steps: Vec<[usize; 2]>,
    time_steps: Vec<u64>,
    graph: Option<Graph<(usize, usize), u64, Undirected, u32>>,
}

impl Genealogy {
    /// The states, first to last, each as the labels of its elements.
    pub closed spec fn states(&self) -> Seq<Seq<int>> {
        Seq::new(self.path@.len(), |i: int| classes(self.path@[i]))
    }

    /// The pair of elements merged at each event.
    pub closed spec fn merges(&self) -> Seq<[usize; 2]> {
        self.steps@
    }

    /// The waiting time before each event.
    pub closed spec fn durations(&self) -> Seq<u64> {
        self.time_steps@
    }

    /// The ancestry graph, once it was computed.
    pub closed spec fn cached(&self) -> Option<Graph<(usize, usize), u64, Undirected, u32>> {
        self.graph
    }

    /// Number of elements of the sample.
    pub open spec fn size(&self) -> nat {
        self.states()[0].len()
    }

    /// The record is the history of a run, with one waiting time for each
    /// event.
    pub open spec fn wf(&self) -> bool {
        &&& history(self.states(), self.merges())
        &&& self.durations().len() == self.merges().len()
        &&& self.cached().is_some() ==> depicts(
            self.cached().unwrap(),
            self.states(),
            self.merges(),
            self.durations(),
        )
    }

    /// The run has reached its end: no two sets are left to merge.
    pub open spec fn complete(&self) -> bool {
        class_count(self.states().last()) <= 1
    }

    /// The genealogy of `group_size` elements before any event.
    pub fn new(group_size: usize) -> (genealogy: Self)
        ensures
            genealogy.wf(),
            genealogy.states() == seq![singletons(group_size as nat)],
            genealogy.merges().len() == 0,
            genealogy.cached().is_none(),
    {
        let mut path: Vec<PartitionVec<()>> = Vec::new();
        path.push(new_singletons(group_size));
        let genealogy = Genealogy { path, steps: Vec::new(), time_steps: Vec::new(), graph: None };
        assert(genealogy.states() =~= seq![singletons(group_size as nat)]);
        genealogy
    }

    /// Appends the event that merges the sets of the two elements of `pair`
    /// after the waiting time `time_step`, and says whether it did: it does
    /// so exactly where both are elements of the sample and lie in different
    /// sets of the last state. Otherwise nothing changes.
    pub fn record(&mut self, pair: [usize; 2], time_step: u64) -> (recorded: bool)
        requires
            old(self).wf(),
        ensures
            final(self).wf(),
            recorded == separates(old(self).states().last(), pair),
            recorded ==> final(self).states() == old(self).states().push(
                merged(old(self).states().last(), pair[0] as int, pair[1] as int),
            ),
            recorded ==> final(self).merges() == old(self).merges().push(pair),
            recorded ==> final(self).durations() == old(self).durations().push(time_step),
            recorded ==> final(self).cached().is_none(),
            !recorded ==> final(self).states() == old(self).states(),
            !recorded ==> final(self).merges() == old(self).merges(),
            !recorded ==> final(self).durations() == old(self).durations(),
            !recorded ==> final(self).cached() == old(self).cached(),
    {
        let events: usize = self.steps.len();
        let last = &self.path[events];
        let n: usize = element_count(last);
        if pair[0] < n && pair[1] < n && !same_set(last, pair[0], pair[1]) {
            let mut next = copy_of(last);
            union(&mut next, pair[0], pair[1]);
            let ghost before = self.states();
            let ghost steps_before = self.merges();
            self.path.push(next);
            self.steps.push(pair);
            self.time_steps.push(time_step);
            self.graph = None;
            proof {
                let after = self.states();
                assert(after =~= before.push(merged(before.last(), pair[0] as int, pair[1] as int)));
                assert forall|i: int| 0 <= i < self.merges().len() implies #[trigger] event_at(
                    after,
                    self.merges(),
                    i,
                ) by {
                    if i < events {
                        assert(event_at(before, steps_before, i));
                    }
                }
            }
            true
        } else {
            false
        }
    }
}

impl Genealogy {
    /// Number of elements of the sample.
    pub fn group_size(&self) -> (n: usize)
        requires
            self.wf(),
        ensures
            n == self.size(),
    {
        element_count(&self.path[0])
    }

    /// Number of events recorded.
    pub fn events(&self) -> (count: usize)
        requires
            self.wf(),
        ensures
            count == self.merges().len(),
            count + 1 == self.states().len(),
            count == self.durations().len(),
    {
        self.steps.len()
    }

    /// The states the run went through, from singletons on.
    pub fn path(&self) -> (path: &Vec<PartitionVec<()>>)
        ensures
            path@.len() == self.states().len(),
            forall|i: int| 0 <= i < path@.len() ==> classes(#[trigger] path@[i]) == self.states()[i],
    {
        &self.path
    }

    /// The pair of elements merged at each event.
    pub fn steps(&self) -> (steps: &Vec<[usize; 2]>)
        ensures
            steps@ == self.merges(),
    {
        &self.steps
    }

    /// The waiting time before each event.
    pub fn time_steps(&self) -> (time_steps: &Vec<u64>)
        ensures
            time_steps@ == self.durations(),
    {
        &self.time_steps
    }

    /// Whether the run has reached its end.
    pub fn is_complete(&self) -> (done: bool)
        requires
            self.wf(),
        ensures
            done == self.complete(),
    {
        let last: usize = self.steps.len();
        assert(self.states().last() == classes(self.path@[last as int]));
        amount_of_sets(&self.path[last]) <= 1
    }

    /// Number of lineages alive during the waiting time before the event
    /// `index`: the weight of that waiting time in the length of the tree.
    pub fn lineages(&self, index: usize) -> (count: usize)
        requires
            self.wf(),
            index < self.merges().len(),
        ensures
            count == self.size() - index,
            count == class_count(self.states()[index as int]),
    {
        proof {
            lemma_history_state(self.states(), self.merges(), index as int);
        }
        let n: usize = element_count(&self.path[0]);
        n - index
    }

    /// Number of events after which the two elements first share a set. The
    /// divergence of the two is twice the sum of the waiting times of these
    /// events. Where they never do, it is the number of states.
    pub fn coalescence_event(&self, index_1: usize, index_2: usize) -> (event: usize)
        requires
            self.wf(),
            index_1 < self.size(),
            index_2 < self.size(),
        ensures
            event == coalescence(self.states(), index_1 as int, index_2 as int),
    {
        let mut counter: usize = 0;
        while counter < self.path.len()
            invariant
                self.wf(),
                index_1 < self.size(),
                index_2 < self.size(),
                counter <= self.path.len(),
                coalescence(self.states(), index_1 as int, index_2 as int) == first_together(
                    self.states(),
                    index_1 as int,
                    index_2 as int,
                    counter as int,
                ),
            decreases self.path.len() - counter,
        {
            proof {
                lemma_history_state(self.states(), self.merges(), counter as int);
            }
            if same_set(&self.path[counter], index_1, index_2) {
                return counter;
            }
            counter += 1;
        }
        counter
    }

    /// Number of pairs of elements that the event `index` brings together:
    /// one element from each of the two sets it merges. It is the weight of
    /// the time elapsed up to and including that event in the sum of all
    /// pairwise coalescence times.
    pub fn merged_pairs(&self, index: usize) -> (pairs: u128)
        requires
            self.wf(),
            index < self.merges().len(),
        ensures
            pairs == pairs_joined(self.states(), self.merges(), index as int),
    {
        proof {
            lemma_history_state(self.states(), self.merges(), index as int);
            assert(event_at(self.states(), self.merges(), index as int));
        }
        let pair = self.steps[index];
        let state = &self.path[index];
        let first: u128 = len_of_set(state, pair[0]) as u128;
        let second: u128 = len_of_set(state, pair[1]) as u128;
        assert(first * second <= 0xFFFF_FFFF_FFFF_FFFF * 0xFFFF_FFFF_FFFF_FFFF) by (nonlinear_arith)
            requires
                0 <= first <= 0xFFFF_FFFF_FFFF_FFFF,
                0 <= second <= 0xFFFF_FFFF_FFFF_FFFF,
        ;
        first * second
    }
}

impl Genealogy {
    /// Builds the ancestry graph from the record. The graph counts its nodes
    /// and edges in 32 bits, which bounds the genealogies it can depict.
    fn build_graph(&self) -> (graph: Graph<(usize, usize), u64, Undirected, u32>)
        requires
            self.wf(),
            self.size() + self.merges().len() < u32::MAX,
        ensures
            depicts(graph, self.states(), self.merges(), self.durations()),
    {
        let ghost states = self.states();
        let ghost steps = self.merges();
        let ghost times = self.durations();
        let mut graph = new_graph();
        let events: usize = self.steps.len();
        if events == 0 {
            add_node(&mut graph, (0, 0));
            assert(graph_nodes(graph) =~= ancestry_nodes(states, steps));
            assert(graph_edges(graph) =~= ancestry_edges(states, steps, times));
            return graph;
        }
        let n: usize = element_count(&self.path[0]);
        let mut latest: Vec<usize> = Vec::new();
        let mut index: usize = 0;
        while index < n
            invariant
                index <= n < u32::MAX,
                graph_nodes(graph) =~= Seq::new(index as nat, |k: int| (0usize, k as usize)),
                graph_edges(graph) =~= Seq::<(int, int, u64)>::empty(),
                latest@ =~= Seq::new(index as nat, |k: int| k as usize),
            decreases n - index,
        {
            add_node(&mut graph, (0, index));
            latest.push(index);
            index += 1;
        }
        let mut generation: usize = 0;
        assert(graph_nodes(graph) =~= ancestry_nodes(states, steps).subrange(0, n as int));
        assert(graph_edges(graph) =~= ancestry_edges(states, steps, times).subrange(0, 0));
        while generation < events
            invariant
                self.wf(),
                states == self.states(),
                steps == self.merges(),
                times == self.durations(),
                events == steps.len(),
                n == self.size(),
                n + events < u32::MAX,
                generation <= events,
                graph_nodes(graph) == ancestry_nodes(states, steps).subrange(0, n + generation),
                graph_edges(graph) == ancestry_edges(states, steps, times).subrange(
                    0,
                    2 * generation,
                ),
                latest@.len() == n,
                forall|r: int|
                    0 <= r < n ==> #[trigger] latest@[r] == latest_node(
                        states,
                        steps,
                        generation as int,
                        r,
                    ) && latest@[r] < n + generation,
            decreases events - generation,
        {
            let pair = self.steps[generation];
            let state = &self.path[generation];
            let time_step: u64 = self.time_steps[generation];
            proof {
                lemma_history_state(states, steps, generation as int);
                assert(event_at(states, steps, generation as int));
            }
            let first: usize = least_member(state, pair[0]).unwrap();
            let second: usize = least_member(state, pair[1]).unwrap();
            let parent: usize = if first <= second { first } else { second };
            let ghost nodes_before = graph_nodes(graph);
            let ghost edges_before = graph_edges(graph);
            let node: usize = add_node(&mut graph, (generation + 1, parent));
            add_edge(&mut graph, node, latest[first], time_step);
            add_edge(&mut graph, node, latest[second], time_step);
            proof {
                let g = generation as int;
                assert(parent == parent_label(states, steps, g));
                assert(2 * g / 2 == g && (2 * g) % 2 == 0);
                assert((2 * g + 1) / 2 == g && (2 * g + 1) % 2 == 1);
                assert(graph_nodes(graph) =~= ancestry_nodes(states, steps).subrange(0, n + g + 1));
                assert(graph_edges(graph) =~= ancestry_edges(states, steps, times).subrange(
                    0,
                    2 * (g + 1),
                ));
            }
            latest.set(parent, node);
            generation += 1;
        }
        assert(graph_nodes(graph) =~= ancestry_nodes(states, steps));
        assert(graph_edges(graph) =~= ancestry_edges(states, steps, times));
        graph
    }

    /// Computes the ancestry graph and keeps it, unless it is kept already.
    /// The record itself does not change.
    pub fn compute_graph(&mut self)
        requires
            old(self).wf(),
            old(self).size() + old(self).merges().len() < u32::MAX,
        ensures
            final(self).wf(),
            final(self).states() == old(self).states(),
            final(self).merges() == old(self).merges(),
            final(self).durations() == old(self).durations(),
            final(self).cached().is_some(),
            old(self).cached().is_some() ==> final(self).cached() == old(self).cached(),
            depicts(
                final(self).cached().unwrap(),
                old(self).states(),
                old(self).merges(),
                old(self).durations(),
            ),
    {
        if self.graph.is_none() {
            let graph = self.build_graph();
            self.graph = Some(graph);
        }
    }

    /// The ancestry graph that is kept, if any.
    pub fn graph(&self) -> (graph: Option<&Graph<(usize, usize), u64, Undirected, u32>>)
        ensures
            graph.is_some() == self.cached().is_some(),
            graph.is_some() ==> *graph.unwrap() == self.cached().unwrap(),
    {
        self.graph.as_ref()
    }

    /// Turns the genealogy into its ancestry graph: the one that is kept, or
    /// else a newly computed one.
    pub fn into_graph(self) -> (graph: Graph<(usize, usize), u64, Undirected, u32>)
        requires
            self.wf(),
            self.size() + self.merges().len() < u32::MAX,
        ensures
            depicts(graph, self.states(), self.merges(), self.durations()),
            self.cached().is_some() ==> graph == self.cached().unwrap(),
    {
        match self.graph {
            Some(graph) => graph,
            None => self.build_graph(),
        }
    }
}

impl Clone for Genealogy {
    /// A genealogy with the same record, and with a copy of the ancestry
    /// graph where one is kept.
    fn clone(&self) -> (copy: Self)
        ensures
            copy.states() == self.states(),
            copy.merges() == self.merges(),
            copy.durations() == self.durations(),
            copy.cached().is_some() == self.cached().is_some(),
            copy.cached().is_some() ==> graph_nodes(copy.cached().unwrap()) == graph_nodes(
                self.cached().unwrap(),
            ) && graph_edges(copy.cached().unwrap()) == graph_edges(self.cached().unwrap()),
            self.wf() ==> copy.wf(),
    {
        let mut path: Vec<PartitionVec<()>> = Vec::new();
        let mut index: usize = 0;
        while index < self.path.len()
            invariant
                index <= self.path.len(),
                path@.len() == index,
                forall|i: int| 0 <= i < index ==> classes(#[trigger] path@[i]) == classes(self.path@[i]),
            decreases self.path.len() - index,
        {
            path.push(copy_of(&self.path[index]));
            index += 1;
        }
        let mut steps: Vec<[usize; 2]> = Vec::new();
        let mut event: usize = 0;
        while event < self.steps.len()
            invariant
                event <= self.steps.len(),
                steps@ =~= self.steps@.subrange(0, event as int),
            decreases self.steps.len() - event,
        {
            steps.push(self.steps[event]);
            event += 1;
        }
        let graph = match &self.graph {
            Some(graph) => Some(copy_of_graph(graph)),
            None => None,
        };
        let copy = Genealogy { path, steps, time_steps: self.time_steps.clone(), graph };
        assert(copy.states() =~= self.states());
        assert(copy.merges() =~= self.merges());
        assert(copy.durations() =~= self.durations());
        copy
    }
}

} // verus!
