//! The coalescent process: a partition that coarsens by one random merge at
//! a time until a single set is left.

use vstd::prelude::*;
use rand::Rng;
use partitions::PartitionVec;
use crate::partition::{
    amount_of_sets, class_count, classes, copy_of, element_count, follows, lemma_merged,
    lemma_some_class, member_of_set, merged, new_singletons, roots_below, separates, singletons,
    union,
};
use crate::random::draw_two;
use crate::genealogy::{event_at, history, lemma_history_state, Genealogy};

verus! {

/// The n-coalescent on the partitions of `{0, .., n - 1}`, together with the
/// random source that drives it.
///
/// A waiting time is a real number, which the process hands on as its 64-bit
/// pattern without looking into it. The function that draws one from the
/// random source at a given rate is the caller's; which sets merge the
/// process draws itself.
#[derive(Debug)]
pub struct Coalescent<R> {
    state: PartitionVec<()>,
    rng: R,
}

/// Number of unordered pairs among `k` sets: the rate of the next merge.
pub open spec fn pair_count(k: nat) -> nat {
    (k * (k - 1) / 2) as nat
}

impl<R> Coalescent<R> {
    /// The sets of the current state, each element labelled by the least
    /// element of its set.
    pub closed spec fn classes(&self) -> Seq<int> {
        classes(self.state)
    }

    /// The random source in its current state.
    pub closed spec fn source(&self) -> R {
        self.rng
    }

    /// A process on `group_size` elements, each in a set of its own.
    pub fn new(group_size: usize, rng: R) -> (process: Self)
        ensures
            process.classes() == singletons(group_size as nat),
            process.source() == rng,
    {
        Coalescent { state: new_singletons(group_size), rng }
    }

    /// The current state.
    pub fn state(&self) -> (state: &PartitionVec<()>)
        ensures
            classes(*state) == self.classes(),
    {
        &self.state
    }

    /// Replaces the current state.
    pub fn set_state(&mut self, state: PartitionVec<()>)
        ensures
            final(self).classes() == classes(state),
            final(self).source() == old(self).source(),
    {
        self.state = state;
    }

    /// Replaces the random source; the state stays.
    pub fn set_rng(&mut self, other_rng: R)
        ensures
            final(self).classes() == old(self).classes(),
            final(self).source() == other_rng,
    {
        self.rng = other_rng;
    }

    /// Rate of the next merge: the number of unordered pairs of sets, each
    /// pair merging at rate one. `None` where no merge is left, with one set
    /// or none.
    pub fn merge_rate(&self) -> (rate: Option<u128>)
        ensures
            class_count(self.classes()) <= 1 ==> rate.is_none(),
            class_count(self.classes()) >= 2 ==> rate == Some(
                pair_count(class_count(self.classes())) as u128,
            ) && rate.unwrap() >= 1,
    {
        let k: usize = amount_of_sets(&self.state);
        if k <= 1 {
            None
        } else {
            Some(pairs_among(k))
        }
    }
}

/// Number of unordered pairs among `k >= 2` sets.
fn pairs_among(k: usize) -> (pairs: u128)
    requires
        k >= 2,
    ensures
        pairs == pair_count(k as nat),
        pairs >= 1,
{
    let wide: u128 = k as u128;
    assert(2 <= wide * (wide - 1) <= 0xFFFF_FFFF_FFFF_FFFF * 0xFFFF_FFFF_FFFF_FFFF)
        by (nonlinear_arith)
        requires
            2 <= wide <= 0xFFFF_FFFF_FFFF_FFFF,
    ;
    wide * (wide - 1) / 2
}

/// `draw` can be asked for a waiting time at every positive rate, whatever
/// the state of the random source.
pub open spec fn draws_at_every_rate<S, F: Fn(&mut S, u128) -> u64>(draw: &F) -> bool {
    forall|source: &mut S, rate: u128| rate >= 1 ==> #[trigger] draw.requires((source, rate))
}

/// `time_step` is what `draw` handed out when asked for a waiting time at
/// `rate`, in some state of the random source.
pub open spec fn drawn_at<S, F: Fn(&mut S, u128) -> u64>(draw: &F, rate: u128, time_step: u64) -> bool {
    exists|source: &mut S| #[trigger] draw.ensures((source, rate), time_step)
}

/// The states of a sample path, each as the labels of its elements.
pub open spec fn path_states(path: Seq<(u64, PartitionVec<()>)>) -> Seq<Seq<int>> {
    Seq::new(path.len(), |i: int| classes(path[i].1))
}

/// Names one element of each of two sets, given by their places among
/// the sets of `state` in the order of their least elements. `None`
/// exactly where `state` has no set at one of the two places.
pub fn resolve(state: &PartitionVec<()>, first_set: usize, second_set: usize) -> (pair: Option<
    [usize; 2],
>)
    ensures
        pair.is_some() <==> first_set < class_count(classes(*state)) && second_set
            < class_count(classes(*state)),
        pair.is_some() ==> {
            let c = classes(*state);
            let named = pair.unwrap();
            &&& named[0] < c.len()
            &&& named[1] < c.len()
            &&& roots_below(c, c[named[0] as int]) == first_set
            &&& roots_below(c, c[named[1] as int]) == second_set
            &&& first_set != second_set ==> separates(c, named)
        },
{
    let k: usize = amount_of_sets(state);
    if first_set < k && second_set < k {
        let first: usize = member_of_set(state, first_set);
        let second: usize = member_of_set(state, second_set);
        Some([first, second])
    } else {
        None
    }
}

impl<R: Rng> Coalescent<R> {
    /// Peeks at a possible next event without changing the state: asks
    /// `waiting_time` for a waiting time at the rate of the next merge, then
    /// draws the two sets that would merge and names one element of each.
    /// `None` exactly where no merge is left; then nothing is drawn.
    ///
    /// A waiting time is a real number, handed on as its 64-bit pattern;
    /// `waiting_time` draws it from the process's random source.
    pub fn peek_next_step<F: Fn(&mut R, u128) -> u64>(&mut self, waiting_time: &F) -> (step: Option<
        (u64, [usize; 2]),
    >)
        requires
            draws_at_every_rate::<R, F>(waiting_time),
        ensures
            final(self).classes() == old(self).classes(),
            step.is_none() <==> class_count(old(self).classes()) <= 1,
            step.is_none() ==> final(self).source() == old(self).source(),
            step.is_some() ==> separates(old(self).classes(), step.unwrap().1),
            step.is_some() ==> drawn_at(
                waiting_time,
                pair_count(class_count(old(self).classes())) as u128,
                step.unwrap().0,
            ),
    {
        let k: usize = amount_of_sets(&self.state);
        if k <= 1 {
            None
        } else {
            let time_step: u64 = waiting_time(&mut self.rng, pairs_among(k));
            let (first_set, second_set) = draw_two(&mut self.rng, k);
            match resolve(&self.state, first_set, second_set) {
                Some(pair) => Some((time_step, pair)),
                None => None,
            }
        }
    }

    /// Moves to a next state: peeks at the next event, merges the two sets
    /// it names, and returns the event. `None` exactly where no merge is
    /// left; then nothing changes.
    pub fn next_step<F: Fn(&mut R, u128) -> u64>(&mut self, waiting_time: &F) -> (step: Option<
        (u64, [usize; 2]),
    >)
        requires
            draws_at_every_rate::<R, F>(waiting_time),
        ensures
            step.is_none() <==> class_count(old(self).classes()) <= 1,
            step.is_none() ==> final(self).classes() == old(self).classes(),
            step.is_none() ==> final(self).source() == old(self).source(),
            step.is_some() ==> separates(old(self).classes(), step.unwrap().1),
            step.is_some() ==> final(self).classes() == merged(
                old(self).classes(),
                step.unwrap().1[0] as int,
                step.unwrap().1[1] as int,
            ),
            step.is_some() ==> class_count(final(self).classes()) + 1 == class_count(
                old(self).classes(),
            ),
            step.is_some() ==> drawn_at(
                waiting_time,
                pair_count(class_count(old(self).classes())) as u128,
                step.unwrap().0,
            ),
    {
        match self.peek_next_step(waiting_time) {
            Some((time_step, pair)) => {
                let _elements: usize = element_count(&self.state);
                proof {
                    lemma_merged(self.classes(), pair[0] as int, pair[1] as int);
                }
                union(&mut self.state, pair[0], pair[1]);
                Some((time_step, pair))
            },
            None => None,
        }
    }

    /// Moves to a next state as `next_step` does, and returns the waiting
    /// time with a copy of the state reached.
    pub fn next_state<F: Fn(&mut R, u128) -> u64>(&mut self, waiting_time: &F) -> (next: Option<
        (u64, PartitionVec<()>),
    >)
        requires
            draws_at_every_rate::<R, F>(waiting_time),
        ensures
            next.is_none() <==> class_count(old(self).classes()) <= 1,
            next.is_none() ==> final(self).classes() == old(self).classes(),
            next.is_none() ==> final(self).source() == old(self).source(),
            next.is_some() ==> classes(next.unwrap().1) == final(self).classes(),
            next.is_some() ==> exists|pair: [usize; 2]|
                follows(old(self).classes(), pair, final(self).classes()),
            next.is_some() ==> drawn_at(
                waiting_time,
                pair_count(class_count(old(self).classes())) as u128,
                next.unwrap().0,
            ),
    {
        match self.next_step(waiting_time) {
            Some((time_step, pair)) => {
                assert(follows(old(self).classes(), pair, self.classes()));
                Some((time_step, copy_of(&self.state)))
            },
            None => None,
        }
    }
}

impl<R: Rng> Coalescent<R> {
    /// Samples a genealogy of as many elements as this process has: runs a
    /// process of its own from singletons to a single set, on a clone of
    /// `rng`, records each event, and leaves in `rng` the random source as
    /// the run left it. This process itself does not change.
    ///
    /// The waiting time before the event `i` is asked of `waiting_time` at
    /// the rate of the pairs among the `n - i` sets then alive.
    pub fn sample_genealogy<S: Rng + Clone, F: Fn(&mut S, u128) -> u64>(
        &self,
        rng: &mut S,
        waiting_time: &F,
    ) -> (genealogy: Genealogy)
        requires
            draws_at_every_rate::<S, F>(waiting_time),
        ensures
            genealogy.wf(),
            genealogy.complete(),
            genealogy.size() == self.classes().len(),
            genealogy.cached().is_none(),
            genealogy.states().len() == genealogy.merges().len() + 1,
            genealogy.durations().len() == genealogy.merges().len(),
            genealogy.states()[0] == singletons(genealogy.size()),
            genealogy.size() >= 1 ==> genealogy.merges().len() == genealogy.size() - 1,
            genealogy.size() >= 1 ==> class_count(genealogy.states().last()) == 1,
            genealogy.size() == 0 ==> genealogy.merges().len() == 0,
            forall|i: int|
                0 <= i < genealogy.states().len() ==> class_count(#[trigger] genealogy.states()[i])
                    + i == genealogy.size(),
            forall|i: int|
                0 <= i < genealogy.durations().len() ==> drawn_at(
                    waiting_time,
                    pair_count((genealogy.size() - i) as nat) as u128,
                    #[trigger] genealogy.durations()[i],
                ),
    {
        let group_size: usize = element_count(&self.state);
        let other_rng = rng.clone();
        let mut process = Coalescent::new(group_size, other_rng);
        let mut genealogy = Genealogy::new(group_size);
        loop
            invariant
                draws_at_every_rate::<S, F>(waiting_time),
                genealogy.wf(),
                genealogy.cached().is_none(),
                genealogy.size() == group_size,
                process.classes() == genealogy.states().last(),
                forall|i: int|
                    0 <= i < genealogy.durations().len() ==> drawn_at(
                        waiting_time,
                        pair_count((group_size - i) as nat) as u128,
                        #[trigger] genealogy.durations()[i],
                    ),
            ensures
                class_count(process.classes()) <= 1,
            decreases class_count(process.classes()),
        {
            proof {
                lemma_history_state(
                    genealogy.states(),
                    genealogy.merges(),
                    genealogy.merges().len() as int,
                );
            }
            match process.next_step(waiting_time) {
                Some((time_step, pair)) => {
                    let recorded = genealogy.record(pair, time_step);
                    assert(recorded);
                },
                None => {
                    break ;
                },
            }
        }
        proof {
            let events = genealogy.merges().len() as int;
            lemma_history_state(genealogy.states(), genealogy.merges(), events);
            if group_size >= 1 {
                lemma_some_class(genealogy.states().last(), group_size as int);
            }
            assert forall|i: int| 0 <= i < genealogy.states().len() implies class_count(
                #[trigger] genealogy.states()[i],
            ) + i == genealogy.size() by {
                lemma_history_state(genealogy.states(), genealogy.merges(), i);
            }
        }
        *rng = process.rng;
        genealogy
    }

    /// Samples a path of a process of as many elements as this one has: the
    /// state of singletons with the waiting time zero, then each state
    /// reached with the waiting time before it, down to a single set. It
    /// runs on a clone of `rng` and leaves in `rng` the random source as the
    /// run left it. This process itself does not change.
    pub fn sample_path<S: Rng + Clone, F: Fn(&mut S, u128) -> u64>(
        &self,
        rng: &mut S,
        waiting_time: &F,
    ) -> (path: Vec<(u64, PartitionVec<()>)>)
        requires
            draws_at_every_rate::<S, F>(waiting_time),
        ensures
            path@.len() >= 1,
            path@[0].0 == 0,
            path_states(path@)[0] == singletons(self.classes().len()),
            exists|steps: Seq<[usize; 2]>| history(path_states(path@), steps),
            class_count(path_states(path@).last()) <= 1,
            self.classes().len() >= 1 ==> path@.len() == self.classes().len(),
            forall|i: int|
                0 <= i < path@.len() ==> class_count(#[trigger] path_states(path@)[i]) + i
                    == self.classes().len(),
            forall|i: int|
                1 <= i < path@.len() ==> drawn_at(
                    waiting_time,
                    pair_count((self.classes().len() + 1 - i) as nat) as u128,
                    #[trigger] path@[i].0,
                ),
    {
        let group_size: usize = element_count(&self.state);
        let other_rng = rng.clone();
        let mut process = Coalescent::new(group_size, other_rng);
        let mut path: Vec<(u64, PartitionVec<()>)> = Vec::new();
        path.push((0, copy_of(&process.state)));
        let ghost mut steps: Seq<[usize; 2]> = Seq::empty();
        assert(path_states(path@)[0] == singletons(group_size as nat));
        loop
            invariant
                draws_at_every_rate::<S, F>(waiting_time),
                path@.len() >= 1,
                path@[0].0 == 0,
                path_states(path@)[0] == singletons(group_size as nat),
                history(path_states(path@), steps),
                process.classes() == path_states(path@).last(),
                forall|i: int|
                    1 <= i < path@.len() ==> drawn_at(
                        waiting_time,
                        pair_count((group_size + 1 - i) as nat) as u128,
                        #[trigger] path@[i].0,
                    ),
            ensures
                class_count(process.classes()) <= 1,
            decreases class_count(process.classes()),
        {
            let ghost before = path_states(path@);
            proof {
                lemma_history_state(before, steps, steps.len() as int);
            }
            match process.next_state(waiting_time) {
                Some((time_step, state)) => {
                    let ghost pair = choose|pair: [usize; 2]|
                        follows(before.last(), pair, process.classes());
                    path.push((time_step, state));
                    proof {
                        lemma_merged(before.last(), pair[0] as int, pair[1] as int);
                        let after = path_states(path@);
                        let earlier = steps;
                        steps = steps.push(pair);
                        assert(after =~= before.push(process.classes()));
                        assert forall|i: int| 0 <= i < steps.len() implies #[trigger] event_at(
                            after,
                            steps,
                            i,
                        ) by {
                            if i < earlier.len() {
                                assert(event_at(before, earlier, i));
                            }
                        }
                    }
                },
                None => {
                    break ;
                },
            }
        }
        proof {
            lemma_history_state(path_states(path@), steps, steps.len() as int);
            if group_size >= 1 {
                lemma_some_class(path_states(path@).last(), group_size as int);
            }
            assert forall|i: int| 0 <= i < path@.len() implies class_count(
                #[trigger] path_states(path@)[i],
            ) + i == group_size by {
                lemma_history_state(path_states(path@), steps, i);
            }
        }
        *rng = process.rng;
        path
    }
}

impl<R: Clone> Clone for Coalescent<R> {
    /// A process in the same state, with a clone of the random source.
    fn clone(&self) -> (process: Self)
        ensures
            process.classes() == self.classes(),
    {
        Coalescent { state: copy_of(&self.state), rng: self.rng.clone() }
    }
}

} // verus!
