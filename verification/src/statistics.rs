//! The statistics of a genealogy that are sums of waiting times: depth,
//! length, divergence and mean pairwise divergence.
//!
//! A waiting time is a real number kept as a 64-bit pattern, and this library
//! does no arithmetic on real numbers. The caller hands in the operations:
//! how to turn a whole number into a real one, and how to add, multiply and
//! divide two of them. What is fixed, and proved, here is which operations are
//! applied to which values, and in which order.

use vstd::prelude::*;
use crate::divergence::{coalescence, lemma_coalescence_symmetric, pairs_joined};
use crate::genealogy::Genealogy;

verus! {

/// `of` turns every whole number into a real one.
pub open spec fn converts<C: Fn(u128) -> u64>(of: &C) -> bool {
    forall|n: u128| #[trigger] of.requires((n,))
}

/// `op` applies to every two real numbers.
pub open spec fn combines<O: Fn(u64, u64) -> u64>(op: &O) -> bool {
    forall|x: u64, y: u64| #[trigger] op.requires((x, y))
}

/// `value` is what `of` made of the whole number `n`.
pub open spec fn made_of<C: Fn(u128) -> u64>(of: &C, n: int, value: u64) -> bool {
    0 <= n <= u128::MAX && of.ensures((n as u128,), value)
}

/// `result` is what `op` made of `x` and `y`, in this order.
pub open spec fn gives<O: Fn(u64, u64) -> u64>(op: &O, x: u64, y: u64, result: u64) -> bool {
    op.ensures((x, y), result)
}

/// `total` is what comes of adding the first `k` of `items` to `start`, one
/// after the other.
pub open spec fn adds_up<A: Fn(u64, u64) -> u64>(
    sum: &A,
    start: u64,
    items: Seq<u64>,
    k: int,
    total: u64,
) -> bool
    decreases k,
{
    if k <= 0 {
        total == start
    } else {
        exists|before: u64|
            adds_up(sum, start, items, k - 1, before) && #[trigger] gives(
                sum,
                before,
                items[k - 1],
                total,
            )
    }
}

/// `term` is the waiting time before the event `i`, multiplied from the left
/// by the number of lineages alive during it.
pub open spec fn weighs<C: Fn(u128) -> u64, M: Fn(u64, u64) -> u64>(
    of: &C,
    product: &M,
    size: int,
    times: Seq<u64>,
    i: int,
    term: u64,
) -> bool {
    exists|lineages: u64| #[trigger]
        made_of(of, size - i, lineages) && gives(product, lineages, times[i], term)
}

/// `total` is what comes of adding to `start`, one after the other, the
/// weighted waiting times of the first `k` events.
pub open spec fn lengths_add_up<C: Fn(u128) -> u64, A: Fn(u64, u64) -> u64, M: Fn(u64, u64) -> u64>(
    of: &C,
    sum: &A,
    product: &M,
    start: u64,
    size: int,
    times: Seq<u64>,
    k: int,
    total: u64,
) -> bool
    decreases k,
{
    if k <= 0 {
        total == start
    } else {
        exists|before: u64, term: u64|
            lengths_add_up(of, sum, product, start, size, times, k - 1, before) && weighs(
                of,
                product,
                size,
                times,
                k - 1,
                term,
            ) && #[trigger] gives(sum, before, term, total)
    }
}

/// `term` is what the event `i` adds in the sweep: `two` times the time
/// elapsed up to and including it, times the number of pairs it brings
/// together.
pub open spec fn sweeps<C: Fn(u128) -> u64, M: Fn(u64, u64) -> u64>(
    of: &C,
    product: &M,
    two: u64,
    pairs: int,
    elapsed: u64,
    term: u64,
) -> bool {
    exists|doubled: u64, count: u64| #[trigger]
        gives(product, two, elapsed, doubled) && made_of(of, pairs, count) && #[trigger] gives(
            product,
            doubled,
            count,
            term,
        )
}

/// After the first `k` events the sweep has `elapsed` as the time elapsed
/// and `total` as its sum, both begun at `start`.
pub open spec fn sweep_reaches<C: Fn(u128) -> u64, A: Fn(u64, u64) -> u64, M: Fn(u64, u64) -> u64>(
    of: &C,
    sum: &A,
    product: &M,
    start: u64,
    two: u64,
    states: Seq<Seq<int>>,
    steps: Seq<[usize; 2]>,
    times: Seq<u64>,
    k: int,
    elapsed: u64,
    total: u64,
) -> bool
    decreases k,
{
    if k <= 0 {
        elapsed == start && total == start
    } else {
        exists|elapsed_before: u64, total_before: u64, term: u64|
            sweep_reaches(
                of,
                sum,
                product,
                start,
                two,
                states,
                steps,
                times,
                k - 1,
                elapsed_before,
                total_before,
            ) && #[trigger] gives(sum, elapsed_before, times[k - 1], elapsed) && sweeps(
                of,
                product,
                two,
                pairs_joined(states, steps, k - 1) as int,
                elapsed,
                term,
            ) && #[trigger] gives(sum, total_before, term, total)
    }
}

/// `depth` is the sum of all waiting times, added to zero one after the
/// other.
pub open spec fn is_depth<C: Fn(u128) -> u64, A: Fn(u64, u64) -> u64>(
    of: &C,
    sum: &A,
    times: Seq<u64>,
    depth: u64,
) -> bool {
    exists|zero: u64| #[trigger]
        made_of(of, 0, zero) && adds_up(sum, zero, times, times.len() as int, depth)
}

/// `length` is the sum of all waiting times, each multiplied by the number
/// of lineages alive during it, added to zero one after the other.
pub open spec fn is_length<C: Fn(u128) -> u64, A: Fn(u64, u64) -> u64, M: Fn(u64, u64) -> u64>(
    of: &C,
    sum: &A,
    product: &M,
    size: int,
    times: Seq<u64>,
    length: u64,
) -> bool {
    exists|zero: u64| #[trigger]
        made_of(of, 0, zero) && lengths_add_up(
            of,
            sum,
            product,
            zero,
            size,
            times,
            times.len() as int,
            length,
        )
}

/// Number of waiting times that separate `a` and `b` from their first common
/// ancestor: those of the events before the two first share a set, and all
/// of them where they never do.
pub open spec fn separating_events(states: Seq<Seq<int>>, times: Seq<u64>, a: int, b: int) -> int {
    if coalescence(states, a, b) <= times.len() {
        coalescence(states, a, b)
    } else {
        times.len() as int
    }
}

/// `divergence` is two times the sum of the first `events` waiting times.
pub open spec fn is_divergence<C: Fn(u128) -> u64, A: Fn(u64, u64) -> u64, M: Fn(u64, u64) -> u64>(
    of: &C,
    sum: &A,
    product: &M,
    times: Seq<u64>,
    events: int,
    divergence: u64,
) -> bool {
    exists|zero: u64, two: u64, elapsed: u64| #[trigger]
        made_of(of, 0, zero) && #[trigger] made_of(of, 2, two) && adds_up(
            sum,
            zero,
            times,
            events,
            elapsed,
        ) && #[trigger] gives(product, two, elapsed, divergence)
}

/// `mean` is the sum of the whole sweep, times two, divided by the number of
/// ordered pairs of different elements.
pub open spec fn is_mean_divergence<
    C: Fn(u128) -> u64,
    A: Fn(u64, u64) -> u64,
    M: Fn(u64, u64) -> u64,
    D: Fn(u64, u64) -> u64,
>(
    of: &C,
    sum: &A,
    product: &M,
    quotient: &D,
    states: Seq<Seq<int>>,
    steps: Seq<[usize; 2]>,
    times: Seq<u64>,
    mean: u64,
) -> bool {
    exists|zero: u64, two: u64, elapsed: u64, total: u64, scaled: u64, pairs: u64| #[trigger]
        made_of(of, 0, zero) && #[trigger] made_of(of, 2, two) && #[trigger] sweep_reaches(
            of,
            sum,
            product,
            zero,
            two,
            states,
            steps,
            times,
            steps.len() as int,
            elapsed,
            total,
        ) && #[trigger] gives(product, total, two, scaled) && #[trigger] made_of(
            of,
            ((steps.len() + 1) * steps.len()) as int,
            pairs,
        ) && #[trigger] gives(quotient, scaled, pairs, mean)
}

/// Divergence does not depend on which of the two elements is named first:
/// whatever can come out for `a` and `b` can come out for `b` and `a`. Between
/// an element and itself no waiting time is counted.
pub proof fn lemma_divergence_either_way<
    C: Fn(u128) -> u64,
    A: Fn(u64, u64) -> u64,
    M: Fn(u64, u64) -> u64,
>(
    of: &C,
    sum: &A,
    product: &M,
    states: Seq<Seq<int>>,
    times: Seq<u64>,
    a: int,
    b: int,
    divergence: u64,
)
    requires
        is_divergence(of, sum, product, times, separating_events(states, times, a, b), divergence),
    ensures
        is_divergence(of, sum, product, times, separating_events(states, times, b, a), divergence),
        states.len() > 0 ==> separating_events(states, times, a, a) == 0,
{
    lemma_coalescence_symmetric(states, a, b);
}

/// Adds the first `k` of `items` to `start`, one after the other.
fn sum_first<A: Fn(u64, u64) -> u64>(sum: &A, start: u64, items: &Vec<u64>, k: usize) -> (total: u64)
    requires
        combines(sum),
        k <= items@.len(),
    ensures
        adds_up(sum, start, items@, k as int, total),
{
    let mut total: u64 = start;
    let mut i: usize = 0;
    while i < k
        invariant
            combines(sum),
            i <= k <= items@.len(),
            adds_up(sum, start, items@, i as int, total),
        decreases k - i,
    {
        let next: u64 = sum(total, items[i]);
        assert(gives(sum, total, items@[i + 1 - 1], next));
        total = next;
        i += 1;
    }
    total
}

impl Genealogy {
    /// Total depth of the tree, the time back from the sample to its first
    /// common ancestor: the sum of all waiting times.
    pub fn depth<C: Fn(u128) -> u64, A: Fn(u64, u64) -> u64>(&self, of: &C, sum: &A) -> (depth: u64)
        requires
            converts(of),
            combines(sum),
        ensures
            is_depth(of, sum, self.durations(), depth),
    {
        let zero: u64 = of(0);
        let times = self.time_steps();
        let depth: u64 = sum_first(sum, zero, times, times.len());
        assert(made_of(of, 0, zero));
        depth
    }

    /// Total length of the branches of the tree: the sum of the waiting
    /// times, each counted once for every lineage alive during it, which
    /// before the event `i` are all elements but `i`.
    pub fn length<C: Fn(u128) -> u64, A: Fn(u64, u64) -> u64, M: Fn(u64, u64) -> u64>(
        &self,
        of: &C,
        sum: &A,
        product: &M,
    ) -> (length: u64)
        requires
            self.wf(),
            converts(of),
            combines(sum),
            combines(product),
        ensures
            is_length(of, sum, product, self.size() as int, self.durations(), length),
    {
        let zero: u64 = of(0);
        assert(made_of(of, 0, zero));
        let times = self.time_steps();
        let ghost size = self.size() as int;
        let mut total: u64 = zero;
        let mut i: usize = 0;
        while i < times.len()
            invariant
                self.wf(),
                converts(of),
                combines(sum),
                combines(product),
                times@ == self.durations(),
                size == self.size(),
                i <= times@.len(),
                lengths_add_up(of, sum, product, zero, size, times@, i as int, total),
            decreases times@.len() - i,
        {
            let lineages: u64 = of(self.lineages(i) as u128);
            let term: u64 = product(lineages, times[i]);
            let next: u64 = sum(total, term);
            proof {
                let k = i + 1;
                assert(made_of(of, size - (k - 1), lineages));
                assert(gives(product, lineages, times@[k - 1], term));
                assert(weighs(of, product, size, times@, k - 1, term));
                assert(gives(sum, total, term, next));
            }
            total = next;
            i += 1;
        }
        total
    }

    /// Distance between two elements in the tree, by way of their first
    /// common ancestor: two times the time elapsed before the two first share
    /// a set.
    pub fn divergence<C: Fn(u128) -> u64, A: Fn(u64, u64) -> u64, M: Fn(u64, u64) -> u64>(
        &self,
        index_1: usize,
        index_2: usize,
        of: &C,
        sum: &A,
        product: &M,
    ) -> (divergence: u64)
        requires
            self.wf(),
            index_1 < self.size(),
            index_2 < self.size(),
            converts(of),
            combines(sum),
            combines(product),
        ensures
            is_divergence(
                of,
                sum,
                product,
                self.durations(),
                separating_events(self.states(), self.durations(), index_1 as int, index_2 as int),
                divergence,
            ),
    {
        let counter: usize = self.coalescence_event(index_1, index_2);
        let times = self.time_steps();
        let events: usize = if counter <= times.len() { counter } else { times.len() };
        let zero: u64 = of(0);
        let two: u64 = of(2);
        let elapsed: u64 = sum_first(sum, zero, times, events);
        let divergence: u64 = product(two, elapsed);
        assert(made_of(of, 0, zero));
        assert(made_of(of, 2, two));
        assert(gives(product, two, elapsed, divergence));
        divergence
    }

    /// Mean distance of all pairs of different elements, taken by a sweep
    /// over the events: each event adds two times the time elapsed up to and
    /// including it, once for every pair it brings together; the sum, times
    /// two, is divided by the number of ordered pairs.
    pub fn mean_pairwise_divergence<
        C: Fn(u128) -> u64,
        A: Fn(u64, u64) -> u64,
        M: Fn(u64, u64) -> u64,
        D: Fn(u64, u64) -> u64,
    >(&self, of: &C, sum: &A, product: &M, quotient: &D) -> (mean: u64)
        requires
            self.wf(),
            converts(of),
            combines(sum),
            combines(product),
            combines(quotient),
        ensures
            is_mean_divergence(
                of,
                sum,
                product,
                quotient,
                self.states(),
                self.merges(),
                self.durations(),
                mean,
            ),
    {
        let zero: u64 = of(0);
        let two: u64 = of(2);
        assert(made_of(of, 0, zero));
        assert(made_of(of, 2, two));
        let times = self.time_steps();
        let ghost states = self.states();
        let ghost steps = self.merges();
        let events: usize = self.events();
        let mut elapsed: u64 = zero;
        let mut total: u64 = zero;
        let mut i: usize = 0;
        while i < events
            invariant
                self.wf(),
                converts(of),
                combines(sum),
                combines(product),
                times@ == self.durations(),
                states == self.states(),
                steps == self.merges(),
                events == steps.len(),
                i <= events,
                sweep_reaches(of, sum, product, zero, two, states, steps, times@, i as int, elapsed, total),
            decreases events - i,
        {
            let elapsed_next: u64 = sum(elapsed, times[i]);
            let doubled: u64 = product(two, elapsed_next);
            let count: u64 = of(self.merged_pairs(i));
            let term: u64 = product(doubled, count);
            let total_next: u64 = sum(total, term);
            proof {
                let k = i + 1;
                let pairs = pairs_joined(states, steps, k - 1) as int;
                assert(gives(sum, elapsed, times@[k - 1], elapsed_next));
                assert(gives(product, two, elapsed_next, doubled));
                assert(made_of(of, pairs, count));
                assert(gives(product, doubled, count, term));
                assert(sweeps(of, product, two, pairs, elapsed_next, term));
                assert(gives(sum, total, term, total_next));
            }
            elapsed = elapsed_next;
            total = total_next;
            i += 1;
        }
        let scaled: u64 = product(total, two);
        let wide: u128 = events as u128;
        assert((wide + 1) * wide <= 0x1_0000_0000_0000_0000 * 0xFFFF_FFFF_FFFF_FFFF)
            by (nonlinear_arith)
            requires
                0 <= wide <= 0xFFFF_FFFF_FFFF_FFFF,
        ;
        let pairs: u64 = of((wide + 1) * wide);
        let mean: u64 = quotient(scaled, pairs);
        proof {
            assert(gives(product, total, two, scaled));
            assert(made_of(of, ((steps.len() + 1) * steps.len()) as int, pairs));
            assert(gives(quotient, scaled, pairs, mean));
        }
        mean
    }
}

} // verus!
