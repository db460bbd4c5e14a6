//! When two elements of a genealogy coalesce, and which pairs an event
//! brings together.
//!
//! The divergence of two elements is twice the time elapsed before they
//! first share a set. The mean pairwise divergence is taken by a sweep over
//! the events in place of a scan over the pairs; what justifies the sweep is
//! proved here: the pairs that first share a set after an event are those
//! with one element in each of the two sets it merges.

use vstd::prelude::*;
use crate::genealogy::{event_at, history, lemma_history_state};
use crate::partition::{class_count, class_size, lemma_one_class, members_below};

verus! {

/// Number of pairs with one element in each of the two sets that the event
/// `i` merges.
pub open spec fn pairs_joined(states: Seq<Seq<int>>, steps: Seq<[usize; 2]>, i: int) -> nat {
    class_size(states[i], steps[i][0] as int) * class_size(states[i], steps[i][1] as int)
}

/// The first state from `from` on in which `a` and `b` share a set, or the
/// number of states where there is none.
pub open spec fn first_together(states: Seq<Seq<int>>, a: int, b: int, from: int) -> int
    decreases states.len() - from,
{
    if from >= states.len() {
        states.len() as int
    } else if states[from][a] == states[from][b] {
        from
    } else {
        first_together(states, a, b, from + 1)
    }
}

/// Number of events after which `a` and `b` first share a set: the events
/// whose waiting times separate both from their common ancestor.
pub open spec fn coalescence(states: Seq<Seq<int>>, a: int, b: int) -> int {
    first_together(states, a, b, 0)
}

/// `first_together` is the least state from `from` on in which the two
/// elements share a set.
pub proof fn lemma_first_together(states: Seq<Seq<int>>, a: int, b: int, from: int)
    requires
        0 <= from <= states.len(),
    ensures
        from <= first_together(states, a, b, from) <= states.len(),
        forall|k: int|
            from <= k < first_together(states, a, b, from) ==> (#[trigger] states[k])[a]
                != states[k][b],
        first_together(states, a, b, from) < states.len() ==> states[first_together(
            states,
            a,
            b,
            from,
        )][a] == states[first_together(states, a, b, from)][b],
    decreases states.len() - from,
{
    if from < states.len() && states[from][a] != states[from][b] {
        lemma_first_together(states, a, b, from + 1);
    }
}

proof fn lemma_first_together_symmetric(states: Seq<Seq<int>>, a: int, b: int, from: int)
    requires
        0 <= from,
    ensures
        first_together(states, a, b, from) == first_together(states, b, a, from),
    decreases states.len() - from,
{
    if from < states.len() && states[from][a] != states[from][b] {
        lemma_first_together_symmetric(states, a, b, from + 1);
    }
}

/// Two elements coalesce with each other at the same event whichever is
/// named first, and an element has coalesced with itself before any event.
/// The divergence of two elements is twice the sum of the waiting times of
/// the events before they coalesce, so it is symmetric, and zero between an
/// element and itself.
pub proof fn lemma_coalescence_symmetric(states: Seq<Seq<int>>, a: int, b: int)
    ensures
        coalescence(states, a, b) == coalescence(states, b, a),
        states.len() > 0 ==> coalescence(states, a, a) == 0,
{
    lemma_first_together_symmetric(states, a, b, 0);
}

/// Number of elements `b` below `m` that first share a set with `a` after
/// exactly `e` events.
pub open spec fn meeting_with(states: Seq<Seq<int>>, e: int, a: int, m: int) -> nat
    decreases m,
{
    if m <= 0 {
        0
    } else {
        meeting_with(states, e, a, m - 1) + if coalescence(states, a, m - 1) == e {
            1nat
        } else {
            0nat
        }
    }
}

/// Number of ordered pairs `(a, b)`, with `a` below `k` and `b` below `n`,
/// that first share a set after exactly `e` events.
pub open spec fn meeting(states: Seq<Seq<int>>, e: int, k: int, n: int) -> nat
    decreases k,
{
    if k <= 0 {
        0
    } else {
        meeting(states, e, k - 1, n) + meeting_with(states, e, k - 1, n)
    }
}

/// Sets never split: two elements that share a set in one state of a
/// history share one in every later state.
pub proof fn lemma_stay_together(
    states: Seq<Seq<int>>,
    steps: Seq<[usize; 2]>,
    a: int,
    b: int,
    earlier: int,
    later: int,
)
    requires
        history(states, steps),
        0 <= a < states[0].len(),
        0 <= b < states[0].len(),
        0 <= earlier <= later <= steps.len(),
        states[earlier][a] == states[earlier][b],
    ensures
        states[later][a] == states[later][b],
    decreases later,
{
    if earlier < later {
        lemma_stay_together(states, steps, a, b, earlier, later - 1);
        lemma_history_state(states, steps, later - 1);
        assert(event_at(states, steps, later - 1));
    }
}

/// Two elements first share a set after the event `i` exactly where they
/// lie in different sets before it and in one set after it.
pub proof fn lemma_coalesce_at(states: Seq<Seq<int>>, steps: Seq<[usize; 2]>, a: int, b: int, i: int)
    requires
        history(states, steps),
        0 <= a < states[0].len(),
        0 <= b < states[0].len(),
        0 <= i < steps.len(),
    ensures
        coalescence(states, a, b) == i + 1 <==> states[i][a] != states[i][b] && states[i + 1][a]
            == states[i + 1][b],
{
    lemma_first_together(states, a, b, 0);
    let first = coalescence(states, a, b);
    if states[i][a] != states[i][b] && states[i + 1][a] == states[i + 1][b] {
        if first <= i {
            lemma_stay_together(states, steps, a, b, first, i);
        }
        if first > i + 1 {
            assert(states[i + 1][a] != states[i + 1][b]);
        }
    }
    if first == i + 1 {
        assert(states[i][a] != states[i][b]);
    }
}

/// The pairs that the event `i` brings together are those with one element
/// in each of the two sets it merges.
pub proof fn lemma_brought_together(
    states: Seq<Seq<int>>,
    steps: Seq<[usize; 2]>,
    a: int,
    b: int,
    i: int,
)
    requires
        history(states, steps),
        0 <= a < states[0].len(),
        0 <= b < states[0].len(),
        0 <= i < steps.len(),
    ensures
        coalescence(states, a, b) == i + 1 <==> {
            let c = states[i];
            let first = c[steps[i][0] as int];
            let second = c[steps[i][1] as int];
            (c[a] == first && c[b] == second) || (c[a] == second && c[b] == first)
        },
{
    lemma_coalesce_at(states, steps, a, b, i);
    lemma_history_state(states, steps, i);
    assert(event_at(states, steps, i));
}

proof fn lemma_meeting_with(states: Seq<Seq<int>>, steps: Seq<[usize; 2]>, i: int, a: int, m: int)
    requires
        history(states, steps),
        0 <= a < states[0].len(),
        0 <= i < steps.len(),
        0 <= m <= states[0].len(),
    ensures
        meeting_with(states, i + 1, a, m) == {
            let c = states[i];
            let first = c[steps[i][0] as int];
            let second = c[steps[i][1] as int];
            if c[a] == first {
                members_below(c, second, m)
            } else if c[a] == second {
                members_below(c, first, m)
            } else {
                0
            }
        },
    decreases m,
{
    if m > 0 {
        lemma_meeting_with(states, steps, i, a, m - 1);
        lemma_brought_together(states, steps, a, m - 1, i);
        assert(event_at(states, steps, i));
    }
}

proof fn lemma_meeting(states: Seq<Seq<int>>, steps: Seq<[usize; 2]>, i: int, k: int)
    requires
        history(states, steps),
        0 <= i < steps.len(),
        0 <= k <= states[0].len(),
    ensures
        meeting(states, i + 1, k, states[0].len() as int) == {
            let c = states[i];
            let n = states[0].len() as int;
            let first = c[steps[i][0] as int];
            let second = c[steps[i][1] as int];
            members_below(c, first, k) * members_below(c, second, n) + members_below(c, second, k)
                * members_below(c, first, n)
        },
    decreases k,
{
    let c = states[i];
    let n = states[0].len() as int;
    let first = c[steps[i][0] as int];
    let second = c[steps[i][1] as int];
    if k > 0 {
        lemma_meeting(states, steps, i, k - 1);
        lemma_meeting_with(states, steps, i, k - 1, n);
        assert(event_at(states, steps, i));
        let p = members_below(c, first, k - 1) as int;
        let q = members_below(c, second, k - 1) as int;
        let s = members_below(c, second, n) as int;
        let t = members_below(c, first, n) as int;
        assert((p + 1) * s + q * t == p * s + q * t + s) by (nonlinear_arith);
        assert(p * s + (q + 1) * t == p * s + q * t + t) by (nonlinear_arith);
    } else {
        assert(0 * members_below(c, second, n) + 0 * members_below(c, first, n) == 0);
    }
}

/// The event `i` of a history brings together as many unordered pairs of
/// elements as the sizes of the two sets it merges multiply to: each such
/// pair first shares a set after exactly `i + 1` events, and, counted in
/// both orders, there are twice `pairs_joined` of them.
pub proof fn lemma_pairs_joined(states: Seq<Seq<int>>, steps: Seq<[usize; 2]>, i: int)
    requires
        history(states, steps),
        0 <= i < steps.len(),
    ensures
        meeting(states, i + 1, states[0].len() as int, states[0].len() as int) == 2 * pairs_joined(
            states,
            steps,
            i,
        ),
{
    lemma_meeting(states, steps, i, states[0].len() as int);
    lemma_history_state(states, steps, i);
    let c = states[i];
    let n = states[0].len() as int;
    let s = members_below(c, c[steps[i][0] as int], n) as int;
    let t = members_below(c, c[steps[i][1] as int], n) as int;
    assert(s * t + t * s == 2 * (s * t)) by (nonlinear_arith);
}

/// Time elapsed over the first `e` events, for waiting times that are whole
/// numbers of some unit.
pub open spec fn elapsed(times: Seq<int>, e: int) -> int
    decreases e,
{
    if e <= 0 {
        0
    } else {
        elapsed(times, e - 1) + times[e - 1]
    }
}

/// Divergence of two elements: twice the time elapsed before they first share
/// a set.
pub open spec fn divergence_between(states: Seq<Seq<int>>, times: Seq<int>, a: int, b: int) -> int {
    2 * elapsed(times, coalescence(states, a, b))
}

/// Divergence is symmetric, and zero between an element and itself.
pub proof fn lemma_divergence_symmetric(states: Seq<Seq<int>>, times: Seq<int>, a: int, b: int)
    ensures
        divergence_between(states, times, a, b) == divergence_between(states, times, b, a),
        states.len() > 0 ==> divergence_between(states, times, a, a) == 0,
{
    lemma_coalescence_symmetric(states, a, b);
}

/// Sum of the divergences of `a` and each element below `m`.
pub open spec fn divergence_from(states: Seq<Seq<int>>, times: Seq<int>, a: int, m: int) -> int
    decreases m,
{
    if m <= 0 {
        0
    } else {
        divergence_from(states, times, a, m - 1) + divergence_between(states, times, a, m - 1)
    }
}

/// Sum of the divergences of all ordered pairs `(a, b)` with `a` below `k`
/// and `b` below `n`.
pub open spec fn divergence_total(states: Seq<Seq<int>>, times: Seq<int>, k: int, n: int) -> int
    decreases k,
{
    if k <= 0 {
        0
    } else {
        divergence_total(states, times, k - 1, n) + divergence_from(states, times, k - 1, n)
    }
}

/// What the sweep over the first `m` events adds up: for each event, twice
/// the time elapsed up to and including it, once for each pair it brings
/// together.
pub open spec fn swept_divergence(
    states: Seq<Seq<int>>,
    steps: Seq<[usize; 2]>,
    times: Seq<int>,
    m: int,
) -> int
    decreases m,
{
    if m <= 0 {
        0
    } else {
        swept_divergence(states, steps, times, m - 1) + 2 * elapsed(times, m) * pairs_joined(
            states,
            steps,
            m - 1,
        )
    }
}

/// The divergences from `a` to the elements below `m`, grouped by the number
/// of events before the two meet, for the numbers below `bound`.
spec fn grouped_from(states: Seq<Seq<int>>, times: Seq<int>, bound: int, a: int, m: int) -> int
    decreases bound,
{
    if bound <= 0 {
        0
    } else {
        grouped_from(states, times, bound - 1, a, m) + 2 * elapsed(times, bound - 1) * meeting_with(
            states,
            bound - 1,
            a,
            m,
        )
    }
}

/// The divergences of the ordered pairs, grouped by the number of events
/// before the two meet, for the numbers below `bound`.
spec fn grouped(states: Seq<Seq<int>>, times: Seq<int>, bound: int, k: int, n: int) -> int
    decreases bound,
{
    if bound <= 0 {
        0
    } else {
        grouped(states, times, bound - 1, k, n) + 2 * elapsed(times, bound - 1) * meeting(
            states,
            bound - 1,
            k,
            n,
        )
    }
}

proof fn lemma_grouped_from_step(states: Seq<Seq<int>>, times: Seq<int>, bound: int, a: int, m: int)
    requires
        0 <= bound,
        0 < m,
    ensures
        grouped_from(states, times, bound, a, m) == grouped_from(states, times, bound, a, m - 1)
            + if coalescence(states, a, m - 1) < bound {
            divergence_between(states, times, a, m - 1)
        } else {
            0
        },
    decreases bound,
{
    if bound > 0 {
        lemma_grouped_from_step(states, times, bound - 1, a, m);
        let w = 2 * elapsed(times, bound - 1);
        let before = meeting_with(states, bound - 1, a, m - 1) as int;
        assert(w * (before + 1) == w * before + w) by (nonlinear_arith);
        lemma_first_together(states, a, m - 1, 0);
    }
}

proof fn lemma_grouped_from(states: Seq<Seq<int>>, times: Seq<int>, bound: int, a: int, m: int)
    requires
        bound > states.len(),
        0 <= m,
    ensures
        grouped_from(states, times, bound, a, m) == divergence_from(states, times, a, m),
    decreases m, bound,
{
    if m > 0 {
        lemma_grouped_from(states, times, bound, a, m - 1);
        lemma_grouped_from_step(states, times, bound, a, m);
        lemma_first_together(states, a, m - 1, 0);
    } else {
        lemma_grouped_from_none(states, times, bound, a);
    }
}

proof fn lemma_grouped_from_none(states: Seq<Seq<int>>, times: Seq<int>, bound: int, a: int)
    ensures
        grouped_from(states, times, bound, a, 0) == 0,
    decreases bound,
{
    if bound > 0 {
        lemma_grouped_from_none(states, times, bound - 1, a);
        let w = 2 * elapsed(times, bound - 1);
        assert(meeting_with(states, bound - 1, a, 0) == 0);
        assert(w * 0 == 0) by (nonlinear_arith);
    }
}

proof fn lemma_grouped_step(states: Seq<Seq<int>>, times: Seq<int>, bound: int, k: int, n: int)
    requires
        0 < k,
    ensures
        grouped(states, times, bound, k, n) == grouped(states, times, bound, k - 1, n)
            + grouped_from(states, times, bound, k - 1, n),
    decreases bound,
{
    if bound > 0 {
        lemma_grouped_step(states, times, bound - 1, k, n);
        let w = 2 * elapsed(times, bound - 1);
        let x = meeting(states, bound - 1, k - 1, n) as int;
        let y = meeting_with(states, bound - 1, k - 1, n) as int;
        assert(w * (x + y) == w * x + w * y) by (nonlinear_arith);
    }
}

proof fn lemma_grouped_none(states: Seq<Seq<int>>, times: Seq<int>, bound: int, n: int)
    ensures
        grouped(states, times, bound, 0, n) == 0,
    decreases bound,
{
    if bound > 0 {
        lemma_grouped_none(states, times, bound - 1, n);
        let w = 2 * elapsed(times, bound - 1);
        assert(meeting(states, bound - 1, 0, n) == 0);
        assert(w * 0 == 0) by (nonlinear_arith);
    }
}

proof fn lemma_grouped(states: Seq<Seq<int>>, times: Seq<int>, bound: int, k: int, n: int)
    requires
        bound > states.len(),
        0 <= k,
        0 <= n,
    ensures
        grouped(states, times, bound, k, n) == divergence_total(states, times, k, n),
    decreases k,
{
    if k > 0 {
        lemma_grouped(states, times, bound, k - 1, n);
        lemma_grouped_step(states, times, bound, k, n);
        lemma_grouped_from(states, times, bound, k - 1, n);
    } else {
        lemma_grouped_none(states, times, bound, n);
    }
}

proof fn lemma_grouped_swept(states: Seq<Seq<int>>, steps: Seq<[usize; 2]>, times: Seq<int>, m: int)
    requires
        history(states, steps),
        0 <= m <= steps.len(),
    ensures
        grouped(states, times, m + 1, states[0].len() as int, states[0].len() as int) == 2
            * swept_divergence(states, steps, times, m),
    decreases m,
{
    let n = states[0].len() as int;
    if m > 0 {
        lemma_grouped_swept(states, steps, times, m - 1);
        lemma_pairs_joined(states, steps, m - 1);
        let w = elapsed(times, m);
        let p = pairs_joined(states, steps, m - 1) as int;
        assert(2 * w * (2 * p) == 2 * (2 * w * p)) by (nonlinear_arith);
    } else {
        assert(grouped(states, times, 0, n, n) == 0);
        assert(elapsed(times, 0) == 0);
        let x = meeting(states, 0, n, n) as int;
        assert(0 * x == 0) by (nonlinear_arith);
    }
}

proof fn lemma_none_meet_later(states: Seq<Seq<int>>, steps: Seq<[usize; 2]>, a: int, m: int)
    requires
        history(states, steps),
        states[0].len() >= 1,
        class_count(states.last()) <= 1,
        0 <= a < states[0].len(),
        0 <= m <= states[0].len(),
    ensures
        meeting_with(states, states.len() as int, a, m) == 0,
    decreases m,
{
    if m > 0 {
        lemma_none_meet_later(states, steps, a, m - 1);
        lemma_history_state(states, steps, steps.len() as int);
        lemma_one_class(states.last(), a);
        lemma_one_class(states.last(), m - 1);
        lemma_first_together(states, a, m - 1, 0);
    }
}

proof fn lemma_none_meets_later(states: Seq<Seq<int>>, steps: Seq<[usize; 2]>, k: int)
    requires
        history(states, steps),
        states[0].len() >= 1,
        class_count(states.last()) <= 1,
        0 <= k <= states[0].len(),
    ensures
        meeting(states, states.len() as int, k, states[0].len() as int) == 0,
    decreases k,
{
    if k > 0 {
        lemma_none_meets_later(states, steps, k - 1);
        lemma_none_meet_later(states, steps, k - 1, states[0].len() as int);
    }
}

/// In a history that has reached a single set, the divergences of all
/// ordered pairs of elements add up to twice what the sweep over the events
/// adds up, whatever the waiting times. Each unordered pair is two ordered
/// ones, so the sweep's sum is the sum over the unordered pairs, and the mean
/// pairwise divergence, the sweep's sum divided by the number of pairs, is
/// the mean of the divergences. Stated for waiting times that are whole
/// numbers of some unit.
pub proof fn lemma_sweep_sums_divergences(
    states: Seq<Seq<int>>,
    steps: Seq<[usize; 2]>,
    times: Seq<int>,
)
    requires
        history(states, steps),
        states[0].len() >= 1,
        class_count(states.last()) <= 1,
    ensures
        divergence_total(states, times, states[0].len() as int, states[0].len() as int) == 2
            * swept_divergence(states, steps, times, steps.len() as int),
{
    let n = states[0].len() as int;
    let bound = states.len() as int + 1;
    lemma_grouped(states, times, bound, n, n);
    lemma_none_meets_later(states, steps, n);
    let w = 2 * elapsed(times, bound - 1);
    assert(w * 0 == 0) by (nonlinear_arith);
    lemma_grouped_swept(states, steps, times, steps.len() as int);
}

} // verus!
