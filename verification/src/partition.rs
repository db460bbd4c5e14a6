//! Set-partitions of `{0, .., n - 1}`, kept in a `partitions::PartitionVec`.
//!
//! A partition is modelled by the sequence that gives, for each element, the
//! least element of the set it belongs to.

use vstd::prelude::*;
use partitions::PartitionVec;

verus! {

/// The partition type that the process evolves: no payload, only the sets.
pub type Partition = PartitionVec<()>;

/// `partitions::PartitionVec`, taken as it is: nothing of its fields is
/// known here, only what the functions below say of its sets.
#[verifier::external_type_specification]
#[verifier::external_body]
#[verifier::reject_recursive_types(T)]
pub struct ExPartitionVec<T>(PartitionVec<T>);

/// What a partition holds: at position `i`, the least element of the set
/// that `i` belongs to.
pub uninterp spec fn classes(p: PartitionVec<()>) -> Seq<int>;

/// `c` assigns to each of its positions the least position of a class:
/// a label is never above the element and is its own label.
pub open spec fn canonical(c: Seq<int>) -> bool {
    forall|i: int| 0 <= i < c.len() ==> 0 <= #[trigger] c[i] <= i && c[c[i]] == c[i]
}

/// `c` describes a partition of exactly `n` elements.
pub open spec fn partitions_range(c: Seq<int>, n: int) -> bool {
    c.len() == n && canonical(c)
}

/// The partition of `n` elements into singletons.
pub open spec fn singletons(n: nat) -> Seq<int> {
    Seq::new(n, |i: int| i)
}

/// Number of classes whose least element is below `k`.
pub open spec fn roots_below(c: Seq<int>, k: int) -> nat
    decreases k,
{
    if k <= 0 {
        0
    } else {
        roots_below(c, k - 1) + if c[k - 1] == k - 1 { 1nat } else { 0nat }
    }
}

/// Number of classes of `c`.
pub open spec fn class_count(c: Seq<int>) -> nat {
    roots_below(c, c.len() as int)
}

/// Number of elements below `k` that carry the label `r`.
pub open spec fn members_below(c: Seq<int>, r: int, k: int) -> nat
    decreases k,
{
    if k <= 0 {
        0
    } else {
        members_below(c, r, k - 1) + if c[k - 1] == r { 1nat } else { 0nat }
    }
}

/// Size of the class that element `a` belongs to.
pub open spec fn class_size(c: Seq<int>, a: int) -> nat {
    members_below(c, c[a], c.len() as int)
}

/// The partition `c` after the classes of `a` and `b` became one.
pub open spec fn merged(c: Seq<int>, a: int, b: int) -> Seq<int> {
    Seq::new(
        c.len(),
        |i: int|
            if c[i] == c[a] || c[i] == c[b] {
                if c[a] <= c[b] { c[a] } else { c[b] }
            } else {
                c[i]
            },
    )
}

/// The two elements of `pair` lie in `c` and in different classes of it.
pub open spec fn separates(c: Seq<int>, pair: [usize; 2]) -> bool {
    &&& pair[0] < c.len()
    &&& pair[1] < c.len()
    &&& c[pair[0] as int] != c[pair[1] as int]
}

/// `after` is `before` with the sets of the two elements of `pair`, which
/// were different sets, merged.
pub open spec fn follows(before: Seq<int>, pair: [usize; 2], after: Seq<int>) -> bool {
    &&& separates(before, pair)
    &&& after == merged(before, pair[0] as int, pair[1] as int)
}

/// The greater of the two labels that a merge of `a` and `b` brings together:
/// the one that stops being the least element of a class.
pub open spec fn absorbed(c: Seq<int>, a: int, b: int) -> int {
    if c[a] <= c[b] { c[b] } else { c[a] }
}

proof fn lemma_singleton_roots(n: nat, k: int)
    requires
        0 <= k <= n,
    ensures
        roots_below(singletons(n), k) == k,
    decreases k,
{
    if k > 0 {
        lemma_singleton_roots(n, k - 1);
    }
}

/// The partition into singletons is canonical and has as many classes as
/// elements.
pub proof fn lemma_singletons(n: nat)
    ensures
        canonical(singletons(n)),
        class_count(singletons(n)) == n,
{
    lemma_singleton_roots(n, n as int);
}

/// A canonical partition of at least one element has at least one class:
/// that of its least element.
pub proof fn lemma_some_class(c: Seq<int>, k: int)
    requires
        canonical(c),
        1 <= k <= c.len(),
    ensures
        roots_below(c, k) >= 1,
    decreases k,
{
    if k > 1 {
        lemma_some_class(c, k - 1);
    } else {
        assert(c[0] == 0);
        assert(roots_below(c, 0) == 0);
    }
}

proof fn lemma_roots_grow(c: Seq<int>, j: int, k: int)
    requires
        j <= k,
    ensures
        roots_below(c, j) <= roots_below(c, k),
    decreases k - j,
{
    if j < k {
        lemma_roots_grow(c, j, k - 1);
    }
}

/// In a canonical partition with at most one class every element carries the
/// label zero.
pub proof fn lemma_one_class(c: Seq<int>, a: int)
    requires
        canonical(c),
        class_count(c) <= 1,
        0 <= a < c.len(),
    ensures
        c[a] == 0,
{
    let r = c[a];
    assert(c[r] == r);
    assert(c[0] == 0);
    if r != 0 {
        assert(roots_below(c, 0) == 0);
        assert(roots_below(c, 1) == 1);
        lemma_roots_grow(c, 1, r);
        lemma_roots_grow(c, r + 1, c.len() as int);
    }
}

proof fn lemma_merged_roots(c: Seq<int>, a: int, b: int, k: int)
    requires
        canonical(c),
        0 <= a < c.len(),
        0 <= b < c.len(),
        c[a] != c[b],
        0 <= k <= c.len(),
    ensures
        roots_below(c, k) == roots_below(merged(c, a, b), k) + if absorbed(c, a, b) < k {
            1nat
        } else {
            0nat
        },
    decreases k,
{
    if k > 0 {
        lemma_merged_roots(c, a, b, k - 1);
        let i = k - 1;
        let m = merged(c, a, b);
        assert(c[c[a]] == c[a] && c[c[b]] == c[b]);
        assert(c[c[i]] == c[i]);
        assert((m[i] == i) == (c[i] == i && i != absorbed(c, a, b)));
    }
}

/// A merge keeps the labels canonical. Where the two elements were in
/// different classes it leaves one class fewer; where they shared a class it
/// changes nothing.
pub proof fn lemma_merged(c: Seq<int>, a: int, b: int)
    requires
        canonical(c),
        0 <= a < c.len(),
        0 <= b < c.len(),
    ensures
        canonical(merged(c, a, b)),
        merged(c, a, b).len() == c.len(),
        c[a] != c[b] ==> class_count(merged(c, a, b)) + 1 == class_count(c),
        c[a] == c[b] ==> merged(c, a, b) == c,
{
    let m = merged(c, a, b);
    assert(c[c[a]] == c[a] && c[c[b]] == c[b]);
    assert forall|i: int| 0 <= i < m.len() implies 0 <= #[trigger] m[i] <= i && m[m[i]] == m[i] by {
        assert(c[c[i]] == c[i]);
    }
    if c[a] != c[b] {
        lemma_merged_roots(c, a, b, c.len() as int);
    } else {
        assert(m =~= c);
    }
}

/// `PartitionVec::from_iter` on `n` unit values: every element starts in a
/// set of its own.
#[verifier::external_body]
pub(crate) fn new_singletons(n: usize) -> (p: PartitionVec<()>)
    ensures
        classes(p) == singletons(n as nat),
{
    <PartitionVec<()> as std::iter::FromIterator<()>>::from_iter(std::iter::repeat(()).take(n))
}

/// The slice `len` of a `PartitionVec`: the number of elements. The contents
/// of every partition are canonical labels, by the meaning of `classes`.
#[verifier::external_body]
pub(crate) fn element_count(p: &PartitionVec<()>) -> (n: usize)
    ensures
        partitions_range(classes(*p), n as int),
{
    p.len()
}

/// `PartitionVec::amount_of_sets`: counts the distinct sets.
#[verifier::external_body]
pub(crate) fn amount_of_sets(p: &PartitionVec<()>) -> (k: usize)
    ensures
        k == class_count(classes(*p)),
{
    p.amount_of_sets()
}

/// `PartitionVec::same_set`: whether two elements share a set. Out of
/// bounds it panics.
#[verifier::external_body]
pub(crate) fn same_set(p: &PartitionVec<()>, a: usize, b: usize) -> (r: bool)
    requires
        a < classes(*p).len(),
        b < classes(*p).len(),
    ensures
        r == (classes(*p)[a as int] == classes(*p)[b as int]),
{
    p.same_set(a, b)
}

/// `PartitionVec::len_of_set`: the size of the set of an element. Out of
/// bounds it panics.
#[verifier::external_body]
pub(crate) fn len_of_set(p: &PartitionVec<()>, a: usize) -> (r: usize)
    requires
        a < classes(*p).len(),
    ensures
        r == class_size(classes(*p), a as int),
{
    p.len_of_set(a)
}

/// `PartitionVec::union`: joins the sets of two elements, and changes
/// nothing where they already share one. Out of bounds it panics.
#[verifier::external_body]
pub(crate) fn union(p: &mut PartitionVec<()>, a: usize, b: usize)
    requires
        a < classes(*old(p)).len(),
        b < classes(*old(p)).len(),
    ensures
        classes(*final(p)) == merged(classes(*old(p)), a as int, b as int),
{
    p.union(a, b)
}

/// `PartitionVec::all_sets`, then the first member of its `k`-th set. The
/// sets come in the order of their least elements, so exactly `k` sets have
/// a least element below that of the set handed out; which member comes
/// first is left open.
#[verifier::external_body]
pub(crate) fn member_of_set(p: &PartitionVec<()>, k: usize) -> (r: usize)
    requires
        k < class_count(classes(*p)),
    ensures
        r < classes(*p).len(),
        roots_below(classes(*p), classes(*p)[r as int]) == k,
{
    p.all_sets().nth(k).unwrap().nth(0).unwrap().0
}

/// `Clone` of a `PartitionVec`: the same sets.
#[verifier::external_body]
pub(crate) fn copy_of(p: &PartitionVec<()>) -> (q: PartitionVec<()>)
    ensures
        classes(q) == classes(*p),
{
    p.clone()
}

/// The least element of the set that `a` belongs to, found by asking for
/// each element from the least on whether it shares a set with `a`. `None`
/// exactly where `a` is no element of the partition.
pub fn least_member(p: &PartitionVec<()>, a: usize) -> (least: Option<usize>)
    ensures
        least.is_some() <==> a < classes(*p).len(),
        least.is_some() ==> least.unwrap() == classes(*p)[a as int],
{
    let n: usize = element_count(p);
    if a >= n {
        return None;
    }
    let mut candidate: usize = 0;
    while !same_set(p, a, candidate)
        invariant
            candidate <= a < n,
            partitions_range(classes(*p), n as int),
            forall|k: int| 0 <= k < candidate ==> classes(*p)[k] != classes(*p)[a as int],
        decreases a - candidate,
    {
        candidate += 1;
    }
    proof {
        let c = classes(*p);
        assert(c[c[a as int]] == c[a as int]);
        assert(c[candidate as int] <= candidate);
    }
    Some(candidate)
}

} // verus!
