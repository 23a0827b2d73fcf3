//! Refinement: re-testing the candidates of an earlier scan and removing
//! those that no longer pass.
//!
//! Removal is in two phases. First every candidate is judged and the indices
//! of the failing ones are collected; judging may run in parallel and may
//! collect the indices in any order. Then the indices are sorted once and
//! removed from the highest down, so that no removal moves an element whose
//! index is still to be used.

use crate::access::AccessError;
use crate::value_test::ValueTest;
use rayon::slice::ParallelSliceMut;
use vstd::prelude::*;

verus! {

/// The elements of `s` among its first `k` whose index is not in `marked`,
/// in their old order.
pub open spec fn kept_below<A>(s: Seq<A>, marked: Set<int>, k: nat) -> Seq<A>
    decreases k,
{
    if k == 0 {
        Seq::empty()
    } else {
        let i = k - 1;
        let rest = kept_below(s, marked, i as nat);
        if marked.contains(i) {
            rest
        } else {
            rest.push(s[i])
        }
    }
}

/// What is left of `s` once the elements at the indices in `marked` are
/// gone: the complement, in the old order.
pub open spec fn kept<A>(s: Seq<A>, marked: Set<int>) -> Seq<A> {
    kept_below(s, marked, s.len())
}

/// Number of indices below `k` that are in `marked`.
pub open spec fn marked_below(marked: Set<int>, k: nat) -> nat
    decreases k,
{
    if k == 0 {
        0
    } else if marked.contains(k - 1) {
        marked_below(marked, (k - 1) as nat) + 1
    } else {
        marked_below(marked, (k - 1) as nat)
    }
}

/// The indices that a list of marks names.
pub open spec fn mark_set(marks: Seq<usize>) -> Set<int> {
    Set::new(|i: int| exists|k: int| 0 <= k < marks.len() && #[trigger] marks[k] == i)
}

proof fn lemma_kept_below_len<A>(s: Seq<A>, marked: Set<int>, k: nat)
    ensures
        kept_below(s, marked, k).len() == k - marked_below(marked, k),
        marked_below(marked, k) <= k,
    decreases k,
{
    if k > 0 {
        lemma_kept_below_len(s, marked, (k - 1) as nat);
    }
}

proof fn lemma_kept_below_unmarked<A>(s: Seq<A>, marked: Set<int>, from: nat, to: nat)
    requires
        from <= to <= s.len(),
        forall|i: int| from <= i < to ==> !marked.contains(i),
    ensures
        kept_below(s, marked, to) == kept_below(s, marked, from) + s.subrange(
            from as int,
            to as int,
        ),
    decreases to,
{
    if to > from {
        lemma_kept_below_unmarked(s, marked, from, (to - 1) as nat);
    }
}

/// Sorts indices ascending by `rayon::slice::ParallelSliceMut::par_sort`,
/// rayon's stable parallel merge sort. Trusted: the vector holds the same
/// indices afterwards, each as often as before, and none is greater than
/// one that follows it.
#[verifier::external_body]
fn sort_ascending(indices: &mut Vec<usize>)
    ensures
        final(indices)@.to_multiset() == old(indices)@.to_multiset(),
        forall|i: int, j: int|
            0 <= i <= j < final(indices)@.len() ==> final(indices)@[i] <= final(indices)@[j],
{
    indices.par_sort();
}

proof fn lemma_same_marks(marks: Seq<usize>, sorted: Seq<usize>)
    requires
        sorted.to_multiset() == marks.to_multiset(),
    ensures
        mark_set(sorted) == mark_set(marks),
{
    broadcast use vstd::seq_lib::group_to_multiset_ensures;

    assert forall|i: int| mark_set(marks).contains(i) <==> mark_set(sorted).contains(i) by {
        if mark_set(marks).contains(i) {
            let k = choose|k: int| 0 <= k < marks.len() && #[trigger] marks[k] == i;
            assert(sorted.to_multiset().count(marks[k]) > 0);
        }
        if mark_set(sorted).contains(i) {
            let k = choose|k: int| 0 <= k < sorted.len() && #[trigger] sorted[k] == i;
            assert(marks.to_multiset().count(sorted[k]) > 0);
        }
    }
    assert(mark_set(sorted) =~= mark_set(marks));
}

/// Removes the marked indices from a candidate set.
///
/// `marks` may come in any order, as parallel evaluation collects them. They
/// are sorted once and then removed from the highest index down, so that no
/// removal shifts an element that is still to be removed. A mark that is
/// repeated or lies past the end removes nothing further.
pub fn remove_marked(candidates: &mut Vec<usize>, marks: Vec<usize>)
    ensures
        final(candidates)@ == kept(old(candidates)@, mark_set(marks@)),
{
    let mut sorted = marks;
    sort_ascending(&mut sorted);
    let ghost before = old(candidates)@;
    let ghost marked = mark_set(marks@);
    // The candidates below `bound` are untouched; `tail` is what is left of
    // those from `bound` on.
    let ghost mut tail: Seq<usize> = Seq::empty();
    let mut bound: usize = candidates.len();
    let mut j: usize = sorted.len();
    proof {
        lemma_same_marks(marks@, sorted@);
    }
    while j > 0
        invariant
            j <= sorted@.len(),
            bound <= before.len(),
            marked == mark_set(sorted@),
            forall|a: int, b: int| 0 <= a <= b < sorted@.len() ==> sorted@[a] <= sorted@[b],
            forall|k: int| j <= k < sorted@.len() ==> sorted@[k] >= bound,
            candidates@ == before.subrange(0, bound as int) + tail,
            kept(before, marked) == kept_below(before, marked, bound as nat) + tail,
        decreases j,
    {
        j -= 1;
        let index: usize = sorted[j];
        if index < bound {
            proof {
                // No mark lies between `index` and `bound`: the marks behind
                // position `j` are at or past `bound`, those before it at or
                // below `index`.
                assert forall|i: int| index < i < bound implies !marked.contains(i) by {
                    if marked.contains(i) {
                        let k = choose|k: int| 0 <= k < sorted@.len() && #[trigger] sorted@[k] == i;
                        assert(k < j ==> sorted@[k] <= sorted@[j as int]);
                    }
                }
                lemma_kept_below_unmarked(before, marked, (index + 1) as nat, bound as nat);
                tail = before.subrange(index + 1, bound as int) + tail;
            }
            candidates.remove(index);
            bound = index;
        }
    }
    proof {
        assert forall|i: int| 0 <= i < bound implies !marked.contains(i) by {
            if marked.contains(i) {
                let k = choose|k: int| 0 <= k < sorted@.len() && #[trigger] sorted@[k] == i;
                assert(sorted@[k] >= bound);
            }
        }
        lemma_kept_below_unmarked(before, marked, 0, bound as nat);
    }
}

/// Whether a candidate survives what was observed of it: its value was
/// read whole and the test accepts it.
pub open spec fn survives<V: ValueTest>(test: &V, observation: Result<Vec<u8>, AccessError>) -> bool {
    &&& observation matches Ok(bytes)
    &&& bytes@.len() == test.width()
    &&& test.accepts(bytes@)
}

/// Whether the candidate at index `i` stays. A candidate without an
/// observation does not.
pub open spec fn passes<V: ValueTest>(
    test: &V,
    observations: Seq<Result<Vec<u8>, AccessError>>,
    i: int,
) -> bool {
    0 <= i < observations.len() && survives(test, observations[i])
}

/// Judges one candidate by the outcome of re-reading its value: it stays
/// only if the read went through and the test accepts what was read.
pub fn judge<V: ValueTest>(observation: &Result<Vec<u8>, AccessError>, test: &V) -> (stays: bool)
    requires
        test.wf(),
    ensures
        stays == survives(test, *observation),
{
    match observation {
        Ok(bytes) => bytes.len() == test.size() && test.check(bytes.as_slice()),
        Err(_) => false,
    }
}

/// The indices among the first `n` whose candidate does not pass.
pub open spec fn failing<V: ValueTest>(
    test: &V,
    observations: Seq<Result<Vec<u8>, AccessError>>,
    n: nat,
) -> Set<int> {
    Set::new(|i: int| 0 <= i < n && !passes(test, observations, i))
}

/// The indices among the first `k` whose candidate does not pass, ascending.
pub open spec fn failing_below<V: ValueTest>(
    test: &V,
    observations: Seq<Result<Vec<u8>, AccessError>>,
    k: nat,
) -> Seq<usize>
    decreases k,
{
    if k == 0 {
        Seq::empty()
    } else {
        let i = k - 1;
        let rest = failing_below(test, observations, i as nat);
        if passes(test, observations, i) {
            rest
        } else {
            rest.push(i as usize)
        }
    }
}

proof fn lemma_failing_below<V: ValueTest>(
    test: &V,
    observations: Seq<Result<Vec<u8>, AccessError>>,
    k: nat,
)
    requires
        k <= usize::MAX,
    ensures
        mark_set(failing_below(test, observations, k)) == failing(test, observations, k),
    decreases k,
{
    let marks = failing_below(test, observations, k);
    if k > 0 {
        let i = (k - 1) as nat;
        let rest = failing_below(test, observations, i);
        lemma_failing_below(test, observations, i);
        assert forall|x: int| mark_set(marks).contains(x) <==> failing(
            test,
            observations,
            k,
        ).contains(x) by {
            if mark_set(marks).contains(x) {
                let at = choose|at: int| 0 <= at < marks.len() && #[trigger] marks[at] == x;
                assert(at < rest.len() ==> mark_set(rest).contains(x));
            }
            if failing(test, observations, k).contains(x) {
                if x < i {
                    assert(mark_set(rest).contains(x));
                    let at = choose|at: int| 0 <= at < rest.len() && #[trigger] rest[at] == x;
                    assert(marks[at] == x);
                } else {
                    assert(marks[rest.len() as int] == x);
                }
            }
        }
    }
}

/// Marks the candidates to remove: the index of each of the first `count`
/// candidates whose observation failed or whose value the test rejects.
pub fn mark<V: ValueTest>(
    count: usize,
    observations: &Vec<Result<Vec<u8>, AccessError>>,
    test: &V,
) -> (marks: Vec<usize>)
    requires
        test.wf(),
    ensures
        marks@ == failing_below(test, observations@, count as nat),
        mark_set(marks@) == failing(test, observations@, count as nat),
{
    let mut marks: Vec<usize> = Vec::new();
    let mut i: usize = 0;
    while i < count
        invariant
            test.wf(),
            i <= count,
            marks@ == failing_below(test, observations@, i as nat),
        decreases count - i,
    {
        let stays = i < observations.len() && judge(&observations[i], test);
        if !stays {
            marks.push(i);
        }
        i += 1;
    }
    proof {
        lemma_failing_below(test, observations@, count as nat);
    }
    marks
}

/// Narrows a candidate set to the candidates that still pass.
///
/// `observations[i]` is the outcome of re-reading the value at
/// `candidates[i]`. A candidate is removed when its read failed or the test
/// rejects what was read; the others stay, in their old order.
pub fn refine<V: ValueTest>(
    candidates: &mut Vec<usize>,
    observations: &Vec<Result<Vec<u8>, AccessError>>,
    test: &V,
)
    requires
        test.wf(),
    ensures
        final(candidates)@ == kept(
            old(candidates)@,
            failing(test, observations@, old(candidates)@.len()),
        ),
{
    let marks = mark(candidates.len(), observations, test);
    remove_marked(candidates, marks);
}

/// Where the element at the unmarked index `i` stands after the removal:
/// `i` less the number of marked indices below it.
pub open spec fn new_index(marked: Set<int>, i: int) -> int {
    i - marked_below(marked, i as nat)
}

/// Whether position `j` of `kept_below(s, marked, k)` holds an element of
/// `s` that stood at an unmarked index below `k`.
pub open spec fn has_origin<A>(s: Seq<A>, marked: Set<int>, k: nat, j: int) -> bool {
    exists|i: int|
        0 <= i < k && !marked.contains(i) && #[trigger] new_index(marked, i) == j && kept_below(
            s,
            marked,
            k,
        )[j] == s[i]
}

proof fn lemma_kept_below_positions<A>(s: Seq<A>, marked: Set<int>, k: nat)
    requires
        k <= s.len(),
    ensures
        kept_below(s, marked, k).len() == k - marked_below(marked, k),
        forall|i: int|
            0 <= i < k && !marked.contains(i) ==> 0 <= #[trigger] new_index(marked, i)
                < kept_below(s, marked, k).len() && kept_below(s, marked, k)[new_index(marked, i)]
                == s[i],
        forall|j: int|
            0 <= j < kept_below(s, marked, k).len() ==> #[trigger] has_origin(s, marked, k, j),
    decreases k,
{
    lemma_kept_below_len(s, marked, k);
    if k > 0 {
        let last = (k - 1) as nat;
        let rest = kept_below(s, marked, last);
        let all = kept_below(s, marked, k);
        lemma_kept_below_positions(s, marked, last);
        lemma_kept_below_len(s, marked, last);
        assert forall|j: int| 0 <= j < all.len() implies #[trigger] has_origin(s, marked, k, j) by {
            if j < rest.len() {
                assert(has_origin(s, marked, last, j));
            } else {
                assert(new_index(marked, last as int) == j && all[j] == s[last as int]);
            }
        }
    }
}

/// Removal leaves exactly the complement: of `N` elements, those at
/// unmarked indices stay, each moved down by the number of marked indices
/// below it, and nothing else is left.
pub proof fn lemma_kept_is_complement<A>(s: Seq<A>, marked: Set<int>)
    ensures
        kept(s, marked).len() == s.len() - marked_below(marked, s.len()),
        forall|i: int|
            0 <= i < s.len() && !marked.contains(i) ==> 0 <= #[trigger] new_index(marked, i)
                < kept(s, marked).len() && kept(s, marked)[new_index(marked, i)] == s[i],
        forall|j: int|
            0 <= j < kept(s, marked).len() ==> #[trigger] has_origin(s, marked, s.len(), j),
{
    lemma_kept_below_positions(s, marked, s.len());
}

/// What re-reading the candidates yields in a target in which the read of
/// address `a` gives `target(a)`.
pub open spec fn observed(
    target: spec_fn(usize) -> Result<Vec<u8>, AccessError>,
    candidates: Seq<usize>,
) -> Seq<Result<Vec<u8>, AccessError>> {
    Seq::new(candidates.len(), |i: int| target(candidates[i]))
}

/// The candidates that a refinement against `target` leaves.
pub open spec fn refined<V: ValueTest>(
    test: &V,
    target: spec_fn(usize) -> Result<Vec<u8>, AccessError>,
    candidates: Seq<usize>,
) -> Seq<usize> {
    kept(candidates, failing(test, observed(target, candidates), candidates.len()))
}

/// Refinement is idempotent under an unchanged target: refining a second
/// time with the same test, against a target that still answers every read
/// as before, leaves the candidate set as the first refinement left it.
pub proof fn lemma_refine_idempotent<V: ValueTest>(
    test: &V,
    target: spec_fn(usize) -> Result<Vec<u8>, AccessError>,
    candidates: Seq<usize>,
)
    ensures
        refined(test, target, refined(test, target, candidates)) == refined(
            test,
            target,
            candidates,
        ),
{
    let seen = observed(target, candidates);
    let failed = failing(test, seen, candidates.len());
    let survivors = kept(candidates, failed);
    let seen_again = observed(target, survivors);
    let failed_again = failing(test, seen_again, survivors.len());
    lemma_kept_is_complement(candidates, failed);
    // Every survivor passed when first seen, and is seen again as it was.
    assert forall|j: int| 0 <= j < survivors.len() implies !failed_again.contains(j) by {
        assert(has_origin(candidates, failed, candidates.len(), j));
    }
    lemma_kept_below_unmarked(survivors, failed_again, 0, survivors.len());
}

} // verus!
