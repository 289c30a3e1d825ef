//! How a filtered sequence relates to the sequence it was taken from.
//!
//! A filter keeps the order of what it keeps, so every place of the filtered
//! sequence has a place of origin in the full sequence.

use vstd::prelude::*;

verus! {

/// The place in `s` of the element that stands at place `i` of
/// `s.filter(keep)`.
pub open spec fn origin<A>(s: Seq<A>, keep: spec_fn(A) -> bool, i: int) -> int
    decreases s.len(),
{
    if s.len() == 0 {
        0
    } else if i < s.drop_last().filter(keep).len() {
        origin(s.drop_last(), keep, i)
    } else {
        s.len() - 1
    }
}

/// Filtering twice is filtering once by both tests.
pub proof fn filter_twice<A>(
    s: Seq<A>,
    first: spec_fn(A) -> bool,
    second: spec_fn(A) -> bool,
    both: spec_fn(A) -> bool,
)
    requires
        forall|i: int| 0 <= i < s.len() ==> (first(#[trigger] s[i]) && second(s[i])) == both(s[i]),
    ensures
        s.filter(first).filter(second) == s.filter(both),
    decreases s.len(),
{
    reveal(Seq::filter);
    if s.len() > 0 {
        let front = s.drop_last();
        filter_twice(front, first, second, both);
        assert(s =~= front.push(s.last()));
        front.lemma_filter_push(s.last(), first);
        front.lemma_filter_push(s.last(), both);
        front.filter(first).lemma_filter_push(s.last(), second);
    }
}

/// A test that every element passes keeps the sequence as it is.
pub proof fn filter_all<A>(s: Seq<A>, keep: spec_fn(A) -> bool)
    requires
        forall|i: int| 0 <= i < s.len() ==> keep(#[trigger] s[i]),
    ensures
        s.filter(keep) == s,
    decreases s.len(),
{
    reveal(Seq::filter);
    if s.len() > 0 {
        filter_all(s.drop_last(), keep);
        assert(s.drop_last().push(s.last()) =~= s);
    }
}

/// A test that no element passes keeps nothing.
pub proof fn filter_none<A>(s: Seq<A>, keep: spec_fn(A) -> bool)
    requires
        forall|i: int| 0 <= i < s.len() ==> !keep(#[trigger] s[i]),
    ensures
        s.filter(keep) == Seq::<A>::empty(),
    decreases s.len(),
{
    reveal(Seq::filter);
    if s.len() > 0 {
        filter_none(s.drop_last(), keep);
    }
}

/// A test that some element fails keeps fewer elements than there are.
pub proof fn filter_fewer<A>(s: Seq<A>, keep: spec_fn(A) -> bool, i: int)
    requires
        0 <= i < s.len(),
        !keep(s[i]),
    ensures
        s.filter(keep).len() < s.len(),
    decreases s.len(),
{
    reveal(Seq::filter);
    s.drop_last().lemma_filter_len(keep);
    if i < s.len() - 1 {
        filter_fewer(s.drop_last(), keep, i);
    }
}

/// A longer beginning of a sequence keeps at least as much.
pub proof fn filter_grows<A>(s: Seq<A>, keep: spec_fn(A) -> bool, j: int, k: int)
    requires
        0 <= j <= k <= s.len(),
    ensures
        s.take(j).filter(keep).len() <= s.take(k).filter(keep).len(),
    decreases k - j,
{
    if j < k {
        filter_grows(s, keep, j, k - 1);
        assert(s.take(k) =~= s.take(k - 1).push(s[k - 1]));
        s.take(k - 1).lemma_filter_push(s[k - 1], keep);
    }
}

/// An element that passes the test stands in the filtered sequence behind
/// what the filter keeps of the elements before it.
pub proof fn kept_place<A>(s: Seq<A>, keep: spec_fn(A) -> bool, j: int)
    requires
        0 <= j < s.len(),
        keep(s[j]),
    ensures
        s.take(j).filter(keep).len() < s.filter(keep).len(),
        s.filter(keep)[s.take(j).filter(keep).len() as int] == s[j],
{
    assert(s.take(j + 1) =~= s.take(j).push(s[j]));
    s.take(j).lemma_filter_push(s[j], keep);
    filter_grows(s, keep, j + 1, s.len() as int);
    assert(s.take(s.len() as int) =~= s);
    assert(s =~= s.take(j + 1) + s.skip(j + 1));
    Seq::filter_distributes_over_add(s.take(j + 1), s.skip(j + 1), keep);
}

/// Every place of the filtered sequence has its origin: a place of the full
/// sequence whose element passes the test and is the same, with as many
/// kept elements before it.
pub proof fn origin_found<A>(s: Seq<A>, keep: spec_fn(A) -> bool, i: int)
    requires
        0 <= i < s.filter(keep).len(),
    ensures
        0 <= origin(s, keep, i) < s.len(),
        keep(s[origin(s, keep, i)]),
        s[origin(s, keep, i)] == s.filter(keep)[i],
        s.take(origin(s, keep, i)).filter(keep).len() == i,
    decreases s.len(),
{
    reveal(Seq::filter);
    if s.len() > 0 {
        let front = s.drop_last();
        assert(s =~= front.push(s.last()));
        front.lemma_filter_push(s.last(), keep);
        if i < front.filter(keep).len() {
            origin_found(front, keep, i);
            assert(s.take(origin(front, keep, i)) =~= front.take(origin(front, keep, i)));
        } else {
            assert(s.take(s.len() - 1) =~= front);
        }
    }
}

/// Taking an element out of the full sequence takes it out of the filtered
/// one, if the filter keeps it, and leaves the filtered one as it is, if
/// not.
pub proof fn filter_remove<A>(s: Seq<A>, keep: spec_fn(A) -> bool, k: int)
    requires
        0 <= k < s.len(),
    ensures
        keep(s[k]) ==> s.remove(k).filter(keep) == s.filter(keep).remove(
            s.take(k).filter(keep).len() as int,
        ),
        !keep(s[k]) ==> s.remove(k).filter(keep) == s.filter(keep),
{
    let head = s.take(k);
    let tail = s.skip(k + 1);
    assert(s.remove(k) =~= head + tail);
    assert(s =~= head.push(s[k]) + tail);
    Seq::filter_distributes_over_add(head, tail, keep);
    Seq::filter_distributes_over_add(head.push(s[k]), tail, keep);
    head.lemma_filter_push(s[k], keep);
    if keep(s[k]) {
        assert((head.filter(keep).push(s[k]) + tail.filter(keep)).remove(
            head.filter(keep).len() as int,
        ) =~= head.filter(keep) + tail.filter(keep));
    }
}

/// The first element of the filtered sequence that meets a condition comes
/// from the first element of the full sequence that passes the test and
/// meets the condition.
pub proof fn first_has_first_origin<A>(
    s: Seq<A>,
    keep: spec_fn(A) -> bool,
    wanted: spec_fn(A) -> bool,
    i: int,
)
    requires
        0 <= i < s.filter(keep).len(),
        wanted(s.filter(keep)[i]),
        forall|h: int| 0 <= h < i ==> !wanted(#[trigger] s.filter(keep)[h]),
    ensures
        forall|j: int|
            0 <= j < origin(s, keep, i) ==> !(keep(#[trigger] s[j]) && wanted(s[j])),
{
    origin_found(s, keep, i);
    let k = origin(s, keep, i);
    assert forall|j: int| 0 <= j < k implies !(keep(#[trigger] s[j]) && wanted(s[j])) by {
        if keep(s[j]) && wanted(s[j]) {
            kept_place(s, keep, j);
            filter_grows(s, keep, j + 1, k);
            assert(s.take(j + 1) =~= s.take(j).push(s[j]));
            s.take(j).lemma_filter_push(s[j], keep);
            let h = s.take(j).filter(keep).len() as int;
            assert(h < i);
            assert(!wanted(s.filter(keep)[h]));
        }
    }
}

/// Where no element of the filtered sequence meets a condition, no element
/// of the full sequence passes the test and meets it.
pub proof fn none_has_no_origin<A>(
    s: Seq<A>,
    keep: spec_fn(A) -> bool,
    wanted: spec_fn(A) -> bool,
)
    requires
        forall|h: int| 0 <= h < s.filter(keep).len() ==> !wanted(#[trigger] s.filter(keep)[h]),
    ensures
        forall|j: int| 0 <= j < s.len() ==> !(keep(#[trigger] s[j]) && wanted(s[j])),
{
    assert forall|j: int| 0 <= j < s.len() implies !(keep(#[trigger] s[j]) && wanted(s[j])) by {
        if keep(s[j]) && wanted(s[j]) {
            kept_place(s, keep, j);
            let h = s.take(j).filter(keep).len() as int;
            assert(!wanted(s.filter(keep)[h]));
        }
    }
}

} // verus!
