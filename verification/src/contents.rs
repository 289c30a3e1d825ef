//! What a sequence of leaves holds, taken together.

use vstd::prelude::*;
use vstd::multiset::Multiset;
use crate::bucket::{Bucket, Item};

verus! {

/// All the items of the given leaves together.
pub open spec fn total(buckets: Seq<Bucket>) -> Multiset<Item>
    decreases buckets.len(),
{
    if buckets.len() == 0 {
        Multiset::empty()
    } else {
        total(buckets.drop_last()).add(buckets.last()@.to_multiset())
    }
}

/// One more leaf adds its items.
pub proof fn total_push(buckets: Seq<Bucket>, bucket: Bucket)
    ensures
        total(buckets.push(bucket)) == total(buckets).add(bucket@.to_multiset()),
{
    assert(buckets.push(bucket).drop_last() =~= buckets);
}

/// Replacing a leaf exchanges its items for those of the new one.
pub proof fn total_update(buckets: Seq<Bucket>, i: int, bucket: Bucket)
    requires
        0 <= i < buckets.len(),
    ensures
        total(buckets.update(i, bucket)).add(buckets[i]@.to_multiset()) == total(buckets).add(
            bucket@.to_multiset(),
        ),
    decreases buckets.len(),
{
    let after = buckets.update(i, bucket);
    if i == buckets.len() - 1 {
        assert(after.drop_last() =~= buckets.drop_last());
        assert(total(after).add(buckets[i]@.to_multiset()) =~= total(buckets).add(
            bucket@.to_multiset(),
        ));
    } else {
        total_update(buckets.drop_last(), i, bucket);
        assert(after.drop_last() =~= buckets.drop_last().update(i, bucket));
        assert(after.last() == buckets.last());
        assert(total(after).add(buckets[i]@.to_multiset()) =~= total(
            buckets.drop_last().update(i, bucket),
        ).add(buckets[i]@.to_multiset()).add(buckets.last()@.to_multiset()));
        assert(total(after).add(buckets[i]@.to_multiset()) =~= total(buckets).add(
            bucket@.to_multiset(),
        ));
    }
}

/// Taking a leaf out, with the last leaf moving into its place, takes away
/// its items and no others.
pub proof fn total_swap_remove(buckets: Seq<Bucket>, i: int)
    requires
        0 <= i < buckets.len(),
    ensures
        total(buckets.update(i, buckets.last()).drop_last()).add(buckets[i]@.to_multiset())
            == total(buckets),
{
    if i == buckets.len() - 1 {
        assert(buckets.update(i, buckets.last()).drop_last() =~= buckets.drop_last());
    } else {
        total_update(buckets.drop_last(), i, buckets.last());
        assert(buckets.update(i, buckets.last()).drop_last() =~= buckets.drop_last().update(
            i,
            buckets.last(),
        ));
    }
}

/// An item that no leaf holds is not held at all.
pub proof fn total_count_none(buckets: Seq<Bucket>, item: Item)
    requires
        forall|j: int| 0 <= j < buckets.len() ==> (#[trigger] buckets[j])@.to_multiset().count(item)
            == 0,
    ensures
        total(buckets).count(item) == 0,
    decreases buckets.len(),
{
    if buckets.len() > 0 {
        let front = buckets.drop_last();
        assert forall|j: int| 0 <= j < front.len() implies (#[trigger] front[j])@.to_multiset().count(
            item,
        ) == 0 by {
            assert(front[j] == buckets[j]);
        }
        total_count_none(front, item);
    }
}

/// An item that only one leaf holds is held as often as that leaf holds it.
pub proof fn total_count_single(buckets: Seq<Bucket>, i: int, item: Item)
    requires
        0 <= i < buckets.len(),
        forall|j: int|
            0 <= j < buckets.len() && j != i ==> (#[trigger] buckets[j])@.to_multiset().count(item)
                == 0,
    ensures
        total(buckets).count(item) == buckets[i]@.to_multiset().count(item),
    decreases buckets.len(),
{
    let front = buckets.drop_last();
    if i == buckets.len() - 1 {
        assert forall|j: int| 0 <= j < front.len() implies (#[trigger] front[j])@.to_multiset().count(
            item,
        ) == 0 by {
            assert(front[j] == buckets[j]);
        }
        total_count_none(front, item);
    } else {
        assert forall|j: int| 0 <= j < front.len() && j != i implies (#[trigger] front[j])@.to_multiset().count(
        item) == 0 by {
            assert(front[j] == buckets[j]);
        }
        total_count_single(front, i, item);
        assert(buckets.last() == buckets[buckets.len() - 1]);
    }
}

} // verus!
