//! Leaves of the index: bounded lists of stored items.

use vstd::prelude::*;
use crate::error::IndexError;
use crate::geometry::Point;
use crate::packed::PackedId;

verus! {

/// Largest number of items in one bucket.
pub const CAPACITY: usize = 16;

/// One stored object: the caller's identifier and the place of the object.
#[derive(Debug, Clone, Copy, PartialEq, Eq, Structural)]
pub struct Item {
    pub entity: u64,
    pub point: Point,
}

/// Whether `i` is the place of the first item of `items` stored under
/// `entity`.
pub open spec fn is_first_of(items: Seq<Item>, entity: u64, i: int) -> bool {
    &&& 0 <= i < items.len()
    &&& items[i].entity == entity
    &&& forall|j: int| 0 <= j < i ==> items[j].entity != entity
}

/// Whether `i` is the place of the first item of `items` that lies at
/// `point`.
pub open spec fn is_first_at(items: Seq<Item>, point: Point, i: int) -> bool {
    &&& 0 <= i < items.len()
    &&& items[i].point == point
    &&& forall|j: int| 0 <= j < i ==> items[j].point != point
}

/// Where an item lies at a point, some item is the first to lie there.
pub proof fn choose_first_at(items: Seq<Item>, point: Point, k: int) -> (first: int)
    requires
        0 <= k < items.len(),
        items[k].point == point,
    ensures
        is_first_at(items, point, first),
    decreases k,
{
    if exists|j: int| 0 <= j < k && items[j].point == point {
        let j = choose|j: int| 0 <= j < k && items[j].point == point;
        choose_first_at(items, point, j)
    } else {
        k
    }
}

/// Where an item is stored under an identifier, some item is the first
/// stored under it.
pub proof fn choose_first_of(items: Seq<Item>, entity: u64, k: int) -> (first: int)
    requires
        0 <= k < items.len(),
        items[k].entity == entity,
    ensures
        is_first_of(items, entity, first),
    decreases k,
{
    if exists|j: int| 0 <= j < k && items[j].entity == entity {
        let j = choose|j: int| 0 <= j < k && items[j].entity == entity;
        choose_first_of(items, entity, j)
    } else {
        k
    }
}

/// A leaf: the items of one cell, in the order of their arrival, and the
/// node above it, if there is one.
pub struct Bucket {
    parent: Option<PackedId>,
    items: Vec<Item>,
}

impl View for Bucket {
    type V = Seq<Item>;

    closed spec fn view(&self) -> Seq<Item> {
        self.items@
    }
}

impl Bucket {
    /// The node above this bucket, as a specification.
    pub closed spec fn parent_id(self) -> Option<PackedId> {
        self.parent
    }

    /// The bucket holds no more than it may.
    pub open spec fn wf(self) -> bool {
        self@.len() <= CAPACITY
    }

    /// An empty bucket below the given node.
    pub fn new(parent: Option<PackedId>) -> (bucket: Bucket)
        ensures
            bucket@ == Seq::<Item>::empty(),
            bucket.parent_id() == parent,
            bucket.wf(),
    {
        Bucket { parent, items: Vec::new() }
    }

    /// The node above this bucket.
    pub fn parent(&self) -> (parent: Option<PackedId>)
        ensures
            parent == self.parent_id(),
    {
        self.parent
    }

    /// Number of items held.
    pub fn len(&self) -> (len: usize)
        ensures
            len == self@.len(),
    {
        self.items.len()
    }

    /// The item at place `i`.
    pub fn item(&self, i: usize) -> (item: Item)
        requires
            i < self@.len(),
        ensures
            item == self@[i as int],
    {
        self.items[i]
    }

    /// Whether the bucket has no room left.
    pub fn is_full(&self) -> (full: bool)
        ensures
            full == (self@.len() >= CAPACITY),
    {
        self.items.len() >= CAPACITY
    }

    /// Appends an item, unless the bucket is full.
    pub fn insert(&mut self, entity: u64, point: Point) -> (res: Result<(), IndexError>)
        ensures
            final(self).parent_id() == old(self).parent_id(),
            old(self)@.len() < CAPACITY ==> res is Ok && final(self)@ == old(self)@.push(
                Item { entity, point },
            ),
            old(self)@.len() >= CAPACITY ==> res == Err::<(), IndexError>(IndexError::BucketFull)
                && final(self)@ == old(self)@,
    {
        if self.items.len() >= CAPACITY {
            return Err(IndexError::BucketFull);
        }
        self.items.push(Item { entity, point });
        Ok(())
    }

    /// Takes out the first item stored under `entity` and closes the gap;
    /// says whether there was one.
    pub fn remove(&mut self, entity: u64) -> (found: bool)
        ensures
            final(self).parent_id() == old(self).parent_id(),
            found == exists|i: int| is_first_of(old(self)@, entity, i),
            found ==> exists|i: int|
                is_first_of(old(self)@, entity, i) && final(self)@ == old(self)@.remove(i),
            !found ==> final(self)@ == old(self)@,
    {
        let mut i: usize = 0;
        while i < self.items.len()
            invariant
                i <= self.items@.len(),
                *self == *old(self),
                forall|j: int| 0 <= j < i ==> self.items@[j].entity != entity,
            decreases self.items@.len() - i,
        {
            if self.items[i].entity == entity {
                assert(is_first_of(old(self)@, entity, i as int));
                self.items.remove(i);
                return true;
            }
            i += 1;
        }
        false
    }

    /// The identifier of the first item that lies at `point`, if any does.
    pub fn find_at(&self, point: Point) -> (found: Option<u64>)
        ensures
            found is Some <==> exists|i: int| is_first_at(self@, point, i),
            found is Some ==> exists|i: int|
                is_first_at(self@, point, i) && self@[i].entity == found->Some_0,
    {
        let mut i: usize = 0;
        while i < self.items.len()
            invariant
                i <= self.items@.len(),
                forall|j: int| 0 <= j < i ==> self.items@[j].point != point,
            decreases self.items@.len() - i,
        {
            if self.items[i].point == point {
                assert(is_first_at(self@, point, i as int));
                return Some(self.items[i].entity);
            }
            i += 1;
        }
        None
    }
}

} // verus!
