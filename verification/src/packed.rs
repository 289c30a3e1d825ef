//! Dense storage with small reusable handles.
//!
//! A [`PackedVec`] keeps its elements in a gap-free sequence. A handle names a
//! slot of that sequence, so that removing an element moves the last element
//! into the freed slot, and the caller learns which handle changed.

use vstd::prelude::*;
use crate::error::IndexError;

verus! {

/// Largest number of elements one arena can hold.
pub const MAX_LEN: usize = 65535;

/// Handle of one element of an arena. The stored number is never zero: it is
/// the element's slot plus one.
#[derive(Debug, Clone, Copy, PartialEq, Eq, Structural)]
pub struct PackedId {
    pub(crate) raw: u16,
}

impl PackedId {
    #[verifier::type_invariant]
    spec fn nonzero(self) -> bool {
        self.raw >= 1
    }

    /// The slot that this handle names.
    pub open(crate) spec fn index(self) -> int {
        self.raw - 1
    }

    /// The handle of the given slot.
    pub open(crate) spec fn at(slot: int) -> PackedId {
        PackedId { raw: (slot + 1) as u16 }
    }

    /// The handle of a slot names that slot.
    pub proof fn at_names(slot: int)
        requires
            0 <= slot < MAX_LEN,
        ensures
            Self::at(slot).index() == slot,
    {
    }

    /// Two handles are the same handle exactly when they name the same slot.
    pub proof fn index_determines(a: PackedId, b: PackedId)
        ensures
            (a.index() == b.index()) <==> a == b,
    {
    }

    /// Handle of the first slot.
    pub fn first() -> (id: PackedId)
        ensures
            id.index() == 0,
    {
        PackedId { raw: 1 }
    }

    /// Handle of slot `value`, if so large a slot can be named.
    pub fn try_from(value: usize) -> (res: Result<PackedId, IndexError>)
        ensures
            value < MAX_LEN ==> res is Ok && res->Ok_0.index() == value,
            value >= MAX_LEN ==> res == Err::<PackedId, IndexError>(IndexError::Exhausted),
    {
        if value >= MAX_LEN {
            return Err(IndexError::Exhausted);
        }
        let raw: u16 = (value + 1) as u16;
        Ok(PackedId { raw })
    }

    /// Slot named by the handle.
    pub fn to_index(self) -> (slot: usize)
        ensures
            slot == self.index(),
            slot < MAX_LEN,
    {
        proof {
            use_type_invariant(&self);
        }
        (self.raw - 1) as usize
    }
}

/// What a removal followed by a push makes of the handles: the handle of
/// the removed element names the element that stood last, the handle of that
/// element names the new one, and every other handle names what it named
/// before. So whoever held the handle of the element that stood last has to
/// follow the move that the removal reports.
pub proof fn removal_then_push<T>(before: Seq<T>, slot: int, item: T)
    requires
        0 <= slot < before.len(),
    ensures
        ({
            let after = before.update(slot, before.last()).drop_last().push(item);
            &&& after.len() == before.len()
            &&& after[before.len() - 1] == item
            &&& slot < before.len() - 1 ==> after[slot] == before.last()
            &&& forall|other: int|
                0 <= other < before.len() - 1 && other != slot ==> after[other] == before[other]
        }),
{
}

/// What one removal moved: the element that stood last now stands in the
/// freed slot.
#[derive(Debug, Clone, Copy, PartialEq, Eq, Structural)]
pub struct Swap {
    /// Handle under which the moved element was known before the removal.
    pub old: PackedId,
    /// Handle under which it is known from now on.
    pub new: PackedId,
}

/// Result of a removal: the element taken out, and the move it caused, if any.
pub struct Removed<T> {
    pub item: T,
    pub swap: Option<Swap>,
}

/// Gap-free storage addressed by [`PackedId`].
pub struct PackedVec<T> {
    items: Vec<T>,
}

impl<T> View for PackedVec<T> {
    type V = Seq<T>;

    closed spec fn view(&self) -> Seq<T> {
        self.items@
    }
}

impl<T> PackedVec<T> {
    /// The arena holds no more elements than there are handles.
    pub open spec fn wf(self) -> bool {
        self@.len() <= MAX_LEN
    }

    /// Whether `id` names an occupied slot.
    pub open spec fn contains(self, id: PackedId) -> bool {
        0 <= id.index() < self@.len()
    }

    /// An arena without elements.
    pub fn new() -> (arena: PackedVec<T>)
        ensures
            arena@ == Seq::<T>::empty(),
            arena.wf(),
    {
        PackedVec { items: Vec::new() }
    }

    /// Number of elements held, which never exceeds [`MAX_LEN`].
    pub fn len(&self) -> (len: usize)
        ensures
            len == self@.len(),
    {
        self.items.len()
    }

    /// The handle that the next successful `push` returns, unless the arena
    /// is full.
    pub fn next_id(&self) -> (next: Option<PackedId>)
        ensures
            self@.len() < MAX_LEN ==> next is Some && next->Some_0.index() == self@.len(),
            self@.len() >= MAX_LEN ==> next is None,
    {
        match PackedId::try_from(self.items.len()) {
            Ok(id) => Some(id),
            Err(_) => None,
        }
    }

    /// The element that `id` names, or nothing for a handle that names no
    /// occupied slot.
    pub fn get(&self, id: PackedId) -> (item: Option<&T>)
        ensures
            self.contains(id) ==> item is Some && *item->Some_0 == self@[id.index()],
            !self.contains(id) ==> item is None,
    {
        let slot = id.to_index();
        if slot < self.items.len() {
            Some(&self.items[slot])
        } else {
            None
        }
    }

    /// The element that `id` names, for changing in place, or nothing for a
    /// handle that names no occupied slot. No other element changes.
    pub fn get_mut(&mut self, id: PackedId) -> (item: Option<&mut T>)
        ensures
            old(self).contains(id) ==> {
                &&& item is Some
                &&& *item->Some_0 == old(self)@[id.index()]
                &&& final(self)@ == old(self)@.update(id.index(), *final(item->Some_0))
            },
            !old(self).contains(id) ==> item is None && final(self)@ == old(self)@,
    {
        let slot = id.to_index();
        if slot < self.items.len() {
            Some(&mut self.items[slot])
        } else {
            None
        }
    }

    /// Appends an element and returns its handle. Fails, leaving the arena as
    /// it was, when no further handle exists.
    pub fn push(&mut self, item: T) -> (res: Result<PackedId, IndexError>)
        ensures
            old(self)@.len() < MAX_LEN ==> {
                &&& res is Ok
                &&& res->Ok_0.index() == old(self)@.len()
                &&& final(self)@ == old(self)@.push(item)
            },
            old(self)@.len() >= MAX_LEN ==> {
                &&& res == Err::<PackedId, IndexError>(IndexError::Exhausted)
                &&& final(self)@ == old(self)@
            },
    {
        match PackedId::try_from(self.items.len()) {
            Ok(id) => {
                self.items.push(item);
                Ok(id)
            },
            Err(e) => Err(e),
        }
    }

    /// Takes out the element that `id` names. The element that stood last
    /// moves into the freed slot; where that is another element, the result
    /// names its handle before and after.
    pub fn remove(&mut self, id: PackedId) -> (removed: Removed<T>)
        requires
            old(self).wf(),
            old(self).contains(id),
        ensures
            removed.item == old(self)@[id.index()],
            final(self)@ == old(self)@.update(id.index(), old(self)@.last()).drop_last(),
            id.index() == old(self)@.len() - 1 ==> removed.swap is None,
            id.index() != old(self)@.len() - 1 ==> {
                &&& removed.swap is Some
                &&& removed.swap->Some_0.old.index() == old(self)@.len() - 1
                &&& removed.swap->Some_0.new == id
            },
    {
        let slot = id.to_index();
        let item = self.items.swap_remove(slot);
        let last = self.items.len();
        let swap = if last == slot {
            None
        } else {
            match PackedId::try_from(last) {
                Ok(old) => Some(Swap { old, new: id }),
                Err(_) => None,
            }
        };
        Removed { item, swap }
    }
}

} // verus!
