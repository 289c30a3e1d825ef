//! Branches of the index: two children and the way back up.

use vstd::prelude::*;
use crate::packed::PackedId;
use crate::path::Half;

verus! {

/// What hangs below a branch: another branch, or a leaf. The handle belongs
/// to the arena of the named kind.
#[derive(Debug, Clone, Copy, PartialEq, Eq, Structural)]
pub enum Child {
    Node(PackedId),
    Bucket(PackedId),
}

/// A branch. Its first child covers the half of lower coordinates of its
/// cell, its second child the other half.
#[derive(Debug, Clone, Copy)]
pub struct Node {
    parent: Option<PackedId>,
    top_left: Child,
    bottom_right: Child,
}

impl Node {
    /// The branch above this one, as a specification; none above the root.
    pub closed spec fn parent_id(self) -> Option<PackedId> {
        self.parent
    }

    /// The child that covers the given half, as a specification.
    pub closed spec fn child(self, half: Half) -> Child {
        match half {
            Half::TopLeft => self.top_left,
            Half::BottomRight => self.bottom_right,
        }
    }

    /// What `replace_child` makes of this branch.
    pub open spec fn with_replaced(self, from: Child, to: Child, after: Node) -> bool {
        &&& after.parent_id() == self.parent_id()
        &&& after.child(Half::TopLeft) == if self.child(Half::TopLeft) == from {
            to
        } else {
            self.child(Half::TopLeft)
        }
        &&& after.child(Half::BottomRight) == if self.child(Half::TopLeft) != from && self.child(
            Half::BottomRight,
        ) == from {
            to
        } else {
            self.child(Half::BottomRight)
        }
    }

    /// A branch over two leaves.
    pub fn from_buckets(
        parent: Option<PackedId>,
        top_left: PackedId,
        bottom_right: PackedId,
    ) -> (node: Node)
        ensures
            node.parent_id() == parent,
            node.child(Half::TopLeft) == Child::Bucket(top_left),
            node.child(Half::BottomRight) == Child::Bucket(bottom_right),
    {
        Node {
            parent,
            top_left: Child::Bucket(top_left),
            bottom_right: Child::Bucket(bottom_right),
        }
    }

    /// The branch above this one; none above the root.
    pub fn parent(&self) -> (parent: Option<PackedId>)
        ensures
            parent == self.parent_id(),
    {
        self.parent
    }

    /// Puts `to` in the place of the first child that equals `from`; changes
    /// nothing if neither does.
    pub fn replace_child(&mut self, from: Child, to: Child)
        ensures
            old(self).with_replaced(from, to, *final(self)),
    {
        if self.top_left == from {
            self.top_left = to;
        } else if self.bottom_right == from {
            self.bottom_right = to;
        }
    }

    /// Puts `to` in the place of the child that covers the given half,
    /// whatever that child is.
    pub fn set_child(&mut self, half: Half, to: Child)
        ensures
            final(self).parent_id() == old(self).parent_id(),
            final(self).child(half) == to,
            forall|other: Half| other != half ==> final(self).child(other) == old(self).child(other),
    {
        match half {
            Half::TopLeft => {
                self.top_left = to;
            },
            Half::BottomRight => {
                self.bottom_right = to;
            },
        }
    }

    /// The half that `child` covers: the lower one if the first child equals
    /// `child`, else the higher one.
    pub fn half_of(&self, child: Child) -> (half: Half)
        ensures
            half == if self.child(Half::TopLeft) == child {
                Half::TopLeft
            } else {
                Half::BottomRight
            },
    {
        if self.top_left == child {
            Half::TopLeft
        } else {
            Half::BottomRight
        }
    }

    /// The child that covers the given half.
    pub fn get_child(&self, half: Half) -> (child: Child)
        ensures
            child == self.child(half),
    {
        match half {
            Half::TopLeft => self.top_left,
            Half::BottomRight => self.bottom_right,
        }
    }
}

} // verus!
