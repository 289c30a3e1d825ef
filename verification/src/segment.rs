//! Chains of vertices, taken side by side.

use vstd::prelude::*;

verus! {

/// The stretch from one point to another.
#[derive(Debug)]
pub struct LineSegment<P>(pub P, pub P);

/// Walks along a chain of vertices and hands out its sides, one after the
/// other: the side from the first vertex to the second, then the side from
/// the second to the third, and so on.
pub struct LineSegmentIterator<'a, P> {
    vertices: &'a [P],
    index: usize,
}

impl<'a, P> LineSegmentIterator<'a, P> {
    #[verifier::type_invariant]
    spec fn within(self) -> bool {
        self.index == 0 || self.index < self.vertices@.len()
    }
}

impl<'a, P: Copy> LineSegmentIterator<'a, P> {
    /// The chain of vertices.
    pub closed spec fn chain(self) -> Seq<P> {
        self.vertices@
    }

    /// Number of sides handed out so far.
    pub closed spec fn position(self) -> int {
        self.index as int
    }

    /// Begins at the first vertex.
    pub fn new(vertices: &'a [P]) -> (sides: Self)
        ensures
            sides.chain() == vertices@,
            sides.position() == 0,
    {
        Self { vertices, index: 0 }
    }

    /// The next side, or nothing once every side has been handed out. A chain
    /// of fewer than two vertices has no side.
    pub fn next(&mut self) -> (side: Option<LineSegment<P>>)
        ensures
            final(self).chain() == old(self).chain(),
            old(self).position() + 1 < old(self).chain().len() ==> {
                &&& final(self).position() == old(self).position() + 1
                &&& side matches Some(s)
                &&& s.0 == old(self).chain()[old(self).position()]
                &&& s.1 == old(self).chain()[old(self).position() + 1]
            },
            old(self).position() + 1 >= old(self).chain().len() ==> {
                &&& final(self).position() == old(self).position()
                &&& side is None
            },
    {
        proof {
            use_type_invariant(&*self);
        }
        let second_index = self.index + 1;
        if second_index >= self.vertices.len() {
            return None;
        }
        let a = self.vertices[self.index];
        self.index = second_index;
        Some(LineSegment(a, self.vertices[self.index]))
    }
}

} // verus!
