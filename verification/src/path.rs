//! Descent through the halving of a rectangle, one axis at a time.
//!
//! The indexed domain is the rectangle centred on the origin that reaches
//! from minus the half-size to the half-size, both included. Each step
//! halves the current rectangle along one axis, first x, then y, then x
//! again, and keeps the half that holds the target.

use vstd::prelude::*;
use crate::geometry::Point;

verus! {

/// One of the two halves of a rectangle: the one of lower coordinates, or
/// the one of higher coordinates, which holds the dividing line.
#[derive(Debug, Clone, Copy, PartialEq, Eq, Structural)]
pub enum Half {
    TopLeft,
    BottomRight,
}

impl Half {
    /// The other half.
    pub open spec fn other(self) -> Half {
        match self {
            Half::TopLeft => Half::BottomRight,
            Half::BottomRight => Half::TopLeft,
        }
    }
}

/// A rectangle reached by some number of halvings. It holds the points `p`
/// with `min_x <= p.x < max_x` and `min_y <= p.y < max_y`: along either axis
/// its bounds are the lowest coordinate that it holds and the first one
/// beyond it.
pub struct Cell {
    pub min_x: int,
    pub min_y: int,
    pub max_x: int,
    pub max_y: int,
    pub depth: nat,
}

/// The dividing coordinate of the stretch that begins at `lo` and ends just
/// before `hi`.
pub open spec fn midpoint(lo: int, hi: int) -> int {
    lo + (hi - lo) / 2
}

impl Cell {
    /// The whole domain of the given half-size: every point from minus the
    /// half-size to the half-size, both included.
    pub open spec fn root(half_size: Point) -> Cell {
        Cell {
            min_x: -half_size.x,
            min_y: -half_size.y,
            max_x: half_size.x + 1,
            max_y: half_size.y + 1,
            depth: 0,
        }
    }

    /// Bounds are ordered, and the corners of the cell fit the coordinate
    /// type.
    pub open spec fn wf(self) -> bool {
        &&& i32::MIN < self.min_x <= i32::MAX
        &&& i32::MIN < self.min_y <= i32::MAX
        &&& self.min_x <= self.max_x <= i32::MAX + 1
        &&& self.min_y <= self.max_y <= i32::MAX + 1
    }

    /// Whether the next halving divides along x.
    pub open spec fn splits_x(self) -> bool {
        self.depth % 2 == 0
    }

    /// The coordinate along which the next halving divides.
    pub open spec fn mid(self) -> int {
        if self.splits_x() {
            midpoint(self.min_x, self.max_x)
        } else {
            midpoint(self.min_y, self.max_y)
        }
    }

    /// The half of this cell on whose side the point lies: the lower one
    /// for a coordinate strictly below the dividing one, else the higher
    /// one.
    pub open spec fn side(self, p: Point) -> Half {
        if self.splits_x() {
            if p.x < self.mid() {
                Half::TopLeft
            } else {
                Half::BottomRight
            }
        } else {
            if p.y < self.mid() {
                Half::TopLeft
            } else {
                Half::BottomRight
            }
        }
    }

    /// The given half of this cell.
    pub open spec fn child(self, half: Half) -> Cell {
        let depth = self.depth + 1;
        if self.splits_x() {
            match half {
                Half::TopLeft => Cell { max_x: self.mid(), depth, ..self },
                Half::BottomRight => Cell { min_x: self.mid(), depth, ..self },
            }
        } else {
            match half {
                Half::TopLeft => Cell { max_y: self.mid(), depth, ..self },
                Half::BottomRight => Cell { min_y: self.mid(), depth, ..self },
            }
        }
    }

    /// Whether the point lies in the cell.
    pub open spec fn contains(self, p: Point) -> bool {
        &&& self.min_x <= p.x < self.max_x
        &&& self.min_y <= p.y < self.max_y
    }

    /// Whether the two cells share no point.
    pub open spec fn disjoint(self, other: Cell) -> bool {
        forall|p: Point| !(#[trigger] self.contains(p) && other.contains(p))
    }

    /// The cell reached from this one by `steps` halvings towards the point.
    pub open spec fn descend(self, p: Point, steps: nat) -> Cell
        decreases steps,
    {
        if steps == 0 {
            self
        } else {
            self.child(self.side(p)).descend(p, (steps - 1) as nat)
        }
    }

    /// The halves of a cell are cells.
    pub proof fn child_wf(self, half: Half)
        requires
            self.wf(),
        ensures
            self.child(half).wf(),
            self.child(half).depth == self.depth + 1,
    {
    }

    /// The two halves of a cell divide its points among them: a point of the
    /// cell lies in the half on its side and not in the other, and a point
    /// of a half lies in the cell.
    pub proof fn halves_partition(self, p: Point)
        requires
            self.wf(),
        ensures
            self.contains(p) ==> self.child(self.side(p)).contains(p),
            self.child(Half::TopLeft).contains(p) ==> self.contains(p) && self.side(p)
                == Half::TopLeft,
            self.child(Half::BottomRight).contains(p) ==> self.contains(p) && self.side(p)
                == Half::BottomRight,
    {
    }

    /// A descent never leaves the cell that it started from.
    pub proof fn descend_narrows(self, p: Point, steps: nat, q: Point)
        requires
            self.wf(),
            self.descend(p, steps).contains(q),
        ensures
            self.contains(q),
        decreases steps,
    {
        if steps > 0 {
            let next = self.child(self.side(p));
            self.child_wf(self.side(p));
            next.descend_narrows(p, (steps - 1) as nat, q);
            self.halves_partition(q);
        }
    }

    /// Descending towards a point of the cell never loses the point.
    pub proof fn descend_keeps(self, p: Point, steps: nat)
        requires
            self.wf(),
            self.contains(p),
        ensures
            self.descend(p, steps).wf(),
            self.descend(p, steps).contains(p),
            self.descend(p, steps).depth == self.depth + steps,
        decreases steps,
    {
        if steps > 0 {
            self.child_wf(self.side(p));
            self.halves_partition(p);
            self.child(self.side(p)).descend_keeps(p, (steps - 1) as nat);
        }
    }
}

/// The state of a descent towards one target point.
#[derive(Debug, Clone, Copy)]
pub struct BinaryPath {
    /// Lowest corner of the current rectangle.
    min: Point,
    /// Highest corner of the current rectangle; below the lowest one along
    /// an axis along which the rectangle holds nothing.
    last: Point,
    target: Point,
    depth: u32,
}

impl View for BinaryPath {
    type V = Cell;

    /// The rectangle that the descent has narrowed the domain to.
    closed spec fn view(&self) -> Cell {
        Cell {
            min_x: self.min.x as int,
            min_y: self.min.y as int,
            max_x: self.last.x + 1,
            max_y: self.last.y + 1,
            depth: self.depth as nat,
        }
    }
}

impl BinaryPath {
    #[verifier::type_invariant]
    spec fn ordered(self) -> bool {
        &&& i32::MIN < self.min.x <= self.last.x + 1
        &&& i32::MIN < self.min.y <= self.last.y + 1
    }

    /// The point that the descent heads for.
    pub closed spec fn goal(self) -> Point {
        self.target
    }

    /// Starts a descent at the whole domain.
    pub fn new(half_size: Point, target: Point) -> (path: BinaryPath)
        requires
            0 <= half_size.x,
            0 <= half_size.y,
        ensures
            path@ == Cell::root(half_size),
            path@.wf(),
            path.goal() == target,
    {
        BinaryPath {
            min: Point { x: -half_size.x, y: -half_size.y },
            last: half_size,
            target,
            depth: 0,
        }
    }

    /// Number of steps taken.
    pub fn depth(&self) -> (depth: u32)
        ensures
            depth == self@.depth,
    {
        self.depth
    }

    /// The target of the descent.
    pub fn target(&self) -> (target: Point)
        ensures
            target == self.goal(),
    {
        self.target
    }

    /// Lowest corner of the current rectangle, which belongs to it.
    pub fn lower(&self) -> (corner: Point)
        ensures
            corner.x == self@.min_x,
            corner.y == self@.min_y,
            self@.wf(),
    {
        proof {
            use_type_invariant(self);
        }
        self.min
    }

    /// Highest corner of the current rectangle, which belongs to it. Along
    /// an axis along which the rectangle holds nothing, it lies just below
    /// the lowest corner.
    pub fn upper(&self) -> (corner: Point)
        ensures
            corner.x == self@.max_x - 1,
            corner.y == self@.max_y - 1,
            self@.wf(),
    {
        proof {
            use_type_invariant(self);
        }
        self.last
    }

    /// The half of the current rectangle on whose side `p` lies.
    pub fn side_of(&self, p: Point) -> (half: Half)
        ensures
            half == self@.side(p),
    {
        proof {
            use_type_invariant(self);
        }
        if self.depth % 2 == 0 {
            let lo: i64 = self.min.x as i64;
            let hi: i64 = self.last.x as i64 + 1;
            let mid: i64 = lo + (hi - lo) / 2;
            if (p.x as i64) < mid {
                Half::TopLeft
            } else {
                Half::BottomRight
            }
        } else {
            let lo: i64 = self.min.y as i64;
            let hi: i64 = self.last.y as i64 + 1;
            let mid: i64 = lo + (hi - lo) / 2;
            if (p.y as i64) < mid {
                Half::TopLeft
            } else {
                Half::BottomRight
            }
        }
    }

    /// The descent that has moved on into the given half, whatever the
    /// target.
    pub fn branch(&self, half: Half) -> (next: BinaryPath)
        requires
            self@.depth < u32::MAX,
        ensures
            next@ == self@.child(half),
            next@.wf(),
            next.goal() == self.goal(),
    {
        proof {
            use_type_invariant(self);
        }
        let depth: u32 = self.depth + 1;
        if self.depth % 2 == 0 {
            let lo: i64 = self.min.x as i64;
            let hi: i64 = self.last.x as i64 + 1;
            let mid: i32 = (lo + (hi - lo) / 2) as i32;
            match half {
                Half::TopLeft => BinaryPath {
                    min: self.min,
                    last: Point { x: mid - 1, y: self.last.y },
                    target: self.target,
                    depth,
                },
                Half::BottomRight => BinaryPath {
                    min: Point { x: mid, y: self.min.y },
                    last: self.last,
                    target: self.target,
                    depth,
                },
            }
        } else {
            let lo: i64 = self.min.y as i64;
            let hi: i64 = self.last.y as i64 + 1;
            let mid: i32 = (lo + (hi - lo) / 2) as i32;
            match half {
                Half::TopLeft => BinaryPath {
                    min: self.min,
                    last: Point { x: self.last.x, y: mid - 1 },
                    target: self.target,
                    depth,
                },
                Half::BottomRight => BinaryPath {
                    min: Point { x: self.min.x, y: mid },
                    last: self.last,
                    target: self.target,
                    depth,
                },
            }
        }
    }

    /// Takes one step: halves the current rectangle, keeps the half on the
    /// target's side and says which one that is.
    pub fn step(&mut self) -> (half: Half)
        requires
            old(self)@.depth < u32::MAX,
        ensures
            half == old(self)@.side(old(self).goal()),
            final(self)@ == old(self)@.child(half),
            final(self).goal() == old(self).goal(),
    {
        let half = self.side_of(self.target);
        let next = self.branch(half);
        *self = next;
        half
    }
}

} // verus!
