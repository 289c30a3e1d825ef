//! The index itself: a binary tree of cells over two arenas.
//!
//! Branches live in one arena and leaves in another, and every link between
//! them is a handle. The root covers the whole domain; the two children of a
//! branch cover the two halves of its cell. Every stored point lies in the
//! cell of the leaf that holds it, so that a descent from the root towards
//! the point ends at that leaf.

use vstd::prelude::*;
use vstd::multiset::Multiset;
use crate::bucket::{
    choose_first_at, choose_first_of, is_first_at, is_first_of, Bucket, Item, CAPACITY,
};
use crate::contents::{
    total, total_count_none, total_count_single, total_push, total_swap_remove, total_update,
};
use crate::division::{
    divided, divided_once_more, divisions, inside, new_cell, on_side, outcome,
};
use crate::error::IndexError;
use crate::geometry::{Aabb, Point};
use crate::node::{Child, Node};
use crate::order::{
    filter_none, filter_remove, filter_twice, first_has_first_origin, kept_place,
    none_has_no_origin, origin, origin_found,
};
use crate::packed::{PackedId, PackedVec, MAX_LEN};
use crate::path::{BinaryPath, Cell, Half};

verus! {

/// The slot that a link upwards names.
spec fn slot(id: Option<PackedId>) -> Option<int> {
    match id {
        Some(id) => Some(id.index()),
        None => None,
    }
}

/// Whether two cells share no point for a reason that their bounds show.
spec fn apart(a: Cell, b: Cell) -> bool {
    ||| a.max_x <= b.min_x
    ||| b.max_x <= a.min_x
    ||| a.max_y <= b.min_y
    ||| b.max_y <= a.min_y
}

/// Whether the cell and the box share a point for all that their bounds
/// show.
pub open spec fn meets(cell: Cell, region: Aabb) -> bool {
    &&& cell.min_x <= region.hi().x
    &&& region.lo().x < cell.max_x
    &&& cell.min_y <= region.hi().y
    &&& region.lo().y < cell.max_y
}

/// The test that keeps the items that lie in the box.
pub open spec fn in_region(region: Aabb) -> spec_fn(Item) -> bool {
    |item: Item| region.contains(item.point)
}

/// Where a link leads once leaf `divided` has given way to the new branch
/// `branch`, in an arena whose last leaf stood in slot `last`: the link to the
/// divided leaf leads to the branch, the link to the last leaf follows that
/// leaf into the slot of the divided one, and every other link leads where
/// it led.
pub open spec fn relinked_child(link: Child, divided: PackedId, branch: PackedId, last: int) -> Child {
    if link == Child::Bucket(divided) {
        Child::Node(branch)
    } else if link == Child::Bucket(PackedId::at(last)) {
        Child::Bucket(divided)
    } else {
        link
    }
}

/// Whether the first cell lies within the second.
spec fn within(a: Cell, b: Cell) -> bool {
    &&& b.min_x <= a.min_x
    &&& a.max_x <= b.max_x
    &&& b.min_y <= a.min_y
    &&& a.max_y <= b.max_y
}

/// A link that stands open: the link below branch `above` on `side`, or the
/// root link where nothing is above. What covers `cell` is yet to be hung
/// there, and whatever the link names meanwhile is not to be followed.
struct Hole {
    above: Option<int>,
    side: Half,
    cell: Cell,
}

/// A dynamic index of points of a rectangular domain around the origin.
///
/// Leaves are divided when they overflow and never merged again: a removal
/// leaves every branch and every leaf in its place, so that their number
/// never falls.
pub struct Tree {
    /// How far the domain reaches from the origin along either axis.
    half_size: Point,
    /// The greatest depth at which a leaf may lie.
    max_depth: u32,
    /// What covers the whole domain: one leaf at first, later a branch.
    root: Child,
    nodes: PackedVec<Node>,
    buckets: PackedVec<Bucket>,
    /// The cell of each branch, by its slot.
    node_cells: Ghost<Seq<Cell>>,
    /// The cell of each leaf, by its slot.
    bucket_cells: Ghost<Seq<Cell>>,
    /// Everything stored, in the order of arrival.
    arrivals: Ghost<Seq<Item>>,
}

impl View for Tree {
    type V = Seq<Item>;

    /// Everything stored, in the order of arrival.
    closed spec fn view(&self) -> Seq<Item> {
        self.arrivals@
    }
}

impl Tree {
    /// What the leaves hold, taken together.
    spec fn sum(self) -> Multiset<Item> {
        total(self.buckets@)
    }

    spec fn link_ok(self, child: Child, above: Option<int>, cell: Cell) -> bool {
        match child {
            Child::Node(n) => {
                &&& 0 <= n.index() < self.nodes@.len()
                &&& slot(self.nodes@[n.index()].parent_id()) == above
                &&& self.node_cells@[n.index()] == cell
            },
            Child::Bucket(b) => {
                &&& 0 <= b.index() < self.buckets@.len()
                &&& slot(self.buckets@[b.index()].parent_id()) == above
                &&& self.bucket_cells@[b.index()] == cell
            },
        }
    }

    /// Whether the link at the given place is the one that stands open.
    spec fn is_open(hole: Option<Hole>, above: Option<int>, side: Half) -> bool {
        hole matches Some(h) && h.above == above && (above is None || h.side == side)
    }

    /// Whether the link at the given place is sound: it leads rightly, or it
    /// is the one that stands open and is to cover the cell of the hole.
    spec fn slot_ok(
        self,
        child: Child,
        above: Option<int>,
        side: Half,
        cell: Cell,
        hole: Option<Hole>,
    ) -> bool {
        if Self::is_open(hole, above, side) {
            hole->Some_0.cell == cell
        } else {
            self.link_ok(child, above, cell)
        }
    }

    spec fn leads_to(self, child: Child, cell: Cell) -> bool {
        match child {
            Child::Node(n) => 0 <= n.index() < self.nodes@.len() && self.node_cells@[n.index()]
                == cell,
            Child::Bucket(b) => 0 <= b.index() < self.buckets@.len()
                && self.bucket_cells@[b.index()] == cell,
        }
    }

    spec fn node_ok(self, i: int, hole: Option<Hole>) -> bool {
        let node = self.nodes@[i];
        let cell = self.node_cells@[i];
        &&& cell.wf()
        &&& within(cell, Cell::root(self.half_size))
        &&& cell.depth < self.max_depth
        &&& (hole matches Some(h) && h.above == Some(i)) || node.child(Half::TopLeft)
            != node.child(Half::BottomRight)
        &&& self.slot_ok(
            node.child(Half::TopLeft),
            Some(i),
            Half::TopLeft,
            cell.child(Half::TopLeft),
            hole,
        )
        &&& self.slot_ok(
            node.child(Half::BottomRight),
            Some(i),
            Half::BottomRight,
            cell.child(Half::BottomRight),
            hole,
        )
    }

    /// Whether a link that does not stand open leads to leaf `j` from where
    /// the leaf's link up says.
    spec fn linked_back(self, j: int, hole: Option<Hole>) -> bool {
        match self.buckets@[j].parent_id() {
            None => self.root == Child::Bucket(PackedId::at(j)) && !Self::is_open(
                hole,
                None,
                Half::TopLeft,
            ),
            Some(p) => {
                &&& 0 <= p.index() < self.nodes@.len()
                &&& (self.nodes@[p.index()].child(Half::TopLeft) == Child::Bucket(PackedId::at(j))
                    && !Self::is_open(hole, Some(p.index()), Half::TopLeft)) || (
                self.nodes@[p.index()].child(Half::BottomRight) == Child::Bucket(PackedId::at(j))
                    && !Self::is_open(hole, Some(p.index()), Half::BottomRight))
            },
        }
    }

    spec fn bucket_ok(self, j: int, hole: Option<Hole>) -> bool {
        let bucket = self.buckets@[j];
        let cell = self.bucket_cells@[j];
        &&& bucket.wf()
        &&& cell.wf()
        &&& within(cell, Cell::root(self.half_size))
        &&& cell.depth <= self.max_depth
        &&& forall|k: int| 0 <= k < bucket@.len() ==> cell.contains(#[trigger] bucket@[k].point)
        &&& bucket@ == self.arrivals@.filter(inside(cell))
        &&& self.linked_back(j, hole)
    }

    spec fn hole_ok(self, hole: Option<Hole>) -> bool {
        match hole {
            None => true,
            Some(h) => {
                &&& h.cell.wf()
                &&& within(h.cell, Cell::root(self.half_size))
                &&& h.cell.depth <= self.max_depth
                &&& h.above matches Some(i) ==> 0 <= i < self.nodes@.len()
                &&& forall|j: int|
                    0 <= j < self.buckets@.len() ==> apart(h.cell, #[trigger] self.bucket_cells@[j])
            },
        }
    }

    spec fn covered(self, p: Point, hole: Option<Hole>) -> bool {
        ||| exists|j: int|
            0 <= j < self.buckets@.len() && (#[trigger] self.bucket_cells@[j]).contains(p)
        ||| (hole matches Some(h) && h.cell.contains(p))
    }

    /// Whether every point of the domain lies in the cell of a leaf, or in
    /// the cell that the open link is to cover.
    spec fn covers(self, hole: Option<Hole>) -> bool {
        forall|p: Point| Cell::root(self.half_size).contains(p) ==> #[trigger] self.covered(p, hole)
    }

    /// The open link that the removal of leaf `b` leaves: the link that led
    /// to the leaf, which is to cover the cell of the leaf.
    spec fn hole_for(self, b: PackedId) -> Hole {
        Hole {
            above: slot(self.buckets@[b.index()].parent_id()),
            side: match self.buckets@[b.index()].parent_id() {
                Some(p) => if self.nodes@[p.index()].child(Half::TopLeft) == Child::Bucket(b) {
                    Half::TopLeft
                } else {
                    Half::BottomRight
                },
                None => Half::TopLeft,
            },
            cell: self.bucket_cells@[b.index()],
        }
    }

    /// The index is sound but for one link that may stand open: every other
    /// link leads where it claims to, every leaf hangs where its link up
    /// says, holds no more than it may and holds the arrivals that lie in its
    /// cell, and the cells of the leaves, with the cell that the open link
    /// is to cover, divide the domain among them.
    spec fn inv(self, hole: Option<Hole>) -> bool {
        &&& 0 <= self.half_size.x
        &&& 0 <= self.half_size.y
        &&& self.nodes.wf()
        &&& self.buckets.wf()
        &&& self.node_cells@.len() == self.nodes@.len()
        &&& self.bucket_cells@.len() == self.buckets@.len()
        &&& self.slot_ok(self.root, None, Half::TopLeft, Cell::root(self.half_size), hole)
        &&& forall|i: int| 0 <= i < self.nodes@.len() ==> #[trigger] self.node_ok(i, hole)
        &&& forall|j: int| 0 <= j < self.buckets@.len() ==> #[trigger] self.bucket_ok(j, hole)
        &&& forall|j1: int, j2: int|
            0 <= j1 < self.buckets@.len() && 0 <= j2 < self.buckets@.len() && j1 != j2 ==> apart(
                #[trigger] self.bucket_cells@[j1],
                #[trigger] self.bucket_cells@[j2],
            )
        &&& self.hole_ok(hole)
        &&& self.covers(hole)
    }

    /// The index is sound: links lead where they claim to, every leaf holds
    /// no more than it may, and every stored point lies in the cell of the
    /// leaf that holds it.
    pub closed spec fn wf(self) -> bool {
        &&& self.inv(None)
        &&& self.sum() == self.arrivals@.to_multiset()
    }

    /// The whole domain: the cell of every point from minus the half-size to
    /// the half-size, both included.
    pub closed spec fn domain(self) -> Cell {
        Cell::root(self.half_size)
    }

    /// Whether the point lies in the domain, borders included.
    pub open spec fn in_domain(self, p: Point) -> bool {
        self.domain().contains(p)
    }

    /// The greatest depth at which a leaf may lie.
    pub closed spec fn depth_limit(self) -> nat {
        self.max_depth as nat
    }

    /// Number of branches.
    pub closed spec fn node_count(self) -> nat {
        self.nodes@.len()
    }

    /// Number of leaves.
    pub closed spec fn leaf_count(self) -> nat {
        self.buckets@.len()
    }

    /// Whether the handle names a leaf.
    pub closed spec fn has_leaf(self, b: PackedId) -> bool {
        self.buckets.contains(b)
    }

    /// The items of a leaf, in the order of their arrival.
    pub closed spec fn leaf_items(self, b: PackedId) -> Seq<Item> {
        self.buckets@[b.index()]@
    }

    /// The cell that a leaf covers.
    pub closed spec fn leaf_cell(self, b: PackedId) -> Cell {
        self.bucket_cells@[b.index()]
    }

    /// The leaf whose cell holds the point.
    pub closed spec fn leaf_of(self, p: Point) -> PackedId {
        choose|b: PackedId| self.buckets.contains(b) && self.bucket_cells@[b.index()].contains(p)
    }

    /// What covers the whole domain: the root.
    pub closed spec fn root_link(self) -> Child {
        self.root
    }

    /// Whether the handle names a branch.
    pub closed spec fn has_node(self, n: PackedId) -> bool {
        self.nodes.contains(n)
    }

    /// What hangs below a branch on the given side.
    pub closed spec fn node_child(self, n: PackedId, half: Half) -> Child {
        self.nodes@[n.index()].child(half)
    }

    /// The branch above a branch; none above the root.
    pub closed spec fn node_parent(self, n: PackedId) -> Option<PackedId> {
        self.nodes@[n.index()].parent_id()
    }

    /// The cell that a branch covers.
    pub closed spec fn node_cell(self, n: PackedId) -> Cell {
        self.node_cells@[n.index()]
    }

    /// The branch above a leaf; none above a leaf that is the root.
    pub closed spec fn leaf_parent(self, b: PackedId) -> Option<PackedId> {
        self.buckets@[b.index()].parent_id()
    }

    /// Whether the link leads to a branch or a leaf that exists, covers
    /// `cell` and names `above` as what is above it.
    pub open spec fn leads_rightly(self, link: Child, above: Option<PackedId>, cell: Cell) -> bool {
        match link {
            Child::Node(m) => {
                &&& self.has_node(m)
                &&& self.node_parent(m) == above
                &&& self.node_cell(m) == cell
            },
            Child::Bucket(b) => {
                &&& self.has_leaf(b)
                &&& self.leaf_parent(b) == above
                &&& self.leaf_cell(b) == cell
            },
        }
    }

    /// The handles of the leaves name the slots below the number of leaves,
    /// and those of the branches the slots below the number of branches.
    pub proof fn handles_name_slots(self, id: PackedId)
        ensures
            self.has_leaf(id) <==> 0 <= id.index() < self.leaf_count(),
            self.has_node(id) <==> 0 <= id.index() < self.node_count(),
    {
    }

    /// Every link down agrees with the link up at its far end: the root link
    /// leads to what covers the domain and has nothing above it, and the two
    /// links of a branch lead to two different things that cover the two
    /// halves of its cell and have the branch above them.
    pub proof fn links_lead_down(self, n: PackedId, half: Half)
        requires
            self.wf(),
        ensures
            self.leads_rightly(self.root_link(), None, self.domain()),
            self.has_node(n) ==> {
                &&& self.leads_rightly(
                    self.node_child(n, half),
                    Some(n),
                    self.node_cell(n).child(half),
                )
                &&& self.node_child(n, Half::TopLeft) != self.node_child(n, Half::BottomRight)
                &&& self.node_cell(n).depth < self.depth_limit()
            },
    {
        if self.has_node(n) {
            assert(self.node_ok(n.index(), None));
        }
        match self.root {
            Child::Node(m) => {},
            Child::Bucket(b) => {},
        }
    }

    /// Every leaf hangs where its link up says: below the branch that it
    /// names, or at the root if it names none.
    pub proof fn leaves_lead_up(self, b: PackedId)
        requires
            self.wf(),
            self.has_leaf(b),
        ensures
            match self.leaf_parent(b) {
                None => self.root_link() == Child::Bucket(b),
                Some(p) => {
                    &&& self.has_node(p)
                    &&& (self.node_child(p, Half::TopLeft) == Child::Bucket(b) || self.node_child(
                        p,
                        Half::BottomRight,
                    ) == Child::Bucket(b))
                },
            },
    {
        assert(self.bucket_ok(b.index(), None));
        assert(self.linked_back(b.index(), None));
        assert(PackedId::at(b.index()) == b);
    }

    /// Where a walk of at most `steps` steps ends that begins at `link`,
    /// which covers `cell`, and at every branch follows the link on the side
    /// of `p`: the leaf that it reaches, if it reaches one.
    pub open spec fn walk(self, link: Child, cell: Cell, p: Point, steps: nat) -> Option<PackedId>
        decreases steps,
    {
        match link {
            Child::Bucket(b) => Some(b),
            Child::Node(n) => if steps == 0 {
                None
            } else {
                self.walk(
                    self.node_child(n, cell.side(p)),
                    cell.child(cell.side(p)),
                    p,
                    (steps - 1) as nat,
                )
            },
        }
    }

    /// The leaf at which a descent from the root towards `p` ends.
    pub open spec fn descent(self, p: Point) -> Option<PackedId> {
        self.walk(self.root_link(), self.domain(), p, self.depth_limit())
    }

    /// A walk towards a point, from a link that covers the point, ends at
    /// the leaf whose cell holds the point, unless the point lies in the
    /// cell that an open link is to cover.
    proof fn walk_reaches(
        self,
        hole: Option<Hole>,
        link: Child,
        above: Option<int>,
        side: Half,
        cell: Cell,
        p: Point,
        steps: nat,
    )
        requires
            self.inv(hole),
            self.slot_ok(link, above, side, cell, hole),
            cell.wf(),
            cell.contains(p),
            hole matches Some(h) ==> !h.cell.contains(p),
            steps + cell.depth >= self.max_depth,
        ensures
            self.walk(link, cell, p, steps) matches Some(b) && self.buckets.contains(b)
                && self.bucket_cells@[b.index()].contains(p),
        decreases steps,
    {
        match link {
            Child::Bucket(b) => {},
            Child::Node(n) => {
                assert(self.node_ok(n.index(), hole));
                let down = cell.side(p);
                cell.halves_partition(p);
                cell.child_wf(down);
                match down {
                    Half::TopLeft => {},
                    Half::BottomRight => {},
                }
                self.walk_reaches(
                    hole,
                    self.node_child(n, down),
                    Some(n.index()),
                    down,
                    cell.child(down),
                    p,
                    (steps - 1) as nat,
                );
            },
        }
    }

    /// A descent from the root towards a point of the domain ends at the
    /// leaf whose cell holds the point.
    pub proof fn descent_ends_at_leaf(self, p: Point)
        requires
            self.wf(),
            self.in_domain(p),
        ensures
            self.descent(p) == Some(self.leaf_of(p)),
            self.has_leaf(self.leaf_of(p)),
            self.leaf_cell(self.leaf_of(p)).contains(p),
    {
        self.walk_reaches(
            None,
            self.root,
            None,
            Half::TopLeft,
            Cell::root(self.half_size),
            p,
            self.max_depth as nat,
        );
        self.leaf_is_unique(self.descent(p)->Some_0, p);
    }

    /// An empty index of the domain of the given half-size, whose leaves lie
    /// no deeper than `max_depth`.
    pub fn new(half_size: Point, max_depth: u32) -> (tree: Tree)
        requires
            0 <= half_size.x,
            0 <= half_size.y,
        ensures
            tree.wf(),
            tree@ == Seq::<Item>::empty(),
            tree.domain() == Cell::root(half_size),
            forall|p: Point|
                #[trigger] tree.in_domain(p) <==> -half_size.x <= p.x <= half_size.x
                    && -half_size.y <= p.y <= half_size.y,
            tree.depth_limit() == max_depth,
            tree.node_count() == 0,
            tree.leaf_count() == 1,
            tree.root_link() == Child::Bucket(PackedId::at(0)),
            forall|q: Point|
                tree.in_domain(q) ==> tree.leaf_cell(#[trigger] tree.leaf_of(q)) == Cell::root(
                    half_size,
                ),
    {
        let mut buckets: PackedVec<Bucket> = PackedVec::new();
        let root = buckets.push(Bucket::new(None)).unwrap();
        let node_cells: Ghost<Seq<Cell>> = Ghost(Seq::empty());
        let bucket_cells: Ghost<Seq<Cell>> = Ghost(Seq::empty().push(Cell::root(half_size)));
        let tree = Tree {
            half_size,
            max_depth,
            root: Child::Bucket(root),
            nodes: PackedVec::new(),
            buckets,
            node_cells,
            bucket_cells,
            arrivals: Ghost(Seq::empty()),
        };
        proof {
            assert(tree.buckets@.drop_last() =~= Seq::<Bucket>::empty());
            assert(total(tree.buckets@.drop_last()) == Multiset::<Item>::empty());
            assert(tree.buckets@.last()@ =~= Seq::<Item>::empty());
            assert(tree.buckets@.last()@.to_multiset() =~= Multiset::<Item>::empty()) by {
                broadcast use vstd::seq_lib::group_to_multiset_ensures;
            }
            assert(tree.sum() =~= Multiset::<Item>::empty());
            filter_none(tree.arrivals@, inside(Cell::root(half_size)));
            assert(tree.bucket_ok(0, None));
            assert forall|q: Point| tree.in_domain(q) implies tree.leaf_cell(
                #[trigger] tree.leaf_of(q),
            ) == Cell::root(half_size) by {
                tree.leaf_is_unique(root, q);
            }
        }
        tree
    }

    /// Walks from the root towards the point and returns the leaf at which
    /// the walk ends, with the path that led there.
    pub fn find_bucket(&self, point: Point) -> (found: (BinaryPath, PackedId))
        requires
            self.wf(),
        ensures
            self.has_leaf(found.1),
            found.0@ == self.leaf_cell(found.1),
            found.0@.wf(),
            found.0@ == self.domain().descend(point, found.0@.depth),
            found.0@.depth <= self.depth_limit(),
            found.0.goal() == point,
            self.in_domain(point) ==> self.leaf_cell(found.1).contains(point) && found.1
                == self.leaf_of(point),
    {
        let mut path = BinaryPath::new(self.half_size, point);
        let mut target = self.root;
        loop
            invariant
                self.wf(),
                self.leads_to(target, path@),
                path@ == self.domain().descend(point, path@.depth),
                path@.wf(),
                path@.depth <= self.max_depth,
                path.goal() == point,
                self.in_domain(point) ==> path@.contains(point),
            decreases self.max_depth - path@.depth,
        {
            match target {
                Child::Bucket(bucket_id) => {
                    proof {
                        if self.in_domain(point) {
                            self.leaf_is_unique(bucket_id, point);
                        }
                    }
                    return (path, bucket_id);
                },
                Child::Node(node_id) => {
                    assert(self.node_ok(node_id.index(), None));
                    let ghost before = path@;
                    let node = self.nodes.get(node_id).unwrap();
                    let half = path.step();
                    target = node.get_child(half);
                    proof {
                        before.halves_partition(point);
                        before.child_wf(half);
                        Self::descend_one_more(self.domain(), point, before.depth);
                        assert(self.link_ok(
                            target,
                            Some(node_id.index()),
                            before.child(half),
                        ));
                        match target {
                            Child::Bucket(b) => {
                                assert(self.bucket_ok(b.index(), None));
                            },
                            Child::Node(n) => {
                                assert(self.node_ok(n.index(), None));
                            },
                        }
                    }
                },
            }
        }
    }

    /// Whether the links of `after` are the links of this index, but that the
    /// link below `above`, or the root link where nothing is above, leads to
    /// `to` if it led to `from`. Every other link is as it was.
    spec fn link_moved(self, above: Option<PackedId>, from: Child, to: Child, after: Tree) -> bool {
        &&& after.nodes@.len() == self.nodes@.len()
        &&& match above {
            None => {
                &&& after.nodes@ == self.nodes@
                &&& after.root == if self.root == from {
                    to
                } else {
                    self.root
                }
            },
            Some(p) => {
                &&& after.root == self.root
                &&& self.nodes@[p.index()].with_replaced(from, to, after.nodes@[p.index()])
                &&& forall|i: int|
                    0 <= i < self.nodes@.len() && i != p.index() ==> after.nodes@[i]
                        == self.nodes@[i]
            },
        }
    }

    /// What `relink` makes of the index: one link is moved, and nothing else
    /// changes.
    spec fn relinked(self, above: Option<PackedId>, from: Child, to: Child, after: Tree) -> bool {
        &&& after.half_size == self.half_size
        &&& after.max_depth == self.max_depth
        &&& after.buckets@ == self.buckets@
        &&& after.node_cells@ == self.node_cells@
        &&& after.bucket_cells@ == self.bucket_cells@
        &&& after.arrivals@ == self.arrivals@
        &&& self.link_moved(above, from, to, after)
    }

    /// Makes the link that leads down from `above` to `from` lead to `to`.
    fn relink(&mut self, above: Option<PackedId>, from: Child, to: Child)
        requires
            above matches Some(p) ==> old(self).nodes.contains(p),
        ensures
            old(self).relinked(above, from, to, *final(self)),
    {
        match above {
            None => {
                if self.root == from {
                    self.root = to;
                }
            },
            Some(p) => {
                match self.nodes.get_mut(p) {
                    Some(node) => {
                        node.replace_child(from, to);
                    },
                    None => {},
                }
            },
        }
    }

    /// The cells are as they were, so every point is covered as it was.
    proof fn covers_same_cells(self, before: Tree, hole: Option<Hole>)
        requires
            before.covers(hole),
            self.half_size == before.half_size,
            self.bucket_cells@ == before.bucket_cells@,
            self.buckets@.len() == before.buckets@.len(),
            before.bucket_cells@.len() == before.buckets@.len(),
        ensures
            self.covers(hole),
    {
        assert forall|p: Point| Cell::root(self.half_size).contains(p) implies #[trigger] self.covered(
            p,
            hole,
        ) by {
            assert(before.covered(p, hole));
            if !(hole matches Some(h) && h.cell.contains(p)) {
                let j = choose|j: int|
                    0 <= j < before.buckets@.len() && (#[trigger] before.bucket_cells@[j]).contains(
                        p,
                    );
                assert(self.bucket_cells@[j].contains(p));
            }
        }
    }

    /// Whether the leaves of `after` are those of this index without leaf
    /// `removed`: the leaf that stood last stands in the slot of the removed
    /// one, unless that was the last, and every other leaf stands where it
    /// stood; each has the cell, the items and the link up that it had.
    spec fn leaves_after_removal(self, removed: PackedId, after: Tree) -> bool {
        let last = self.leaf_count() - 1;
        &&& after.leaf_count() == last
        &&& forall|c: PackedId| #[trigger]
            after.has_leaf(c) ==> {
                let was = if c == removed {
                    PackedId::at(last)
                } else {
                    c
                };
                &&& self.has_leaf(was)
                &&& after.leaf_cell(c) == self.leaf_cell(was)
                &&& after.leaf_items(c) == self.leaf_items(was)
                &&& after.leaf_parent(c) == self.leaf_parent(was)
            }
    }

    /// Whether the links of `after` are those of this index, but that the
    /// one link that led to the leaf that stood last leads to the slot of
    /// leaf `removed`, into which that leaf has moved. Every other link is
    /// as it was, the link that led to the removed leaf among them, and no
    /// link names the last slot unless the removed leaf stood there.
    spec fn links_after_removal(self, removed: PackedId, after: Tree) -> bool {
        let last = PackedId::at(self.leaf_count() - 1);
        let follows = |link: Child|
            if link == Child::Bucket(last) && removed != last {
                Child::Bucket(removed)
            } else {
                link
            };
        &&& after.node_count() == self.node_count()
        &&& after.root_link() == follows(self.root_link())
        &&& forall|n: PackedId| #[trigger] after.has_node(n) == self.has_node(n)
        &&& forall|n: PackedId|
            self.has_node(n) ==> #[trigger] after.node_parent(n) == self.node_parent(n)
        &&& forall|n: PackedId|
            self.has_node(n) ==> #[trigger] after.node_cell(n) == self.node_cell(n)
        &&& forall|n: PackedId, half: Half|
            self.has_node(n) ==> #[trigger] after.node_child(n, half) == follows(
                self.node_child(n, half),
            )
    }

    /// Takes a leaf out of its arena and returns it. The leaf that stood
    /// last moves into the freed slot, and the one link that led to it is
    /// made to follow: the link below the parent of that leaf, or the root
    /// link if it has none. Every other link stays as it was, the link that
    /// led to the removed leaf among them: that link stands open from now
    /// on, until what is to cover the cell of the removed leaf is hung
    /// there. Every leaf that stays keeps its cell, its items and its place
    /// below its parent, so that a descent towards any point outside the
    /// cell of the removed leaf ends at the leaf that holds it, as before.
    fn remove_bucket(&mut self, bucket_id: PackedId) -> (bucket: Bucket)
        requires
            old(self).wf(),
            old(self).has_leaf(bucket_id),
        ensures
            final(self).inv(Some(old(self).hole_for(bucket_id))),
            bucket == old(self).buckets@[bucket_id.index()],
            final(self).buckets@ == old(self).buckets@.update(
                bucket_id.index(),
                old(self).buckets@.last(),
            ).drop_last(),
            final(self).bucket_cells@ == old(self).bucket_cells@.update(
                bucket_id.index(),
                old(self).bucket_cells@.last(),
            ).drop_last(),
            final(self).half_size == old(self).half_size,
            final(self).max_depth == old(self).max_depth,
            final(self).node_cells@ == old(self).node_cells@,
            final(self).arrivals@ == old(self).arrivals@,
            final(self).nodes@.len() == old(self).nodes@.len(),
            final(self).leaf_count() == old(self).leaf_count() - 1,
            final(self).node_count() == old(self).node_count(),
            bucket_id.index() == old(self).buckets@.len() - 1 ==> final(self).nodes@ == old(
                self,
            ).nodes@ && final(self).root == old(self).root,
            bucket_id.index() != old(self).buckets@.len() - 1 ==> old(self).link_moved(
                old(self).buckets@.last().parent_id(),
                Child::Bucket(PackedId::at(old(self).buckets@.len() - 1)),
                Child::Bucket(bucket_id),
                *final(self),
            ),
            bucket_id.index() != old(self).buckets@.len() - 1 ==> forall|i: int, half: Half|
                0 <= i < final(self).nodes@.len() ==> #[trigger] final(self).nodes@[i].child(half)
                    != Child::Bucket(PackedId::at(old(self).buckets@.len() - 1)),
            bucket@ == old(self).leaf_items(bucket_id),
            bucket.parent_id() == old(self).leaf_parent(bucket_id),
            old(self).leaves_after_removal(bucket_id, *final(self)),
            old(self).links_after_removal(bucket_id, *final(self)),
            forall|p: Point|
                old(self).in_domain(p) && !old(self).leaf_cell(bucket_id).contains(p) ==> {
                    &&& #[trigger] final(self).descent(p) == Some(final(self).leaf_of(p))
                    &&& final(self).has_leaf(final(self).leaf_of(p))
                    &&& final(self).leaf_cell(final(self).leaf_of(p)).contains(p)
                    &&& final(self).leaf_items(final(self).leaf_of(p)) == old(self).leaf_items(
                        old(self).leaf_of(p),
                    )
                },
    {
        let ghost before = *self;
        let ghost b = bucket_id.index();
        let ghost last = self.buckets@.len() - 1;
        let ghost hole = Some(before.hole_for(bucket_id));
        let removed = self.buckets.remove(bucket_id);
        proof {
            self.bucket_cells@ = before.bucket_cells@.update(b, before.bucket_cells@.last()).drop_last();
            assert(before.bucket_ok(b, None));
            assert(before.bucket_ok(last, None));
            assert(PackedId::at(b) == bucket_id);
        }
        if let Some(swap) = removed.swap {
            assert(swap.old == PackedId::at(last));
            let above = self.buckets.get(swap.new).unwrap().parent();
            self.relink(above, Child::Bucket(swap.old), Child::Bucket(swap.new));
        }
        proof {
            assert forall|i: int| 0 <= i < self.nodes@.len() implies #[trigger] self.node_ok(i, hole) by {
                assert(before.node_ok(i, None));
            }
            assert forall|j: int| 0 <= j < self.buckets@.len() implies #[trigger] self.bucket_ok(j, hole) by {
                let k = if j == b { last } else { j };
                assert(before.bucket_ok(k, None));
                assert(before.linked_back(k, None));
                if let Some(q) = before.buckets@[k].parent_id() {
                    assert(before.node_ok(q.index(), None));
                }
                assert(PackedId::at(j) != PackedId::at(last));
                if j != b {
                    assert(PackedId::at(j) != PackedId::at(b));
                }
            }
            assert forall|j1: int, j2: int|
                0 <= j1 < self.buckets@.len() && 0 <= j2 < self.buckets@.len() && j1
                    != j2 implies apart(
                #[trigger] self.bucket_cells@[j1],
                #[trigger] self.bucket_cells@[j2],
            ) by {
                let k1 = if j1 == b { last } else { j1 };
                let k2 = if j2 == b { last } else { j2 };
                assert(apart(before.bucket_cells@[k1], before.bucket_cells@[k2]));
            }
            assert forall|j: int| 0 <= j < self.buckets@.len() implies apart(
                before.bucket_cells@[b],
                #[trigger] self.bucket_cells@[j],
            ) by {
                let k = if j == b { last } else { j };
                assert(apart(before.bucket_cells@[b], before.bucket_cells@[k]));
            }
            assert forall|p: Point| Cell::root(self.half_size).contains(p) implies #[trigger] self.covered(
                p,
                hole,
            ) by {
                assert(before.covered(p, None));
                let j = choose|j: int|
                    0 <= j < before.buckets@.len() && (#[trigger] before.bucket_cells@[j]).contains(
                        p,
                    );
                if j != b {
                    let k = if j == last { b } else { j };
                    assert(self.bucket_cells@[k].contains(p));
                }
            }
            assert(self.inv(hole));
            assert forall|c: PackedId| #[trigger] self.has_leaf(c) implies {
                let was = if c == bucket_id {
                    PackedId::at(last)
                } else {
                    c
                };
                &&& before.has_leaf(was)
                &&& self.leaf_cell(c) == before.leaf_cell(was)
                &&& self.leaf_items(c) == before.leaf_items(was)
                &&& self.leaf_parent(c) == before.leaf_parent(was)
            } by {}
            assert forall|n: PackedId, half: Half| before.has_node(n) implies #[trigger] self.node_child(
                n,
                half,
            ) == if before.node_child(n, half) == Child::Bucket(PackedId::at(last)) && bucket_id
                != PackedId::at(last) {
                Child::Bucket(bucket_id)
            } else {
                before.node_child(n, half)
            } by {
                assert(before.node_ok(n.index(), None));
                match half {
                    Half::TopLeft => {},
                    Half::BottomRight => {},
                }
            }
            assert(before.links_after_removal(bucket_id, *self));
            assert forall|p: Point|
                before.in_domain(p) && !before.leaf_cell(bucket_id).contains(p) implies {
                &&& #[trigger] self.descent(p) == Some(self.leaf_of(p))
                &&& self.has_leaf(self.leaf_of(p))
                &&& self.leaf_cell(self.leaf_of(p)).contains(p)
                &&& self.leaf_items(self.leaf_of(p)) == before.leaf_items(before.leaf_of(p))
            } by {
                self.walk_reaches(
                    hole,
                    self.root,
                    None,
                    Half::TopLeft,
                    Cell::root(self.half_size),
                    p,
                    self.max_depth as nat,
                );
                let c = self.descent(p)->Some_0;
                self.leaf_is_unique(c, p);
                let was = if c == bucket_id {
                    PackedId::at(last)
                } else {
                    c
                };
                before.leaf_is_unique(was, p);
            }
            if b != last {
                assert forall|i: int, half: Half| 0 <= i < self.nodes@.len() implies #[trigger] self.nodes@[i].child(
                    half,
                ) != Child::Bucket(PackedId::at(last)) by {
                    assert(before.node_ok(i, None));
                    match half {
                        Half::TopLeft => {},
                        Half::BottomRight => {},
                    }
                }
            }
        }
        removed.item
    }

    /// Completes the division of a leaf: puts the two new leaves and the
    /// branch above them into their arenas, and hangs the branch at the link
    /// that stands open.
    fn attach(
        &mut self,
        above: Option<PackedId>,
        side: Half,
        low: Bucket,
        high: Bucket,
        Ghost(cell): Ghost<Cell>,
    ) -> (ids: (PackedId, PackedId))
        requires
            old(self).inv(Some(Hole { above: slot(above), side, cell })),
            cell.depth < old(self).max_depth,
            old(self).nodes@.len() < MAX_LEN,
            old(self).buckets@.len() + 2 <= MAX_LEN,
            low.wf(),
            high.wf(),
            low.parent_id() == Some(PackedId::at(old(self).nodes@.len() as int)),
            high.parent_id() == Some(PackedId::at(old(self).nodes@.len() as int)),
            forall|k: int|
                0 <= k < low@.len() ==> cell.child(Half::TopLeft).contains(
                    #[trigger] low@[k].point,
                ),
            forall|k: int|
                0 <= k < high@.len() ==> cell.child(Half::BottomRight).contains(
                    #[trigger] high@[k].point,
                ),
            low@ == old(self).arrivals@.filter(inside(cell.child(Half::TopLeft))),
            high@ == old(self).arrivals@.filter(inside(cell.child(Half::BottomRight))),
        ensures
            final(self).inv(None),
            final(self).arrivals@ == old(self).arrivals@,
            ids.0.index() == old(self).buckets@.len(),
            ids.1.index() == old(self).buckets@.len() + 1,
            final(self).buckets@ == old(self).buckets@.push(low).push(high),
            final(self).bucket_cells@ == old(self).bucket_cells@.push(
                cell.child(Half::TopLeft),
            ).push(cell.child(Half::BottomRight)),
            final(self).nodes@.len() == old(self).nodes@.len() + 1,
            final(self).root == if above is None {
                Child::Node(PackedId::at(old(self).nodes@.len() as int))
            } else {
                old(self).root
            },
            forall|i: int|
                0 <= i < old(self).nodes@.len() ==> (#[trigger] final(self).nodes@[i]).parent_id()
                    == old(self).nodes@[i].parent_id(),
            forall|i: int, half: Half|
                0 <= i < old(self).nodes@.len() ==> #[trigger] final(self).nodes@[i].child(half)
                    == if slot(above) == Some(i) && half == side {
                    Child::Node(PackedId::at(old(self).nodes@.len() as int))
                } else {
                    old(self).nodes@[i].child(half)
                },
            final(self).nodes@[old(self).nodes@.len() as int].parent_id() == above,
            final(self).nodes@[old(self).nodes@.len() as int].child(Half::TopLeft)
                == Child::Bucket(ids.0),
            final(self).nodes@[old(self).nodes@.len() as int].child(Half::BottomRight)
                == Child::Bucket(ids.1),
            final(self).node_cells@ == old(self).node_cells@.push(cell),
            final(self).half_size == old(self).half_size,
            final(self).max_depth == old(self).max_depth,
    {
        let ghost before = *self;
        let ghost n = self.nodes@.len() as int;
        let ghost hole = Some(Hole { above: slot(above), side, cell });
        let ghost low_cell = cell.child(Half::TopLeft);
        let ghost high_cell = cell.child(Half::BottomRight);
        let low_id = self.buckets.push(low).unwrap();
        let high_id = self.buckets.push(high).unwrap();
        let node_id = self.nodes.push(Node::from_buckets(above, low_id, high_id)).unwrap();
        let ghost pushed = *self;
        match above {
            None => {
                self.root = Child::Node(node_id);
            },
            Some(p) => {
                match self.nodes.get_mut(p) {
                    Some(node) => {
                        node.set_child(side, Child::Node(node_id));
                    },
                    None => {},
                }
            },
        }
        proof {
            self.bucket_cells@ = before.bucket_cells@.push(low_cell).push(high_cell);
            self.node_cells@ = before.node_cells@.push(cell);
            assert(before.hole_ok(hole));
            assert(self.nodes@[n] == pushed.nodes@[n]);
            let l = before.buckets@.len() as int;
            assert(low_id == PackedId::at(l));
            assert(high_id == PackedId::at(l + 1));
            assert(node_id == PackedId::at(n));
            cell.child_wf(Half::TopLeft);
            cell.child_wf(Half::BottomRight);
            assert forall|i: int, half: Half| 0 <= i < n implies #[trigger] self.nodes@[i].child(half)
                == if slot(above) == Some(i) && half == side {
                Child::Node(node_id)
            } else {
                before.nodes@[i].child(half)
            } by {
                assert(pushed.nodes@[i] == before.nodes@[i]);
                match half {
                    Half::TopLeft => {},
                    Half::BottomRight => {},
                }
            }
            assert forall|i: int| 0 <= i < self.nodes@.len() implies #[trigger] self.node_ok(i, None) by {
                if i < n {
                    assert(before.node_ok(i, hole));
                    assert(self.nodes@[i].child(Half::TopLeft) == if slot(above) == Some(i)
                        && Half::TopLeft == side {
                        Child::Node(node_id)
                    } else {
                        before.nodes@[i].child(Half::TopLeft)
                    });
                    assert(self.nodes@[i].child(Half::BottomRight) == if slot(above) == Some(i)
                        && Half::BottomRight == side {
                        Child::Node(node_id)
                    } else {
                        before.nodes@[i].child(Half::BottomRight)
                    });
                }
            }
            assert forall|j: int| 0 <= j < self.buckets@.len() implies #[trigger] self.bucket_ok(j, None) by {
                assert(self.nodes@[n].child(Half::TopLeft) == Child::Bucket(low_id));
                assert(self.nodes@[n].child(Half::BottomRight) == Child::Bucket(high_id));
                if j < l {
                    assert(before.bucket_ok(j, hole));
                    assert(before.linked_back(j, hole));
                    if let Some(q) = before.buckets@[j].parent_id() {
                        assert(before.node_ok(q.index(), hole));
                        assert(self.nodes@[q.index()].child(Half::TopLeft) == if slot(above) == Some(
                            q.index(),
                        ) && Half::TopLeft == side {
                            Child::Node(node_id)
                        } else {
                            before.nodes@[q.index()].child(Half::TopLeft)
                        });
                        assert(self.nodes@[q.index()].child(Half::BottomRight) == if slot(above)
                            == Some(q.index()) && Half::BottomRight == side {
                            Child::Node(node_id)
                        } else {
                            before.nodes@[q.index()].child(Half::BottomRight)
                        });
                    }
                }
            }
            assert forall|j1: int, j2: int|
                0 <= j1 < self.buckets@.len() && 0 <= j2 < self.buckets@.len() && j1
                    != j2 implies apart(
                #[trigger] self.bucket_cells@[j1],
                #[trigger] self.bucket_cells@[j2],
            ) by {
                if j1 < l && j2 < l {
                    assert(apart(before.bucket_cells@[j1], before.bucket_cells@[j2]));
                } else if j1 < l {
                    assert(apart(cell, before.bucket_cells@[j1]));
                } else if j2 < l {
                    assert(apart(cell, before.bucket_cells@[j2]));
                }
            }
            assert forall|p: Point| Cell::root(self.half_size).contains(p) implies #[trigger] self.covered(
                p,
                None,
            ) by {
                assert(before.covered(p, hole));
                if cell.contains(p) {
                    cell.halves_partition(p);
                    if cell.side(p) == Half::TopLeft {
                        assert(self.bucket_cells@[l].contains(p));
                    } else {
                        assert(self.bucket_cells@[l + 1].contains(p));
                    }
                } else {
                    let j = choose|j: int|
                        0 <= j < before.buckets@.len() && (#[trigger] before.bucket_cells@[j]).contains(
                            p,
                        );
                    assert(self.bucket_cells@[j].contains(p));
                }
            }
        }
        (low_id, high_id)
    }

    /// Whether the links of `after` are those that the division of leaf
    /// `divided` into the leaves `halves` leaves: a new branch, which stands
    /// last among the branches, hangs where the leaf hung, with the two new
    /// leaves below it; the leaf that stood last has taken the slot of the
    /// divided one, and the link to it has followed; every other link leads
    /// where it led.
    spec fn links_after_division(
        self,
        divided: PackedId,
        halves: (PackedId, PackedId),
        after: Tree,
    ) -> bool {
        let branch = PackedId::at(self.node_count() as int);
        let last = self.leaf_count() - 1;
        &&& after.root_link() == relinked_child(self.root_link(), divided, branch, last)
        &&& after.node_cell(branch) == self.leaf_cell(divided)
        &&& after.node_parent(branch) == self.leaf_parent(divided)
        &&& after.node_child(branch, Half::TopLeft) == Child::Bucket(halves.0)
        &&& after.node_child(branch, Half::BottomRight) == Child::Bucket(halves.1)
        &&& after.leaf_parent(halves.0) == Some(branch)
        &&& after.leaf_parent(halves.1) == Some(branch)
        &&& forall|n: PackedId|
            self.has_node(n) ==> #[trigger] after.node_cell(n) == self.node_cell(n)
        &&& forall|n: PackedId|
            self.has_node(n) ==> #[trigger] after.node_parent(n) == self.node_parent(n)
        &&& forall|n: PackedId, half: Half|
            self.has_node(n) ==> #[trigger] after.node_child(n, half) == relinked_child(
                self.node_child(n, half),
                divided,
                branch,
                last,
            )
        &&& forall|c: PackedId|
            self.has_leaf(c) && c != divided && c.index() != last ==> #[trigger] after.leaf_parent(
                c,
            ) == self.leaf_parent(c)
        &&& divided.index() != last ==> after.leaf_parent(divided) == self.leaf_parent(
            PackedId::at(last),
        )
    }

    /// Divides a leaf: a branch takes its place, with two new leaves below
    /// that share out its items by the side of the dividing line on which
    /// they lie. Returns the handles of the lower and of the higher leaf.
    fn split(&mut self, bucket_id: PackedId, path: &BinaryPath) -> (halves: (PackedId, PackedId))
        requires
            old(self).wf(),
            old(self).has_leaf(bucket_id),
            path@ == old(self).leaf_cell(bucket_id),
            path@.depth < old(self).depth_limit(),
            old(self).node_count() < MAX_LEN,
            old(self).leaf_count() < MAX_LEN,
        ensures
            final(self).wf(),
            final(self)@ == old(self)@,
            final(self).domain() == old(self).domain(),
            final(self).depth_limit() == old(self).depth_limit(),
            final(self).node_count() == old(self).node_count() + 1,
            final(self).leaf_count() == old(self).leaf_count() + 1,
            final(self).has_leaf(halves.0),
            final(self).has_leaf(halves.1),
            final(self).leaf_cell(halves.0) == path@.child(Half::TopLeft),
            final(self).leaf_cell(halves.1) == path@.child(Half::BottomRight),
            final(self).leaf_items(halves.0) == old(self).leaf_items(bucket_id).filter(
                on_side(path@, Half::TopLeft),
            ),
            final(self).leaf_items(halves.1) == old(self).leaf_items(bucket_id).filter(
                on_side(path@, Half::BottomRight),
            ),
            forall|q: Point|
                old(self).in_domain(q) ==> final(self).leaf_cell(#[trigger] final(self).leaf_of(q))
                    == if path@.contains(q) {
                    path@.child(path@.side(q))
                } else {
                    old(self).leaf_cell(old(self).leaf_of(q))
                },
            halves.0.index() == old(self).leaf_count() - 1,
            halves.1.index() == old(self).leaf_count(),
            forall|c: PackedId|
                old(self).has_leaf(c) && c != bucket_id && c.index() != old(self).leaf_count() - 1
                    ==> #[trigger] final(self).leaf_cell(c) == old(self).leaf_cell(c),
            bucket_id.index() != old(self).leaf_count() - 1 ==> final(self).leaf_cell(bucket_id)
                == old(self).leaf_cell(PackedId::at(old(self).leaf_count() - 1)),
            old(self).links_after_division(bucket_id, halves, *final(self)),
    {
        let ghost before = *self;
        let ghost b = bucket_id.index();
        let ghost cell = path@;
        assert(before.bucket_ok(b, None));
        assert(before.linked_back(b, None));
        assert(PackedId::at(b) == bucket_id);
        let node_id = self.nodes.next_id().unwrap();
        let above = self.buckets.get(bucket_id).unwrap().parent();
        let side = match above {
            Some(p) => self.nodes.get(p).unwrap().half_of(Child::Bucket(bucket_id)),
            None => Half::TopLeft,
        };
        assert(before.hole_for(bucket_id) == (Hole { above: slot(above), side, cell }));
        let bucket = self.remove_bucket(bucket_id);
        let ghost middle = *self;
        let ghost items = bucket@;
        let mut low = Bucket::new(Some(node_id));
        let mut high = Bucket::new(Some(node_id));
        let mut k: usize = 0;
        proof {
            assert(items.take(0) =~= Seq::<Item>::empty());
            reveal(Seq::filter);
            broadcast use vstd::seq_lib::group_to_multiset_ensures;
            assert(items.take(0).to_multiset() =~= Multiset::<Item>::empty());
            assert(low@.to_multiset().add(high@.to_multiset()) =~= Multiset::<Item>::empty());
        }
        while k < bucket.len()
            invariant
                k <= items.len() <= CAPACITY,
                bucket@ == items,
                cell == path@,
                cell.wf(),
                forall|i: int| 0 <= i < items.len() ==> cell.contains(#[trigger] items[i].point),
                low.parent_id() == Some(node_id),
                high.parent_id() == Some(node_id),
                low@ == items.take(k as int).filter(on_side(cell, Half::TopLeft)),
                high@ == items.take(k as int).filter(on_side(cell, Half::BottomRight)),
                low@.len() + high@.len() == k,
                low@.to_multiset().add(high@.to_multiset()) == items.take(k as int).to_multiset(),
                forall|i: int|
                    0 <= i < low@.len() ==> cell.child(Half::TopLeft).contains(
                        #[trigger] low@[i].point,
                    ),
                forall|i: int|
                    0 <= i < high@.len() ==> cell.child(Half::BottomRight).contains(
                        #[trigger] high@[i].point,
                    ),
            decreases items.len() - k,
        {
            let item = bucket.item(k);
            let ghost low_before = low@;
            let ghost high_before = high@;
            proof {
                broadcast use vstd::seq_lib::group_to_multiset_ensures;
                assert(items.take(k + 1) =~= items.take(k as int).push(item));
                items.take(k as int).lemma_filter_push(item, on_side(cell, Half::TopLeft));
                items.take(k as int).lemma_filter_push(item, on_side(cell, Half::BottomRight));
                cell.halves_partition(item.point);
            }
            match path.side_of(item.point) {
                Half::TopLeft => {
                    let _ = low.insert(item.entity, item.point);
                    assert(low@ == low_before.push(item));
                    assert(low@.to_multiset().add(high@.to_multiset()) =~= items.take(
                        k as int,
                    ).to_multiset().insert(item));
                },
                Half::BottomRight => {
                    let _ = high.insert(item.entity, item.point);
                    assert(high@ == high_before.push(item));
                    assert(low@.to_multiset().add(high@.to_multiset()) =~= items.take(
                        k as int,
                    ).to_multiset().insert(item));
                },
            }
            k += 1;
        }
        assert(items.take(k as int) =~= items);
        proof {
            let log = self.arrivals@;
            assert forall|i: int| 0 <= i < log.len() implies (inside(cell)(#[trigger] log[i])
                && on_side(cell, Half::TopLeft)(log[i])) == inside(cell.child(Half::TopLeft))(
                log[i],
            ) by {
                cell.halves_partition(log[i].point);
            }
            assert forall|i: int| 0 <= i < log.len() implies (inside(cell)(#[trigger] log[i])
                && on_side(cell, Half::BottomRight)(log[i])) == inside(
                cell.child(Half::BottomRight),
            )(log[i]) by {
                cell.halves_partition(log[i].point);
            }
            filter_twice(
                log,
                inside(cell),
                on_side(cell, Half::TopLeft),
                inside(cell.child(Half::TopLeft)),
            );
            filter_twice(
                log,
                inside(cell),
                on_side(cell, Half::BottomRight),
                inside(cell.child(Half::BottomRight)),
            );
        }
        let halves = self.attach(above, side, low, high, Ghost(cell));
        proof {
            total_swap_remove(before.buckets@, b);
            total_push(middle.buckets@, low);
            total_push(middle.buckets@.push(low), high);
            assert(self.sum() =~= before.sum());
            let last = before.buckets@.len() - 1;
            assert(PackedId::at(b) == bucket_id);
            assert(PackedId::at(before.nodes@.len() as int) == node_id);
            assert forall|n: PackedId, half: Half| before.has_node(n) implies #[trigger] self.node_child(
                n,
                half,
            ) == relinked_child(before.node_child(n, half), bucket_id, node_id, last) by {
                let i = n.index();
                assert(before.node_ok(i, None));
                assert(middle.node_ok(i, Some(before.hole_for(bucket_id))));
                match half {
                    Half::TopLeft => {},
                    Half::BottomRight => {},
                }
            }
            assert(self.root_link() == relinked_child(before.root_link(), bucket_id, node_id, last));
            assert forall|c: PackedId|
                before.has_leaf(c) && c != bucket_id && c.index() != last implies #[trigger] self.leaf_parent(
                c,
            ) == before.leaf_parent(c) by {}
            assert(before.links_after_division(bucket_id, halves, *self));
            assert forall|q: Point| before.in_domain(q) implies self.leaf_cell(
                #[trigger] self.leaf_of(q),
            ) == if cell.contains(q) {
                cell.child(cell.side(q))
            } else {
                before.leaf_cell(before.leaf_of(q))
            } by {
                before.every_point_has_a_leaf(q);
                let j = before.leaf_of(q).index();
                if cell.contains(q) {
                    cell.halves_partition(q);
                    if cell.side(q) == Half::TopLeft {
                        self.leaf_is_unique(halves.0, q);
                    } else {
                        self.leaf_is_unique(halves.1, q);
                    }
                } else {
                    let k = if j == last { b } else { j };
                    assert(self.bucket_cells@[k] == before.bucket_cells@[j]);
                    assert(PackedId::at(k).index() == k);
                    self.leaf_is_unique(PackedId::at(k), q);
                }
            }
        }
        halves
    }

    /// Whether the point lies in the domain, borders included.
    pub fn contains_point(&self, point: Point) -> (inside: bool)
        requires
            self.wf(),
        ensures
            inside == self.in_domain(point),
    {
        -self.half_size.x <= point.x && point.x <= self.half_size.x && -self.half_size.y
            <= point.y && point.y <= self.half_size.y
    }

    /// Appends an item to a leaf that has room for it.
    fn put(&mut self, bucket_id: PackedId, entity: u64, point: Point)
        requires
            old(self).wf(),
            old(self).has_leaf(bucket_id),
            old(self).leaf_cell(bucket_id).contains(point),
            old(self).leaf_items(bucket_id).len() < CAPACITY,
        ensures
            final(self).wf(),
            final(self)@ == old(self)@.push(Item { entity, point }),
            final(self).leaf_items(bucket_id) == old(self).leaf_items(bucket_id).push(
                Item { entity, point },
            ),
            final(self).leaf_parent(bucket_id) == old(self).leaf_parent(bucket_id),
            final(self).half_size == old(self).half_size,
            final(self).max_depth == old(self).max_depth,
            final(self).root == old(self).root,
            final(self).nodes@ == old(self).nodes@,
            final(self).node_cells@ == old(self).node_cells@,
            final(self).bucket_cells@ == old(self).bucket_cells@,
            final(self).buckets@.len() == old(self).buckets@.len(),
            forall|j: int|
                0 <= j < old(self).buckets@.len() && j != bucket_id.index() ==> final(self).buckets@[j]
                    == old(self).buckets@[j],
    {
        let ghost before = *self;
        let ghost b = bucket_id.index();
        let ghost item = Item { entity, point };
        assert(before.bucket_ok(b, None));
        match self.buckets.get_mut(bucket_id) {
            Some(bucket) => {
                let _ = bucket.insert(entity, point);
            },
            None => {},
        }
        proof {
            self.arrivals@ = before.arrivals@.push(item);
        }
        proof {
            broadcast use vstd::seq_lib::group_to_multiset_ensures;
            assert forall|i: int| 0 <= i < self.nodes@.len() implies #[trigger] self.node_ok(
                i,
                None,
            ) by {
                assert(before.node_ok(i, None));
            }
            assert forall|j: int| 0 <= j < self.buckets@.len() implies #[trigger] self.bucket_ok(
                j, None) by {
                assert(before.bucket_ok(j, None));
                before.arrivals@.lemma_filter_push(item, inside(self.bucket_cells@[j]));
                if j != b {
                    assert(apart(self.bucket_cells@[j], self.bucket_cells@[b]));
                }
            }
            self.covers_same_cells(before, None);
            total_update(before.buckets@, b, self.buckets@[b]);
            assert(self.buckets@ =~= before.buckets@.update(b, self.buckets@[b]));
            assert(self.buckets@[b]@.to_multiset() =~= before.buckets@[b]@.to_multiset().insert(
                item,
            ));
            assert(self.sum().add(before.buckets@[b]@.to_multiset()) =~= before.sum().insert(item).add(
                before.buckets@[b]@.to_multiset(),
            ));
            assert(self.sum() =~= before.sum().insert(item)) by {
                assert forall|v: Item| self.sum().count(v) == before.sum().insert(item).count(v) by {
                    assert(self.sum().add(before.buckets@[b]@.to_multiset()).count(v)
                        == before.sum().insert(item).add(before.buckets@[b]@.to_multiset()).count(v));
                }
            }
        }
    }

    /// Whether the handles of `after` name the leaves that are left by
    /// `made` divisions, one at least, of the leaf that holds `point`. The
    /// leaf that stood last has moved into the slot of the divided leaf, the
    /// new leaves stand in the slots from the last one onwards, and every
    /// other leaf stands where it stood.
    pub open spec fn leaves_after(self, point: Point, made: nat, after: Tree) -> bool {
        let first = self.leaf_of(point);
        let leaves = self.leaf_count();
        forall|c: PackedId| #[trigger]
            after.has_leaf(c) ==> after.leaf_cell(c) == if c.index() >= leaves - 1 {
                new_cell(self.leaf_cell(first), point, made, leaves, c.index())
            } else if c == first {
                self.leaf_cell(PackedId::at(leaves - 1))
            } else {
                self.leaf_cell(c)
            }
    }

    /// Whether new branch number `k` of `after`, of the `made` branches that
    /// took the place of the divided halves on the way to `point`, covers the
    /// cell reached by `k` halvings of the divided leaf's cell, hangs below
    /// the new branch before it, or where the leaf hung if it is the first,
    /// and has below it the next new branch and the half that stayed, or the
    /// two halves of the last division if it is the last.
    pub open spec fn new_branch_after(self, point: Point, made: nat, k: int, after: Tree) -> bool {
        let first = self.leaf_of(point);
        let nodes = self.node_count() as int;
        let leaves = self.leaf_count() as int;
        let n = PackedId::at(nodes + k);
        let cell = self.leaf_cell(first).descend(point, k as nat);
        &&& after.node_cell(n) == cell
        &&& after.node_parent(n) == if k == 0 {
            self.leaf_parent(first)
        } else {
            Some(PackedId::at(nodes + k - 1))
        }
        &&& k < made - 1 ==> after.node_child(n, cell.side(point)) == Child::Node(
            PackedId::at(nodes + k + 1),
        ) && after.node_child(n, cell.side(point).other()) == Child::Bucket(
            PackedId::at(leaves - 1 + k),
        )
        &&& k == made - 1 ==> after.node_child(n, Half::TopLeft) == Child::Bucket(
            PackedId::at(leaves + made - 2),
        ) && after.node_child(n, Half::BottomRight) == Child::Bucket(
            PackedId::at(leaves + made - 1),
        )
    }

    /// Whether the links of `after` are those that `made` divisions, one at
    /// least, of the leaf that holds `point` leave. The new branches stand
    /// behind the others, each below the one before and the first where the
    /// leaf hung; each but the last has the next branch on the side of
    /// `point` and the half that was not divided further on the other side,
    /// and the last has the two halves of the last division. The one link to
    /// the divided leaf leads to the first new branch, the link to the leaf
    /// that stood last has followed that leaf, and every other link leads
    /// where it led.
    pub open spec fn links_after(self, point: Point, made: nat, after: Tree) -> bool {
        let first = self.leaf_of(point);
        let nodes = self.node_count() as int;
        let leaves = self.leaf_count() as int;
        let whole = self.leaf_cell(first);
        let branch = PackedId::at(nodes);
        &&& after.root_link() == relinked_child(self.root_link(), first, branch, leaves - 1)
        &&& forall|n: PackedId|
            self.has_node(n) ==> #[trigger] after.node_cell(n) == self.node_cell(n)
        &&& forall|n: PackedId|
            self.has_node(n) ==> #[trigger] after.node_parent(n) == self.node_parent(n)
        &&& forall|n: PackedId, half: Half|
            self.has_node(n) ==> #[trigger] after.node_child(n, half) == relinked_child(
                self.node_child(n, half),
                first,
                branch,
                leaves - 1,
            )
        &&& forall|k: int| 0 <= k < made ==> #[trigger] self.new_branch_after(point, made, k, after)
        &&& forall|c: PackedId| #[trigger]
            after.has_leaf(c) ==> after.leaf_parent(c) == if c.index() >= leaves - 1 {
                let level = c.index() - (leaves - 1);
                Some(
                    PackedId::at(
                        nodes + if level <= made - 2 {
                            level
                        } else {
                            made - 1
                        },
                    ),
                )
            } else if c == first {
                self.leaf_parent(PackedId::at(leaves - 1))
            } else {
                self.leaf_parent(c)
            }
    }

    /// One division leaves the links that `links_after` describes.
    proof fn links_after_first(self, point: Point, halves: (PackedId, PackedId), after: Tree)
        requires
            self.wf(),
            self.has_leaf(self.leaf_of(point)),
            self.node_count() < MAX_LEN,
            self.leaf_count() < MAX_LEN,
            self.links_after_division(self.leaf_of(point), halves, after),
            halves.0.index() == self.leaf_count() - 1,
            halves.1.index() == self.leaf_count(),
            after.leaf_count() == self.leaf_count() + 1,
        ensures
            self.links_after(point, 1, after),
    {
        let first = self.leaf_of(point);
        let nodes = self.node_count() as int;
        let leaves = self.leaf_count() as int;
        let whole = self.leaf_cell(first);
        assert(whole.descend(point, 0) == whole);
        assert(halves.0 == PackedId::at(leaves - 1));
        assert(halves.1 == PackedId::at(leaves));
        assert(self.new_branch_after(point, 1, 0, after));
        assert forall|c: PackedId| #[trigger] after.has_leaf(c) implies after.leaf_parent(c) == if c.index()
            >= leaves - 1 {
            Some(PackedId::at(nodes))
        } else if c == first {
            self.leaf_parent(PackedId::at(leaves - 1))
        } else {
            self.leaf_parent(c)
        } by {
            if c.index() < leaves - 1 {
                assert(self.has_leaf(c));
            } else if c.index() == leaves - 1 {
                assert(c == halves.0);
            } else {
                assert(c == halves.1);
            }
        }
    }

    /// One division more leaves the links that `links_after` describes.
    proof fn links_after_next(
        self,
        point: Point,
        n: nat,
        before: Tree,
        divided: PackedId,
        halves: (PackedId, PackedId),
        after: Tree,
    )
        requires
            n >= 1,
            self.links_after(point, n, before),
            before.wf(),
            before.node_count() == self.node_count() + n,
            before.leaf_count() == self.leaf_count() + n,
            self.has_leaf(self.leaf_of(point)),
            before.node_count() < MAX_LEN,
            before.leaf_count() < MAX_LEN,
            before.has_leaf(divided),
            before.leaf_cell(divided) == self.leaf_cell(self.leaf_of(point)).descend(point, n),
            divided.index() == self.leaf_count() + n - if self.leaf_cell(
                self.leaf_of(point),
            ).descend(point, (n - 1) as nat).side(point) == Half::TopLeft {
                2int
            } else {
                1int
            },
            before.links_after_division(divided, halves, after),
            halves.0.index() == before.leaf_count() - 1,
            halves.1.index() == before.leaf_count(),
            after.leaf_count() == before.leaf_count() + 1,
        ensures
            self.links_after(point, n + 1, after),
    {
        let first = self.leaf_of(point);
        let nodes = self.node_count() as int;
        let leaves = self.leaf_count() as int;
        let whole = self.leaf_cell(first);
        let last = leaves + n - 1;
        let above = PackedId::at(nodes + n - 1);
        let branch = PackedId::at(nodes + n);
        let on_way = whole.descend(point, (n - 1) as nat);
        assert(halves.0 == PackedId::at(leaves + n - 1));
        assert(halves.1 == PackedId::at(leaves + n as int));
        assert(before.has_leaf(PackedId::at(last)));
        assert(before.has_node(above));
        assert(before.leaf_parent(divided) == Some(above));
        assert(before.leaf_parent(PackedId::at(last)) == Some(above));
        assert(self.new_branch_after(point, n, n - 1, before));
        assert(before.node_cell(above) == on_way);
        assert(before.node_child(above, Half::TopLeft) == Child::Bucket(PackedId::at(leaves + n - 2)));
        assert(before.node_child(above, Half::BottomRight) == Child::Bucket(PackedId::at(last)));
        before.links_lead_down(above, Half::TopLeft);
        assert(before.root_link() != Child::Bucket(divided));
        assert(before.root_link() != Child::Bucket(PackedId::at(last)));
        assert(after.root_link() == relinked_child(
            self.root_link(),
            first,
            PackedId::at(nodes),
            leaves - 1,
        ));
        assert forall|m: PackedId| self.has_node(m) implies #[trigger] after.node_cell(m)
            == self.node_cell(m) by {
            assert(before.has_node(m));
        }
        assert forall|m: PackedId| self.has_node(m) implies #[trigger] after.node_parent(m)
            == self.node_parent(m) by {
            assert(before.has_node(m));
        }
        assert forall|m: PackedId, half: Half| self.has_node(m) implies #[trigger] after.node_child(
            m,
            half,
        ) == relinked_child(self.node_child(m, half), first, PackedId::at(nodes), leaves - 1) by {
            assert(before.has_node(m));
            before.links_lead_down(m, half);
        }
        assert forall|k: int| 0 <= k < n + 1 implies #[trigger] self.new_branch_after(
            point,
            n + 1,
            k,
            after,
        ) by {
            let m = PackedId::at(nodes + k);
            let cell = whole.descend(point, k as nat);
            if k < n {
                assert(self.new_branch_after(point, n, k, before));
                assert(before.has_node(m));
                if k < n - 1 {
                    assert(PackedId::at(leaves - 1 + k) != divided);
                    assert(PackedId::at(leaves - 1 + k) != PackedId::at(last));
                }
                match cell.side(point) {
                    Half::TopLeft => {},
                    Half::BottomRight => {},
                }
            }
        }
        assert forall|c: PackedId| #[trigger] after.has_leaf(c) implies after.leaf_parent(c) == if c.index()
            >= leaves - 1 {
            let level = c.index() - (leaves - 1);
            Some(
                PackedId::at(
                    nodes + if level <= n - 1 {
                        level
                    } else {
                        n as int
                    },
                ),
            )
        } else if c == first {
            self.leaf_parent(PackedId::at(leaves - 1))
        } else {
            self.leaf_parent(c)
        } by {
            if c.index() < last {
                assert(before.has_leaf(c));
            } else if c.index() == last {
                assert(c == halves.0);
            } else {
                assert(c == halves.1);
            }
        }
    }

    /// What leaves the branches, the links and the leaves' links up alone
    /// leaves the links as `links_after` describes them.
    proof fn links_after_kept(self, point: Point, n: nat, before: Tree, b: PackedId, after: Tree)
        requires
            self.links_after(point, n, before),
            before.same_leaves_but(b, after),
        ensures
            self.links_after(point, n, after),
    {
        assert forall|k: int| 0 <= k < n implies #[trigger] self.new_branch_after(
            point,
            n,
            k,
            after,
        ) by {
            assert(self.new_branch_after(point, n, k, before));
        }
        assert forall|c: PackedId| #[trigger] after.has_leaf(c) implies after.leaf_parent(c)
            == before.leaf_parent(c) && before.has_leaf(c) by {}
    }

    /// Whether the leaves of `after` cover the domain as the leaves of this
    /// index do, but for the cell of the leaf that holds `point`, which is
    /// divided `made` times towards `point`.
    pub open spec fn divided_towards(self, point: Point, made: nat, after: Tree) -> bool {
        forall|q: Point|
            self.in_domain(q) ==> after.leaf_cell(#[trigger] after.leaf_of(q)) == if self.leaf_cell(
                self.leaf_of(point),
            ).contains(q) {
                divided(self.leaf_cell(self.leaf_of(point)), point, q, made)
            } else {
                self.leaf_cell(self.leaf_of(q))
            }
    }

    /// Stores an object at a point of the domain. A full leaf on the way is
    /// divided, again and again if its items all fall on the side of the new
    /// point, until the new item finds room. On failure nothing is stored
    /// and nothing is lost.
    pub fn insert(&mut self, entity: u64, point: Point) -> (res: Result<(), IndexError>)
        requires
            old(self).wf(),
        ensures
            final(self).wf(),
            final(self).domain() == old(self).domain(),
            final(self).depth_limit() == old(self).depth_limit(),
            !old(self).in_domain(point) ==> res == Err::<(), IndexError>(IndexError::OutOfBounds),
            old(self).in_domain(point) ==> res == outcome(
                old(self).leaf_cell(old(self).leaf_of(point)),
                old(self).leaf_items(old(self).leaf_of(point)),
                point,
                old(self).depth_limit(),
                old(self).node_count(),
                old(self).leaf_count(),
            ),
            res is Ok ==> final(self)@ == old(self)@.push(Item { entity, point }),
            res is Err ==> final(self)@ == old(self)@,
            !old(self).in_domain(point) ==> *final(self) == *old(self),
            old(self).in_domain(point) ==> {
                let made = divisions(
                    old(self).leaf_cell(old(self).leaf_of(point)),
                    old(self).leaf_items(old(self).leaf_of(point)),
                    point,
                    old(self).depth_limit(),
                    old(self).node_count(),
                    old(self).leaf_count(),
                );
                &&& final(self).node_count() == old(self).node_count() + made
                &&& final(self).leaf_count() == old(self).leaf_count() + made
                &&& old(self).divided_towards(point, made, *final(self))
                &&& made == 0 ==> old(self).same_leaves_but(old(self).leaf_of(point), *final(self))
                &&& made > 0 ==> old(self).leaves_after(point, made, *final(self))
                &&& made > 0 ==> old(self).links_after(point, made, *final(self))
            },
    {
        if !self.contains_point(point) {
            return Err(IndexError::OutOfBounds);
        }
        let found = self.find_bucket(point);
        let mut path = found.0;
        let mut bucket_id = found.1;
        let ghost expected = outcome(
            self.leaf_cell(bucket_id),
            self.leaf_items(bucket_id),
            point,
            self.depth_limit(),
            self.node_count(),
            self.leaf_count(),
        );
        let ghost made = divisions(
            self.leaf_cell(bucket_id),
            self.leaf_items(bucket_id),
            point,
            self.depth_limit(),
            self.node_count(),
            self.leaf_count(),
        );
        let ghost whole = path@;
        let ghost n: nat = 0;
        proof {
            assert forall|q: Point| old(self).in_domain(q) implies self.leaf_cell(
                #[trigger] self.leaf_of(q),
            ) == if whole.contains(q) {
                divided(whole, point, q, n)
            } else {
                old(self).leaf_cell(old(self).leaf_of(q))
            } by {
                self.every_point_has_a_leaf(q);
                if whole.contains(q) {
                    self.leaf_is_unique(bucket_id, q);
                }
            }
        }
        loop
            invariant
                self.wf(),
                self@ == old(self)@,
                old(self).wf(),
                whole == old(self).leaf_cell(old(self).leaf_of(point)),
                whole.wf(),
                whole.contains(point),
                path@ == whole.descend(point, n),
                self.node_count() == old(self).node_count() + n,
                n == 0 ==> *self == *old(self) && bucket_id == old(self).leaf_of(point),
                self.leaf_count() == old(self).leaf_count() + n,
                n > 0 ==> old(self).leaves_after(point, n, *self),
                n > 0 ==> old(self).links_after(point, n, *self),
                n > 0 ==> bucket_id.index() == old(self).leaf_count() + n - if whole.descend(
                    point,
                    (n - 1) as nat,
                ).side(point) == Half::TopLeft {
                    2int
                } else {
                    1int
                },
                forall|q: Point|
                    old(self).in_domain(q) ==> self.leaf_cell(#[trigger] self.leaf_of(q))
                        == if whole.contains(q) {
                        divided(whole, point, q, n)
                    } else {
                        old(self).leaf_cell(old(self).leaf_of(q))
                    },
                old(self).in_domain(point),
                made == divisions(
                    old(self).leaf_cell(old(self).leaf_of(point)),
                    old(self).leaf_items(old(self).leaf_of(point)),
                    point,
                    old(self).depth_limit(),
                    old(self).node_count(),
                    old(self).leaf_count(),
                ),
                self.node_count() + divisions(
                    path@,
                    self.leaf_items(bucket_id),
                    point,
                    self.depth_limit(),
                    self.node_count(),
                    self.leaf_count(),
                ) == old(self).node_count() + made,
                self.leaf_count() + divisions(
                    path@,
                    self.leaf_items(bucket_id),
                    point,
                    self.depth_limit(),
                    self.node_count(),
                    self.leaf_count(),
                ) == old(self).leaf_count() + made,
                expected == outcome(
                    old(self).leaf_cell(old(self).leaf_of(point)),
                    old(self).leaf_items(old(self).leaf_of(point)),
                    point,
                    old(self).depth_limit(),
                    old(self).node_count(),
                    old(self).leaf_count(),
                ),
                self.domain() == old(self).domain(),
                self.depth_limit() == old(self).depth_limit(),
                self.has_leaf(bucket_id),
                path@ == self.leaf_cell(bucket_id),
                path@.contains(point),
                path@.wf(),
                path.goal() == point,
                path@.depth <= self.depth_limit(),
                expected == outcome(
                    path@,
                    self.leaf_items(bucket_id),
                    point,
                    self.depth_limit(),
                    self.node_count(),
                    self.leaf_count(),
                ),
            decreases self.depth_limit() - path@.depth,
        {
            let full = self.buckets.get(bucket_id).unwrap().is_full();
            if !full {
                let ghost before = *self;
                self.put(bucket_id, entity, point);
                proof {
                    assert forall|q: Point| old(self).in_domain(q) implies self.leaf_cell(
                        #[trigger] self.leaf_of(q),
                    ) == before.leaf_cell(before.leaf_of(q)) by {
                        before.every_point_has_a_leaf(q);
                        self.leaf_is_unique(before.leaf_of(q), q);
                    }
                    if n > 0 {
                        assert forall|c: PackedId| #[trigger] self.has_leaf(c) implies self.leaf_cell(
                            c,
                        ) == before.leaf_cell(c) && before.has_leaf(c) && self.leaf_parent(c)
                            == before.leaf_parent(c) by {}
                        old(self).links_after_kept(point, n, before, bucket_id, *self);
                    }
                }
                return Ok(());
            }
            if path.depth() >= self.max_depth {
                return Err(IndexError::SplitDepthExceeded);
            }
            if self.nodes.len() >= MAX_LEN || self.buckets.len() >= MAX_LEN {
                return Err(IndexError::Exhausted);
            }
            let ghost cell = path@;
            let ghost before = *self;
            let ghost divided_id = bucket_id;
            let halves = self.split(bucket_id, &path);
            let half = path.step();
            bucket_id =
            match half {
                Half::TopLeft => halves.0,
                Half::BottomRight => halves.1,
            };
            proof {
                cell.halves_partition(point);
                cell.child_wf(half);
                Self::descend_one_more(whole, point, n);
                assert forall|q: Point| old(self).in_domain(q) implies self.leaf_cell(
                    #[trigger] self.leaf_of(q),
                ) == if whole.contains(q) {
                    divided(whole, point, q, n + 1)
                } else {
                    old(self).leaf_cell(old(self).leaf_of(q))
                } by {
                    assert(before.leaf_cell(before.leaf_of(q)) == if whole.contains(q) {
                        divided(whole, point, q, n)
                    } else {
                        old(self).leaf_cell(old(self).leaf_of(q))
                    });
                    if whole.contains(q) {
                        divided_once_more(whole, point, q, n);
                    } else if cell.contains(q) {
                        whole.descend_narrows(point, n, q);
                    }
                }
                let first = old(self).leaf_of(point);
                let leaves = old(self).leaf_count();
                assert forall|c: PackedId| #[trigger] self.has_leaf(c) implies self.leaf_cell(c)
                    == if c.index() >= leaves - 1 {
                    new_cell(whole, point, n + 1, leaves, c.index())
                } else if c == first {
                    old(self).leaf_cell(PackedId::at(leaves - 1))
                } else {
                    old(self).leaf_cell(c)
                } by {
                    let last = leaves + n - 1;
                    assert(before.has_leaf(PackedId::at(last)));
                    assert(whole.descend(point, 0) == whole);
                    if c.index() < last {
                        assert(before.has_leaf(c));
                        if c == divided_id {
                            assert(self.leaf_cell(c) == before.leaf_cell(PackedId::at(last)));
                        } else {
                            assert(self.leaf_cell(c) == before.leaf_cell(c));
                        }
                    } else if c.index() == last {
                        assert(c == halves.0);
                    } else {
                        assert(c == halves.1);
                    }
                }
                old(self).every_point_has_a_leaf(point);
                if n == 0 {
                    old(self).links_after_first(point, halves, *self);
                } else {
                    old(self).links_after_next(point, n, before, divided_id, halves, *self);
                }
                n = n + 1;
            }
        }
    }

    /// Whatever is stored lies in the domain, and a descent towards its
    /// point ends at the leaf that holds it.
    pub proof fn stored_in_its_leaf(self, item: Item)
        requires
            self.wf(),
            self@.contains(item),
        ensures
            self.in_domain(item.point),
            self.has_leaf(self.leaf_of(item.point)),
            self.leaf_cell(self.leaf_of(item.point)).contains(item.point),
            self.leaf_items(self.leaf_of(item.point)).contains(item),
    {
        broadcast use vstd::seq_lib::group_to_multiset_ensures;

        if forall|j: int|
            0 <= j < self.buckets@.len() ==> (#[trigger] self.buckets@[j])@.to_multiset().count(item)
                == 0 {
            total_count_none(self.buckets@, item);
        }
        let j = choose|j: int|
            0 <= j < self.buckets@.len() && (#[trigger] self.buckets@[j])@.to_multiset().count(item)
                != 0;
        assert(self.bucket_ok(j, None));
        let items = self.buckets@[j]@;
        assert(items.contains(item));
        let k = choose|k: int| 0 <= k < items.len() && items[k] == item;
        assert(self.bucket_cells@[j].contains(items[k].point));
        assert(PackedId::at(j).index() == j);
        self.leaf_is_unique(PackedId::at(j), item.point);
    }

    /// Whatever is stored is found again: something is found at its point,
    /// which is the item itself where nothing else is stored at that point,
    /// and every box that holds its point yields it.
    pub proof fn stored_is_found(self, item: Item, region: Aabb)
        requires
            self@.contains(item),
        ensures
            exists|k: int| is_first_at(self@, item.point, k),
            (forall|j: int| 0 <= j < self@.len() && self@[j].point == item.point ==> self@[j]
                == item) ==> forall|k: int| is_first_at(self@, item.point, k) ==> self@[k] == item,
            region.contains(item.point) ==> self@.to_multiset().filter(in_region(region)).count(
                item,
            ) > 0,
    {
        broadcast use vstd::seq_lib::group_to_multiset_ensures;
        broadcast use vstd::multiset::group_multiset_axioms;

        let j = choose|j: int| 0 <= j < self@.len() && self@[j] == item;
        let first = choose_first_at(self@, item.point, j);
    }

    /// A leaf holds the stored items that lie in its cell, in the order of
    /// their arrival.
    pub proof fn leaf_keeps_arrival_order(self, b: PackedId)
        requires
            self.wf(),
            self.has_leaf(b),
        ensures
            self.leaf_items(b) == self@.filter(inside(self.leaf_cell(b))),
    {
        assert(self.bucket_ok(b.index(), None));
    }

    /// The leaf whose cell holds a point is the only such leaf, and it holds
    /// every stored item that lies in its cell, as often as the item is
    /// stored.
    pub proof fn leaf_holds_its_cell(self, b: PackedId, item: Item)
        requires
            self.wf(),
            self.has_leaf(b),
            self.leaf_cell(b).contains(item.point),
        ensures
            self.leaf_of(item.point) == b,
            self@.to_multiset().count(item) == self.leaf_items(b).to_multiset().count(item),
    {
        broadcast use vstd::seq_lib::group_to_multiset_ensures;

        self.leaf_is_unique(b, item.point);
        assert forall|j: int| 0 <= j < self.buckets@.len() && j != b.index() implies (
        #[trigger] self.buckets@[j])@.to_multiset().count(item) == 0 by {
            assert(self.bucket_ok(j, None));
            let items = self.buckets@[j]@;
            if items.to_multiset().count(item) != 0 {
                assert(items.contains(item));
                let k = choose|k: int| 0 <= k < items.len() && items[k] == item;
                assert(self.bucket_cells@[j].contains(items[k].point));
                assert(apart(self.bucket_cells@[j], self.bucket_cells@[b.index()]));
            }
        }
        total_count_single(self.buckets@, b.index(), item);
    }

    /// Number of branches.
    pub fn nodes_len(&self) -> (len: usize)
        ensures
            len == self.node_count(),
    {
        self.nodes.len()
    }

    /// Number of leaves.
    pub fn buckets_len(&self) -> (len: usize)
        ensures
            len == self.leaf_count(),
    {
        self.buckets.len()
    }

    /// The identifier of the object that was the first to arrive at the
    /// point, among those stored there.
    pub fn query_point(&self, point: Point) -> (found: Option<u64>)
        requires
            self.wf(),
        ensures
            found is Some <==> exists|k: int| is_first_at(self@, point, k),
            found matches Some(entity) ==> exists|k: int|
                is_first_at(self@, point, k) && self@[k].entity == entity,
    {
        if !self.contains_point(point) {
            proof {
                if exists|k: int| is_first_at(self@, point, k) {
                    let k = choose|k: int| is_first_at(self@, point, k);
                    assert(self@.contains(self@[k]));
                    self.stored_in_its_leaf(self@[k]);
                }
            }
            return None;
        }
        let bucket_id = self.find_bucket(point).1;
        let found = self.buckets.get(bucket_id).unwrap().find_at(point);
        proof {
            let log = self@;
            let cell = self.leaf_cell(bucket_id);
            let items = self.leaf_items(bucket_id);
            let wanted = |item: Item| item.point == point;
            self.leaf_keeps_arrival_order(bucket_id);
            match found {
                Some(entity) => {
                    let i = choose|i: int| is_first_at(items, point, i) && items[i].entity == entity;
                    origin_found(log, inside(cell), i);
                    first_has_first_origin(log, inside(cell), wanted, i);
                    let k = origin(log, inside(cell), i);
                    assert forall|j: int| 0 <= j < k implies log[j].point != point by {
                        assert(!(inside(cell)(log[j]) && wanted(log[j])));
                    }
                    assert(is_first_at(log, point, k));
                },
                None => {
                    assert forall|h: int| 0 <= h < items.len() implies !wanted(
                        #[trigger] items[h],
                    ) by {
                        if items[h].point == point {
                            let first = choose_first_at(items, point, h);
                        }
                    }
                    none_has_no_origin(log, inside(cell), wanted);
                    assert forall|k: int| !is_first_at(log, point, k) by {
                        if is_first_at(log, point, k) {
                            assert(!(inside(cell)(log[k]) && wanted(log[k])));
                        }
                    }
                },
            }
        }
        found
    }

    /// Whether something stored under `entity` lies in the cell of leaf `b`.
    pub open spec fn holds_under(self, b: PackedId, entity: u64) -> bool {
        exists|j: int|
            0 <= j < self@.len() && (#[trigger] self@[j]).entity == entity && self.leaf_cell(
                b,
            ).contains(self@[j].point)
    }

    /// Whether the item at place `k` is the first to have arrived among
    /// those stored under `entity` that lie in the cell of leaf `b`.
    pub open spec fn first_within(self, b: PackedId, entity: u64, k: int) -> bool {
        &&& 0 <= k < self@.len()
        &&& self@[k].entity == entity
        &&& self.leaf_cell(b).contains(self@[k].point)
        &&& forall|j: int|
            0 <= j < k ==> !((#[trigger] self@[j]).entity == entity && self.leaf_cell(b).contains(
                self@[j].point,
            ))
    }

    /// Whether `after` is this index without the first item to have arrived
    /// among those stored under `entity` that lie in the cell of leaf `b`.
    pub open spec fn without_first(self, b: PackedId, entity: u64, after: Tree) -> bool {
        exists|k: int| #[trigger] self.first_within(b, entity, k) && after@ == self@.remove(k)
    }

    /// Whether `after` has the branches and the links of this index, and its
    /// leaves, with the same cells and, apart from leaf `b`, the same items.
    pub open spec fn same_leaves_but(self, b: PackedId, after: Tree) -> bool {
        &&& after.domain() == self.domain()
        &&& after.depth_limit() == self.depth_limit()
        &&& after.node_count() == self.node_count()
        &&& after.leaf_count() == self.leaf_count()
        &&& after.root_link() == self.root_link()
        &&& forall|n: PackedId| #[trigger] after.has_node(n) == self.has_node(n)
        &&& forall|n: PackedId| #[trigger] after.node_parent(n) == self.node_parent(n)
        &&& forall|n: PackedId| #[trigger] after.node_cell(n) == self.node_cell(n)
        &&& forall|n: PackedId, half: Half| #[trigger]
            after.node_child(n, half) == self.node_child(n, half)
        &&& forall|c: PackedId|
            self.has_leaf(c) ==> #[trigger] after.leaf_parent(c) == self.leaf_parent(c)
        &&& forall|c: PackedId| #[trigger] after.has_leaf(c) == self.has_leaf(c)
        &&& forall|c: PackedId| #[trigger] after.leaf_cell(c) == self.leaf_cell(c)
        &&& forall|c: PackedId|
            self.has_leaf(c) && c != b ==> #[trigger] after.leaf_items(c) == self.leaf_items(c)
    }

    /// Takes the first item stored under `entity` out of a leaf.
    fn take_out(&mut self, bucket_id: PackedId, entity: u64) -> (found: bool)
        requires
            old(self).wf(),
            old(self).has_leaf(bucket_id),
        ensures
            final(self).wf(),
            old(self).same_leaves_but(bucket_id, *final(self)),
            found == old(self).holds_under(bucket_id, entity),
            found ==> old(self).without_first(bucket_id, entity, *final(self)),
            !found ==> final(self)@ == old(self)@,
    {
        let ghost before = *self;
        let ghost b = bucket_id.index();
        let ghost cell = self.bucket_cells@[b];
        let ghost log = self.arrivals@;
        let ghost items = self.buckets@[b]@;
        let ghost wanted = |item: Item| item.entity == entity;
        assert(before.bucket_ok(b, None));
        let found = match self.buckets.get_mut(bucket_id) {
            Some(bucket) => bucket.remove(entity),
            None => false,
        };
        proof {
            broadcast use vstd::seq_lib::group_to_multiset_ensures;

            assert(self.buckets@ =~= before.buckets@.update(b, self.buckets@[b]));
            total_update(before.buckets@, b, self.buckets@[b]);
            if found {
                let i = choose|i: int|
                    is_first_of(items, entity, i) && self.buckets@[b]@ == items.remove(i);
                let item = items[i];
                let k = origin(log, inside(cell), i);
                origin_found(log, inside(cell), i);
                first_has_first_origin(log, inside(cell), wanted, i);
                self.arrivals@ = log.remove(k);
                assert(before.first_within(bucket_id, entity, k)) by {
                    assert forall|j: int| 0 <= j < k implies !((#[trigger] log[j]).entity == entity
                        && cell.contains(log[j].point)) by {
                        assert(!(inside(cell)(log[j]) && wanted(log[j])));
                    }
                }
                assert(before.holds_under(bucket_id, entity));
                assert(self.buckets@[b]@.to_multiset() =~= items.to_multiset().remove(item));
                assert(self.sum() =~= before.sum().remove(item)) by {
                    assert forall|v: Item| self.sum().count(v) == before.sum().remove(item).count(
                        v,
                    ) by {
                        assert(self.sum().add(items.to_multiset()).count(v) == before.sum().add(
                            self.buckets@[b]@.to_multiset(),
                        ).count(v));
                    }
                }
                assert forall|j: int| 0 <= j < self.buckets@.len() implies #[trigger] self.bucket_ok(
                    j, None) by {
                    assert(before.bucket_ok(j, None));
                    filter_remove(log, inside(self.bucket_cells@[j]), k);
                    if j != b {
                        assert(apart(self.bucket_cells@[j], cell));
                    }
                }
            } else {
                assert(self.buckets@[b]@ == items);
                assert(!before.holds_under(bucket_id, entity)) by {
                    if before.holds_under(bucket_id, entity) {
                        let j = choose|j: int|
                            0 <= j < log.len() && (#[trigger] log[j]).entity == entity
                                && cell.contains(log[j].point);
                        kept_place(log, inside(cell), j);
                        let h = log.take(j).filter(inside(cell)).len() as int;
                        let first = choose_first_of(items, entity, h);
                    }
                }
                assert(self.sum() =~= before.sum()) by {
                    assert forall|v: Item| self.sum().count(v) == before.sum().count(v) by {
                        assert(self.sum().add(items.to_multiset()).count(v) == before.sum().add(
                            self.buckets@[b]@.to_multiset(),
                        ).count(v));
                    }
                }
                assert forall|j: int| 0 <= j < self.buckets@.len() implies #[trigger] self.bucket_ok(
                    j, None) by {
                    assert(before.bucket_ok(j, None));
                }
            }
            assert forall|i: int| 0 <= i < self.nodes@.len() implies #[trigger] self.node_ok(
                i,
                None,
            ) by {
                assert(before.node_ok(i, None));
            }
            self.covers_same_cells(before, None);
        }
        found
    }

    /// Removes an object by the leaf that holds it: the first to have
    /// arrived among the items under `entity` in the cell of that leaf. A
    /// handle that names no leaf, or a leaf that holds nothing under
    /// `entity`, is reported and changes nothing.
    pub fn remove_from(&mut self, bucket_id: PackedId, entity: u64) -> (res: Result<
        (),
        IndexError,
    >)
        requires
            old(self).wf(),
        ensures
            final(self).wf(),
            old(self).same_leaves_but(bucket_id, *final(self)),
            res is Ok <==> old(self).has_leaf(bucket_id) && old(self).holds_under(
                bucket_id,
                entity,
            ),
            res is Ok ==> old(self).without_first(bucket_id, entity, *final(self)),
            res is Err ==> res == Err::<(), IndexError>(IndexError::NotFound) && final(self)@
                == old(self)@,
    {
        if bucket_id.to_index() >= self.buckets.len() {
            return Err(IndexError::NotFound);
        }
        if self.take_out(bucket_id, entity) {
            Ok(())
        } else {
            Err(IndexError::NotFound)
        }
    }

    /// Removes an object by the place at which it was stored: the first to
    /// have arrived among the items under `entity` in the cell of the leaf
    /// that a descent towards `point` reaches. Succeeds whenever the object
    /// is stored at `point`; reports, and changes nothing, where that cell
    /// holds nothing under `entity`.
    pub fn remove(&mut self, entity: u64, point: Point) -> (res: Result<(), IndexError>)
        requires
            old(self).wf(),
        ensures
            final(self).wf(),
            old(self).same_leaves_but(old(self).leaf_of(point), *final(self)),
            res is Ok <==> old(self).in_domain(point) && old(self).holds_under(
                old(self).leaf_of(point),
                entity,
            ),
            old(self)@.contains(Item { entity, point }) ==> res is Ok,
            res is Ok ==> old(self).without_first(old(self).leaf_of(point), entity, *final(self)),
            res is Err ==> res == Err::<(), IndexError>(IndexError::NotFound) && final(self)@
                == old(self)@,
    {
        proof {
            if self@.contains(Item { entity, point }) {
                let item = Item { entity, point };
                self.stored_in_its_leaf(item);
                let j = choose|j: int| 0 <= j < self@.len() && self@[j] == item;
                assert(self.holds_under(self.leaf_of(point), entity));
            }
        }
        if !self.contains_point(point) {
            return Err(IndexError::NotFound);
        }
        let bucket_id = self.find_bucket(point).1;
        if self.take_out(bucket_id, entity) {
            Ok(())
        } else {
            Err(IndexError::NotFound)
        }
    }

    /// Whether the cell that the path has reached shares a point with the
    /// box, for all that their bounds show.
    fn may_meet(path: &BinaryPath, region: &Aabb) -> (hit: bool)
        ensures
            hit == meets(path@, *region),
    {
        let lower = path.lower();
        let upper = path.upper();
        let lo = region.min();
        let hi = region.max();
        lower.x <= hi.x && lo.x <= upper.x && lower.y <= hi.y && lo.y <= upper.y
    }

    /// Appends to `found` the items of a leaf that lie in the box.
    fn collect_leaf(&self, bucket_id: PackedId, region: &Aabb, found: &mut Vec<Item>)
        requires
            self.buckets.contains(bucket_id),
        ensures
            forall|v: Item|
                #![trigger final(found)@.to_multiset().count(v)]
                final(found)@.to_multiset().count(v) == old(found)@.to_multiset().count(v) + if region.contains(
                    v.point,
                ) {
                    self.buckets@[bucket_id.index()]@.to_multiset().count(v)
                } else {
                    0
                },
    {
        let bucket = self.buckets.get(bucket_id).unwrap();
        let ghost items = bucket@;
        let mut k: usize = 0;
        proof {
            broadcast use vstd::seq_lib::group_to_multiset_ensures;

            assert(items.take(0) =~= Seq::<Item>::empty());
            assert(items.take(0).to_multiset() =~= Multiset::<Item>::empty());
        }
        while k < bucket.len()
            invariant
                k <= items.len(),
                bucket@ == items,
                forall|v: Item|
                    #![trigger found@.to_multiset().count(v)]
                    found@.to_multiset().count(v) == old(found)@.to_multiset().count(v) + if region.contains(
                        v.point,
                    ) {
                        items.take(k as int).to_multiset().count(v)
                    } else {
                        0
                    },
            decreases items.len() - k,
        {
            let item = bucket.item(k);
            let ghost so_far = found@;
            proof {
                broadcast use vstd::seq_lib::group_to_multiset_ensures;

                assert(items.take(k + 1) =~= items.take(k as int).push(item));
                assert(items.take(k + 1).to_multiset() =~= items.take(k as int).to_multiset().insert(
                    item,
                ));
            }
            if region.includes(item.point) {
                found.push(item);
                proof {
                    broadcast use vstd::seq_lib::group_to_multiset_ensures;

                    assert(found@.to_multiset() =~= so_far.to_multiset().insert(item));
                }
            }
            k += 1;
        }
        assert(items.take(k as int) =~= items);
    }

    /// Appends to `found` the stored items that lie both in the cell below
    /// `child` and in the box. Halves that the box does not reach are not
    /// visited.
    fn collect(&self, child: Child, path: &BinaryPath, region: &Aabb, found: &mut Vec<Item>)
        requires
            self.wf(),
            self.leads_to(child, path@),
        ensures
            forall|v: Item|
                #![trigger final(found)@.to_multiset().count(v)]
                final(found)@.to_multiset().count(v) == old(found)@.to_multiset().count(v) + if path@.contains(
                    v.point,
                ) && region.contains(v.point) {
                    self.sum().count(v)
                } else {
                    0
                },
        decreases self.max_depth - path@.depth,
    {
        match child {
            Child::Bucket(bucket_id) => {
                self.collect_leaf(bucket_id, region, found);
                proof {
                    broadcast use vstd::seq_lib::group_to_multiset_ensures;

                    assert(self.bucket_ok(bucket_id.index(), None));
                    let items = self.buckets@[bucket_id.index()]@;
                    assert forall|v: Item|
                        #![trigger found@.to_multiset().count(v)]
                        found@.to_multiset().count(v) == old(found)@.to_multiset().count(v) + if path@.contains(
                            v.point,
                        ) && region.contains(v.point) {
                            self.sum().count(v)
                        } else {
                            0
                        } by {
                        if path@.contains(v.point) {
                            self.leaf_holds_its_cell(bucket_id, v);
                        } else if items.to_multiset().count(v) > 0 {
                            assert(items.contains(v));
                            let k = choose|k: int| 0 <= k < items.len() && items[k] == v;
                            assert(path@.contains(items[k].point));
                        }
                    }
                }
            },
            Child::Node(node_id) => {
                assert(self.node_ok(node_id.index(), None));
                let node = self.nodes.get(node_id).unwrap();
                let low = path.branch(Half::TopLeft);
                let high = path.branch(Half::BottomRight);
                let ghost start = found@;
                proof {
                    assert(self.link_ok(
                        node.child(Half::TopLeft),
                        Some(node_id.index()),
                        low@,
                    ));
                    assert(self.link_ok(
                        node.child(Half::BottomRight),
                        Some(node_id.index()),
                        high@,
                    ));
                }
                if Self::may_meet(&low, region) {
                    self.collect(node.get_child(Half::TopLeft), &low, region, found);
                }
                let ghost middle = found@;
                if Self::may_meet(&high, region) {
                    self.collect(node.get_child(Half::BottomRight), &high, region, found);
                }
                proof {
                    assert forall|v: Item|
                        #![trigger found@.to_multiset().count(v)]
                        found@.to_multiset().count(v) == start.to_multiset().count(v) + if path@.contains(
                            v.point,
                        ) && region.contains(v.point) {
                            self.sum().count(v)
                        } else {
                            0
                        } by {
                        path@.halves_partition(v.point);
                        assert(middle.to_multiset().count(v) == start.to_multiset().count(v) + if low@.contains(
                            v.point,
                        ) && region.contains(v.point) {
                            self.sum().count(v)
                        } else {
                            0
                        });
                        assert(found@.to_multiset().count(v) == middle.to_multiset().count(v) + if high@.contains(
                            v.point,
                        ) && region.contains(v.point) {
                            self.sum().count(v)
                        } else {
                            0
                        });
                    }
                }
            },
        }
    }

    /// The stored items that lie in the box, border included: every one of
    /// them, each as often as it is stored, in no particular order.
    pub fn query_region(&self, region: &Aabb) -> (found: Vec<Item>)
        requires
            self.wf(),
        ensures
            found@.to_multiset() == self@.to_multiset().filter(in_region(*region)),
    {
        let mut found: Vec<Item> = Vec::new();
        let path = BinaryPath::new(self.half_size, Point { x: 0, y: 0 });
        proof {
            broadcast use vstd::seq_lib::group_to_multiset_ensures;

            assert(found@.to_multiset() =~= Multiset::<Item>::empty());
        }
        self.collect(self.root, &path, region, &mut found);
        proof {
            broadcast use vstd::multiset::group_multiset_axioms;

            broadcast use vstd::seq_lib::group_to_multiset_ensures;

            assert forall|v: Item|
                found@.to_multiset().count(v) == self.sum().filter(in_region(*region)).count(v) by {
                if self.sum().count(v) > 0 {
                    self.stored_in_its_leaf(v);
                }
            }
            assert(found@.to_multiset() =~= self.sum().filter(in_region(*region)));
        }
        found
    }

    /// Every point of the domain lies in the cell of exactly one leaf.
    pub proof fn every_point_has_a_leaf(self, p: Point)
        requires
            self.wf(),
            self.in_domain(p),
        ensures
            self.has_leaf(self.leaf_of(p)),
            self.leaf_cell(self.leaf_of(p)).contains(p),
            forall|b: PackedId|
                self.has_leaf(b) && #[trigger] self.leaf_cell(b).contains(p) ==> b == self.leaf_of(
                    p,
                ),
    {
        assert(self.covered(p, None));
        let j = choose|j: int|
            0 <= j < self.buckets@.len() && (#[trigger] self.bucket_cells@[j]).contains(p);
        assert(PackedId::at(j).index() == j);
        self.leaf_is_unique(PackedId::at(j), p);
        assert forall|b: PackedId|
            self.has_leaf(b) && #[trigger] self.leaf_cell(b).contains(p) implies b == self.leaf_of(
            p,
        ) by {
            self.leaf_is_unique(b, p);
        }
    }

    /// What a leaf holds is stored, and lies in the cell of the leaf.
    pub proof fn leaf_items_are_stored(self, b: PackedId, item: Item)
        requires
            self.wf(),
            self.has_leaf(b),
            self.leaf_items(b).contains(item),
        ensures
            self@.contains(item),
            self.in_domain(item.point),
            self.leaf_cell(b).contains(item.point),
            self.leaf_of(item.point) == b,
    {
        broadcast use vstd::seq_lib::group_to_multiset_ensures;

        assert(self.bucket_ok(b.index(), None));
        let items = self.leaf_items(b);
        let k = choose|k: int| 0 <= k < items.len() && items[k] == item;
        assert(self.bucket_cells@[b.index()].contains(items[k].point));
        self.leaf_holds_its_cell(b, item);
    }

    /// No leaf holds more than it may, and no leaf lies deeper than the
    /// limit.
    pub proof fn leaves_are_bounded(self, b: PackedId)
        requires
            self.wf(),
            self.has_leaf(b),
        ensures
            self.leaf_items(b).len() <= CAPACITY,
            self.leaf_cell(b).depth <= self.depth_limit(),
            self.leaf_cell(b).wf(),
    {
        assert(self.bucket_ok(b.index(), None));
    }

    /// After the removal of an object that was stored once, nothing is
    /// stored under its identifier, and whatever else was stored still is.
    pub proof fn removed_is_gone(self, b: PackedId, entity: u64, after: Tree)
        requires
            self.without_first(b, entity, after),
            forall|i: int, j: int|
                0 <= i < self@.len() && 0 <= j < self@.len() && (#[trigger] self@[i]).entity
                    == entity && (#[trigger] self@[j]).entity == entity ==> i == j,
        ensures
            forall|j: int| 0 <= j < after@.len() ==> (#[trigger] after@[j]).entity != entity,
            forall|item: Item|
                item.entity != entity ==> after@.to_multiset().count(item)
                    == self@.to_multiset().count(item),
    {
        broadcast use vstd::seq_lib::group_to_multiset_ensures;
        broadcast use vstd::multiset::group_multiset_axioms;

        let k = choose|k: int| #[trigger]
            self.first_within(b, entity, k) && after@ == self@.remove(k);
        assert forall|j: int| 0 <= j < after@.len() implies (#[trigger] after@[j]).entity
            != entity by {
            if j < k {
                assert(after@[j] == self@[j]);
            } else {
                assert(after@[j] == self@[j + 1]);
            }
        }
    }

    /// A descent of one step more is the descent so far followed by one
    /// halving.
    proof fn descend_one_more(cell: Cell, p: Point, steps: nat)
        ensures
            cell.descend(p, steps + 1) == cell.descend(p, steps).child(
                cell.descend(p, steps).side(p),
            ),
        decreases steps,
    {
        if steps == 0 {
            assert(cell.descend(p, 1) == cell.child(cell.side(p)).descend(p, 0));
        } else {
            Self::descend_one_more(cell.child(cell.side(p)), p, (steps - 1) as nat);
            assert(cell.descend(p, steps + 1) == cell.child(cell.side(p)).descend(p, steps));
        }
    }

    /// At most one leaf has a cell that holds a given point.
    proof fn leaf_is_unique(self, b: PackedId, p: Point)
        requires
            self.wf() || exists|hole: Option<Hole>| self.inv(hole),
            self.buckets.contains(b),
            self.bucket_cells@[b.index()].contains(p),
        ensures
            self.leaf_of(p) == b,
    {
        let c = self.leaf_of(p);
        assert(self.buckets.contains(c) && self.bucket_cells@[c.index()].contains(p));
        if c != b {
            assert(apart(self.bucket_cells@[c.index()], self.bucket_cells@[b.index()]));
        }
    }
}

} // verus!
