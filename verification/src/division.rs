//! What the division of full leaves makes of an insertion.
//!
//! A leaf that is full when a new item arrives is divided along the next
//! axis of its cell. The insertion goes on in the half on the side of the
//! new point, and ends where the item finds room, where the depth limit is
//! reached, or where an arena has no handle left.

use vstd::prelude::*;
use crate::bucket::{Item, CAPACITY};
use crate::error::IndexError;
use crate::geometry::Point;
use crate::order::{filter_all, filter_fewer};
use crate::packed::MAX_LEN;
use crate::path::{Cell, Half};

verus! {

/// The test that keeps the items on the given side of the cell's dividing
/// line.
pub open spec fn on_side(cell: Cell, half: Half) -> spec_fn(Item) -> bool {
    |item: Item| cell.side(item.point) == half
}

/// The test that keeps the items that lie in the cell.
pub open spec fn inside(cell: Cell) -> spec_fn(Item) -> bool {
    |item: Item| cell.contains(item.point)
}

/// How an insertion at `p` ends that finds the leaf for `p` covering `cell`
/// and holding `items`, at a time when the arenas hold `nodes` branches and
/// `leaves` leaves, where no leaf may lie deeper than `limit`. A leaf with
/// room takes the item. A full leaf is divided, which takes one branch and,
/// on balance, one leaf more, and the insertion goes on in the half on the
/// side of `p`; it fails where the leaf lies at the limit already, or where
/// an arena has no handle left.
pub open spec fn outcome(
    cell: Cell,
    items: Seq<Item>,
    p: Point,
    limit: nat,
    nodes: nat,
    leaves: nat,
) -> Result<(), IndexError>
    decreases limit - cell.depth,
{
    if items.len() < CAPACITY {
        Ok(())
    } else if cell.depth >= limit {
        Err(IndexError::SplitDepthExceeded)
    } else if nodes >= MAX_LEN || leaves >= MAX_LEN {
        Err(IndexError::Exhausted)
    } else {
        outcome(
            cell.child(cell.side(p)),
            items.filter(on_side(cell, cell.side(p))),
            p,
            limit,
            nodes + 1,
            leaves + 1,
        )
    }
}

/// How many leaves an insertion divides that `outcome` describes.
pub open spec fn divisions(
    cell: Cell,
    items: Seq<Item>,
    p: Point,
    limit: nat,
    nodes: nat,
    leaves: nat,
) -> nat
    decreases limit - cell.depth,
{
    if items.len() < CAPACITY || cell.depth >= limit || nodes >= MAX_LEN || leaves >= MAX_LEN {
        0
    } else {
        1 + divisions(
            cell.child(cell.side(p)),
            items.filter(on_side(cell, cell.side(p))),
            p,
            limit,
            nodes + 1,
            leaves + 1,
        )
    }
}

/// The cell in which `q` comes to lie when `cell` is divided `made` times
/// towards `p`: the half in which `q` parts from `p`, or the last half on
/// the way to `p` if it does not.
pub open spec fn divided(cell: Cell, p: Point, q: Point, made: nat) -> Cell
    decreases made,
{
    if made == 0 {
        cell
    } else if cell.side(q) == cell.side(p) {
        divided(cell.child(cell.side(p)), p, q, (made - 1) as nat)
    } else {
        cell.child(cell.side(q))
    }
}

/// The cell of the leaf that stands in `slot` after a leaf covering `whole`
/// has been divided `made` times towards `p`, in an arena that held
/// `leaves` leaves before, for the slots from the last of them onwards.
/// These slots hold, in this order, the halves that were not divided
/// further and then the two halves of the last division.
pub open spec fn new_cell(whole: Cell, p: Point, made: nat, leaves: nat, slot: int) -> Cell {
    let level = slot - (leaves - 1);
    if level <= made - 2 {
        let cell = whole.descend(p, level as nat);
        cell.child(cell.side(p).other())
    } else if level == made - 1 {
        whole.descend(p, (made - 1) as nat).child(Half::TopLeft)
    } else {
        whole.descend(p, (made - 1) as nat).child(Half::BottomRight)
    }
}

/// One more division divides only the cell on the way to `p`: a point that
/// lies there comes to lie in the half on its side, and every other point
/// stays in its cell.
pub proof fn divided_once_more(cell: Cell, p: Point, q: Point, made: nat)
    requires
        cell.wf(),
        cell.contains(p),
        cell.contains(q),
    ensures
        divided(cell, p, q, made).contains(q),
        cell.descend(p, made).contains(q) ==> divided(cell, p, q, made) == cell.descend(p, made)
            && divided(cell, p, q, made + 1) == cell.descend(p, made).child(
            cell.descend(p, made).side(q),
        ),
        !cell.descend(p, made).contains(q) ==> divided(cell, p, q, made + 1) == divided(
            cell,
            p,
            q,
            made,
        ),
    decreases made,
{
    cell.halves_partition(p);
    cell.halves_partition(q);
    if made == 0 {
        assert(cell.descend(p, 0) == cell);
        assert(divided(cell, p, q, 1) == cell.child(cell.side(q))) by {
            if cell.side(q) == cell.side(p) {
                assert(divided(cell.child(cell.side(p)), p, q, 0) == cell.child(cell.side(p)));
            }
        }
    } else {
        let next = cell.child(cell.side(p));
        cell.child_wf(cell.side(p));
        assert(cell.descend(p, made) == next.descend(p, (made - 1) as nat));
        if cell.side(q) == cell.side(p) {
            divided_once_more(next, p, q, (made - 1) as nat);
            assert(divided(cell, p, q, made + 1) == divided(next, p, q, made));
        } else {
            if cell.descend(p, made).contains(q) {
                next.descend_narrows(p, (made - 1) as nat, q);
            }
        }
    }
}

/// A full leaf whose items do not all lie on the side of the new point
/// takes the new point after one division, where the depth limit and the
/// arenas allow one: neither half holds more than a leaf may, and the
/// half on the side of the new point has room.
pub proof fn one_division_suffices(
    cell: Cell,
    items: Seq<Item>,
    p: Point,
    limit: nat,
    nodes: nat,
    leaves: nat,
)
    requires
        items.len() == CAPACITY,
        cell.depth < limit,
        nodes < MAX_LEN,
        leaves < MAX_LEN,
        exists|i: int| 0 <= i < items.len() && cell.side(items[i].point) != cell.side(p),
    ensures
        outcome(cell, items, p, limit, nodes, leaves) == Ok::<(), IndexError>(()),
        divisions(cell, items, p, limit, nodes, leaves) == 1,
        items.filter(on_side(cell, cell.side(p))).len() < CAPACITY,
        items.filter(on_side(cell, Half::TopLeft)).len() <= CAPACITY,
        items.filter(on_side(cell, Half::BottomRight)).len() <= CAPACITY,
{
    let i = choose|i: int| 0 <= i < items.len() && cell.side(items[i].point) != cell.side(p);
    let kept = items.filter(on_side(cell, cell.side(p)));
    filter_fewer(items, on_side(cell, cell.side(p)), i);
    halves_share_out(cell, items);
    assert(outcome(cell.child(cell.side(p)), kept, p, limit, nodes + 1, leaves + 1) == Ok::<
        (),
        IndexError,
    >(()));
    assert(divisions(cell.child(cell.side(p)), kept, p, limit, nodes + 1, leaves + 1) == 0);
}

/// A full leaf whose items all lie where the new point lies cannot take
/// it: the divisions reach the depth limit, where the arenas allow that
/// many.
pub proof fn coincident_points_exceed_depth(
    cell: Cell,
    items: Seq<Item>,
    p: Point,
    limit: nat,
    nodes: nat,
    leaves: nat,
)
    requires
        items.len() >= CAPACITY,
        forall|i: int| 0 <= i < items.len() ==> (#[trigger] items[i]).point == p,
        cell.depth <= limit,
        nodes + (limit - cell.depth) <= MAX_LEN,
        leaves + (limit - cell.depth) <= MAX_LEN,
    ensures
        outcome(cell, items, p, limit, nodes, leaves) == Err::<(), IndexError>(
            IndexError::SplitDepthExceeded,
        ),
        divisions(cell, items, p, limit, nodes, leaves) == limit - cell.depth,
    decreases limit - cell.depth,
{
    if cell.depth < limit {
        let keep = on_side(cell, cell.side(p));
        filter_all(items, keep);
        coincident_points_exceed_depth(
            cell.child(cell.side(p)),
            items.filter(keep),
            p,
            limit,
            nodes + 1,
            leaves + 1,
        );
    }
}

/// The two halves of a cell share out the items between them.
pub proof fn halves_share_out(cell: Cell, items: Seq<Item>)
    ensures
        items.filter(on_side(cell, Half::TopLeft)).len() + items.filter(
            on_side(cell, Half::BottomRight),
        ).len() == items.len(),
    decreases items.len(),
{
    reveal(Seq::filter);
    if items.len() > 0 {
        halves_share_out(cell, items.drop_last());
    }
}

} // verus!
