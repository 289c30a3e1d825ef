//! What a spawned object is marked with.

use vstd::prelude::*;

verus! {

/// The markers of a spawned object.
#[derive(Debug, Clone, Copy, PartialEq, Eq, Structural)]
pub struct Markers {
    /// The local player commands the object.
    pub playable: bool,
    /// The object is solid and moves.
    pub movable: bool,
    /// The object is solid and stays where it is.
    pub fixed: bool,
}

/// The markers of an object that is `active` or not, that belongs to the
/// local player (`own`) or not, and that is an `attacker` or not. An active
/// object of the local player is playable. An active attacker moves; every
/// other object stays where it is.
pub fn markers(active: bool, own: bool, attacker: bool) -> (m: Markers)
    ensures
        m.playable == (active && own),
        m.movable == (active && attacker),
        m.fixed == !m.movable,
{
    let movable = active && attacker;
    Markers { playable: active && own, movable, fixed: !movable }
}

} // verus!
