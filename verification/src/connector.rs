//! The decisions of the game server that passes messages on between
//! players.
//!
//! The server knows the players that it has heard from. A message for the
//! players goes to every known player but its sender; a player to whom
//! delivery has failed is forgotten. Receiving and sending are left to the
//! caller: it reports what has happened and carries out what is decided.

use vstd::prelude::*;
use ahash::AHashSet;
use ahash::RandomState;

verus! {

#[verifier::external_type_specification]
#[verifier::external_body]
#[verifier::reject_recursive_types(T)]
#[verifier::reject_recursive_types(S)]
pub struct ExAHashSet<T, S>(AHashSet<T, S>);

#[verifier::external_type_specification]
#[verifier::external_body]
pub struct ExRandomState(RandomState);

/// The members of a set of addresses. An address stands as two numbers: the
/// host, and what tells the player from the others on that host.
pub uninterp spec fn members(set: AHashSet<(u128, u128), RandomState>) -> Set<(u128, u128)>;

/// `AHashSet::new`, which makes an empty `HashSet`: the set has no members.
#[verifier::external_body]
fn set_new() -> (set: AHashSet<(u128, u128), RandomState>)
    ensures
        members(set) == Set::<(u128, u128)>::empty(),
{
    AHashSet::new()
}

/// `HashSet::insert`, reached through `AHashSet`: the value is a member
/// afterwards, nothing else changes, and the result says whether the value
/// was no member before.
#[verifier::external_body]
fn set_insert(set: &mut AHashSet<(u128, u128), RandomState>, peer: (u128, u128)) -> (added: bool)
    ensures
        members(*final(set)) == members(*old(set)).insert(peer),
        added == !members(*old(set)).contains(peer),
{
    set.insert(peer)
}

/// `HashSet::remove`, reached through `AHashSet`: the value is no member
/// afterwards, nothing else changes, and the result says whether the value
/// was a member before.
#[verifier::external_body]
fn set_remove(set: &mut AHashSet<(u128, u128), RandomState>, peer: (u128, u128)) -> (removed: bool)
    ensures
        members(*final(set)) == members(*old(set)).remove(peer),
        removed == members(*old(set)).contains(peer),
{
    set.remove(&peer)
}

/// `HashSet::iter`, reached through `AHashSet`: every member is visited
/// once, in an order that nothing is said about.
#[verifier::external_body]
fn set_items(set: &AHashSet<(u128, u128), RandomState>) -> (items: Vec<(u128, u128)>)
    ensures
        items@.no_duplicates(),
        items@.to_set() == members(*set),
{
    set.iter().copied().collect()
}

/// What the server has learnt.
#[derive(Debug, Clone, Copy)]
pub enum Event {
    /// A message for the players has arrived.
    Message {
        /// Address of the sender: its host, and what tells it from the other
        /// players on that host.
        source: (u128, u128),
        /// Whether the message is to be delivered reliably.
        reliable: bool,
    },
    /// Delivery to a player has failed.
    Failure {
        /// Address of the player that could not be reached.
        target: (u128, u128),
    },
}

/// A message to be sent on.
#[derive(Debug)]
pub struct Outgoing {
    /// Whether the message is to be delivered reliably.
    pub reliable: bool,
    /// The players to send it to, each once.
    pub targets: Vec<(u128, u128)>,
}

/// The server's memory: the players that it has heard from.
pub struct GameProcessor {
    players: AHashSet<(u128, u128), RandomState>,
}

impl View for GameProcessor {
    type V = Set<(u128, u128)>;

    /// The addresses of the known players.
    closed spec fn view(&self) -> Set<(u128, u128)> {
        members(self.players)
    }
}

impl GameProcessor {
    /// A server that knows no player yet.
    pub fn new() -> (processor: GameProcessor)
        ensures
            processor@ == Set::<(u128, u128)>::empty(),
    {
        GameProcessor { players: set_new() }
    }

    /// The players to whom a message of `source` goes: every known player
    /// but `source`, each once, in no particular order.
    pub fn handle_players(&self, source: (u128, u128)) -> (targets: Vec<(u128, u128)>)
        ensures
            targets@.no_duplicates(),
            targets@.to_set() == self@.remove(source),
    {
        let players = set_items(&self.players);
        let mut targets: Vec<(u128, u128)> = Vec::new();
        let mut i: usize = 0;
        while i < players.len()
            invariant
                i <= players@.len(),
                players@.no_duplicates(),
                targets@.no_duplicates(),
                forall|k: int| 0 <= k < targets@.len() ==> players@.take(i as int).contains(
                    #[trigger] targets@[k],
                ) && targets@[k] != source,
                forall|k: int|
                    0 <= k < i && players@[k] != source ==> targets@.contains(
                        #[trigger] players@[k],
                    ),
            decreases players@.len() - i,
        {
            let player = players[i];
            let ghost before = targets@;
            if player.0 != source.0 || player.1 != source.1 {
                targets.push(player);
                proof {
                    assert forall|k: int| 0 <= k < i && players@[k] != source implies targets@.contains(
                        #[trigger] players@[k],
                    ) by {
                        let at = choose|at: int| 0 <= at < before.len() && before[at] == players@[k];
                        assert(targets@[at] == players@[k]);
                    }
                    assert(targets@[before.len() as int] == player);
                    assert forall|a: int, b: int|
                        0 <= a < targets@.len() && 0 <= b < targets@.len() && a
                            != b implies targets@[a] != targets@[b] by {
                        if a == before.len() && b < before.len() {
                            assert(players@.take(i as int).contains(before[b]));
                        }
                        if b == before.len() && a < before.len() {
                            assert(players@.take(i as int).contains(before[a]));
                        }
                    }
                }
            }
            proof {
                assert(players@.take(i + 1) =~= players@.take(i as int).push(player));
                assert forall|k: int| 0 <= k < targets@.len() implies players@.take(
                    i + 1,
                ).contains(#[trigger] targets@[k]) by {
                    if k < before.len() {
                        let at = choose|at: int|
                            0 <= at < players@.take(i as int).len() && players@.take(i as int)[at]
                                == targets@[k];
                        assert(players@.take(i + 1)[at] == targets@[k]);
                    } else {
                        assert(players@.take(i + 1)[i as int] == targets@[k]);
                    }
                }
            }
            i += 1;
        }
        proof {
            assert(players@.take(i as int) =~= players@);
            assert forall|peer: (u128, u128)|
                targets@.to_set().contains(peer) <==> self@.remove(source).contains(peer) by {
                if targets@.to_set().contains(peer) {
                    assert(targets@.contains(peer));
                    assert(players@.contains(peer));
                    assert(players@.to_set().contains(peer));
                }
                if self@.remove(source).contains(peer) {
                    assert(players@.to_set().contains(peer));
                    assert(players@.contains(peer));
                    let k = choose|k: int| 0 <= k < players@.len() && players@[k] == peer;
                    assert(targets@.contains(players@[k]));
                }
            }
            assert(targets@.to_set() =~= self@.remove(source));
        }
        targets
    }

    /// Takes note of what has happened and decides what to send. The sender
    /// of a message is known from then on, and its message goes to every
    /// other known player. A player to whom delivery failed is forgotten,
    /// and nothing is sent.
    pub fn step(&mut self, event: Event) -> (action: Option<Outgoing>)
        ensures
            match event {
                Event::Message { source, reliable } => {
                    &&& final(self)@ == old(self)@.insert(source)
                    &&& action is Some
                    &&& action->Some_0.reliable == reliable
                    &&& action->Some_0.targets@.no_duplicates()
                    &&& action->Some_0.targets@.to_set() == old(self)@.remove(source)
                },
                Event::Failure { target } => {
                    &&& final(self)@ == old(self)@.remove(target)
                    &&& action is None
                },
            },
    {
        match event {
            Event::Message { source, reliable } => {
                let _ = set_insert(&mut self.players, source);
                let targets = self.handle_players(source);
                assert(old(self)@.insert(source).remove(source) =~= old(self)@.remove(source));
                Some(Outgoing { reliable, targets })
            },
            Event::Failure { target } => {
                let _ = set_remove(&mut self.players, target);
                None
            },
        }
    }
}

} // verus!
