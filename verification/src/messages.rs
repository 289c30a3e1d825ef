//! Messages that players exchange through the game server.

use vstd::prelude::*;

verus! {

/// A message on its way to other players. No kind of message with content
/// exists yet: `Empty` stands in, since Verus admits no enum without a
/// variant.
#[derive(Debug, Clone, Copy, PartialEq, Eq, Structural)]
pub enum ToPlayers {
    /// A message without content: the only kind there is so far.
    Empty,
}

/// A message as the other players receive it: what was sent, and by whom.
#[derive(Debug)]
pub struct FromPlayers {
    /// ID of the sending player.
    source: u8,
    /// The message as it was sent.
    message: ToPlayers,
}

impl FromPlayers {
    /// The sender, as a specification.
    pub closed spec fn sender(self) -> u8 {
        self.source
    }

    /// The message carried, as a specification.
    pub closed spec fn content(self) -> ToPlayers {
        self.message
    }

    pub fn new(source: u8, message: ToPlayers) -> (this: FromPlayers)
        ensures
            this.sender() == source,
            this.content() == message,
    {
        FromPlayers { source, message }
    }

    /// ID of the sending player.
    pub fn source(&self) -> (source: u8)
        ensures
            source == self.sender(),
    {
        self.source
    }

    pub fn message(&self) -> (message: &ToPlayers)
        ensures
            *message == self.content(),
    {
        &self.message
    }
}

} // verus!
