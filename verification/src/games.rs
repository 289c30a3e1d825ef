//! Games as the lobby keeps them: a configuration and the players who joined.

use vstd::prelude::*;

verus! {

/// Longest name that a game may have, in bytes.
pub const MAX_GAME_NAME_LEN: usize = 32;

/// What the author of a game chooses.
pub struct GameConfig {
    name: String,
    max_players: u8,
}

impl GameConfig {
    /// The game's name, as a specification.
    pub closed spec fn name_text(self) -> Seq<char> {
        self.name@
    }

    /// The largest number of players, as a specification.
    pub closed spec fn player_limit(self) -> u8 {
        self.max_players
    }

    pub fn new(name: String, max_players: u8) -> (config: GameConfig)
        ensures
            config.name_text() == name@,
            config.player_limit() == max_players,
    {
        GameConfig { name, max_players }
    }

    pub fn name(&self) -> (name: &str)
        ensures
            name@ == self.name_text(),
    {
        self.name.as_str()
    }

    pub fn max_players(&self) -> (max_players: u8)
        ensures
            max_players == self.player_limit(),
    {
        self.max_players
    }
}

/// A game and the names of its players, the author first.
pub struct Game {
    config: GameConfig,
    players: Vec<String>,
}

impl Game {
    /// The configuration, as a specification.
    pub closed spec fn settings(self) -> GameConfig {
        self.config
    }

    /// The players' names in the order of their joining, as a specification.
    pub closed spec fn player_names(self) -> Seq<Seq<char>> {
        Seq::new(self.players@.len(), |i: int| self.players@[i]@)
    }

    /// A game that only its author has joined.
    pub fn new(config: GameConfig, author: String) -> (game: Game)
        ensures
            game.settings() == config,
            game.player_names() == seq![author@],
    {
        let mut players: Vec<String> = Vec::new();
        players.push(author);
        let game = Game { config, players };
        assert(game.player_names() =~= seq![author@]);
        game
    }

    pub fn config(&self) -> (config: &GameConfig)
        ensures
            *config == self.settings(),
    {
        &self.config
    }

    /// The players' names in the order of their joining.
    pub fn players(&self) -> (players: &Vec<String>)
        ensures
            players@.len() == self.player_names().len(),
            forall|i: int| 0 <= i < players@.len() ==> players@[i]@ == self.player_names()[i],
    {
        &self.players
    }
}

} // verus!
