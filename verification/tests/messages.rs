use point_index::games::{Game, GameConfig, MAX_GAME_NAME_LEN};
use point_index::messages::{FromPlayers, ToPlayers};

#[test]
fn message_keeps_its_sender() {
    let message = FromPlayers::new(3, ToPlayers::Empty);
    assert_eq!(message.source(), 3);
    assert_eq!(*message.message(), ToPlayers::Empty);
    assert_eq!(FromPlayers::new(255, ToPlayers::Empty).source(), 255);
}

#[test]
fn game_starts_with_its_author() {
    let config = GameConfig::new(String::from("First Game"), 4);
    assert_eq!(config.name(), "First Game");
    assert_eq!(config.max_players(), 4);
    let game = Game::new(config, String::from("Indy"));
    assert_eq!(game.config().name(), "First Game");
    assert_eq!(game.config().max_players(), 4);
    assert_eq!(game.players(), &vec![String::from("Indy")]);
}

#[test]
fn game_names_have_a_longest_length() {
    assert_eq!(MAX_GAME_NAME_LEN, 32);
}
