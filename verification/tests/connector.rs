use point_index::connector::{Event, GameProcessor};

fn sorted(mut peers: Vec<(u128, u128)>) -> Vec<(u128, u128)> {
    peers.sort();
    peers
}

const ANNA: (u128, u128) = (0xffff_c0a8_0001, 8082);
const BORIS: (u128, u128) = (0xffff_c0a8_0002, 8082);
const BORIS_TOO: (u128, u128) = (0xffff_c0a8_0002, 9000);
const CLARA: (u128, u128) = (1, 8082);

#[test]
fn first_message_has_nobody_to_go_to() {
    let mut server = GameProcessor::new();
    assert!(server.handle_players(ANNA).is_empty());
    let out = server.step(Event::Message { source: ANNA, reliable: true }).unwrap();
    assert!(out.reliable);
    assert!(out.targets.is_empty());
}

#[test]
fn message_goes_to_everybody_else() {
    let mut server = GameProcessor::new();
    for source in [ANNA, BORIS, CLARA] {
        assert!(server.step(Event::Message { source, reliable: false }).is_some());
    }
    let out = server.step(Event::Message { source: BORIS, reliable: false }).unwrap();
    assert!(!out.reliable);
    assert_eq!(sorted(out.targets), vec![CLARA, ANNA]);
    assert_eq!(sorted(server.handle_players(CLARA)), vec![ANNA, BORIS]);
    // somebody unknown would reach all three
    assert_eq!(sorted(server.handle_players(BORIS_TOO)), vec![CLARA, ANNA, BORIS]);
}

#[test]
fn same_host_other_port_is_another_player() {
    let mut server = GameProcessor::new();
    assert!(server.step(Event::Message { source: BORIS, reliable: true }).is_some());
    let out = server.step(Event::Message { source: BORIS_TOO, reliable: true }).unwrap();
    assert_eq!(out.targets, vec![BORIS]);
}

#[test]
fn unreachable_player_is_forgotten() {
    let mut server = GameProcessor::new();
    for source in [ANNA, BORIS, CLARA] {
        assert!(server.step(Event::Message { source, reliable: true }).is_some());
    }
    assert!(server.step(Event::Failure { target: BORIS }).is_none());
    assert!(server.step(Event::Failure { target: BORIS }).is_none());
    let out = server.step(Event::Message { source: ANNA, reliable: true }).unwrap();
    assert_eq!(out.targets, vec![CLARA]);
    // a forgotten player is known again once it is heard from
    let out = server.step(Event::Message { source: BORIS, reliable: true }).unwrap();
    assert_eq!(sorted(out.targets), vec![CLARA, ANNA]);
}

#[test]
fn repeated_sender_is_known_once() {
    let mut server = GameProcessor::new();
    for _ in 0..3 {
        assert!(server.step(Event::Message { source: ANNA, reliable: true }).is_some());
    }
    assert_eq!(server.handle_players(BORIS), vec![ANNA]);
}
