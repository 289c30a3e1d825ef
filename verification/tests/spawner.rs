use point_index::spawner::{markers, Markers};

#[test]
fn own_attacker_is_playable_and_moves() {
    assert_eq!(markers(true, true, true), Markers { playable: true, movable: true, fixed: false });
}

#[test]
fn foreign_attacker_moves_but_is_not_playable() {
    assert_eq!(markers(true, false, true), Markers { playable: false, movable: true, fixed: false });
}

#[test]
fn buildings_stay() {
    assert_eq!(markers(true, true, false), Markers { playable: true, movable: false, fixed: true });
    assert_eq!(markers(true, false, false), Markers { playable: false, movable: false, fixed: true });
}

#[test]
fn inactive_objects_only_stay() {
    for own in [false, true] {
        for attacker in [false, true] {
            assert_eq!(
                markers(false, own, attacker),
                Markers { playable: false, movable: false, fixed: true }
            );
        }
    }
}
