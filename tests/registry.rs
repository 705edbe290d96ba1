use terrain_sync::{Event, Player, Registry};

fn bits(v: f32) -> u32 {
    v.to_bits()
}

#[test]
fn create_returns_fresh_player_at_given_position() {
    let mut reg = Registry::new();
    let (p, e) = reg.create_player(bits(10.0), bits(20.0));
    assert_eq!(p.id, "player_1");
    assert_eq!(f32::from_bits(p.x), 10.0);
    assert_eq!(f32::from_bits(p.z), 20.0);
    assert_eq!(e, Event::Created { player: p.clone() });
    assert_eq!(reg.get_players(), vec![p]);
}

#[test]
fn created_ids_are_distinct_and_in_order() {
    let mut reg = Registry::new();
    let mut ids: Vec<String> = Vec::new();
    for i in 0..12u32 {
        let (p, _) = reg.create_player(i, i);
        ids.push(p.id);
    }
    assert_eq!(ids[0], "player_1");
    assert_eq!(ids[9], "player_10");
    assert_eq!(ids[11], "player_12");
    for i in 0..ids.len() {
        for j in (i + 1)..ids.len() {
            assert_ne!(ids[i], ids[j]);
        }
    }
    assert_eq!(reg.issued(), 12);
}

#[test]
fn ids_are_not_reused_after_clear() {
    let mut reg = Registry::new();
    let (a, _) = reg.create_player(1, 1);
    reg.clear_players();
    let (b, _) = reg.create_player(2, 2);
    assert_eq!(a.id, "player_1");
    assert_eq!(b.id, "player_2");
}

#[test]
fn move_known_player_updates_in_place() {
    let mut reg = Registry::new();
    let (a, _) = reg.create_player(bits(1.0), bits(2.0));
    let (b, _) = reg.create_player(bits(3.0), bits(4.0));
    let e = reg.move_player(&b.id, bits(5.0), bits(6.0));
    assert_eq!(e, Some(Event::Moved { id: "player_2".to_string(), x: bits(5.0), z: bits(6.0) }));
    let list = reg.get_players();
    assert_eq!(list[0], a);
    assert_eq!(list[1], Player { id: "player_2".to_string(), x: bits(5.0), z: bits(6.0) });
}

#[test]
fn move_unknown_player_is_not_found_and_changes_nothing() {
    let mut reg = Registry::new();
    let before = reg.get_players();
    let e = reg.move_player(&"player_1".to_string(), bits(5.0), bits(5.0));
    assert_eq!(e, None);
    assert_eq!(reg.get_players(), before);
    reg.create_player(bits(1.0), bits(1.0));
    let before = reg.get_players();
    assert_eq!(reg.move_player(&"player_7".to_string(), bits(5.0), bits(5.0)), None);
    assert_eq!(reg.get_players(), before);
    assert_eq!(reg.issued(), 1);
}

#[test]
fn clear_empties_the_registry() {
    let mut reg = Registry::new();
    reg.create_player(1, 2);
    reg.create_player(3, 4);
    let e = reg.clear_players();
    assert_eq!(e, Event::AllCleared);
    assert!(reg.get_players().is_empty());
    let e = reg.clear_players();
    assert_eq!(e, Event::AllCleared);
    assert!(reg.get_players().is_empty());
}

#[test]
fn list_is_a_copy_in_creation_order() {
    let mut reg = Registry::new();
    reg.create_player(7, 8);
    reg.create_player(9, 10);
    let list = reg.get_players();
    reg.move_player(&"player_1".to_string(), 0, 0);
    assert_eq!(list[0].x, 7);
    assert_eq!(list[1].id, "player_2");
    assert_eq!(reg.get_players()[0].x, 0);
}

#[test]
fn duplicate_keeps_every_field() {
    let p = Player { id: "player_3".to_string(), x: 5, z: 6 };
    assert_eq!(p.duplicate(), p);
}
