use terrain_sync::{Action, Event, Phase, Player, Registry, Session, Signal};

fn sent(a: Action) -> Event {
    match a {
        Action::Send { event } => event,
        _ => panic!("expected a message to send"),
    }
}

/// What a subscriber makes of the messages it receives.
fn mirror(state: &mut Vec<Player>, e: &Event) {
    match e {
        Event::Created { player } => match state.iter_mut().find(|p| p.id == player.id) {
            Some(p) => {
                p.x = player.x;
                p.z = player.z;
            }
            None => state.push(player.clone()),
        },
        Event::Moved { id, x, z } => {
            for p in state.iter_mut() {
                if p.id == *id {
                    p.x = *x;
                    p.z = *z;
                }
            }
        }
        Event::Removed { id } => state.retain(|p| p.id != *id),
        Event::AllCleared => state.clear(),
        Event::InitialState { players } => *state = players.clone(),
    }
}

#[test]
fn attached_subscriber_receives_created_player() {
    let mut reg = Registry::new();
    let mut s = Session::new();
    assert_eq!(s.phase(), Phase::Attaching);
    let first = sent(s.handle(Signal::Attached { snapshot: reg.get_players() }));
    assert_eq!(first, Event::InitialState { players: vec![] });
    assert_eq!(s.phase(), Phase::Streaming);
    let (p, e) = reg.create_player(10.0f32.to_bits(), 20.0f32.to_bits());
    let got = sent(s.handle(Signal::Published { event: e }));
    assert_eq!(got, Event::Created { player: p.clone() });
    assert_eq!(p.id, "player_1");
    assert_eq!(f32::from_bits(p.x), 10.0);
    assert_eq!(f32::from_bits(p.z), 20.0);
}

#[test]
fn replayed_messages_match_the_registry() {
    let mut reg = Registry::new();
    reg.create_player(1, 1);
    reg.create_player(2, 2);
    let mut s = Session::new();
    let mut held: Vec<Player> = vec![Player { id: "stale".to_string(), x: 0, z: 0 }];
    let first = sent(s.handle(Signal::Attached { snapshot: reg.get_players() }));
    mirror(&mut held, &first);
    let mut events: Vec<Event> = Vec::new();
    events.push(reg.move_player(&"player_2".to_string(), 9, 9).unwrap());
    events.push(reg.create_player(3, 3).1);
    events.push(reg.clear_players());
    events.push(reg.create_player(4, 4).1);
    events.push(reg.move_player(&"player_4".to_string(), 5, 6).unwrap());
    for e in events {
        let out = sent(s.handle(Signal::Published { event: e }));
        mirror(&mut held, &out);
    }
    assert_eq!(held, reg.get_players());
    assert_eq!(held, vec![Player { id: "player_4".to_string(), x: 5, z: 6 }]);
}

#[test]
fn events_are_forwarded_in_publication_order() {
    let mut s = Session::new();
    s.handle(Signal::Attached { snapshot: vec![] });
    let a = Event::Moved { id: "player_1".to_string(), x: 1, z: 1 };
    let b = Event::Moved { id: "player_1".to_string(), x: 2, z: 2 };
    assert_eq!(sent(s.handle(Signal::Published { event: a.clone() })), a);
    assert!(matches!(s.handle(Signal::Received), Action::Idle));
    assert_eq!(sent(s.handle(Signal::Published { event: b.clone() })), b);
}

#[test]
fn cleared_event_reaches_attached_subscribers() {
    let mut reg = Registry::new();
    reg.create_player(1, 1);
    let mut s1 = Session::new();
    let mut s2 = Session::new();
    s1.handle(Signal::Attached { snapshot: reg.get_players() });
    s2.handle(Signal::Attached { snapshot: reg.get_players() });
    let e = reg.clear_players();
    assert_eq!(sent(s1.handle(Signal::Published { event: e.clone() })), Event::AllCleared);
    assert_eq!(sent(s2.handle(Signal::Published { event: e })), Event::AllCleared);
    assert!(reg.get_players().is_empty());
}

#[test]
fn lagging_subscriber_is_disconnected() {
    let mut s = Session::new();
    s.handle(Signal::Attached { snapshot: vec![] });
    assert!(matches!(s.handle(Signal::Lagged), Action::Close));
    assert_eq!(s.phase(), Phase::Closed);
    assert!(matches!(s.handle(Signal::Published { event: Event::AllCleared }), Action::Idle));
}

#[test]
fn encode_failure_skips_one_message() {
    let mut s = Session::new();
    s.handle(Signal::Attached { snapshot: vec![] });
    assert!(matches!(s.handle(Signal::EncodeFailed), Action::Idle));
    assert_eq!(s.phase(), Phase::Streaming);
    assert_eq!(sent(s.handle(Signal::Published { event: Event::AllCleared })), Event::AllCleared);
}

#[test]
fn either_side_closing_ends_the_session() {
    for end in [Signal::WriteFailed, Signal::ReceiveClosed, Signal::BusClosed] {
        let mut s = Session::new();
        s.handle(Signal::Attached { snapshot: vec![] });
        assert!(matches!(s.handle(end), Action::Close));
        assert_eq!(s.phase(), Phase::Closed);
        assert!(matches!(s.handle(Signal::Received), Action::Idle));
    }
}

#[test]
fn failed_first_write_closes_before_streaming() {
    let mut s = Session::new();
    assert!(matches!(s.handle(Signal::WriteFailed), Action::Close));
    assert_eq!(s.phase(), Phase::Closed);
    assert!(matches!(s.handle(Signal::Attached { snapshot: vec![] }), Action::Idle));
}
