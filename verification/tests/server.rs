use std::collections::HashMap;

use black_sea::float::F32;
use black_sea::plain::server::{
    can_take, handle as plain_handle, load_map, recv_event as strict_recv_event,
};
use black_sea::protocol::{AnchorPoint, GameEvent, Position};
use black_sea::server::handler::{
    can_handle, handle, Action, BoatEntry, BoatMap, Client, Envelope, Input, Metric, OverviewData, Phase, World,
};
use black_sea::server::spawn::Offset;
use black_sea::tiles::{MapGrid, Tile};
use black_sea::transport::{recv_event, Incoming, Received};

fn f(v: f32) -> F32 {
    F32::from_bits(v.to_bits())
}

fn num(v: F32) -> f32 {
    f32::from_bits(v.to_bits())
}

fn at(x: f32, y: f32) -> Position {
    Position { x: f(x), y: f(y) }
}

fn world() -> World {
    let mut grid = vec![vec![Tile::Water; 6000]; 4];
    grid[3][4592] = Tile::Land;
    grid[0][1] = Tile::Coast;
    World {
        version: "1.2.3".to_string(),
        map: MapGrid { grid, width: 6000, height: 4, chunk_size: 2 },
        metres_per_tile: f(20.0),
        overview: OverviewData {
            width: 2,
            height: 1,
            data: vec![Tile::Water, Tile::Land],
        },
        anchors: vec![AnchorPoint {
            id: 4,
            name: "Sandhamn".to_string(),
            position: at(1.0, 2.0),
            note: Some("calm".to_string()),
        }],
    }
}

fn offset(x: f32, y: f32) -> Offset {
    Offset { x: f(x), y: f(y) }
}

fn client() -> Client {
    Client { id: 5, phase: Phase::Registering }
}

fn boat(x: f32, y: f32, name: &str) -> BoatEntry {
    BoatEntry { position: at(x, y), name: name.to_string() }
}

/// A client whose boat is at (10, 1), and another boat at (20, 1).
fn sailing() -> (Client, BoatMap) {
    let mut boats: BoatMap = HashMap::new();
    boats.insert(5, boat(10.0, 1.0, "Ada"));
    boats.insert(6, boat(20.0, 1.0, "Bea"));
    (Client { id: 5, phase: Phase::Sailing }, boats)
}

#[test]
fn a_client_from_its_arrival_to_its_first_move() {
    let world = world();
    let mut boats: BoatMap = HashMap::new();
    boats.insert(6, boat(4610.0, 3.0, "Bea"));
    let mut client = client();

    let actions = handle(&mut client, &mut boats, &world, Input::Opened);
    assert_eq!(actions.len(), 1);
    match &actions[0] {
        Action::Send(GameEvent::ServerVersionEvent { version }) => assert_eq!(version, "1.2.3"),
        other => panic!("unexpected {other:?}"),
    }

    // Anything but a name is ignored.
    let early = Input::Received(Some(GameEvent::MapChunkRequest { chunk_x: 0, chunk_y: 0 }));
    assert!(handle(&mut client, &mut boats, &world, early).is_empty());
    let name = GameEvent::RegisterEvent { name: "Ada".to_string() };
    assert!(handle(&mut client, &mut boats, &world, Input::Received(Some(name))).is_empty());

    // The first place is land, the second free.
    let places = Input::Drawn(vec![offset(2.0, 0.0), offset(-3.0, 0.0)]);
    let actions = handle(&mut client, &mut boats, &world, places);
    assert_eq!(actions.len(), 2);
    match &actions[0] {
        Action::Send(GameEvent::HelloEvent { your_id, start_position }) => {
            assert_eq!(*your_id, 5);
            assert_eq!((num(start_position.x), num(start_position.y)), (4587.0, 3.0));
        }
        other => panic!("unexpected {other:?}"),
    }
    match &actions[1] {
        Action::Send(GameEvent::WorldInfoEvent {
            tile_width,
            tile_height,
            chunk_size,
            meters_per_tile,
        }) => {
            assert_eq!((*tile_width, *tile_height, *chunk_size), (6000, 4, 2));
            assert_eq!(num(*meters_per_tile), 20.0);
        }
        other => panic!("unexpected {other:?}"),
    }
    assert_eq!(boats[&5].name, "Ada");
    assert_eq!(num(boats[&5].position.x), 4587.0);

    let actions = handle(&mut client, &mut boats, &world, Input::Sent);
    assert_eq!(actions.len(), 3);
    match &actions[0] {
        Action::Send(GameEvent::WorldStateEvent { boats }) => {
            assert_eq!(boats.len(), 1);
            assert_eq!(boats[0].0, 6);
            assert_eq!(boats[0].2, "Bea");
        }
        other => panic!("unexpected {other:?}"),
    }
    match &actions[1] {
        Action::Send(GameEvent::OverviewMapEvent { width, height, data }) => {
            assert_eq!((*width, *height), (2, 1));
            assert_eq!(data, &vec![Tile::Water, Tile::Land]);
        }
        other => panic!("unexpected {other:?}"),
    }
    match &actions[2] {
        Action::Send(GameEvent::AnchorPointsEvent { points }) => {
            assert_eq!(points.len(), 1);
            assert_eq!(points[0].name, "Sandhamn");
            assert_eq!(points[0].note.as_deref(), Some("calm"));
        }
        other => panic!("unexpected {other:?}"),
    }

    let actions = handle(&mut client, &mut boats, &world, Input::Sent);
    assert_eq!(actions.len(), 1);
    match &actions[0] {
        Action::Broadcast(Envelope { sender_id: 5, event: GameEvent::NameEvent { id: 5, name } }) => {
            assert_eq!(name, "Ada")
        }
        other => panic!("unexpected {other:?}"),
    }
    assert!(matches!(client.phase, Phase::Sailing));
}

#[test]
fn a_full_world_closes_the_connection() {
    let world = world();
    let mut boats: BoatMap = HashMap::new();
    let mut client = Client { id: 5, phase: Phase::Spawning { name: "Ada".to_string() } };
    let actions =
        handle(&mut client, &mut boats, &world, Input::Drawn(vec![offset(2.0, 0.0)]));
    assert_eq!(actions.len(), 2);
    assert!(matches!(actions[0], Action::CloseFull));
    assert!(matches!(actions[1], Action::CountDeparture));
    assert!(matches!(client.phase, Phase::Done { failed: false }));
    assert!(boats.is_empty());
}

#[test]
fn a_client_that_leaves_early_is_only_counted_off() {
    let world = world();
    for (input, broken) in [(Input::Received(None), false), (Input::Failed, true)] {
        let mut boats: BoatMap = HashMap::new();
        let mut client = client();
        let actions = handle(&mut client, &mut boats, &world, input);
        assert_eq!(actions.len(), 1);
        assert!(matches!(actions[0], Action::CountDeparture));
        assert!(matches!(client.phase, Phase::Done { failed } if failed == broken));
        assert!(boats.is_empty());
    }
}

#[test]
fn a_failure_during_the_welcome_takes_the_boat_off_the_map() {
    let world = world();
    let name = || "Ada".to_string();
    for phase in [Phase::Welcoming { name: name() }, Phase::Introducing { name: name() }] {
        let (_, mut boats) = sailing();
        let mut client = Client { id: 5, phase };
        let actions = handle(&mut client, &mut boats, &world, Input::Failed);
        assert_eq!(actions.len(), 2);
        assert!(matches!(actions[0], Action::CountDeparture));
        assert!(matches!(
            actions[1],
            Action::Broadcast(Envelope { sender_id: 5, event: GameEvent::ByeEvent { id: 5 } })
        ));
        assert!(matches!(client.phase, Phase::Done { failed: true }));
        assert!(!boats.contains_key(&5));
        assert!(boats.contains_key(&6));
    }
}

#[test]
fn moves_carry_the_id_of_the_client() {
    let world = world();
    let (mut client, mut boats) = sailing();
    let event = GameEvent::MoveEvent { id: 99, position: at(13.0, 1.0) };
    let actions = handle(&mut client, &mut boats, &world, Input::Received(Some(event)));
    assert_eq!(actions.len(), 3);
    // Three tiles of 20 m are 60 m, or 32.39 thousandths of a nautical mile.
    assert!(matches!(actions[0], Action::Count(Metric::NauticalMilesSailed, 32)));
    assert!(matches!(actions[1], Action::Count(Metric::Moves, 1)));
    match &actions[2] {
        Action::Broadcast(Envelope {
            sender_id: 5,
            event: GameEvent::MoveEvent { id: 5, position },
        }) => assert_eq!(num(position.x), 13.0),
        other => panic!("unexpected {other:?}"),
    }
    assert_eq!(num(boats[&5].position.x), 13.0);
    assert_eq!(boats[&5].name, "Ada");
    assert_eq!(num(boats[&6].position.x), 20.0);
}

#[test]
fn moves_onto_land_or_coast_are_dropped() {
    let world = world();
    for place in [at(4592.5, 3.0), at(1.0, 0.0)] {
        let (mut client, mut boats) = sailing();
        let event = GameEvent::MoveEvent { id: 5, position: place };
        let actions = handle(&mut client, &mut boats, &world, Input::Received(Some(event)));
        assert_eq!(actions.len(), 1);
        assert!(matches!(actions[0], Action::Count(Metric::InvalidMoves, 1)));
        assert_eq!(num(boats[&5].position.x), 10.0);
    }
}

#[test]
fn words_come_from_where_the_boat_is() {
    let world = world();
    let (mut client, mut boats) = sailing();
    let event = GameEvent::SayEvent { position: Some(at(3.0, 3.0)), text: "ahoy".to_string() };
    let actions = handle(&mut client, &mut boats, &world, Input::Received(Some(event)));
    assert_eq!(actions.len(), 2);
    assert!(matches!(actions[0], Action::Count(Metric::ChatMessages, 1)));
    match &actions[1] {
        Action::Broadcast(Envelope {
            sender_id: 5,
            event: GameEvent::SayEvent { position: Some(p), text },
        }) => {
            assert_eq!((num(p.x), num(p.y)), (10.0, 1.0));
            assert_eq!(text, "ahoy");
        }
        other => panic!("unexpected {other:?}"),
    }
    // Without a boat on the map, the client's own word counts.
    boats.remove(&5);
    let event = GameEvent::SayEvent { position: None, text: "ahoy".to_string() };
    let actions = handle(&mut client, &mut boats, &world, Input::Received(Some(event)));
    assert!(matches!(
        &actions[1],
        Action::Broadcast(Envelope { event: GameEvent::SayEvent { position: None, .. }, .. })
    ));
}

#[test]
fn chunks_are_answered() {
    let world = world();
    let (mut client, mut boats) = sailing();
    let event = GameEvent::MapChunkRequest { chunk_x: 2296, chunk_y: 1 };
    let actions = handle(&mut client, &mut boats, &world, Input::Received(Some(event)));
    assert_eq!(actions.len(), 2);
    assert!(matches!(actions[0], Action::Count(Metric::MapChunkRequests, 1)));
    match &actions[1] {
        Action::Send(GameEvent::MapChunkResponse { chunk_x: 2296, chunk_y: 1, data }) => {
            assert_eq!(data, &vec![Tile::Water, Tile::Water, Tile::Land, Tile::Water])
        }
        other => panic!("unexpected {other:?}"),
    }
    // A chunk far outside of the map is answered too.
    let event = GameEvent::MapChunkRequest { chunk_x: u32::MAX, chunk_y: 3_000_000_000 };
    let input = Input::Received(Some(event));
    assert!(can_handle(&client, &world, &input));
    match &handle(&mut client, &mut boats, &world, input)[1] {
        Action::Send(GameEvent::MapChunkResponse { data, .. }) => {
            assert_eq!(data, &vec![Tile::Water; 4])
        }
        other => panic!("unexpected {other:?}"),
    }
}

#[test]
fn clients_cannot_send_what_only_servers_send() {
    let world = world();
    let events = vec![
        GameEvent::RegisterEvent { name: "x".to_string() },
        GameEvent::HelloEvent { your_id: 1, start_position: at(0.0, 0.0) },
        GameEvent::ServerVersionEvent { version: "9".to_string() },
        GameEvent::WorldStateEvent { boats: vec![] },
        GameEvent::NameEvent { id: 6, name: "x".to_string() },
        GameEvent::ByeEvent { id: 6 },
        GameEvent::MapChunkResponse { chunk_x: 0, chunk_y: 0, data: vec![] },
        GameEvent::OverviewMapEvent { width: 0, height: 0, data: vec![] },
        GameEvent::AnchorPointsEvent { points: vec![] },
    ];
    for event in events {
        let (mut client, mut boats) = sailing();
        assert!(handle(&mut client, &mut boats, &world, Input::Received(Some(event))).is_empty());
        assert_eq!(boats.len(), 2);
        assert!(matches!(client.phase, Phase::Sailing));
    }
}

#[test]
fn nobody_hears_an_echo() {
    let world = world();
    let (mut client, mut boats) = sailing();
    let own = Envelope { sender_id: 5, event: GameEvent::ByeEvent { id: 5 } };
    assert!(handle(&mut client, &mut boats, &world, Input::Relayed(own)).is_empty());
    let other = Envelope { sender_id: 6, event: GameEvent::ByeEvent { id: 6 } };
    let actions = handle(&mut client, &mut boats, &world, Input::Relayed(other));
    assert_eq!(actions.len(), 1);
    assert!(matches!(actions[0], Action::Send(GameEvent::ByeEvent { id: 6 })));
    let actions = handle(&mut client, &mut boats, &world, Input::Lagged(17));
    assert_eq!(actions.len(), 1);
    assert!(matches!(actions[0], Action::Count(Metric::BroadcastLag, 17)));
}

#[test]
fn leaving_takes_the_boat_off_the_map() {
    let world = world();
    let ends = [
        (Input::Received(None), false),
        (Input::Failed, true),
        (Input::ChannelClosed, false),
    ];
    for (input, broken) in ends {
        let (mut client, mut boats) = sailing();
        let actions = handle(&mut client, &mut boats, &world, input);
        assert_eq!(actions.len(), 2);
        assert!(matches!(actions[0], Action::CountDeparture));
        assert!(matches!(
            actions[1],
            Action::Broadcast(Envelope { sender_id: 5, event: GameEvent::ByeEvent { id: 5 } })
        ));
        assert!(matches!(client.phase, Phase::Done { failed } if failed == broken));
        assert!(!boats.contains_key(&5));
        assert!(boats.contains_key(&6));
        // After that nothing happens any more.
        let late = Input::Received(Some(GameEvent::SayEvent {
            position: None,
            text: "x".to_string(),
        }));
        assert!(handle(&mut client, &mut boats, &world, late).is_empty());
    }
}

#[test]
fn the_plain_game_knows_no_extras() {
    let world = world();
    let mut boats: BoatMap = HashMap::new();
    let mut client = client();
    assert!(plain_handle(&mut client, &mut boats, &world, Input::Opened).is_empty());
    let name = GameEvent::RegisterEvent { name: "Ada".to_string() };
    assert!(plain_handle(&mut client, &mut boats, &world, Input::Received(Some(name))).is_empty());
    let places = Input::Drawn(vec![offset(0.0, 0.0)]);
    assert_eq!(plain_handle(&mut client, &mut boats, &world, places).len(), 2);
    let actions = plain_handle(&mut client, &mut boats, &world, Input::Sent);
    assert_eq!(actions.len(), 1);
    assert!(matches!(actions[0], Action::Send(GameEvent::WorldStateEvent { .. })));
    assert_eq!(plain_handle(&mut client, &mut boats, &world, Input::Sent).len(), 1);
    let event = GameEvent::MoveEvent { id: 0, position: at(10.0, 1.0) };
    let actions = plain_handle(&mut client, &mut boats, &world, Input::Received(Some(event)));
    assert_eq!(actions.len(), 1);
    assert!(matches!(
        actions[0],
        Action::Broadcast(Envelope { event: GameEvent::MoveEvent { id: 5, .. }, .. })
    ));
    let actions = plain_handle(&mut client, &mut boats, &world, Input::Received(None));
    assert_eq!(actions.len(), 1);
    assert!(boats.is_empty());
}

#[test]
fn the_plain_map_is_all_water() {
    let map = load_map();
    assert_eq!((map.width, map.height, map.chunk_size), (8500, 5500, 50));
    assert_eq!(map.grid.len(), 5500);
    assert!(map.grid.iter().all(|row| row.len() == 8500));
    assert_eq!(map.tile_at(4590, 2728), Tile::Water);
}

#[test]
fn events_are_read_in_the_order_of_sending() {
    let bye = |id: u64| Incoming::Binary(Some(GameEvent::ByeEvent { id }));
    let stream = vec![
        Incoming::Other,
        bye(1),
        Incoming::Binary(None),
        Incoming::Other,
        bye(2),
        bye(3),
        Incoming::Close,
        bye(4),
    ];
    let mut read = Vec::new();
    for incoming in stream {
        match recv_event(incoming) {
            Received::Event(GameEvent::ByeEvent { id }) => read.push(id),
            Received::Skipped => {}
            Received::Closed => break,
            other => panic!("unexpected {other:?}"),
        }
    }
    assert_eq!(read, vec![1, 2, 3]);
}

#[test]
fn the_plain_game_takes_plain_inputs() {
    let relayed = |event: GameEvent| Input::Relayed(Envelope { sender_id: 6, event });
    assert!(can_take(&relayed(GameEvent::ByeEvent { id: 6 })));
    assert!(!can_take(&relayed(GameEvent::AnchorPointsEvent { points: vec![] })));
    assert!(can_take(&Input::Opened));
}

#[test]
fn frames_and_what_they_mean() {
    let event = || GameEvent::ByeEvent { id: 3 };
    assert!(matches!(
        recv_event(Incoming::Binary(Some(event()))),
        Received::Event(GameEvent::ByeEvent { id: 3 })
    ));
    assert!(matches!(recv_event(Incoming::Binary(None)), Received::Skipped));
    assert!(matches!(recv_event(Incoming::Close), Received::Closed));
    assert!(matches!(recv_event(Incoming::End), Received::Closed));
    assert!(matches!(recv_event(Incoming::Error), Received::Failed));
    assert!(matches!(recv_event(Incoming::Other), Received::Skipped));
    assert!(matches!(strict_recv_event(Incoming::Binary(None)), Received::Failed));
    assert!(matches!(
        strict_recv_event(Incoming::Binary(Some(event()))),
        Received::Event(GameEvent::ByeEvent { id: 3 })
    ));
    assert!(matches!(strict_recv_event(Incoming::Other), Received::Skipped));
}
