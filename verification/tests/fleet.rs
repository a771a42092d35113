use std::collections::HashMap;

use black_sea::client::app::App;
use black_sea::client::overview::can_render_overview;
use black_sea::client::session::handle_server_event;
use black_sea::float::F32;
use black_sea::protocol::{GameEvent, Position};
use black_sea::server::handler::{
    handle, Action, BoatEntry, BoatMap, Client, Input, OverviewData, Phase, World,
};
use black_sea::server::spawn::Offset;
use black_sea::tiles::{MapGrid, Tile};

fn at(x: f32, y: f32) -> Position {
    Position { x: F32::from_bits(x.to_bits()), y: F32::from_bits(y.to_bits()) }
}

fn place(p: &Position) -> (f32, f32) {
    (f32::from_bits(p.x.to_bits()), f32::from_bits(p.y.to_bits()))
}

fn world() -> World {
    World {
        version: "1.0.0".to_string(),
        map: MapGrid {
            grid: vec![vec![Tile::Water; 6000]; 4],
            width: 6000,
            height: 4,
            chunk_size: 2,
        },
        metres_per_tile: F32::from_bits(20.0_f32.to_bits()),
        overview: OverviewData { width: 2, height: 1, data: vec![Tile::Water, Tile::Land] },
        anchors: Vec::new(),
    }
}

fn fleet() -> BoatMap {
    let mut boats: BoatMap = HashMap::new();
    for id in [6u64, 7, 8] {
        let position = at(100.0 * id as f32, 1.0);
        boats.insert(id, BoatEntry { position, name: format!("Boat {id}") });
    }
    boats
}

/// Hands every event that is sent to a client over to it.
fn deliver(actions: Vec<Action>, app: &mut App) {
    for action in actions {
        if let Action::Send(event) = action {
            handle_server_event(app, event, 0, "1.0.0");
        }
    }
}

/// The envelopes among the actions.
fn relayed(actions: Vec<Action>) -> Vec<Input> {
    let mut r = Vec::new();
    for action in actions {
        if let Action::Broadcast(envelope) = action {
            r.push(Input::Relayed(envelope));
        }
    }
    r
}

#[test]
fn a_newcomer_knows_its_place_and_the_fleet() {
    let world = world();
    let mut boats = fleet();
    let mut client = Client { id: 5, phase: Phase::Registering };
    let mut app = App::new("Ada".to_string());
    let name = GameEvent::RegisterEvent { name: "Ada".to_string() };
    handle(&mut client, &mut boats, &world, Input::Received(Some(name)));
    let draws = vec![Offset {
        x: F32::from_bits(1.0_f32.to_bits()),
        y: F32::from_bits(0.0_f32.to_bits()),
    }];
    deliver(handle(&mut client, &mut boats, &world, Input::Drawn(draws)), &mut app);
    assert_eq!(app.my_id, Some(5));
    assert_eq!(place(&app.cursor), place(&boats[&5].position));
    deliver(handle(&mut client, &mut boats, &world, Input::Sent), &mut app);
    let mut known: Vec<u64> = app.remote_boats.keys().copied().collect();
    known.sort();
    assert_eq!(known, vec![6, 7, 8]);
    for id in known {
        assert_eq!(place(&app.remote_boats[&id].position), place(&boats[&id].position));
        assert_eq!(app.remote_boats[&id].name, boats[&id].name);
    }
    assert!(can_render_overview(app.overview.as_ref().unwrap()));
}

#[test]
fn others_see_moves_and_departures() {
    let world = world();
    let mut boats = fleet();
    let mut mover = Client { id: 6, phase: Phase::Sailing };
    let mut watcher = Client { id: 7, phase: Phase::Sailing };
    let mut app = App::new("Bea".to_string());

    let step = GameEvent::MoveEvent { id: 99, position: at(601.0, 1.0) };
    let told = handle(&mut mover, &mut boats, &world, Input::Received(Some(step)));
    for input in relayed(told) {
        deliver(handle(&mut watcher, &mut boats, &world, input), &mut app);
    }
    assert_eq!(place(&boats[&6].position), (601.0, 1.0));
    assert_eq!(place(&app.remote_boats[&6].position), (601.0, 1.0));
    assert!(!app.remote_boats.contains_key(&99));

    let told = handle(&mut mover, &mut boats, &world, Input::Received(None));
    for input in relayed(told) {
        deliver(handle(&mut watcher, &mut boats, &world, input), &mut app);
    }
    assert!(!boats.contains_key(&6));
    assert!(!app.remote_boats.contains_key(&6));
}

#[test]
fn a_chunk_that_came_is_not_awaited() {
    let mut app = App::new("Ada".to_string());
    app.cursor = at(0.0, 0.0);
    let info = GameEvent::WorldInfoEvent {
        tile_width: 4,
        tile_height: 4,
        chunk_size: 2,
        meters_per_tile: F32::from_bits(20.0_f32.to_bits()),
    };
    handle_server_event(&mut app, info, 0, "1.0.0");
    let asked = app.take_requests();
    assert!(!asked.is_empty());
    for event in asked {
        for key in app.pending_chunks.iter() {
            assert!(!app.loaded_chunks.contains_key(key));
        }
        match event {
            GameEvent::MapChunkRequest { chunk_x, chunk_y } => {
                let data = vec![Tile::Water; 4];
                let chunk = GameEvent::MapChunkResponse { chunk_x, chunk_y, data };
                handle_server_event(&mut app, chunk, 0, "1.0.0");
            }
            other => panic!("unexpected {other:?}"),
        }
    }
    assert!(app.pending_chunks.is_empty());
}
