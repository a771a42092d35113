use black_sea::client::app::{
    chunk_key, App, Bubble, Direction, RemoteBoat, UpdateStatus, WorldInfo,
};
use black_sea::client::input::{
    can_handle_key, handle_key, prompt_name, show_incompatible_screen, KeyCode, KeyEvent,
};
use black_sea::client::session::{
    can_handle, can_take_turn, handle_server_event, note_release, run, AppMsg, Turn,
};
use black_sea::client::version::{
    check_server_version, is_newer, release_version, releases_match, update_available,
    versions_match, CompatResult, Release, VersionCheck,
};
use black_sea::float::F32;
use black_sea::plain::client::{handle_key as plain_handle_key, run as plain_run};
use black_sea::protocol::{GameEvent, Position};
use black_sea::tiles::{MapGrid, Tile};

fn f(v: f32) -> F32 {
    F32::from_bits(v.to_bits())
}

fn num(v: F32) -> f32 {
    f32::from_bits(v.to_bits())
}

fn at(x: f32, y: f32) -> Position {
    Position { x: f(x), y: f(y) }
}

fn press(code: KeyCode) -> KeyEvent {
    KeyEvent { press: true, code }
}

fn app() -> App {
    let mut app = App::new("Ada".to_string());
    app.world_info = Some(WorldInfo { tile_width: 20, tile_height: 10, chunk_size: 10 });
    app.cursor = at(5.0, 5.0);
    app
}

fn with_boat(id: u64, x: f32, y: f32) -> App {
    let mut app = app();
    app.remote_boats.insert(
        id,
        RemoteBoat { position: at(x, y), name: "Bea".to_string(), last_dir: Direction::Up },
    );
    app
}

// ── events ────────────────────────────────────────────────────────────────────

#[test]
fn hello_gives_id_and_place() {
    let mut app = app();
    let hello = GameEvent::HelloEvent { your_id: 3, start_position: at(7.0, 8.0) };
    handle_server_event(&mut app, hello, 0, "1.0.0");
    assert_eq!(app.my_id, Some(3));
    assert_eq!(num(app.cursor.x), 7.0);
}

#[test]
fn the_layout_brings_requests() {
    let mut app = App::new("Ada".to_string());
    app.cursor = at(0.0, 0.0);
    let info = GameEvent::WorldInfoEvent {
        tile_width: 20,
        tile_height: 10,
        chunk_size: 10,
        meters_per_tile: f(20.0),
    };
    assert!(can_handle(&info));
    handle_server_event(&mut app, info, 0, "1.0.0");
    assert_eq!(app.chunk_requests, vec![(0, 0), (1, 0)]);
    let bad = GameEvent::WorldInfoEvent {
        tile_width: 20,
        tile_height: 10,
        chunk_size: 0,
        meters_per_tile: f(20.0),
    };
    assert!(!can_handle(&bad));
}

#[test]
fn client_and_server_agree_on_tiles() {
    let mut grid = vec![vec![Tile::Water; 20]; 10];
    grid[4][13] = Tile::Land;
    grid[5][13] = Tile::Coast;
    let map = MapGrid { grid, width: 20, height: 10, chunk_size: 10 };
    let mut app = app();
    app.pending_chunks.insert(chunk_key(1, 0));
    let data = map.chunk_data(1, 0);
    let event = GameEvent::MapChunkResponse { chunk_x: 1, chunk_y: 0, data };
    handle_server_event(&mut app, event, 0, "1.0.0");
    assert!(app.pending_chunks.is_empty());
    for y in 0..10 {
        for x in 10..20 {
            assert_eq!(app.tile_at_world(x, y), Some(map.tile_at(x, y)));
        }
    }
    assert_eq!(app.tile_at_world(9, 0), None);
}

#[test]
fn boats_come_move_and_go() {
    let mut app = app();
    let boats = vec![
        (1, at(1.0, 1.0), "Bea".to_string()),
        (2, at(2.0, 2.0), "Cid".to_string()),
        (1, at(3.0, 3.0), "Bo".to_string()),
    ];
    handle_server_event(&mut app, GameEvent::WorldStateEvent { boats }, 0, "1.0.0");
    assert_eq!(app.remote_boats.len(), 2);
    assert_eq!(app.remote_boats[&1].name, "Bo");
    let name = GameEvent::NameEvent { id: 2, name: "Dee".to_string() };
    handle_server_event(&mut app, name, 0, "1.0.0");
    assert_eq!(app.remote_boats[&2].name, "Dee");
    assert_eq!(num(app.remote_boats[&2].position.x), 2.0);
    let name = GameEvent::NameEvent { id: 9, name: "Eve".to_string() };
    handle_server_event(&mut app, name, 0, "1.0.0");
    assert_eq!(num(app.remote_boats[&9].position.x), 0.0);
    handle_server_event(&mut app, GameEvent::ByeEvent { id: 2 }, 0, "1.0.0");
    assert!(!app.remote_boats.contains_key(&2));
}

#[test]
fn boats_head_along_the_longer_leg() {
    let cases = [
        (at(12.0, 11.0), Direction::Right),
        (at(8.0, 11.0), Direction::Left),
        (at(11.0, 12.0), Direction::Down),
        (at(11.0, 8.0), Direction::Up),
        (at(12.0, 12.0), Direction::Right),
        (at(10.0, 10.0), Direction::Up),
    ];
    for (position, dir) in cases {
        let mut app = with_boat(4, 10.0, 10.0);
        handle_server_event(&mut app, GameEvent::MoveEvent { id: 4, position }, 0, "1.0.0");
        assert_eq!(app.remote_boats[&4].last_dir, dir);
        assert_eq!(app.remote_boats[&4].name, "Bea");
        assert_eq!(num(app.remote_boats[&4].position.x), num(position.x));
    }
    let mut app = app();
    let event = GameEvent::MoveEvent { id: 407, position: at(1.0, 2.0) };
    handle_server_event(&mut app, event, 0, "1.0.0");
    assert_eq!(app.remote_boats[&407].name, "407");
    assert_eq!(app.remote_boats[&407].last_dir, Direction::Right);
}

#[test]
fn words_are_shown_where_they_were_said() {
    let mut app = app();
    let event = GameEvent::SayEvent { position: Some(at(1.0, 2.0)), text: "ahoy".to_string() };
    handle_server_event(&mut app, event, 77, "1.0.0");
    let event = GameEvent::SayEvent { position: None, text: "hm".to_string() };
    handle_server_event(&mut app, event, 78, "1.0.0");
    assert_eq!(app.bubbles.len(), 2);
    assert_eq!(num(app.bubbles[0].position.x), 1.0);
    assert_eq!(app.bubbles[0].received_at, 77);
    assert_eq!(num(app.bubbles[1].position.x), 5.0);
}

#[test]
fn other_events_change_nothing_or_little() {
    let mut app = app();
    handle_server_event(&mut app, GameEvent::AnchorPointsEvent { points: vec![] }, 0, "1.0.0");
    let register = GameEvent::RegisterEvent { name: "x".to_string() };
    handle_server_event(&mut app, register, 0, "1.0.0");
    let request = GameEvent::MapChunkRequest { chunk_x: 1, chunk_y: 1 };
    handle_server_event(&mut app, request, 0, "1.0.0");
    assert!(app.anchor_points.is_empty());
    assert!(app.remote_boats.is_empty());
    let overview =
        GameEvent::OverviewMapEvent { width: 1, height: 1, data: vec![Tile::Land] };
    handle_server_event(&mut app, overview, 0, "1.0.0");
    assert_eq!(app.overview.unwrap().data, vec![Tile::Land]);
}

// ── versions ──────────────────────────────────────────────────────────────────

#[test]
fn same_major_and_minor_fit() {
    assert!(versions_match("1.2.9", "1.2.3"));
    assert!(!versions_match("1.3.0", "1.2.3"));
    assert!(!versions_match("2.2.3", "1.2.3"));
    assert!(!versions_match("nonsense", "1.2.3"));
    // An own version that is none counts as the lowest one.
    assert!(versions_match("0.0.7", "nonsense"));
}

#[test]
fn later_releases_are_updates() {
    assert!(update_available("1.2.4", "1.2.3"));
    assert!(update_available("1.10.0", "1.9.9"));
    assert!(!update_available("1.2.3", "1.2.3"));
    assert!(!update_available("1.2.2", "1.2.3"));
    assert!(update_available("1.2.3", "1.2.3-rc.1"));
    assert!(!update_available("1.2.3-rc.1", "1.2.3"));
    assert!(update_available("1.2.3-rc.2", "1.2.3-rc.1"));
    assert!(!update_available("v1.2.3", "0.1.0"));
    assert!(update_available("0.0.1", "unknown"));
    assert!(!update_available("0.0.0", "unknown"));
}

fn release(major: u64, minor: u64, patch: u64) -> Release {
    Release { major, minor, patch, pre: String::new(), build: String::new() }
}

#[test]
fn releases_compare_by_their_numbers() {
    assert!(is_newer(Some(release(2, 0, 0)), Some(release(1, 9, 9))));
    assert!(!is_newer(Some(release(1, 2, 3)), Some(release(1, 3, 0))));
    assert!(!is_newer(None, Some(release(1, 2, 3))));
    assert!(is_newer(Some(release(0, 0, 1)), None));
    assert!(releases_match(Some(release(1, 2, 3)), Some(release(1, 2, 8))));
    assert!(!releases_match(None, None));
}

#[test]
fn tags_lose_their_letter() {
    assert_eq!(release_version("v1.2.3"), "1.2.3");
    assert_eq!(release_version("vv1"), "1");
    assert_eq!(release_version("1.2.3v"), "1.2.3v");
    assert_eq!(release_version(""), "");
}

#[test]
fn the_version_comes_before_the_game() {
    let version = |v: &str| Some(GameEvent::ServerVersionEvent { version: v.to_string() });
    assert!(matches!(
        check_server_version(version("1.2.3"), "1.2.0"),
        VersionCheck::Done(CompatResult::Compatible)
    ));
    match check_server_version(version("1.3.3"), "1.2.0") {
        VersionCheck::Done(CompatResult::Incompatible { server_version }) => {
            assert_eq!(server_version, "1.3.3")
        }
        other => panic!("unexpected {other:?}"),
    }
    assert!(matches!(
        check_server_version(Some(GameEvent::ByeEvent { id: 1 }), "1.2.0"),
        VersionCheck::Waiting
    ));
    assert!(matches!(check_server_version(None, "1.2.0"), VersionCheck::Disconnected));
}

#[test]
fn the_status_follows_the_versions() {
    let mut app = app();
    let event = GameEvent::ServerVersionEvent { version: "1.2.9".to_string() };
    handle_server_event(&mut app, event, 0, "1.2.3");
    assert!(matches!(app.update_status, UpdateStatus::Compatible { patch_available: None }));
    let turn = Turn::Message(Some(AppMsg::LatestRelease("1.2.8".to_string())));
    let reply = run(&mut app, turn, 0, "1.2.3");
    assert!(!reply.quit && reply.send.is_none());
    match &app.update_status {
        UpdateStatus::Compatible { patch_available: Some(v) } => assert_eq!(v, "1.2.8"),
        other => panic!("unexpected {other:?}"),
    }
    let event = GameEvent::ServerVersionEvent { version: "2.0.0".to_string() };
    handle_server_event(&mut app, event, 0, "1.2.3");
    // An update is not offered any more where it would not help.
    let turn = Turn::Message(Some(AppMsg::LatestRelease("1.2.8".to_string())));
    run(&mut app, turn, 0, "1.2.3");
    match &app.update_status {
        UpdateStatus::Incompatible { server_version } => assert_eq!(server_version, "2.0.0"),
        other => panic!("unexpected {other:?}"),
    }
    assert!(matches!(
        note_release(UpdateStatus::Unknown, "1".to_string(), false),
        UpdateStatus::Unknown
    ));
    assert!(matches!(
        note_release(UpdateStatus::Unknown, "1".to_string(), true),
        UpdateStatus::Compatible { patch_available: Some(_) }
    ));
}

// ── keys ──────────────────────────────────────────────────────────────────────

#[test]
fn arrows_move_and_tell() {
    let mut app = app();
    // Before the server has given out an id, nothing is told.
    let reply = handle_key(&mut app, press(KeyCode::Right), 0);
    assert!(reply.send.is_none());
    app.my_id = Some(8);
    for (code, x, y) in [
        (KeyCode::Up, 6.0, 4.0),
        (KeyCode::Left, 5.0, 4.0),
        (KeyCode::Down, 5.0, 5.0),
        (KeyCode::Right, 6.0, 5.0),
    ] {
        assert!(can_handle_key(&app, press(code)));
        let reply = handle_key(&mut app, press(code), 0);
        assert!(!reply.quit);
        match reply.send {
            Some(GameEvent::MoveEvent { id: 8, position }) => {
                assert_eq!((num(position.x), num(position.y)), (x, y))
            }
            other => panic!("unexpected {other:?}"),
        }
    }
}

#[test]
fn a_blocked_move_is_not_told() {
    let mut app = app();
    app.my_id = Some(8);
    let mut data = vec![Tile::Water; 100];
    data[5 * 10 + 6] = Tile::Land;
    app.loaded_chunks.insert(chunk_key(0, 0), data);
    let reply = handle_key(&mut app, press(KeyCode::Right), 0);
    assert!(reply.send.is_none());
    assert_eq!(num(app.cursor.x), 5.0);
}

#[test]
fn typing_and_saying() {
    let mut app = app();
    for c in ['h', 'i', '!'] {
        handle_key(&mut app, press(KeyCode::Char(c)), 0);
    }
    handle_key(&mut app, press(KeyCode::Backspace), 0);
    assert_eq!(app.input, "hi");
    let reply = handle_key(&mut app, press(KeyCode::Enter), 55);
    match reply.send {
        Some(GameEvent::SayEvent { position: None, text }) => assert_eq!(text, "hi"),
        other => panic!("unexpected {other:?}"),
    }
    assert_eq!(app.input, "");
    assert_eq!(app.bubbles.len(), 1);
    assert_eq!(app.bubbles[0].text, "hi");
    assert_eq!(app.bubbles[0].received_at, 55);
    // Nothing to say.
    assert!(handle_key(&mut app, press(KeyCode::Enter), 55).send.is_none());
    handle_key(&mut app, press(KeyCode::Backspace), 0);
    assert_eq!(app.input, "");
}

#[test]
fn the_overview_opens_and_closes() {
    let mut app = app();
    app.input = "/map".to_string();
    let reply = handle_key(&mut app, press(KeyCode::Enter), 0);
    assert!(reply.send.is_none());
    assert!(app.show_map_overview);
    assert_eq!(app.input, "");
    // Any key closes it and does nothing else.
    let reply = handle_key(&mut app, press(KeyCode::Esc), 0);
    assert!(!reply.quit);
    assert!(!app.show_map_overview);
    // In the plain game there is none.
    app.input = "/map".to_string();
    let reply = plain_handle_key(&mut app, press(KeyCode::Enter), 0);
    assert!(matches!(reply.send, Some(GameEvent::SayEvent { .. })));
    assert!(!app.show_map_overview);
    let turn = Turn::Message(Some(AppMsg::Key(press(KeyCode::Char('q')))));
    assert!(plain_run(&mut app, turn, 0, "1.0.0").quit);
    assert!(plain_run(&mut app, Turn::Server(None), 0, "1.0.0").quit);
}

#[test]
fn leaving_the_game() {
    let mut app = app();
    assert!(handle_key(&mut app, press(KeyCode::Esc), 0).quit);
    assert!(handle_key(&mut app, press(KeyCode::Char('q')), 0).quit);
    assert!(!handle_key(&mut app, KeyEvent { press: false, code: KeyCode::Esc }, 0).quit);
    assert!(!handle_key(&mut app, press(KeyCode::Other), 0).quit);
    assert!(run(&mut app, Turn::Message(None), 0, "1.0.0").quit);
    assert!(run(&mut app, Turn::Server(None), 0, "1.0.0").quit);
    assert!(!run(&mut app, Turn::Message(Some(AppMsg::Tick)), 0, "1.0.0").quit);
    let key = Turn::Message(Some(AppMsg::Key(press(KeyCode::Esc))));
    assert!(can_take_turn(&app, &key));
    assert!(run(&mut app, key, 0, "1.0.0").quit);
    let event = Turn::Server(Some(GameEvent::ByeEvent { id: 1 }));
    assert!(can_take_turn(&app, &event));
    assert!(!run(&mut app, event, 0, "1.0.0").quit);
}

#[test]
fn names_have_at_most_sixteen_bytes_before_a_key() {
    let mut name = String::new();
    assert!(!prompt_name(&mut name, press(KeyCode::Enter)));
    for _ in 0..20 {
        assert!(!prompt_name(&mut name, press(KeyCode::Char('a'))));
    }
    assert_eq!(name.len(), 16);
    assert!(!prompt_name(&mut name, press(KeyCode::Backspace)));
    assert!(!prompt_name(&mut name, press(KeyCode::Char('ö'))));
    assert_eq!(name.len(), 17);
    assert!(!prompt_name(&mut name, press(KeyCode::Char('b'))));
    assert_eq!(name.len(), 17);
    assert!(!prompt_name(&mut name, KeyEvent { press: false, code: KeyCode::Enter }));
    assert!(prompt_name(&mut name, press(KeyCode::Enter)));
}

#[test]
fn keys_that_leave_the_incompatible_screen() {
    assert!(show_incompatible_screen(press(KeyCode::Esc)));
    assert!(show_incompatible_screen(press(KeyCode::Enter)));
    assert!(show_incompatible_screen(press(KeyCode::Char('q'))));
    assert!(!show_incompatible_screen(press(KeyCode::Char('x'))));
    assert!(!show_incompatible_screen(KeyEvent { press: false, code: KeyCode::Esc }));
}

#[test]
fn bubbles_know_their_age() {
    let bubble = Bubble { position: at(0.0, 0.0), text: String::new(), received_at: 10 };
    assert_eq!(bubble.elapsed(35), 25);
    assert_eq!(bubble.elapsed(3), 0);
}
