use black_sea::client::app::{chunk_key, App, Bubble, Direction, UpdateStatus, WorldInfo};
use black_sea::client::render::coast_char;
use black_sea::float::F32;
use black_sea::plain::client::coast_char as wall_char;
use black_sea::protocol::{GameEvent, Position};
use black_sea::tiles::Tile;

const SECOND: u64 = 1_000_000_000;

fn f(v: f32) -> F32 {
    F32::from_bits(v.to_bits())
}

fn num(v: F32) -> f32 {
    f32::from_bits(v.to_bits())
}

fn at(x: f32, y: f32) -> Position {
    Position { x: f(x), y: f(y) }
}

/// Build an App whose world_info matches a tiny 20×10 map with chunk_size=10.
fn make_app_with_map(grid: Vec<Vec<Tile>>) -> App {
    let chunk_size = 10u32;
    let width = grid[0].len() as u32;
    let height = grid.len() as u32;

    let mut app = App::new("test".to_string());
    app.world_info = Some(WorldInfo { tile_width: width, tile_height: height, chunk_size });

    // Load all chunks immediately.
    let chunks_x = width.div_ceil(chunk_size);
    let chunks_y = height.div_ceil(chunk_size);
    for cy in 0..chunks_y {
        for cx in 0..chunks_x {
            // Manually slice the chunk from the grid.
            let cs = chunk_size as usize;
            let origin_col = (cx * chunk_size) as usize;
            let origin_row = (cy * chunk_size) as usize;
            let mut data = Vec::with_capacity(cs * cs);
            for row in origin_row..origin_row + cs {
                for col in origin_col..origin_col + cs {
                    let tile =
                        grid.get(row).and_then(|r| r.get(col)).copied().unwrap_or(Tile::Water);
                    data.push(tile);
                }
            }
            app.loaded_chunks.insert(chunk_key(cx, cy), data);
        }
    }
    app
}

fn all_water_app() -> App {
    let grid = vec![vec![Tile::Water; 20]; 10];
    make_app_with_map(grid)
}

fn app_with_land_at(land_col: usize, land_row: usize) -> App {
    let mut grid = vec![vec![Tile::Water; 20]; 10];
    grid[land_row][land_col] = Tile::Land;
    make_app_with_map(grid)
}

fn app_with_coast_at(coast_col: usize, coast_row: usize) -> App {
    let mut grid = vec![vec![Tile::Water; 20]; 10];
    grid[coast_row][coast_col] = Tile::Coast;
    make_app_with_map(grid)
}

// ── move_cursor ───────────────────────────────────────────────────────────────

#[test]
fn move_cursor_water_succeeds() {
    let mut app = all_water_app();
    app.cursor = at(5.0, 5.0);
    assert!(app.move_cursor(f(1.0), f(0.0)));
    assert_eq!(num(app.cursor.x) as u32, 6);
}

#[test]
fn move_cursor_into_land_blocked() {
    let mut app = app_with_land_at(6, 5);
    app.cursor = at(5.0, 5.0);
    let moved = app.move_cursor(f(1.0), f(0.0));
    assert!(!moved, "move into land should be blocked");
    assert_eq!(num(app.cursor.x) as u32, 5, "cursor should not have moved");
}

#[test]
fn move_cursor_into_coast_blocked() {
    let mut app = app_with_coast_at(6, 5);
    app.cursor = at(5.0, 5.0);
    let moved = app.move_cursor(f(1.0), f(0.0));
    assert!(!moved, "move into coast should be blocked");
}

#[test]
fn move_cursor_clamps_to_map_bounds() {
    let mut app = all_water_app();
    app.cursor = at(0.0, 0.0);
    // Try to move off the left/top edge.
    assert!(app.move_cursor(f(-10.0), f(-10.0))); // clamped to (0,0) → still "moved" (direction updated)
    assert_eq!(num(app.cursor.x) as u32, 0);
    assert_eq!(num(app.cursor.y) as u32, 0);
}

#[test]
fn move_cursor_updates_direction() {
    let mut app = all_water_app();
    app.cursor = at(5.0, 5.0);
    app.move_cursor(f(1.0), f(0.0));
    assert_eq!(app.last_dir, Direction::Right);
    app.move_cursor(f(-1.0), f(0.0));
    assert_eq!(app.last_dir, Direction::Left);
    app.move_cursor(f(0.0), f(-1.0));
    assert_eq!(app.last_dir, Direction::Up);
    app.move_cursor(f(0.0), f(1.0));
    assert_eq!(app.last_dir, Direction::Down);
}

#[test]
fn moves_stop_at_the_far_corner() {
    let mut app = all_water_app();
    app.cursor = at(19.0, 9.0);
    assert!(app.can_move(f(7.0), f(7.0)));
    assert!(app.move_cursor(f(7.0), f(7.0)));
    assert_eq!((num(app.cursor.x), num(app.cursor.y)), (19.0, 9.0));
    // Before the map is known, it counts as one of 500 by 500 tiles.
    let mut app = App::new("x".to_string());
    assert!(app.move_cursor(f(1000.0), f(0.0)));
    assert_eq!((num(app.cursor.x), num(app.cursor.y)), (499.0, 250.0));
}

#[test]
fn a_map_without_tiles_cannot_be_sailed() {
    let mut app = all_water_app();
    app.world_info = Some(WorldInfo { tile_width: 0, tile_height: 10, chunk_size: 10 });
    assert!(!app.can_move(f(1.0), f(0.0)));
    app.world_info = Some(WorldInfo { tile_width: 20, tile_height: 10, chunk_size: 0 });
    assert!(!app.can_move(f(1.0), f(0.0)));
    assert!(!app.can_compute_chunks());
}

// ── expire_bubbles ────────────────────────────────────────────────────────────

#[test]
fn expire_bubbles_removes_stale() {
    let mut app = all_water_app();
    let now = 100 * SECOND;
    // Add a bubble that is already stale (received 10 seconds ago).
    app.bubbles.push(Bubble {
        position: at(0.0, 0.0),
        text: "old".into(),
        received_at: now - 10 * SECOND,
    });
    // Add a fresh bubble.
    app.bubbles.push(Bubble { position: at(0.0, 0.0), text: "fresh".into(), received_at: now });
    app.expire_bubbles(now);
    assert_eq!(app.bubbles.len(), 1);
    assert_eq!(app.bubbles[0].text, "fresh");
}

#[test]
fn bubbles_last_five_seconds() {
    let mut app = all_water_app();
    app.push_bubble(at(1.0, 2.0), "a".to_string(), 7);
    app.push_bubble(at(1.0, 2.0), "b".to_string(), 8);
    app.expire_bubbles(5 * SECOND + 6);
    assert_eq!(app.bubbles.len(), 2);
    app.expire_bubbles(5 * SECOND + 7);
    assert_eq!(app.bubbles.len(), 1);
    assert_eq!(app.bubbles[0].text, "b");
    // A clock that runs backwards makes nothing older.
    app.expire_bubbles(0);
    assert_eq!(app.bubbles.len(), 1);
}

// ── pages and chunks ──────────────────────────────────────────────────────────

#[test]
fn a_new_client_knows_nothing() {
    let app = App::new("Ada".to_string());
    assert_eq!(app.my_name, "Ada");
    assert_eq!((num(app.cursor.x), num(app.cursor.y)), (250.0, 250.0));
    assert_eq!(app.last_dir, Direction::Right);
    assert_eq!(app.last_dir, Direction::default());
    assert!(matches!(app.update_status, UpdateStatus::Unknown));
    assert!(matches!(UpdateStatus::default(), UpdateStatus::Unknown));
    assert_eq!(app.current_page(), (1, 5));
    assert_eq!(app.page_origin(), (200, 250));
    assert!(app.tile_at_world(250, 250).is_none());
}

#[test]
fn chunks_around_the_page_are_asked_for_once() {
    let mut app = App::new("x".to_string());
    app.world_info = Some(WorldInfo { tile_width: 8500, tile_height: 5500, chunk_size: 50 });
    app.cursor = at(450.0, 120.0);
    // The page spans columns 400 to 599 and rows 100 to 149: chunks 8 to 11 and 2.
    app.loaded_chunks.insert(chunk_key(9, 2), vec![Tile::Water; 2500]);
    assert!(app.can_compute_chunks());
    app.ensure_chunks_loaded();
    let mut expected = Vec::new();
    for cy in 1..=3u32 {
        for cx in 7..=12u32 {
            if (cx, cy) != (9, 2) {
                expected.push((cx, cy));
            }
        }
    }
    assert_eq!(app.chunk_requests, expected);
    assert_eq!(app.pending_chunks.len(), expected.len());
    app.ensure_chunks_loaded();
    assert_eq!(app.chunk_requests, expected);
    let events = app.take_requests();
    assert_eq!(events.len(), expected.len());
    assert!(matches!(events[0], GameEvent::MapChunkRequest { chunk_x: 7, chunk_y: 1 }));
    assert!(app.chunk_requests.is_empty());
}

#[test]
fn chunks_stop_at_the_border_of_the_map() {
    let mut app = App::new("x".to_string());
    app.world_info = Some(WorldInfo { tile_width: 20, tile_height: 10, chunk_size: 10 });
    app.cursor = at(0.0, 0.0);
    app.ensure_chunks_loaded();
    assert_eq!(app.chunk_requests, vec![(0, 0), (1, 0)]);
    // Where the map is not known, nothing is asked for.
    let mut app = App::new("x".to_string());
    app.ensure_chunks_loaded();
    assert!(app.chunk_requests.is_empty());
}

#[test]
fn another_page_brings_other_chunks() {
    let mut app = App::new("x".to_string());
    app.world_info = Some(WorldInfo { tile_width: 8500, tile_height: 5500, chunk_size: 50 });
    app.cursor = at(399.0, 10.0);
    assert!(app.move_cursor(f(0.0), f(1.0)));
    assert!(app.chunk_requests.is_empty());
    assert!(app.move_cursor(f(1.0), f(0.0)));
    assert_eq!(app.current_page(), (2, 0));
    assert_eq!(app.chunk_requests[0], (7, 0));
    assert_eq!(app.chunk_requests.len(), 12);
}

#[test]
fn tiles_are_found_in_their_chunks() {
    let app = app_with_land_at(16, 5);
    assert_eq!(app.tile_at_world(16, 5), Some(Tile::Land));
    assert_eq!(app.tile_at_world(5, 6), Some(Tile::Water));
    assert_eq!(app.tile_at_world(20, 5), None);
    assert!(chunk_key(1, 2) != chunk_key(2, 1));
}

#[test]
fn chunks_that_are_too_large_for_a_lookup() {
    let mut app = App::new("x".to_string());
    app.world_info =
        Some(WorldInfo { tile_width: u32::MAX, tile_height: u32::MAX, chunk_size: 100_000 });
    app.loaded_chunks.insert(chunk_key(0, 0), vec![Tile::Land]);
    assert!(app.can_look_up(0, 0));
    assert!(!app.can_look_up(0, 99_999));
    assert_eq!(app.tile_at_world(0, 0), Some(Tile::Land));
    assert_eq!(app.tile_at_world(5, 0), None);
}

// ── coast_char ────────────────────────────────────────────────────────────────

fn app_with_single_tile(col: usize, row: usize, tile: Tile) -> App {
    let chunk_size = 10u32;
    let mut grid = vec![vec![Tile::Water; 10]; 10];
    grid[row][col] = tile;

    let mut app = App::new("test".into());
    app.world_info = Some(WorldInfo { tile_width: 10, tile_height: 10, chunk_size });

    let mut data: Vec<Tile> = Vec::with_capacity(100);
    for r in &grid {
        data.extend_from_slice(r);
    }
    app.loaded_chunks.insert(chunk_key(0, 0), data);
    app
}

/// Place a Coast tile at (5,5) and Land tiles at each (col_offset, row_offset) in `neighbors`.
fn app_with_coast_and_neighbors(neighbors: &[(i32, i32)]) -> App {
    let chunk_size = 10u32;
    let mut grid = vec![vec![Tile::Water; 10]; 10];
    grid[5][5] = Tile::Coast;
    for &(dc, dr) in neighbors {
        grid[(5 + dr) as usize][(5 + dc) as usize] = Tile::Land;
    }

    let mut app = App::new("test".into());
    app.world_info = Some(WorldInfo { tile_width: 10, tile_height: 10, chunk_size });

    let mut data: Vec<Tile> = Vec::with_capacity(100);
    for r in &grid {
        data.extend_from_slice(r);
    }
    app.loaded_chunks.insert(chunk_key(0, 0), data);
    app
}

#[test]
fn coast_char_isolated_returns_space() {
    // A coast tile with no solid cardinal neighbours is suppressed (rendered as " ").
    // This protects the design rule: tiny isolated islets are hidden at this zoom level.
    let app = app_with_single_tile(5, 5, Tile::Coast);
    assert_eq!(coast_char(&app, 5, 5), " ");
}

#[test]
fn coast_char_t_junction_ns_w() {
    // N+S+W neighbors → walking north-south → "|"
    let app = app_with_coast_and_neighbors(&[(0, -1), (0, 1), (-1, 0)]);
    assert_eq!(coast_char(&app, 5, 5), "|");
}

#[test]
fn coast_char_t_junction_ns_e() {
    // N+S+E neighbors → walking north-south → "|"
    let app = app_with_coast_and_neighbors(&[(0, -1), (0, 1), (1, 0)]);
    assert_eq!(coast_char(&app, 5, 5), "|");
}

#[test]
fn coast_char_t_junction_nwe() {
    // N+W+E neighbors → walking east-west → "-"
    let app = app_with_coast_and_neighbors(&[(0, -1), (-1, 0), (1, 0)]);
    assert_eq!(coast_char(&app, 5, 5), "-");
}

#[test]
fn coast_char_t_junction_swe() {
    // S+W+E neighbors → walking east-west → "-"
    let app = app_with_coast_and_neighbors(&[(0, 1), (-1, 0), (1, 0)]);
    assert_eq!(coast_char(&app, 5, 5), "-");
}

#[test]
fn coast_char_cross() {
    // All four cardinal neighbors → "+"
    let app = app_with_coast_and_neighbors(&[(0, -1), (0, 1), (-1, 0), (1, 0)]);
    assert_eq!(coast_char(&app, 5, 5), "+");
}

#[test]
fn coast_char_runs_and_corners() {
    let n = (0, -1);
    let s = (0, 1);
    let w = (-1, 0);
    let e = (1, 0);
    let cases: Vec<(Vec<(i32, i32)>, &str, &str)> = vec![
        (vec![w, e], "-", "|"),
        (vec![w], "-", "|"),
        (vec![e], "-", "|"),
        (vec![n, s], "|", "-"),
        (vec![n], "|", "-"),
        (vec![s], "|", "-"),
        (vec![s, e], "/", "/"),
        (vec![n, w], "/", "/"),
        (vec![s, w], "\\", "\\"),
        (vec![n, e], "\\", "\\"),
        (vec![n, s, w], "|", " "),
        (vec![n, s, w, e], "+", " "),
        (vec![], " ", " "),
    ];
    for (neighbors, glyph, wall) in cases {
        let app = app_with_coast_and_neighbors(&neighbors);
        assert_eq!(coast_char(&app, 5, 5), glyph);
        assert_eq!(wall_char(&app, 5, 5), wall);
    }
}

#[test]
fn coast_char_at_the_corner_of_the_map() {
    let app = app_with_single_tile(0, 0, Tile::Coast);
    assert_eq!(coast_char(&app, 0, 0), " ");
    let app = app_with_single_tile(1, 0, Tile::Land);
    assert_eq!(coast_char(&app, 0, 0), "-");
}

#[test]
fn the_border_of_a_page_far_out() {
    // Chunks of one tile: the page of the last column that a float can name.
    let mut app = App::new("x".to_string());
    app.world_info = Some(WorldInfo { tile_width: u32::MAX, tile_height: 1, chunk_size: 1 });
    app.cursor = at(3_000_000_000.0, 0.0);
    assert_eq!(app.page_origin(), (3_000_000_000, 0));
    assert!(app.can_compute_chunks());
    app.ensure_chunks_loaded();
    assert_eq!(app.chunk_requests.len(), 202);
    assert_eq!(app.chunk_requests[0], (2_999_999_999, 0));
    assert_eq!(app.chunk_requests[201], (3_000_000_200, 0));
    // The last page is cut off by the end of the map.
    app.cursor = at(4_294_967_295.0, 0.0);
    app.take_requests();
    app.ensure_chunks_loaded();
    assert_eq!(app.chunk_requests.last(), Some(&(u32::MAX - 1, 0)));
}

#[test]
fn no_chunk_is_requested_twice_on_a_voyage() {
    let mut app = App::new("x".to_string());
    app.world_info = Some(WorldInfo { tile_width: 1000, tile_height: 500, chunk_size: 50 });
    app.cursor = at(100.0, 100.0);
    app.ensure_chunks_loaded();
    let mut seen = std::collections::HashSet::new();
    for leg in [(1.0, 0.0), (0.0, 1.0), (-1.0, 0.0), (0.0, -1.0)] {
        for i in 0..400u32 {
            assert!(app.move_cursor(f(leg.0), f(leg.1)));
            for event in app.take_requests() {
                match event {
                    GameEvent::MapChunkRequest { chunk_x, chunk_y } => {
                        assert!(seen.insert((chunk_x, chunk_y)));
                        // Every other chunk comes.
                        if i % 2 == 0 {
                            let key = chunk_key(chunk_x, chunk_y);
                            app.pending_chunks.remove(&key);
                            app.loaded_chunks.insert(key, vec![Tile::Water; 2500]);
                        }
                    }
                    other => panic!("unexpected {other:?}"),
                }
            }
        }
    }
    assert!(seen.len() > 50);
}
