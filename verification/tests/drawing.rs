use black_sea::client::app::{
    chunk_key, App, Direction, OverviewMap, RemoteBoat, UpdateStatus, WorldInfo,
};
use black_sea::client::overview::{
    can_render_overview, overview_title, render, render_map_overview, Screen,
};
use black_sea::client::render::{boat_glyphs, Color, Mark};
use black_sea::client::screens::{
    render_incompatible_screen, render_input_bar, render_name_screen, render_update_warning, Panel,
};
use black_sea::client::scene::{can_render_world, render_world, world_title, Page};
use black_sea::float::{F32, F64};
use black_sea::plain::client::{
    boat_glyphs as plain_glyphs, can_render, render as plain_render, world_title as plain_title,
};
use black_sea::protocol::{AnchorPoint, Position};
use black_sea::tiles::Tile;

fn f(v: f32) -> F32 {
    F32::from_bits(v.to_bits())
}

fn d(v: f64) -> F64 {
    F64::from_bits(v.to_bits())
}

fn num(v: F64) -> f64 {
    f64::from_bits(v.to_bits())
}

fn at(x: f32, y: f32) -> Position {
    Position { x: f(x), y: f(y) }
}

fn parts(glyphs: &[(F64, F64, String)]) -> Vec<(f64, f64, &str)> {
    glyphs.iter().map(|(x, y, s)| (num(*x), num(*y), s.as_str())).collect()
}

fn app() -> App {
    let mut app = App::new("Ada".to_string());
    app.world_info = Some(WorldInfo { tile_width: 400, tile_height: 100, chunk_size: 50 });
    app.cursor = at(210.0, 60.0);
    app
}

fn places(marks: &[Mark]) -> Vec<(f64, f64, &str, Color)> {
    marks.iter().map(|m| (num(m.x), num(m.y), m.text.as_str(), m.style.color)).collect()
}

#[test]
fn boats_by_their_heading() {
    let g = boat_glyphs("Ada", Direction::Right, d(2.0), d(0.5));
    assert_eq!(parts(&g), vec![(0.0, 0.0, "/Ada/"), (0.5, 2.0, "/|)")]);
    let g = boat_glyphs("A", Direction::Left, d(2.0), d(0.5));
    assert_eq!(parts(&g), vec![(0.0, 0.0, "\\A\\"), (0.0, 2.0, "(|\\")]);
    let g = boat_glyphs("Ada", Direction::Up, d(2.0), d(0.5));
    assert_eq!(parts(&g), vec![(0.0, 0.0, "\\ /"), (0.0, 2.0, "/|\\"), (0.5, 4.0, "^")]);
    let g = boat_glyphs("Ada", Direction::Down, d(2.0), d(0.5));
    assert_eq!(parts(&g), vec![(0.0, 0.0, "\\|/"), (0.0, 2.0, "/ \\"), (0.5, -2.0, "V")]);
    // The length of a hull counts bytes.
    let g = boat_glyphs("Möja", Direction::Right, d(1.0), d(1.0));
    assert_eq!(num(g[1].0), 2.0);
    // A hull without a name is shorter than its sail.
    let g = boat_glyphs("", Direction::Right, d(1.0), d(1.0));
    assert_eq!(num(g[1].0), 0.0);
}

#[test]
fn plain_boats_by_their_heading() {
    let g = plain_glyphs("Ada", Direction::Right, d(2.0), d(0.5));
    assert_eq!(parts(&g), vec![(0.0, 0.0, "/Ada/"), (0.5, 2.0, "/|)")]);
    let g = plain_glyphs("A", Direction::Left, d(2.0), d(0.5));
    assert_eq!(parts(&g), vec![(0.0, 0.0, "\\A\\"), (0.0, 2.0, "(|\\")]);
    let g = plain_glyphs("Ada", Direction::Up, d(2.0), d(0.5));
    assert_eq!(parts(&g), vec![(1.0, 4.0, "^"), (0.5, 2.0, "/|\\"), (0.5, 0.0, "\\ /")]);
    let g = plain_glyphs("Ada", Direction::Down, d(2.0), d(0.5));
    assert_eq!(parts(&g), vec![(0.5, 2.0, "/ \\"), (0.5, 0.0, "\\|/"), (1.0, -2.0, "V")]);
}

#[test]
fn a_page_and_its_cells() {
    let app = app();
    // 203 cells with a frame leave 201, one unit apart; 28 rows leave 26, two units apart.
    let page = Page::of(&app, 203, 28);
    assert_eq!((page.ox, page.oy), (200, 50));
    assert_eq!(num(page.col_step), 1.0);
    assert_eq!(num(page.row_step), 2.0);
    let (x, y) = page.world_to_canvas(at(210.5, 60.0));
    assert_eq!((num(x), num(y)), (10.5, 39.0));
    // Boats that sail up or down are kept below the top.
    assert_eq!(num(page.clamp_y(d(49.0), Direction::Up)), 44.0);
    assert_eq!(num(page.clamp_y(d(-3.0), Direction::Down)), 0.0);
    assert_eq!(num(page.clamp_y(d(49.0), Direction::Left)), 49.0);
    // An area without any room inside.
    let page = Page::of(&app, 1, 2);
    assert_eq!((num(page.col_step), num(page.row_step)), (1.0, 1.0));
}

#[test]
fn the_page_in_the_order_of_drawing() {
    let mut app = app();
    let mut data = vec![Tile::Water; 2500];
    // Coast at (205, 52) with land to its east; an islet of coast at (230, 70).
    data[2 * 50 + 5] = Tile::Coast;
    data[2 * 50 + 6] = Tile::Land;
    data[20 * 50 + 30] = Tile::Coast;
    app.loaded_chunks.insert(chunk_key(4, 1), data);
    app.remote_boats.insert(
        1,
        RemoteBoat { position: at(220.0, 80.0), name: "B".to_string(), last_dir: Direction::Left },
    );
    app.push_bubble(at(210.0, 60.0), "ahoy".to_string(), 0);
    let page = Page::of(&app, 203, 28);
    assert!(can_render_world(&app, page));
    let marks = render_world(&app, page, 3_499_999_999);
    assert_eq!(
        places(&marks),
        vec![
            (5.0, 47.0, "-", Color::Green),
            (20.0, 19.0, "\\B\\", Color::Cyan),
            (20.0, 21.0, "(|\\", Color::Cyan),
            (10.0, 39.0, "/Ada/", Color::Yellow),
            (11.0, 41.0, "/|)", Color::Yellow),
            (10.0, 42.0, "[ ahoy ]", Color::White),
        ]
    );
    assert!(marks[3].style.bold);
    // Later the bubble is dim.
    let marks = render_world(&app, page, 3_500_000_000);
    assert_eq!(marks[5].style.color, Color::DarkGray);
    // The plain game draws walls.
    assert!(can_render(&app, page));
    let marks = plain_render(&app, page, 0);
    assert_eq!(places(&marks)[0], (5.0, 47.0, "|", Color::Green));
    assert_eq!(marks.len(), 6);
}

#[test]
fn boats_elsewhere_leave_a_hint() {
    let mut app = app();
    let far = |x: f32, y: f32| RemoteBoat {
        position: at(x, y),
        name: "B".to_string(),
        last_dir: Direction::Up,
    };
    // 300 to the right of the middle of the canvas, on its height.
    app.remote_boats.insert(1, far(600.0, 74.0));
    let page = Page::of(&app, 203, 28);
    let marks = render_world(&app, page, 0);
    assert_eq!(places(&marks)[2], (200.0, 25.0, "*", Color::Cyan));
    assert_eq!(marks.len(), 3);
    // Far in the south.
    app.remote_boats.clear();
    app.remote_boats.insert(1, far(300.0, 174.0));
    let marks = render_world(&app, page, 0);
    assert_eq!(places(&marks)[2], (100.0, 0.0, "*", Color::Cyan));
    // Towards a corner, the nearer border counts.
    app.remote_boats.clear();
    app.remote_boats.insert(1, far(100.0, 174.0));
    let marks = render_world(&app, page, 0);
    assert_eq!(places(&marks)[2], (50.0, 0.0, "*", Color::Cyan));
}

#[test]
fn pages_that_are_too_low() {
    let mut app = app();
    // Two rows inside: no room for a boat that sails up.
    let page = Page::of(&app, 80, 4);
    assert!(!page.has_room());
    assert!(can_render_world(&app, page));
    assert!(can_render(&app, page));
    app.last_dir = Direction::Up;
    assert!(!can_render_world(&app, page));
    assert!(!can_render(&app, page));
    app.last_dir = Direction::Left;
    let boat = |x: f32| RemoteBoat {
        position: at(x, 60.0),
        name: "B".to_string(),
        last_dir: Direction::Down,
    };
    // A boat elsewhere does not matter but in the plain game.
    app.remote_boats.insert(1, boat(500.0));
    assert!(can_render_world(&app, page));
    assert!(!can_render(&app, page));
    app.remote_boats.insert(1, boat(210.0));
    assert!(!can_render_world(&app, page));
}

#[test]
fn titles() {
    let mut app = app();
    app.cursor = at(210.9, 60.0);
    assert_eq!(
        world_title(&app),
        "World  [210, 60]  page (1, 1)  · server version unknown"
    );
    app.update_status = UpdateStatus::Compatible { patch_available: None };
    assert_eq!(world_title(&app), "World  [210, 60]  page (1, 1)");
    app.update_status = UpdateStatus::Compatible { patch_available: Some("1.2.4".to_string()) };
    assert_eq!(
        world_title(&app),
        "World  [210, 60]  page (1, 1)  · v1.2.4 available — brew upgrade black-sea"
    );
    assert_eq!(plain_title(&app), "World  [210, 60]  page (1, 1)");
    assert_eq!(render(&app), Screen::World);
    app.update_status = UpdateStatus::Incompatible { server_version: "2.0.0".to_string() };
    assert_eq!(render(&app), Screen::WorldWithWarning);
    app.show_map_overview = true;
    assert_eq!(render(&app), Screen::Overview);
}

fn lines(panel: &Panel) -> Vec<String> {
    panel.lines.iter().map(|l| l.iter().map(|s| s.text.as_str()).collect()).collect()
}

#[test]
fn panels() {
    let panel = render_update_warning("2.0.0");
    assert_eq!(panel.title, "Client update required");
    assert_eq!(
        lines(&panel),
        vec!["  Server is v2.0.0 — your client is outdated.  Run: brew upgrade black-sea"]
    );
    assert_eq!(panel.lines[0][0].style.color, Color::Red);
    assert!(panel.lines[0][0].style.bold);

    let panel = render_name_screen("");
    assert_eq!(
        lines(&panel),
        vec!["Welcome to Black Sea", "", "> _", "  your boat: type your name…"]
    );
    let panel = render_name_screen("Ada");
    assert_eq!(panel.title, "Enter your boat name (Enter to sail)");
    assert_eq!(lines(&panel), vec!["Welcome to Black Sea", "", "> Ada_", "  your boat: /Ada/"]);
    assert_eq!(panel.lines[2][0].style.color, Color::Yellow);
    assert_eq!(panel.lines[2][1].style.color, Color::Default);
    assert_eq!(panel.lines[3][0].style.color, Color::DarkGray);

    let panel = render_incompatible_screen("2.0.0", "1.0.0");
    assert_eq!(panel.title, "Update required — cannot connect");
    assert_eq!(
        lines(&panel),
        vec![
            "  Client / server version mismatch",
            "",
            "  Server is running protocol v2.0.0",
            "  Your client is v1.0.0",
            "",
            "  Run:  brew upgrade black-sea",
            "",
            "  Press Enter or q to exit.",
        ]
    );
    assert_eq!(panel.lines[5][0].style.color, Color::Cyan);

    let mut app = app();
    app.input = "ahoy".to_string();
    let panel = render_input_bar(&app);
    assert_eq!(panel.title, "Say (Enter to send, Esc to quit, /map for map)");
    assert_eq!(lines(&panel), vec!["> ahoy"]);
}

fn anchor(id: u32, name: &str, note: Option<&str>) -> AnchorPoint {
    AnchorPoint {
        id,
        name: name.to_string(),
        position: at(4250.0, 2750.0),
        note: note.map(|s| s.to_string()),
    }
}

#[test]
fn the_overview() {
    let mut app = app();
    app.cursor = at(8500.0, 0.0);
    app.anchor_points = vec![
        anchor(7, "Sandhamn", Some("busy")),
        anchor(8, "Möja", Some("")),
        anchor(9, "Finnhamn", None),
        anchor(10, "Utö", None),
    ];
    app.visited_anchors.insert(7);
    app.visited_anchors.insert(8);
    app.selected_anchor = Some(0);
    let ov = OverviewMap {
        width: 3,
        height: 2,
        data: vec![
            Tile::Land,
            Tile::Coast,
            Tile::Water,
            Tile::Water,
            Tile::Water,
            Tile::Land,
        ],
    };
    assert!(can_render_overview(&ov));
    let marks = render_map_overview(&app, &ov);
    assert_eq!(
        places(&marks),
        vec![
            (0.0, 1.0, "#", Color::DarkGray),
            (1.0, 1.0, ".", Color::Green),
            (2.0, 0.0, "#", Color::DarkGray),
            (1.5, 0.0, "\u{2693}", Color::DarkGray),
            (1.5, 0.0, "\u{2693}", Color::DarkGray),
            (1.5, 0.0, "\u{2693}", Color::Magenta),
            (1.5, 0.0, "\u{2693}", Color::Magenta),
            (3.0, 1.0, "X", Color::Yellow),
        ]
    );
    assert!(marks[3].style.reversed && !marks[3].style.bold);
    assert!(!marks[4].style.reversed && !marks[4].style.bold);
    assert!(marks[5].style.bold && !marks[5].style.reversed);
    let help = "]  (Tab: cycle anchors · Enter: mark visited · Esc: close)";
    let head = format!("Map Overview  [8500, 0{help}");
    assert_eq!(overview_title(&app), format!("{head}  · Sandhamn [visited] — busy"));
    app.selected_anchor = Some(1);
    assert_eq!(overview_title(&app), format!("{head}  · Möja [visited]"));
    app.selected_anchor = Some(2);
    assert_eq!(overview_title(&app), format!("{head}  · Finnhamn"));
    app.selected_anchor = Some(4);
    assert_eq!(overview_title(&app), head);
    app.selected_anchor = None;
    assert_eq!(overview_title(&app), head);
    // An overview with fewer tiles than its size says cannot be drawn.
    let ov = OverviewMap { width: 3, height: 2, data: vec![Tile::Land; 5] };
    assert!(!can_render_overview(&ov));
    let ov = OverviewMap { width: 0, height: 2, data: vec![] };
    assert!(can_render_overview(&ov));
}

#[test]
fn the_plain_input_bar() {
    let panel = black_sea::plain::client::render_input_bar(&app());
    assert_eq!(panel.title, "Say (Enter to send, Esc to quit)");
}
