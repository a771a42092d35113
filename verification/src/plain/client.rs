//! The client of the plain game.

use vstd::prelude::*;
use vstd::std_specs::hash::group_hash_axioms;
use vstd::string::StringExecFns;

use crate::client::app::{page_number, App, Bubble, Direction, RemoteBoat, PAGE_TILES_H, PAGE_TILES_W};
use crate::client::input::{
    handle_key as handle_any_key, key_fits, key_handled, KeyCode, KeyEvent, Reply,
};
use crate::client::render::{
    as_signed, between, coast_fits, drawing, hull, in_bold, in_color, is_solid, lemma_drawing_push,
    sail_offset, sail_place, shape, signed, solid_at, Color, Glyph, Mark, MarkView, Style, CANVAS_H,
    F64_ONE, F64_TWO,
};
use crate::client::scene::{
    boat_marks, bubble_marks, can_draw_coast, coast_drawn, coast_page_fits, draw_boat, draw_bubbles, is_drawn,
    page_tile, upright, Page, PAGE_TILES,
};
use crate::client::screens::{input_bar, titled_input_bar, Panel};
use crate::client::session::{run as run_any, turn_fits, turn_taken, AppMsg, Turn};
use crate::float::F64;
use crate::listing::{list_keys, lists};
use crate::protocol::GameEvent;
use crate::text::{decimal, decimal_text};

verus! {

/// How the coast is drawn in the plain game, from what is solid in the north, south, west and
/// east: walls and corners, and nothing where coasts meet.
pub open spec fn wall_glyph(n: bool, s: bool, w: bool, e: bool) -> Seq<char> {
    if !n && !s && (w || e) {
        "|"@
    } else if !w && !e && (n || s) {
        "-"@
    } else if n != s && w != e {
        if n == w {
            "/"@
        } else {
            "\\"@
        }
    } else {
        " "@
    }
}

/// The character for a coastline tile. Only the four neighbours along the axes matter.
pub fn coast_char(app: &App, wx: u32, wy: u32) -> (r: &'static str)
    requires
        coast_fits(*app, wx, wy),
    ensures
        r@ == wall_glyph(
            solid_at(*app, signed(wx), signed(wy) - 1),
            solid_at(*app, signed(wx), signed(wy) + 1),
            solid_at(*app, signed(wx) - 1, signed(wy)),
            solid_at(*app, signed(wx) + 1, signed(wy)),
        ),
{
    let x: i64 = as_signed(wx);
    let y: i64 = as_signed(wy);
    let n: bool = is_solid(app, x, y - 1);
    let s: bool = is_solid(app, x, y + 1);
    let w: bool = is_solid(app, x - 1, y);
    let e: bool = is_solid(app, x + 1, y);
    match (n, s, w, e) {
        // Walls.
        (false, false, true, true) => "|",
        (false, false, true, false) => "|",
        (false, false, false, true) => "|",
        (true, true, false, false) => "-",
        (true, false, false, false) => "-",
        (false, true, false, false) => "-",
        // Corners.
        (false, true, false, true) => "/",
        (true, false, true, false) => "/",
        (false, true, true, false) => "\\",
        (true, false, false, true) => "\\",
        _ => " ",
    }
}

/// The parts of a boat in the plain game, from the top to the bottom where it sails up or down.
pub open spec fn plain_shape(
    name: Seq<char>,
    dir: Direction,
    row_step: F64,
    col_step: F64,
) -> Seq<(F64, F64, Seq<char>)> {
    let zero = F64 { bits: 0 };
    let two = F64 { bits: F64_TWO };
    match dir {
        Direction::Right => seq![
            (zero, zero, hull(name, dir)),
            (sail_offset(hull(name, dir), col_step), row_step, "/|)"@),
        ],
        Direction::Left => seq![
            (zero, zero, hull(name, dir)),
            (sail_offset(hull(name, dir), col_step), row_step, "(|\\"@),
        ],
        Direction::Up => seq![
            (col_step.times(two), row_step.times(two), "^"@),
            (col_step, row_step, "/|\\"@),
            (col_step, zero, "\\ /"@),
        ],
        Direction::Down => seq![
            (col_step, row_step, "/ \\"@),
            (col_step, zero, "\\|/"@),
            (col_step.times(two), row_step.negative(), "V"@),
        ],
    }
}

/// The parts of a boat.
pub fn boat_glyphs(name: &str, dir: Direction, row_step: F64, col_step: F64) -> (r: Vec<Glyph>)
    ensures
        shape(r@) == plain_shape(name@, dir, row_step, col_step),
{
    let zero: F64 = F64 { bits: 0 };
    let two: F64 = F64 { bits: F64_TWO };
    let mut r: Vec<Glyph> = Vec::new();
    match dir {
        Direction::Right => {
            let hull: String = between("/", name, "/");
            let sail_x: F64 = sail_place(hull.as_str(), col_step);
            r.push((zero, zero, hull));
            r.push((sail_x, row_step, "/|)".to_string()));
        },
        Direction::Left => {
            let hull: String = between("\\", name, "\\");
            let sail_x: F64 = sail_place(hull.as_str(), col_step);
            r.push((zero, zero, hull));
            r.push((sail_x, row_step, "(|\\".to_string()));
        },
        Direction::Up => {
            r.push((col_step.mul(two), row_step.mul(two), "^".to_string()));
            r.push((col_step, row_step, "/|\\".to_string()));
            r.push((col_step, zero, "\\ /".to_string()));
        },
        Direction::Down => {
            r.push((col_step, row_step, "/ \\".to_string()));
            r.push((col_step, zero, "\\|/".to_string()));
            r.push((col_step.mul(two), row_step.neg(), "V".to_string()));
        },
    }
    assert(shape(r@) =~= plain_shape(name@, dir, row_step, col_step));
    r
}

/// Whether a key does this to the client of the plain game: what it does in the full game, but
/// that whatever was typed is said, and there is no overview.
pub open spec fn plain_key_handled(
    before: App,
    key: KeyEvent,
    now: u64,
    after: App,
    reply: Reply,
) -> bool {
    if key.press && key.code == KeyCode::Enter && before.input@.len() > 0 {
        let text = before.input;
        &&& after.input@.len() == 0
        &&& after.bubbles@ == before.bubbles@.push(
            Bubble { position: before.cursor, text, received_at: now },
        )
        &&& after == (App { input: after.input, bubbles: after.bubbles, ..before })
        &&& reply == (Reply {
            quit: false,
            send: Some(GameEvent::SayEvent { position: None, text }),
        })
    } else {
        key_handled(before, key, now, after, reply)
    }
}

/// Carries out what a key stands for during the plain game.
pub fn handle_key(app: &mut App, key: KeyEvent, now: u64) -> (reply: Reply)
    requires
        key_fits(*old(app), key),
        !old(app).show_map_overview,
    ensures
        plain_key_handled(*old(app), key, now, *final(app), reply),
{
    if key.press && !app.input.as_str().is_empty() {
        if let KeyCode::Enter = key.code {
            let mut text: String = String::new();
            core::mem::swap(&mut text, &mut app.input);
            app.push_bubble(app.cursor, text.clone(), now);
            return Reply {
                quit: false,
                send: Some(GameEvent::SayEvent { position: None, text }),
            };
        }
    }
    handle_any_key(app, key, now)
}

/// How a tile of the coast is drawn.
pub open spec fn wall_mark(app: App, page: Page, x: u32, y: u32) -> MarkView {
    MarkView {
        x: F64::of_nat((x - page.ox) as nat),
        y: (F64 { bits: CANVAS_H }).minus(F64 { bits: F64_ONE }).minus(
            F64::of_nat((y - page.oy) as nat),
        ),
        text: wall_glyph(
            solid_at(app, signed(x), signed(y) - 1),
            solid_at(app, signed(x), signed(y) + 1),
            solid_at(app, signed(x) - 1, signed(y)),
            solid_at(app, signed(x) + 1, signed(y)),
        ),
        style: in_color(Color::Green),
    }
}

/// The coast on the first tiles of a page.
pub open spec fn wall_marks(app: App, page: Page, tiles: int) -> Seq<MarkView>
    decreases tiles,
{
    if tiles <= 0 {
        Seq::empty()
    } else {
        let (x, y) = page_tile(page, tiles - 1);
        let rest = wall_marks(app, page, tiles - 1);
        if coast_drawn(app, x, y) {
            rest.push(wall_mark(app, page, x, y))
        } else {
            rest
        }
    }
}

/// The boat of another player, wherever it is.
pub open spec fn plain_boat_marks(page: Page, boat: RemoteBoat) -> Seq<MarkView> {
    let p = page.spot(boat.position);
    boat_marks(
        plain_shape(boat.name@, boat.last_dir, page.row_step, page.col_step),
        (p.0, page.boat_row(p.1, boat.last_dir)),
        in_color(Color::Cyan),
    )
}

/// The boats of the other players.
pub open spec fn plain_fleet_marks(
    page: Page,
    boats: Map<u64, RemoteBoat>,
    order: Seq<u64>,
) -> Seq<MarkView>
    decreases order.len(),
{
    if order.len() == 0 {
        Seq::empty()
    } else {
        plain_fleet_marks(page, boats, order.drop_last()) + plain_boat_marks(
            page,
            boats[order.last()],
        )
    }
}

/// The player's own boat.
pub open spec fn plain_own_marks(page: Page, app: App) -> Seq<MarkView> {
    let p = page.spot(app.cursor);
    boat_marks(
        plain_shape(app.my_name@, app.last_dir, page.row_step, page.col_step),
        (p.0, page.boat_row(p.1, app.last_dir)),
        in_bold(Color::Yellow),
    )
}

/// Whether the page around the player can be drawn.
pub open spec fn plain_scene_fits(app: App, page: Page) -> bool {
    &&& upright(app.last_dir) ==> page.tall_enough()
    &&& forall|id: u64| #[trigger]
        app.remote_boats@.contains_key(id) && upright(app.remote_boats@[id].last_dir)
            ==> page.tall_enough()
    &&& coast_page_fits(app, page)
}

/// The page around the player: coast, other boats, own boat, chat.
pub open spec fn plain_scene(app: App, page: Page, now: u64, order: Seq<u64>) -> Seq<MarkView> {
    wall_marks(app, page, PAGE_TILES as int) + plain_fleet_marks(page, app.remote_boats@, order)
        + plain_own_marks(page, app) + bubble_marks(page, app.bubbles@, now)
}

/// Draws the coast of a page.
fn draw_walls(marks: &mut Vec<Mark>, app: &App, page: Page)
    requires
        coast_page_fits(*app, page),
    ensures
        drawing(final(marks)@) == drawing(old(marks)@) + wall_marks(*app, page, PAGE_TILES as int),
{
    let ghost start = drawing(marks@);
    let mut i: u32 = 0;
    assert(start =~= start + wall_marks(*app, page, 0));
    while i < PAGE_TILES
        invariant
            i <= PAGE_TILES,
            coast_page_fits(*app, page),
            drawing(marks@) == start + wall_marks(*app, page, i as int),
        decreases PAGE_TILES - i,
    {
        let x: u32 = page.ox + i % PAGE_TILES_W;
        let y: u32 = page.oy + i / PAGE_TILES_W;
        assert(page_tile(page, i as int) == (x, y));
        if is_drawn(app, x, y) {
            let mark: Mark = Mark {
                x: F64::from_u64((x - page.ox) as u64),
                y: (F64 { bits: CANVAS_H }).sub(F64 { bits: F64_ONE }).sub(
                    F64::from_u64((y - page.oy) as u64),
                ),
                text: coast_char(app, x, y).to_string(),
                style: Style { color: Color::Green, bold: false, reversed: false },
            };
            proof {
                lemma_drawing_push(marks@, mark);
            }
            marks.push(mark);
        }
        i = i + 1;
        assert(drawing(marks@) =~= start + wall_marks(*app, page, i as int));
    }
}

/// Draws the boats of the other players.
fn draw_fleet(marks: &mut Vec<Mark>, app: &App, page: Page, order: &Vec<u64>)
    requires
        plain_scene_fits(*app, page),
        lists(order@, app.remote_boats@.dom()),
    ensures
        drawing(final(marks)@) == drawing(old(marks)@) + plain_fleet_marks(
            page,
            app.remote_boats@,
            order@,
        ),
{
    broadcast use group_hash_axioms;

    let ghost boats = app.remote_boats@;
    let ghost start = drawing(marks@);
    let mut i: usize = 0;
    assert(order@.take(0) =~= Seq::<u64>::empty());
    assert(start =~= start + plain_fleet_marks(page, boats, order@.take(0)));
    while i < order.len()
        invariant
            i <= order.len(),
            boats == app.remote_boats@,
            plain_scene_fits(*app, page),
            lists(order@, boats.dom()),
            drawing(marks@) == start + plain_fleet_marks(page, boats, order@.take(i as int)),
        decreases order.len() - i,
    {
        broadcast use group_hash_axioms;

        let id: u64 = order[i];
        proof {
            assert(order@.contains(id));
            assert(boats.contains_key(id));
            let part = order@.take(i + 1);
            assert(part.drop_last() =~= order@.take(i as int));
            assert(part.last() == id);
        }
        if let Some(boat) = app.remote_boats.get(&id) {
            let p: (F64, F64) = page.world_to_canvas(boat.position);
            let y: F64 = page.clamp_y(p.1, boat.last_dir);
            let glyphs: Vec<Glyph> = boat_glyphs(
                boat.name.as_str(),
                boat.last_dir,
                page.row_step,
                page.col_step,
            );
            draw_boat(
                marks,
                glyphs,
                (p.0, y),
                Style { color: Color::Cyan, bold: false, reversed: false },
            );
        }
        i = i + 1;
        assert(drawing(marks@) =~= start + plain_fleet_marks(page, boats, order@.take(i as int)));
    }
    assert(order@.take(order@.len() as int) =~= order@);
}

/// The drawing of the page around the player; the boats come in any order.
pub fn render(app: &App, page: Page, now: u64) -> (marks: Vec<Mark>)
    requires
        plain_scene_fits(*app, page),
    ensures
        exists|order: Seq<u64>|
            #[trigger] lists(order, app.remote_boats@.dom()) && drawing(marks@) == plain_scene(
                *app,
                page,
                now,
                order,
            ),
{
    let order: Vec<u64> = list_keys(&app.remote_boats);
    let mut marks: Vec<Mark> = Vec::new();
    assert(drawing(marks@) =~= Seq::<MarkView>::empty());
    draw_walls(&mut marks, app, page);
    draw_fleet(&mut marks, app, page, &order);
    let p: (F64, F64) = page.world_to_canvas(app.cursor);
    let y: F64 = page.clamp_y(p.1, app.last_dir);
    let glyphs: Vec<Glyph> = boat_glyphs(
        app.my_name.as_str(),
        app.last_dir,
        page.row_step,
        page.col_step,
    );
    draw_boat(
        &mut marks,
        glyphs,
        (p.0, y),
        Style { color: Color::Yellow, bold: true, reversed: false },
    );
    draw_bubbles(&mut marks, app, page, now);
    assert(drawing(marks@) =~= plain_scene(*app, page, now, order@));
    marks
}

/// The title of the page: position and page number.
pub open spec fn plain_title(app: App) -> Seq<char> {
    "World  ["@ + decimal(app.cursor.x.trunc(u32::MAX as nat)) + ", "@ + decimal(
        app.cursor.y.trunc(u32::MAX as nat),
    ) + "]  page ("@ + decimal(page_number(app.cursor.x, PAGE_TILES_W) as nat) + ", "@ + decimal(
        page_number(app.cursor.y, PAGE_TILES_H) as nat,
    ) + ")"@
}

/// The title of the page.
pub fn world_title(app: &App) -> (r: String)
    ensures
        r@ == plain_title(*app),
{
    let (px, py) = app.current_page();
    let mut r: String = "World  [".to_string();
    r.append(decimal_text(app.cursor.x.to_u32() as u64).as_str());
    r.append(", ");
    r.append(decimal_text(app.cursor.y.to_u32() as u64).as_str());
    r.append("]  page (");
    r.append(decimal_text(px as u64).as_str());
    r.append(", ");
    r.append(decimal_text(py as u64).as_str());
    r.append(")");
    r
}

/// The panel on which chat is typed.
pub fn render_input_bar(app: &App) -> (r: Panel)
    ensures
        r@ == input_bar("Say (Enter to send, Esc to quit)"@, *app),
{
    titled_input_bar("Say (Enter to send, Esc to quit)", app)
}

/// Whether the page around the player can be drawn.
pub fn can_render(app: &App, page: Page) -> (r: bool)
    ensures
        r == plain_scene_fits(*app, page),
{
    broadcast use group_hash_axioms;

    if (app.last_dir == Direction::Up || app.last_dir == Direction::Down) && !page.has_room() {
        return false;
    }
    let order: Vec<u64> = list_keys(&app.remote_boats);
    let ghost boats = app.remote_boats@;
    let mut i: usize = 0;
    while i < order.len()
        invariant
            i <= order.len(),
            boats == app.remote_boats@,
            lists(order@, boats.dom()),
            forall|j: int|
                0 <= j < i && upright(boats[#[trigger] order@[j]].last_dir) ==> page.tall_enough(),
        decreases order.len() - i,
    {
        broadcast use group_hash_axioms;

        let id: u64 = order[i];
        assert(order@.contains(id));
        assert(boats.contains_key(id));
        if let Some(boat) = app.remote_boats.get(&id) {
            let vertical: bool = boat.last_dir == Direction::Up || boat.last_dir == Direction::Down;
            if vertical && !page.has_room() {
                assert(boats.contains_key(id) && upright(boats[id].last_dir));
                return false;
            }
        }
        i = i + 1;
    }
    assert forall|id: u64| #[trigger] boats.contains_key(id) && upright(boats[id].last_dir) implies
        page.tall_enough() by {
        assert(order@.contains(id));
    }
    can_draw_coast(app, page)
}

/// One turn of the plain game: takes in what ended the wait.
pub fn run(app: &mut App, turn: Turn, now: u64, own: &str) -> (reply: Reply)
    requires
        turn_fits(*old(app), turn),
        !old(app).show_map_overview,
    ensures
        match turn {
            Turn::Message(Some(AppMsg::Key(key))) => plain_key_handled(
                *old(app),
                key,
                now,
                *final(app),
                reply,
            ),
            _ => turn_taken(*old(app), turn, now, own@, *final(app), reply),
        },
{
    match turn {
        Turn::Message(Some(AppMsg::Key(key))) => handle_key(app, key, now),
        turn => run_any(app, turn, now, own),
    }
}

} // verus!
