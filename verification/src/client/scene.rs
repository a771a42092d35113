//! The drawing of the page around the player.

use vstd::prelude::*;
use vstd::std_specs::hash::group_hash_axioms;
use vstd::string::StringExecFns;

use crate::float::{F32, F64};
use crate::listing::{list_keys, lists};
use crate::protocol::Position;
use crate::text::{decimal, decimal_text};
use crate::tiles::Tile;

use super::app::{
    page_number, App, Bubble, Direction, RemoteBoat, UpdateStatus, BUBBLE_OFFSET, PAGE_TILES_H,
    PAGE_TILES_W,
};
use super::render::{
    boat_glyphs, boat_shape, can_pick_coast_char, coast_char, coast_fits, coast_glyph, drawing,
    in_bold, in_color, is_solid_tile, lemma_drawing_push, shape, signed, solid, solid_at, Color,
    Glyph, Mark, MarkView, Style, BUBBLE_BRIGHT, CANVAS_H, CANVAS_W, F64_MAX, F64_ONE, F64_THREE,
    F64_TWO,
};

verus! {

/// The part of the map that is drawn, and how far apart the cells of the terminal are on it.
#[derive(Debug, Clone, Copy)]
pub struct Page {
    pub ox: u32,
    pub oy: u32,
    pub row_step: F64,
    pub col_step: F64,
}

/// How far apart the cells of the terminal are on a canvas, for an area of so many cells with a
/// frame around it.
pub open spec fn cell_step(size: u16, canvas: F64) -> F64 {
    let one = F64 { bits: F64_ONE };
    let inner = F64::of_nat(if size >= 2 { (size - 2) as nat } else { 0 });
    if one.below(inner) {
        canvas.over(inner.minus(one))
    } else {
        one
    }
}

/// The page that the player is on, drawn to an area of so many cells.
pub open spec fn page_of(app: App, width: u16, height: u16) -> Page {
    Page {
        ox: app.origin().0 as u32,
        oy: app.origin().1 as u32,
        row_step: cell_step(height, F64 { bits: CANVAS_H }),
        col_step: cell_step(width, F64 { bits: CANVAS_W }),
    }
}

impl Page {
    /// Where a position lies on the canvas; rows of the map go down, those of the canvas up.
    pub open spec fn spot(self, p: Position) -> (F64, F64) {
        (
            p.x.to_f64_number().minus(F64::of_nat(self.ox as nat)),
            (F64 { bits: CANVAS_H }).minus(F64 { bits: F64_ONE }).minus(
                p.y.to_f64_number().minus(F64::of_nat(self.oy as nat)),
            ),
        )
    }

    /// The highest place for a boat that sails up or down.
    pub open spec fn ceiling(self) -> F64 {
        (F64 { bits: CANVAS_H }).minus(self.row_step.times(F64 { bits: F64_THREE }))
    }

    /// Whether there is room for a boat that sails up or down.
    pub open spec fn tall_enough(self) -> bool {
        (F64 { bits: 0 }).at_most(self.ceiling())
    }

    /// The row of a boat: one that sails up or down is kept on the canvas.
    pub open spec fn boat_row(self, y: F64, dir: Direction) -> F64 {
        if upright(dir) {
            y.clamped(F64 { bits: 0 }, self.ceiling())
        } else {
            y
        }
    }
}

/// Whether a boat sails up or down.
pub open spec fn upright(dir: Direction) -> bool {
    dir == Direction::Up || dir == Direction::Down
}

/// Whether a place is beyond the canvas.
pub open spec fn beyond(p: (F64, F64)) -> bool {
    let zero = F64 { bits: 0 };
    p.0.below(zero) || (F64 { bits: CANVAS_W }).below(p.0) || p.1.below(zero) || (F64 {
        bits: CANVAS_H,
    }).below(p.1)
}

/// Whether a place is on the canvas.
pub open spec fn within(p: (F64, F64)) -> bool {
    let zero = F64 { bits: 0 };
    zero.at_most(p.0) && p.0.at_most(F64 { bits: CANVAS_W }) && zero.at_most(p.1) && p.1.at_most(
        F64 { bits: CANVAS_H },
    )
}

/// A boat at a place.
pub open spec fn boat_marks(
    glyphs: Seq<(F64, F64, Seq<char>)>,
    p: (F64, F64),
    style: Style,
) -> Seq<MarkView> {
    glyphs.map_values(
        |g: (F64, F64, Seq<char>)|
            MarkView { x: p.0.plus(g.0), y: p.1.plus(g.1), text: g.2, style },
    )
}

/// The boat of another player, if it is on the canvas.
pub open spec fn remote_boat_marks(page: Page, boat: RemoteBoat) -> Seq<MarkView> {
    let p = page.spot(boat.position);
    if beyond(p) {
        Seq::empty()
    } else {
        boat_marks(
            boat_shape(boat.name@, boat.last_dir, page.row_step, page.col_step),
            (p.0, page.boat_row(p.1, boat.last_dir)),
            in_color(Color::Cyan),
        )
    }
}

/// The boats of the other players.
pub open spec fn remote_marks(
    page: Page,
    boats: Map<u64, RemoteBoat>,
    order: Seq<u64>,
) -> Seq<MarkView>
    decreases order.len(),
{
    if order.len() == 0 {
        Seq::empty()
    } else {
        remote_marks(page, boats, order.drop_last()) + remote_boat_marks(page, boats[order.last()])
    }
}

/// Whether a boat can be drawn.
pub open spec fn boat_fits(page: Page, boat: RemoteBoat) -> bool {
    !beyond(page.spot(boat.position)) && upright(boat.last_dir) ==> page.tall_enough()
}

/// Whether all the boats of other players can be drawn.
pub open spec fn boats_fit(page: Page, boats: Map<u64, RemoteBoat>) -> bool {
    forall|id: u64| #[trigger] boats.contains_key(id) ==> boat_fits(page, boats[id])
}

/// The player's own boat.
pub open spec fn own_marks(page: Page, app: App) -> Seq<MarkView> {
    let p = page.spot(app.cursor);
    boat_marks(
        boat_shape(app.my_name@, app.last_dir, page.row_step, page.col_step),
        (p.0, page.boat_row(p.1, app.last_dir)),
        in_bold(Color::Yellow),
    )
}

/// How many times a leg fits between the middle of the canvas and its border.
pub open spec fn reach(leg: F64, size: F64) -> F64 {
    let zero = F64 { bits: 0 };
    let center = size.over(F64 { bits: F64_TWO });
    if zero.below(leg) {
        size.minus(center).over(leg)
    } else if leg.below(zero) {
        center.negative().over(leg)
    } else {
        F64 { bits: F64_MAX }
    }
}

/// Whether a number is zero.
pub open spec fn is_zero(v: F64) -> bool {
    v.at_most(F64 { bits: 0 }) && (F64 { bits: 0 }).at_most(v)
}

/// The hint at a boat that is not on the canvas: on the border, on the line from the middle to
/// the boat.
pub open spec fn hint_marks(p: (F64, F64)) -> Seq<MarkView> {
    let w = F64 { bits: CANVAS_W };
    let h = F64 { bits: CANVAS_H };
    let zero = F64 { bits: 0 };
    let cx = w.over(F64 { bits: F64_TWO });
    let cy = h.over(F64 { bits: F64_TWO });
    let dx = p.0.minus(cx);
    let dy = p.1.minus(cy);
    if within(p) || is_zero(dx) && is_zero(dy) {
        Seq::empty()
    } else {
        let t = (F64 { bits: F64_MAX }).smaller(reach(dx, w)).smaller(reach(dy, h));
        seq![
            MarkView {
                x: cx.plus(t.times(dx)).clamped(zero, w),
                y: cy.plus(t.times(dy)).clamped(zero, h),
                text: "*"@,
                style: in_color(Color::Cyan),
            },
        ]
    }
}

/// The hints at the boats that are not on the canvas.
pub open spec fn offscreen_marks(
    page: Page,
    boats: Map<u64, RemoteBoat>,
    order: Seq<u64>,
) -> Seq<MarkView>
    decreases order.len(),
{
    if order.len() == 0 {
        Seq::empty()
    } else {
        offscreen_marks(page, boats, order.drop_last()) + hint_marks(
            page.spot(boats[order.last()].position),
        )
    }
}

/// A chat bubble: bright at first, dim later.
pub open spec fn bubble_mark(page: Page, bubble: Bubble, now: u64) -> MarkView {
    let p = page.spot(bubble.position);
    MarkView {
        x: p.0,
        y: p.1.plus((F32 { bits: BUBBLE_OFFSET }).to_f64_number()),
        text: "[ "@ + bubble.text@ + " ]"@,
        style: in_color(
            if bubble.age(now) < BUBBLE_BRIGHT {
                Color::White
            } else {
                Color::DarkGray
            },
        ),
    }
}

/// The chat bubbles.
pub open spec fn bubble_marks(page: Page, bubbles: Seq<Bubble>, now: u64) -> Seq<MarkView> {
    bubbles.map_values(|b: Bubble| bubble_mark(page, b, now))
}

/// The tile number before another; the one before the first is the last of all.
pub open spec fn before(v: u32) -> u32 {
    if v == 0 {
        u32::MAX
    } else {
        (v - 1) as u32
    }
}

/// Whether a tile of the coast has something solid next to it. Others are left out: at this scale
/// they read as noise.
pub open spec fn coast_drawn(app: App, x: u32, y: u32) -> bool {
    &&& app.known_tile(x, y) == Some(Tile::Coast)
    &&& solid(app, before(x), y) || solid(app, (x + 1) as u32, y) || solid(app, x, before(y))
        || solid(app, x, (y + 1) as u32)
}

/// Whether a tile can be looked at, with its neighbours up to the first solid one.
pub open spec fn coast_tile_fits(app: App, x: u32, y: u32) -> bool {
    let left = before(x);
    let right = (x + 1) as u32;
    let up = before(y);
    let down = (y + 1) as u32;
    &&& app.lookup_fits(x, y)
    &&& app.known_tile(x, y) == Some(Tile::Coast) ==> {
        &&& app.lookup_fits(left, y)
        &&& !solid(app, left, y) ==> app.lookup_fits(right, y)
        &&& !solid(app, left, y) && !solid(app, right, y) ==> app.lookup_fits(x, up)
        &&& !solid(app, left, y) && !solid(app, right, y) && !solid(app, x, up)
            ==> app.lookup_fits(x, down)
    }
    &&& coast_drawn(app, x, y) ==> coast_fits(app, x, y)
}

/// How many tiles a page has.
pub const PAGE_TILES: u32 = 10_000;

/// A tile of a page, by its number from the north-west, row by row.
pub open spec fn page_tile(page: Page, i: int) -> (u32, u32) {
    (
        (page.ox + i % (PAGE_TILES_W as int)) as u32,
        (page.oy + i / (PAGE_TILES_W as int)) as u32,
    )
}

/// How a tile of the coast is drawn.
pub open spec fn coast_mark(app: App, page: Page, x: u32, y: u32) -> MarkView {
    MarkView {
        x: F64::of_nat((x - page.ox) as nat),
        y: (F64 { bits: CANVAS_H }).minus(F64 { bits: F64_ONE }).minus(
            F64::of_nat((y - page.oy) as nat),
        ),
        text: coast_glyph(
            solid_at(app, signed(x), signed(y) - 1),
            solid_at(app, signed(x), signed(y) + 1),
            solid_at(app, signed(x) - 1, signed(y)),
            solid_at(app, signed(x) + 1, signed(y)),
        ),
        style: in_color(Color::Green),
    }
}

/// The coast on the first tiles of a page.
pub open spec fn coast_marks(app: App, page: Page, tiles: int) -> Seq<MarkView>
    decreases tiles,
{
    if tiles <= 0 {
        Seq::empty()
    } else {
        let (x, y) = page_tile(page, tiles - 1);
        let rest = coast_marks(app, page, tiles - 1);
        if coast_drawn(app, x, y) {
            rest.push(coast_mark(app, page, x, y))
        } else {
            rest
        }
    }
}

/// Whether all tiles of a page can be looked at.
pub open spec fn coast_page_fits(app: App, page: Page) -> bool {
    &&& page.ox + PAGE_TILES_W <= u32::MAX
    &&& page.oy + PAGE_TILES_H <= u32::MAX
    &&& forall|i: int|
        0 <= i < PAGE_TILES ==> coast_tile_fits(
            app,
            (#[trigger] page_tile(page, i)).0,
            page_tile(page, i).1,
        )
}

/// Whether the page around the player can be drawn.
pub open spec fn scene_fits(app: App, page: Page) -> bool {
    &&& upright(app.last_dir) ==> page.tall_enough()
    &&& boats_fit(page, app.remote_boats@)
    &&& coast_page_fits(app, page)
}

/// The page around the player: coast, other boats, own boat, hints at boats elsewhere, chat.
pub open spec fn scene(app: App, page: Page, now: u64, order: Seq<u64>) -> Seq<MarkView> {
    coast_marks(app, page, PAGE_TILES as int) + remote_marks(page, app.remote_boats@, order)
        + own_marks(page, app) + offscreen_marks(page, app.remote_boats@, order) + bubble_marks(
        page,
        app.bubbles@,
        now,
    )
}

/// How far apart the cells of the terminal are on a canvas.
fn step_of_cells(size: u16, canvas: F64) -> (r: F64)
    ensures
        r == cell_step(size, canvas),
{
    let one: F64 = F64 { bits: F64_ONE };
    let inner: F64 = F64::from_u64(
        if size >= 2 {
            size as u64 - 2
        } else {
            0
        },
    );
    if one.lt(inner) {
        canvas.div(inner.sub(one))
    } else {
        one
    }
}

impl Page {
    /// The page that the player is on, drawn to an area of so many cells.
    pub fn of(app: &App, width: u16, height: u16) -> (r: Page)
        ensures
            r == page_of(*app, width, height),
    {
        let (ox, oy) = app.page_origin();
        Page {
            ox,
            oy,
            row_step: step_of_cells(height, F64 { bits: CANVAS_H }),
            col_step: step_of_cells(width, F64 { bits: CANVAS_W }),
        }
    }

    /// Where a position lies on the canvas.
    pub fn world_to_canvas(&self, p: Position) -> (r: (F64, F64))
        ensures
            r == self.spot(p),
    {
        (
            p.x.to_f64().sub(F64::from_u64(self.ox as u64)),
            (F64 { bits: CANVAS_H }).sub(F64 { bits: F64_ONE }).sub(
                p.y.to_f64().sub(F64::from_u64(self.oy as u64)),
            ),
        )
    }

    /// The highest place for a boat that sails up or down.
    fn top(&self) -> (r: F64)
        ensures
            r == self.ceiling(),
    {
        (F64 { bits: CANVAS_H }).sub(self.row_step.mul(F64 { bits: F64_THREE }))
    }

    /// Whether there is room for a boat that sails up or down.
    pub fn has_room(&self) -> (r: bool)
        ensures
            r == self.tall_enough(),
    {
        (F64 { bits: 0 }).le(self.top())
    }

    /// The row of a boat.
    pub fn clamp_y(&self, y: F64, dir: Direction) -> (r: F64)
        requires
            upright(dir) ==> self.tall_enough(),
        ensures
            r == self.boat_row(y, dir),
    {
        match dir {
            Direction::Up => y.clamp(F64 { bits: 0 }, self.top()),
            Direction::Down => y.clamp(F64 { bits: 0 }, self.top()),
            _ => y,
        }
    }
}

/// Whether a place is beyond the canvas.
fn is_beyond(p: (F64, F64)) -> (r: bool)
    ensures
        r == beyond(p),
{
    let zero: F64 = F64 { bits: 0 };
    p.0.lt(zero) || (F64 { bits: CANVAS_W }).lt(p.0) || p.1.lt(zero) || (F64 {
        bits: CANVAS_H,
    }).lt(p.1)
}

/// Whether a place is on the canvas.
fn is_within(p: (F64, F64)) -> (r: bool)
    ensures
        r == within(p),
{
    let zero: F64 = F64 { bits: 0 };
    zero.le(p.0) && p.0.le(F64 { bits: CANVAS_W }) && zero.le(p.1) && p.1.le(
        F64 { bits: CANVAS_H },
    )
}

/// Draws a boat at a place.
pub(crate) fn draw_boat(marks: &mut Vec<Mark>, glyphs: Vec<Glyph>, p: (F64, F64), style: Style)
    ensures
        drawing(final(marks)@) == drawing(old(marks)@) + boat_marks(shape(glyphs@), p, style),
{
    let ghost all = glyphs@;
    let ghost start = drawing(marks@);
    let ghost want = boat_marks(shape(all), p, style);
    for g in it: glyphs
        invariant
            it.seq() == all,
            want == boat_marks(shape(all), p, style),
            drawing(marks@) == start + want.take(it.index()),
    {
        let mark: Mark = Mark { x: p.0.add(g.0), y: p.1.add(g.1), text: g.2, style };
        proof {
            lemma_drawing_push(marks@, mark);
        }
        marks.push(mark);
        assert(drawing(marks@) =~= start + want.take(it.index() + 1));
    }
    assert(want.take(all.len() as int) =~= want);
}

/// Draws the boats of the other players.
fn draw_remote_boats(marks: &mut Vec<Mark>, app: &App, page: Page, order: &Vec<u64>)
    requires
        boats_fit(page, app.remote_boats@),
        lists(order@, app.remote_boats@.dom()),
    ensures
        drawing(final(marks)@) == drawing(old(marks)@) + remote_marks(
            page,
            app.remote_boats@,
            order@,
        ),
{
    broadcast use group_hash_axioms;

    let ghost boats = app.remote_boats@;
    let ghost start = drawing(marks@);
    let mut i: usize = 0;
    assert(order@.take(0) =~= Seq::<u64>::empty());
    assert(start =~= start + remote_marks(page, boats, order@.take(0)));
    while i < order.len()
        invariant
            i <= order.len(),
            boats == app.remote_boats@,
            boats_fit(page, boats),
            lists(order@, boats.dom()),
            drawing(marks@) == start + remote_marks(page, boats, order@.take(i as int)),
        decreases order.len() - i,
    {
        broadcast use group_hash_axioms;

        let id: u64 = order[i];
        proof {
            assert(order@.contains(id));
            assert(boats.contains_key(id));
            let part = order@.take(i + 1);
            assert(part.drop_last() =~= order@.take(i as int));
            assert(part.last() == id);
        }
        let ghost sofar = drawing(marks@);
        if let Some(boat) = app.remote_boats.get(&id) {
            let p: (F64, F64) = page.world_to_canvas(boat.position);
            if !is_beyond(p) {
                let y: F64 = page.clamp_y(p.1, boat.last_dir);
                let glyphs: Vec<Glyph> = boat_glyphs(
                    boat.name.as_str(),
                    boat.last_dir,
                    page.row_step,
                    page.col_step,
                );
                draw_boat(
                    marks,
                    glyphs,
                    (p.0, y),
                    Style { color: Color::Cyan, bold: false, reversed: false },
                );
            }
        }
        i = i + 1;
        assert(drawing(marks@) =~= start + remote_marks(page, boats, order@.take(i as int)));
    }
    assert(order@.take(order@.len() as int) =~= order@);
}

/// Draws the player's own boat.
fn draw_own_boat(marks: &mut Vec<Mark>, app: &App, page: Page)
    requires
        upright(app.last_dir) ==> page.tall_enough(),
    ensures
        drawing(final(marks)@) == drawing(old(marks)@) + own_marks(page, *app),
{
    let p: (F64, F64) = page.world_to_canvas(app.cursor);
    let y: F64 = page.clamp_y(p.1, app.last_dir);
    let glyphs: Vec<Glyph> = boat_glyphs(
        app.my_name.as_str(),
        app.last_dir,
        page.row_step,
        page.col_step,
    );
    draw_boat(
        marks,
        glyphs,
        (p.0, y),
        Style { color: Color::Yellow, bold: true, reversed: false },
    );
}

/// How many times a leg fits between the middle of the canvas and its border.
fn reach_of(leg: F64, size: F64) -> (r: F64)
    ensures
        r == reach(leg, size),
{
    let zero: F64 = F64 { bits: 0 };
    let center: F64 = size.div(F64 { bits: F64_TWO });
    if zero.lt(leg) {
        size.sub(center).div(leg)
    } else if leg.lt(zero) {
        center.neg().div(leg)
    } else {
        F64 { bits: F64_MAX }
    }
}

/// The hint at a boat that is not on the canvas.
fn hint(p: (F64, F64)) -> (r: Option<Mark>)
    ensures
        match r {
            Some(m) => hint_marks(p) == seq![m@],
            None => hint_marks(p) == Seq::<MarkView>::empty(),
        },
{
    let zero: F64 = F64 { bits: 0 };
    let w: F64 = F64 { bits: CANVAS_W };
    let h: F64 = F64 { bits: CANVAS_H };
    let cx: F64 = w.div(F64 { bits: F64_TWO });
    let cy: F64 = h.div(F64 { bits: F64_TWO });
    let dx: F64 = p.0.sub(cx);
    let dy: F64 = p.1.sub(cy);
    if is_within(p) || dx.le(zero) && zero.le(dx) && dy.le(zero) && zero.le(dy) {
        return None;
    }
    let t: F64 = (F64 { bits: F64_MAX }).min(reach_of(dx, w)).min(reach_of(dy, h));
    Some(
        Mark {
            x: cx.add(t.mul(dx)).clamp(zero, w),
            y: cy.add(t.mul(dy)).clamp(zero, h),
            text: "*".to_string(),
            style: Style { color: Color::Cyan, bold: false, reversed: false },
        },
    )
}

/// Draws the hints at the boats that are not on the canvas.
fn draw_offscreen_indicators(marks: &mut Vec<Mark>, app: &App, page: Page, order: &Vec<u64>)
    requires
        lists(order@, app.remote_boats@.dom()),
    ensures
        drawing(final(marks)@) == drawing(old(marks)@) + offscreen_marks(
            page,
            app.remote_boats@,
            order@,
        ),
{
    broadcast use group_hash_axioms;

    let ghost boats = app.remote_boats@;
    let ghost start = drawing(marks@);
    let mut i: usize = 0;
    assert(order@.take(0) =~= Seq::<u64>::empty());
    assert(start =~= start + offscreen_marks(page, boats, order@.take(0)));
    while i < order.len()
        invariant
            i <= order.len(),
            boats == app.remote_boats@,
            lists(order@, boats.dom()),
            drawing(marks@) == start + offscreen_marks(page, boats, order@.take(i as int)),
        decreases order.len() - i,
    {
        broadcast use group_hash_axioms;

        let id: u64 = order[i];
        proof {
            assert(order@.contains(id));
            assert(boats.contains_key(id));
            let part = order@.take(i + 1);
            assert(part.drop_last() =~= order@.take(i as int));
            assert(part.last() == id);
        }
        if let Some(boat) = app.remote_boats.get(&id) {
            if let Some(mark) = hint(page.world_to_canvas(boat.position)) {
                proof {
                    lemma_drawing_push(marks@, mark);
                }
                marks.push(mark);
            }
        }
        i = i + 1;
        assert(drawing(marks@) =~= start + offscreen_marks(page, boats, order@.take(i as int)));
    }
    assert(order@.take(order@.len() as int) =~= order@);
}

/// Draws the chat bubbles.
pub(crate) fn draw_bubbles(marks: &mut Vec<Mark>, app: &App, page: Page, now: u64)
    ensures
        drawing(final(marks)@) == drawing(old(marks)@) + bubble_marks(page, app.bubbles@, now),
{
    let ghost start = drawing(marks@);
    let ghost want = bubble_marks(page, app.bubbles@, now);
    let mut i: usize = 0;
    assert(start =~= start + want.take(0));
    while i < app.bubbles.len()
        invariant
            i <= app.bubbles.len(),
            want == bubble_marks(page, app.bubbles@, now),
            drawing(marks@) == start + want.take(i as int),
        decreases app.bubbles.len() - i,
    {
        let bubble: &Bubble = &app.bubbles[i];
        let p: (F64, F64) = page.world_to_canvas(bubble.position);
        let color: Color = if bubble.elapsed(now) < BUBBLE_BRIGHT {
            Color::White
        } else {
            Color::DarkGray
        };
        let mut text: String = "[ ".to_string();
        text.append(bubble.text.as_str());
        text.append(" ]");
        let mark: Mark = Mark {
            x: p.0,
            y: p.1.add((F32 { bits: BUBBLE_OFFSET }).to_f64()),
            text,
            style: Style { color, bold: false, reversed: false },
        };
        proof {
            lemma_drawing_push(marks@, mark);
        }
        marks.push(mark);
        i = i + 1;
        assert(drawing(marks@) =~= start + want.take(i as int));
    }
    assert(want.take(app.bubbles@.len() as int) =~= want);
}

/// Whether a tile of the coast has something solid next to it.
pub(crate) fn is_drawn(app: &App, x: u32, y: u32) -> (r: bool)
    requires
        x < u32::MAX,
        y < u32::MAX,
        coast_tile_fits(*app, x, y),
    ensures
        r == coast_drawn(*app, x, y),
{
    if let Some(t) = app.tile_at_world(x, y) {
        t == Tile::Coast && (is_solid_tile(app, x.wrapping_sub(1), y) || is_solid_tile(
            app,
            x + 1,
            y,
        ) || is_solid_tile(app, x, y.wrapping_sub(1)) || is_solid_tile(app, x, y + 1))
    } else {
        false
    }
}

/// Draws the coast of a page.
fn draw_coastline(marks: &mut Vec<Mark>, app: &App, page: Page)
    requires
        coast_page_fits(*app, page),
    ensures
        drawing(final(marks)@) == drawing(old(marks)@) + coast_marks(*app, page, PAGE_TILES as int),
{
    let ghost start = drawing(marks@);
    let mut i: u32 = 0;
    assert(start =~= start + coast_marks(*app, page, 0));
    while i < PAGE_TILES
        invariant
            i <= PAGE_TILES,
            coast_page_fits(*app, page),
            drawing(marks@) == start + coast_marks(*app, page, i as int),
        decreases PAGE_TILES - i,
    {
        let x: u32 = page.ox + i % PAGE_TILES_W;
        let y: u32 = page.oy + i / PAGE_TILES_W;
        assert(page_tile(page, i as int) == (x, y));
        if is_drawn(app, x, y) {
            let mark: Mark = Mark {
                x: F64::from_u64((x - page.ox) as u64),
                y: (F64 { bits: CANVAS_H }).sub(F64 { bits: F64_ONE }).sub(
                    F64::from_u64((y - page.oy) as u64),
                ),
                text: coast_char(app, x, y).to_string(),
                style: Style { color: Color::Green, bold: false, reversed: false },
            };
            proof {
                lemma_drawing_push(marks@, mark);
            }
            marks.push(mark);
        }
        i = i + 1;
        assert(drawing(marks@) =~= start + coast_marks(*app, page, i as int));
    }
}

/// The drawing of the page around the player; the boats come in any order.
pub fn render_world(app: &App, page: Page, now: u64) -> (marks: Vec<Mark>)
    requires
        scene_fits(*app, page),
    ensures
        exists|order: Seq<u64>|
            #[trigger] lists(order, app.remote_boats@.dom()) && drawing(marks@) == scene(
                *app,
                page,
                now,
                order,
            ),
{
    let order: Vec<u64> = list_keys(&app.remote_boats);
    let mut marks: Vec<Mark> = Vec::new();
    assert(drawing(marks@) =~= Seq::<MarkView>::empty());
    draw_coastline(&mut marks, app, page);
    draw_remote_boats(&mut marks, app, page, &order);
    draw_own_boat(&mut marks, app, page);
    draw_offscreen_indicators(&mut marks, app, page, &order);
    draw_bubbles(&mut marks, app, page, now);
    assert(drawing(marks@) =~= scene(*app, page, now, order@));
    marks
}

/// Whether a tile can be looked at, with its neighbours up to the first solid one.
fn can_look_at(app: &App, x: u32, y: u32) -> (r: bool)
    requires
        x < u32::MAX,
        y < u32::MAX,
    ensures
        r == coast_tile_fits(*app, x, y),
{
    if !app.can_look_up(x, y) {
        return false;
    }
    let coast: bool = match app.tile_at_world(x, y) {
        Some(t) => t == Tile::Coast,
        None => false,
    };
    if !coast {
        return true;
    }
    let left: u32 = x.wrapping_sub(1);
    let up: u32 = y.wrapping_sub(1);
    if !app.can_look_up(left, y) {
        return false;
    }
    if !is_solid_tile(app, left, y) {
        if !app.can_look_up(x + 1, y) {
            return false;
        }
        if !is_solid_tile(app, x + 1, y) {
            if !app.can_look_up(x, up) {
                return false;
            }
            if !is_solid_tile(app, x, up) {
                if !app.can_look_up(x, y + 1) {
                    return false;
                }
                if !is_solid_tile(app, x, y + 1) {
                    return true;
                }
            }
        }
    }
    can_pick_coast_char(app, x, y)
}

/// Whether all the boats of other players can be drawn.
fn can_draw_boats(app: &App, page: Page) -> (r: bool)
    ensures
        r == boats_fit(page, app.remote_boats@),
{
    broadcast use group_hash_axioms;

    let order: Vec<u64> = list_keys(&app.remote_boats);
    let ghost boats = app.remote_boats@;
    let mut i: usize = 0;
    while i < order.len()
        invariant
            i <= order.len(),
            boats == app.remote_boats@,
            lists(order@, boats.dom()),
            forall|j: int| 0 <= j < i ==> boat_fits(page, boats[#[trigger] order@[j]]),
        decreases order.len() - i,
    {
        broadcast use group_hash_axioms;

        let id: u64 = order[i];
        assert(order@.contains(id));
        assert(boats.contains_key(id));
        if let Some(boat) = app.remote_boats.get(&id) {
            let vertical: bool = boat.last_dir == Direction::Up || boat.last_dir == Direction::Down;
            if vertical && !is_beyond(page.world_to_canvas(boat.position)) && !page.has_room() {
                assert(!boat_fits(page, boats[id]));
                return false;
            }
        }
        i = i + 1;
    }
    assert forall|id: u64| #[trigger] boats.contains_key(id) implies boat_fits(page, boats[id]) by {
        assert(order@.contains(id));
    }
    true
}

/// Whether all tiles of a page can be looked at.
pub fn can_draw_coast(app: &App, page: Page) -> (r: bool)
    ensures
        r == coast_page_fits(*app, page),
{
    if page.ox > u32::MAX - PAGE_TILES_W || page.oy > u32::MAX - PAGE_TILES_H {
        return false;
    }
    let mut i: u32 = 0;
    while i < PAGE_TILES
        invariant
            i <= PAGE_TILES,
            page.ox + PAGE_TILES_W <= u32::MAX,
            page.oy + PAGE_TILES_H <= u32::MAX,
            forall|j: int|
                0 <= j < i ==> coast_tile_fits(
                    *app,
                    (#[trigger] page_tile(page, j)).0,
                    page_tile(page, j).1,
                ),
        decreases PAGE_TILES - i,
    {
        let x: u32 = page.ox + i % PAGE_TILES_W;
        let y: u32 = page.oy + i / PAGE_TILES_W;
        assert(page_tile(page, i as int) == (x, y));
        if !can_look_at(app, x, y) {
            assert(!coast_page_fits(*app, page));
            return false;
        }
        i = i + 1;
    }
    true
}

/// Whether the page around the player can be drawn.
pub fn can_render_world(app: &App, page: Page) -> (r: bool)
    ensures
        r == scene_fits(*app, page),
{
    let vertical: bool = app.last_dir == Direction::Up || app.last_dir == Direction::Down;
    (!vertical || page.has_room()) && can_draw_boats(app, page) && can_draw_coast(app, page)
}

/// What the title says of a newer release or of a server whose version is not known.
pub open spec fn update_note(status: UpdateStatus) -> Seq<char> {
    match status {
        UpdateStatus::Compatible { patch_available: Some(v) } => "  · v"@ + v@
            + " available — brew upgrade black-sea"@,
        UpdateStatus::Unknown => "  · server version unknown"@,
        _ => Seq::empty(),
    }
}

/// The title of the page: position, page number, note.
pub open spec fn page_title(app: App) -> Seq<char> {
    "World  ["@ + decimal(app.cursor.x.trunc(u32::MAX as nat)) + ", "@ + decimal(
        app.cursor.y.trunc(u32::MAX as nat),
    ) + "]  page ("@ + decimal(page_number(app.cursor.x, PAGE_TILES_W) as nat) + ", "@ + decimal(
        page_number(app.cursor.y, PAGE_TILES_H) as nat,
    ) + ")"@ + update_note(app.update_status)
}

/// The title of the page.
pub fn world_title(app: &App) -> (r: String)
    ensures
        r@ == page_title(*app),
{
    let (px, py) = app.current_page();
    let mut r: String = "World  [".to_string();
    r.append(decimal_text(app.cursor.x.to_u32() as u64).as_str());
    r.append(", ");
    r.append(decimal_text(app.cursor.y.to_u32() as u64).as_str());
    r.append("]  page (");
    r.append(decimal_text(px as u64).as_str());
    r.append(", ");
    r.append(decimal_text(py as u64).as_str());
    r.append(")");
    let ghost head = r@;
    match &app.update_status {
        UpdateStatus::Compatible { patch_available: Some(v) } => {
            r.append("  · v");
            r.append(v.as_str());
            r.append(" available — brew upgrade black-sea");
        },
        UpdateStatus::Unknown => {
            r.append("  · server version unknown");
        },
        _ => {},
    }
    assert(r@ =~= head + update_note(app.update_status));
    r
}

} // verus!
