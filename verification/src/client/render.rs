//! What is drawn on the page around the player.

use vstd::prelude::*;
use vstd::string::StringExecFns;

use crate::float::F64;
use crate::text::{byte_len, byte_length};
use crate::tiles::Tile;

use super::app::{App, Direction};

verus! {

/// Encodings of small numbers.
pub const F64_ONE: u64 = 0x3ff0_0000_0000_0000;

pub const F64_TWO: u64 = 0x4000_0000_0000_0000;

pub const F64_THREE: u64 = 0x4008_0000_0000_0000;

/// Encoding of the largest finite number.
pub const F64_MAX: u64 = 0x7fef_ffff_ffff_ffff;

/// Encoding of the width of the canvas: one column per tile of a page.
pub const CANVAS_W: u64 = 0x4069_0000_0000_0000;

/// Encoding of the height of the canvas: one row per tile of a page.
pub const CANVAS_H: u64 = 0x4049_0000_0000_0000;

/// How long a bubble is drawn in full, in nanoseconds: seven tenths of its time.
pub const BUBBLE_BRIGHT: u64 = 3_500_000_000;

#[derive(Debug, Clone, Copy, PartialEq, Eq, Structural)]
pub enum Color {
    Default,
    Red,
    Green,
    Yellow,
    Cyan,
    Magenta,
    White,
    DarkGray,
}

/// How a text looks.
#[derive(Debug, Clone, Copy, PartialEq, Eq, Structural)]
pub struct Style {
    pub color: Color,
    pub bold: bool,
    pub reversed: bool,
}

/// A text without any emphasis.
pub open spec fn in_color(color: Color) -> Style {
    Style { color, bold: false, reversed: false }
}

/// A text in bold letters.
pub open spec fn in_bold(color: Color) -> Style {
    Style { color, bold: true, reversed: false }
}

/// A text at a place of the canvas.
#[derive(Debug)]
pub struct Mark {
    pub x: F64,
    pub y: F64,
    pub text: String,
    pub style: Style,
}

/// A text at a place of the canvas.
pub struct MarkView {
    pub x: F64,
    pub y: F64,
    pub text: Seq<char>,
    pub style: Style,
}

impl View for Mark {
    type V = MarkView;

    open spec fn view(&self) -> MarkView {
        MarkView { x: self.x, y: self.y, text: self.text@, style: self.style }
    }
}

/// The marks of a drawing, in the order in which they are drawn.
pub open spec fn drawing(marks: Seq<Mark>) -> Seq<MarkView> {
    marks.map_values(|m: Mark| m@)
}

/// One mark more.
pub(crate) proof fn lemma_drawing_push(marks: Seq<Mark>, m: Mark)
    ensures
        drawing(marks.push(m)) == drawing(marks).push(m@),
{
    assert(drawing(marks.push(m)) =~= drawing(marks).push(m@));
}

/// A part of a boat: where it is drawn, seen from the hull, and what.
pub type Glyph = (F64, F64, String);

/// The parts of a boat.
pub open spec fn shape(glyphs: Seq<Glyph>) -> Seq<(F64, F64, Seq<char>)> {
    glyphs.map_values(|g: Glyph| (g.0, g.1, g.2@))
}

/// The hull of a boat that sails to the right or to the left.
pub open spec fn hull(name: Seq<char>, dir: Direction) -> Seq<char> {
    if dir == Direction::Right {
        "/"@ + name + "/"@
    } else {
        "\\"@ + name + "\\"@
    }
}

/// How far from the bow the sail stands, so that it is in the middle of the hull.
pub open spec fn sail_offset(hull: Seq<char>, col_step: F64) -> F64 {
    F64::of_nat(byte_len(hull)).minus(F64 { bits: F64_THREE }).over(F64 { bits: F64_TWO }).larger(
        F64 { bits: 0 },
    ).times(col_step)
}

/// The parts of a boat: the hull first, at the place of the boat, then what is offset from it.
pub open spec fn boat_shape(
    name: Seq<char>,
    dir: Direction,
    row_step: F64,
    col_step: F64,
) -> Seq<(F64, F64, Seq<char>)> {
    let zero = F64 { bits: 0 };
    let two = F64 { bits: F64_TWO };
    match dir {
        Direction::Right => seq![
            (zero, zero, hull(name, dir)),
            (sail_offset(hull(name, dir), col_step), row_step, "/|)"@),
        ],
        Direction::Left => seq![
            (zero, zero, hull(name, dir)),
            (sail_offset(hull(name, dir), col_step), row_step, "(|\\"@),
        ],
        Direction::Up => seq![
            (zero, zero, "\\ /"@),
            (zero, row_step, "/|\\"@),
            (col_step, row_step.times(two), "^"@),
        ],
        Direction::Down => seq![
            (zero, zero, "\\|/"@),
            (zero, row_step, "/ \\"@),
            (col_step, row_step.negative(), "V"@),
        ],
    }
}

/// How far from the bow the sail stands.
pub(crate) fn sail_place(hull: &str, col_step: F64) -> (r: F64)
    ensures
        r == sail_offset(hull@, col_step),
{
    F64::from_u64(byte_length(hull) as u64).sub(F64 { bits: F64_THREE }).div(
        F64 { bits: F64_TWO },
    ).max(F64 { bits: 0 }).mul(col_step)
}

/// A text between two others.
pub(crate) fn between(left: &str, s: &str, right: &str) -> (r: String)
    ensures
        r@ == left@ + s@ + right@,
{
    let mut r: String = left.to_string();
    r.append(s);
    r.append(right);
    r
}

/// The parts of a boat. The first one is the hull, anchored at the place of the boat; the others
/// are parts of sail and mast, offset from the hull.
pub fn boat_glyphs(name: &str, dir: Direction, row_step: F64, col_step: F64) -> (r: Vec<Glyph>)
    ensures
        shape(r@) == boat_shape(name@, dir, row_step, col_step),
{
    let zero: F64 = F64 { bits: 0 };
    let two: F64 = F64 { bits: F64_TWO };
    let mut r: Vec<Glyph> = Vec::new();
    match dir {
        Direction::Right => {
            let hull: String = between("/", name, "/");
            let sail_x: F64 = sail_place(hull.as_str(), col_step);
            r.push((zero, zero, hull));
            r.push((sail_x, row_step, "/|)".to_string()));
        },
        Direction::Left => {
            let hull: String = between("\\", name, "\\");
            let sail_x: F64 = sail_place(hull.as_str(), col_step);
            r.push((zero, zero, hull));
            r.push((sail_x, row_step, "(|\\".to_string()));
        },
        Direction::Up => {
            r.push((zero, zero, "\\ /".to_string()));
            r.push((zero, row_step, "/|\\".to_string()));
            r.push((col_step, row_step.mul(two), "^".to_string()));
        },
        Direction::Down => {
            r.push((zero, zero, "\\|/".to_string()));
            r.push((zero, row_step, "/ \\".to_string()));
            r.push((col_step, row_step.neg(), "V".to_string()));
        },
    }
    assert(shape(r@) =~= boat_shape(name@, dir, row_step, col_step));
    r
}

/// The hull of a boat comes first and is anchored at the place of the boat.
pub proof fn lemma_hull_first(name: Seq<char>, dir: Direction, row_step: F64, col_step: F64)
    ensures
        boat_shape(name, dir, row_step, col_step).len() >= 2,
        boat_shape(name, dir, row_step, col_step)[0].0.bits == 0,
        boat_shape(name, dir, row_step, col_step)[0].1.bits == 0,
{
}

/// A tile number as a signed one of the same width.
pub open spec fn signed(v: u32) -> int {
    if v < 0x8000_0000 {
        v as int
    } else {
        v - 0x1_0000_0000
    }
}

/// Whether something solid is known to be at a place of the map.
pub open spec fn solid(app: App, x: u32, y: u32) -> bool {
    app.known_tile(x, y) matches Some(t) && t != Tile::Water
}

/// Whether something solid is known to be at a place, of which nothing is known left of and above
/// the map.
pub open spec fn solid_at(app: App, x: int, y: int) -> bool {
    x >= 0 && y >= 0 && solid(app, x as u32, y as u32)
}

/// Whether a place can be looked up.
pub open spec fn solid_fits(app: App, x: int, y: int) -> bool {
    x >= 0 && y >= 0 ==> app.lookup_fits(x as u32, y as u32)
}

/// Whether the surroundings of a tile can be looked up.
pub open spec fn coast_fits(app: App, wx: u32, wy: u32) -> bool {
    let x = signed(wx);
    let y = signed(wy);
    &&& i32::MIN < x < i32::MAX
    &&& i32::MIN < y < i32::MAX
    &&& solid_fits(app, x, y - 1)
    &&& solid_fits(app, x, y + 1)
    &&& solid_fits(app, x - 1, y)
    &&& solid_fits(app, x + 1, y)
}

/// How the coast is drawn, from what is solid in the north, south, west and east: along the coast
/// where it runs on, the dominant axis at a junction, a diagonal in a corner.
pub open spec fn coast_glyph(n: bool, s: bool, w: bool, e: bool) -> Seq<char> {
    if !n && !s && !w && !e {
        " "@
    } else if n && s && w && e {
        "+"@
    } else if !n && !s || w && e {
        "-"@
    } else if !w && !e || n && s {
        "|"@
    } else if n == w {
        "/"@
    } else {
        "\\"@
    }
}

/// Whether something solid is known to be at a place.
pub(crate) fn is_solid(app: &App, x: i64, y: i64) -> (r: bool)
    requires
        -0x1_0000_0000 <= x < 0x8000_0000,
        -0x1_0000_0000 <= y < 0x8000_0000,
        solid_fits(*app, x as int, y as int),
    ensures
        r == solid_at(*app, x as int, y as int),
{
    if x < 0 || y < 0 {
        return false;
    }
    is_solid_tile(app, x as u32, y as u32)
}

/// Whether something solid is known to be at a place of the map.
pub(crate) fn is_solid_tile(app: &App, x: u32, y: u32) -> (r: bool)
    requires
        app.lookup_fits(x, y),
    ensures
        r == solid(*app, x, y),
{
    match app.tile_at_world(x, y) {
        Some(t) => t != Tile::Water,
        None => false,
    }
}

/// A tile number as a signed one of the same width.
pub(crate) fn as_signed(v: u32) -> (r: i64)
    ensures
        r == signed(v),
{
    if v < 0x8000_0000 {
        v as i64
    } else {
        v as i64 - 0x1_0000_0000
    }
}

/// The character for a coastline tile. Only the four neighbours along the axes matter.
pub fn coast_char(app: &App, wx: u32, wy: u32) -> (r: &'static str)
    requires
        coast_fits(*app, wx, wy),
    ensures
        r@ == coast_glyph(
            solid_at(*app, signed(wx), signed(wy) - 1),
            solid_at(*app, signed(wx), signed(wy) + 1),
            solid_at(*app, signed(wx) - 1, signed(wy)),
            solid_at(*app, signed(wx) + 1, signed(wy)),
        ),
{
    let x: i64 = as_signed(wx);
    let y: i64 = as_signed(wy);
    let n: bool = is_solid(app, x, y - 1);
    let s: bool = is_solid(app, x, y + 1);
    let w: bool = is_solid(app, x - 1, y);
    let e: bool = is_solid(app, x + 1, y);
    match (n, s, w, e) {
        // Straight runs.
        (false, false, true, true) => "-",
        (false, false, true, false) => "-",
        (false, false, false, true) => "-",
        (true, true, false, false) => "|",
        (true, false, false, false) => "|",
        (false, true, false, false) => "|",
        // Corners.
        (false, true, false, true) => "/",
        (true, false, true, false) => "/",
        (false, true, true, false) => "\\",
        (true, false, false, true) => "\\",
        // Junctions.
        (true, true, true, false) => "|",
        (true, true, false, true) => "|",
        (true, false, true, true) => "-",
        (false, true, true, true) => "-",
        (true, true, true, true) => "+",
        // Nothing solid around.
        (false, false, false, false) => " ",
    }
}

/// Whether a place can be looked up.
fn can_look(app: &App, x: i64, y: i64) -> (r: bool)
    requires
        -0x1_0000_0000 <= x < 0x8000_0000,
        -0x1_0000_0000 <= y < 0x8000_0000,
    ensures
        r == solid_fits(*app, x as int, y as int),
{
    x < 0 || y < 0 || app.can_look_up(x as u32, y as u32)
}

/// Whether the surroundings of a tile can be looked up.
pub fn can_pick_coast_char(app: &App, wx: u32, wy: u32) -> (r: bool)
    ensures
        r == coast_fits(*app, wx, wy),
{
    let x: i64 = as_signed(wx);
    let y: i64 = as_signed(wy);
    -0x8000_0000 < x && x < 0x7fff_ffff && -0x8000_0000 < y && y < 0x7fff_ffff && can_look(
        app,
        x,
        y - 1,
    ) && can_look(app, x, y + 1) && can_look(app, x - 1, y) && can_look(app, x + 1, y)
}

} // verus!
