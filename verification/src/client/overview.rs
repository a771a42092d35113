//! The map overview.

use vstd::prelude::*;
use vstd::std_specs::hash::group_hash_axioms;
use vstd::string::StringExecFns;

use crate::coords::{MAP_TILES_H, MAP_TILES_W};
use crate::float::F64;
use crate::protocol::{AnchorPoint, Position};
use crate::text::{decimal, decimal_text};
use crate::tiles::Tile;

use super::app::{App, OverviewMap, UpdateStatus};
use super::render::{
    drawing, in_bold, in_color, lemma_drawing_push, Color, Mark, MarkView, Style, F64_ONE,
};

verus! {

/// Which screen is shown during the game.
#[derive(Debug, Clone, Copy, PartialEq, Eq, Structural)]
pub enum Screen {
    /// The overview of the map.
    Overview,
    /// The page around the player.
    World,
    /// The page around the player, and a warning that client and server do not fit.
    WorldWithWarning,
}

/// Which screen is shown.
pub open spec fn shown(app: App) -> Screen {
    if app.show_map_overview {
        Screen::Overview
    } else if app.update_status is Incompatible {
        Screen::WorldWithWarning
    } else {
        Screen::World
    }
}

/// Which screen is shown.
pub fn render(app: &App) -> (r: Screen)
    ensures
        r == shown(*app),
{
    if app.show_map_overview {
        return Screen::Overview;
    }
    match &app.update_status {
        UpdateStatus::Incompatible { server_version } => Screen::WorldWithWarning,
        _ => Screen::World,
    }
}

/// Whether the overview has as many tiles as its size says.
pub open spec fn overview_fits(ov: OverviewMap) -> bool {
    &&& ov.width * ov.height <= ov.data@.len()
    &&& ov.width * ov.height <= 0x1_0000_0000
}

/// The row of the canvas for a row of the overview, counted from the north.
pub open spec fn overview_row(ov: OverviewMap, row: F64) -> F64 {
    F64::of_nat(ov.height as nat).minus(F64 { bits: F64_ONE }).minus(row)
}

/// How a tile of the overview is drawn.
pub open spec fn terrain_mark(ov: OverviewMap, i: int) -> Option<MarkView> {
    let w = ov.width as int;
    let x = F64::of_nat((i % w) as nat);
    let y = overview_row(ov, F64::of_nat((i / w) as nat));
    match ov.data@[i] {
        Tile::Land => Some(MarkView { x, y, text: "#"@, style: in_color(Color::DarkGray) }),
        Tile::Coast => Some(MarkView { x, y, text: "."@, style: in_color(Color::Green) }),
        Tile::Water => None,
    }
}

/// The land and coast among the first tiles of the overview.
pub open spec fn terrain_marks(ov: OverviewMap, tiles: int) -> Seq<MarkView>
    decreases tiles,
{
    if tiles <= 0 {
        Seq::empty()
    } else {
        let rest = terrain_marks(ov, tiles - 1);
        match terrain_mark(ov, tiles - 1) {
            Some(m) => rest.push(m),
            None => rest,
        }
    }
}

/// Where a position of the map lies on the canvas of the overview.
pub open spec fn overview_spot(ov: OverviewMap, p: Position) -> (F64, F64) {
    (
        p.x.to_f64_number().over(F64::of_nat(MAP_TILES_W as nat)).times(
            F64::of_nat(ov.width as nat),
        ),
        overview_row(
            ov,
            p.y.to_f64_number().over(F64::of_nat(MAP_TILES_H as nat)).times(
                F64::of_nat(ov.height as nat),
            ),
        ),
    )
}

/// How an anchor point looks: dim once visited, reversed while it is picked out.
pub open spec fn anchor_style(visited: bool, selected: bool) -> Style {
    Style {
        color: if visited {
            Color::DarkGray
        } else {
            Color::Magenta
        },
        bold: !visited,
        reversed: selected,
    }
}

/// How an anchor point is drawn.
pub open spec fn anchor_mark(app: App, ov: OverviewMap, i: int) -> MarkView {
    let a = app.anchor_points@[i];
    let p = overview_spot(ov, a.position);
    MarkView {
        x: p.0,
        y: p.1,
        text: "\u{2693}"@,
        style: anchor_style(
            app.visited_anchors@.contains(a.id),
            app.selected_anchor matches Some(k) && k == i,
        ),
    }
}

/// The anchor points.
pub open spec fn anchor_marks(app: App, ov: OverviewMap) -> Seq<MarkView> {
    Seq::new(app.anchor_points@.len(), |i: int| anchor_mark(app, ov, i))
}

/// The player.
pub open spec fn player_mark(app: App, ov: OverviewMap) -> MarkView {
    let p = overview_spot(ov, app.cursor);
    MarkView { x: p.0, y: p.1, text: "X"@, style: in_bold(Color::Yellow) }
}

/// The overview: terrain, anchor points, player.
pub open spec fn overview_scene(app: App, ov: OverviewMap) -> Seq<MarkView> {
    (terrain_marks(ov, ov.width * ov.height) + anchor_marks(app, ov)).push(player_mark(app, ov))
}

/// Whether the overview has as many tiles as its size says.
pub fn can_render_overview(ov: &OverviewMap) -> (r: bool)
    ensures
        r == overview_fits(*ov),
{
    proof {
        assert(0 <= ov.width * ov.height <= 0xffff_ffff * 0xffff_ffff) by (nonlinear_arith)
            requires
                0 <= ov.width <= 0xffff_ffff,
                0 <= ov.height <= 0xffff_ffff,
        ;
    }
    let n: u64 = ov.width as u64 * ov.height as u64;
    n <= ov.data.len() as u64 && n <= 0x1_0000_0000
}

/// Draws the terrain of the overview.
fn draw_overview_terrain(ov: &OverviewMap) -> (marks: Vec<Mark>)
    requires
        overview_fits(*ov),
    ensures
        drawing(marks@) == terrain_marks(*ov, ov.width * ov.height),
{
    let mut marks: Vec<Mark> = Vec::new();
    assert(drawing(marks@) =~= Seq::<MarkView>::empty());
    proof {
        assert(0 <= ov.width * ov.height <= 0xffff_ffff * 0xffff_ffff) by (nonlinear_arith)
            requires
                0 <= ov.width <= 0xffff_ffff,
                0 <= ov.height <= 0xffff_ffff,
        ;
    }
    let n: u64 = ov.width as u64 * ov.height as u64;
    let mut i: u64 = 0;
    while i < n
        invariant
            i <= n,
            n == ov.width * ov.height,
            n <= ov.data@.len(),
            drawing(marks@) == terrain_marks(*ov, i as int),
        decreases n - i,
    {
        proof {
            let w = ov.width as int;
            let h = ov.height as int;
            assert(w >= 1) by (nonlinear_arith)
                requires
                    0 <= i < w * h,
                    w >= 0,
                    h >= 0,
            ;
        }
        let w: u64 = ov.width as u64;
        let x: F64 = F64::from_u64(i % w);
        let y: F64 = F64::from_u64(ov.height as u64).sub(F64 { bits: F64_ONE }).sub(
            F64::from_u64(i / w),
        );
        let k: usize = i as usize;
        assert(k == i) by {
            assert(ov.data.len() <= usize::MAX);
        }
        match ov.data[k] {
            Tile::Land => {
                let mark: Mark = Mark {
                    x,
                    y,
                    text: "#".to_string(),
                    style: Style { color: Color::DarkGray, bold: false, reversed: false },
                };
                proof {
                    lemma_drawing_push(marks@, mark);
                }
                marks.push(mark);
            },
            Tile::Coast => {
                let mark: Mark = Mark {
                    x,
                    y,
                    text: ".".to_string(),
                    style: Style { color: Color::Green, bold: false, reversed: false },
                };
                proof {
                    lemma_drawing_push(marks@, mark);
                }
                marks.push(mark);
            },
            Tile::Water => {},
        }
        i = i + 1;
    }
    marks
}

/// Where a position of the map lies on the canvas of the overview.
fn to_overview(ov: &OverviewMap, p: Position) -> (r: (F64, F64))
    ensures
        r == overview_spot(*ov, p),
{
    let w: F64 = F64::from_u64(ov.width as u64);
    let h: F64 = F64::from_u64(ov.height as u64);
    let x: F64 = p.x.to_f64().div(F64::from_u64(MAP_TILES_W as u64)).mul(w);
    let y: F64 = p.y.to_f64().div(F64::from_u64(MAP_TILES_H as u64)).mul(h);
    (x, h.sub(F64 { bits: F64_ONE }).sub(y))
}

/// Draws the anchor points.
fn draw_overview_anchors(marks: &mut Vec<Mark>, app: &App, ov: &OverviewMap)
    ensures
        drawing(final(marks)@) == drawing(old(marks)@) + anchor_marks(*app, *ov),
{
    let ghost start = drawing(marks@);
    let ghost want = anchor_marks(*app, *ov);
    let mut i: usize = 0;
    assert(start =~= start + want.take(0));
    while i < app.anchor_points.len()
        invariant
            i <= app.anchor_points.len(),
            want == anchor_marks(*app, *ov),
            drawing(marks@) == start + want.take(i as int),
        decreases app.anchor_points.len() - i,
    {
        broadcast use group_hash_axioms;

        let anchor: &AnchorPoint = &app.anchor_points[i];
        let (x, y) = to_overview(ov, anchor.position);
        let visited: bool = app.visited_anchors.contains(&anchor.id);
        let selected: bool = match app.selected_anchor {
            Some(k) => k == i,
            None => false,
        };
        let color: Color = if visited {
            Color::DarkGray
        } else {
            Color::Magenta
        };
        let mark: Mark = Mark {
            x,
            y,
            text: "\u{2693}".to_string(),
            style: Style { color, bold: !visited, reversed: selected },
        };
        proof {
            lemma_drawing_push(marks@, mark);
        }
        marks.push(mark);
        i = i + 1;
        assert(drawing(marks@) =~= start + want.take(i as int));
    }
    assert(want.take(app.anchor_points@.len() as int) =~= want);
}

/// The drawing of the overview.
pub fn render_map_overview(app: &App, ov: &OverviewMap) -> (marks: Vec<Mark>)
    requires
        overview_fits(*ov),
    ensures
        drawing(marks@) == overview_scene(*app, *ov),
{
    let mut marks: Vec<Mark> = draw_overview_terrain(ov);
    draw_overview_anchors(&mut marks, app, ov);
    let (x, y) = to_overview(ov, app.cursor);
    let mark: Mark = Mark {
        x,
        y,
        text: "X".to_string(),
        style: Style { color: Color::Yellow, bold: true, reversed: false },
    };
    proof {
        lemma_drawing_push(marks@, mark);
    }
    marks.push(mark);
    marks
}

/// What the title says of the anchor point that is picked out.
pub open spec fn selected_line(app: App) -> Seq<char> {
    match app.selected_anchor {
        Some(k) => if k < app.anchor_points@.len() {
            let a = app.anchor_points@[k as int];
            let head = "  · "@ + a.name@ + (if app.visited_anchors@.contains(a.id) {
                " [visited]"@
            } else {
                Seq::empty()
            });
            match a.note {
                Some(note) => if note@.len() == 0 {
                    head
                } else {
                    head + " — "@ + note@
                },
                None => head,
            }
        } else {
            Seq::empty()
        },
        None => Seq::empty(),
    }
}

/// The title of the overview: position, help, anchor point.
pub open spec fn overview_title_text(app: App) -> Seq<char> {
    "Map Overview  ["@ + decimal(app.cursor.x.trunc(u32::MAX as nat)) + ", "@ + decimal(
        app.cursor.y.trunc(u32::MAX as nat),
    ) + "]  (Tab: cycle anchors · Enter: mark visited · Esc: close)"@ + selected_line(app)
}

/// The title of the overview.
pub fn overview_title(app: &App) -> (r: String)
    ensures
        r@ == overview_title_text(*app),
{
    broadcast use group_hash_axioms;

    let mut r: String = "Map Overview  [".to_string();
    r.append(decimal_text(app.cursor.x.to_u32() as u64).as_str());
    r.append(", ");
    r.append(decimal_text(app.cursor.y.to_u32() as u64).as_str());
    r.append("]  (Tab: cycle anchors · Enter: mark visited · Esc: close)");
    let ghost head = r@;
    if let Some(k) = app.selected_anchor {
        if k < app.anchor_points.len() {
            let a: &AnchorPoint = &app.anchor_points[k];
            r.append("  · ");
            r.append(a.name.as_str());
            if app.visited_anchors.contains(&a.id) {
                r.append(" [visited]");
            }
            if let Some(note) = &a.note {
                if !note.as_str().is_empty() {
                    r.append(" — ");
                    r.append(note.as_str());
                }
            }
        }
    }
    assert(r@ =~= head + selected_line(*app));
    r
}

} // verus!
