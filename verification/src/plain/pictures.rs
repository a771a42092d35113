//! What the plain game shows.

use vstd::arithmetic::power2::{
    lemma2_to64, lemma_pow2_adds, lemma_pow2_pos, lemma_pow2_strictly_increases, pow2,
};
use vstd::prelude::*;

use crate::client::app::{App, Direction, RemoteBoat};
use crate::client::coast::{
    green_at, known_solid, lemma_coast_place, mirrored, shows_green, stands_at, turned,
};
use crate::client::hulls::{
    is_name, is_step, lemma_boat_row, lemma_parts_are_close, lemma_small, lemma_steps, shows_part,
};
use crate::client::picture::{holds_mark, lemma_held_by_sum, lemma_where_positions_appear};
use crate::client::render::{
    boat_shape, in_bold, in_color, Color, MarkView, Style, F64_TWO,
};
use crate::client::scene::{bubble_marks, coast_drawn, coast_mark, page_tile, Page, PAGE_TILES};
use crate::client::titles::{lemma_says_where, says_where};
use crate::float::exact::{apart, lemma_doubles_near, lemma_lies_on, lies_on, size};
use crate::float::laws::lemma_zero;
use crate::float::model::Format;
use crate::float::F64;
use crate::listing::lists;
use crate::protocol::Position;
use crate::tiles::Tile;

use super::client::{
    plain_boat_marks, plain_fleet_marks, plain_own_marks, plain_scene, plain_shape, plain_title, wall_glyph, wall_mark,
    wall_marks,
};

verus! {

/// What the first tiles of a page show at the place of a tile.
proof fn lemma_walls_shown(app: App, page: Page, x: u32, y: u32, tiles: int)
    requires
        page.ox + 200 <= u32::MAX,
        page.oy + 50 <= u32::MAX,
        page.ox <= x < page.ox + 200,
        page.oy <= y < page.oy + 50,
        0 <= tiles <= PAGE_TILES,
    ensures
        shows_green(wall_marks(app, page, tiles), x - page.ox, 49 - (y - page.oy)) <==> (y
            - page.oy) * 200 + (x - page.ox) < tiles && coast_drawn(app, x, y),
        forall|k: int|
            0 <= k < wall_marks(app, page, tiles).len() && #[trigger] green_at(
                wall_marks(app, page, tiles)[k],
                x - page.ox,
                49 - (y - page.oy),
            ) ==> wall_marks(app, page, tiles)[k] == wall_mark(app, page, x, y),
    decreases tiles,
{
    if tiles > 0 {
        lemma_walls_shown(app, page, x, y, tiles - 1);
        let i = tiles - 1;
        let (tx, ty) = page_tile(page, i);
        let (c, r) = (x - page.ox, 49 - (y - page.oy));
        let rest = wall_marks(app, page, tiles - 1);
        let all = wall_marks(app, page, tiles);
        lemma_coast_place(app, page, tx, ty);
        lemma_pow2_pos(1074);
        if coast_drawn(app, tx, ty) {
            let m = wall_mark(app, page, tx, ty);
            assert(m.x == coast_mark(app, page, tx, ty).x && m.y == coast_mark(app, page, tx, ty).y);
            assert(all == rest.push(m));
            let (tc, tr) = (tx - page.ox, 49 - (ty - page.oy));
            assert(stands_at(m, tc, tr));
            if stands_at(m, c, r) {
                let unit = pow2(1074) as int;
                assert(tc == c && tr == r) by (nonlinear_arith)
                    requires
                        tc * unit == c * unit,
                        tr * unit == r * unit,
                        unit > 0,
                ;
                assert(tx == x && ty == y);
            }
            if shows_green(rest, c, r) {
                let k = choose|k: int| 0 <= k < rest.len() && #[trigger] green_at(rest[k], c, r);
                assert(green_at(all[k], c, r));
            }
            if shows_green(all, c, r) {
                let k = choose|k: int| 0 <= k < all.len() && #[trigger] green_at(all[k], c, r);
                if k < rest.len() {
                    assert(green_at(rest[k], c, r));
                } else {
                    assert(all[k] == m);
                }
            }
            if (tx, ty) == (x, y) {
                assert(green_at(all[rest.len() as int], c, r));
            }
            assert forall|k: int| 0 <= k < all.len() && #[trigger] green_at(all[k], c, r) implies
                all[k] == wall_mark(app, page, x, y) by {
                if k < rest.len() {
                    assert(green_at(rest[k], c, r));
                } else {
                    assert(all[k] == m);
                }
            }
        }
        if (tx, ty) == (x, y) {
            assert((y - page.oy) * 200 + (x - page.ox) == i);
        } else {
            assert((y - page.oy) * 200 + (x - page.ox) != i);
        }
    }
}

/// Boats are not green.
proof fn lemma_fleet_not_green(page: Page, boats: Map<u64, RemoteBoat>, order: Seq<u64>, k: int)
    requires
        0 <= k < plain_fleet_marks(page, boats, order).len(),
    ensures
        plain_fleet_marks(page, boats, order)[k].style.color != Color::Green,
    decreases order.len(),
{
    if order.len() > 0 {
        let a = plain_fleet_marks(page, boats, order.drop_last());
        let b = plain_boat_marks(page, boats[order.last()]);
        if k < a.len() {
            lemma_fleet_not_green(page, boats, order.drop_last(), k);
            assert((a + b)[k] == a[k]);
        } else {
            assert((a + b)[k] == b[k - a.len()]);
        }
    }
}

/// Of every tile of the page that is known to be coast, something is drawn in green at its place if
/// and only if one of its four neighbours is known to be land or coast, and what is drawn goes with
/// these neighbours; nothing is drawn in green of any other tile.
pub proof fn lemma_walls_are_drawn(
    app: App,
    page: Page,
    now: u64,
    order: Seq<u64>,
    x: u32,
    y: u32,
)
    requires
        page.ox + 200 <= u32::MAX,
        page.oy + 50 <= u32::MAX,
        page.ox <= x < page.ox + 200,
        page.oy <= y < page.oy + 50,
        x == 0 ==> app.known_tile(u32::MAX, y) is None,
        y == 0 ==> app.known_tile(x, u32::MAX) is None,
    ensures
        shows_green(plain_scene(app, page, now, order), x - page.ox, 49 - (y - page.oy)) <==> {
            &&& app.known_tile(x, y) == Some(Tile::Coast)
            &&& known_solid(app, x - 1, y as int) || known_solid(app, x + 1, y as int)
                || known_solid(app, x as int, y - 1) || known_solid(app, x as int, y + 1)
        },
        x < 0x7fff_ffff && y < 0x7fff_ffff ==> forall|k: int|
            0 <= k < plain_scene(app, page, now, order).len() && #[trigger] green_at(
                plain_scene(app, page, now, order)[k],
                x - page.ox,
                49 - (y - page.oy),
            ) ==> plain_scene(app, page, now, order)[k].text == wall_glyph(
                known_solid(app, x as int, y - 1),
                known_solid(app, x as int, y + 1),
                known_solid(app, x - 1, y as int),
                known_solid(app, x + 1, y as int),
            ),
{
    let (c, r) = (x - page.ox, 49 - (y - page.oy));
    let a = wall_marks(app, page, PAGE_TILES as int);
    let b = plain_fleet_marks(page, app.remote_boats@, order);
    let own = plain_own_marks(page, app);
    let e = bubble_marks(page, app.bubbles@, now);
    let all = plain_scene(app, page, now, order);
    lemma_walls_shown(app, page, x, y, PAGE_TILES as int);
    assert((y - page.oy) * 200 + (x - page.ox) < PAGE_TILES);
    if shows_green(a, c, r) {
        let k = choose|k: int| 0 <= k < a.len() && #[trigger] green_at(a[k], c, r);
        assert(all[k] == a[k]);
        assert(green_at(all[k], c, r));
    }
    assert forall|k: int| 0 <= k < all.len() && #[trigger] green_at(all[k], c, r) implies
        shows_green(a, c, r) && all[k] == wall_mark(app, page, x, y) by {
        let (n1, n2, n3) = (
            a.len() as int,
            a.len() + b.len(),
            a.len() + b.len() + own.len(),
        );
        if k < n1 {
            assert(all[k] == a[k]);
            assert(green_at(a[k], c, r));
        } else if k < n2 {
            assert(all[k] == b[k - n1]);
            lemma_fleet_not_green(page, app.remote_boats@, order, k - n1);
        } else if k < n3 {
            assert(all[k] == own[k - n2]);
        } else {
            assert(all[k] == e[k - n3]);
        }
    }
}

/// The character of a wall goes with its surroundings: mirrored with them and turned with them.
/// With something solid on one axis only it is a wall across that axis; in a corner it is a
/// diagonal; where three or four sides are solid, or none, there is nothing to see.
pub proof fn lemma_walls_go_with_surroundings(n: bool, s: bool, w: bool, e: bool)
    ensures
        wall_glyph(n, s, e, w) == mirrored(wall_glyph(n, s, w, e)),
        wall_glyph(s, n, w, e) == mirrored(wall_glyph(n, s, w, e)),
        wall_glyph(w, e, s, n) == turned(wall_glyph(n, s, w, e)),
        (w || e) && !n && !s ==> wall_glyph(n, s, w, e) == "|"@,
        n && w && !s && !e ==> wall_glyph(n, s, w, e) == "/"@,
        n && s && (w || e) ==> wall_glyph(n, s, w, e) == " "@,
        !n && !s && !w && !e ==> wall_glyph(n, s, w, e) == " "@,
{
    reveal_strlit("-");
    reveal_strlit("|");
    reveal_strlit("/");
    reveal_strlit("\\");
    reveal_strlit(" ");
    assert("-"@[0] != "|"@[0] && "/"@[0] != "\\"@[0] && "-"@[0] != "/"@[0] && "-"@[0] != "\\"@[0]
        && "|"@[0] != "/"@[0] && "|"@[0] != "\\"@[0]);
    assert(" "@[0] != "|"@[0] && " "@[0] != "\\"@[0] && " "@[0] != "/"@[0] && " "@[0] != "-"@[0]);
}

/// The boats of the plain game have the same parts in the same rows as those of the full game; those
/// that sail up or down stand one column further to the right.
pub proof fn lemma_same_boats_as_in_full_game(
    name: Seq<char>,
    dir: Direction,
    row_step: F64,
    col_step: F64,
    i: int,
)
    requires
        is_step(row_step),
        is_step(col_step),
        0 <= i < boat_shape(name, dir, row_step, col_step).len(),
    ensures
        ({
            let full = boat_shape(name, dir, row_step, col_step);
            let plain = plain_shape(name, dir, row_step, col_step);
            let s = col_step.exact();
            &&& plain.len() == full.len()
            &&& dir is Left || dir is Right ==> plain[i] == full[i]
            &&& dir is Up || dir is Down ==> {
                let j = if dir is Up {
                    2 - i
                } else if i == 2 {
                    2
                } else {
                    1 - i
                };
                &&& plain[j].2 == full[i].2
                &&& plain[j].1 == full[i].1
                &&& plain[j].0.is_finite_number()
                &&& 0x10_0000_0000_0000 * apart(plain[j].0.exact(), full[i].0.exact() + s) <= s
            }
        }),
{
    lemma_zero(Format::Double);
    lemma_small();
    assert(2 * pow2(1074) == 4 * pow2(1073));
    lemma_steps(col_step, F64 { bits: F64_TWO }, 4);
}

/// The marks of every boat are among those of all boats.
proof fn lemma_in_fleet(page: Page, boats: Map<u64, RemoteBoat>, order: Seq<u64>, id: u64, m: MarkView)
    requires
        order.contains(id),
        holds_mark(plain_boat_marks(page, boats[id]), m),
    ensures
        holds_mark(plain_fleet_marks(page, boats, order), m),
    decreases order.len(),
{
    let init = order.drop_last();
    if order.last() != id {
        let i = choose|i: int| 0 <= i < order.len() && order[i] == id;
        assert(init[i] == id);
        lemma_in_fleet(page, boats, init, id, m);
    }
    lemma_held_by_sum(
        plain_fleet_marks(page, boats, init),
        plain_boat_marks(page, boats[order.last()]),
        m,
    );
}

/// Where a part of a boat is drawn.
proof fn lemma_part_place(page: Page, at: Position, name: Seq<char>, dir: Direction, i: int)
    requires
        at.x.is_finite_number(),
        at.y.is_finite_number(),
        is_step(page.row_step),
        is_step(page.col_step),
        is_name(name),
        dir is Up || dir is Down ==> page.tall_enough(),
        0 <= i < plain_shape(name, dir, page.row_step, page.col_step).len(),
    ensures
        ({
            let part = plain_shape(name, dir, page.row_step, page.col_step)[i];
            let p = page.spot(at);
            let (x, y) = (p.0, page.boat_row(p.1, dir));
            let (sx, sy) = (x.plus(part.0), y.plus(part.1));
            let (ex, ey) = (x.exact() + part.0.exact(), y.exact() + part.1.exact());
            &&& sx.is_finite_number() && 0x20_0000_0000_0000 * apart(sx.exact(), ex) <= size(ex)
            &&& sy.is_finite_number() && 0x20_0000_0000_0000 * apart(sy.exact(), ey) <= size(ey)
        }),
{
    let p = page.spot(at);
    let row = page.boat_row(p.1, dir);
    let part = plain_shape(name, dir, page.row_step, page.col_step)[i];
    let j = if dir is Up {
        2 - i
    } else if dir is Down && i < 2 {
        1 - i
    } else {
        i
    };
    lemma_where_positions_appear(page, at);
    lemma_boat_row(page, p.1, dir);
    lemma_parts_are_close(name, dir, page.row_step, page.col_step, j);
    lemma_same_boats_as_in_full_game(name, dir, page.row_step, page.col_step, j);
    lemma2_to64();
    lemma_pow2_adds(10, 1074);
    lemma_pow2_adds(2, 1300);
    lemma_pow2_pos(1074);
    lemma_pow2_pos(1300);
    lemma_pow2_strictly_increases(1084, 1300);
    lemma_pow2_strictly_increases(1302, 1600);
    lemma_pow2_strictly_increases(1300, 1600);
    lemma_doubles_near(p.0, part.0);
    lemma_doubles_near(row, part.1);
}

/// Where a boat is, its name and where it heads: that of another player, or the own one.
pub open spec fn boat_of(app: App, other: Option<u64>) -> (Position, Seq<char>, Direction) {
    match other {
        Some(id) => {
            let boat = app.remote_boats@[id];
            (boat.position, boat.name@, boat.last_dir)
        },
        None => (app.cursor, app.my_name@, app.last_dir),
    }
}

/// The colors of the boats: the own one is yellow and bold, the others are cyan.
pub open spec fn colors_of(other: Option<u64>) -> Style {
    if other is Some {
        in_color(Color::Cyan)
    } else {
        in_bold(Color::Yellow)
    }
}

/// Every boat is drawn with all its parts, wherever it lies, each part at its distance from the
/// boat: the own one in yellow and bold, the others in cyan.
pub proof fn lemma_every_boat_is_drawn(
    app: App,
    page: Page,
    now: u64,
    order: Seq<u64>,
    other: Option<u64>,
    i: int,
)
    requires
        lists(order, app.remote_boats@.dom()),
        other matches Some(id) ==> app.remote_boats@.contains_key(id),
        is_step(page.row_step),
        is_step(page.col_step),
        page.tall_enough(),
        ({
            let (at, name, dir) = boat_of(app, other);
            &&& at.x.is_finite_number() && at.y.is_finite_number()
            &&& is_name(name)
            &&& 0 <= i < plain_shape(name, dir, page.row_step, page.col_step).len()
        }),
    ensures
        ({
            let (at, name, dir) = boat_of(app, other);
            let part = plain_shape(name, dir, page.row_step, page.col_step)[i];
            let p = page.spot(at);
            let marks = plain_scene(app, page, now, order);
            exists|k: int|
                0 <= k < marks.len() && marks[k].style == colors_of(other) && #[trigger] shows_part(
                    marks[k],
                    part.2,
                    p.0.exact() + part.0.exact(),
                    page.boat_row(p.1, dir).exact() + part.1.exact(),
                )
        }),
{
    let (at, name, dir) = boat_of(app, other);
    let part = plain_shape(name, dir, page.row_step, page.col_step)[i];
    let p = page.spot(at);
    let marks = plain_scene(app, page, now, order);
    lemma_part_place(page, at, name, dir, i);
    let a = wall_marks(app, page, PAGE_TILES as int);
    let b = plain_fleet_marks(page, app.remote_boats@, order);
    let c = plain_own_marks(page, app);
    let list = match other {
        Some(id) => plain_boat_marks(page, app.remote_boats@[id]),
        None => c,
    };
    let m = list[i];
    assert(holds_mark(list, m));
    if let Some(id) = other {
        assert(order.contains(id));
        lemma_in_fleet(page, app.remote_boats@, order, id, m);
        lemma_held_by_sum(a, b, m);
    }
    lemma_held_by_sum(a + b, c, m);
    lemma_held_by_sum(a + b + c, bubble_marks(page, app.bubbles@, now), m);
    let k = choose|k: int| 0 <= k < marks.len() && #[trigger] marks[k] == m;
    assert(shows_part(
        marks[k],
        part.2,
        p.0.exact() + part.0.exact(),
        page.boat_row(p.1, dir).exact() + part.1.exact(),
    ));
}

/// The title says on which tile and on which page the boat is, and nothing else.
pub proof fn lemma_title_says_where(app: App, col: int, row: int)
    requires
        lies_on(app.cursor.x, col),
        lies_on(app.cursor.y, row),
        0 <= col <= u32::MAX,
        0 <= row <= u32::MAX,
    ensures
        says_where(plain_title(app), col, row, Seq::empty()),
{
    lemma_lies_on(app.cursor.x, col);
    lemma_lies_on(app.cursor.y, row);
    lemma_says_where(col, row, Seq::empty());
    assert(plain_title(app) + Seq::<char>::empty() =~= plain_title(app));
}

} // verus!
