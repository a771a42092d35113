//! The coast of the page around the player is drawn where it borders something solid.

use vstd::arithmetic::power2::{lemma2_to64, lemma2_to64_rest, lemma_pow2_adds, lemma_pow2_pos, pow2};
use vstd::prelude::*;

use crate::float::model::Format;
use crate::float::F64;
use crate::round_trip::steps::{lemma_encoded, lemma_minus_exact, lemma_whole_double};
use crate::tiles::Tile;

use super::app::{App, RemoteBoat};
use super::render::{coast_glyph, Color, MarkView, CANVAS_H, F64_ONE};
use super::scene::{
    bubble_marks, coast_drawn, coast_mark, coast_marks, hint_marks, offscreen_marks, own_marks,
    page_tile, remote_boat_marks, remote_marks, scene, Page, PAGE_TILES,
};

verus! {

/// Whether a mark stands at a column and a row of the canvas, counted from the lower left.
pub open spec fn stands_at(m: MarkView, col: int, row: int) -> bool {
    &&& m.x.is_finite_number() && m.x.exact() == col * pow2(1074)
    &&& m.y.is_finite_number() && m.y.exact() == row * pow2(1074)
}

/// Whether something green stands at a column and a row of the canvas.
pub open spec fn green_at(m: MarkView, col: int, row: int) -> bool {
    m.style.color == Color::Green && stands_at(m, col, row)
}

/// Whether a drawing shows something green at a column and a row.
pub open spec fn shows_green(marks: Seq<MarkView>, col: int, row: int) -> bool {
    exists|k: int| 0 <= k < marks.len() && #[trigger] green_at(marks[k], col, row)
}

/// Whether a tile is known to be land or coast.
pub open spec fn known_solid(app: App, x: int, y: int) -> bool {
    0 <= x <= u32::MAX && 0 <= y <= u32::MAX && (app.known_tile(x as u32, y as u32) == Some(
        Tile::Land,
    ) || app.known_tile(x as u32, y as u32) == Some(Tile::Coast))
}

/// The place of a tile of the coast on the canvas.
pub proof fn lemma_coast_place(app: App, page: Page, x: u32, y: u32)
    requires
        page.ox <= x < page.ox + 200,
        page.oy <= y < page.oy + 50,
    ensures
        stands_at(coast_mark(app, page, x, y), x - page.ox, 49 - (y - page.oy)),
{
    lemma2_to64();
    lemma2_to64_rest();
    let f = Format::Double;
    let unit = pow2(1074);
    let (c, r) = ((x - page.ox) as nat, (y - page.oy) as nat);
    lemma_whole_double(c);
    lemma_whole_double(r);
    lemma_whole_double(49);
    let canvas = F64 { bits: CANVAS_H };
    let one = F64 { bits: F64_ONE };
    lemma_encoded(CANVAS_H, 0x404, 0x9_0000_0000_0000);
    lemma_encoded(F64_ONE, 0x3ff, 0);
    lemma_pow2_adds(47, 1027);
    lemma_pow2_adds(52, 1022);
    let tock = pow2(1027);
    assert(0x19_0000_0000_0000nat * tock == 50 * unit) by (nonlinear_arith)
        requires
            unit == 0x8000_0000_0000 * tock,
    ;
    assert(0x10_0000_0000_0000nat * pow2(1022) == unit);
    lemma_minus_exact(canvas, one, 50 * unit, unit, 49, 1074);
    let up = (49 - r) as nat;
    assert(49 * unit == r * unit + up * unit) by (nonlinear_arith)
        requires
            49 == r + up,
    ;
    lemma_minus_exact(canvas.minus(one), F64::of_nat(r), 49 * unit, r * unit, up, 1074);
}

/// What the first tiles of a page show at the place of a tile.
proof fn lemma_coast_shown(app: App, page: Page, x: u32, y: u32, tiles: int)
    requires
        page.ox + 200 <= u32::MAX,
        page.oy + 50 <= u32::MAX,
        page.ox <= x < page.ox + 200,
        page.oy <= y < page.oy + 50,
        0 <= tiles <= PAGE_TILES,
    ensures
        shows_green(coast_marks(app, page, tiles), x - page.ox, 49 - (y - page.oy)) <==> (y
            - page.oy) * 200 + (x - page.ox) < tiles && coast_drawn(app, x, y),
        forall|k: int|
            0 <= k < coast_marks(app, page, tiles).len() && #[trigger] green_at(
                coast_marks(app, page, tiles)[k],
                x - page.ox,
                49 - (y - page.oy),
            ) ==> coast_marks(app, page, tiles)[k] == coast_mark(app, page, x, y),
    decreases tiles,
{
    if tiles > 0 {
        lemma_coast_shown(app, page, x, y, tiles - 1);
        let i = tiles - 1;
        let (tx, ty) = page_tile(page, i);
        let (c, r) = (x - page.ox, 49 - (y - page.oy));
        let rest = coast_marks(app, page, tiles - 1);
        let all = coast_marks(app, page, tiles);
        lemma_coast_place(app, page, tx, ty);
        lemma_pow2_pos(1074);
        if coast_drawn(app, tx, ty) {
            let m = coast_mark(app, page, tx, ty);
            assert(all == rest.push(m));
            let (tc, tr) = (tx - page.ox, 49 - (ty - page.oy));
            if stands_at(m, c, r) {
                let unit = pow2(1074) as int;
                assert(tc == c && tr == r) by (nonlinear_arith)
                    requires
                        tc * unit == c * unit,
                        tr * unit == r * unit,
                        unit > 0,
                ;
                assert(tx == x && ty == y);
            }
            if shows_green(rest, c, r) {
                let k = choose|k: int| 0 <= k < rest.len() && #[trigger] green_at(rest[k], c, r);
                assert(green_at(all[k], c, r));
            }
            if shows_green(all, c, r) {
                let k = choose|k: int| 0 <= k < all.len() && #[trigger] green_at(all[k], c, r);
                if k < rest.len() {
                    assert(green_at(rest[k], c, r));
                } else {
                    assert(all[k] == m);
                }
            }
            if (tx, ty) == (x, y) {
                assert(green_at(all[rest.len() as int], c, r));
            }
            assert forall|k: int| 0 <= k < all.len() && #[trigger] green_at(all[k], c, r) implies
                all[k] == coast_mark(app, page, x, y) by {
                if k < rest.len() {
                    assert(green_at(rest[k], c, r));
                } else {
                    assert(all[k] == m);
                }
            }
        }
        if (tx, ty) == (x, y) {
            assert((y - page.oy) * 200 + (x - page.ox) == i);
        } else {
            assert((y - page.oy) * 200 + (x - page.ox) != i);
        }
    }
}

/// Whether nothing of a drawing is green.
spec fn nothing_green(marks: Seq<MarkView>) -> bool {
    forall|k: int| 0 <= k < marks.len() ==> (#[trigger] marks[k]).style.color != Color::Green
}

/// Boats are not green.
proof fn lemma_boats_not_green(page: Page, boats: Map<u64, RemoteBoat>, order: Seq<u64>)
    ensures
        nothing_green(remote_marks(page, boats, order)),
        nothing_green(offscreen_marks(page, boats, order)),
    decreases order.len(),
{
    if order.len() > 0 {
        let init = order.drop_last();
        lemma_boats_not_green(page, boats, init);
        let boat = boats[order.last()];
        let (a, b) = (remote_marks(page, boats, init), remote_boat_marks(page, boat));
        assert forall|k: int| 0 <= k < (a + b).len() implies (#[trigger] (a + b)[k]).style.color
            != Color::Green by {
            if k < a.len() {
                assert((a + b)[k] == a[k]);
            } else {
                assert((a + b)[k] == b[k - a.len()]);
            }
        }
        let (c, d) = (offscreen_marks(page, boats, init), hint_marks(page.spot(boat.position)));
        assert forall|k: int| 0 <= k < (c + d).len() implies (#[trigger] (c + d)[k]).style.color
            != Color::Green by {
            if k < c.len() {
                assert((c + d)[k] == c[k]);
            } else {
                assert((c + d)[k] == d[k - c.len()]);
            }
        }
    }
}

/// Of every tile of the page that is known to be coast, something is drawn in green at its place if
/// and only if one of its four neighbours is known to be land or coast, and what is drawn goes with
/// these neighbours; nothing is drawn in green of any other tile.
pub proof fn lemma_coast_is_drawn(
    app: App,
    page: Page,
    now: u64,
    order: Seq<u64>,
    x: u32,
    y: u32,
)
    requires
        page.ox + 200 <= u32::MAX,
        page.oy + 50 <= u32::MAX,
        page.ox <= x < page.ox + 200,
        page.oy <= y < page.oy + 50,
        x == 0 ==> app.known_tile(u32::MAX, y) is None,
        y == 0 ==> app.known_tile(x, u32::MAX) is None,
    ensures
        shows_green(scene(app, page, now, order), x - page.ox, 49 - (y - page.oy)) <==> {
            &&& app.known_tile(x, y) == Some(Tile::Coast)
            &&& known_solid(app, x - 1, y as int) || known_solid(app, x + 1, y as int)
                || known_solid(app, x as int, y - 1) || known_solid(app, x as int, y + 1)
        },
        x < 0x7fff_ffff && y < 0x7fff_ffff ==> forall|k: int|
            0 <= k < scene(app, page, now, order).len() && #[trigger] green_at(
                scene(app, page, now, order)[k],
                x - page.ox,
                49 - (y - page.oy),
            ) ==> scene(app, page, now, order)[k].text == coast_glyph(
                known_solid(app, x as int, y - 1),
                known_solid(app, x as int, y + 1),
                known_solid(app, x - 1, y as int),
                known_solid(app, x + 1, y as int),
            ),
{
    let (c, r) = (x - page.ox, 49 - (y - page.oy));
    let a = coast_marks(app, page, PAGE_TILES as int);
    let b = remote_marks(page, app.remote_boats@, order);
    let own = own_marks(page, app);
    let d = offscreen_marks(page, app.remote_boats@, order);
    let e = bubble_marks(page, app.bubbles@, now);
    let all = scene(app, page, now, order);
    lemma_coast_shown(app, page, x, y, PAGE_TILES as int);
    lemma_boats_not_green(page, app.remote_boats@, order);
    assert((y - page.oy) * 200 + (x - page.ox) < PAGE_TILES);
    if shows_green(a, c, r) {
        let k = choose|k: int| 0 <= k < a.len() && #[trigger] green_at(a[k], c, r);
        assert(all[k] == a[k]);
        assert(green_at(all[k], c, r));
    }
    assert forall|k: int| 0 <= k < all.len() && #[trigger] green_at(all[k], c, r) implies
        shows_green(a, c, r) && all[k] == coast_mark(app, page, x, y) by {
        let (n1, n2, n3, n4) = (
            a.len() as int,
            a.len() + b.len(),
            a.len() + b.len() + own.len(),
            a.len() + b.len() + own.len() + d.len(),
        );
        if k < n1 {
            assert(all[k] == a[k]);
            assert(green_at(a[k], c, r));
        } else if k < n2 {
            assert(all[k] == b[k - n1]);
        } else if k < n3 {
            assert(all[k] == own[k - n2]);
        } else if k < n4 {
            assert(all[k] == d[k - n3]);
        } else {
            assert(all[k] == e[k - n4]);
        }
    }
}

/// The mirror image of a character of the coast.
pub open spec fn mirrored(glyph: Seq<char>) -> Seq<char> {
    if glyph == "/"@ {
        "\\"@
    } else if glyph == "\\"@ {
        "/"@
    } else {
        glyph
    }
}

/// A character of the coast after a quarter turn.
pub open spec fn turned(glyph: Seq<char>) -> Seq<char> {
    if glyph == "-"@ {
        "|"@
    } else if glyph == "|"@ {
        "-"@
    } else {
        mirrored(glyph)
    }
}

/// The character of the coast goes with its surroundings: mirrored with them and turned with them.
/// Where only one axis is solid it runs along that axis, and also where the other one is solid on
/// one side; in a corner it is a diagonal across.
pub proof fn lemma_coast_goes_with_surroundings(n: bool, s: bool, w: bool, e: bool)
    ensures
        coast_glyph(n, s, e, w) == mirrored(coast_glyph(n, s, w, e)),
        coast_glyph(s, n, w, e) == mirrored(coast_glyph(n, s, w, e)),
        coast_glyph(w, e, s, n) == turned(coast_glyph(n, s, w, e)),
        w && e && !(n && s) ==> coast_glyph(n, s, w, e) == "-"@,
        (w || e) && !n && !s ==> coast_glyph(n, s, w, e) == "-"@,
        n && w && !s && !e ==> coast_glyph(n, s, w, e) == "/"@,
        n && s && w && e ==> coast_glyph(n, s, w, e) == "+"@,
        !n && !s && !w && !e ==> coast_glyph(n, s, w, e) == " "@,
{
    reveal_strlit("-");
    reveal_strlit("|");
    reveal_strlit("/");
    reveal_strlit("\\");
    reveal_strlit("+");
    reveal_strlit(" ");
    assert("-"@[0] != "|"@[0] && "/"@[0] != "\\"@[0] && "-"@[0] != "/"@[0] && "-"@[0] != "\\"@[0]
        && "|"@[0] != "/"@[0] && "|"@[0] != "\\"@[0]);
    assert("+"@[0] != "|"@[0] && "+"@[0] != "\\"@[0] && "+"@[0] != "/"@[0] && "+"@[0] != "-"@[0]);
    assert(" "@[0] != "|"@[0] && " "@[0] != "\\"@[0] && " "@[0] != "/"@[0] && " "@[0] != "-"@[0]);
}

} // verus!
