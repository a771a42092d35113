//! Where boats and words appear on the page around the player.

use vstd::arithmetic::power2::{
    lemma2_to64, lemma2_to64_rest, lemma_pow2_adds, lemma_pow2_pos, lemma_pow2_strictly_increases,
    pow2,
};
use vstd::prelude::*;

use crate::float::error::lemma_exact;
use crate::float::exact::{apart, lemma_doubles_near, lemma_same_in_double, size};
use crate::float::laws::{
    lemma_nearest_scaled, lemma_order_of_values, lemma_representable, lemma_zero,
};
use crate::float::model::{magnitude, Format};
use crate::float::{F32, F64};
use crate::listing::lists;
use crate::protocol::Position;
use crate::round_trip::steps::{holds, lemma_encoded, lemma_minus_exact, lemma_whole_double};

use super::app::{App, Direction, RemoteBoat, BUBBLE_OFFSET};
use super::render::{in_color, Color, MarkView, CANVAS_H, CANVAS_W, F64_ONE, F64_TWO};
use super::scene::{
    bubble_mark, bubble_marks, coast_marks, hint_marks, is_zero, offscreen_marks, own_marks,
    remote_boat_marks, remote_marks, scene, Page, PAGE_TILES,
};

verus! {

/// Whether a drawing holds a mark.
pub open spec fn holds_mark(marks: Seq<MarkView>, m: MarkView) -> bool {
    exists|k: int| 0 <= k < marks.len() && #[trigger] marks[k] == m
}

/// How far east of the page's first column a position lies, in parts of a tile of which there are
/// two to the power of 1074.
pub open spec fn east_of(page: Page, p: Position) -> int {
    p.x.exact() * pow2(925) - page.ox * pow2(1074)
}

/// How far south of the page's first row a position lies.
pub open spec fn south_of(page: Page, p: Position) -> int {
    p.y.exact() * pow2(925) - page.oy * pow2(1074)
}

/// Whether two numbers of tiles are the same, up to one part in a million of a millionth of what
/// they are made from.
pub open spec fn same_up_to_rounding(a: int, b: int, from: int) -> bool {
    0x10_0000_0000_0000 * apart(a, b) <= size(from)
}

/// The sizes of the canvas.
pub proof fn lemma_canvas()
    ensures
        holds(Format::Double, (F64 { bits: CANVAS_H }).parts(), 50 * pow2(1074)),
        holds(Format::Double, (F64 { bits: CANVAS_W }).parts(), 200 * pow2(1074)),
        holds(
            Format::Double,
            (F64 { bits: CANVAS_H }).minus(F64 { bits: F64_ONE }).parts(),
            49 * pow2(1074),
        ),
{
    lemma2_to64();
    lemma2_to64_rest();
    let unit = pow2(1074);
    lemma_encoded(CANVAS_H, 0x404, 0x9_0000_0000_0000);
    lemma_encoded(CANVAS_W, 0x406, 0x9_0000_0000_0000);
    lemma_encoded(F64_ONE, 0x3ff, 0);
    lemma_pow2_adds(47, 1027);
    lemma_pow2_adds(45, 1029);
    lemma_pow2_adds(52, 1022);
    assert(0x19_0000_0000_0000nat * pow2(1027) == 50 * unit) by (nonlinear_arith)
        requires
            unit == 0x8000_0000_0000 * pow2(1027),
    ;
    assert(0x19_0000_0000_0000nat * pow2(1029) == 200 * unit) by (nonlinear_arith)
        requires
            unit == 0x2000_0000_0000 * pow2(1029),
    ;
    lemma_minus_exact(F64 { bits: CANVAS_H }, F64 { bits: F64_ONE }, 50 * unit, unit, 49, 1074);
}

/// A position appears on the canvas as many columns from the left as it lies tiles east of the
/// page's first column, and as many rows below the top row as it lies tiles south of the page's
/// first row.
pub proof fn lemma_where_positions_appear(page: Page, p: Position)
    requires
        p.x.is_finite_number(),
        p.y.is_finite_number(),
    ensures
        page.spot(p).0.is_finite_number(),
        page.spot(p).1.is_finite_number(),
        same_up_to_rounding(page.spot(p).0.exact(), east_of(page, p), east_of(page, p)),
        same_up_to_rounding(
            page.spot(p).1.exact(),
            49 * pow2(1074) - south_of(page, p),
            49 * pow2(1074) + 2 * size(south_of(page, p)),
        ),
        size(page.spot(p).0.exact()) < pow2(1300),
        size(page.spot(p).1.exact()) < pow2(1300),
{
    lemma_canvas();
    lemma_from_first_tile(p.x, page.ox);
    lemma_from_first_tile(p.y, page.oy);
    let d = p.y.to_f64_number().minus(F64::of_nat(page.oy as nat));
    let top = (F64 { bits: CANVAS_H }).minus(F64 { bits: F64_ONE });
    lemma2_to64();
    lemma2_to64_rest();
    lemma_pow2_adds(6, 1074);
    lemma_pow2_pos(1074);
    lemma_pow2_strictly_increases(1080, 1204);
    lemma_pow2_strictly_increases(1204, 1600);
    assert(top.exact() == 49 * pow2(1074));
    lemma_doubles_near(top, d);
    lemma_pow2_adds(3, 1204);
    lemma_pow2_strictly_increases(1207, 1300);
    lemma_pow2_strictly_increases(1204, 1300);
}

/// How far a coordinate lies from the first tile of the page.
proof fn lemma_from_first_tile(v: F32, o: u32)
    requires
        v.is_finite_number(),
    ensures
        ({
            let d = v.to_f64_number().minus(F64::of_nat(o as nat));
            let exact = v.exact() * pow2(925) - o * pow2(1074);
            &&& d.is_finite_number()
            &&& 0x20_0000_0000_0000 * apart(d.exact(), exact) <= size(exact)
            &&& size(d.exact()) < pow2(1204)
        }),
{
    let unit = pow2(1074);
    let big = pow2(1202);
    lemma2_to64();
    lemma2_to64_rest();
    lemma_same_in_double(v);
    lemma_whole_double(o as nat);
    lemma_pow2_pos(925);
    lemma_pow2_pos(1074);
    lemma_pow2_adds(277, 925);
    lemma_pow2_adds(32, 1074);
    lemma_far(v.exact(), pow2(925) as int, pow2(277) as int, big as int);
    assert(0 <= o * unit <= 0x1_0000_0000 * unit) by (nonlinear_arith)
        requires
            o <= 0x1_0000_0000,
    ;
    lemma_pow2_strictly_increases(1106, 1202);
    lemma_pow2_adds(2, 1202);
    lemma_pow2_strictly_increases(1202, 1600);
    assert(F64::of_nat(o as nat).exact() == o * unit);
    lemma_doubles_near(v.to_f64_number(), F64::of_nat(o as nat));
}

pub proof fn lemma_far(v: int, scale: int, most: int, big: int)
    requires
        size(v) < most,
        scale > 0,
        big == most * scale,
    ensures
        size(v * scale) < big,
{
    assert((-v) * scale == -(v * scale)) by (nonlinear_arith);
    let a = size(v);
    assert(a * scale < most * scale && a * scale >= 0) by (nonlinear_arith)
        requires
            0 <= a < most,
            scale > 0,
    ;
}

/// The middle of the canvas.
pub proof fn lemma_center()
    ensures
        holds(
            Format::Double,
            (F64 { bits: CANVAS_W }).over(F64 { bits: F64_TWO }).parts(),
            100 * pow2(1074),
        ),
        holds(
            Format::Double,
            (F64 { bits: CANVAS_H }).over(F64 { bits: F64_TWO }).parts(),
            25 * pow2(1074),
        ),
{
    let f = Format::Double;
    let unit = pow2(1074);
    lemma2_to64();
    lemma2_to64_rest();
    lemma_zero(f);
    lemma_canvas();
    lemma_pow2_pos(1074);
    lemma_encoded(F64_TWO, 0x400, 0);
    lemma_pow2_adds(52, 1023);
    lemma_pow2_adds(1, 1074);
    assert(0x10_0000_0000_0000nat * pow2(1023) == 2 * unit);
    lemma_exact(f, 100, 1074);
    lemma_exact(f, 25, 1074);
    lemma_nearest_scaled(f, 100 * unit, 1, 2 * unit);
    lemma_nearest_scaled(f, 25 * unit, 1, 2 * unit);
    assert((200 * unit) * unit == (100 * unit) * (2 * unit)) by (nonlinear_arith);
    assert((50 * unit) * unit == (25 * unit) * (2 * unit)) by (nonlinear_arith);
    assert(1 * (2 * unit) == 2 * unit);
}

/// What is nowhere from the middle of the canvas is on it.
pub proof fn lemma_middle_is_within(p: (F64, F64))
    requires
        p.0.is_finite_number(),
        p.1.is_finite_number(),
        size(p.0.exact()) < pow2(1300),
        size(p.1.exact()) < pow2(1300),
    ensures
        ({
            let cx = (F64 { bits: CANVAS_W }).over(F64 { bits: F64_TWO });
            let cy = (F64 { bits: CANVAS_H }).over(F64 { bits: F64_TWO });
            is_zero(p.0.minus(cx)) && is_zero(p.1.minus(cy)) ==> p.0.exact() == 100 * pow2(1074)
                && p.1.exact() == 25 * pow2(1074)
        }),
{
    let f = Format::Double;
    let zero = F64 { bits: 0 };
    let cx = (F64 { bits: CANVAS_W }).over(F64 { bits: F64_TWO });
    let cy = (F64 { bits: CANVAS_H }).over(F64 { bits: F64_TWO });
    lemma2_to64();
    lemma2_to64_rest();
    lemma_zero(f);
    lemma_center();
    lemma_pow2_adds(7, 1074);
    lemma_pow2_pos(1074);
    lemma_pow2_strictly_increases(1081, 1300);
    lemma_pow2_strictly_increases(1300, 1600);
    assert(cx.exact() == 100 * pow2(1074) && cy.exact() == 25 * pow2(1074));
    lemma_doubles_near(p.0, cx);
    lemma_doubles_near(p.1, cy);
    lemma_order_of_values(f, zero.parts(), p.0.minus(cx).parts());
    lemma_order_of_values(f, p.0.minus(cx).parts(), zero.parts());
    lemma_order_of_values(f, zero.parts(), p.1.minus(cy).parts());
    lemma_order_of_values(f, p.1.minus(cy).parts(), zero.parts());
}

/// Every other boat is either drawn or hinted at, never both: drawn where it lies on the canvas,
/// hinted at where it does not.
pub proof fn lemma_drawn_or_hinted_at(page: Page, boat: RemoteBoat)
    requires
        boat.position.x.is_finite_number(),
        boat.position.y.is_finite_number(),
    ensures
        ({
            let p = page.spot(boat.position);
            let on_canvas = 0 <= p.0.exact() <= 200 * pow2(1074) && 0 <= p.1.exact() <= 50 * pow2(
                1074,
            );
            &&& on_canvas <==> remote_boat_marks(page, boat).len() >= 2
            &&& on_canvas <==> hint_marks(p).len() == 0
            &&& !on_canvas <==> remote_boat_marks(page, boat).len() == 0
            &&& !on_canvas <==> hint_marks(p).len() == 1
        }),
{
    let f = Format::Double;
    let p = page.spot(boat.position);
    lemma2_to64();
    lemma_zero(f);
    lemma_canvas();
    lemma_where_positions_appear(page, boat.position);
    let (w, h, zero) = (F64 { bits: CANVAS_W }, F64 { bits: CANVAS_H }, F64 { bits: 0 });
    lemma_order_of_values(f, zero.parts(), p.0.parts());
    lemma_order_of_values(f, p.0.parts(), zero.parts());
    lemma_order_of_values(f, p.0.parts(), w.parts());
    lemma_order_of_values(f, w.parts(), p.0.parts());
    lemma_order_of_values(f, zero.parts(), p.1.parts());
    lemma_order_of_values(f, p.1.parts(), zero.parts());
    lemma_order_of_values(f, p.1.parts(), h.parts());
    lemma_order_of_values(f, h.parts(), p.1.parts());
    lemma_middle_is_within(p);
}

/// A mark of a part of a drawing is a mark of the whole.
pub proof fn lemma_held_by_sum(a: Seq<MarkView>, b: Seq<MarkView>, m: MarkView)
    requires
        holds_mark(a, m) || holds_mark(b, m),
    ensures
        holds_mark(a + b, m),
{
    if holds_mark(a, m) {
        let k = choose|k: int| 0 <= k < a.len() && #[trigger] a[k] == m;
        assert((a + b)[k] == m);
    } else {
        let k = choose|k: int| 0 <= k < b.len() && #[trigger] b[k] == m;
        assert((a + b)[a.len() + k] == m);
    }
}

/// The marks of every boat are among those of all boats.
pub proof fn lemma_every_boat(page: Page, boats: Map<u64, RemoteBoat>, order: Seq<u64>, id: u64, m: MarkView)
    requires
        order.contains(id),
    ensures
        holds_mark(remote_boat_marks(page, boats[id]), m) ==> holds_mark(
            remote_marks(page, boats, order),
            m,
        ),
        holds_mark(hint_marks(page.spot(boats[id].position)), m) ==> holds_mark(
            offscreen_marks(page, boats, order),
            m,
        ),
    decreases order.len(),
{
    let init = order.drop_last();
    let last = boats[order.last()];
    let (a, b) = (remote_marks(page, boats, init), remote_boat_marks(page, last));
    let (c, d) = (offscreen_marks(page, boats, init), hint_marks(page.spot(last.position)));
    if order.last() != id {
        let i = choose|i: int| 0 <= i < order.len() && order[i] == id;
        assert(init[i] == id);
        lemma_every_boat(page, boats, init, id, m);
    }
    if holds_mark(a, m) || holds_mark(b, m) {
        lemma_held_by_sum(a, b, m);
    }
    if holds_mark(c, m) || holds_mark(d, m) {
        lemma_held_by_sum(c, d, m);
    }
}

/// The marks of every part are marks of the page.
pub proof fn lemma_held_by_scene(app: App, page: Page, now: u64, order: Seq<u64>, m: MarkView)
    requires
        holds_mark(remote_marks(page, app.remote_boats@, order), m) || holds_mark(
            own_marks(page, app),
            m,
        ) || holds_mark(offscreen_marks(page, app.remote_boats@, order), m) || holds_mark(
            bubble_marks(page, app.bubbles@, now),
            m,
        ),
    ensures
        holds_mark(scene(app, page, now, order), m),
{
    let a = coast_marks(app, page, PAGE_TILES as int);
    let b = remote_marks(page, app.remote_boats@, order);
    let c = own_marks(page, app);
    let d = offscreen_marks(page, app.remote_boats@, order);
    let e = bubble_marks(page, app.bubbles@, now);
    if holds_mark(b, m) {
        lemma_held_by_sum(a, b, m);
    }
    if holds_mark(a + b, m) || holds_mark(c, m) {
        lemma_held_by_sum(a + b, c, m);
    }
    if holds_mark(a + b + c, m) || holds_mark(d, m) {
        lemma_held_by_sum(a + b + c, d, m);
    }
    lemma_held_by_sum(a + b + c + d, e, m);
}

/// A number plus zero is the number.
proof fn lemma_plus_zero(v: F64)
    requires
        v.is_finite_number(),
    ensures
        v.plus(F64 { bits: 0 }).is_finite_number(),
        v.plus(F64 { bits: 0 }).exact() == v.exact(),
{
    let f = Format::Double;
    lemma_zero(f);
    lemma_representable(f, v.parts().abs as nat);
}

/// Whether a mark shows a boat that sails to the left or to the right, by its name between two
/// strokes.
pub open spec fn shows_hull(m: MarkView, name: Seq<char>, dir: Direction, x: int, y: int) -> bool {
    &&& m.x.is_finite_number() && m.x.exact() == x
    &&& m.y.is_finite_number() && m.y.exact() == y
    &&& m.text == match dir {
        Direction::Left => "\\"@ + name + "\\"@,
        _ => "/"@ + name + "/"@,
    }
}

/// Every other boat that lies on the canvas and sails to the left or to the right is drawn there,
/// in cyan and by its name; and one hint, in cyan, stands for every boat that does not.
pub proof fn lemma_other_boats_are_shown(app: App, page: Page, now: u64, order: Seq<u64>, id: u64)
    requires
        lists(order, app.remote_boats@.dom()),
        app.remote_boats@.contains_key(id),
        app.remote_boats@[id].position.x.is_finite_number(),
        app.remote_boats@[id].position.y.is_finite_number(),
    ensures
        ({
            let boat = app.remote_boats@[id];
            let p = page.spot(boat.position);
            let marks = scene(app, page, now, order);
            let on_canvas = 0 <= p.0.exact() <= 200 * pow2(1074) && 0 <= p.1.exact() <= 50 * pow2(
                1074,
            );
            &&& on_canvas && (boat.last_dir is Left || boat.last_dir is Right) ==> exists|k: int|
                0 <= k < marks.len() && marks[k].style == in_color(Color::Cyan)
                    && #[trigger] shows_hull(
                    marks[k],
                    boat.name@,
                    boat.last_dir,
                    p.0.exact(),
                    p.1.exact(),
                )
            &&& !on_canvas ==> holds_mark(marks, hint_marks(p)[0]) && hint_marks(p)[0].style
                == in_color(Color::Cyan)
        }),
{
    let boats = app.remote_boats@;
    let boat = boats[id];
    let p = page.spot(boat.position);
    let marks = scene(app, page, now, order);
    lemma_drawn_or_hinted_at(page, boat);
    assert(order.contains(id));
    let list = remote_boat_marks(page, boat);
    if list.len() >= 2 {
        let m = list[0];
        assert(holds_mark(list, m));
        lemma_every_boat(page, boats, order, id, m);
        lemma_held_by_scene(app, page, now, order, m);
        let k = choose|k: int| 0 <= k < marks.len() && #[trigger] marks[k] == m;
        if boat.last_dir is Left || boat.last_dir is Right {
            lemma_hull_of_boat(page, boat);
            assert(shows_hull(marks[k], boat.name@, boat.last_dir, p.0.exact(), p.1.exact()));
        }
    } else {
        let m = hint_marks(p)[0];
        assert(holds_mark(hint_marks(p), m));
        lemma_every_boat(page, boats, order, id, m);
        lemma_held_by_scene(app, page, now, order, m);
        lemma_hint_is_cyan(p);
    }
}

/// The hull of a boat that is drawn.
proof fn lemma_hull_of_boat(page: Page, boat: RemoteBoat)
    requires
        boat.position.x.is_finite_number(),
        boat.position.y.is_finite_number(),
        remote_boat_marks(page, boat).len() >= 2,
        boat.last_dir is Left || boat.last_dir is Right,
    ensures
        remote_boat_marks(page, boat)[0].style == in_color(Color::Cyan),
        shows_hull(
            remote_boat_marks(page, boat)[0],
            boat.name@,
            boat.last_dir,
            page.spot(boat.position).0.exact(),
            page.spot(boat.position).1.exact(),
        ),
{
    let p = page.spot(boat.position);
    lemma_where_positions_appear(page, boat.position);
    lemma_plus_zero(p.0);
    lemma_plus_zero(p.1);
}

proof fn lemma_hint_is_cyan(p: (F64, F64))
    requires
        hint_marks(p).len() == 1,
    ensures
        hint_marks(p)[0].style == in_color(Color::Cyan),
{
}

/// The player's own boat is drawn where it lies, in yellow and bold, by the name of the player
/// where it sails to the left or to the right.
pub proof fn lemma_own_boat_is_shown(app: App, page: Page, now: u64, order: Seq<u64>)
    requires
        app.cursor.x.is_finite_number(),
        app.cursor.y.is_finite_number(),
        app.last_dir is Left || app.last_dir is Right,
    ensures
        exists|k: int|
            0 <= k < scene(app, page, now, order).len() && scene(
                app,
                page,
                now,
                order,
            )[k].style.color == Color::Yellow && scene(app, page, now, order)[k].style.bold
                && #[trigger] shows_hull(
                scene(app, page, now, order)[k],
                app.my_name@,
                app.last_dir,
                page.spot(app.cursor).0.exact(),
                page.spot(app.cursor).1.exact(),
            ),
{
    let p = page.spot(app.cursor);
    let marks = scene(app, page, now, order);
    let list = own_marks(page, app);
    lemma_where_positions_appear(page, app.cursor);
    lemma_plus_zero(p.0);
    lemma_plus_zero(p.1);
    let m = list[0];
    assert(holds_mark(list, m));
    lemma_held_by_scene(app, page, now, order, m);
    let k = choose|k: int| 0 <= k < marks.len() && #[trigger] marks[k] == m;
    assert(shows_hull(marks[k], app.my_name@, app.last_dir, p.0.exact(), p.1.exact()));
}

/// Whatever was said less than five seconds ago is kept and nothing else; it is drawn in brackets
/// three rows above where it was said, bright for three and a half seconds and dim after that.
pub proof fn lemma_words_are_shown(app: App, page: Page, now: u64, order: Seq<u64>, i: int)
    requires
        0 <= i < app.bubbles@.len(),
        app.bubbles@[i].position.x.is_finite_number(),
        app.bubbles@[i].position.y.is_finite_number(),
        app.bubbles@[i].received_at <= now,
    ensures
        app.bubbles@[i].fresh(now) <==> now - app.bubbles@[i].received_at < 5_000_000_000,
        ({
            let b = app.bubbles@[i];
            let m = bubble_mark(page, b, now);
            let p = page.spot(b.position);
            &&& holds_mark(scene(app, page, now, order), m)
            &&& m.text == "[ "@ + b.text@ + " ]"@
            &&& m.style == in_color(
                if now - b.received_at < 3_500_000_000 {
                    Color::White
                } else {
                    Color::DarkGray
                },
            )
            &&& m.x == p.0
            &&& m.y.is_finite_number()
            &&& same_up_to_rounding(
                m.y.exact(),
                p.1.exact() + 3 * pow2(1074),
                p.1.exact() + 3 * pow2(1074),
            )
        }),
{
    let b = app.bubbles@[i];
    let m = bubble_mark(page, b, now);
    let list = bubble_marks(page, app.bubbles@, now);
    assert(list[i] == m);
    assert(holds_mark(list, m));
    lemma_held_by_scene(app, page, now, order, m);
    lemma_where_positions_appear(page, b.position);
    lemma2_to64();
    lemma2_to64_rest();
    let three = F32 { bits: BUBBLE_OFFSET };
    let f = Format::Single;
    lemma_pow2_adds(23, 127);
    lemma_pow2_adds(22, 127);
    assert(BUBBLE_OFFSET as nat % 0x80_0000 == 0x40_0000 && BUBBLE_OFFSET as nat / 0x80_0000 == 128);
    assert(magnitude(f, BUBBLE_OFFSET as nat) == (0x40_0000 + 0x80_0000) * pow2(127));
    lemma_same_in_double(three);
    lemma_pow2_adds(149, 925);
    assert(three.exact() == 3 * pow2(149));
    assert((3 * pow2(149)) * pow2(925) == 3 * pow2(1074)) by (nonlinear_arith)
        requires
            pow2(1074) == pow2(149) * pow2(925),
    ;
    lemma_pow2_adds(2, 1074);
    lemma_pow2_pos(1074);
    lemma_pow2_strictly_increases(1076, 1600);
    lemma_pow2_strictly_increases(1300, 1600);
    lemma_doubles_near(page.spot(b.position).1, three.to_f64_number());
}

} // verus!
