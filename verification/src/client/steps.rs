//! Where the keys lead, in exact numbers.

use vstd::arithmetic::power2::{lemma2_to64, lemma2_to64_rest, lemma_pow2_adds, lemma_pow2_pos, pow2};
use vstd::prelude::*;

use crate::axis::{lemma_brought_onto_axis, lemma_one};
use crate::float::exact::{apart, lemma_on_some_tile, lies_on, size};
use crate::float::laws::{lemma_order_of_values, lemma_zero};
use crate::float::model::Format;
use crate::float::F32;
use crate::protocol::GameEvent;
use crate::tiles::Tile;

use super::app::{App, Direction, CURSOR_STEP};
use super::input::{key_handled, step_of, KeyCode, KeyEvent, Reply};
use super::sailing::{afloat, lemma_steps_need_water};

verus! {

/// The keys steer the boat: each arrow moves it by one tile in its direction, up to rounding,
/// unless the map ends there; the boat stays in line, heads where it sails, and the server is told
/// where it is. Where it is not told anything, the boat has not moved.
pub proof fn lemma_keys_steer(before: App, key: KeyEvent, now: u64, after: App, reply: Reply, id: u64)
    requires
        key.press,
        !before.show_map_overview,
        before.my_id == Some(id),
        before.world_info matches Some(wi) && 1 <= wi.tile_width < 0x100_0000 && 1 <= wi.tile_height
            < 0x100_0000,
        before.cursor.x.is_finite_number(),
        before.cursor.y.is_finite_number(),
        0 <= before.cursor.x.exact() <= (before.world_info->0.tile_width - 1) * pow2(149),
        0 <= before.cursor.y.exact() <= (before.world_info->0.tile_height - 1) * pow2(149),
        key_handled(before, key, now, after, reply),
        key.code is Up || key.code is Down || key.code is Left || key.code is Right,
    ensures
        reply.send is None ==> after == before,
        reply.send is Some ==> ({
            let one = pow2(149) as int;
            let (x, y) = (before.cursor.x.exact(), before.cursor.y.exact());
            let right = (before.world_info->0.tile_width - 1) * one;
            let bottom = (before.world_info->0.tile_height - 1) * one;
            let (dx, dy): (int, int) = match key.code {
                KeyCode::Up => (0, -one),
                KeyCode::Down => (0, one),
                KeyCode::Left => (-one, 0),
                _ => (one, 0),
            };
            let (ax, ay) = (after.cursor.x.exact(), after.cursor.y.exact());
            &&& dx == 0 ==> ax == x
            &&& dy == 0 ==> ay == y
            &&& x + dx <= 0 ==> ax == 0
            &&& x + dx >= right ==> ax == right
            &&& 0 <= x + dx <= right ==> 0x100_0000 * apart(ax, x + dx) <= x + dx
            &&& y + dy <= 0 ==> ay == 0
            &&& y + dy >= bottom ==> ay == bottom
            &&& 0 <= y + dy <= bottom ==> 0x100_0000 * apart(ay, y + dy) <= y + dy
            &&& after.last_dir == match key.code {
                KeyCode::Up => Direction::Up,
                KeyCode::Down => Direction::Down,
                KeyCode::Left => Direction::Left,
                _ => Direction::Right,
            }
            &&& reply == (Reply {
                quit: false,
                send: Some(GameEvent::MoveEvent { id, position: after.cursor }),
            })
        }),
{
    let f = Format::Single;
    let unit = pow2(149);
    let wi = before.world_info->0;
    let zero = F32 { bits: 0 };
    let one = F32 { bits: CURSOR_STEP };
    lemma2_to64();
    lemma2_to64_rest();
    lemma_zero(f);
    lemma_one();
    lemma_pow2_pos(149);
    lemma_order_of_values(f, zero.parts(), one.parts());
    lemma_order_of_values(f, one.parts(), zero.parts());
    lemma_order_of_values(f, zero.parts(), one.negative().parts());
    lemma_order_of_values(f, one.negative().parts(), zero.parts());
    lemma_pow2_adds(75, 149);
    lemma_pow2_adds(64, 11);
    assert(0x200_0000 * unit < pow2(224)) by (nonlinear_arith)
        requires
            pow2(224) == pow2(75) * unit,
            pow2(75) == pow2(64) * pow2(11),
            pow2(64) == 0x1_0000_0000_0000_0000,
            pow2(11) == 2048,
            unit > 0,
    ;
    assert((wi.tile_width - 1) * unit <= 0x100_0000 * unit) by (nonlinear_arith)
        requires
            wi.tile_width < 0x100_0000,
    ;
    assert((wi.tile_height - 1) * unit <= 0x100_0000 * unit) by (nonlinear_arith)
        requires
            wi.tile_height < 0x100_0000,
    ;
    let x = before.cursor.x;
    let y = before.cursor.y;
    lemma_brought_onto_axis(x, zero, wi.tile_width);
    lemma_brought_onto_axis(x, one, wi.tile_width);
    lemma_brought_onto_axis(x, one.negative(), wi.tile_width);
    lemma_brought_onto_axis(y, zero, wi.tile_height);
    lemma_brought_onto_axis(y, one, wi.tile_height);
    lemma_brought_onto_axis(y, one.negative(), wi.tile_height);
}

/// A boat that lies on the map stays on it: it lies on one of its tiles after every step.
pub proof fn lemma_boats_stay_afloat(before: App, dx: F32, dy: F32, after: App)
    requires
        before.world_info matches Some(wi) && 1 <= wi.tile_width < 0x100_0000 && 1 <= wi.tile_height
            < 0x100_0000,
        before.cursor.x.is_finite_number(),
        before.cursor.y.is_finite_number(),
        dx.is_finite_number(),
        dy.is_finite_number(),
        size(before.cursor.x.exact() + dx.exact()) < pow2(224),
        size(before.cursor.y.exact() + dy.exact()) < pow2(224),
        before.sailed(after, dx, dy),
    ensures
        afloat(after),
        exists|col: int, row: int|
            #![trigger lies_on(after.cursor.x, col), lies_on(after.cursor.y, row)]
            0 <= col < before.world_info->0.tile_width && 0 <= row
                < before.world_info->0.tile_height && lies_on(after.cursor.x, col) && lies_on(
                after.cursor.y,
                row,
            ),
{
    let wi = before.world_info->0;
    lemma_brought_onto_axis(before.cursor.x, dx, wi.tile_width);
    lemma_brought_onto_axis(before.cursor.y, dy, wi.tile_height);
    let col = lemma_on_some_tile(after.cursor.x);
    let row = lemma_on_some_tile(after.cursor.y);
    let unit = pow2(149);
    assert(col <= wi.tile_width - 1) by (nonlinear_arith)
        requires
            col * unit <= (wi.tile_width - 1) * unit,
            unit > 0,
    ;
    assert(row <= wi.tile_height - 1) by (nonlinear_arith)
        requires
            row * unit <= (wi.tile_height - 1) * unit,
            unit > 0,
    ;
    assert(lies_on(after.cursor.x, col) && lies_on(after.cursor.y, row));
}

/// An arrow key is refused if and only if it leads onto a tile that is known to be land or coast:
/// then nothing changes and nobody is told.
pub proof fn lemma_keys_refuse_land(
    before: App,
    key: KeyEvent,
    now: u64,
    after: App,
    reply: Reply,
    id: u64,
    col: u32,
    row: u32,
)
    requires
        key.press,
        !before.show_map_overview,
        before.my_id == Some(id),
        key.code is Up || key.code is Down || key.code is Left || key.code is Right,
        key_handled(before, key, now, after, reply),
        ({
            let (dx, dy) = step_of(key.code)->0;
            let to = before.step_target(dx, dy);
            lies_on(to.x, col as int) && lies_on(to.y, row as int)
        }),
    ensures
        ({
            let solid = before.known_tile(col, row) == Some(Tile::Land) || before.known_tile(
                col,
                row,
            ) == Some(Tile::Coast);
            &&& solid ==> after == before && reply == (Reply { quit: false, send: None })
            &&& !solid ==> lies_on(after.cursor.x, col as int) && lies_on(
                after.cursor.y,
                row as int,
            ) && reply.send is Some
        }),
{
    let (dx, dy) = step_of(key.code)->0;
    lemma_steps_need_water(before, dx, dy, col, row);
}

} // verus!
