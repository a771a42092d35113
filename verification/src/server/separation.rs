//! How far apart boats are put to water, in exact numbers.

use vstd::arithmetic::power2::{lemma2_to64, lemma2_to64_rest, lemma_pow2_adds, lemma_pow2_pos, pow2};
use vstd::prelude::*;

use crate::axis::lemma_brought_onto_axis;
use crate::float::error::{lemma_exact, lemma_off_by_half};
use crate::float::exact::{apart, lemma_product_near, lemma_sum_off, size};
use crate::float::laws::{
    lemma_magnitude_monotone, lemma_nearest_monotone, lemma_nearest_scaled, lemma_order_of_values,
    lemma_representable, lemma_zero,
};
use crate::float::model::{is_root, magnitude, nearest, root, Format};
use crate::float::ops::lemma_root;
use crate::float::F32;
use crate::protocol::Position;
use crate::tiles::MapGrid;

use super::handler::BoatEntry;
use super::spawn::{
    candidate, distance, first_free, is_free, max_radius, radius, too_close, Offset, MIN_SEPARATION,
    SPAWN_ANCHOR_X, SPAWN_ANCHOR_Y, TWO,
};

verus! {

/// The square of the distance of two positions, exactly.
pub open spec fn square_apart(a: Position, b: Position) -> int {
    let x = a.x.exact() - b.x.exact();
    let y = a.y.exact() - b.y.exact();
    x * x + y * y
}

/// Whether both coordinates of a position are finite.
pub open spec fn is_place(p: Position) -> bool {
    p.x.is_finite_number() && p.y.is_finite_number()
}

/// What a square is off by.
proof fn lemma_square_off(d: int, x: int, sq: int, unit: int, t: int)
    requires
        t == 0x100_0000,
        unit > 0,
        sq >= 0,
        t * apart(d, x) <= size(x),
        t * apart(sq * unit, d * d) <= size(d) * size(d) || 2 * apart(sq * unit, d * d) <= unit,
    ensures
        t * apart(sq * unit, x * x) <= 5 * (x * x) + t * unit,
{
    let a = size(x);
    let e = apart(d, x);
    assert(a * a == x * x) by (nonlinear_arith)
        requires
            a == x || a == -x,
    ;
    assert(size(d) * size(d) == d * d) by (nonlinear_arith)
        requires
            size(d) == d || size(d) == -d,
    ;
    assert(t * apart(d * d, x * x) <= 3 * (a * a)) by (nonlinear_arith)
        requires
            t * e <= a,
            e == d - x || e == x - d,
            e >= 0,
            a == x || a == -x,
            a >= 0,
            t >= 1,
            apart(d * d, x * x) == d * d - x * x || apart(d * d, x * x) == x * x - d * d,
    {
        let s = size(d + x);
        assert(e <= t * e);
        assert(s <= 3 * a);
        assert(d * d - x * x == (d - x) * (d + x));
        let p = apart(d * d, x * x);
        assert(p <= e * s) by {
            assert((d - x) * (d + x) <= e * s);
            assert(-((d - x) * (d + x)) <= e * s);
        }
        assert(t * p <= t * (e * s));
        assert(t * (e * s) == (t * e) * s);
        assert((t * e) * s <= a * s);
        assert(a * s <= a * (3 * a));
    }
}

/// What the sum of two squares is off by.
proof fn lemma_squares_off(sx: int, sy: int, s: int, x2: int, y2: int, unit: int, t: int)
    requires
        t == 0x100_0000,
        unit > 0,
        x2 >= 0,
        y2 >= 0,
        sx >= 0,
        sy >= 0,
        t * apart(sx * unit, x2) <= 5 * x2 + t * unit,
        t * apart(sy * unit, y2) <= 5 * y2 + t * unit,
        t * apart(s, sx + sy) <= sx + sy,
    ensures
        t * apart(s * unit, x2 + y2) <= 7 * (x2 + y2) + 3 * (t * unit),
{
    let both = sx + sy;
    assert(both * unit == sx * unit + sy * unit) by (nonlinear_arith)
        requires
            both == sx + sy,
    ;
    let e = apart(s, both);
    assert(t * apart(s * unit, both * unit) <= both * unit) by (nonlinear_arith)
        requires
            t * e <= both,
            e == s - both || e == both - s,
            apart(s * unit, both * unit) == s * unit - both * unit || apart(s * unit, both * unit)
                == both * unit - s * unit,
            e >= 0,
            unit > 0,
    {
        assert(e * unit == s * unit - both * unit || e * unit == both * unit - s * unit);
        assert(e * unit >= 0);
        assert((t * e) * unit <= both * unit);
        assert(t * (e * unit) == (t * e) * unit);
    }
}

/// Which numbers have a root below five.
proof fn lemma_root_below_five(s: F32)
    requires
        s.is_finite_number(),
        !s.parts().neg,
    ensures
        s.root().below(F32 { bits: MIN_SEPARATION }) ==> s.exact() < 25 * pow2(149),
        !s.root().below(F32 { bits: MIN_SEPARATION }) ==> s.exact() >= 25 * pow2(149) - 10 * pow2(127),
{
    let f = Format::Single;
    let unit = pow2(149);
    let five = F32 { bits: MIN_SEPARATION };
    lemma2_to64();
    lemma2_to64_rest();
    lemma_zero(f);
    lemma_pow2_pos(127);
    lemma_pow2_pos(149);
    lemma_pow2_adds(1, 127);
    lemma_pow2_adds(21, 128);
    lemma_pow2_adds(22, 127);
    lemma_pow2_adds(3, 149);
    let h = pow2(127);
    assert(unit == 0x40_0000 * h);
    assert(magnitude(f, MIN_SEPARATION as nat) == 5 * unit) by {
        assert(MIN_SEPARATION as nat % 0x80_0000 == 0x20_0000);
        assert(MIN_SEPARATION as nat / 0x80_0000 == 129);
        assert(pow2(f.fraction()) == 0x80_0000);
        assert(unit == 0x20_0000 * pow2(128));
        assert(magnitude(f, MIN_SEPARATION as nat) == (0x20_0000 + 0x80_0000) * pow2(128));
    }
    if s.parts().abs > 0 {
        lemma_magnitude_monotone(f, 0, s.parts().abs as nat);
        let m = s.exact();
        let n = (m * unit) as nat;
        lemma_root(n);
        let rt = root(n);
        assert(is_root(n, rt));
        let num = 2 * rt + (if rt * rt == n {
            0nat
        } else {
            1nat
        });
        let r = nearest(f, num, 2);
        lemma_representable(f, MIN_SEPARATION as nat);
        lemma_nearest_scaled(f, 5 * unit, 1, 2);
        if m >= 25 * unit {
            assert(rt >= 5 * unit) by (nonlinear_arith)
                requires
                    m * unit < (rt + 1) * (rt + 1),
                    m >= 25 * unit,
                    unit > 0,
                    rt >= 0,
            {
                if rt + 1 <= 5 * unit {
                    assert((rt + 1) * (rt + 1) <= (5 * unit) * (5 * unit));
                    assert(m * unit >= (25 * unit) * unit);
                }
            }
            lemma_nearest_monotone(f, 10 * unit, num, 2);
            assert(r >= MIN_SEPARATION);
        }
        if m < 25 * unit - 10 * h {
            assert(rt < 5 * unit - h) by (nonlinear_arith)
                requires
                    rt * rt <= m * unit,
                    m < 25 * unit - 10 * h,
                    unit == 0x40_0000 * h,
                    h > 0,
                    rt >= 0,
            {
                if rt >= 5 * unit - h {
                    assert(rt * rt >= (5 * unit - h) * (5 * unit - h));
                    assert((5 * unit - h) * (5 * unit - h) == 25 * (unit * unit) - 10 * (unit * h)
                        + h * h);
                    assert(m * unit < (25 * unit - 10 * h) * unit);
                    assert((25 * unit - 10 * h) * unit == 25 * (unit * unit) - 10 * (unit * h));
                    assert(h * h > 0);
                }
            }
            assert(num < 2 * pow2(152));
            lemma_off_by_half(f, num, 2, 128);
            assert(magnitude(f, r) < 5 * unit);
            if r > MIN_SEPARATION {
                lemma_magnitude_monotone(f, MIN_SEPARATION as nat, r);
            }
            assert(r < MIN_SEPARATION);
        }
    }
}

/// What is left of a difference: it is infinite only if the exact one is far above five, and off by
/// a small part otherwise.
proof fn lemma_leg(a: F32, b: F32)
    requires
        a.is_finite_number(),
        b.is_finite_number(),
    ensures
        ({
            let d = a.minus(b);
            let x = a.exact() - b.exact();
            let sq = d.times(d);
            &&& !d.is_nan_number()
            &&& !sq.is_nan_number() && !sq.parts().neg
            &&& sq.is_finite_number() ==> {
                0x100_0000 * apart(sq.exact() * pow2(149), x * x) <= 5 * (x * x) + 0x100_0000
                    * pow2(149)
            }
            &&& size(x) <= 8 * pow2(149) ==> sq.is_finite_number()
        }),
{
    let f = Format::Single;
    let unit = pow2(149);
    let d = a.minus(b);
    let x = a.exact() - b.exact();
    let sq = d.times(d);
    lemma2_to64();
    lemma2_to64_rest();
    lemma_zero(f);
    lemma_pow2_pos(149);
    lemma_pow2_adds(3, 149);
    lemma_pow2_adds(4, 149);
    lemma_pow2_adds(75, 149);
    crate::float::order::lemma_nearest_zero(f, unit);
    assert(b.negative().exact() == -b.exact());
    if size(x) <= 8 * unit {
        vstd::arithmetic::power2::lemma_pow2_strictly_increases(152, 224);
        crate::float::exact::lemma_sum_near(f, a.parts(), b.negative().parts(), 200);
        assert(d.is_finite_number());
        assert(size(d.exact()) <= 16 * unit);
        let m = d.parts().magnitude(f);
        assert(m * m <= 256 * (unit * unit)) by (nonlinear_arith)
            requires
                0 <= m <= 16 * unit,
        ;
        lemma_pow2_adds(8, 149);
        vstd::arithmetic::power2::lemma_pow2_strictly_increases(157, 224);
        assert(m * m < unit * pow2(224)) by (nonlinear_arith)
            requires
                m * m <= 256 * (unit * unit),
                256 * unit < pow2(224),
                unit > 0,
        ;
        lemma_off_by_half(f, m * m, unit, 200);
    }
    if sq.is_finite_number() {
        assert(d.is_finite_number());
        lemma_sum_off(f, a.parts(), b.negative().parts());
        lemma_product_near(f, d.parts(), d.parts());
        assert(sq.exact() >= 0);
        lemma_square_off(d.exact(), x, sq.exact(), unit as int, 0x100_0000);
    }
}

/// What the sum of the squares of two legs is: infinite, or off by a small part.
proof fn lemma_squared(a: Position, b: Position) -> (s: F32)
    requires
        is_place(a),
        is_place(b),
    ensures
        distance(a, b) == s.root(),
        !s.is_nan_number(),
        !s.parts().neg,
        s.is_finite_number() ==> 0x100_0000 * apart(s.exact() * pow2(149), square_apart(a, b)) <= 7
            * square_apart(a, b) + 3 * (0x100_0000 * pow2(149)),
        square_apart(a, b) <= 64 * (pow2(149) * pow2(149)) ==> s.is_finite_number(),
{
    let f = Format::Single;
    let unit = pow2(149);
    lemma2_to64();
    lemma2_to64_rest();
    lemma_zero(f);
    lemma_pow2_pos(149);
    crate::float::order::lemma_nearest_zero(f, 1);
    lemma_leg(a.x, b.x);
    lemma_leg(a.y, b.y);
    let x = a.x.exact() - b.x.exact();
    let y = a.y.exact() - b.y.exact();
    let (dx, dy) = (a.x.minus(b.x), a.y.minus(b.y));
    let (sx, sy) = (dx.times(dx), dy.times(dy));
    let s = sx.plus(sy);
    assert(x * x >= 0) by (nonlinear_arith);
    assert(y * y >= 0) by (nonlinear_arith);
    if square_apart(a, b) <= 64 * (unit * unit) {
        lemma_short_leg(x, unit as int);
        lemma_short_leg(y, unit as int);
        let q = x * x + y * y;
        let both = sx.exact() + sy.exact();
        assert(both <= 1024 * unit) by (nonlinear_arith)
            requires
                0x100_0000 * apart(sx.exact() * unit, x * x) <= 5 * (x * x) + 0x100_0000 * unit,
                0x100_0000 * apart(sy.exact() * unit, y * y) <= 5 * (y * y) + 0x100_0000 * unit,
                sx.exact() * unit - x * x <= apart(sx.exact() * unit, x * x),
                sy.exact() * unit - y * y <= apart(sy.exact() * unit, y * y),
                x * x + y * y <= 64 * (unit * unit),
                x * x >= 0,
                y * y >= 0,
                both == sx.exact() + sy.exact(),
                unit > 0,
        {
            assert(both * unit == sx.exact() * unit + sy.exact() * unit);
            assert(unit <= unit * unit);
            assert(both * unit <= 512 * (unit * unit) + 2 * unit);
            if both > 1024 * unit {
                assert(both * unit > (1024 * unit) * unit);
                assert((1024 * unit) * unit == 1024 * (unit * unit));
            }
        }
        lemma_pow2_adds(10, 149);
        vstd::arithmetic::power2::lemma_pow2_strictly_increases(159, 224);
        crate::float::exact::lemma_sum_near(f, sx.parts(), sy.parts(), 200);
    }
    if s.is_finite_number() {
        lemma_sum_off(f, sx.parts(), sy.parts());
        lemma_squares_off(
            sx.exact(),
            sy.exact(),
            s.exact(),
            x * x,
            y * y,
            unit as int,
            0x100_0000,
        );
    }
    s
}

/// A leg is no longer than the way.
proof fn lemma_short_leg(x: int, unit: int)
    requires
        x * x <= 64 * (unit * unit),
        unit > 0,
    ensures
        size(x) <= 8 * unit,
{
    let a = size(x);
    assert(a <= 8 * unit) by (nonlinear_arith)
        requires
            x * x <= 64 * (unit * unit),
            a == x || a == -x,
            unit > 0,
    {
        if a > 8 * unit {
            assert(a * a > (8 * unit) * (8 * unit));
        }
    }
}

/// What is off by so little is off by less than one part in a million.
proof fn lemma_within_a_millionth(q: int, e: int, off: int, u2: int, unit: int, hu: int)
    requires
        q >= 0,
        0x4000_0000 * unit <= u2,
        0x40_0000 * hu == u2,
        unit > 0,
        0x100_0000 * off <= 7 * q + 3 * (0x100_0000 * unit),
        q - e <= off,
        e - q <= off,
    ensures
        e < 25 * u2 ==> 0x10_0000 * q <= 0x10_0001 * (25 * u2),
        e >= 25 * u2 - 10 * hu ==> 0x10_0000 * q >= 0xf_ffff * (25 * u2),
{
    assert(3 * (0x100_0000 * unit) <= u2);
}

/// Places are too close if their distance is less than five tiles, and only then: exact up to one
/// part in a million of the square of the distance.
pub proof fn lemma_too_close_is_nearer_than_five(boat: Position, place: Position)
    requires
        is_place(boat),
        is_place(place),
    ensures
        ({
            let q = square_apart(boat, place);
            let least = 25 * (pow2(149) * pow2(149));
            &&& too_close(boat, place) ==> 0x10_0000 * q <= (0x10_0000 + 1) * least
            &&& !too_close(boat, place) ==> 0x10_0000 * q >= (0x10_0000 - 1) * least
        }),
{
    let q = square_apart(boat, place);
    let unit = pow2(149) as int;
    lemma2_to64();
    lemma_pow2_pos(149);
    lemma_pow2_adds(22, 127);
    let h = pow2(127) as int;
    let s = lemma_squared(boat, place);
    let u2 = unit * unit;
    assert(pow2(149) * pow2(149) == u2);
    assert(q >= 0) by {
        let x = boat.x.exact() - place.x.exact();
        let y = boat.y.exact() - place.y.exact();
        assert(x * x >= 0) by (nonlinear_arith);
        assert(y * y >= 0) by (nonlinear_arith);
    }
    lemma_pow2_adds(30, 119);
    lemma_pow2_pos(119);
    assert(0x4000_0000 * unit <= u2) by (nonlinear_arith)
        requires
            u2 == unit * unit,
            unit >= 0x4000_0000,
    ;
    assert(h * unit * 0x40_0000 == u2) by (nonlinear_arith)
        requires
            u2 == unit * unit,
            unit == 0x40_0000 * h,
    ;
    if s.is_finite_number() {
        lemma_root_below_five(s);
        let e = s.exact() * unit;
        assert(s.exact() < 25 * unit ==> e < 25 * u2) by (nonlinear_arith)
            requires
                e == s.exact() * unit,
                u2 == unit * unit,
                unit > 0,
        ;
        assert(s.exact() >= 25 * unit - 10 * h ==> e >= 25 * u2 - 10 * (h * unit)) by (nonlinear_arith)
            requires
                e == s.exact() * unit,
                u2 == unit * unit,
                unit > 0,
        ;
        let hu = h * unit;
        assert(0x40_0000 * hu == u2);
        let off = apart(e, q);
        assert(0x100_0000 * off <= 7 * q + 3 * (0x100_0000 * unit));
        assert(q - e <= off && e - q <= off);
        lemma_within_a_millionth(q, e, off, u2, unit, hu);
    } else {
        assert(!too_close(boat, place));
        assert(q > 64 * u2);
    }
}

/// A new boat is put to water on a passable tile, five tiles or more from every other boat: exact up
/// to one part in a million of the square of the distance.
pub proof fn lemma_new_boats_keep_their_distance(
    boats: Map<u64, BoatEntry>,
    map: MapGrid,
    draws: Seq<Offset>,
    id: u64,
)
    requires
        first_free(boats, map, draws) is Some,
        boats.contains_key(id),
        is_place(boats[id].position),
        is_place(first_free(boats, map, draws)->0),
    ensures
        map.passable(first_free(boats, map, draws)->0),
        0x10_0000 * square_apart(boats[id].position, first_free(boats, map, draws)->0) >= 0xf_ffff
            * (25 * (pow2(149) * pow2(149))),
    decreases draws.len(),
{
    if is_free(boats, map, candidate(map, draws[0])) {
        lemma_too_close_is_nearer_than_five(boats[id].position, candidate(map, draws[0]));
    } else {
        lemma_new_boats_keep_their_distance(boats, map, draws.drop_first(), id);
    }
}

/// No place is passed over for nothing: where a place that was tried is passable and farther than
/// five tiles from every boat, the new boat is put to water there or at a place that was tried
/// before.
pub proof fn lemma_free_places_are_taken(
    boats: Map<u64, BoatEntry>,
    map: MapGrid,
    draws: Seq<Offset>,
    i: int,
)
    requires
        0 <= i < draws.len(),
        map.passable(candidate(map, draws[i])),
        is_place(candidate(map, draws[i])),
        forall|id: u64| #[trigger]
            boats.contains_key(id) ==> is_place(boats[id].position) && 0x10_0000 * square_apart(
                boats[id].position,
                candidate(map, draws[i]),
            ) > 0x10_0001 * (25 * (pow2(149) * pow2(149))),
    ensures
        exists|k: int|
            0 <= k <= i && first_free(boats, map, draws) == Some(
                candidate(map, #[trigger] draws[k]),
            ),
    decreases draws.len(),
{
    let place = candidate(map, draws[i]);
    assert forall|id: u64| #[trigger] boats.contains_key(id) implies !too_close(
        boats[id].position,
        place,
    ) by {
        lemma_too_close_is_nearer_than_five(boats[id].position, place);
    }
    assert(is_free(boats, map, place));
    if is_free(boats, map, candidate(map, draws[0])) {
        assert(first_free(boats, map, draws) == Some(candidate(map, draws[0])));
    } else {
        let rest = draws.drop_first();
        assert(rest[i - 1] == draws[i]);
        lemma_free_places_are_taken(boats, map, rest, i - 1);
        let k = choose|k: int|
            0 <= k <= i - 1 && first_free(boats, map, rest) == Some(
                candidate(map, #[trigger] rest[k]),
            );
        assert(draws[k + 1] == rest[k]);
    }
}

/// Where the search starts: at the tile 4590 from the west and 2728 from the north.
proof fn lemma_anchor()
    ensures
        (F32 { bits: SPAWN_ANCHOR_X }).is_finite_number(),
        (F32 { bits: SPAWN_ANCHOR_X }).exact() == 4590 * pow2(149),
        (F32 { bits: SPAWN_ANCHOR_Y }).is_finite_number(),
        (F32 { bits: SPAWN_ANCHOR_Y }).exact() == 2728 * pow2(149),
{
    let f = Format::Single;
    lemma2_to64();
    lemma_pow2_adds(11, 138);
    lemma_pow2_adds(12, 137);
    assert(SPAWN_ANCHOR_X as nat % 0x80_0000 == 0xf_7000 && SPAWN_ANCHOR_X as nat / 0x80_0000
        == 139);
    assert(magnitude(f, SPAWN_ANCHOR_X as nat) == (0xf_7000 + 0x80_0000) * pow2(138));
    assert(SPAWN_ANCHOR_Y as nat % 0x80_0000 == 0x2a_8000 && SPAWN_ANCHOR_Y as nat / 0x80_0000
        == 138);
    assert(magnitude(f, SPAWN_ANCHOR_Y as nat) == (0x2a_8000 + 0x80_0000) * pow2(137));
}

/// A place that is tried lies by the drawn offset from the tile 4590 from the west and 2728 from the
/// north, up to rounding, and never beyond the map.
pub proof fn lemma_places_lie_around_sandhamn(map: MapGrid, offset: Offset)
    requires
        1 <= map.width < 0x100_0000,
        1 <= map.height < 0x100_0000,
        offset.x.is_finite_number(),
        offset.y.is_finite_number(),
        size(offset.x.exact()) <= 0x100_0000 * pow2(149),
        size(offset.y.exact()) <= 0x100_0000 * pow2(149),
    ensures
        ({
            let p = candidate(map, offset);
            let x = 4590 * pow2(149) + offset.x.exact();
            let y = 2728 * pow2(149) + offset.y.exact();
            let right = (map.width - 1) * pow2(149);
            let bottom = (map.height - 1) * pow2(149);
            &&& is_place(p)
            &&& 0 <= p.x.exact() <= right
            &&& 0 <= p.y.exact() <= bottom
            &&& x <= 0 ==> p.x.exact() == 0
            &&& x >= right ==> p.x.exact() == right
            &&& 0 <= x <= right ==> 0x100_0000 * apart(p.x.exact(), x) <= x
            &&& y <= 0 ==> p.y.exact() == 0
            &&& y >= bottom ==> p.y.exact() == bottom
            &&& 0 <= y <= bottom ==> 0x100_0000 * apart(p.y.exact(), y) <= y
        }),
{
    let unit = pow2(149);
    lemma2_to64();
    lemma2_to64_rest();
    lemma_anchor();
    lemma_pow2_pos(149);
    lemma_pow2_adds(25, 149);
    vstd::arithmetic::power2::lemma_pow2_strictly_increases(174, 224);
    lemma_brought_onto_axis(F32 { bits: SPAWN_ANCHOR_X }, offset.x, map.width);
    lemma_brought_onto_axis(F32 { bits: SPAWN_ANCHOR_Y }, offset.y, map.height);
}

/// The search widens from ten tiles, to twice as far each time.
pub proof fn lemma_search_widens(n: nat)
    requires
        n <= 28,
    ensures
        radius(n).is_finite_number(),
        radius(n).exact() == 10 * pow2(n) * pow2(149),
    decreases n,
{
    let f = Format::Single;
    lemma2_to64();
    lemma_pow2_adds(3, 149);
    lemma_pow2_adds(22, 130);
    lemma_pow2_adds(20, 129);
    if n == 0 {
        let b = 0x4120_0000nat;
        assert(b % 0x80_0000 == 0x20_0000 && b / 0x80_0000 == 130);
        assert(magnitude(f, b) == (0x20_0000 + 0x80_0000) * pow2(129));
        assert(10 * pow2(0) * pow2(149) == 10 * pow2(149)) by (nonlinear_arith)
            requires
                pow2(0) == 1,
        ;
    } else {
        lemma_search_widens((n - 1) as nat);
        lemma_pow2_adds(1, (n - 1) as nat);
        super::spawn::lemma_radius_bits(n);
        super::spawn::lemma_radius_bits((n - 1) as nat);
        let abs = radius((n - 1) as nat).bits as nat;
        crate::float::laws::lemma_twice(f, abs);
        assert(radius(n).bits == abs + 0x80_0000);
        assert(radius(n).exact() == 2 * radius((n - 1) as nat).exact());
        assert(10 * pow2(n) * pow2(149) == 2 * (10 * pow2((n - 1) as nat) * pow2(149)))
            by (nonlinear_arith)
            requires
                pow2(n) == 2 * pow2((n - 1) as nat),
        ;
    }
}

/// A radius is searched if the circle fits into the longer side of the map.
pub proof fn lemma_largest_search(map: MapGrid, n: nat)
    requires
        map.width < 0x100_0000,
        map.height < 0x100_0000,
        n <= 28,
    ensures
        radius(n).at_most(max_radius(map)) <==> 20 * pow2(n) <= map.width || 20 * pow2(n)
            <= map.height,
{
    let f = Format::Single;
    let side = if map.width >= map.height {
        map.width
    } else {
        map.height
    };
    let unit = pow2(149);
    let half = pow2(148);
    lemma2_to64();
    lemma_zero(f);
    lemma_pow2_pos(148);
    lemma_pow2_pos(149);
    lemma_pow2_adds(1, 148);
    lemma_pow2_adds(1, 149);
    lemma_pow2_adds(23, 127);
    lemma_search_widens(n);
    lemma_exact(f, side as nat, 149);
    lemma_exact(f, side as nat, 148);
    let b = TWO as nat;
    assert(b % 0x80_0000 == 0 && b / 0x80_0000 == 128);
    assert(magnitude(f, b) == 0x80_0000 * pow2(127));
    assert(magnitude(f, b) == 2 * unit);
    assert((side * unit) * unit == (side * half) * (2 * unit)) by (nonlinear_arith)
        requires
            unit == 2 * half,
    ;
    assert(1 * (2 * unit) == 2 * unit);
    lemma_nearest_scaled(f, side as nat * half, 1, 2 * unit);
    assert(max_radius(map).is_finite_number() && max_radius(map).exact() == side * half);
    lemma_order_of_values(f, radius(n).parts(), max_radius(map).parts());
    let t = 20 * pow2(n);
    assert(radius(n).exact() == t * half) by (nonlinear_arith)
        requires
            radius(n).exact() == 10 * pow2(n) * unit,
            unit == 2 * half,
            t == 20 * pow2(n),
    ;
    assert(t * half <= side * half <==> t <= side) by (nonlinear_arith)
        requires
            half > 0,
    ;
}

} // verus!
