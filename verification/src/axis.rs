//! Coordinates along one axis of the map, in exact numbers.

use vstd::arithmetic::power2::{lemma2_to64, lemma2_to64_rest, lemma_pow2_adds, lemma_pow2_pos, pow2};
use vstd::prelude::*;

use crate::float::error::lemma_exact;
use crate::float::exact::{apart, lemma_lies_on, lemma_sum_near, lies_on, size};
use crate::float::laws::{
    lemma_magnitude_monotone, lemma_nearest_monotone, lemma_order_of_values, lemma_representable,
    lemma_zero,
};
use crate::float::model::{magnitude, nearest, Format};
use crate::float::order::lemma_nearest_zero;
use crate::float::F32;
use crate::protocol::Position;
use crate::tiles::{last_coordinate, tile_index, MapGrid, Tile, ONE};

verus! {

/// The number one is as many parts as there are in one.
pub proof fn lemma_one()
    ensures
        (F32 { bits: ONE }).is_finite_number(),
        (F32 { bits: ONE }).exact() == pow2(149),
        (F32 { bits: ONE }).negative().is_finite_number(),
        (F32 { bits: ONE }).negative().exact() == -pow2(149),
{
    lemma2_to64();
    lemma_pow2_adds(23, 126);
    assert(magnitude(Format::Single, ONE as nat) == pow2(23) * pow2(126));
}

/// The largest coordinate of an axis is the number of its last tile.
pub proof fn lemma_last_exact(n: u32)
    requires
        1 <= n < 0x100_0000,
    ensures
        last_coordinate(n).is_finite_number(),
        last_coordinate(n).exact() == (n - 1) * pow2(149),
{
    let f = Format::Single;
    let unit = pow2(149);
    lemma2_to64();
    lemma_one();
    lemma_zero(f);
    lemma_pow2_pos(149);
    lemma_exact(f, n as nat, 149);
    lemma_exact(f, (n - 1) as nat, 149);
    assert(n * unit - unit == (n - 1) * unit) by (nonlinear_arith);
    assert((n - 1) * unit >= 0) by (nonlinear_arith)
        requires
            n >= 1,
    ;
    assert(F32::of_nat(n as nat).exact() == n * unit);
}

/// What is added to a coordinate and brought onto an axis, in exact numbers: the sum, rounded, and
/// never beyond the first or the last tile.
pub proof fn lemma_brought_onto_axis(v: F32, step: F32, n: u32)
    requires
        1 <= n < 0x100_0000,
        v.is_finite_number(),
        step.is_finite_number(),
        size(v.exact() + step.exact()) < pow2(224),
    ensures
        ({
            let r = v.plus(step).clamped(F32 { bits: 0 }, last_coordinate(n));
            let exact = v.exact() + step.exact();
            let last = (n - 1) * pow2(149);
            &&& r.is_finite_number()
            &&& exact <= 0 ==> r.exact() == 0
            &&& exact >= last ==> r.exact() == last
            &&& 0 <= exact <= last ==> 0x100_0000 * apart(r.exact(), exact) <= exact
            &&& 0 <= r.exact() <= last
            &&& step.exact() == 0 && 0 <= exact <= last ==> r.exact() == exact
        }),
{
    let f = Format::Single;
    let unit = pow2(149);
    let exact = v.exact() + step.exact();
    let last = (n - 1) * unit;
    let s = v.plus(step);
    let zero = F32 { bits: 0 };
    let high = last_coordinate(n);
    lemma2_to64();
    lemma2_to64_rest();
    lemma_zero(f);
    lemma_last_exact(n);
    lemma_sum_near(f, v.parts(), step.parts(), 200);
    lemma_order_of_values(f, s.parts(), zero.parts());
    lemma_order_of_values(f, high.parts(), s.parts());
    lemma_order_of_values(f, high.parts(), zero.parts());
    assert(last >= 0) by (nonlinear_arith)
        requires
            last == (n - 1) * unit,
            n >= 1,
    ;
    lemma_exact(f, (n - 1) as nat, 149);
    lemma_nearest_zero(f, 1);
    if exact > 0 {
        let m = nearest(f, exact as nat, 1);
        let l = nearest(f, last as nat, 1);
        assert(s.parts().abs == m && !s.parts().neg);
        if exact >= last {
            lemma_nearest_monotone(f, last as nat, exact as nat, 1);
            if l < m {
                lemma_magnitude_monotone(f, l, m);
            }
            assert(s.exact() >= last);
        }
        if exact <= last {
            lemma_nearest_monotone(f, exact as nat, last as nat, 1);
            if m < l {
                lemma_magnitude_monotone(f, m, l);
            }
            assert(s.exact() <= last);
        }
        if step.exact() == 0 {
            lemma_representable(f, v.parts().abs as nat);
        }
    }
}

/// The index of a coordinate that lies on a tile of an axis is the number of the tile.
proof fn lemma_index_of_tile(v: F32, n: u32, col: int)
    requires
        1 <= n < 0x100_0000,
        0 <= col < n,
        lies_on(v, col),
    ensures
        tile_index(v, n) == col,
{
    let f = Format::Single;
    let unit = pow2(149);
    let zero = F32 { bits: 0 };
    let high = last_coordinate(n);
    lemma2_to64();
    lemma_zero(f);
    lemma_pow2_pos(149);
    lemma_last_exact(n);
    lemma_order_of_values(f, v.parts(), zero.parts());
    lemma_order_of_values(f, high.parts(), v.parts());
    assert(col * unit >= 0) by (nonlinear_arith)
        requires
            col >= 0,
    ;
    lemma_lies_on(v, col);
    if high.below(v) {
        assert(col == n - 1) by (nonlinear_arith)
            requires
                (n - 1) * unit < (col + 1) * unit,
                col < n,
                unit > 0,
        ;
        assert(col * unit < (col + 1) * unit) by (nonlinear_arith)
            requires
                unit > 0,
        ;
        lemma_lies_on(high, col);
    }
}

/// A boat may be at a place of the map if and only if the tile that it lies on is open water.
pub proof fn lemma_passable_is_water(map: MapGrid, pos: Position, col: int, row: int)
    requires
        1 <= map.width < 0x100_0000,
        1 <= map.height < 0x100_0000,
        0 <= col < map.width,
        0 <= row < map.height,
        lies_on(pos.x, col),
        lies_on(pos.y, row),
    ensures
        map.passable(pos) <==> map.tile(col, row) == Tile::Water,
        map.tile_under(pos) == map.tile(col, row),
{
    lemma_index_of_tile(pos.x, map.width, col);
    lemma_index_of_tile(pos.y, map.height, row);
}

} // verus!
