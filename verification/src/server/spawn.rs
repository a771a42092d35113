//! Where a new boat is put to water.

use vstd::arithmetic::power2::{lemma2_to64, lemma2_to64_rest, lemma_pow2_adds, lemma_pow2_pos, pow2};
use vstd::prelude::*;
use vstd::std_specs::hash::group_hash_axioms;

use crate::float::laws::{
    lemma_nearest_monotone, lemma_nearest_scaled, lemma_representable, lemma_twice,
};
use crate::float::model::{magnitude, nearest, Format};
use crate::float::F32;
use crate::listing::{list_keys, lists};
use crate::protocol::Position;
use crate::tiles::{last_coordinate, last_tile, MapGrid, Tile};

use super::handler::{BoatEntry, BoatMap};

verus! {

/// Minimum tile distance between any two spawned boats: five.
pub const MIN_SEPARATION: u32 = 0x40a0_0000;

/// Maximum placement attempts per search radius before doubling the radius.
pub const MAX_PLACEMENT_ATTEMPTS: usize = 1000;

/// World-tile coordinates of the default spawn anchor, near Sandhamn: 4590.
pub const SPAWN_ANCHOR_X: u32 = 0x458f_7000;

/// World-tile coordinates of the default spawn anchor, near Sandhamn: 2728.
pub const SPAWN_ANCHOR_Y: u32 = 0x452a_8000;

/// The first search radius: ten.
pub const FIRST_RADIUS: u32 = 0x4120_0000;

/// Encoding of the number two.
pub const TWO: u32 = 0x4000_0000;

/// How far from the spawn anchor a place is tried.
#[derive(Debug, Clone, Copy)]
pub struct Offset {
    pub x: F32,
    pub y: F32,
}

/// The search radius after `n` doublings.
pub open spec fn radius(n: nat) -> F32
    decreases n,
{
    if n == 0 {
        F32 { bits: FIRST_RADIUS }
    } else {
        radius((n - 1) as nat).times(F32 { bits: TWO })
    }
}

/// The largest search radius: half of the longer side of the map.
pub open spec fn max_radius(map: MapGrid) -> F32 {
    let side = if map.width >= map.height { map.width } else { map.height };
    F32::of_nat(side as nat).over(F32 { bits: TWO })
}

/// Whether `n` is the number of radii that are searched: the first one in any case, and its
/// doublings up to the largest.
pub open spec fn radius_count(map: MapGrid, n: nat) -> bool {
    &&& n >= 1
    &&& forall|i: nat| 1 <= i < n ==> (#[trigger] radius(i)).at_most(max_radius(map))
    &&& !radius(n).at_most(max_radius(map))
}

/// The place that an offset leads to, brought onto the map.
pub open spec fn candidate(map: MapGrid, offset: Offset) -> Position {
    Position {
        x: (F32 { bits: SPAWN_ANCHOR_X }).plus(offset.x).clamped(
            F32 { bits: 0 },
            last_coordinate(map.width),
        ),
        y: (F32 { bits: SPAWN_ANCHOR_Y }).plus(offset.y).clamped(
            F32 { bits: 0 },
            last_coordinate(map.height),
        ),
    }
}

/// Distance of two positions.
pub open spec fn distance(a: Position, b: Position) -> F32 {
    let dx = a.x.minus(b.x);
    let dy = a.y.minus(b.y);
    dx.times(dx).plus(dy.times(dy)).root()
}

/// Whether a place is nearer to a boat than boats are put to water.
pub open spec fn too_close(boat: Position, place: Position) -> bool {
    distance(boat, place).below(F32 { bits: MIN_SEPARATION })
}

/// Whether a place is too near to any of the boats.
pub open spec fn crowded(boats: Map<u64, BoatEntry>, place: Position) -> bool {
    exists|id: u64| #[trigger] boats.contains_key(id) && too_close(boats[id].position, place)
}

/// Whether a boat can be put to water at a place.
pub open spec fn is_free(boats: Map<u64, BoatEntry>, map: MapGrid, place: Position) -> bool {
    map.passable(place) && !crowded(boats, place)
}

/// The first free place that the offsets lead to.
pub open spec fn first_free(
    boats: Map<u64, BoatEntry>,
    map: MapGrid,
    draws: Seq<Offset>,
) -> Option<Position>
    decreases draws.len(),
{
    if draws.len() == 0 {
        None
    } else if is_free(boats, map, candidate(map, draws[0])) {
        Some(candidate(map, draws[0]))
    } else {
        first_free(boats, map, draws.drop_first())
    }
}

/// The encoding of a search radius.
pub proof fn lemma_radius_bits(n: nat)
    requires
        n <= 124,
    ensures
        radius(n).bits == FIRST_RADIUS + n * 0x80_0000,
    decreases n,
{
    if n > 0 {
        lemma_radius_bits((n - 1) as nat);
        let f = Format::Single;
        let r = radius((n - 1) as nat);
        let two = F32 { bits: TWO };
        let abs = r.bits as nat;
        lemma2_to64();
        lemma2_to64_rest();
        lemma_pow2_adds(23, 127);
        lemma_pow2_adds(1, 149);
        assert(magnitude(f, TWO as nat) == pow2(23) * pow2(127));
        lemma_twice(f, abs);
        lemma_representable(f, abs + 0x80_0000);
        lemma_pow2_pos(149);
        let m = magnitude(f, abs);
        assert(m * pow2(150) == (2 * m) * pow2(149)) by (nonlinear_arith)
            requires
                pow2(150) == 2 * pow2(149),
        ;
        lemma_nearest_scaled(f, 2 * m, 1, pow2(149));
        assert(1 * pow2(149) == pow2(149));
    }
}

/// The largest search radius is a finite number.
proof fn lemma_max_radius(map: MapGrid)
    ensures
        max_radius(map).bits <= 0x4f00_0000,
{
    let f = Format::Single;
    let side = if map.width >= map.height { map.width } else { map.height };
    let two = F32 { bits: TWO };
    lemma2_to64();
    lemma2_to64_rest();
    lemma_pow2_adds(23, 127);
    lemma_pow2_adds(23, 158);
    lemma_pow2_adds(23, 157);
    lemma_pow2_adds(32, 149);
    lemma_pow2_adds(180, 150);
    lemma_pow2_adds(181, 149);
    lemma_pow2_pos(149);
    lemma_pow2_pos(150);
    let g = pow2(149);
    let num = side as nat * g;
    assert(num <= 0x1_0000_0000 * g) by (nonlinear_arith)
        requires
            num == side as nat * g,
            side <= 0x1_0000_0000,
    ;
    assert(magnitude(f, TWO as nat) == pow2(150));
    assert(magnitude(f, 0x4f80_0000) == pow2(181));
    assert(magnitude(f, 0x4f00_0000) == pow2(180));
    lemma_nearest_monotone(f, num, pow2(181), 1);
    lemma_representable(f, 0x4f80_0000);
    let abs = nearest(f, num, 1);
    assert(abs <= 0x4f80_0000);
    let m = magnitude(f, abs);
    assert(m <= pow2(181)) by {
        if abs < 0x4f80_0000 {
            crate::float::laws::lemma_magnitude_monotone(f, abs, 0x4f80_0000);
        }
    }
    assert(m * g <= pow2(181) * g) by (nonlinear_arith)
        requires
            m <= pow2(181),
    ;
    lemma_nearest_monotone(f, m * g, pow2(181) * g, pow2(150));
    lemma_nearest_scaled(f, pow2(180), 1, pow2(150));
    lemma_representable(f, 0x4f00_0000);
    assert(1 * pow2(150) == pow2(150));
}

/// The radius of every placement attempt, in order: each search radius as often as it is tried.
/// There is no map on which nothing is tried.
///
/// An attempt draws its offsets from minus the radius up to the radius.
pub fn search_schedule(map: &MapGrid) -> (r: Vec<F32>)
    ensures
        r@.len() >= MAX_PLACEMENT_ATTEMPTS,
        exists|n: nat|
            {
                &&& #[trigger] radius_count(*map, n)
                &&& r@ == Seq::new(
                    n * MAX_PLACEMENT_ATTEMPTS as nat,
                    |i: int| radius((i / MAX_PLACEMENT_ATTEMPTS as int) as nat),
                )
            },
{
    let side: u32 = if map.width >= map.height { map.width } else { map.height };
    let two: F32 = F32 { bits: TWO };
    let max: F32 = F32::from_u64(side as u64).div(two);
    let mut current: F32 = F32 { bits: FIRST_RADIUS };
    let mut r: Vec<F32> = Vec::new();
    let mut n: u64 = 0;
    proof {
        lemma_max_radius(*map);
    }
    while n == 0 || current.le(max)
        invariant
            two == (F32 { bits: TWO }),
            max == max_radius(*map),
            max.bits <= 0x4f00_0000,
            n <= 28,
            current == radius(n as nat),
            current.bits == FIRST_RADIUS + n * 0x80_0000,
            r@.len() == n * 1000,
            forall|i: nat| 1 <= i < n ==> (#[trigger] radius(i)).at_most(max_radius(*map)),
            forall|i: int| 0 <= i < r@.len() ==> r@[i] == radius((i / 1000) as nat),
        decreases 28 - n,
    {
        let mut a: usize = 0;
        while a < MAX_PLACEMENT_ATTEMPTS
            invariant
                a <= MAX_PLACEMENT_ATTEMPTS,
                current == radius(n as nat),
                r@.len() == n * 1000 + a,
                forall|i: int| 0 <= i < r@.len() ==> r@[i] == radius((i / 1000) as nat),
            decreases MAX_PLACEMENT_ATTEMPTS - a,
        {
            r.push(current);
            a = a + 1;
        }
        proof {
            lemma_radius_bits((n + 1) as nat);
        }
        current = current.mul(two);
        n = n + 1;
    }
    proof {
        assert(radius_count(*map, n as nat));
        assert(r@ =~= Seq::new(
            n as nat * MAX_PLACEMENT_ATTEMPTS as nat,
            |i: int| radius((i / MAX_PLACEMENT_ATTEMPTS as int) as nat),
        ));
    }
    r
}

/// Whether a place is too near to any of the boats.
fn is_crowded(boats: &BoatMap, place: &Position) -> (r: bool)
    ensures
        r == crowded(boats@, *place),
{
    broadcast use group_hash_axioms;

    let ids: Vec<u64> = list_keys(boats);
    let mut i: usize = 0;
    while i < ids.len()
        invariant
            i <= ids.len(),
            lists(ids@, boats@.dom()),
            forall|j: int| 0 <= j < i ==> !too_close(boats@[#[trigger] ids@[j]].position, *place),
        decreases ids.len() - i,
    {
        assert(ids@.contains(ids@[i as int]));
        if let Some(entry) = boats.get(&ids[i]) {
            let dx: F32 = entry.position.x.sub(place.x);
            let dy: F32 = entry.position.y.sub(place.y);
            if dx.mul(dx).add(dy.mul(dy)).sqrt().lt(F32 { bits: MIN_SEPARATION }) {
                assert(boats@.contains_key(ids@[i as int]));
                return true;
            }
        }
        i = i + 1;
    }
    proof {
        assert forall|id: u64| #[trigger] boats@.contains_key(id) implies !too_close(
            boats@[id].position,
            *place,
        ) by {
            assert(ids@.contains(id));
        }
    }
    false
}

/// The first free water position that the drawn offsets lead to; none if there is none.
///
/// The offsets are drawn at random, one for each entry of the [`search_schedule`].
pub fn find_free_position(boats: &BoatMap, map: &MapGrid, draws: &Vec<Offset>) -> (r: Option<Position>)
    requires
        draws@.len() > 0 ==> map.width >= 1 && map.height >= 1,
    ensures
        r == first_free(boats@, *map, draws@),
{
    if draws.len() == 0 {
        return None;
    }
    let zero: F32 = F32 { bits: 0 };
    let last_x: F32 = last_tile(map.width);
    let last_y: F32 = last_tile(map.height);
    let mut i: usize = 0;
    assert(draws@.skip(0) =~= draws@);
    while i < draws.len()
        invariant
            i <= draws.len(),
            map.width >= 1,
            map.height >= 1,
            zero == (F32 { bits: 0 }),
            last_x == last_coordinate(map.width),
            last_y == last_coordinate(map.height),
            zero.at_most(last_x),
            zero.at_most(last_y),
            first_free(boats@, *map, draws@) == first_free(boats@, *map, draws@.skip(i as int)),
        decreases draws.len() - i,
    {
        let place: Position = Position {
            x: (F32 { bits: SPAWN_ANCHOR_X }).add(draws[i].x).clamp(zero, last_x),
            y: (F32 { bits: SPAWN_ANCHOR_Y }).add(draws[i].y).clamp(zero, last_y),
        };
        assert(draws@.skip(i as int)[0] == draws@[i as int]);
        assert(draws@.skip(i as int).drop_first() =~= draws@.skip(i + 1));
        if map.is_passable(&place) && !is_crowded(boats, &place) {
            return Some(place);
        }
        i = i + 1;
    }
    None
}

/// A boat is only put to water where boats may be, and nowhere near another boat.
pub proof fn lemma_spawn_is_free(boats: Map<u64, BoatEntry>, map: MapGrid, draws: Seq<Offset>)
    ensures
        first_free(boats, map, draws) matches Some(place) ==> {
            &&& map.passable(place)
            &&& forall|id: u64| #[trigger]
                boats.contains_key(id) ==> !distance(boats[id].position, place).below(
                    F32 { bits: MIN_SEPARATION },
                )
        },
    decreases draws.len(),
{
    if draws.len() > 0 {
        lemma_spawn_is_free(boats, map, draws.drop_first());
    }
}

/// On a sea without land and boats the first place that is tried is free.
pub proof fn lemma_empty_sea(boats: Map<u64, BoatEntry>, map: MapGrid, draws: Seq<Offset>)
    requires
        forall|id: u64| !boats.contains_key(id),
        forall|col: int, row: int| #[trigger] map.tile(col, row) == Tile::Water,
        draws.len() > 0,
    ensures
        first_free(boats, map, draws) == Some(candidate(map, draws[0])),
{
}

/// The world is full only if no place that was tried is free.
pub proof fn lemma_full_when_nothing_free(
    boats: Map<u64, BoatEntry>,
    map: MapGrid,
    draws: Seq<Offset>,
)
    ensures
        first_free(boats, map, draws) is None <==> forall|i: int|
            0 <= i < draws.len() ==> !is_free(boats, map, candidate(map, #[trigger] draws[i])),
    decreases draws.len(),
{
    if draws.len() > 0 {
        let rest = draws.drop_first();
        lemma_full_when_nothing_free(boats, map, rest);
        assert forall|i: int| 0 <= i < rest.len() implies rest[i] == draws[i + 1] by {}
        assert forall|i: int| 1 <= i < draws.len() implies draws[i] == #[trigger] rest[i - 1] by {}
        if first_free(boats, map, draws) is None {
            assert forall|i: int| 0 <= i < draws.len() implies !is_free(
                boats,
                map,
                candidate(map, #[trigger] draws[i]),
            ) by {
                if i > 0 {
                    assert(draws[i] == rest[i - 1]);
                }
            }
        } else if is_free(boats, map, candidate(map, draws[0])) {
        } else {
            let j = choose|j: int| 0 <= j < rest.len() && is_free(boats, map, candidate(map, #[trigger] rest[j]));
            assert(draws[j + 1] == rest[j]);
        }
    }
}

} // verus!
