//! The rasterized world map.

use vstd::arithmetic::div_mod::lemma_fundamental_div_mod_converse;
use vstd::arithmetic::power2::{lemma2_to64, lemma2_to64_rest, lemma_pow2_adds, pow2};
use vstd::prelude::*;

use crate::float::laws::{
    lemma_magnitude_monotone, lemma_nearest_monotone, lemma_representable,
};
use crate::float::model::{magnitude, nearest, Format};
use crate::float::F32;
use crate::protocol::Position;

verus! {

/// Tile type for every cell in the map grid.
#[derive(Debug, Clone, Copy, PartialEq, Eq, Structural)]
pub enum Tile {
    /// Open water, passable by boats.
    Water,
    /// Coastline or shallow water next to land. Not passable.
    Coast,
    /// Solid land, not passable.
    Land,
}

impl Tile {
    /// Code of the tile on the wire.
    pub open spec fn code(self) -> u8 {
        match self {
            Tile::Water => 0,
            Tile::Coast => 1,
            Tile::Land => 2,
        }
    }

    /// Code of the tile on the wire.
    pub fn to_byte(self) -> (r: u8)
        ensures
            r == self.code(),
    {
        match self {
            Tile::Water => 0,
            Tile::Coast => 1,
            Tile::Land => 2,
        }
    }

    /// The tile that a code stands for.
    pub fn from_byte(code: u8) -> (r: Option<Tile>)
        ensures
            r matches Some(t) ==> t.code() == code,
            r is None <==> code > 2,
    {
        match code {
            0 => Some(Tile::Water),
            1 => Some(Tile::Coast),
            2 => Some(Tile::Land),
            _ => None,
        }
    }
}

/// Codes tell the tiles apart.
pub proof fn lemma_codes_differ(a: Tile, b: Tile)
    ensures
        a.code() == b.code() <==> a == b,
{
}

/// Encoding of the number one.
pub const ONE: u32 = 0x3f80_0000;

/// The rasterized world map.
///
/// The grid is stored row by row, the northernmost row first (`grid[y][x]`). Everything outside
/// of it is [`Tile::Water`].
#[derive(Debug)]
pub struct MapGrid {
    /// Tiles: `grid[row][col]`.
    pub grid: Vec<Vec<Tile>>,
    pub width: u32,
    pub height: u32,
    pub chunk_size: u32,
}

/// The largest coordinate of an axis with `n` tiles.
pub open spec fn last_coordinate(n: u32) -> F32 {
    F32::of_nat(n as nat).minus(F32 { bits: ONE })
}

/// The index of the tile that a coordinate lies on, on an axis with `n` tiles.
pub open spec fn tile_index(v: F32, n: u32) -> nat {
    v.clamped(F32 { bits: 0 }, last_coordinate(n)).trunc(u32::MAX as nat)
}

/// The largest coordinate of an axis with `n` tiles.
pub fn last_tile(n: u32) -> (r: F32)
    requires
        n >= 1,
    ensures
        r == last_coordinate(n),
        (F32 { bits: 0 }).at_most(r),
{
    proof {
        lemma_last_coordinate(n);
    }
    F32::from_u64(n as u64).sub(F32 { bits: ONE })
}

/// Where there are tiles at all, the largest coordinate is not negative.
pub proof fn lemma_last_coordinate(n: u32)
    requires
        n >= 1,
    ensures
        (F32 { bits: 0 }).at_most(last_coordinate(n)),
{
    let f = Format::Single;
    let g = pow2(149);
    lemma2_to64();
    lemma2_to64_rest();
    lemma_pow2_adds(23, 126);
    lemma_pow2_adds(23, 158);
    lemma_pow2_adds(32, 149);
    // One, and two to the power of 32.
    assert(magnitude(f, ONE as nat) == pow2(23) * pow2(126));
    assert(magnitude(f, 0x4f80_0000) == pow2(23) * pow2(158));
    assert(pow2(23) * pow2(158) == pow2(32) * pow2(149));
    let num = n as nat * g;
    assert(g <= num <= 0x1_0000_0000 * g) by (nonlinear_arith)
        requires
            num == n as nat * g,
            1 <= n <= 0x1_0000_0000,
    ;
    lemma_representable(f, ONE as nat);
    lemma_representable(f, 0x4f80_0000);
    lemma_nearest_monotone(f, g, num, 1);
    lemma_nearest_monotone(f, num, 0x1_0000_0000 * g, 1);
    let abs = nearest(f, num, 1);
    assert(ONE <= abs <= 0x4f80_0000);
    if ONE < abs {
        lemma_magnitude_monotone(f, ONE as nat, abs);
    }
    let one = F32 { bits: ONE };
    assert(F32::of_nat(n as nat).bits == abs);
    assert(one.negative().bits == 0xbf80_0000);
}

impl MapGrid {
    /// The tile at a column and a row.
    pub open spec fn tile(self, col: int, row: int) -> Tile {
        if 0 <= row < self.grid@.len() && 0 <= col < self.grid@[row]@.len() {
            self.grid@[row]@[col]
        } else {
            Tile::Water
        }
    }

    /// The tile that a position lies on; positions outside of the map lie on its rim.
    pub open spec fn tile_under(self, pos: Position) -> Tile {
        self.tile(tile_index(pos.x, self.width) as int, tile_index(pos.y, self.height) as int)
    }

    /// Whether a boat may be there.
    pub open spec fn passable(self, pos: Position) -> bool {
        self.tile_under(pos) == Tile::Water
    }

    /// The tiles of a chunk, row by row from the north.
    pub open spec fn chunk(self, chunk_x: int, chunk_y: int) -> Seq<Tile> {
        let cs = self.chunk_size as int;
        Seq::new(
            (cs * cs) as nat,
            |i: int| self.tile(chunk_x * cs + i % cs, chunk_y * cs + i / cs),
        )
    }

    /// Whether the tiles of a chunk can be listed.
    pub open spec fn chunks_fit(self) -> bool {
        self.chunk_size * self.chunk_size <= isize::MAX
    }

    /// Whether the tiles of a chunk can be listed.
    pub fn can_list_chunks(&self) -> (r: bool)
        ensures
            r == self.chunks_fit(),
    {
        let cs: u64 = self.chunk_size as u64;
        proof {
            assert(cs * cs <= 0xffff_ffff * 0xffff_ffff) by (nonlinear_arith)
                requires
                    0 <= cs <= 0xffff_ffff,
            ;
        }
        cs * cs <= isize::MAX as u64
    }

    /// The tile at grid coordinates; outside of the grid [`Tile::Water`].
    pub fn tile_at(&self, col: u32, row: u32) -> (r: Tile)
        ensures
            r == self.tile(col as int, row as int),
    {
        self.tile_far(col as u64, row as u64)
    }

    /// The tile at a column and a row that may lie far outside of the grid.
    fn tile_far(&self, col: u64, row: u64) -> (r: Tile)
        ensures
            r == self.tile(col as int, row as int),
    {
        if row < self.grid.len() as u64 && col < self.grid[row as usize].len() as u64 {
            self.grid[row as usize][col as usize]
        } else {
            Tile::Water
        }
    }

    /// The tile at a position, which is brought to the rim of the map where it lies outside.
    pub fn tile_at_pos(&self, pos: &Position) -> (r: Tile)
        requires
            self.width >= 1,
            self.height >= 1,
        ensures
            r == self.tile_under(*pos),
    {
        let zero: F32 = F32 { bits: 0 };
        let col: u32 = pos.x.clamp(zero, last_tile(self.width)).to_u32();
        let row: u32 = pos.y.clamp(zero, last_tile(self.height)).to_u32();
        self.tile_at(col, row)
    }

    /// Whether a boat may occupy `pos`: only open water is passable.
    pub fn is_passable(&self, pos: &Position) -> (r: bool)
        requires
            self.width >= 1,
            self.height >= 1,
        ensures
            r == self.passable(*pos),
    {
        self.tile_at_pos(pos) == Tile::Water
    }

    /// A single chunk, row by row from the north; what lies outside of the grid is water.
    pub fn chunk_data(&self, chunk_x: u32, chunk_y: u32) -> (data: Vec<Tile>)
        requires
            self.chunks_fit(),
        ensures
            data@ == self.chunk(chunk_x as int, chunk_y as int),
    {
        let cs: u64 = self.chunk_size as u64;
        proof {
            assert(chunk_x * cs <= 0xffff_ffff * 0xffff_ffff) by (nonlinear_arith)
                requires
                    0 <= chunk_x <= 0xffff_ffff,
                    0 <= cs <= 0xffff_ffff,
            ;
            assert(chunk_y * cs <= 0xffff_ffff * 0xffff_ffff) by (nonlinear_arith)
                requires
                    0 <= chunk_y <= 0xffff_ffff,
                    0 <= cs <= 0xffff_ffff,
            ;
        }
        let origin_col: u64 = chunk_x as u64 * cs;
        let origin_row: u64 = chunk_y as u64 * cs;
        let mut data: Vec<Tile> = Vec::with_capacity((cs * cs) as usize);
        let ghost want = self.chunk(chunk_x as int, chunk_y as int);
        let mut row: u64 = 0;
        while row < cs
            invariant
                cs == self.chunk_size,
                row <= cs,
                origin_col == chunk_x * cs,
                origin_row == chunk_y * cs,
                origin_col <= 0xffff_ffff * 0xffff_ffff,
                origin_row <= 0xffff_ffff * 0xffff_ffff,
                want == self.chunk(chunk_x as int, chunk_y as int),
                data@.len() == row * cs,
                data@ =~= want.take(row * cs),
                row * cs <= cs * cs,
            decreases cs - row,
        {
            let mut col: u64 = 0;
            proof {
                assert(row * cs + cs == (row + 1) * cs) by (nonlinear_arith);
                assert((row + 1) * cs <= cs * cs) by (nonlinear_arith)
                    requires
                        row + 1 <= cs,
                ;
            }
            while col < cs
                invariant
                    cs == self.chunk_size,
                    row < cs,
                    col <= cs,
                    origin_col == chunk_x * cs,
                    origin_row == chunk_y * cs,
                    origin_col <= 0xffff_ffff * 0xffff_ffff,
                    origin_row <= 0xffff_ffff * 0xffff_ffff,
                    want == self.chunk(chunk_x as int, chunk_y as int),
                    data@.len() == row * cs + col,
                    data@ =~= want.take(row * cs + col),
                    row * cs + cs <= cs * cs,
                decreases cs - col,
            {
                proof {
                    let i = row * cs + col;
                    lemma_fundamental_div_mod_converse(i as int, cs as int, row as int, col as int);
                    assert(want[i] == self.tile(origin_col + col, origin_row + row));
                }
                data.push(self.tile_far(origin_col + col, origin_row + row));
                col = col + 1;
            }
            row = row + 1;
        }
        data
    }
}

/// Every tile of a chunk that lies outside of the grid is water.
pub proof fn lemma_outside_is_water(map: MapGrid, chunk_x: int, chunk_y: int)
    requires
        chunk_y >= 0,
        chunk_y * map.chunk_size >= map.grid@.len() || (chunk_x >= 0 && forall|r: int|
            0 <= r < map.grid@.len() ==> (#[trigger] map.grid@[r])@.len() <= chunk_x
                * map.chunk_size),
    ensures
        map.chunk(chunk_x, chunk_y) == Seq::new(
            (map.chunk_size * map.chunk_size) as nat,
            |i: int| Tile::Water,
        ),
{
    let cs = map.chunk_size as int;
    let chunk = map.chunk(chunk_x, chunk_y);
    assert forall|i: int| 0 <= i < chunk.len() implies chunk[i] == Tile::Water by {
        assert(0 <= i % cs && 0 <= i / cs) by (nonlinear_arith)
            requires
                0 <= i < cs * cs,
                cs >= 0,
        ;
    }
    assert(chunk =~= Seq::new((cs * cs) as nat, |i: int| Tile::Water));
}

/// A chunk holds each of its tiles where a reader of the chunk looks for it.
pub proof fn lemma_chunk_holds_tile(map: MapGrid, x: int, y: int)
    requires
        map.chunk_size > 0,
        0 <= x,
        0 <= y,
    ensures
        ({
            let cs = map.chunk_size as int;
            let i = (y % cs) * cs + x % cs;
            &&& 0 <= i < map.chunk(x / cs, y / cs).len()
            &&& map.chunk(x / cs, y / cs)[i] == map.tile(x, y)
        }),
{
    let cs = map.chunk_size as int;
    let col = x % cs;
    let row = y % cs;
    let i = row * cs + col;
    assert(0 <= i < cs * cs) by (nonlinear_arith)
        requires
            i == row * cs + col,
            0 <= row < cs,
            0 <= col < cs,
    ;
    lemma_fundamental_div_mod_converse(i, cs, row, col);
    vstd::arithmetic::div_mod::lemma_fundamental_div_mod(x, cs);
    vstd::arithmetic::div_mod::lemma_fundamental_div_mod(y, cs);
    assert((x / cs) * cs == cs * (x / cs)) by (nonlinear_arith);
    assert((y / cs) * cs == cs * (y / cs)) by (nonlinear_arith);
}

} // verus!
