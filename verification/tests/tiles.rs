use black_sea::float::F32;
use black_sea::protocol::Position;
use black_sea::tiles::{MapGrid, Tile};

fn at(x: f32, y: f32) -> Position {
    Position { x: F32::from_bits(x.to_bits()), y: F32::from_bits(y.to_bits()) }
}

fn small_grid() -> MapGrid {
    // 4×4 grid:
    //   W W W W
    //   W L L W
    //   W L L W
    //   W W W W
    // (row 0 = top/north)
    let mut grid = vec![vec![Tile::Water; 4]; 4];
    grid[1][1] = Tile::Land;
    grid[1][2] = Tile::Land;
    grid[2][1] = Tile::Land;
    grid[2][2] = Tile::Land;
    MapGrid { grid, width: 4, height: 4, chunk_size: 2 }
}

#[test]
fn tile_at_water() {
    let g = small_grid();
    assert_eq!(g.tile_at(0, 0), Tile::Water);
    assert_eq!(g.tile_at(3, 3), Tile::Water);
}

#[test]
fn tile_at_land() {
    let g = small_grid();
    assert_eq!(g.tile_at(1, 1), Tile::Land);
    assert_eq!(g.tile_at(2, 2), Tile::Land);
}

#[test]
fn tile_at_out_of_bounds_returns_water() {
    let g = small_grid();
    assert_eq!(g.tile_at(99, 99), Tile::Water);
    assert_eq!(g.tile_at(u32::MAX, u32::MAX), Tile::Water);
}

#[test]
fn tile_at_pos_clamps() {
    let g = small_grid();
    // Negative floats clamp to 0 → water
    assert_eq!(g.tile_at_pos(&at(-5.0, -5.0)), Tile::Water);
    // Beyond map clamps to edge → water (edge is col=3, row=3)
    assert_eq!(g.tile_at_pos(&at(999.0, 999.0)), Tile::Water);
    // Inside land block
    assert_eq!(g.tile_at_pos(&at(1.0, 1.0)), Tile::Land);
}

#[test]
fn is_passable() {
    let g = small_grid();
    assert!(g.is_passable(&at(0.0, 0.0)));
    assert!(!g.is_passable(&at(1.0, 1.0)));
}

#[test]
fn is_passable_coast_blocked() {
    let mut g = small_grid();
    g.grid[0][0] = Tile::Coast;
    assert!(!g.is_passable(&at(0.0, 0.0)));
}

#[test]
fn chunk_data_out_of_bounds_filled_with_water() {
    let g = small_grid();
    // Chunk (5,5) is entirely out of bounds
    let data = g.chunk_data(5, 5);
    assert_eq!(data, vec![Tile::Water; 4]);
}

#[test]
fn chunk_data_is_row_by_row() {
    let mut g = small_grid();
    g.grid[0][2] = Tile::Coast;
    // Chunk (1,0) holds columns 2 and 3 of rows 0 and 1.
    assert_eq!(g.chunk_data(1, 0), vec![Tile::Coast, Tile::Water, Tile::Land, Tile::Water]);
    assert!(g.can_list_chunks());
}

#[test]
fn chunks_far_outside_are_water() {
    let g = small_grid();
    assert_eq!(g.chunk_data(2_147_483_648, 0), vec![Tile::Water; 4]);
    assert_eq!(g.chunk_data(0, u32::MAX), vec![Tile::Water; 4]);
    assert_eq!(g.chunk_data(u32::MAX, u32::MAX), vec![Tile::Water; 4]);
    let huge = MapGrid { grid: vec![], width: 0, height: 0, chunk_size: u32::MAX };
    assert!(!huge.can_list_chunks());
}

#[test]
fn every_tile_is_in_its_chunk() {
    let g = small_grid();
    for row in 0..4u32 {
        for col in 0..4u32 {
            let data = g.chunk_data(col / 2, row / 2);
            let i = (row % 2) * 2 + col % 2;
            assert_eq!(data[i as usize], g.tile_at(col, row));
        }
    }
}

#[test]
fn tile_codes() {
    assert_eq!(Tile::Water.to_byte(), 0);
    assert_eq!(Tile::Coast.to_byte(), 1);
    assert_eq!(Tile::Land.to_byte(), 2);
    assert_eq!(Tile::from_byte(1), Some(Tile::Coast));
    assert_eq!(Tile::from_byte(3), None);
}

#[test]
fn positions_between_tiles_lie_on_the_lower_one() {
    let g = small_grid();
    assert_eq!(g.tile_at_pos(&at(0.99, 1.0)), Tile::Water);
    assert_eq!(g.tile_at_pos(&at(2.99, 2.99)), Tile::Land);
    assert_eq!(g.tile_at_pos(&at(f32::NAN, 1.0)), Tile::Water);
}
