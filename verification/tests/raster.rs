use black_sea::coords::{BBOX_MAX_LAT, BBOX_MAX_LON, BBOX_MIN_LAT, BBOX_MIN_LON};
use black_sea::float::F64;
use black_sea::map_loader::grids::{can_load_map, flatten, load_map};
use black_sea::map_loader::polygon::{Coord, Polygon};
use black_sea::map_loader::raster::{
    can_scan, rasterize, rasterize_at, rasterize_overview, scanline_fill_polygon,
};
use black_sea::tiles::Tile;

const MIN_LAT: f64 = f64::from_bits(BBOX_MIN_LAT);
const MAX_LAT: f64 = f64::from_bits(BBOX_MAX_LAT);
const MIN_LON: f64 = f64::from_bits(BBOX_MIN_LON);
const MAX_LON: f64 = f64::from_bits(BBOX_MAX_LON);

fn coord(x: f64, y: f64) -> Coord {
    Coord { x: F64::from_bits(x.to_bits()), y: F64::from_bits(y.to_bits()) }
}

/// Build a longitude/latitude rectangle that maps to known grid cells.
fn bbox_polygon(min_lon: f64, max_lon: f64, min_lat: f64, max_lat: f64) -> Polygon {
    Polygon::new(vec![
        coord(min_lon, min_lat),
        coord(max_lon, min_lat),
        coord(max_lon, max_lat),
        coord(min_lon, max_lat),
        coord(min_lon, min_lat), // close ring
    ])
}

fn centre_polygon() -> Polygon {
    // A rectangle near the centre of the BBOX, spanning ~2.5% of each axis.
    let center_lon = (MIN_LON + MAX_LON) / 2.0;
    let center_lat = (MIN_LAT + MAX_LAT) / 2.0;
    let span_lon = (MAX_LON - MIN_LON) * 0.025;
    let span_lat = (MAX_LAT - MIN_LAT) * 0.025;
    bbox_polygon(
        center_lon - span_lon,
        center_lon + span_lon,
        center_lat - span_lat,
        center_lat + span_lat,
    )
}

/// Rasterize a single small polygon and verify that expected cells are land.
#[test]
fn small_polygon_fills_land_cells() {
    let poly = centre_polygon();
    let grid = rasterize(&vec![poly]);

    // At least one cell must be Tile::Land.
    let has_land = grid.iter().any(|row| row.iter().any(|&t| t == Tile::Land));
    assert!(has_land, "expected land cells after rasterizing polygon");
}

/// After rasterization, every water cell adjacent to a land cell must be coast.
#[test]
fn coast_cells_border_land() {
    let poly = centre_polygon();
    let grid = rasterize(&vec![poly]);
    let h = grid.len();
    let w = if h > 0 { grid[0].len() } else { 0 };

    // Every Tile::Coast cell must have at least one Tile::Land neighbour.
    for r in 0..h {
        for c in 0..w {
            if grid[r][c] == Tile::Coast {
                let has_land_nbr = [
                    r.checked_sub(1).map(|rr| (rr, c)),
                    if r + 1 < h { Some((r + 1, c)) } else { None },
                    c.checked_sub(1).map(|cc| (r, cc)),
                    if c + 1 < w { Some((r, c + 1)) } else { None },
                ]
                .into_iter()
                .flatten()
                .any(|(rr, cc)| grid[rr][cc] == Tile::Land);
                assert!(has_land_nbr, "Tile::Coast at ({r},{c}) has no adjacent Tile::Land");
            }
        }
    }
}

/// An all-water polygon list produces an all-water grid (no land, no coast).
#[test]
fn empty_polygon_list_gives_all_water() {
    let polys: Vec<Polygon> = vec![];
    let grid = rasterize(&polys);
    let all_water = grid.iter().all(|row| row.iter().all(|&t| t == Tile::Water));
    assert!(all_water, "empty polygon list should produce all-water grid");
}

fn picture(grid: &[Vec<Tile>]) -> Vec<String> {
    grid.iter()
        .map(|row| {
            row.iter()
                .map(|t| match t {
                    Tile::Water => '.',
                    Tile::Coast => ':',
                    Tile::Land => '#',
                })
                .collect()
        })
        .collect()
}

#[test]
fn a_rectangle_on_a_small_grid() {
    // Eleven columns a quarter of a degree apart, and eleven rows a tenth of a degree apart.
    let poly = bbox_polygon(18.2, 18.8, 59.15, 59.35);
    assert!(can_scan(&poly, 11, 11));
    let grid = rasterize_at(&vec![&poly], 11, 11);
    assert_eq!(
        picture(&grid),
        vec![
            "...........",
            "...........",
            "...........",
            "...........",
            "...:::.....",
            "..:###:....",
            "..:###:....",
            "...:::.....",
            "...........",
            "...........",
            "...........",
        ]
    );
}

#[test]
fn intervals_are_added_to_those_that_are_there() {
    let poly = bbox_polygon(18.2, 18.8, 59.15, 59.35);
    let mut fill = vec![vec![(9, 9)]; 11];
    scanline_fill_polygon(&poly, 11, 11, &mut fill);
    assert_eq!(fill[4], vec![(9, 9)]);
    assert_eq!(fill[5], vec![(9, 9), (3, 5)]);
    assert_eq!(fill[6], vec![(9, 9), (3, 5)]);
}

#[test]
fn a_notch_leaves_a_gap() {
    // The row at 59.3 crosses the outline four times.
    let poly = Polygon::new(vec![
        coord(17.75, 59.05),
        coord(19.25, 59.05),
        coord(19.25, 59.35),
        coord(18.75, 59.35),
        coord(18.75, 59.15),
        coord(18.25, 59.15),
        coord(18.25, 59.35),
        coord(17.75, 59.35),
    ]);
    assert_eq!(poly.exterior.len(), 9);
    let mut fill = vec![vec![]; 11];
    scanline_fill_polygon(&poly, 11, 11, &mut fill);
    assert_eq!(fill[5], vec![(1, 3), (5, 7)]);
    assert_eq!(fill[7], vec![(1, 7)]);
}

#[test]
fn land_beyond_the_map_is_cut_off() {
    let poly = bbox_polygon(10.0, 18.0, 50.0, 70.0);
    let grid = rasterize_at(&vec![&poly], 11, 11);
    for row in picture(&grid) {
        assert_eq!(row, "###:.......");
    }
    let east = bbox_polygon(30.0, 40.0, 59.0, 59.5);
    let grid = rasterize_at(&vec![&east], 11, 11);
    assert!(grid.iter().all(|row| row.iter().all(|&t| t == Tile::Water)));
}

#[test]
fn outlines_that_cannot_be_scanned() {
    // A crossing that is not a number cannot be put in order.
    let poly = Polygon::new(vec![
        coord(f64::NAN, 58.0),
        coord(f64::NAN, 60.0),
        coord(18.0, 60.0),
        coord(18.0, 58.0),
    ]);
    assert!(!can_scan(&poly, 11, 11));
    // No rows at all.
    assert!(!can_scan(&bbox_polygon(18.0, 19.0, 59.0, 59.5), 11, 0));
    assert!(can_scan(&Polygon::new(vec![]), 0, 0));
    // A point far in the south has no row number that can be counted on.
    assert!(!can_scan(&Polygon::new(vec![coord(18.0, -1e300)]), 11, 11));
}

#[test]
fn the_overview_leaves_small_areas_out() {
    let island = bbox_polygon(18.0, 18.5, 59.0, 59.2);
    let islet = bbox_polygon(19.0, 19.01, 59.5, 59.52);
    let polygons = vec![island, islet];
    let areas: Vec<F64> =
        [0.1_f64, 0.0002].iter().map(|a| F64::from_bits(a.to_bits())).collect();
    assert!(can_load_map(&polygons, &areas));
    let (full, overview) = load_map(&polygons, &areas);
    assert_eq!((full.width, full.height, full.chunk_size), (8500, 5500, 50));
    assert_eq!((overview.width, overview.height, overview.chunk_size), (425, 275, 275));
    // The islet lies around column 5117 and row 1595 of the map.
    assert_eq!(full.tile_at(5117, 1595), Tile::Land);
    assert_eq!(overview.tile_at(5117 / 20, 1595 / 20), Tile::Water);
    // The island lies around column 2550 and row 3850.
    assert_eq!(full.tile_at(2550, 3850), Tile::Land);
    assert_eq!(overview.tile_at(2550 / 20, 3850 / 20), Tile::Land);
    let flat = flatten(&overview.grid);
    assert_eq!(flat.len(), 425 * 275);
    assert_eq!(flat[192 * 425 + 127], overview.tile_at(127, 192));
}

#[test]
fn the_least_area_of_the_overview() {
    let least = f64::from_bits(black_sea::map_loader::grids::OVERVIEW_MIN_AREA_DEG2);
    assert_eq!(least, 0.0004);
    assert_eq!(f64::from_bits(black_sea::map_loader::grids::SIMPLIFY_EPSILON), 0.001);
}

#[test]
fn overview_size() {
    let grid = rasterize_overview(&vec![&bbox_polygon(18.0, 19.0, 59.0, 59.5)]);
    assert_eq!(grid.len(), 275);
    assert!(grid.iter().all(|row| row.len() == 425));
}

/// What lies inside of an outline, going by how often one crosses it on the way west, is land.
#[test]
fn what_lies_inside_is_land() {
    // A concave outline: an arrowhead.
    let points =
        [(17.8, 58.9), (18.7, 59.7), (19.6, 58.9), (18.7, 59.2), (17.8, 58.9)];
    let poly = Polygon::new(points.iter().map(|p| coord(p.0, p.1)).collect());
    let (w, h) = (425, 275);
    let grid = rasterize_overview(&vec![&poly]);
    let mut inside = 0;
    for row in 0..h {
        let lat = MAX_LAT - (row as f64 / (h - 1) as f64) * (MAX_LAT - MIN_LAT);
        for step in 0..=2000 {
            let lon = MIN_LON + (MAX_LON - MIN_LON) * (step as f64 / 2000.0);
            let mut crossed = 0;
            for i in 0..points.len() - 1 {
                let (a, b) = (points[i], points[i + 1]);
                if (a.1 <= lat) != (b.1 <= lat) {
                    let t = (lat - a.1) / (b.1 - a.1);
                    if a.0 + t * (b.0 - a.0) <= lon {
                        crossed += 1;
                    }
                }
            }
            if crossed % 2 == 1 {
                let col = ((lon - MIN_LON) / (MAX_LON - MIN_LON) * (w - 1) as f64).round();
                assert_eq!(grid[row][col as usize], Tile::Land);
                inside += 1;
            }
        }
    }
    assert!(inside > 10_000);
}

#[test]
fn a_tile_whose_middle_lies_inside_is_land() {
    // A ring that is hollow where it runs over itself.
    let points = [
        (17.6, 58.95),
        (19.9, 58.95),
        (19.9, 59.75),
        (17.6, 59.75),
        (17.6, 58.95),
        (18.5, 59.2),
        (18.5, 59.5),
        (19.1, 59.5),
        (18.5, 59.2),
        (17.6, 58.95),
    ];
    let poly = Polygon::new(points.iter().map(|p| coord(p.0, p.1)).collect());
    let (w, h) = (425, 275);
    let grid = rasterize_overview(&vec![&poly]);
    let mut inside = 0;
    for row in 0..h {
        let lat = MAX_LAT - (row as f64 / (h - 1) as f64) * (MAX_LAT - MIN_LAT);
        for col in 0..w {
            let lon = MIN_LON + (col as f64 / (w - 1) as f64) * (MAX_LON - MIN_LON);
            let mut crossed = 0;
            for i in 0..points.len() - 1 {
                let (a, b) = (points[i], points[i + 1]);
                if (a.1 <= lat) != (b.1 <= lat) {
                    let t = (lat - a.1) / (b.1 - a.1);
                    if a.0 + t * (b.0 - a.0) <= lon {
                        crossed += 1;
                    }
                }
            }
            if crossed % 2 == 1 {
                assert_eq!(grid[row][col], Tile::Land);
                inside += 1;
            }
        }
    }
    assert!(inside > 10_000);
    assert_eq!(grid[h / 2][183], Tile::Water);
}
