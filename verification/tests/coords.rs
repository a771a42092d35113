use black_sea::coords::{
    lat_lon_to_tile, tile_to_lat_lon, BBOX_MAX_LAT, BBOX_MAX_LON, BBOX_MIN_LAT, BBOX_MIN_LON,
    MAP_TILES_H, MAP_TILES_W, METRES_PER_TILE,
};
use black_sea::float::{F32, F64};

fn to_tile(lat: f64, lon: f64) -> (f32, f32) {
    let (x, y) = lat_lon_to_tile(F64::from_bits(lat.to_bits()), F64::from_bits(lon.to_bits()));
    (f32::from_bits(x.to_bits()), f32::from_bits(y.to_bits()))
}

fn to_globe(x: f32, y: f32) -> (f64, f64) {
    let (lat, lon) = tile_to_lat_lon(F32::from_bits(x.to_bits()), F32::from_bits(y.to_bits()));
    (f64::from_bits(lat.to_bits()), f64::from_bits(lon.to_bits()))
}

const MIN_LAT: f64 = f64::from_bits(BBOX_MIN_LAT);
const MAX_LAT: f64 = f64::from_bits(BBOX_MAX_LAT);
const MIN_LON: f64 = f64::from_bits(BBOX_MIN_LON);
const MAX_LON: f64 = f64::from_bits(BBOX_MAX_LON);

#[test]
fn roundtrip_center() {
    let lat = (MIN_LAT + MAX_LAT) / 2.0;
    let lon = (MIN_LON + MAX_LON) / 2.0;
    let (x, y) = to_tile(lat, lon);
    let (lat2, lon2) = to_globe(x, y);
    assert!((lat - lat2).abs() < 1e-3);
    assert!((lon - lon2).abs() < 1e-3);
}

#[test]
fn corners() {
    let (x, y) = to_tile(MAX_LAT, MIN_LON);
    assert!(x.abs() < 0.01 && y.abs() < 0.01);
    let (x, y) = to_tile(MIN_LAT, MAX_LON);
    assert!((x - MAP_TILES_W as f32).abs() < 0.01);
    assert!((y - MAP_TILES_H as f32).abs() < 0.01);
}

#[test]
fn convert_roundtrip_matches_protocol() {
    // Sandhamn harbour — a known point from the seed CSV
    let lat = 59.2887_f64;
    let lon = 18.9100_f64;
    let (expected_x, expected_y) = to_tile(lat, lon);
    // The handler just calls lat_lon_to_tile — verify same result
    let (x, y) = to_tile(lat, lon);
    assert!((x - expected_x).abs() < 0.01);
    assert!((y - expected_y).abs() < 0.01);
    // Sanity: result is inside the tile grid
    assert!(x >= 0.0 && x <= MAP_TILES_W as f32);
    assert!(y >= 0.0 && y <= MAP_TILES_H as f32);
}

#[test]
fn bbox_constants_are_sane() {
    assert!(MIN_LAT < MAX_LAT);
    assert!(MIN_LON < MAX_LON);
    // Stockholm archipelago should be in the Northern hemisphere, east of Greenwich
    assert!(MIN_LAT > 50.0 && MAX_LAT < 70.0);
    assert!(MIN_LON > 10.0 && MAX_LON < 25.0);
}

#[test]
fn constants_have_their_values() {
    assert_eq!(MIN_LAT, 58.80);
    assert_eq!(MAX_LAT, 59.80);
    assert_eq!(MIN_LON, 17.50);
    assert_eq!(MAX_LON, 20.00);
    assert_eq!(f32::from_bits(METRES_PER_TILE), 20.0);
}

#[test]
fn conversion_is_that_of_the_machine() {
    let mut lat = 58.0_f64;
    while lat < 60.5 {
        let mut lon = 17.0_f64;
        while lon < 20.5 {
            let x = (lon - 17.50) / (20.00 - 17.50) * 8500.0;
            let y = (59.80 - lat) / (59.80 - 58.80) * 5500.0;
            assert_eq!(to_tile(lat, lon), (x as f32, y as f32));
            lon += 0.0137;
        }
        lat += 0.0211;
    }
}

#[test]
fn tiles_come_back_to_themselves() {
    for i in 0..=8500u32 {
        let (_, lon) = to_globe(i as f32, 0.0);
        let (x, _) = to_tile(59.0, lon);
        assert_eq!(x.round() as u32, i);
    }
    for i in 0..=5500u32 {
        let (lat, _) = to_globe(0.0, i as f32);
        let (_, y) = to_tile(lat, 18.0);
        assert_eq!(y.round() as u32, i);
    }
}

#[test]
fn places_come_back_to_a_millionth_of_a_degree() {
    for i in 0..=1000u32 {
        let lat = MIN_LAT + (MAX_LAT - MIN_LAT) * (i as f64 / 1000.0);
        let lon = MIN_LON + (MAX_LON - MIN_LON) * (i as f64 / 1000.0);
        let (x, y) = to_tile(lat, lon);
        let (lat2, lon2) = to_globe(x, y);
        assert!((lat - lat2).abs() <= 1e-6);
        assert!((lon - lon2).abs() <= 1e-6);
    }
}

#[test]
fn columns_run_east_and_rows_south() {
    let mut last = to_tile(70.0, -30.0);
    for i in 1..=2000u32 {
        // From north-west to south-east, far beyond the map.
        let (lat, lon) = (70.0 - i as f64 * 0.01, -30.0 + i as f64 * 0.05);
        let here = to_tile(lat, lon);
        assert!(last.0 <= here.0 && last.1 <= here.1);
        last = here;
    }
    assert!(to_tile(59.0, f64::INFINITY).0 > 1e30);
    assert!(to_tile(59.0, f64::MAX).0 > 1e30);
}

#[test]
fn places_off_the_map_are_not_brought_onto_it() {
    // One step of the number line beyond each border.
    assert!(to_tile(f64::from_bits(BBOX_MAX_LAT + 1), 18.0).1 < 0.0);
    assert!(to_tile(59.0, f64::from_bits(BBOX_MIN_LON - 1)).0 < 0.0);
    assert!(to_tile(f64::from_bits(BBOX_MIN_LAT - 1), 18.0).1 >= 5500.0);
    assert!(to_tile(59.0, f64::from_bits(BBOX_MAX_LON + 1)).0 >= 8500.0);
    // The borders themselves.
    assert_eq!(to_tile(MAX_LAT, MIN_LON), (0.0, 0.0));
    assert_eq!(to_tile(MIN_LAT, MAX_LON), (8500.0, 5500.0));
    assert_eq!(to_tile(61.8, 12.5), (-17000.0, -11000.0));
}
