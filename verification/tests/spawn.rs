use std::collections::HashMap;

use black_sea::float::F32;
use black_sea::protocol::Position;
use black_sea::server::handler::BoatEntry;
use black_sea::server::spawn::{
    find_free_position, search_schedule, Offset, MAX_PLACEMENT_ATTEMPTS, MIN_SEPARATION,
};
use black_sea::tiles::{MapGrid, Tile};
use rand::Rng;

fn all_water_map() -> MapGrid {
    MapGrid { grid: vec![vec![Tile::Water; 100]; 100], width: 100, height: 100, chunk_size: 10 }
}

fn all_land_map() -> MapGrid {
    MapGrid { grid: vec![vec![Tile::Land; 100]; 100], width: 100, height: 100, chunk_size: 10 }
}

fn num(v: F32) -> f32 {
    f32::from_bits(v.to_bits())
}

fn f(v: f32) -> F32 {
    F32::from_bits(v.to_bits())
}

fn draws(map: &MapGrid) -> Vec<Offset> {
    let mut rng = rand::rng();
    let mut offsets = Vec::new();
    for r in search_schedule(map) {
        let r = num(r);
        offsets.push(Offset { x: f(rng.random_range(-r..r)), y: f(rng.random_range(-r..r)) });
    }
    offsets
}

#[test]
fn finds_position_on_empty_water_map() {
    let map = all_water_map();
    let result = find_free_position(&HashMap::new(), &map, &draws(&map));
    // There are no obstacles, so we always find a spot.
    assert!(result.is_some());
}

#[test]
fn returns_none_on_all_land_map() {
    let map = all_land_map();
    let result = find_free_position(&HashMap::new(), &map, &draws(&map));
    assert!(result.is_none(), "should not find a passable position on solid land");
}

#[test]
fn respects_minimum_separation() {
    let map = all_water_map();
    // Place one boat at the centre of our small map.
    let mut existing: HashMap<u64, BoatEntry> = HashMap::new();
    existing.insert(
        0,
        BoatEntry { position: Position { x: f(50.0), y: f(50.0) }, name: "boat0".to_string() },
    );

    // The search should still find an empty spot somewhere on the map.
    let result = find_free_position(&existing, &map, &draws(&map));
    assert!(result.is_some(), "should find a free spot with only one existing boat");

    if let Some(pos) = result {
        let dx = 50.0_f32 - num(pos.x);
        let dy = 50.0_f32 - num(pos.y);
        let dist = (dx * dx + dy * dy).sqrt();
        assert!(
            dist >= f32::from_bits(MIN_SEPARATION),
            "spawned position too close to existing boat (dist={dist:.2})"
        );
    }
}

#[test]
fn radii_double_up_to_half_the_map() {
    let map = all_water_map();
    let schedule = search_schedule(&map);
    // 10, 20 and 40; 80 is more than half of 100.
    assert_eq!(schedule.len(), 3 * MAX_PLACEMENT_ATTEMPTS);
    assert_eq!(num(schedule[0]), 10.0);
    assert_eq!(num(schedule[999]), 10.0);
    assert_eq!(num(schedule[1000]), 20.0);
    assert_eq!(num(schedule[2999]), 40.0);
    // The first radius is tried on every map.
    let tiny = MapGrid { grid: vec![vec![Tile::Water; 4]; 4], width: 4, height: 4, chunk_size: 2 };
    assert_eq!(search_schedule(&tiny).len(), MAX_PLACEMENT_ATTEMPTS);
    assert!(search_schedule(&tiny).iter().all(|r| num(*r) == 10.0));
}

#[test]
fn a_small_empty_sea_has_room() {
    let map = MapGrid {
        grid: vec![vec![Tile::Water; 10]; 10],
        width: 10,
        height: 10,
        chunk_size: 10,
    };
    assert!(find_free_position(&HashMap::new(), &map, &draws(&map)).is_some());
    assert!(find_free_position(&HashMap::new(), &map, &Vec::new()).is_none());
}

#[test]
fn the_first_free_place_wins() {
    let mut map = MapGrid {
        grid: vec![vec![Tile::Water; 5000]; 3000],
        width: 5000,
        height: 3000,
        chunk_size: 50,
    };
    map.grid[2728][4591] = Tile::Coast;
    let offset = |x: f32, y: f32| Offset { x: f(x), y: f(y) };
    let mut boats: HashMap<u64, BoatEntry> = HashMap::new();
    boats.insert(
        7,
        BoatEntry { position: Position { x: f(4600.0), y: f(2728.0) }, name: "a".to_string() },
    );
    // The first place is coast, the second too near to the boat, the third free.
    let places = vec![offset(1.0, 0.0), offset(6.0, 0.0), offset(5.0, 0.0), offset(0.0, 0.0)];
    let pos = find_free_position(&boats, &map, &places).unwrap();
    assert_eq!(num(pos.x), 4595.0);
    assert_eq!(num(pos.y), 2728.0);
}
