use render_tiles::surfaces::{PoolExhausted, SurfacePool};
use render_tiles::tiles::{get_tile_dimensions, TileSurfaceCache, Tiles, TILE_SIZE};

fn pool_of(n: usize) -> SurfacePool<u32> {
    SurfacePool::new((0..n as u32).collect())
}

#[test]
fn tile_dimensions_are_the_tile_size() {
    assert_eq!(TILE_SIZE, 512);
    assert_eq!(get_tile_dimensions(), (512, 512));
}

#[test]
fn cache_creates_and_overwrites_entries() {
    let mut cache = TileSurfaceCache::new(pool_of(4));
    assert!(!cache.has((0, 0)));
    assert_eq!(cache.get_or_create((0, 0)), Ok(0));
    assert!(cache.has((0, 0)));
    assert_eq!(cache.get((0, 0)), Some(0));
    assert_eq!(cache.get_or_create((0, 0)), Ok(1));
    assert_eq!(cache.get((0, 0)), Some(1));
    cache.set((3, -2), 3);
    assert_eq!(cache.get((3, -2)), Some(3));
    assert_eq!(cache.get((-2, 3)), None);
}

#[test]
fn cache_remove_reports_presence() {
    let mut cache = TileSurfaceCache::new(pool_of(2));
    cache.get_or_create((1, 1)).unwrap();
    assert!(cache.remove((1, 1)));
    assert!(!cache.has((1, 1)));
    assert!(!cache.remove((1, 1)));
}

#[test]
fn cache_clear_drops_all_entries() {
    let mut cache = TileSurfaceCache::new(pool_of(2));
    cache.get_or_create((0, 0)).unwrap();
    cache.get_or_create((0, 1)).unwrap();
    cache.clear();
    assert!(!cache.has((0, 0)));
    assert!(!cache.has((0, 1)));
    // the pool keeps its cursor across a clear
    assert_eq!(cache.get_or_create((0, 0)), Ok(0));
}

#[test]
fn cache_with_empty_pool_is_exhausted() {
    let mut cache = TileSurfaceCache::new(pool_of(0));
    assert_eq!(cache.get_or_create((0, 0)), Err(PoolExhausted));
    assert!(!cache.has((0, 0)));
}

#[test]
fn update_tile_for_registers_every_tile_of_the_range() {
    let mut tiles = Tiles::new(pool_of(2));
    tiles.update_tile_for((0, 0, 1, 1), 5);
    for x in 0..2 {
        for y in 0..2 {
            assert!(tiles.has_tile_at((x, y)));
            assert_eq!(tiles.get_tile_shape_count((x, y)), 1);
            assert_eq!(tiles.get_tile_at((x, y)), Some(vec![5]));
        }
    }
    assert!(!tiles.has_tile_at((2, 0)));
    assert_eq!(tiles.get_tile_shape_count((2, 0)), 0);
}

#[test]
fn update_tile_for_single_tile_range() {
    let mut tiles = Tiles::new(pool_of(2));
    tiles.update_tile_for((0, 0, 0, 0), 1);
    tiles.update_tile_for((0, 0, 2, 2), 2);
    assert_eq!(tiles.get_tile_shape_count((0, 0)), 2);
    assert_eq!(tiles.get_tile_shape_count((2, 2)), 1);
    assert_eq!(tiles.get_tile_shape_count((1, 0)), 1);
    assert_eq!(tiles.get_tile_shape_count((3, 3)), 0);
}

#[test]
fn update_tile_for_empty_range_registers_nothing() {
    let mut tiles = Tiles::new(pool_of(2));
    tiles.update_tile_for((1, 1, 0, 0), 1);
    assert!(!tiles.has_tile_at((0, 0)));
    assert!(!tiles.has_tile_at((1, 1)));
}

#[test]
fn update_tile_for_negative_range() {
    let mut tiles = Tiles::new(pool_of(2));
    tiles.update_tile_for((-2, -1, -1, 0), 4);
    assert!(tiles.has_tile_at((-2, -1)));
    assert!(tiles.has_tile_at((-1, 0)));
    assert!(!tiles.has_tile_at((0, 0)));
}

#[test]
fn invalidations_clear_their_part() {
    let mut tiles = Tiles::new(pool_of(2));
    tiles.update_tile_for((0, 0, 0, 0), 1);
    assert_eq!(tiles.get_or_create_surface_at((0, 0)), Ok(0));
    tiles.invalidate_surfaces();
    assert!(tiles.has_tile_at((0, 0)));
    tiles.invalidate_shapes();
    assert!(!tiles.has_tile_at((0, 0)));
    tiles.update_tile_for((0, 0, 0, 0), 1);
    assert_eq!(tiles.get_or_create_surface_at((0, 0)), Ok(1));
    tiles.invalidate_tiles();
    assert!(!tiles.has_tile_at((0, 0)));
}
