use render_tiles::index::{ShapeId, Tile, TileHashMap};

fn sorted_shapes(v: Option<Vec<ShapeId>>) -> Option<Vec<ShapeId>> {
    v.map(|mut s| {
        s.sort();
        s
    })
}

fn sorted_tiles(v: Option<Vec<Tile>>) -> Option<Vec<Tile>> {
    v.map(|mut s| {
        s.sort();
        s
    })
}

#[test]
fn new_index_is_empty() {
    let m = TileHashMap::new();
    assert!(!m.has_shapes_at((0, 0)));
    assert_eq!(m.get_shapes_at((0, 0)), None);
    assert_eq!(m.get_tiles_of(1), None);
}

#[test]
fn add_shape_at_registers_both_directions() {
    let mut m = TileHashMap::new();
    m.add_shape_at((0, 0), 7);
    m.add_shape_at((1, 0), 7);
    m.add_shape_at((0, 0), 9);
    m.add_shape_at((0, 0), 9);
    assert!(m.has_shapes_at((0, 0)));
    assert_eq!(sorted_shapes(m.get_shapes_at((0, 0))), Some(vec![7, 9]));
    assert_eq!(sorted_shapes(m.get_shapes_at((1, 0))), Some(vec![7]));
    assert_eq!(sorted_tiles(m.get_tiles_of(7)), Some(vec![(0, 0), (1, 0)]));
    assert_eq!(sorted_tiles(m.get_tiles_of(9)), Some(vec![(0, 0)]));
}

#[test]
fn negative_tiles_are_distinct() {
    let mut m = TileHashMap::new();
    m.add_shape_at((-1, -1), 3);
    assert!(m.has_shapes_at((-1, -1)));
    assert!(!m.has_shapes_at((1, 1)));
    assert!(!m.has_shapes_at((-1, 1)));
}

#[test]
fn remove_shape_leaves_empty_entries() {
    let mut m = TileHashMap::new();
    m.add_shape_at((0, 0), 7);
    m.add_shape_at((2, 3), 7);
    m.add_shape_at((2, 3), 8);
    m.remove_shape(7);
    assert_eq!(sorted_shapes(m.get_shapes_at((0, 0))), Some(vec![]));
    assert_eq!(sorted_shapes(m.get_shapes_at((2, 3))), Some(vec![8]));
    assert_eq!(m.get_tiles_of(7), Some(vec![]));
    assert_eq!(m.get_tiles_of(8), Some(vec![(2, 3)]));
}

#[test]
fn remove_shape_at_removes_one_registration() {
    let mut m = TileHashMap::new();
    m.add_shape_at((0, 0), 7);
    m.add_shape_at((0, 1), 7);
    assert!(m.remove_shape_at((0, 0), 7));
    assert_eq!(m.get_shapes_at((0, 0)), Some(vec![]));
    assert_eq!(m.get_tiles_of(7), Some(vec![(0, 1)]));
    // an element that is not in a populated tile: nothing to remove, still true
    assert!(m.remove_shape_at((0, 1), 42));
    assert_eq!(m.get_tiles_of(7), Some(vec![(0, 1)]));
}

#[test]
fn remove_shape_at_unknown_tile_is_false() {
    let mut m = TileHashMap::new();
    m.add_shape_at((0, 0), 7);
    assert!(!m.remove_shape_at((5, 5), 7));
    assert_eq!(m.get_tiles_of(7), Some(vec![(0, 0)]));
}

#[test]
fn remove_all_shapes_at_drops_every_membership_of_its_elements() {
    let mut m = TileHashMap::new();
    m.add_shape_at((0, 0), 1);
    m.add_shape_at((1, 0), 1);
    m.add_shape_at((1, 0), 2);
    m.add_shape_at((0, 0), 3);
    assert!(m.remove_all_shapes_at((0, 0)));
    assert_eq!(m.get_shapes_at((0, 0)), Some(vec![]));
    // element 1 was also in (1, 0): it loses that membership too
    assert_eq!(m.get_tiles_of(1), Some(vec![]));
    assert_eq!(m.get_tiles_of(3), Some(vec![]));
    assert_eq!(sorted_shapes(m.get_shapes_at((1, 0))), Some(vec![2]));
    assert_eq!(m.get_tiles_of(2), Some(vec![(1, 0)]));
    assert!(!m.remove_all_shapes_at((9, 9)));
}

#[test]
fn both_directions_agree_after_a_sequence() {
    let mut m = TileHashMap::new();
    for x in 0..3 {
        for y in 0..3 {
            m.add_shape_at((x, y), (x * 3 + y) as u128 % 4);
        }
    }
    m.remove_shape_at((1, 1), 0);
    m.remove_shape(2);
    m.remove_all_shapes_at((2, 2));
    m.add_shape_at((2, 2), 5);
    for x in 0..3 {
        for y in 0..3 {
            let shapes = m.get_shapes_at((x, y)).unwrap_or_default();
            for id in 0..6u128 {
                let in_tile = shapes.contains(&id);
                let tiles = m.get_tiles_of(id).unwrap_or_default();
                assert_eq!(in_tile, tiles.contains(&(x, y)));
            }
        }
    }
}

#[test]
fn clear_empties_both_directions() {
    let mut m = TileHashMap::new();
    m.add_shape_at((0, 0), 7);
    m.clear();
    assert!(!m.has_shapes_at((0, 0)));
    assert_eq!(m.get_tiles_of(7), None);
}
