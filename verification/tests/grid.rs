use adsb_sim::grid::GridCoord;
use adsb_sim::grid::SpatialGrid;
use adsb_sim::math::Vector2D;

#[test]
fn test_grid_coords_conversion() {
    let cell_size = 8;
    let grid = SpatialGrid::new(cell_size);

    assert_eq!(GridCoord::new(0, 0), grid.to_grid_coord(Vector2D::new(5, 7)));
    assert_eq!(GridCoord::new(-1, 0), grid.to_grid_coord(Vector2D::new(-5, 7)));
    assert_eq!(GridCoord::new(0, -1), grid.to_grid_coord(Vector2D::new(5, -7)));
    assert_eq!(GridCoord::new(-1, -1), grid.to_grid_coord(Vector2D::new(-5, -7)));
}

#[test]
fn test_insert() {
    let cell_size = 8;
    let mut grid = SpatialGrid::new(cell_size);

    grid.insert("P1".to_string(), Vector2D::new(5, 7));
    grid.insert("P2".to_string(), Vector2D::new(5, 7));
    grid.insert("P3".to_string(), Vector2D::new(-9, -9));

    assert_eq!(2, grid.get_bucket(&GridCoord::new(0, 0)).map(|v| v.len()).unwrap_or(100));
    assert_eq!(1, grid.get_bucket(&GridCoord::new(-2, -2)).map(|v| v.len()).unwrap_or(100));
}

#[test]
fn test_get_neighbor_ids() {
    let cell_size = 8;
    let mut grid = SpatialGrid::new(cell_size);

    grid.insert("P1".to_string(), Vector2D::new(5, 7));
    grid.insert("P2".to_string(), Vector2D::new(5, 7));
    grid.insert("P3".to_string(), Vector2D::new(-9, -9));
    grid.insert("P4".to_string(), Vector2D::new(9, 9));

    assert_eq!(
        vec!["P2", "P4"],
        grid.get_nearby_ids(&"P1".to_string(), Vector2D::new(1, 1))
    );
}

#[test]
fn grid_clear_empties_buckets() {
    let mut grid = SpatialGrid::new(8);
    grid.insert("P1".to_string(), Vector2D::new(5, 7));
    grid.clear();
    assert!(grid.get_bucket(&GridCoord::new(0, 0)).is_none());
}
