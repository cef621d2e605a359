use tile_terrain::math::{Rect, Vec2};
use tile_terrain::world::{OutOfBounds, World, WorldTile};

fn solid_count(w: &World) -> usize {
    let mut n = 0;
    for x in 0..w.width() as isize {
        for y in 0..w.height() as isize {
            if w.get(x, y) == WorldTile::Dirt {
                n += 1;
            }
        }
    }
    n
}

#[test]
fn new_grid_is_all_air() {
    let w = World::new(7, 3);
    assert_eq!(w.width(), 7);
    assert_eq!(w.height(), 3);
    assert_eq!(solid_count(&w), 0);
}

#[test]
fn reads_off_the_grid_are_air() {
    let mut w = World::new(4, 4);
    for x in 0..4 {
        for y in 0..4 {
            w.set(x, y, WorldTile::Dirt);
        }
    }
    assert_eq!(w.get(-1, 0), WorldTile::Air);
    assert_eq!(w.get(0, -1), WorldTile::Air);
    assert_eq!(w.get(4, 0), WorldTile::Air);
    assert_eq!(w.get(0, 4), WorldTile::Air);
    assert_eq!(w.get(isize::MIN, isize::MAX), WorldTile::Air);
    assert_eq!(w.get(3, 3), WorldTile::Dirt);
}

#[test]
fn set_then_get_round_trip() {
    let mut w = World::new(5, 6);
    w.set(2, 4, WorldTile::Dirt);
    assert_eq!(w.get(2, 4), WorldTile::Dirt);
    assert_eq!(solid_count(&w), 1);
    w.set(2, 4, WorldTile::Air);
    assert_eq!(w.get(2, 4), WorldTile::Air);
    assert_eq!(solid_count(&w), 0);
}

#[test]
fn set_leaves_other_cells() {
    let mut w = World::new(3, 3);
    w.set(0, 0, WorldTile::Dirt);
    w.set(2, 2, WorldTile::Dirt);
    w.set(1, 0, WorldTile::Dirt);
    assert_eq!(w.get(0, 0), WorldTile::Dirt);
    assert_eq!(w.get(2, 2), WorldTile::Dirt);
    assert_eq!(w.get(1, 0), WorldTile::Dirt);
    assert_eq!(w.get(0, 1), WorldTile::Air);
    assert_eq!(solid_count(&w), 3);
}

#[test]
fn try_set_reports_cells_off_the_grid() {
    let mut w = World::new(10, 10);
    assert_eq!(w.try_set(10, 0, WorldTile::Dirt), Err(OutOfBounds { x: 10, y: 0 }));
    assert_eq!(w.try_set(-1, 3, WorldTile::Dirt), Err(OutOfBounds { x: -1, y: 3 }));
    assert_eq!(w.try_set(0, 10, WorldTile::Dirt), Err(OutOfBounds { x: 0, y: 10 }));
    assert_eq!(solid_count(&w), 0);
    assert_eq!(w.try_set(9, 9, WorldTile::Dirt), Ok(()));
    assert_eq!(w.get(9, 9), WorldTile::Dirt);
}

#[test]
fn tile_capabilities() {
    assert!(!WorldTile::Air.is_not_air());
    assert!(WorldTile::Dirt.is_not_air());
    assert!(!WorldTile::Air.has_collider());
    assert!(WorldTile::Dirt.has_collider());
    assert_eq!(WorldTile::default(), WorldTile::Air);
}

#[test]
fn rendered_tile_lists_neighbors_top_left_bottom_right() {
    let mut w = World::new(3, 3);
    w.set(1, 2, WorldTile::Dirt);
    w.set(1, 1, WorldTile::Dirt);
    w.set(2, 1, WorldTile::Dirt);
    let r = w.get_rendered(1, 1);
    assert_eq!(r.pos, (1, 1));
    assert_eq!(r.tile, WorldTile::Dirt);
    assert_eq!(r.neighbors, [WorldTile::Dirt, WorldTile::Air, WorldTile::Air, WorldTile::Dirt]);
    assert_eq!(r.occupancy_bits(), 1 + 8 + 16);
}

#[test]
fn rendered_tile_at_the_border_sees_air() {
    let mut w = World::new(2, 2);
    for x in 0..2 {
        for y in 0..2 {
            w.set(x, y, WorldTile::Dirt);
        }
    }
    let r = w.get_rendered(0, 0);
    assert_eq!(r.neighbors, [WorldTile::Dirt, WorldTile::Air, WorldTile::Air, WorldTile::Dirt]);
    assert_eq!(r.occupancy_bits(), 1 + 8 + 16);
    let r = w.get_rendered(isize::MAX, isize::MIN);
    assert_eq!(r.tile, WorldTile::Air);
    assert_eq!(r.occupancy_bits(), 0);
    let r = w.get_rendered(1, 1);
    assert_eq!(r.occupancy_bits(), 2 + 4 + 16);
}

#[test]
fn cells_in_box_are_clipped_and_column_major() {
    let w = World::new(4, 3);
    let cells = w.get_rendered_in_cells(-1, 1, 3, 5);
    let pos: Vec<(isize, isize)> = cells.iter().map(|c| c.pos).collect();
    assert_eq!(pos, vec![(0, 1), (0, 2), (1, 1), (1, 2)]);
    assert!(w.get_rendered_in_cells(5, 0, 3, 3).is_empty());
    assert!(w.get_rendered_in_cells(0, 0, -2, 3).is_empty());
    assert!(w.get_rendered_in_cells(0, 0, 2, 0).is_empty());
}

#[test]
fn cells_near_a_rectangle() {
    let w = World::new(10, 10);
    let rect = Rect::from_center_half_size(Vec2::new(1280, 1440), Vec2::new(256, 256)).unwrap();
    // Columns 3..=6 and rows 3..=7: the box spans 4.0..6.0 by 4.625..6.625
    // tiles, and 3.625..7.625 once widened.
    let cells = w.get_rendered_in_rect(rect);
    assert_eq!(cells.len(), 20);
    assert_eq!(cells[0].pos, (3, 3));
    assert_eq!(cells[1].pos, (3, 4));
    assert_eq!(cells[4].pos, (3, 7));
    assert_eq!(cells[5].pos, (4, 3));
    assert_eq!(cells[19].pos, (6, 7));
}

#[test]
fn cells_near_a_rectangle_reach_the_far_column() {
    let w = World::new(10, 10);
    // Centered at (6.0, 6.0) tiles with half size 0.5: widened, 4.5..7.5.
    let rect = Rect::from_center_half_size(Vec2::new(1536, 1536), Vec2::new(128, 128)).unwrap();
    let cells = w.get_rendered_in_rect(rect);
    let columns: Vec<isize> = cells.iter().map(|c| c.pos.0).collect();
    assert_eq!(cells.len(), 16);
    assert_eq!(columns.first(), Some(&4));
    assert_eq!(columns.last(), Some(&7));
    assert_eq!(cells[3].pos, (4, 7));
}

#[test]
fn cells_near_a_rectangle_on_whole_tiles() {
    let w = World::new(10, 10);
    // Spans exactly 5.0..6.0 tiles: widened, 4.0..7.0, so columns 4..=6.
    let rect = Rect::from_center_half_size(Vec2::new(1408, 1408), Vec2::new(128, 128)).unwrap();
    let cells = w.get_rendered_in_rect(rect);
    assert_eq!(cells.len(), 9);
    assert_eq!(cells[0].pos, (4, 4));
    assert_eq!(cells[8].pos, (6, 6));
}

#[test]
fn cells_near_a_rectangle_at_the_corner() {
    let w = World::new(10, 10);
    let rect = Rect::from_center_half_size(Vec2::new(64, 64), Vec2::new(64, 64)).unwrap();
    let cells = w.get_rendered_in_rect(rect);
    let pos: Vec<(isize, isize)> = cells.iter().map(|c| c.pos).collect();
    assert_eq!(pos, vec![(0, 0), (0, 1), (1, 0), (1, 1)]);
}

#[test]
fn rectangles_out_of_range_are_refused() {
    assert!(Rect::from_center_half_size(Vec2::new(0, 0), Vec2::new(-1, 4)).is_none());
    assert!(Rect::from_center_half_size(Vec2::new(1_073_741_824, 0), Vec2::new(1, 1)).is_none());
    assert!(Rect::from_center_half_size(Vec2::new(1_073_741_823, 0), Vec2::new(1, 1)).is_some());
    assert!(Rect::from_center_half_size(Vec2::new(0, -1_073_741_823), Vec2::new(1, 2)).is_none());
    let r = Rect::from_center_half_size(Vec2::new(10, 20), Vec2::new(3, 4)).unwrap();
    assert_eq!(r.min(), Vec2::new(7, 16));
    assert_eq!(r.width(), 6);
    assert_eq!(r.height(), 8);
}

#[test]
fn occupancy_bitsets_row_after_row() {
    let mut w = World::new(3, 2);
    w.set(0, 0, WorldTile::Dirt);
    w.set(1, 0, WorldTile::Dirt);
    w.set(1, 1, WorldTile::Dirt);
    let bits = w.occupancy_bitsets();
    assert_eq!(bits.len(), 6);
    // (0,0): right neighbor and itself.
    assert_eq!(bits[0], 8 + 16);
    // (1,0): top, left, itself.
    assert_eq!(bits[1], 1 + 2 + 16);
    // (2,0): left.
    assert_eq!(bits[2], 2);
    // (0,1): bottom and right.
    assert_eq!(bits[3], 4 + 8);
    // (1,1): bottom, itself.
    assert_eq!(bits[4], 4 + 16);
    // (2,1): left.
    assert_eq!(bits[5], 2);
    assert!(World::new(0, 4).occupancy_bitsets().is_empty());
}
