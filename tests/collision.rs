use tile_terrain::math::{max_by_key, min_by_key, squared_length_of, vector_line_point, Rect, Vec2};
use tile_terrain::physics::{
    apply_corrections, apply_motion, collide_with_world, get_tile_lines, physics_tick,
    reset_intersections, set_world_transform, Body, Collider, Intersection, Line, Rigidbody,
};
use tile_terrain::world::{World, WorldTile};

fn v(x: i64, y: i64) -> Vec2 {
    Vec2::new(x, y)
}

fn rect(cx: i64, cy: i64, hx: i64, hy: i64) -> Rect {
    Rect::from_center_half_size(v(cx, cy), v(hx, hy)).unwrap()
}

#[test]
fn offset_from_a_point_line() {
    assert_eq!(vector_line_point(v(0, 0), v(3, 4)), v(3, 4));
}

#[test]
fn offset_inside_the_segment() {
    assert_eq!(vector_line_point(v(256, 0), v(128, -154)), v(0, -154));
    assert_eq!(vector_line_point(v(256, 256), v(256, 0)), v(128, -128));
}

#[test]
fn offset_past_either_end_takes_the_nearer_endpoint() {
    assert_eq!(vector_line_point(v(256, 0), v(-10, 5)), v(-10, 5));
    assert_eq!(vector_line_point(v(256, 0), v(300, 5)), v(44, 5));
    assert_eq!(vector_line_point(v(256, 0), v(256, 7)), v(0, 7));
}

#[test]
fn offset_rounds_toward_zero() {
    assert_eq!(vector_line_point(v(3, 1), v(1, 2)), v(0, 2));
    assert_eq!(vector_line_point(v(-3, 1), v(-1, 2)), v(0, 2));
}

#[test]
fn key_selection_keeps_the_first_on_ties() {
    assert_eq!(min_by_key(v(3, 4), v(-4, 3), squared_length_of), v(3, 4));
    assert_eq!(max_by_key(v(3, 4), v(-4, 3), squared_length_of), v(3, 4));
    assert_eq!(min_by_key(v(3, 4), v(1, 1), squared_length_of), v(1, 1));
    assert_eq!(max_by_key(v(1, 1), v(3, 4), squared_length_of), v(3, 4));
    assert_eq!(v(3, 4).length_squared(), 25);
}

#[test]
fn tile_face_is_its_top_edge() {
    let lines = get_tile_lines(5, 5);
    assert_eq!(lines.len(), 1);
    assert_eq!(lines[0].start, v(1280, 1536));
    assert_eq!(lines[0].end, v(1536, 1536));
    assert_eq!(lines[0].dir(), v(256, 0));
}

#[test]
fn collision_concrete_scenario() {
    let top = get_tile_lines(5, 5)[0];
    // A unit box centered at (5.5, 5.4) reaches up to 5.9: the face at 6 is clear.
    assert_eq!(top.collide_rect(rect(1408, 1382, 128, 128)), None);
    // Centered at (5.5, 5.75) it overlaps the face by half a tile minus a quarter.
    assert_eq!(top.collide_rect(rect(1408, 1472, 128, 128)), Some(v(0, 64)));
    // Above the face the push is upward as well.
    assert_eq!(top.collide_rect(rect(1408, 1600, 128, 128)), Some(v(0, 64)));
}

#[test]
fn collision_negative_case() {
    let top = get_tile_lines(5, 5)[0];
    assert_eq!(top.collide_rect(rect(0, 0, 128, 128)), None);
    assert_eq!(top.collide_rect(rect(1408, 1536 + 128, 128, 128)), None);
    assert_eq!(top.collide_rect(rect(1536 + 128, 1536, 128, 128)), None);
}

#[test]
fn collision_with_a_vertical_line() {
    let line = Line::new(v(0, 0), v(0, 256));
    assert_eq!(line.collide_rect(rect(50, 128, 100, 100)), Some(v(50, 0)));
}

#[test]
fn collision_with_a_diagonal_line() {
    let line = Line::new(v(0, 0), v(256, 256));
    assert_eq!(line.collide_rect(rect(256, 0, 200, 200)), Some(v(72, -72)));
}

#[test]
fn collision_with_a_degenerate_line() {
    let line = Line::new(v(10, 10), v(10, 10));
    assert_eq!(line.collide_rect(rect(10, 10, 100, 100)), Some(v(0, 0)));
    assert_eq!(line.collide_rect(rect(200, 10, 100, 100)), None);
}

#[test]
fn resolver_keeps_the_strictly_longer_correction() {
    let mut w = World::new(10, 10);
    w.set(4, 4, WorldTile::Dirt);
    w.set(5, 5, WorldTile::Dirt);
    let mut i = Intersection { correction: v(0, 0) };
    collide_with_world(&w, rect(1280, 1440, 256, 256), &mut i);
    assert_eq!(i.correction, v(0, 160));
}

#[test]
fn resolver_keeps_the_first_of_equal_corrections() {
    let mut w = World::new(10, 10);
    w.set(4, 5, WorldTile::Dirt);
    w.set(5, 5, WorldTile::Dirt);
    let mut i = Intersection { correction: v(0, 0) };
    collide_with_world(&w, rect(1280, 1472, 256, 256), &mut i);
    assert_eq!(i.correction, v(0, 192));
}

#[test]
fn resolver_without_contact_stores_zero() {
    let w = World::new(10, 10);
    let mut i = Intersection { correction: v(3, 3) };
    collide_with_world(&w, rect(1280, 1440, 256, 256), &mut i);
    assert_eq!(i.correction, v(0, 0));
}

#[test]
fn reset_clears_the_correction() {
    let mut i = Intersection { correction: v(3, 3) };
    reset_intersections(&mut i);
    assert_eq!(i.correction, v(0, 0));
}

#[test]
fn resolver_replaces_an_old_correction() {
    let mut w = World::new(10, 10);
    w.set(5, 5, WorldTile::Dirt);
    let mut i = Intersection { correction: v(0, 500) };
    collide_with_world(&w, rect(1408, 1472, 128, 128), &mut i);
    assert_eq!(i.correction, v(0, 64));
}

#[test]
fn motion_and_corrections() {
    let body = Rigidbody { motion: v(0, -1024) };
    assert_eq!(apply_motion(v(100, 1000), &body, 250_000), v(100, 744));
    let slow = Rigidbody { motion: v(-3, 3) };
    assert_eq!(apply_motion(v(0, 0), &slow, 500_000), v(-1, 1));
    let i = Intersection { correction: v(0, 64) };
    assert_eq!(apply_corrections(v(5, 5), &i), v(5, 69));
}

#[test]
fn world_transform_rounds_down() {
    let t = set_world_transform(v(1300, -300));
    assert_eq!(t.translation, v(1300, -300));
    assert_eq!(t.tile_position, (5, -2));
    assert_eq!(set_world_transform(v(-1, 0)).tile_position, (-1, 0));
    assert_eq!(set_world_transform(v(-256, 256)).tile_position, (-1, 1));
    assert_eq!(set_world_transform(v(-257, 255)).tile_position, (-2, 0));
}

#[test]
fn corrections_take_effect_one_tick_later() {
    let mut w = World::new(10, 10);
    w.set(5, 5, WorldTile::Dirt);
    let mut body = Body {
        position: v(1408, 1472),
        transform: set_world_transform(v(1408, 1472)),
        rigidbody: Rigidbody { motion: v(0, 0) },
        collider: Collider { half_size: v(128, 128) },
        intersection: Intersection { correction: v(0, 0) },
    };
    physics_tick(&w, &mut body, 16_000);
    assert_eq!(body.position, v(1408, 1472));
    assert_eq!(body.intersection.correction, v(0, 64));
    physics_tick(&w, &mut body, 16_000);
    assert_eq!(body.position, v(1408, 1536));
    assert_eq!(body.transform.tile_position, (5, 6));
    assert_eq!(body.intersection.correction, v(0, 128));
}

#[test]
fn tick_moves_then_detects() {
    let w = World::generate(10, 10, &vec![3; 10]);
    let mut body = Body {
        position: v(1280, 1000),
        transform: set_world_transform(v(1280, 1000)),
        rigidbody: Rigidbody { motion: v(0, -256) },
        collider: Collider { half_size: v(128, 128) },
        intersection: Intersection { correction: v(7, 7) },
    };
    physics_tick(&w, &mut body, 1_000_000);
    assert_eq!(body.position, v(1287, 751));
    assert_eq!(body.intersection.correction, v(0, 111));
}

#[test]
fn offset_far_from_the_origin() {
    let big = 1i64 << 32;
    assert_eq!(vector_line_point(v(big, big), v(big, 0)), v(big / 2, -big / 2));
    assert_eq!(vector_line_point(v(-big, big), v(big, big)), v(big, big));
}

#[test]
fn collision_far_from_the_origin() {
    let x = 1_000_000_000;
    let top = Line::new(v(x, 0), v(x + 256, 0));
    assert_eq!(top.collide_rect(rect(x + 128, -64, 128, 128)), Some(v(0, 64)));
    assert_eq!(top.collide_rect(rect(x + 128, -200, 128, 128)), None);
}
