//! Collision of bodies with the top faces of solid tiles, and the per-tick
//! motion of bodies.

use vstd::arithmetic::div_mod::lemma_fundamental_div_mod;
use vstd::prelude::*;

use crate::math::{
    abs, diff, floor_div, len2, max_by_key, perp, quot, squared_length_of, vector_line_point, within, Point,
    Rect, Vec2, COORD_LIMIT, UNIT,
};
use crate::world::{box_walk, max, min, near_high, near_low, World};

verus! {

/// Whether `a / b <= c / d`, for nonzero `b` and `d`.
pub open spec fn ratio_le(a: int, b: int, c: int, d: int) -> bool {
    if (b > 0) == (d > 0) {
        a * d <= c * b
    } else {
        a * d >= c * b
    }
}

/// The multiple of the normal `p` that clears the overlap `delta`: the
/// smaller of the two axis ratios `delta / p` scales `p`. An axis along
/// which `p` has no component gives no ratio and is left out.
pub open spec fn push_out(delta: Point, p: Point) -> Point {
    if p.0 == 0 {
        (0, delta.1)
    } else if p.1 == 0 {
        (delta.0, 0)
    } else if ratio_le(delta.0, p.0, delta.1, p.1) {
        (delta.0, quot(p.1 * delta.0, p.0))
    } else {
        (quot(p.0 * delta.1, p.1), delta.1)
    }
}

/// How far the rectangle overlaps the segment along each axis: its half
/// extent minus the distance from the segment to its center.
pub open spec fn overlap(start: Point, end: Point, center: Point, half: Point) -> Point {
    let dist = crate::math::offset_from_segment(diff(end, start), diff(center, start));
    (half.0 - abs(dist.0), half.1 - abs(dist.1))
}

/// The correction that moves a rectangle off the segment from `start` to
/// `end`: there is one exactly when the overlap is positive on both axes.
/// A segment of zero length has no normal to push along, and its
/// correction is the zero vector, which never outweighs another.
pub open spec fn collision_correction(start: Point, end: Point, center: Point, half: Point) -> Option<
    Point,
> {
    let delta = overlap(start, end, center, half);
    if delta.0 > 0 && delta.1 > 0 {
        if diff(end, start) == (0int, 0int) {
            Some((0int, 0int))
        } else {
            Some(push_out(delta, perp(diff(end, start))))
        }
    } else {
        None
    }
}

pub open spec fn view_opt(o: Option<Vec2>) -> Option<Point> {
    match o {
        Some(v) => Some(v@),
        None => None,
    }
}

/// A segment in tile space.
#[derive(Debug, Clone, Copy, PartialEq, Eq, Structural)]
pub struct Line {
    pub start: Vec2,
    pub end: Vec2,
}

impl Line {
    pub fn new(start: Vec2, end: Vec2) -> (r: Line)
        ensures
            r.start == start,
            r.end == end,
    {
        Line { start, end }
    }

    /// Whether both ends lie in the range that collision tests accept.
    pub open spec fn in_range(self) -> bool {
        within(self.start@, 2 * COORD_LIMIT) && within(self.end@, 2 * COORD_LIMIT)
    }

    /// The direction vector of this line.
    pub fn dir(self) -> (r: Vec2)
        requires
            self.in_range(),
        ensures
            r@ == diff(self.end@, self.start@),
    {
        Vec2 { x: self.end.x - self.start.x, y: self.end.y - self.start.y }
    }

    /// Tests the rectangle against this segment and returns the correction
    /// that pushes it clear, if they overlap.
    pub fn collide_rect(self, rect: Rect) -> (r: Option<Vec2>)
        requires
            self.in_range(),
            rect.valid(),
        ensures
            view_opt(r) == collision_correction(
                self.start@,
                self.end@,
                rect.center@,
                rect.half_size@,
            ),
    {
        let dir = self.dir();
        let to_center = Vec2 {
            x: rect.center.x - self.start.x,
            y: rect.center.y - self.start.y,
        };
        let dist = vector_line_point(dir, to_center);
        let ax: i64 = if dist.x < 0 { -dist.x } else { dist.x };
        let ay: i64 = if dist.y < 0 { -dist.y } else { dist.y };
        let dx = rect.half_size.x - ax;
        let dy = rect.half_size.y - ay;
        if dx <= 0 || dy <= 0 {
            return None;
        }
        if dir.x == 0 && dir.y == 0 {
            return Some(Vec2::zero());
        }
        let px = -(dir.y as i128);
        let py = dir.x as i128;
        let dx = dx as i128;
        let dy = dy as i128;
        proof {
            crate::math::lemma_product_bound(py as int, dx as int, 0x1_0000_0000, 0x4000_0000);
            crate::math::lemma_product_bound(px as int, dy as int, 0x1_0000_0000, 0x4000_0000);
            crate::math::lemma_product_bound(dx as int, py as int, 0x4000_0000, 0x1_0000_0000);
            crate::math::lemma_product_bound(dy as int, px as int, 0x4000_0000, 0x1_0000_0000);
        }
        if px == 0 {
            Some(Vec2 { x: 0, y: dy as i64 })
        } else if py == 0 {
            Some(Vec2 { x: dx as i64, y: 0 })
        } else {
            let x_first = if (px > 0) == (py > 0) {
                dx * py <= dy * px
            } else {
                dx * py >= dy * px
            };
            if x_first {
                let n = py * dx;
                let q = if px > 0 { n / px } else { (-n) / (-px) };
                proof { crate::math::lemma_quot_shrinks(n as int, px as int); }
                Some(Vec2 { x: dx as i64, y: q as i64 })
            } else {
                let n = px * dy;
                let q = if py > 0 { n / py } else { (-n) / (-py) };
                proof { crate::math::lemma_quot_shrinks(n as int, py as int); }
                Some(Vec2 { x: q as i64, y: dy as i64 })
            }
        }
    }
}

/// The top face of tile `(x, y)`, from its upper left to its upper right corner.
pub open spec fn top_edge(x: int, y: int) -> (Point, Point) {
    ((x * UNIT, (y + 1) * UNIT), ((x + 1) * UNIT, (y + 1) * UNIT))
}

/// The faces of tile `(x, y)` that bodies collide with: its top face only.
pub open spec fn tile_lines(x: int, y: int) -> Seq<(Point, Point)> {
    seq![top_edge(x, y)]
}

/// Whether the faces of tile `(x, y)` lie in the range that collision tests accept.
pub open spec fn tile_in_range(x: int, y: int) -> bool {
    -2 * COORD_LIMIT <= x * UNIT && (x + 1) * UNIT <= 2 * COORD_LIMIT && -2 * COORD_LIMIT <= y
        * UNIT && (y + 1) * UNIT <= 2 * COORD_LIMIT
}

/// The faces of tile `(x, y)` that bodies collide with.
pub fn get_tile_lines(x: isize, y: isize) -> (r: [Line; 1])
    requires
        tile_in_range(x as int, y as int),
    ensures
        r@.len() == tile_lines(x as int, y as int).len(),
        forall|i: int|
            0 <= i < r@.len() ==> (#[trigger] r@[i]).in_range() && (r@[i].start@, r@[i].end@)
                == tile_lines(x as int, y as int)[i],
{
    let x = x as i64;
    let y = y as i64;
    let r = [Line::new(Vec2::new(x * UNIT, (y + 1) * UNIT), Vec2::new((x + 1) * UNIT, (y + 1) * UNIT))];
    assert(r@[0] == r[0]);
    r
}

/// The corrections that `lines` offer to `rect`, in order.
pub open spec fn line_corrections(lines: Seq<(Point, Point)>, rect: Rect) -> Seq<Point>
    decreases lines.len(),
{
    if lines.len() == 0 {
        seq![]
    } else {
        let prev = line_corrections(lines.drop_last(), rect);
        match collision_correction(lines.last().0, lines.last().1, rect.center@, rect.half_size@) {
            Some(c) => prev.push(c),
            None => prev,
        }
    }
}

/// The corrections that the tile at `cell` offers to `rect`: none unless it is solid.
pub open spec fn cell_corrections(world: &World, cell: (int, int), rect: Rect) -> Seq<Point> {
    if world.tile_at(cell.0, cell.1).solid() {
        line_corrections(tile_lines(cell.0, cell.1), rect)
    } else {
        seq![]
    }
}

/// The corrections that the tiles at `cells` offer to `rect`, in order.
pub open spec fn corrections(world: &World, cells: Seq<(int, int)>, rect: Rect) -> Seq<Point>
    decreases cells.len(),
{
    if cells.len() == 0 {
        seq![]
    } else {
        corrections(world, cells.drop_last(), rect) + cell_corrections(world, cells.last(), rect)
    }
}

/// `acc`, unless `c` is strictly longer.
pub open spec fn keep_longer(acc: Point, c: Point) -> Point {
    if len2(acc) < len2(c) {
        c
    } else {
        acc
    }
}

/// The longest of the corrections, the earliest among equally long ones;
/// the zero vector when there are none.
pub open spec fn largest(s: Seq<Point>) -> Point
    decreases s.len(),
{
    if s.len() == 0 {
        (0int, 0int)
    } else {
        keep_longer(largest(s.drop_last()), s.last())
    }
}

/// The correction that terrain applies to a body occupying `rect`.
pub open spec fn resolution(world: &World, rect: Rect) -> Point {
    largest(corrections(world, world.cells_near(rect), rect))
}

proof fn lemma_largest_push(s: Seq<Point>, c: Point)
    ensures
        largest(s.push(c)) == keep_longer(largest(s), c),
{
    assert(s.push(c).drop_last() =~= s);
}

/// A whole number of tiles rounded down is at most the exact one.
proof fn lemma_floor_unit(a: int)
    ensures
        (a / (UNIT as int)) * UNIT <= a,
{
    lemma_fundamental_div_mod(a, UNIT as int);
}

/// Every cell near a rectangle has faces in the range that collision tests accept.
proof fn lemma_cells_near_in_range(world: &World, rect: Rect, i: int)
    requires
        rect.valid(),
        0 <= i < world.cells_near(rect).len(),
    ensures
        world.in_bounds(world.cells_near(rect)[i].0, world.cells_near(rect)[i].1),
        tile_in_range(world.cells_near(rect)[i].0, world.cells_near(rect)[i].1),
{
    let u = UNIT as int;
    let left = near_low(rect.center.x - rect.half_size.x);
    let bottom = near_low(rect.center.y - rect.half_size.y);
    let w = near_high(rect.center.x + rect.half_size.x) - left;
    let h = near_high(rect.center.y + rect.half_size.y) - bottom;
    let x0 = max(left, 0);
    let y0 = max(bottom, 0);
    let cols = max(min(left + w, world.grid_width() as int) - x0, 0);
    let rows = max(min(bottom + h, world.grid_height() as int) - y0, 0);
    assert(world.cells_near(rect) == box_walk(x0, y0, cols, rows));
    assert(cols > 0 && rows > 0) by (nonlinear_arith)
        requires
            0 <= i < cols * rows,
            cols >= 0,
            rows >= 0,
    ;
    lemma_fundamental_div_mod(i, rows);
    let q = i / rows;
    let m = i % rows;
    assert(q < cols) by (nonlinear_arith)
        requires
            i == rows * q + m,
            0 <= m < rows,
            i < cols * rows,
    ;
    lemma_floor_unit(rect.center.x + rect.half_size.x + UNIT + UNIT - 1);
    lemma_floor_unit(rect.center.y + rect.half_size.y + UNIT + UNIT - 1);
    let x = x0 + q;
    let y = y0 + m;
    assert((x + 1) * u <= (left + w) * u) by (nonlinear_arith)
        requires
            x + 1 <= left + w,
            u > 0,
    ;
    assert((y + 1) * u <= (bottom + h) * u) by (nonlinear_arith)
        requires
            y + 1 <= bottom + h,
            u > 0,
    ;
    assert(x * u >= 0 && y * u >= 0) by (nonlinear_arith)
        requires
            x >= 0,
            y >= 0,
            u > 0,
    ;
}

/// Marks a body that collides with terrain, and gives the half extents of its box.
#[derive(Debug, Clone, Copy, PartialEq, Eq, Structural)]
pub struct Collider {
    pub half_size: Vec2,
}

/// The correction a body carries from one tick's detection to the next
/// tick's integration.
#[derive(Debug, Clone, Copy, PartialEq, Eq, Structural)]
pub struct Intersection {
    pub correction: Vec2,
}

/// Where a body stands in tile space: its exact position and the tile it
/// is in, each coordinate rounded down.
#[derive(Debug, Clone, Copy)]
pub struct WorldTransform {
    pub translation: Vec2,
    pub tile_position: (isize, isize),
}

/// A body's velocity, in `UNIT` steps per second.
#[derive(Debug, Clone, Copy, PartialEq, Eq, Structural)]
pub struct Rigidbody {
    pub motion: Vec2,
}

/// Detects the terrain under the body whose box is `rect` and stores the
/// largest correction that a solid tile's face offers, or the zero vector
/// when none does.
pub fn collide_with_world(world: &World, rect: Rect, intersection: &mut Intersection)
    requires
        world.wf(),
        rect.valid(),
    ensures
        final(intersection).correction@ == resolution(world, rect),
{
    let tiles = world.get_rendered_in_rect(rect);
    let ghost cells = world.cells_near(rect);
    let mut max_correction = Vec2::zero();
    let mut k: usize = 0;
    while k < tiles.len()
        invariant
            world.wf(),
            rect.valid(),
            cells == world.cells_near(rect),
            world.renders_all(tiles@, cells),
            k <= tiles@.len(),
            max_correction@ == largest(corrections(world, cells.take(k as int), rect)),
        decreases tiles@.len() - k,
    {
        let tile = tiles[k];
        let ghost cell = cells[k as int];
        proof {
            lemma_cells_near_in_range(world, rect, k as int);
            assert(cells.take(k + 1).drop_last() =~= cells.take(k as int));
        }
        if tile.tile.has_collider() {
            let lines = get_tile_lines(tile.pos.0, tile.pos.1);
            let ghost before = corrections(world, cells.take(k as int), rect);
            let ghost all = tile_lines(cell.0, cell.1);
            let mut j: usize = 0;
            while j < lines.len()
                invariant
                    rect.valid(),
                    lines@.len() == all.len(),
                    forall|i: int|
                        0 <= i < lines@.len() ==> (#[trigger] lines@[i]).in_range() && (
                        lines@[i].start@,
                        lines@[i].end@,
                    ) == all[i],
                    j <= lines@.len(),
                    max_correction@ == largest(before + line_corrections(all.take(j as int), rect)),
                decreases lines@.len() - j,
            {
                let line = lines[j];
                proof {
                    assert(all.take(j + 1).drop_last() =~= all.take(j as int));
                }
                if let Some(correction) = line.collide_rect(rect) {
                    proof {
                        assert(before + line_corrections(all.take(j + 1), rect) =~= (before
                            + line_corrections(all.take(j as int), rect)).push(correction@));
                        lemma_largest_push(
                            before + line_corrections(all.take(j as int), rect),
                            correction@,
                        );
                    }
                    max_correction = max_by_key(max_correction, correction, squared_length_of);
                } else {
                    assert(before + line_corrections(all.take(j + 1), rect) =~= before
                        + line_corrections(all.take(j as int), rect));
                }
                j = j + 1;
            }
            assert(all.take(lines@.len() as int) =~= all);
        } else {
            assert(corrections(world, cells.take(k + 1), rect) =~= corrections(
                world,
                cells.take(k as int),
                rect,
            ));
        }
        k = k + 1;
    }
    assert(cells.take(tiles@.len() as int) =~= cells);
    intersection.correction = max_correction;
}

/// A rectangle that the segment does not overlap on both axes gets no correction.
pub proof fn lemma_no_overlap_no_correction(start: Point, end: Point, center: Point, half: Point)
    requires
        overlap(start, end, center, half).0 <= 0 || overlap(start, end, center, half).1 <= 0,
    ensures
        collision_correction(start, end, center, half) is None,
{
}

/// The kept correction is at least as long as every candidate, and is the
/// first candidate of its length; with no candidate of positive length it is
/// the zero vector.
pub proof fn lemma_largest_is_first_longest(s: Seq<Point>)
    ensures
        forall|i: int| 0 <= i < s.len() ==> len2(#[trigger] s[i]) <= len2(largest(s)),
        largest(s) == (0int, 0int) || exists|j: int|
            0 <= j < s.len() && largest(s) == s[j] && forall|i: int|
                0 <= i < j ==> len2(#[trigger] s[i]) < len2(largest(s)),
    decreases s.len(),
{
    if s.len() > 0 {
        let p = s.drop_last();
        lemma_largest_is_first_longest(p);
        let prev = largest(p);
        let c = s.last();
        assert forall|i: int| 0 <= i < s.len() implies len2(#[trigger] s[i]) <= len2(largest(s)) by {
            if i < s.len() - 1 {
                assert(s[i] == p[i]);
            }
        }
        if len2(prev) < len2(c) {
            assert forall|i: int| 0 <= i < s.len() - 1 implies len2(#[trigger] s[i]) < len2(largest(s)) by {
                assert(s[i] == p[i]);
            }
        } else if prev != (0int, 0int) {
            let j = choose|j: int|
                0 <= j < p.len() && prev == p[j] && forall|i: int|
                    0 <= i < j ==> len2(#[trigger] p[i]) < len2(prev);
            assert forall|i: int| 0 <= i < j implies len2(#[trigger] s[i]) < len2(largest(s)) by {
                assert(s[i] == p[i]);
            }
            assert(largest(s) == s[j]);
        }
    }
}

/// A correction detected in one tick does not move the body in that tick;
/// the next tick applies it, on top of the body's motion.
pub proof fn lemma_one_tick_latency(world: &World, b0: Body, b1: Body, b2: Body, dt1: int, dt2: int)
    requires
        ticked(world, b0, b1, dt1),
        ticked(world, b1, b2, dt2),
    ensures
        b1.position@ == plus(moved(b0.position@, b0.rigidbody.motion@, dt1), b0.intersection.correction@),
        b2.position@ == plus(moved(b1.position@, b1.rigidbody.motion@, dt2), b1.intersection.correction@),
        b1.intersection.correction@ == resolution(world, box_at(b1.position@, b0)),
{
}

/// Microseconds per second: the time base of motion.
pub const MICROS_PER_SECOND: i64 = 1_000_000;

/// Distance covered in `dt` microseconds at `v` steps per second, rounded
/// toward zero.
pub open spec fn motion_step(v: int, dt: int) -> int {
    quot(v * dt, MICROS_PER_SECOND as int)
}

pub open spec fn moved(p: Point, v: Point, dt: int) -> Point {
    (p.0 + motion_step(v.0, dt), p.1 + motion_step(v.1, dt))
}

pub open spec fn plus(a: Point, b: Point) -> Point {
    (a.0 + b.0, a.1 + b.1)
}

/// Whether both coordinates fit an `i64`.
pub open spec fn fits(p: Point) -> bool {
    i64::MIN <= p.0 <= i64::MAX && i64::MIN <= p.1 <= i64::MAX
}

/// Advances `position` by `body`'s velocity over `dt_micros` microseconds.
pub fn apply_motion(position: Vec2, body: &Rigidbody, dt_micros: u32) -> (r: Vec2)
    requires
        fits(moved(position@, body.motion@, dt_micros as int)),
    ensures
        r@ == moved(position@, body.motion@, dt_micros as int),
{
    let dt = dt_micros as i128;
    let mx = body.motion.x as i128;
    let my = body.motion.y as i128;
    proof {
        crate::math::lemma_product_bound(mx as int, dt as int, 0x8000_0000_0000_0000, 0x1_0000_0000);
        crate::math::lemma_product_bound(my as int, dt as int, 0x8000_0000_0000_0000, 0x1_0000_0000);
    }
    let sx = mx * dt / MICROS_PER_SECOND as i128;
    let sy = my * dt / MICROS_PER_SECOND as i128;
    Vec2 { x: (position.x as i128 + sx) as i64, y: (position.y as i128 + sy) as i64 }
}

/// Moves `position` by the correction that the last detection stored.
pub fn apply_corrections(position: Vec2, intersection: &Intersection) -> (r: Vec2)
    requires
        fits(plus(position@, intersection.correction@)),
    ensures
        r@ == plus(position@, intersection.correction@),
{
    if intersection.correction.x == 0 && intersection.correction.y == 0 {
        return position;
    }
    Vec2 {
        x: position.x + intersection.correction.x,
        y: position.y + intersection.correction.y,
    }
}

/// Clears the stored correction ahead of a new detection.
pub fn reset_intersections(intersection: &mut Intersection)
    ensures
        final(intersection).correction@ == (0int, 0int),
{
    intersection.correction = Vec2::zero();
}

/// A position in the coordinate range lies in a tile whose number fits `isize`.
proof fn lemma_floor_tile_bound(a: int)
    requires
        -COORD_LIMIT <= a <= COORD_LIMIT,
    ensures
        -COORD_LIMIT <= a / (UNIT as int) <= COORD_LIMIT / UNIT,
{
    lemma_fundamental_div_mod(a, UNIT as int);
}

/// The tile-space transform of a body at `position`.
pub fn set_world_transform(position: Vec2) -> (r: WorldTransform)
    requires
        within(position@, COORD_LIMIT as int),
    ensures
        r.translation == position,
        r.tile_position.0 == position.x as int / UNIT as int,
        r.tile_position.1 == position.y as int / UNIT as int,
{
    let tx = floor_div(position.x, UNIT);
    let ty = floor_div(position.y, UNIT);
    proof {
        lemma_floor_tile_bound(position.x as int);
        lemma_floor_tile_bound(position.y as int);
    }
    WorldTransform { translation: position, tile_position: (tx as isize, ty as isize) }
}

/// A body that moves through the world and collides with its terrain.
#[derive(Debug, Clone, Copy)]
pub struct Body {
    /// Position in tile space, the center of the body's box.
    pub position: Vec2,
    pub transform: WorldTransform,
    pub rigidbody: Rigidbody,
    pub collider: Collider,
    pub intersection: Intersection,
}

/// Where a tick leaves a body: moved by its velocity, then by the
/// correction that the previous tick detected.
pub open spec fn tick_position(b: Body, dt: int) -> Point {
    plus(moved(b.position@, b.rigidbody.motion@, dt), b.intersection.correction@)
}

/// The body's box when centered at `p`.
pub open spec fn box_at(p: Point, b: Body) -> Rect {
    Rect { center: Vec2 { x: p.0 as i64, y: p.1 as i64 }, half_size: b.collider.half_size }
}

/// Whether a tick of `dt` microseconds in `world` may start from `b`: every
/// position it computes fits, and the body's box ends inside the
/// coordinate range.
pub open spec fn can_tick(b: Body, dt: int) -> bool {
    &&& fits(moved(b.position@, b.rigidbody.motion@, dt))
    &&& crate::math::rect_valid(tick_position(b, dt), b.collider.half_size@)
}

/// Whether `after` is `before` advanced by one tick of `dt` microseconds:
/// integration applies the correction stored by the previous tick, and
/// detection then stores a new one, which this tick leaves unapplied.
pub open spec fn ticked(world: &World, before: Body, after: Body, dt: int) -> bool {
    &&& after.position@ == tick_position(before, dt)
    &&& after.transform.translation == after.position
    &&& after.transform.tile_position.0 == after.position.x as int / UNIT as int
    &&& after.transform.tile_position.1 == after.position.y as int / UNIT as int
    &&& after.rigidbody == before.rigidbody
    &&& after.collider == before.collider
    &&& after.intersection.correction@ == resolution(world, box_at(after.position@, before))
}

/// Whether `apply_motion` may move `position` by `body`'s velocity over
/// `dt_micros` microseconds.
pub fn motion_fits(position: Vec2, body: &Rigidbody, dt_micros: u32) -> (r: bool)
    ensures
        r == fits(moved(position@, body.motion@, dt_micros as int)),
{
    let dt = dt_micros as i128;
    let mx = body.motion.x as i128;
    let my = body.motion.y as i128;
    proof {
        crate::math::lemma_product_bound(mx as int, dt as int, 0x8000_0000_0000_0000, 0x1_0000_0000);
        crate::math::lemma_product_bound(my as int, dt as int, 0x8000_0000_0000_0000, 0x1_0000_0000);
    }
    let x = position.x as i128 + mx * dt / MICROS_PER_SECOND as i128;
    let y = position.y as i128 + my * dt / MICROS_PER_SECOND as i128;
    i64::MIN as i128 <= x && x <= i64::MAX as i128 && i64::MIN as i128 <= y && y <= i64::MAX as i128
}

/// Whether `physics_tick` may advance `body` by `dt_micros` microseconds.
pub fn tick_fits(body: &Body, dt_micros: u32) -> (r: bool)
    ensures
        r == can_tick(*body, dt_micros as int),
{
    if !motion_fits(body.position, &body.rigidbody, dt_micros) {
        return false;
    }
    let moved = apply_motion(body.position, &body.rigidbody, dt_micros);
    let x = moved.x as i128 + body.intersection.correction.x as i128;
    let y = moved.y as i128 + body.intersection.correction.y as i128;
    if x < i64::MIN as i128 || x > i64::MAX as i128 || y < i64::MIN as i128 || y > i64::MAX as i128 {
        return false;
    }
    let center = Vec2 { x: x as i64, y: y as i64 };
    Rect::from_center_half_size(center, body.collider.half_size).is_some()
}

/// One fixed tick for one body: integration, the tile-space transform, a
/// reset of the stored correction, and detection.
pub fn physics_tick(world: &World, body: &mut Body, dt_micros: u32)
    requires
        world.wf(),
        can_tick(*old(body), dt_micros as int),
    ensures
        ticked(world, *old(body), *final(body), dt_micros as int),
{
    let moved = apply_motion(body.position, &body.rigidbody, dt_micros);
    body.position = apply_corrections(moved, &body.intersection);
    body.transform = set_world_transform(body.position);
    reset_intersections(&mut body.intersection);
    let rect = Rect { center: body.position, half_size: body.collider.half_size };
    assert(rect == box_at(body.position@, *old(body)));
    collide_with_world(world, rect, &mut body.intersection);
}

} // verus!
