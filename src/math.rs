//! Fixed-point vectors and rectangles in tile space, and the closest-point
//! query that collision testing is built on.

use vstd::arithmetic::div_mod::{
    lemma_div_by_multiple, lemma_div_is_ordered, lemma_div_is_ordered_by_denominator,
    lemma_div_pos_is_pos, lemma_fundamental_div_mod, lemma_fundamental_div_mod_converse,
};
use vstd::prelude::*;

verus! {

/// Steps per tile of a fixed-point tile-space coordinate.
pub const UNIT: i64 = 256;

/// Largest magnitude of a coordinate that a rectangle may reach: 2^30 steps,
/// 4,194,304 tiles. Collision products of such coordinates fit `i128`, and
/// corrections fit `i64`; a grid wider or higher than this still reads and
/// edits as usual, but bodies beyond this range cannot collide.
pub const COORD_LIMIT: i64 = 1_073_741_824;

/// Rounds the quotient `a / b` toward zero, for any nonzero `b`.
pub open spec fn quot(a: int, b: int) -> int {
    if b > 0 {
        if a >= 0 { a / b } else { -((-a) / b) }
    } else {
        if a <= 0 { (-a) / (-b) } else { -(a / (-b)) }
    }
}

pub open spec fn abs(a: int) -> int {
    if a < 0 { -a } else { a }
}

/// A vector of the plane with integer coordinates.
pub type Point = (int, int);

pub open spec fn dot(a: Point, b: Point) -> int {
    a.0 * b.0 + a.1 * b.1
}

/// Squared length; it orders vectors as their length does.
pub open spec fn len2(a: Point) -> int {
    dot(a, a)
}

pub open spec fn diff(a: Point, b: Point) -> Point {
    (a.0 - b.0, a.1 - b.1)
}

/// The vector turned a quarter turn counter-clockwise.
pub open spec fn perp(a: Point) -> Point {
    (-a.1, a.0)
}

pub open spec fn within(a: Point, limit: int) -> bool {
    -limit <= a.0 <= limit && -limit <= a.1 <= limit
}

/// Shortest vector from the segment that goes from the origin to `line` to
/// `point`. Inside the segment the foot of the perpendicular is rounded
/// toward zero; past either end the nearer endpoint is taken, the origin when
/// both are as near.
pub open spec fn offset_from_segment(line: Point, point: Point) -> Point {
    if line == (0int, 0int) {
        point
    } else {
        let d = dot(line, point);
        let l = len2(line);
        if d <= 0 || d >= l {
            if len2(point) <= len2(diff(point, line)) {
                point
            } else {
                diff(point, line)
            }
        } else {
            (point.0 - quot(line.0 * d, l), point.1 - quot(line.1 * d, l))
        }
    }
}

/// A fixed-point vector in tile space.
#[derive(Debug, Clone, Copy, PartialEq, Eq, Structural)]
pub struct Vec2 {
    pub x: i64,
    pub y: i64,
}

impl View for Vec2 {
    type V = Point;

    open spec fn view(&self) -> Point {
        (self.x as int, self.y as int)
    }
}

impl Vec2 {
    pub fn new(x: i64, y: i64) -> (r: Vec2)
        ensures
            r.x == x,
            r.y == y,
    {
        Vec2 { x, y }
    }

    pub fn zero() -> (r: Vec2)
        ensures
            r@ == (0int, 0int),
    {
        Vec2 { x: 0, y: 0 }
    }

    /// Whether both coordinates lie in `-limit..=limit`.
    pub fn is_within(self, limit: i64) -> (r: bool)
        ensures
            r == within(self@, limit as int),
    {
        -(limit as i128) <= self.x as i128 && self.x as i128 <= limit as i128
            && -(limit as i128) <= self.y as i128 && self.y as i128 <= limit as i128
    }

    /// Squared length.
    pub fn length_squared(self) -> (r: u128)
        ensures
            r == len2(self@),
    {
        let x = self.x as i128;
        let y = self.y as i128;
        proof {
            assert(0 <= x * x <= 0x4000_0000_0000_0000_0000_0000_0000_0000) by (nonlinear_arith)
                requires
                    -0x8000_0000_0000_0000 <= x <= 0x7fff_ffff_ffff_ffff,
            ;
            assert(0 <= y * y <= 0x4000_0000_0000_0000_0000_0000_0000_0000) by (nonlinear_arith)
                requires
                    -0x8000_0000_0000_0000 <= y <= 0x7fff_ffff_ffff_ffff,
            ;
        }
        (x * x) as u128 + (y * y) as u128
    }
}

/// An axis-aligned rectangle given by its center and its half extents.
#[derive(Debug, Clone, Copy, PartialEq, Eq, Structural)]
pub struct Rect {
    pub center: Vec2,
    pub half_size: Vec2,
}

/// A rectangle with non-negative extents that lies within the coordinate range.
pub open spec fn rect_valid(center: Point, half: Point) -> bool {
    &&& half.0 >= 0
    &&& half.1 >= 0
    &&& -COORD_LIMIT <= center.0 - half.0
    &&& center.0 + half.0 <= COORD_LIMIT
    &&& -COORD_LIMIT <= center.1 - half.1
    &&& center.1 + half.1 <= COORD_LIMIT
}

impl Rect {
    pub open spec fn valid(self) -> bool {
        rect_valid(self.center@, self.half_size@)
    }

    /// The rectangle centered at `center` reaching `half_size` to each side,
    /// or `None` when an extent is negative or it leaves the coordinate range.
    pub fn from_center_half_size(center: Vec2, half_size: Vec2) -> (r: Option<Rect>)
        ensures
            r is Some <==> rect_valid(center@, half_size@),
            r is Some ==> r->0.center == center && r->0.half_size == half_size,
    {
        let cx = center.x as i128;
        let cy = center.y as i128;
        let hx = half_size.x as i128;
        let hy = half_size.y as i128;
        let lim = COORD_LIMIT as i128;
        if hx >= 0 && hy >= 0 && -lim <= cx - hx && cx + hx <= lim && -lim <= cy - hy && cy + hy
            <= lim {
            Some(Rect { center, half_size })
        } else {
            None
        }
    }

    /// The corner with the smallest coordinates.
    pub fn min(self) -> (r: Vec2)
        requires
            self.valid(),
        ensures
            r@ == diff(self.center@, self.half_size@),
    {
        Vec2 { x: self.center.x - self.half_size.x, y: self.center.y - self.half_size.y }
    }

    pub fn width(self) -> (r: i64)
        requires
            self.valid(),
        ensures
            r == 2 * self.half_size.x,
    {
        2 * self.half_size.x
    }

    pub fn height(self) -> (r: i64)
        requires
            self.valid(),
        ensures
            r == 2 * self.half_size.y,
    {
        2 * self.half_size.y
    }
}

/// `a / d` rounded down, for a positive `d`.
pub fn floor_div(a: i64, d: i64) -> (r: i64)
    requires
        d > 0,
        a > i64::MIN,
    ensures
        r == a as int / d as int,
{
    if a >= 0 {
        a / d
    } else {
        let n = -(a as i128);
        let q = (n + (d as i128 - 1)) / d as i128;
        proof {
            let ni = n as int;
            let di = d as int;
            lemma_fundamental_div_mod(ni, di);
            let k = ni / di;
            let m = ni % di;
            assert(a == (-k) * di - m) by (nonlinear_arith)
                requires
                    ni == di * k + m,
                    a == -ni,
            ;
            lemma_div_pos_is_pos(ni, di);
            if m == 0 {
                assert(ni + di - 1 == k * di + (di - 1) && k <= ni) by (nonlinear_arith)
                    requires
                        ni == di * k,
                        di >= 1,
                        k >= 0,
                ;
                lemma_fundamental_div_mod_converse(ni + di - 1, di, k, di - 1);
                lemma_fundamental_div_mod_converse(a as int, di, -k, 0);
            } else {
                assert(a == (-k - 1) * di + (di - m) && ni + di - 1 == (k + 1) * di + (m - 1))
                    by (nonlinear_arith)
                    requires
                        a == (-k) * di - m,
                        ni == di * k + m,
                ;
                assert(k + 1 <= ni) by (nonlinear_arith)
                    requires
                        ni == di * k + m,
                        di >= 1,
                        m >= 1,
                        k >= 0,
                ;
                lemma_fundamental_div_mod_converse(ni + di - 1, di, k + 1, m - 1);
                lemma_fundamental_div_mod_converse(a as int, di, -k - 1, di - m);
            }
        }
        -(q as i64)
    }
}

/// Squared length of a borrowed vector: the key by which vectors are compared.
pub fn squared_length_of(v: &Vec2) -> (r: u128)
    ensures
        r == len2(v@),
{
    v.length_squared()
}

pub proof fn lemma_product_bound(a: int, b: int, ma: int, mb: int)
    requires
        -ma <= a <= ma,
        -mb <= b <= mb,
    ensures
        -(ma * mb) <= a * b <= ma * mb,
{
    assert(abs(a) * abs(b) <= ma * abs(b)) by (nonlinear_arith)
        requires
            0 <= abs(a) <= ma,
            0 <= abs(b),
    ;
    assert(ma * abs(b) <= ma * mb) by (nonlinear_arith)
        requires
            0 <= abs(b) <= mb,
            0 <= ma,
    ;
    assert(abs(a * b) == abs(a) * abs(b)) by (nonlinear_arith);
}

/// Dividing by a nonzero integer, rounding toward zero, never grows a magnitude.
pub proof fn lemma_quot_shrinks(a: int, b: int)
    requires
        b != 0,
    ensures
        abs(quot(a, b)) <= abs(a),
{
    let m = abs(a);
    let n = abs(b);
    lemma_div_pos_is_pos(m, n);
    assert(m / n <= m) by {
        lemma_div_is_ordered_by_denominator(m, 1, n);
    }
}

/// A share `d / l` (strictly between 0 and 1) of `a`, rounded toward zero,
/// is no larger than `a`.
proof fn lemma_share_bound(a: int, d: int, l: int)
    requires
        0 < d < l,
    ensures
        abs(quot(a * d, l)) <= abs(a),
{
    let m = abs(a);
    assert(0 <= m * d <= m * l) by (nonlinear_arith)
        requires
            0 <= m,
            0 < d < l,
    ;
    lemma_div_is_ordered(m * d, m * l, l);
    lemma_div_by_multiple(m, l);
    lemma_div_pos_is_pos(m * d, l);
    if a >= 0 {
        assert(a * d >= 0) by (nonlinear_arith)
            requires
                a >= 0,
                d > 0,
        ;
    } else {
        assert(a * d < 0 && -(a * d) == m * d) by (nonlinear_arith)
            requires
                a < 0,
                d > 0,
                m == -a,
        ;
    }
}

/// Shortest vector from the segment that runs from the origin to `line` to
/// `point`; see [`offset_from_segment`].
pub fn vector_line_point(line: Vec2, point: Vec2) -> (r: Vec2)
    requires
        within(line@, 4 * COORD_LIMIT),
        within(point@, 4 * COORD_LIMIT),
    ensures
        r@ == offset_from_segment(line@, point@),
        within(r@, 8 * COORD_LIMIT),
{
    if line.x == 0 && line.y == 0 {
        return point;
    }
    let end_offset = Vec2 { x: point.x - line.x, y: point.y - line.y };
    let lx = line.x as i128;
    let ly = line.y as i128;
    let px = point.x as i128;
    let py = point.y as i128;
    proof {
        lemma_product_bound(lx as int, px as int, 0x1_0000_0000, 0x1_0000_0000);
        lemma_product_bound(ly as int, py as int, 0x1_0000_0000, 0x1_0000_0000);
        lemma_product_bound(lx as int, lx as int, 0x1_0000_0000, 0x1_0000_0000);
        lemma_product_bound(ly as int, ly as int, 0x1_0000_0000, 0x1_0000_0000);
        assert(lx * lx >= 0 && ly * ly >= 0) by (nonlinear_arith);
    }
    let d = lx * px + ly * py;
    let l = lx * lx + ly * ly;
    if d <= 0 || d >= l {
        return min_by_key(
            point,
            end_offset,
            squared_length_of,
        );
    }
    proof {
        lemma_product_bound(lx as int, d as int, 0x1_0000_0000, 0x2_0000_0000_0000_0000);
        lemma_product_bound(ly as int, d as int, 0x1_0000_0000, 0x2_0000_0000_0000_0000);
        lemma_share_bound(lx as int, d as int, l as int);
        lemma_share_bound(ly as int, d as int, l as int);
    }
    let fx = (lx * d) / l;
    let fy = (ly * d) / l;
    Vec2 { x: (px - fx) as i64, y: (py - fy) as i64 }
}

/// Of `a` and `b`, the one with the smaller key; `a` when the keys are equal.
pub fn min_by_key<T, F: Fn(&T) -> u128>(a: T, b: T, key: F) -> (r: T)
    requires
        key.requires((&a,)),
        key.requires((&b,)),
    ensures
        exists|ka: u128, kb: u128|
            key.ensures((&a,), ka) && key.ensures((&b,), kb) && r == (if ka <= kb {
                a
            } else {
                b
            }),
{
    let ka = key(&a);
    let kb = key(&b);
    if ka <= kb {
        a
    } else {
        b
    }
}

/// Of `a` and `b`, the one with the larger key; `a` when the keys are equal.
pub fn max_by_key<T, F: Fn(&T) -> u128>(a: T, b: T, key: F) -> (r: T)
    requires
        key.requires((&a,)),
        key.requires((&b,)),
    ensures
        exists|ka: u128, kb: u128|
            key.ensures((&a,), ka) && key.ensures((&b,), kb) && r == (if ka >= kb {
                a
            } else {
                b
            }),
{
    let ka = key(&a);
    let kb = key(&b);
    if ka >= kb {
        a
    } else {
        b
    }
}

} // verus!
