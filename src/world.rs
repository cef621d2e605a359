//! The tile grid: bounds-checked addressing, edge-aware reads, and the
//! edits that generation and brushes make.

use vstd::arithmetic::div_mod::lemma_fundamental_div_mod_converse;
use vstd::prelude::*;

use crate::math::{abs, floor_div, lemma_product_bound, Rect, COORD_LIMIT, UNIT};

verus! {

/// One cell of the grid.
#[derive(Debug, Clone, Copy, PartialEq, Eq, Structural)]
pub enum WorldTile {
    Air,
    Dirt,
}

impl Default for WorldTile {
    fn default() -> (r: WorldTile)
        ensures
            r == WorldTile::Air,
    {
        WorldTile::Air
    }
}

impl WorldTile {
    /// Whether the tile is solid: every kind but air is.
    pub open spec fn solid(self) -> bool {
        self != WorldTile::Air
    }

    /// Whether the tile is anything but air.
    pub fn is_not_air(self) -> (r: bool)
        ensures
            r == self.solid(),
    {
        !matches!(self, WorldTile::Air)
    }

    /// Whether bodies collide with this tile.
    pub fn has_collider(self) -> (r: bool)
        ensures
            r == self.solid(),
    {
        self.is_not_air()
    }
}

/// Distinct in-grid coordinates have distinct cell indices.
pub proof fn lemma_index_unique(w: int, x1: int, y1: int, x2: int, y2: int)
    requires
        0 <= x1 < w,
        0 <= x2 < w,
        0 <= y1,
        0 <= y2,
        x1 + y1 * w == x2 + y2 * w,
    ensures
        x1 == x2 && y1 == y2,
{
    if y1 < y2 {
        assert(y1 * w + w <= y2 * w) by (nonlinear_arith)
            requires
                y1 < y2,
                w > 0,
        ;
    } else if y2 < y1 {
        assert(y2 * w + w <= y1 * w) by (nonlinear_arith)
            requires
                y2 < y1,
                w > 0,
        ;
    }
}

/// The index of an in-grid cell lies within the grid's storage.
pub proof fn lemma_index_in_grid(w: int, h: int, x: int, y: int)
    requires
        0 <= x < w,
        0 <= y < h,
    ensures
        0 <= x + y * w < w * h,
{
    assert(0 <= y * w && y * w + w <= h * w) by (nonlinear_arith)
        requires
            0 <= y < h,
            w > 0,
    ;
    assert(h * w == w * h) by (nonlinear_arith);
}

/// 1 for a solid tile, 0 for air.
pub open spec fn occupancy(t: WorldTile) -> int {
    if t.solid() {
        1
    } else {
        0
    }
}

/// A tile together with its four neighbors, for consumers that look at edges.
#[derive(Debug, Clone, Copy)]
pub struct RenderedWorldTile {
    pub pos: (isize, isize),
    pub tile: WorldTile,
    /// Neighbors in the order top, left, bottom, right.
    pub neighbors: [WorldTile; 4],
}

impl RenderedWorldTile {
    /// Occupancy as bits: top, left, bottom and right neighbor in bits 0 to 3,
    /// the tile itself in bit 4.
    pub fn occupancy_bits(&self) -> (r: u32)
        ensures
            r == occupancy(self.neighbors@[0]) + 2 * occupancy(self.neighbors@[1]) + 4
                * occupancy(self.neighbors@[2]) + 8 * occupancy(self.neighbors@[3]) + 16
                * occupancy(self.tile),
    {
        let top: u32 = if self.neighbors[0].is_not_air() { 1 } else { 0 };
        let left: u32 = if self.neighbors[1].is_not_air() { 2 } else { 0 };
        let bottom: u32 = if self.neighbors[2].is_not_air() { 4 } else { 0 };
        let right: u32 = if self.neighbors[3].is_not_air() { 8 } else { 0 };
        let own: u32 = if self.tile.is_not_air() { 16 } else { 0 };
        top + left + bottom + right + own
    }
}

/// The occupancy bits of the tile at `(x, y)` and its four neighbors.
pub open spec fn occupancy_bits_at(world: &World, x: int, y: int) -> int {
    occupancy(world.tile_at(x, y + 1)) + 2 * occupancy(world.tile_at(x - 1, y)) + 4 * occupancy(
        world.tile_at(x, y - 1),
    ) + 8 * occupancy(world.tile_at(x + 1, y)) + 16 * occupancy(world.tile_at(x, y))
}

/// The first tile whose square reaches past `low` minus one tile.
pub open spec fn near_low(low: int) -> int {
    (low - UNIT) / (UNIT as int)
}

/// The first tile whose square lies wholly past `high` plus one tile.
pub open spec fn near_high(high: int) -> int {
    (high + UNIT + UNIT - 1) / (UNIT as int)
}

/// The tile bounds of a range inside the coordinate range are small.
proof fn lemma_near_bounds(low: int, high: int)
    requires
        -COORD_LIMIT <= low <= high <= COORD_LIMIT,
    ensures
        -0x40_0001 <= near_low(low) <= near_high(high) <= 0x40_0002,
{
    vstd::arithmetic::div_mod::lemma_fundamental_div_mod(low - UNIT, UNIT as int);
    vstd::arithmetic::div_mod::lemma_fundamental_div_mod(high + UNIT + UNIT - 1, UNIT as int);
}

/// The cells of a disc all lie within the brush's reach of its center.
proof fn lemma_disc_within_brush(cx: int, cy: int, radius: int)
    requires
        radius >= 0,
    ensures
        forall|x: int, y: int|
            #[trigger] in_disc(x, y, cx, cy, radius) ==> cx - brush_reach(radius) <= x < cx
                + brush_reach(radius) && cy - brush_reach(radius) <= y < cy + brush_reach(radius),
{
    assert forall|x: int, y: int| #[trigger] in_disc(x, y, cx, cy, radius) implies cx - brush_reach(
        radius,
    ) <= x < cx + brush_reach(radius) && cy - brush_reach(radius) <= y < cy + brush_reach(
        radius,
    ) by {
        lemma_disc_within_reach(x, y, cx, cy, radius);
    }
}

/// A grid with at least one cell has sides no longer than its cell count.
proof fn lemma_sides_fit(w: int, h: int)
    requires
        w >= 1,
        h >= 1,
        w * h <= isize::MAX,
    ensures
        w <= isize::MAX,
        h <= isize::MAX,
{
    assert(w * 1 <= w * h && h * 1 <= w * h) by (nonlinear_arith)
        requires
            w >= 1,
            h >= 1,
    ;
}

/// The box of `cols` by `rows` cells whose lowest corner is `(x0, y0)`,
/// walked column by column: cell `i` is `(x0 + i / rows, y0 + i % rows)`.
pub open spec fn box_walk(x0: int, y0: int, cols: int, rows: int) -> Seq<(int, int)> {
    Seq::new((cols * rows) as nat, |i: int| (x0 + i / rows, y0 + i % rows))
}

pub open spec fn max(a: int, b: int) -> int {
    if a >= b {
        a
    } else {
        b
    }
}

pub open spec fn min(a: int, b: int) -> int {
    if a <= b {
        a
    } else {
        b
    }
}

/// Whether `(x, y)` lies within `radius` of `(cx, cy)`, the boundary
/// included; `radius` counts `UNIT` steps per tile.
pub open spec fn in_disc(x: int, y: int, cx: int, cy: int, radius: int) -> bool {
    ((x - cx) * (x - cx) + (y - cy) * (y - cy)) * (UNIT * UNIT) as int <= radius * radius
}

/// How many cells a brush scans to each side of its center: the radius plus
/// half a tile, rounded up to whole tiles.
pub open spec fn brush_reach(radius: int) -> int {
    (radius + UNIT / 2 + UNIT - 1) / (UNIT as int)
}

/// Every cell of a disc lies within the brush's reach of its center.
pub proof fn lemma_disc_within_reach(x: int, y: int, cx: int, cy: int, radius: int)
    requires
        radius >= 0,
        in_disc(x, y, cx, cy, radius),
    ensures
        cx - brush_reach(radius) <= x < cx + brush_reach(radius),
        cy - brush_reach(radius) <= y < cy + brush_reach(radius),
{
    let k = brush_reach(radius);
    let u = UNIT as int;
    assert(k * u > radius) by {
        vstd::arithmetic::div_mod::lemma_fundamental_div_mod(radius + u / 2 + u - 1, u);
        assert(u / 2 == 128);
    }
    let dx = abs(x - cx);
    let dy = abs(y - cy);
    assert((x - cx) * (x - cx) == dx * dx && (y - cy) * (y - cy) == dy * dy) by (nonlinear_arith)
        requires
            dx == abs(x - cx),
            dy == abs(y - cy),
    ;
    lemma_scaled_below(dx, dy, u, radius);
    lemma_scaled_below(dy, dx, u, radius);
    assert(dx < k && dy < k) by (nonlinear_arith)
        requires
            dx * u <= radius,
            dy * u <= radius,
            k * u > radius,
            u > 0,
    ;
}

/// From `(a² + b²)·u² <= r²` with all four non-negative: `a·u <= r`.
proof fn lemma_scaled_below(a: int, b: int, u: int, r: int)
    requires
        a >= 0,
        b >= 0,
        u > 0,
        r >= 0,
        (a * a + b * b) * (u * u) <= r * r,
    ensures
        a * u <= r,
{
    assert(b * b >= 0) by (nonlinear_arith);
    assert(u * u > 0) by (nonlinear_arith)
        requires
            u > 0,
    ;
    assert((a * u) * (a * u) <= r * r) by (nonlinear_arith)
        requires
            (a * a + b * b) * (u * u) <= r * r,
            b * b >= 0,
            u * u > 0,
    ;
    if a * u > r {
        assert((a * u) * (a * u) > r * r) by (nonlinear_arith)
            requires
                a * u > r,
                r >= 0,
        ;
    }
}

/// The tile that generation leaves at `(x, y)` of a `width` by `height` grid
/// whose columns are filled up to `heights`: solid from the bottom row up to
/// the column's height, air above it and off the grid.
pub open spec fn generated_tile(width: int, height: int, heights: Seq<usize>, x: int, y: int) -> WorldTile {
    if 0 <= x < width && 0 <= y < height && y < heights[x] {
        WorldTile::Dirt
    } else {
        WorldTile::Air
    }
}

/// Setting a cell and reading it back gives the tile that was set, and no
/// other cell changes.
pub proof fn lemma_set_get_round_trip(before: &World, after: &World, x: int, y: int, tile: WorldTile)
    requires
        before.wf(),
        before.in_bounds(x, y),
        after.is_set_from(before, x, y, tile),
    ensures
        after.tile_at(x, y) == tile,
        forall|i: int, j: int|
            (i != x || j != y) ==> #[trigger] after.tile_at(i, j) == before.tile_at(i, j),
{
    assert(after.tile_at(x, y) == tile);
}

/// Generation depends on its arguments alone: two grids generated from the
/// same size and column heights agree cell for cell.
pub proof fn lemma_generate_deterministic(a: &World, b: &World, width: int, height: int, heights: Seq<usize>)
    requires
        a.is_generated(width, height, heights),
        b.is_generated(width, height, heights),
    ensures
        a@ == b@,
{
    assert forall|i: int| 0 <= i < a.cells().len() implies a.cells()[i] == b.cells()[i] by {
        let w = width;
        assert(w > 0 && height > 0) by (nonlinear_arith)
            requires
                0 <= i < w * height,
                w >= 0,
                height >= 0,
        ;
        vstd::arithmetic::div_mod::lemma_fundamental_div_mod(i, w);
        let x = i % w;
        let y = i / w;
        assert(y < height) by (nonlinear_arith)
            requires
                i == w * y + x,
                0 <= x < w,
                i < w * height,
        ;
        assert(y >= 0) by (nonlinear_arith)
            requires
                i == w * y + x,
                x < w,
                i >= 0,
                w > 0,
        ;
        assert(i == x + y * w) by (nonlinear_arith)
            requires
                i == w * y + x,
        ;
        assert(a.tile_at(x, y) == b.tile_at(x, y));
    }
    assert(a.cells() =~= b.cells());
}

/// Each generated column is one solid run from the bottom row: its solid
/// cells are exactly the rows below both the grid's height and the column's
/// height, with no gap beneath and nothing above.
pub proof fn lemma_generated_column_fill(w: &World, width: int, height: int, heights: Seq<usize>, x: int)
    requires
        w.is_generated(width, height, heights),
        0 <= x < width,
    ensures
        forall|y: int|
            #[trigger] w.tile_at(x, y) == WorldTile::Dirt <==> 0 <= y < min(height, heights[x] as int),
{
    assert forall|y: int|
        #[trigger] w.tile_at(x, y) == WorldTile::Dirt <==> 0 <= y < min(height, heights[x] as int) by {
        assert(w.tile_at(x, y) == generated_tile(width, height, heights, x, y));
    }
}

/// A grid of `width` by `height` tiles, stored row after row.
#[derive(Debug)]
pub struct World {
    width: usize,
    height: usize,
    data: Vec<WorldTile>,
}

impl View for World {
    /// Width, height, and the cells row after row.
    type V = (nat, nat, Seq<WorldTile>);

    closed spec fn view(&self) -> (nat, nat, Seq<WorldTile>) {
        (self.width as nat, self.height as nat, self.data@)
    }
}

/// A `set` aimed at a cell that is not on the grid.
#[derive(Debug, Clone, Copy, PartialEq, Eq, Structural)]
pub struct OutOfBounds {
    pub x: isize,
    pub y: isize,
}

impl World {
    /// The storage holds exactly one tile per cell, and the cell count is
    /// one that memory can hold.
    pub open spec fn wf(&self) -> bool {
        &&& self.cells().len() == self.grid_width() * self.grid_height()
        &&& self.grid_width() * self.grid_height() <= isize::MAX
    }

    pub open spec fn grid_width(&self) -> nat {
        self@.0
    }

    pub open spec fn grid_height(&self) -> nat {
        self@.1
    }

    pub open spec fn cells(&self) -> Seq<WorldTile> {
        self@.2
    }

    pub open spec fn in_bounds(&self, x: int, y: int) -> bool {
        0 <= x < self.grid_width() && 0 <= y < self.grid_height()
    }

    /// The tile at `(x, y)`; air anywhere off the grid.
    pub open spec fn tile_at(&self, x: int, y: int) -> WorldTile {
        if self.in_bounds(x, y) {
            self.cells()[x + y * self.grid_width()]
        } else {
            WorldTile::Air
        }
    }

    /// The number of columns.
    pub fn width(&self) -> (r: usize)
        ensures
            r == self.grid_width(),
    {
        self.width
    }

    /// The number of rows.
    pub fn height(&self) -> (r: usize)
        ensures
            r == self.grid_height(),
    {
        self.height
    }

    /// Whether this grid is `before` with the tile at `(x, y)` replaced by
    /// `tile` and every other cell kept.
    pub open spec fn is_set_from(&self, before: &World, x: int, y: int, tile: WorldTile) -> bool {
        &&& self.wf()
        &&& self.grid_width() == before.grid_width()
        &&& self.grid_height() == before.grid_height()
        &&& forall|i: int, j: int|
            #[trigger] self.tile_at(i, j) == if i == x && j == y {
                tile
            } else {
                before.tile_at(i, j)
            }
    }

    /// Whether this grid is `before` with every on-grid cell within `radius`
    /// of `(cx, cy)` set to `tile` and every other cell kept.
    pub open spec fn is_filled_from(&self, before: &World, cx: int, cy: int, radius: int, tile: WorldTile) -> bool {
        &&& self.wf()
        &&& self.grid_width() == before.grid_width()
        &&& self.grid_height() == before.grid_height()
        &&& forall|i: int, j: int|
            #[trigger] self.tile_at(i, j) == if self.in_bounds(i, j) && in_disc(i, j, cx, cy, radius) {
                tile
            } else {
                before.tile_at(i, j)
            }
    }

    /// Whether this grid is what generation makes of a `width` by `height`
    /// grid with the given column heights.
    pub open spec fn is_generated(&self, width: int, height: int, heights: Seq<usize>) -> bool {
        &&& self.wf()
        &&& self.grid_width() == width
        &&& self.grid_height() == height
        &&& forall|x: int, y: int|
            #[trigger] self.tile_at(x, y) == generated_tile(width, height, heights, x, y)
    }

    /// Whether `r` shows the tile at `(x, y)` and its four neighbors.
    pub open spec fn renders(&self, r: RenderedWorldTile, x: int, y: int) -> bool {
        &&& r.pos.0 == x
        &&& r.pos.1 == y
        &&& r.tile == self.tile_at(x, y)
        &&& r.neighbors@ == seq![
            self.tile_at(x, y + 1),
            self.tile_at(x - 1, y),
            self.tile_at(x, y - 1),
            self.tile_at(x + 1, y),
        ]
    }

    /// The on-grid cells of the box of `w` by `h` cells whose lowest corner
    /// is `(left, bottom)`, column by column from the left, each column from
    /// the bottom.
    pub open spec fn cells_in_box(&self, left: int, bottom: int, w: int, h: int) -> Seq<(int, int)> {
        let x0 = max(left, 0);
        let y0 = max(bottom, 0);
        let cols = max(min(left + w, self.grid_width() as int) - x0, 0);
        let rows = max(min(bottom + h, self.grid_height() as int) - y0, 0);
        box_walk(x0, y0, cols, rows)
    }

    /// The on-grid cells near a rectangle: every cell whose unit square
    /// overlaps the rectangle widened by one tile on each side. Columns run
    /// from the floor of its left edge minus one tile up to, not including,
    /// the ceiling of its right edge plus one tile; rows likewise.
    pub open spec fn cells_near(&self, rect: Rect) -> Seq<(int, int)> {
        let left = near_low(rect.center.x - rect.half_size.x);
        let bottom = near_low(rect.center.y - rect.half_size.y);
        let right = near_high(rect.center.x + rect.half_size.x);
        let top = near_high(rect.center.y + rect.half_size.y);
        self.cells_in_box(left, bottom, right - left, top - bottom)
    }

    /// Whether `r` renders, one for one and in order, the cells of `cells`.
    pub open spec fn renders_all(&self, r: Seq<RenderedWorldTile>, cells: Seq<(int, int)>) -> bool {
        &&& r.len() == cells.len()
        &&& forall|i: int| 0 <= i < r.len() ==> self.renders(#[trigger] r[i], cells[i].0, cells[i].1)
    }

    /// A grid of the given size, all air.
    pub fn new(width: usize, height: usize) -> (r: World)
        requires
            width * height <= isize::MAX,
        ensures
            r.wf(),
            r.grid_width() == width,
            r.grid_height() == height,
            forall|x: int, y: int| r.tile_at(x, y) == WorldTile::Air,
    {
        let n = width * height;
        let mut data: Vec<WorldTile> = Vec::with_capacity(n);
        let mut i: usize = 0;
        while i < n
            invariant
                i <= n,
                data@.len() == i,
                forall|j: int| 0 <= j < i ==> data@[j] == WorldTile::Air,
            decreases n - i,
        {
            data.push(WorldTile::Air);
            i = i + 1;
        }
        let r = World { width, height, data };
        proof {
            assert forall|x: int, y: int| r.tile_at(x, y) == WorldTile::Air by {
                if r.in_bounds(x, y) {
                    lemma_index_in_grid(width as int, height as int, x, y);
                }
            }
        }
        r
    }

    fn coords_to_index(&self, x: usize, y: usize) -> (r: usize)
        requires
            self.wf(),
            self.in_bounds(x as int, y as int),
        ensures
            r == x + y * self.grid_width(),
            r < self.cells().len(),
    {
        proof {
            lemma_index_in_grid(self.width as int, self.height as int, x as int, y as int);
            assert(0 <= y * self.width <= x + y * self.width) by (nonlinear_arith)
                requires
                    0 <= x,
                    0 <= y,
                    0 <= self.width,
            ;
        }
        x + y * self.width
    }

    /// The tile at `(x, y)`, air for any coordinates off the grid.
    pub fn get(&self, x: isize, y: isize) -> (r: WorldTile)
        requires
            self.wf(),
        ensures
            r == self.tile_at(x as int, y as int),
            !self.in_bounds(x as int, y as int) ==> r == WorldTile::Air,
    {
        self.get_wide(x as i128, y as i128)
    }

    fn get_wide(&self, x: i128, y: i128) -> (r: WorldTile)
        requires
            self.wf(),
        ensures
            r == self.tile_at(x as int, y as int),
    {
        if x < 0 || y < 0 || x >= self.width as i128 || y >= self.height as i128 {
            return WorldTile::Air;
        }
        let idx = self.coords_to_index(x as usize, y as usize);
        self.data[idx]
    }

    /// The tile at `(x, y)` with its neighbors; off the grid all of them are air.
    pub fn get_rendered(&self, x: isize, y: isize) -> (r: RenderedWorldTile)
        requires
            self.wf(),
        ensures
            self.renders(r, x as int, y as int),
    {
        let wx = x as i128;
        let wy = y as i128;
        let tile = self.get_wide(wx, wy);
        let neighbors = [
            self.get_wide(wx, wy + 1),
            self.get_wide(wx - 1, wy),
            self.get_wide(wx, wy - 1),
            self.get_wide(wx + 1, wy),
        ];
        let r = RenderedWorldTile { pos: (x, y), tile, neighbors };
        assert(r.neighbors@ =~= seq![
            self.tile_at(x as int, y + 1),
            self.tile_at(x - 1, y as int),
            self.tile_at(x as int, y - 1),
            self.tile_at(x + 1, y as int),
        ]);
        r
    }

    /// Every on-grid cell of the box of `width` by `height` cells whose lowest
    /// corner is `(left_x, bottom_y)`, rendered, column by column.
    pub fn get_rendered_in_cells(&self, left_x: isize, bottom_y: isize, width: isize, height: isize) -> (r: Vec<RenderedWorldTile>)
        requires
            self.wf(),
        ensures
            self.renders_all(r@, self.cells_in_box(left_x as int, bottom_y as int, width as int, height as int)),
    {
        let ghost cells = self.cells_in_box(left_x as int, bottom_y as int, width as int, height as int);
        let mut out: Vec<RenderedWorldTile> = Vec::new();
        let x0: i128 = if left_x < 0 { 0 } else { left_x as i128 };
        let y0: i128 = if bottom_y < 0 { 0 } else { bottom_y as i128 };
        let xe = left_x as i128 + width as i128;
        let ye = bottom_y as i128 + height as i128;
        let x1: i128 = if xe < self.width as i128 { xe } else { self.width as i128 };
        let y1: i128 = if ye < self.height as i128 { ye } else { self.height as i128 };
        if x1 <= x0 || y1 <= y0 {
            proof {
                let cols = max(x1 - x0, 0);
                let rows = max(y1 - y0, 0);
                assert(cols * rows == 0) by (nonlinear_arith)
                    requires
                        cols == 0 || rows == 0,
                ;
            }
            return out;
        }
        let rows = y1 - y0;
        proof {
            lemma_sides_fit(self.width as int, self.height as int);
            assert(cells.len() == (x1 - x0) * rows);
        }
        let mut x = x0;
        while x < x1
            invariant
                self.wf(),
                x0 <= x <= x1,
                0 <= x0 < x1 <= self.width <= isize::MAX,
                0 <= y0 < y1 <= self.height <= isize::MAX,
                rows == y1 - y0,
                cells == box_walk(x0 as int, y0 as int, x1 - x0, rows as int),
                out@.len() == (x - x0) * rows,
                forall|i: int| 0 <= i < out@.len() ==> self.renders(#[trigger] out@[i], cells[i].0, cells[i].1),
            decreases x1 - x,
        {
            let mut y = y0;
            while y < y1
                invariant
                    self.wf(),
                    x0 <= x < x1,
                    y0 <= y <= y1,
                    0 <= x0 < x1 <= self.width <= isize::MAX,
                    0 <= y0 < y1 <= self.height <= isize::MAX,
                    rows == y1 - y0,
                    cells == box_walk(x0 as int, y0 as int, x1 - x0, rows as int),
                    out@.len() == (x - x0) * rows + (y - y0),
                    forall|i: int| 0 <= i < out@.len() ==> self.renders(#[trigger] out@[i], cells[i].0, cells[i].1),
                decreases y1 - y,
            {
                let ghost k = out@.len() as int;
                proof {
                    lemma_fundamental_div_mod_converse(k, rows as int, x - x0, y - y0);
                    assert(k < (x1 - x0) * rows) by (nonlinear_arith)
                        requires
                            k == (x - x0) * rows + (y - y0),
                            0 <= y - y0 < rows,
                            0 <= x - x0,
                            x - x0 + 1 <= x1 - x0,
                    ;
                }
                out.push(self.get_rendered(x as isize, y as isize));
                y = y + 1;
            }
            proof {
                assert((x - x0) * rows + rows == (x + 1 - x0) * rows) by (nonlinear_arith);
            }
            x = x + 1;
        }
        out
    }

    /// Every on-grid cell near `rect` (see [`World::cells_near`]), rendered.
    pub fn get_rendered_in_rect(&self, rect: Rect) -> (r: Vec<RenderedWorldTile>)
        requires
            self.wf(),
            rect.valid(),
        ensures
            self.renders_all(r@, self.cells_near(rect)),
    {
        let min = rect.min();
        let max_x = rect.center.x + rect.half_size.x;
        let max_y = rect.center.y + rect.half_size.y;
        let left_x = floor_div(min.x - UNIT, UNIT);
        let bottom_y = floor_div(min.y - UNIT, UNIT);
        let right_x = floor_div(max_x + UNIT + (UNIT - 1), UNIT);
        let top_y = floor_div(max_y + UNIT + (UNIT - 1), UNIT);
        proof {
            lemma_near_bounds(min.x as int, max_x as int);
            lemma_near_bounds(min.y as int, max_y as int);
        }
        self.get_rendered_in_cells(
            left_x as isize,
            bottom_y as isize,
            (right_x - left_x) as isize,
            (top_y - bottom_y) as isize,
        )
    }

    /// A `width` by `height` grid whose column `x` is solid from the bottom
    /// row up to, not including, row `column_heights[x]`, and air above.
    pub fn generate(width: usize, height: usize, column_heights: &Vec<usize>) -> (r: World)
        requires
            width * height <= isize::MAX,
            column_heights@.len() == width,
        ensures
            r.is_generated(width as int, height as int, column_heights@),
    {
        let mut world = World::new(width, height);
        if width == 0 || height == 0 {
            return world;
        }
        proof {
            lemma_sides_fit(width as int, height as int);
        }
        let mut x: usize = 0;
        while x < width
            invariant
                world.wf(),
                world.grid_width() == width,
                world.grid_height() == height,
                width <= isize::MAX,
                height <= isize::MAX,
                column_heights@.len() == width,
                x <= width,
                forall|i: int, j: int|
                    #[trigger] world.tile_at(i, j) == if i < x {
                        generated_tile(width as int, height as int, column_heights@, i, j)
                    } else {
                        WorldTile::Air
                    },
            decreases width - x,
        {
            let column = column_heights[x];
            let top = if column < height { column } else { height };
            let mut y: usize = 0;
            while y < top
                invariant
                    world.wf(),
                    world.grid_width() == width,
                    world.grid_height() == height,
                    width <= isize::MAX,
                    height <= isize::MAX,
                    column_heights@.len() == width,
                    x < width,
                    column == column_heights@[x as int],
                    top <= height,
                    top <= column,
                    y <= top,
                    forall|i: int, j: int|
                        #[trigger] world.tile_at(i, j) == if i < x || (i == x && j < y) {
                            generated_tile(width as int, height as int, column_heights@, i, j)
                        } else {
                            WorldTile::Air
                        },
                decreases top - y,
            {
                world.set(x as isize, y as isize, WorldTile::Dirt);
                y = y + 1;
            }
            x = x + 1;
        }
        world
    }

    /// Stamps a disc of `tile` onto the grid: every on-grid cell within
    /// `radius` of `(center_x, center_y)` is set, cells farther away are left
    /// alone. `radius` counts `UNIT` steps per tile.
    pub fn fill_radius(&mut self, center_x: isize, center_y: isize, radius: u32, tile: WorldTile)
        requires
            old(self).wf(),
        ensures
            final(self).is_filled_from(old(self), center_x as int, center_y as int, radius as int, tile),
    {
        let ghost cx = center_x as int;
        let ghost cy = center_y as int;
        let ghost r = radius as int;
        let reach = (radius as i128 + (UNIT / 2) as i128 + (UNIT - 1) as i128) / UNIT as i128;
        let lo_x = center_x as i128 - reach;
        let lo_y = center_y as i128 - reach;
        let hi_x = center_x as i128 + reach;
        let hi_y = center_y as i128 + reach;
        let x0: i128 = if lo_x < 0 { 0 } else { lo_x };
        let y0: i128 = if lo_y < 0 { 0 } else { lo_y };
        let x1: i128 = if hi_x < self.width as i128 { hi_x } else { self.width as i128 };
        let y1: i128 = if hi_y < self.height as i128 { hi_y } else { self.height as i128 };
        proof {
            lemma_disc_within_brush(cx, cy, r);
        }
        if x1 <= x0 || y1 <= y0 {
            return;
        }
        proof {
            lemma_sides_fit(self.width as int, self.height as int);
            lemma_product_bound(r, r, u32::MAX as int, u32::MAX as int);
        }
        let rr = radius as i128 * radius as i128;
        let mut x = x0;
        while x < x1
            invariant
                self.wf(),
                self.grid_width() == old(self).grid_width(),
                self.grid_height() == old(self).grid_height(),
                cx == center_x,
                cy == center_y,
                r == radius,
                reach == brush_reach(r),
                0 <= reach <= 0x100_0001,
                rr == r * r,
                0 <= r <= u32::MAX,
                forall|i: int, j: int| #[trigger] in_disc(i, j, cx, cy, r) ==> cx - reach <= i < cx + reach && cy - reach <= j < cy + reach,
                x0 == max(cx - reach, 0),
                y0 == max(cy - reach, 0),
                x1 == min(cx + reach, self.grid_width() as int),
                y1 == min(cy + reach, self.grid_height() as int),
                0 <= x0 <= x <= x1 <= self.width <= isize::MAX,
                0 <= y0 < y1 <= self.height <= isize::MAX,
                forall|i: int, j: int|
                    #[trigger] self.tile_at(i, j) == if self.in_bounds(i, j) && in_disc(i, j, cx, cy, r) && i < x {
                        tile
                    } else {
                        old(self).tile_at(i, j)
                    },
            decreases x1 - x,
        {
            let dx = x - center_x as i128;
            let mut y = y0;
            while y < y1
                invariant
                    self.wf(),
                    self.grid_width() == old(self).grid_width(),
                    self.grid_height() == old(self).grid_height(),
                    cx == center_x,
                    cy == center_y,
                    r == radius,
                    reach == brush_reach(r),
                    0 <= reach <= 0x100_0001,
                    rr == r * r,
                    0 <= r <= u32::MAX,
                    forall|i: int, j: int| #[trigger] in_disc(i, j, cx, cy, r) ==> cx - reach <= i < cx + reach && cy - reach <= j < cy + reach,
                    x0 == max(cx - reach, 0),
                    y0 == max(cy - reach, 0),
                    x1 == min(cx + reach, self.grid_width() as int),
                    y1 == min(cy + reach, self.grid_height() as int),
                    0 <= x0 <= x < x1 <= self.width <= isize::MAX,
                    0 <= y0 <= y <= y1 <= self.height <= isize::MAX,
                    dx == x - cx,
                    forall|i: int, j: int|
                        #[trigger] self.tile_at(i, j) == if self.in_bounds(i, j) && in_disc(i, j, cx, cy, r) && (i < x || (i == x && j < y)) {
                            tile
                        } else {
                            old(self).tile_at(i, j)
                        },
                decreases y1 - y,
            {
                let dy = y - center_y as i128;
                proof {
                    lemma_product_bound(dx as int, dx as int, 0x100_0001, 0x100_0001);
                    lemma_product_bound(dy as int, dy as int, 0x100_0001, 0x100_0001);
                    assert(0 <= dx * dx && 0 <= dy * dy) by (nonlinear_arith);
                    assert((dx * dx + dy * dy) * 65536 <= 0x1_0000_0000_0000_0000_0000_0000) by (nonlinear_arith)
                        requires
                            0 <= dx * dx <= 0x100_0001 * 0x100_0001,
                            0 <= dy * dy <= 0x100_0001 * 0x100_0001,
                    ;
                }
                if (dx * dx + dy * dy) * ((UNIT * UNIT) as i128) <= rr {
                    self.set(x as isize, y as isize, tile);
                }
                y = y + 1;
            }
            x = x + 1;
        }
    }

    /// The occupancy bits (see [`RenderedWorldTile::occupancy_bits`]) of every
    /// cell, row after row, as a mesh of the grid carries them.
    pub fn occupancy_bitsets(&self) -> (r: Vec<u32>)
        requires
            self.wf(),
        ensures
            r@.len() == self.cells().len(),
            forall|x: int, y: int|
                self.in_bounds(x, y) ==> r@[x + y * self.grid_width()] == occupancy_bits_at(self, x, y),
    {
        let mut out: Vec<u32> = Vec::new();
        if self.width == 0 || self.height == 0 {
            proof {
                assert(self.width * self.height == 0) by (nonlinear_arith)
                    requires
                        self.width == 0 || self.height == 0,
                ;
            }
            return out;
        }
        proof {
            lemma_sides_fit(self.width as int, self.height as int);
        }
        let mut y: usize = 0;
        while y < self.height
            invariant
                self.wf(),
                1 <= self.width <= isize::MAX,
                self.height <= isize::MAX,
                y <= self.height,
                out@.len() == y * self.width,
                forall|i: int, j: int|
                    0 <= i < self.width && 0 <= j < y ==> out@[i + j * self.width] == occupancy_bits_at(self, i, j),
            decreases self.height - y,
        {
            let mut x: usize = 0;
            while x < self.width
                invariant
                    self.wf(),
                    1 <= self.width <= isize::MAX,
                    self.height <= isize::MAX,
                    y < self.height,
                    x <= self.width,
                    out@.len() == x + y * self.width,
                    forall|i: int, j: int|
                        0 <= i < self.width && 0 <= j < y ==> out@[i + j * self.width] == occupancy_bits_at(self, i, j),
                    forall|i: int| 0 <= i < x ==> out@[i + y * self.width] == occupancy_bits_at(self, i, y as int),
                decreases self.width - x,
            {
                let cell = self.get_rendered(x as isize, y as isize);
                let bits = cell.occupancy_bits();
                let ghost before = out@;
                out.push(bits);
                proof {
                    assert forall|i: int, j: int|
                        0 <= i < self.width && 0 <= j < y implies out@[i + j * self.width] == occupancy_bits_at(self, i, j) by {
                        lemma_index_in_grid(self.width as int, y as int, i, j);
                        assert(y * self.width == self.width * y) by (nonlinear_arith);
                        assert(out@[i + j * self.width] == before[i + j * self.width]);
                    }
                }
                x = x + 1;
            }
            proof {
                assert(self.width + y * self.width == (y + 1) * self.width) by (nonlinear_arith);
                assert forall|i: int, j: int|
                    0 <= i < self.width && 0 <= j < y + 1 implies out@[i + j * self.width] == occupancy_bits_at(self, i, j) by {
                    if j < y {
                    }
                }
            }
            y = y + 1;
        }
        proof {
            assert(self.height * self.width == self.width * self.height) by (nonlinear_arith);
        }
        out
    }

    /// Puts `tile` at `(x, y)`, which must be on the grid.
    pub fn set(&mut self, x: isize, y: isize, tile: WorldTile)
        requires
            old(self).wf(),
            old(self).in_bounds(x as int, y as int),
        ensures
            final(self).is_set_from(old(self), x as int, y as int, tile),
    {
        let idx = self.coords_to_index(x as usize, y as usize);
        self.data.set(idx, tile);
        proof {
            assert forall|i: int, j: int|
                #[trigger] self.tile_at(i, j) == if i == x && j == y {
                    tile
                } else {
                    old(self).tile_at(i, j)
                } by {
                if self.in_bounds(i, j) {
                    lemma_index_in_grid(self.width as int, self.height as int, i, j);
                    if i + j * self.width == idx {
                        lemma_index_unique(self.width as int, i, j, x as int, y as int);
                    }
                }
            }
        }
    }

    /// Puts `tile` at `(x, y)` when that cell is on the grid, and otherwise
    /// leaves the grid as it is and reports the coordinates.
    pub fn try_set(&mut self, x: isize, y: isize, tile: WorldTile) -> (r: Result<(), OutOfBounds>)
        requires
            old(self).wf(),
        ensures
            final(self).wf(),
            final(self).grid_width() == old(self).grid_width(),
            final(self).grid_height() == old(self).grid_height(),
            r is Ok <==> old(self).in_bounds(x as int, y as int),
            r is Err ==> r->Err_0 == (OutOfBounds { x, y }) && final(self).cells() == old(self).cells(),
            forall|i: int, j: int|
                #[trigger] final(self).tile_at(i, j) == if i == x && j == y && r is Ok {
                    tile
                } else {
                    old(self).tile_at(i, j)
                },
    {
        if x < 0 || y < 0 || x as usize >= self.width || y as usize >= self.height {
            return Err(OutOfBounds { x, y });
        }
        self.set(x, y, tile);
        Ok(())
    }
}

} // verus!
