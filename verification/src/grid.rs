//! The navigation map: a dense row-major bitmap of walkable cells and the
//! mapping between world positions and cell indices.

use vstd::prelude::*;

verus! {

/// A point on the ground plane, in fixed-point world units.
#[derive(Clone, Copy, Debug, PartialEq, Eq, Structural)]
pub struct WorldPos {
    pub x: i32,
    pub z: i32,
}

/// Quotient of `a` by a positive `b`, rounded toward zero.
pub open spec fn trunc_div(a: int, b: int) -> int {
    if a >= 0 {
        a / b
    } else {
        -((-a) / b)
    }
}

/// Row-major index of cell `(x, y)` in a grid `width` cells wide.
pub open spec fn cell_index(width: int, x: int, y: int) -> int {
    y * width + x
}

/// A cell inside a `width` by `height` grid has an index below `width * height`.
pub proof fn lemma_cell_index_in_range(width: int, height: int, x: int, y: int)
    requires
        0 <= x < width,
        0 <= y < height,
    ensures
        0 <= y * width <= cell_index(width, x, y) < width * height,
{
    assert(y * width + x < width * height) by (nonlinear_arith)
        requires
            0 <= x < width,
            0 <= y < height,
    ;
    assert(0 <= y * width) by (nonlinear_arith)
        requires
            0 <= y,
            0 <= width,
    ;
}

/// Two cells of one grid share an index only if they are the same cell.
pub proof fn lemma_cell_index_injective(width: int, x1: int, y1: int, x2: int, y2: int)
    requires
        0 <= x1 < width,
        0 <= x2 < width,
        0 <= y1,
        0 <= y2,
        cell_index(width, x1, y1) == cell_index(width, x2, y2),
    ensures
        x1 == x2,
        y1 == y2,
{
    assert(y1 == y2) by (nonlinear_arith)
        requires
            0 <= x1 < width,
            0 <= x2 < width,
            y1 * width + x1 == y2 * width + x2,
    ;
}

/// Navigation grid: which cells of a rectangular map can be walked on.
pub struct NavGrid {
    pub width: usize,
    pub height: usize,
    /// World units spanned by one cell.
    pub cell_size: u32,
    /// One entry per cell, row by row; `true` marks a walkable cell.
    pub grid: Vec<bool>,
    /// World position of the corner of cell `(0, 0)`.
    pub offset: WorldPos,
}

impl NavGrid {
    /// The bitmap has one entry per cell, a cell spans at least one world
    /// unit, and the whole grid lies within the range of world coordinates.
    pub open spec fn wf(self) -> bool {
        &&& self.grid@.len() == self.width * self.height
        &&& self.width * self.height <= usize::MAX
        &&& self.cell_size >= 1
        &&& self.offset.x + self.width * self.cell_size <= i32::MAX
        &&& self.offset.z + self.height * self.cell_size <= i32::MAX
    }

    /// Whether `(x, y)` names a cell of the grid.
    pub open spec fn in_bounds(self, x: int, y: int) -> bool {
        0 <= x < self.width && 0 <= y < self.height
    }

    /// Whether `(x, y)` is a cell of the grid that can be walked on.
    pub open spec fn walkable_at(self, x: int, y: int) -> bool {
        self.in_bounds(x, y) && self.grid@[cell_index(self.width as int, x, y)]
    }

    /// Whether every cell of the grid can be walked on.
    pub open spec fn all_walkable(self) -> bool {
        forall|x: int, y: int| self.in_bounds(x, y) ==> #[trigger] self.walkable_at(x, y)
    }

    /// Whether no cell of the grid can be walked on.
    pub open spec fn none_walkable(self) -> bool {
        forall|x: int, y: int| !#[trigger] self.walkable_at(x, y)
    }

    /// Same dimensions, cell size and origin as `other`.
    pub open spec fn same_frame(self, other: NavGrid) -> bool {
        &&& self.width == other.width
        &&& self.height == other.height
        &&& self.cell_size == other.cell_size
        &&& self.offset == other.offset
    }

    /// Column that a world `x` coordinate falls in, before the bounds check.
    pub open spec fn column_of(self, x: int) -> int {
        trunc_div(x - self.offset.x, self.cell_size as int)
    }

    /// Row that a world `z` coordinate falls in, before the bounds check.
    pub open spec fn row_of(self, z: int) -> int {
        trunc_div(z - self.offset.z, self.cell_size as int)
    }

    /// The cell that holds `pos`, or `None` where `pos` is off the grid.
    pub open spec fn cell_of(self, pos: WorldPos) -> Option<(usize, usize)> {
        let cx = self.column_of(pos.x as int);
        let cy = self.row_of(pos.z as int);
        if self.in_bounds(cx, cy) {
            Some((cx as usize, cy as usize))
        } else {
            None
        }
    }

    /// World position of the centre of cell `(x, y)`.
    pub open spec fn center_of(self, x: int, y: int) -> WorldPos {
        WorldPos {
            x: (self.offset.x + x * self.cell_size + self.cell_size / 2) as i32,
            z: (self.offset.z + y * self.cell_size + self.cell_size / 2) as i32,
        }
    }

    /// A grid of `width` by `height` walkable cells, centred on the world origin.
    pub fn new(width: usize, height: usize, cell_size: u32) -> (grid: NavGrid)
        requires
            cell_size >= 1,
            width * height <= usize::MAX,
            width * cell_size <= i32::MAX,
            height * cell_size <= i32::MAX,
        ensures
            grid.wf(),
            grid.width == width,
            grid.height == height,
            grid.cell_size == cell_size,
            grid.offset.x == -((width * cell_size) / 2),
            grid.offset.z == -((height * cell_size) / 2),
            grid.all_walkable(),
    {
        let cells: usize = width * height;
        let mut bitmap: Vec<bool> = Vec::new();
        let mut i: usize = 0;
        while i < cells
            invariant
                i <= cells,
                bitmap@.len() == i,
                forall|k: int| 0 <= k < i ==> bitmap@[k],
            decreases cells - i,
        {
            bitmap.push(true);
            i = i + 1;
        }
        assert(width <= i32::MAX && height <= i32::MAX) by (nonlinear_arith)
            requires
                cell_size >= 1,
                width * cell_size <= i32::MAX,
                height * cell_size <= i32::MAX,
        ;
        let span_x: i64 = (width as i64) * (cell_size as i64);
        let span_z: i64 = (height as i64) * (cell_size as i64);
        let offset = WorldPos { x: (-(span_x / 2)) as i32, z: (-(span_z / 2)) as i32 };
        let grid = NavGrid { width, height, cell_size, grid: bitmap, offset };
        proof {
            assert forall|x: int, y: int| grid.in_bounds(x, y) implies #[trigger] grid.walkable_at(
                x,
                y,
            ) by {
                lemma_cell_index_in_range(width as int, height as int, x, y);
            }
        }
        grid
    }

    /// Convert a world position to grid coordinates.
    pub fn world_to_grid(&self, pos: WorldPos) -> (cell: Option<(usize, usize)>)
        requires
            self.wf(),
        ensures
            cell == self.cell_of(pos),
    {
        let size: i64 = self.cell_size as i64;
        let x: i64 = (pos.x as i64 - self.offset.x as i64) / size;
        let y: i64 = (pos.z as i64 - self.offset.z as i64) / size;
        if x >= 0 && (x as u64) < (self.width as u64) && y >= 0 && (y as u64) < (
        self.height as u64) {
            Some((x as usize, y as usize))
        } else {
            None
        }
    }

    /// Convert grid coordinates to the world position of the cell's centre.
    pub fn grid_to_world(&self, x: usize, y: usize) -> (pos: WorldPos)
        requires
            self.wf(),
            self.in_bounds(x as int, y as int),
        ensures
            pos == self.center_of(x as int, y as int),
            self.cell_of(pos) == Some((x, y)),
    {
        proof {
            self.lemma_center_in_cell(x as int, y as int);
        }
        let size: i64 = self.cell_size as i64;
        let half: i64 = size / 2;
        let px: i64 = self.offset.x as i64 + (x as i64) * size + half;
        let pz: i64 = self.offset.z as i64 + (y as i64) * size + half;
        WorldPos { x: px as i32, z: pz as i32 }
    }

    /// Check if a cell is walkable; a cell off the grid is not.
    pub fn is_walkable(&self, x: usize, y: usize) -> (walkable: bool)
        requires
            self.wf(),
        ensures
            walkable == self.walkable_at(x as int, y as int),
    {
        if x < self.width && y < self.height {
            proof {
                lemma_cell_index_in_range(self.width as int, self.height as int, x as int, y as int);
            }
            self.grid[y * self.width + x]
        } else {
            false
        }
    }

    /// Mark a cell as an obstacle (not walkable). A cell off the grid is ignored.
    pub fn set_obstacle(&mut self, x: usize, y: usize)
        requires
            old(self).wf(),
        ensures
            final(self).wf(),
            final(self).same_frame(*old(self)),
            forall|cx: int, cy: int|
                #[trigger] final(self).walkable_at(cx, cy) == (old(self).walkable_at(cx, cy) && !(cx
                    == x && cy == y)),
    {
        if x < self.width && y < self.height {
            proof {
                lemma_cell_index_in_range(self.width as int, self.height as int, x as int, y as int);
            }
            let index: usize = y * self.width + x;
            self.grid.set(index, false);
            proof {
                assert forall|cx: int, cy: int|
                    #[trigger] self.walkable_at(cx, cy) == (old(self).walkable_at(cx, cy) && !(cx
                        == x && cy == y)) by {
                    if self.in_bounds(cx, cy) {
                        lemma_cell_index_in_range(self.width as int, self.height as int, cx, cy);
                        if cell_index(self.width as int, cx, cy) == index {
                            lemma_cell_index_injective(self.width as int, cx, cy, x as int, y as int);
                        }
                    }
                }
            }
        }
    }

    /// Whether cell `(cx, cy)` lies in the rectangle of cells from
    /// `(min_x, min_y)` to `(max_x, max_y)`, both corners included.
    pub open spec fn in_rect(cx: int, cy: int, min_x: int, min_y: int, max_x: int, max_y: int) -> bool {
        min_x <= cx <= max_x && min_y <= cy <= max_y
    }

    /// Whether the world rectangle centred on `pos` that reaches
    /// `half_extents` to each side touches the column and row of cell `(cx, cy)`.
    pub open spec fn covered_by(self, pos: WorldPos, half_extents: WorldPos, cx: int, cy: int) -> bool {
        Self::in_rect(
            cx,
            cy,
            self.column_of(pos.x - half_extents.x),
            self.row_of(pos.z - half_extents.z),
            self.column_of(pos.x + half_extents.x),
            self.row_of(pos.z + half_extents.z),
        )
    }

    /// Mark a rectangular area of cells as obstacles. The part of the
    /// rectangle that lies off the grid is ignored.
    pub fn set_obstacle_rect(&mut self, min_x: usize, min_y: usize, max_x: usize, max_y: usize)
        requires
            old(self).wf(),
        ensures
            final(self).wf(),
            final(self).same_frame(*old(self)),
            forall|cx: int, cy: int|
                #[trigger] final(self).walkable_at(cx, cy) == (old(self).walkable_at(cx, cy)
                    && !Self::in_rect(cx, cy, min_x as int, min_y as int, max_x as int, max_y as int)),
    {
        if self.width == 0 || self.height == 0 {
            return ;
        }
        let last_x: usize = if max_x < self.width - 1 {
            max_x
        } else {
            self.width - 1
        };
        let last_y: usize = if max_y < self.height - 1 {
            max_y
        } else {
            self.height - 1
        };
        if min_x > last_x || min_y > last_y {
            return ;
        }
        let mut y: usize = min_y;
        while y <= last_y
            invariant
                min_y <= y <= last_y + 1,
                min_x <= last_x < self.width,
                last_y < self.height,
                self.wf(),
                self.same_frame(*old(self)),
                forall|cx: int, cy: int|
                    #[trigger] self.walkable_at(cx, cy) == (old(self).walkable_at(cx, cy)
                        && !Self::in_rect(cx, cy, min_x as int, min_y as int, last_x as int, y - 1)),
            decreases last_y + 1 - y,
        {
            let mut x: usize = min_x;
            while x <= last_x
                invariant
                    min_x <= x <= last_x + 1,
                    last_x < self.width,
                    min_y <= y <= last_y < self.height,
                    self.wf(),
                    self.same_frame(*old(self)),
                    forall|cx: int, cy: int|
                        #[trigger] self.walkable_at(cx, cy) == (old(self).walkable_at(cx, cy)
                            && !Self::in_rect(
                            cx,
                            cy,
                            min_x as int,
                            min_y as int,
                            last_x as int,
                            y - 1,
                        ) && !(cy == y && min_x <= cx < x)),
                decreases last_x + 1 - x,
            {
                self.set_obstacle(x, y);
                x = x + 1;
            }
            y = y + 1;
        }
    }

    /// Mark as obstacles the cells under a world rectangle centred on `pos`
    /// that reaches `half_extents` to each side. The part of the rectangle
    /// that lies off the grid is ignored.
    pub fn mark_obstacle_world(&mut self, pos: WorldPos, half_extents: WorldPos)
        requires
            old(self).wf(),
        ensures
            final(self).wf(),
            final(self).same_frame(*old(self)),
            forall|cx: int, cy: int|
                #[trigger] final(self).walkable_at(cx, cy) == (old(self).walkable_at(cx, cy)
                    && !old(self).covered_by(pos, half_extents, cx, cy)),
    {
        let size: i64 = self.cell_size as i64;
        let origin_x: i64 = self.offset.x as i64;
        let origin_z: i64 = self.offset.z as i64;
        let low_x: i64 = (pos.x as i64 - half_extents.x as i64 - origin_x) / size;
        let low_y: i64 = (pos.z as i64 - half_extents.z as i64 - origin_z) / size;
        let high_x: i64 = (pos.x as i64 + half_extents.x as i64 - origin_x) / size;
        let high_y: i64 = (pos.z as i64 + half_extents.z as i64 - origin_z) / size;
        assert(low_x == self.column_of(pos.x - half_extents.x));
        assert(high_x == self.column_of(pos.x + half_extents.x));
        assert(low_y == self.row_of(pos.z - half_extents.z));
        assert(high_y == self.row_of(pos.z + half_extents.z));
        if high_x < 0 || high_y < 0 || low_x > high_x || low_y > high_y {
            return ;
        }
        if (low_x > 0 && low_x as u64 >= self.width as u64) || (low_y > 0 && low_y as u64
            >= self.height as u64) {
            return ;
        }
        let min_x: usize = if low_x > 0 {
            low_x as usize
        } else {
            0
        };
        let min_y: usize = if low_y > 0 {
            low_y as usize
        } else {
            0
        };
        let max_x: usize = if (high_x as u64) < (self.width as u64) {
            high_x as usize
        } else {
            self.width
        };
        let max_y: usize = if (high_y as u64) < (self.height as u64) {
            high_y as usize
        } else {
            self.height
        };
        self.set_obstacle_rect(min_x, min_y, max_x, max_y);
    }

    /// The centre of a cell of the grid is a world position inside that cell.
    pub proof fn lemma_center_in_cell(self, x: int, y: int)
        requires
            self.wf(),
            self.in_bounds(x, y),
        ensures
            self.offset.x <= self.center_of(x, y).x <= i32::MAX,
            self.offset.z <= self.center_of(x, y).z <= i32::MAX,
            self.center_of(x, y).x == self.offset.x + x * self.cell_size + self.cell_size / 2,
            self.center_of(x, y).z == self.offset.z + y * self.cell_size + self.cell_size / 2,
            self.cell_of(self.center_of(x, y)) == Some((x as usize, y as usize)),
    {
        let s = self.cell_size as int;
        let w = self.width as int;
        let h = self.height as int;
        lemma_offset_in_cell(s, w, x);
        lemma_offset_in_cell(s, h, y);
    }
}

/// The point half a cell past the low edge of cell `k` is at most the grid's
/// span, and dividing its distance from the origin by the cell size gives `k`.
pub proof fn lemma_offset_in_cell(size: int, count: int, k: int)
    requires
        size >= 1,
        0 <= k < count,
    ensures
        0 <= k * size + size / 2 < count * size,
        trunc_div(k * size + size / 2, size) == k,
{
    let half = size / 2;
    assert(0 <= half < size);
    assert(0 <= k * size) by (nonlinear_arith)
        requires
            0 <= k,
            size >= 1,
    ;
    assert(k * size + size <= count * size) by (nonlinear_arith)
        requires
            k < count,
            size >= 1,
    ;
    assert((k * size + half) / size == k) by (nonlinear_arith)
        requires
            size >= 1,
            0 <= half < size,
    ;
}

} // verus!
