//! Which moves between cells are legal, and the search for a walkable cell
//! near a blocked one.

use crate::grid::NavGrid;
use vstd::prelude::*;

verus! {

/// Rings around a blocked goal are searched for a walkable cell up to, but
/// not including, this distance.
pub const RETARGET_RING_LIMIT: usize = 10;

/// The eight moves in the order in which neighbours are listed: the four
/// cardinal ones, then the four diagonal ones.
pub open spec fn direction(k: int) -> (int, int) {
    if k == 0 {
        (0, 1)
    } else if k == 1 {
        (0, -1)
    } else if k == 2 {
        (1, 0)
    } else if k == 3 {
        (-1, 0)
    } else if k == 4 {
        (1, 1)
    } else if k == 5 {
        (-1, 1)
    } else if k == 6 {
        (1, -1)
    } else {
        (-1, -1)
    }
}

/// Distance between two cells counted in rings: the larger of the two
/// coordinate differences.
pub open spec fn ring_distance(dx: int, dy: int) -> int {
    let ax = if dx < 0 {
        -dx
    } else {
        dx
    };
    let ay = if dy < 0 {
        -dy
    } else {
        dy
    };
    if ax < ay {
        ay
    } else {
        ax
    }
}

/// Whether offset `(dx1, dy1)` is visited before `(dx2, dy2)` when rings are
/// scanned from the innermost outward, and each ring by rising `dx`, then
/// rising `dy`.
pub open spec fn scanned_before(dx1: int, dy1: int, dx2: int, dy2: int) -> bool {
    let r1 = ring_distance(dx1, dy1);
    let r2 = ring_distance(dx2, dy2);
    r1 < r2 || (r1 == r2 && (dx1 < dx2 || (dx1 == dx2 && dy1 < dy2)))
}

/// The `k`-th of the eight moves.
fn direction_at(k: usize) -> (d: (i8, i8))
    requires
        k < 8,
    ensures
        d.0 == direction(k as int).0,
        d.1 == direction(k as int).1,
{
    if k == 0 {
        (0, 1)
    } else if k == 1 {
        (0, -1)
    } else if k == 2 {
        (1, 0)
    } else if k == 3 {
        (-1, 0)
    } else if k == 4 {
        (1, 1)
    } else if k == 5 {
        (-1, 1)
    } else if k == 6 {
        (1, -1)
    } else {
        (-1, -1)
    }
}

/// Moves coordinate `v` by `d`, where the result is a coordinate at all.
fn shifted(v: usize, d: i8) -> (r: Option<usize>)
    requires
        -1 <= d <= 1,
    ensures
        r.is_some() <==> 0 <= v + d <= usize::MAX,
        r.is_some() ==> r.unwrap() == v + d,
{
    if d == 0 {
        Some(v)
    } else if d == 1 {
        if v < usize::MAX {
            Some(v + 1)
        } else {
            None
        }
    } else {
        if v > 0 {
            Some(v - 1)
        } else {
            None
        }
    }
}

impl NavGrid {
    /// Whether an agent on cell `(ax, ay)` may move to cell `(bx, by)` in one
    /// step: the target is one of the eight adjacent cells and walkable, and
    /// a diagonal move passes between two walkable cells.
    pub open spec fn step_allowed(self, ax: int, ay: int, bx: int, by: int) -> bool {
        let dx = bx - ax;
        let dy = by - ay;
        &&& -1 <= dx <= 1
        &&& -1 <= dy <= 1
        &&& !(dx == 0 && dy == 0)
        &&& self.walkable_at(bx, by)
        &&& (dx != 0 && dy != 0) ==> self.walkable_at(bx, ay) && self.walkable_at(ax, by)
    }

    /// `step_allowed` on pairs of cell coordinates.
    pub open spec fn step_ok(self, a: (usize, usize), b: (usize, usize)) -> bool {
        self.step_allowed(a.0 as int, a.1 as int, b.0 as int, b.1 as int)
    }

    /// The cells that can be reached from `(x, y)` in one step by one of the
    /// first `k` directions, in the order of the directions.
    pub open spec fn neighbors_among(self, x: int, y: int, k: int) -> Seq<(usize, usize)>
        decreases k,
    {
        if k <= 0 {
            Seq::empty()
        } else {
            let rest = self.neighbors_among(x, y, k - 1);
            let d = direction(k - 1);
            if self.step_allowed(x, y, x + d.0, y + d.1) {
                rest.push(((x + d.0) as usize, (y + d.1) as usize))
            } else {
                rest
            }
        }
    }

    /// A cell is listed among the first `k` directions exactly if one of
    /// those directions leads to it by a legal step.
    pub proof fn lemma_neighbors_among(self, x: int, y: int, k: int, b: (usize, usize))
        requires
            0 <= k <= 8,
            0 <= x <= usize::MAX,
            0 <= y <= usize::MAX,
        ensures
            self.neighbors_among(x, y, k).contains(b) <==> (exists|j: int|
                0 <= j < k && #[trigger] direction(j) == (b.0 - x, b.1 - y) && self.step_allowed(
                    x,
                    y,
                    b.0 as int,
                    b.1 as int,
                )),
        decreases k,
    {
        if k > 0 {
            self.lemma_neighbors_among(x, y, k - 1, b);
            let rest = self.neighbors_among(x, y, k - 1);
            let d = direction(k - 1);
            if self.step_allowed(x, y, x + d.0, y + d.1) {
                let c = ((x + d.0) as usize, (y + d.1) as usize);
                assert(self.neighbors_among(x, y, k) == rest.push(c));
                assert(rest.push(c).contains(b) <==> (rest.contains(b) || b == c)) by {
                    if rest.contains(b) {
                        let i = choose|i: int| 0 <= i < rest.len() && rest[i] == b;
                        assert(rest.push(c)[i] == b);
                    }
                    if b == c {
                        assert(rest.push(c)[rest.len() as int] == b);
                    }
                }
                if b == c {
                    assert(direction(k - 1) == (b.0 - x, b.1 - y));
                }
            }
        }
    }

    /// The neighbours of a cell are exactly the cells one legal step away.
    pub proof fn lemma_neighbors_exact(self, a: (usize, usize), b: (usize, usize))
        ensures
            self.neighbors_among(a.0 as int, a.1 as int, 8).contains(b) <==> self.step_ok(a, b),
    {
        let x = a.0 as int;
        let y = a.1 as int;
        self.lemma_neighbors_among(x, y, 8, b);
        if self.step_ok(a, b) {
            let dx = b.0 - x;
            let dy = b.1 - y;
            let j: int = if dx == 0 && dy == 1 {
                0
            } else if dx == 0 && dy == -1 {
                1
            } else if dx == 1 && dy == 0 {
                2
            } else if dx == -1 && dy == 0 {
                3
            } else if dx == 1 && dy == 1 {
                4
            } else if dx == -1 && dy == 1 {
                5
            } else if dx == 1 && dy == -1 {
                6
            } else {
                7
            };
            assert(direction(j) == (dx, dy));
        }
    }

    /// Cells one legal step away from `pos`: cardinal neighbours first, then
    /// diagonal ones, a diagonal only where both cells beside it are walkable.
    pub fn get_neighbors(&self, pos: (usize, usize)) -> (neighbors: Vec<(usize, usize)>)
        requires
            self.wf(),
        ensures
            neighbors@ == self.neighbors_among(pos.0 as int, pos.1 as int, 8),
            forall|b: (usize, usize)| #[trigger] neighbors@.contains(b) <==> self.step_ok(pos, b),
    {
        let mut neighbors: Vec<(usize, usize)> = Vec::with_capacity(8);
        let x: usize = pos.0;
        let y: usize = pos.1;
        let mut k: usize = 0;
        while k < 8
            invariant
                k <= 8,
                self.wf(),
                x == pos.0,
                y == pos.1,
                neighbors@ == self.neighbors_among(x as int, y as int, k as int),
            decreases 8 - k,
        {
            let d: (i8, i8) = direction_at(k);
            let nx: Option<usize> = shifted(x, d.0);
            let ny: Option<usize> = shifted(y, d.1);
            let mut allowed: bool = false;
            let mut cell: (usize, usize) = (0, 0);
            if nx.is_some() && ny.is_some() {
                cell = (nx.unwrap(), ny.unwrap());
                if self.is_walkable(cell.0, cell.1) {
                    if d.0 != 0 && d.1 != 0 {
                        allowed = self.is_walkable(cell.0, y) && self.is_walkable(x, cell.1);
                    } else {
                        allowed = true;
                    }
                }
            }
            assert(allowed == self.step_allowed(x as int, y as int, x + d.0, y + d.1));
            if allowed {
                neighbors.push(cell);
            }
            k = k + 1;
        }
        proof {
            assert forall|b: (usize, usize)| #[trigger]
                neighbors@.contains(b) <==> self.step_ok(pos, b) by {
                self.lemma_neighbors_exact(pos, b);
            }
        }
        neighbors
    }

    /// Whether `found` is what the ring search around `(px, py)` yields: the
    /// first walkable cell in scanning order within the ring limit, or
    /// nothing where those rings hold no walkable cell.
    pub open spec fn nearest_walkable_is(self, px: int, py: int, found: Option<(usize, usize)>) -> bool {
        match found {
            Some(cell) => {
                let dx = cell.0 - px;
                let dy = cell.1 - py;
                &&& 1 <= ring_distance(dx, dy) < RETARGET_RING_LIMIT
                &&& self.walkable_at(cell.0 as int, cell.1 as int)
                &&& forall|ex: int, ey: int|
                    1 <= ring_distance(ex, ey) && scanned_before(ex, ey, dx, dy) ==> !#[trigger] self.walkable_at(
                        px + ex,
                        py + ey,
                    )
            },
            None => forall|ex: int, ey: int|
                1 <= ring_distance(ex, ey) < RETARGET_RING_LIMIT ==> !#[trigger] self.walkable_at(
                    px + ex,
                    py + ey,
                ),
        }
    }

    /// Search in expanding rings around `pos` for a walkable cell.
    pub fn find_nearest_walkable(&self, pos: (usize, usize)) -> (found: Option<(usize, usize)>)
        requires
            self.wf(),
        ensures
            self.nearest_walkable_is(pos.0 as int, pos.1 as int, found),
    {
        let px: i128 = pos.0 as i128;
        let py: i128 = pos.1 as i128;
        let mut radius: i128 = 1;
        while radius < RETARGET_RING_LIMIT as i128
            invariant
                1 <= radius <= RETARGET_RING_LIMIT,
                self.wf(),
                px == pos.0,
                py == pos.1,
                forall|ex: int, ey: int|
                    1 <= ring_distance(ex, ey) < radius ==> !#[trigger] self.walkable_at(
                        px + ex,
                        py + ey,
                    ),
            decreases RETARGET_RING_LIMIT - radius,
        {
            let mut dx: i128 = -radius;
            while dx <= radius
                invariant
                    1 <= radius < RETARGET_RING_LIMIT,
                    -radius <= dx <= radius + 1,
                    self.wf(),
                    px == pos.0,
                    py == pos.1,
                    forall|ex: int, ey: int|
                        1 <= ring_distance(ex, ey) && (ring_distance(ex, ey) < radius || (
                        ring_distance(ex, ey) == radius && ex < dx)) ==> !#[trigger] self.walkable_at(
                            px + ex,
                            py + ey,
                        ),
                decreases radius + 1 - dx,
            {
                let mut dy: i128 = -radius;
                while dy <= radius
                    invariant
                        1 <= radius < RETARGET_RING_LIMIT,
                        -radius <= dx <= radius,
                        -radius <= dy <= radius + 1,
                        self.wf(),
                        px == pos.0,
                        py == pos.1,
                        forall|ex: int, ey: int|
                            1 <= ring_distance(ex, ey) && (ring_distance(ex, ey) < radius || (
                            ring_distance(ex, ey) == radius && (ex < dx || (ex == dx && ey < dy))))
                                ==> !#[trigger] self.walkable_at(px + ex, py + ey),
                    decreases radius + 1 - dy,
                {
                    let on_ring: bool = dx == radius || dx == -radius || dy == radius || dy
                        == -radius;
                    if on_ring {
                        let nx: i128 = px + dx;
                        let ny: i128 = py + dy;
                        if nx >= 0 && nx < self.width as i128 && ny >= 0 && ny < self.height as i128 {
                            if self.is_walkable(nx as usize, ny as usize) {
                                return Some((nx as usize, ny as usize));
                            }
                        }
                    }
                    dy = dy + 1;
                }
                dx = dx + 1;
            }
            radius = radius + 1;
        }
        None
    }
}

} // verus!
