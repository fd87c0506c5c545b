//! Path queries between world positions: the checks around the search and
//! what its callers can rely on.

use crate::geometry::{
    distance_squared, lemma_ceil_sqrt_of_diagonal, lemma_ceil_sqrt_of_square, lemma_distance_to_self,
    lemma_path_not_shorter_than_line, scaled_distance, scaled_length,
};
use crate::grid::{lemma_offset_in_cell, trunc_div, NavGrid, WorldPos};
use crate::route::{route_cost, step_cost, CARDINAL_COST};
use crate::neighbors::scanned_before;
use crate::simplify::{lemma_part_of_difference, picked, sample_point};
use vstd::prelude::*;

verus! {

/// Why a search produced no path.
#[derive(Clone, Copy, Debug, PartialEq, Eq, Structural)]
pub enum PathError {
    /// The start or the end position lies off the grid.
    OutOfBounds,
    /// The cell of the start position is not walkable.
    StartBlocked,
    /// No route leads to the goal, or no walkable cell lies near the end.
    NoPath,
}

impl NavGrid {
    /// The walkable cell that the ring search around `c` yields, if any.
    pub open spec fn nearest_walkable(self, c: (usize, usize)) -> Option<(usize, usize)> {
        choose|found: Option<(usize, usize)>| self.nearest_walkable_is(c.0 as int, c.1 as int, found)
    }

    /// The ring search has one outcome only.
    pub proof fn lemma_nearest_walkable_unique(
        self,
        px: int,
        py: int,
        first: Option<(usize, usize)>,
        second: Option<(usize, usize)>,
    )
        requires
            self.nearest_walkable_is(px, py, first),
            self.nearest_walkable_is(px, py, second),
        ensures
            first == second,
    {
        match (first, second) {
            (Some(a), Some(b)) => {
                let (ax, ay) = (a.0 - px, a.1 - py);
                let (bx, by) = (b.0 - px, b.1 - py);
                assert(self.walkable_at(px + ax, py + ay));
                assert(self.walkable_at(px + bx, py + by));
                if a != b {
                    assert(scanned_before(ax, ay, bx, by) || scanned_before(bx, by, ax, ay));
                }
            },
            (Some(a), None) => {
                let (ax, ay) = (a.0 - px, a.1 - py);
                assert(self.walkable_at(px + ax, py + ay));
            },
            (None, Some(b)) => {
                let (bx, by) = (b.0 - px, b.1 - py);
                assert(self.walkable_at(px + bx, py + by));
            },
            (None, None) => {},
        }
    }

    /// The cell that a search toward the cell `end` heads for: `end` itself
    /// where it is walkable, else the nearest walkable cell around it.
    pub open spec fn goal_for(self, end: (usize, usize)) -> Option<(usize, usize)> {
        if self.walkable_cell(end) {
            Some(end)
        } else {
            self.nearest_walkable(end)
        }
    }

    /// Whether `result` is what a search from `start` to `end` yields.
    pub open spec fn search_outcome(
        self,
        start: WorldPos,
        end: WorldPos,
        result: Result<Vec<WorldPos>, PathError>,
    ) -> bool {
        match (self.cell_of(start), self.cell_of(end)) {
            (Some(from), Some(to)) => {
                if !self.walkable_cell(from) {
                    result == Err::<Vec<WorldPos>, PathError>(PathError::StartBlocked)
                } else {
                    match self.goal_for(to) {
                        Some(goal) => {
                            if self.reachable(from, goal) {
                                result is Ok && self.path_between(from, goal, result->Ok_0@)
                            } else {
                                result == Err::<Vec<WorldPos>, PathError>(PathError::NoPath)
                            }
                        },
                        None => result == Err::<Vec<WorldPos>, PathError>(PathError::NoPath),
                    }
                }
            },
            _ => result == Err::<Vec<WorldPos>, PathError>(PathError::OutOfBounds),
        }
    }

    /// Find a path from `start` to `end` with the A* algorithm.
    pub fn find_path(&self, start: WorldPos, end: WorldPos) -> (result: Result<Vec<WorldPos>, PathError>)
        requires
            self.wf(),
        ensures
            self.search_outcome(start, end, result),
    {
        let start_node: (usize, usize) = match self.world_to_grid(start) {
            Some(cell) => cell,
            None => {
                return Err(PathError::OutOfBounds);
            },
        };
        let end_node: (usize, usize) = match self.world_to_grid(end) {
            Some(cell) => cell,
            None => {
                return Err(PathError::OutOfBounds);
            },
        };
        if !self.is_walkable(start_node.0, start_node.1) {
            return Err(PathError::StartBlocked);
        }
        let goal: (usize, usize) = if !self.is_walkable(end_node.0, end_node.1) {
            let found: Option<(usize, usize)> = self.find_nearest_walkable(end_node);
            proof {
                self.lemma_nearest_walkable_unique(
                    end_node.0 as int,
                    end_node.1 as int,
                    found,
                    self.nearest_walkable(end_node),
                );
            }
            match found {
                Some(cell) => cell,
                None => {
                    return Err(PathError::NoPath);
                },
            }
        } else {
            end_node
        };
        match self.find_route(start_node, goal) {
            Some(path) => Ok(path),
            None => Err(PathError::NoPath),
        }
    }
}

/// Dividing a distance into a span of `count` cells by the cell size gives
/// the number of a cell of the span, and the centre of that cell is less
/// than a cell away.
pub proof fn lemma_cell_of_offset(size: int, count: int, d: int)
    requires
        size >= 1,
        0 <= d < count * size,
    ensures
        0 <= trunc_div(d, size) < count,
        -size < trunc_div(d, size) * size + size / 2 - d < size,
{
    let q = d / size;
    assert(d == size * q + d % size && 0 <= d % size < size) by (nonlinear_arith)
        requires
            size >= 1,
            q == d / size,
    ;
    assert(0 <= q < count) by (nonlinear_arith)
        requires
            size >= 1,
            0 <= d < count * size,
            d == size * q + d % size,
            0 <= d % size < size,
    ;
    assert(q * size == size * q) by (nonlinear_arith);
}

impl NavGrid {
    /// Whether `pos` lies within the rectangle of the world that the grid covers.
    pub open spec fn covers(self, pos: WorldPos) -> bool {
        &&& self.offset.x <= pos.x < self.offset.x + self.width * self.cell_size
        &&& self.offset.z <= pos.z < self.offset.z + self.height * self.cell_size
    }

    /// World position of the centre of cell `c`.
    pub open spec fn center_of_cell(self, c: (usize, usize)) -> WorldPos {
        self.center_of(c.0 as int, c.1 as int)
    }

    /// Whether `a` and `b` are less than one cell apart along each axis.
    pub open spec fn within_one_cell(self, a: WorldPos, b: WorldPos) -> bool {
        &&& -self.cell_size < a.x - b.x < self.cell_size
        &&& -self.cell_size < a.z - b.z < self.cell_size
    }

    /// A position that the grid covers falls in a cell of the grid, less
    /// than one cell from that cell's centre.
    pub proof fn lemma_covered_position(self, pos: WorldPos)
        requires
            self.wf(),
            self.covers(pos),
        ensures
            self.cell_of(pos) is Some,
            self.within_one_cell(self.center_of_cell(self.cell_of(pos)->0), pos),
    {
        let s = self.cell_size as int;
        lemma_cell_of_offset(s, self.width as int, pos.x - self.offset.x);
        lemma_cell_of_offset(s, self.height as int, pos.z - self.offset.z);
        let cell = self.cell_of(pos)->0;
        self.lemma_center_in_cell(cell.0 as int, cell.1 as int);
    }

    /// On a grid without obstacles a route of cardinal steps leads from
    /// every cell to every other.
    pub proof fn lemma_open_grid_connected(self, a: (usize, usize), b: (usize, usize))
        requires
            self.all_walkable(),
            self.has_cell(a),
            self.has_cell(b),
        ensures
            self.reachable(a, b),
        decreases
                (if a.0 <= b.0 {
                    b.0 - a.0
                } else {
                    a.0 - b.0
                }) + (if a.1 <= b.1 {
                    b.1 - a.1
                } else {
                    a.1 - b.1
                }),
    {
        assert(self.walkable_at(a.0 as int, a.1 as int));
        assert(self.walkable_at(b.0 as int, b.1 as int));
        if a == b {
            let route = seq![a];
            assert(self.connects(route, a, b));
        } else {
            let before: (usize, usize) = if a.0 < b.0 {
                ((b.0 - 1) as usize, b.1)
            } else if a.0 > b.0 {
                ((b.0 + 1) as usize, b.1)
            } else if a.1 < b.1 {
                (b.0, (b.1 - 1) as usize)
            } else {
                (b.0, (b.1 + 1) as usize)
            };
            self.lemma_open_grid_connected(a, before);
            let route = choose|route: Seq<(usize, usize)>| #[trigger] self.connects(route, a, before);
            assert(self.step_ok(before, b));
            self.lemma_route_extend(route, a, before, b);
            assert(self.connects(route.push(b), a, b));
        }
    }

    /// A path that the search yields between two cells starts at the centre
    /// of the first and ends at the centre of the second.
    pub proof fn lemma_path_ends(self, from: (usize, usize), goal: (usize, usize), path: Seq<WorldPos>)
        requires
            self.path_between(from, goal, path),
        ensures
            path.len() >= 1,
            path[0] == self.center_of_cell(from),
            path[path.len() - 1] == self.center_of_cell(goal),
    {
        let route = choose|route: Seq<(usize, usize)>| #[trigger]
            self.is_shortest_route(route, from, goal) && path == self.simplified(
                self.waypoints_of(route),
            );
        self.lemma_simplified_is_selection(self.waypoints_of(route));
    }

    /// On a grid without obstacles, a search between two positions that the
    /// grid covers yields a path whose first waypoint lies within one cell
    /// of the start and whose last waypoint lies within one cell of the end.
    pub proof fn lemma_open_grid_search(
        self,
        start: WorldPos,
        end: WorldPos,
        result: Result<Vec<WorldPos>, PathError>,
    )
        requires
            self.wf(),
            self.all_walkable(),
            self.covers(start),
            self.covers(end),
            self.search_outcome(start, end, result),
        ensures
            result is Ok,
            result->Ok_0@.len() >= 1,
            self.within_one_cell(result->Ok_0@[0], start),
            self.within_one_cell(result->Ok_0@[result->Ok_0@.len() - 1], end),
    {
        self.lemma_covered_position(start);
        self.lemma_covered_position(end);
        let from = self.cell_of(start)->0;
        let to = self.cell_of(end)->0;
        assert(self.walkable_at(from.0 as int, from.1 as int));
        assert(self.walkable_at(to.0 as int, to.1 as int));
        self.lemma_open_grid_connected(from, to);
        self.lemma_path_ends(from, to, result->Ok_0@);
    }

    /// A search from a position whose cell is blocked fails with
    /// `StartBlocked`, whatever cell of the grid the end lies in.
    pub proof fn lemma_blocked_start(
        self,
        start: WorldPos,
        end: WorldPos,
        result: Result<Vec<WorldPos>, PathError>,
    )
        requires
            self.search_outcome(start, end, result),
            self.cell_of(start) is Some,
            self.cell_of(end) is Some,
            !self.walkable_cell(self.cell_of(start)->0),
        ensures
            result == Err::<Vec<WorldPos>, PathError>(PathError::StartBlocked),
    {
    }

    /// On a grid without a walkable cell every search fails: with
    /// `StartBlocked` between two positions on the grid, with `OutOfBounds`
    /// where one of them lies off it.
    pub proof fn lemma_blocked_grid_search(
        self,
        start: WorldPos,
        end: WorldPos,
        result: Result<Vec<WorldPos>, PathError>,
    )
        requires
            self.none_walkable(),
            self.search_outcome(start, end, result),
        ensures
            result is Err,
            result->Err_0 == if self.cell_of(start) is Some && self.cell_of(end) is Some {
                PathError::StartBlocked
            } else {
                PathError::OutOfBounds
            },
    {
        if self.cell_of(start) is Some {
            let from = self.cell_of(start)->0;
            assert(!self.walkable_at(from.0 as int, from.1 as int));
        }
    }
}

impl NavGrid {
    /// A path that the search yields between two cells is no shorter than
    /// the straight line between the centres of the two cells, and no
    /// longer than the walk from centre to centre along a shortest route,
    /// at every scale of measurement.
    pub proof fn lemma_found_path_length(
        self,
        from: (usize, usize),
        goal: (usize, usize),
        path: Seq<WorldPos>,
        scale: int,
    )
        requires
            self.path_between(from, goal, path),
            0 <= scale,
        ensures
            scaled_distance(self.center_of_cell(from), self.center_of_cell(goal), scale)
                <= scaled_length(path, scale),
            exists|route: Seq<(usize, usize)>| #[trigger]
                self.is_shortest_route(route, from, goal) && scaled_length(path, scale)
                    <= scaled_length(self.waypoints_of(route), scale),
    {
        self.lemma_path_ends(from, goal, path);
        lemma_path_not_shorter_than_line(path, scale);
        let route = choose|route: Seq<(usize, usize)>| #[trigger]
            self.is_shortest_route(route, from, goal) && path == self.simplified(
                self.waypoints_of(route),
            );
        self.lemma_simplified_not_longer(self.waypoints_of(route), scale);
    }
}

impl NavGrid {
    /// The centre of a cell of the grid is a position that the grid covers.
    pub proof fn lemma_center_covered(self, c: (usize, usize))
        requires
            self.wf(),
            self.has_cell(c),
        ensures
            self.covers(self.center_of_cell(c)),
    {
        self.lemma_center_in_cell(c.0 as int, c.1 as int);
        lemma_offset_in_cell(self.cell_size as int, self.width as int, c.0 as int);
        lemma_offset_in_cell(self.cell_size as int, self.height as int, c.1 as int);
    }

    /// Every sample of a segment between two positions that the grid covers
    /// is a position that the grid covers.
    pub proof fn lemma_sample_covered(self, a: WorldPos, b: WorldPos, i: int)
        requires
            self.wf(),
            self.covers(a),
            self.covers(b),
            1 <= i < self.sample_count(a, b),
        ensures
            self.covers(sample_point(a, b, i, self.sample_count(a, b))),
    {
        let steps = self.sample_count(a, b);
        lemma_part_of_difference(b.x - a.x, i, steps);
        lemma_part_of_difference(b.z - a.z, i, steps);
    }

    /// On a grid without obstacles the straight line between two positions
    /// that the grid covers is clear.
    pub proof fn lemma_open_grid_line_clear(self, a: WorldPos, b: WorldPos)
        requires
            self.wf(),
            self.all_walkable(),
            self.covers(a),
            self.covers(b),
        ensures
            self.line_clear(a, b),
    {
        assert forall|i: int| 1 <= i < self.sample_count(a, b) implies #[trigger] self.sample_walkable(
            a,
            b,
            i,
        ) by {
            let sample = sample_point(a, b, i, self.sample_count(a, b));
            self.lemma_sample_covered(a, b, i);
            self.lemma_covered_position(sample);
            let cell = self.cell_of(sample)->0;
            assert(self.in_bounds(cell.0 as int, cell.1 as int));
            assert(self.walkable_at(cell.0 as int, cell.1 as int));
        }
    }

    /// On a grid without obstacles string-pulling keeps the two ends of a
    /// route's waypoints only.
    pub proof fn lemma_open_grid_simplified(self, route: Seq<(usize, usize)>)
        requires
            self.wf(),
            self.all_walkable(),
            self.is_route(route),
        ensures
            self.simplified(self.waypoints_of(route)) == if route.len() == 1 {
                seq![self.center_of_cell(route[0])]
            } else {
                seq![self.center_of_cell(route[0]), self.center_of_cell(route[route.len() - 1])]
            },
    {
        let raw = self.waypoints_of(route);
        let last = raw.len() - 1;
        if route.len() == 1 {
            assert(self.kept_after(raw, 0) =~= Seq::<int>::empty());
            assert(self.simplified(raw) =~= seq![self.center_of_cell(route[0])]);
        } else {
            self.lemma_route_cells_walkable(route, 0);
            self.lemma_route_cells_walkable(route, last);
            self.lemma_center_covered(route[0]);
            self.lemma_center_covered(route[last]);
            self.lemma_open_grid_line_clear(raw[0], raw[last]);
            assert(self.furthest_visible(raw, 0, last) == last);
            assert(self.kept_after(raw, last) =~= Seq::<int>::empty());
            assert(self.kept_after(raw, 0) =~= seq![last]);
            assert(self.kept_indices(raw) =~= seq![0int, last]);
            assert(picked(raw, seq![0int, last]) =~= seq![raw[0], raw[last]]);
        }
    }

    /// On a grid without obstacles the path that the search yields is the
    /// straight line between its ends: it has two waypoints at most, and
    /// is exactly as long as its ends are apart.
    pub proof fn lemma_open_grid_path_straight(
        self,
        from: (usize, usize),
        goal: (usize, usize),
        path: Seq<WorldPos>,
        scale: int,
    )
        requires
            self.wf(),
            self.all_walkable(),
            self.path_between(from, goal, path),
        ensures
            1 <= path.len() <= 2,
            path[0] == self.center_of_cell(from),
            path[path.len() - 1] == self.center_of_cell(goal),
            scaled_length(path, scale) == scaled_distance(path[0], path[path.len() - 1], scale),
    {
        let route = choose|route: Seq<(usize, usize)>| #[trigger]
            self.is_shortest_route(route, from, goal) && path == self.simplified(
                self.waypoints_of(route),
            );
        self.lemma_open_grid_simplified(route);
        if path.len() == 1 {
            lemma_distance_to_self(path[0], scale);
        } else {
            assert(path.drop_last() =~= seq![path[0]]);
            assert(scaled_length(path.drop_last(), scale) == 0);
        }
    }
}

impl NavGrid {
    /// `CARDINAL_COST` times the distance between the centres of two
    /// adjacent cells, measured at `scale` and rounded up, is at most the
    /// cost of the step times the cell side at that scale and one: a
    /// cardinal step is one cell side long, a diagonal step no more than
    /// `DIAGONAL_COST / CARDINAL_COST` cell sides.
    pub proof fn lemma_step_length(self, a: (usize, usize), b: (usize, usize), scale: int)
        requires
            self.wf(),
            self.has_cell(a),
            self.has_cell(b),
            -1 <= b.0 - a.0 <= 1,
            -1 <= b.1 - a.1 <= 1,
            a != b,
            0 <= scale,
        ensures
            0 <= CARDINAL_COST * scaled_distance(self.center_of_cell(a), self.center_of_cell(b), scale)
                <= (scale * self.cell_size + 1) * step_cost(a, b),
    {
        let size = self.cell_size as int;
        let side = scale * size;
        let (ex, ey) = (b.0 - a.0, b.1 - a.1);
        self.lemma_center_in_cell(a.0 as int, a.1 as int);
        self.lemma_center_in_cell(b.0 as int, b.1 as int);
        let (pa, pb) = (self.center_of_cell(a), self.center_of_cell(b));
        assert(pb.x - pa.x == ex * size && pb.z - pa.z == ey * size) by (nonlinear_arith)
            requires
                pa.x == self.offset.x + a.0 * size + size / 2,
                pb.x == self.offset.x + b.0 * size + size / 2,
                pa.z == self.offset.z + a.1 * size + size / 2,
                pb.z == self.offset.z + b.1 * size + size / 2,
                ex == b.0 - a.0,
                ey == b.1 - a.1,
        ;
        let (u, v) = (ex * size, ey * size);
        let area = size * size;
        let n = scale * scale * distance_squared(pa, pb);
        assert(0 <= side) by (nonlinear_arith)
            requires
                side == scale * size,
                0 <= scale,
                1 <= size,
        ;
        assert(side * side == scale * scale * area) by (nonlinear_arith)
            requires
                side == scale * size,
                area == size * size,
        ;
        assert(u * u == if ex == 0 {
            0
        } else {
            area
        }) by (nonlinear_arith)
            requires
                u == ex * size,
                area == size * size,
                -1 <= ex <= 1,
        ;
        assert(v * v == if ey == 0 {
            0
        } else {
            area
        }) by (nonlinear_arith)
            requires
                v == ey * size,
                area == size * size,
                -1 <= ey <= 1,
        ;
        let factor = scale * size + 1;
        let cost = step_cost(a, b);
        if a.0 != b.0 && a.1 != b.1 {
            assert(distance_squared(pa, pb) == 2 * area);
            assert(n == 2 * (side * side)) by (nonlinear_arith)
                requires
                    n == scale * scale * (2 * area),
                    side * side == scale * scale * area,
            ;
            lemma_ceil_sqrt_of_diagonal(n, side);
            assert(factor * cost == 577 * (side + 1)) by (nonlinear_arith)
                requires
                    factor == side + 1,
                    cost == 577,
            ;
        } else {
            assert(distance_squared(pa, pb) == area);
            assert(n == side * side);
            lemma_ceil_sqrt_of_square(n, side);
            assert(factor * cost == 408 * (side + 1)) by (nonlinear_arith)
                requires
                    factor == side + 1,
                    cost == 408,
            ;
        }
    }

    /// `CARDINAL_COST` times the length of the walk from centre to centre
    /// along a route, measured at `scale` with every leg rounded up, is at
    /// most the cost of the route times the cell side at that scale and one.
    pub proof fn lemma_walk_length(self, route: Seq<(usize, usize)>, scale: int)
        requires
            self.wf(),
            self.is_route(route),
            0 <= scale,
        ensures
            0 <= CARDINAL_COST * scaled_length(self.waypoints_of(route), scale) <= (scale
                * self.cell_size + 1) * route_cost(route),
        decreases route.len(),
    {
        let raw = self.waypoints_of(route);
        let last = route.len() - 1;
        if last >= 1 {
            let shorter = route.drop_last();
            self.lemma_route_prefix(route, last);
            assert(shorter =~= route.take(last));
            self.lemma_walk_length(shorter, scale);
            assert(raw.drop_last() =~= self.waypoints_of(shorter));
            self.lemma_route_cells_walkable(route, last - 1);
            self.lemma_route_cells_walkable(route, last);
            assert(self.step_ok(route[last - 1], route[last]));
            self.lemma_step_length(route[last - 1], route[last], scale);
            let factor = scale * self.cell_size + 1;
            assert(factor * route_cost(route) == factor * route_cost(shorter) + factor * step_cost(
                route[last - 1],
                route[last],
            )) by (nonlinear_arith)
                requires
                    route_cost(route) == route_cost(shorter) + step_cost(route[last - 1], route[last]),
            ;
        } else {
            assert(scaled_length(raw, scale) == 0);
            assert(route_cost(route) == 0);
        }
    }

    /// The detour of a path that the search yields is bounded by the
    /// cheapest route: `CARDINAL_COST` times the length of the path,
    /// measured at `scale` with every leg rounded up, is at most the cost of
    /// any route between the two cells times the cell side at that scale
    /// and one.
    pub proof fn lemma_found_path_detour(
        self,
        from: (usize, usize),
        goal: (usize, usize),
        path: Seq<WorldPos>,
        other: Seq<(usize, usize)>,
        scale: int,
    )
        requires
            self.wf(),
            self.path_between(from, goal, path),
            self.connects(other, from, goal),
            0 <= scale,
        ensures
            CARDINAL_COST * scaled_length(path, scale) <= (scale * self.cell_size + 1) * route_cost(
                other,
            ),
    {
        let route = choose|route: Seq<(usize, usize)>| #[trigger]
            self.is_shortest_route(route, from, goal) && path == self.simplified(
                self.waypoints_of(route),
            );
        self.lemma_simplified_not_longer(self.waypoints_of(route), scale);
        self.lemma_walk_length(route, scale);
        let factor = scale * self.cell_size + 1;
        assert(factor * route_cost(route) <= factor * route_cost(other)) by (nonlinear_arith)
            requires
                route_cost(route) <= route_cost(other),
                factor == scale * self.cell_size + 1,
                0 <= scale,
        ;
    }
}

} // verus!
