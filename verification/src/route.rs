//! Routes over the grid: sequences of cells joined by legal steps, what they
//! cost, and which cells they connect.

use crate::geometry::{
    floor_sqrt, isqrt, lemma_dot_bound, lemma_floor_sqrt, lemma_square_order, lemma_vector_sum_bound,
};
use crate::grid::{cell_index, NavGrid, WorldPos};
use vstd::prelude::*;

verus! {

/// Cost of a step to a cardinal neighbour. Costs are counted in parts of
/// such a step, so that the diagonal can be a whole number too.
pub const CARDINAL_COST: u128 = 408;

/// Cost of a step to a diagonal neighbour: the least whole number of parts
/// that is no less than the square root of two times a cardinal step.
pub const DIAGONAL_COST: u128 = 577;

/// Cost of the step between two adjacent cells.
pub open spec fn step_cost(a: (usize, usize), b: (usize, usize)) -> int {
    if a.0 != b.0 && a.1 != b.1 {
        DIAGONAL_COST as int
    } else {
        CARDINAL_COST as int
    }
}

/// Sum of the costs of the steps of `route`.
pub open spec fn route_cost(route: Seq<(usize, usize)>) -> int
    decreases route.len(),
{
    if route.len() <= 1 {
        0
    } else {
        route_cost(route.drop_last()) + step_cost(route[route.len() - 2], route[route.len() - 1])
    }
}

/// Square of the straight-line distance between two cells, in cells.
pub open spec fn cell_distance_squared(a: (usize, usize), b: (usize, usize)) -> int {
    (a.0 - b.0) * (a.0 - b.0) + (a.1 - b.1) * (a.1 - b.1)
}

/// Straight-line distance between two cells in parts of a cardinal step,
/// rounded down.
pub open spec fn heuristic_cost(a: (usize, usize), b: (usize, usize)) -> int {
    floor_sqrt(CARDINAL_COST * CARDINAL_COST * cell_distance_squared(a, b))
}

/// The estimate is consistent: from a cell it is no more than the cost of
/// a step to an adjacent cell and the estimate from there.
pub proof fn lemma_heuristic_step(a: (usize, usize), b: (usize, usize), goal: (usize, usize))
    requires
        -1 <= a.0 - b.0 <= 1,
        -1 <= a.1 - b.1 <= 1,
        a != b,
    ensures
        0 <= heuristic_cost(a, goal) <= step_cost(a, b) + heuristic_cost(b, goal),
{
    let s = CARDINAL_COST as int;
    let c = step_cost(a, b);
    let (ex, ey) = (a.0 - b.0, a.1 - b.1);
    let (ux, uy) = (s * (b.0 - goal.0), s * (b.1 - goal.1));
    let (vx, vy) = (s * ex, s * ey);
    let na = s * s * cell_distance_squared(a, goal);
    let nb = s * s * cell_distance_squared(b, goal);
    assert(nb == ux * ux + uy * uy) by (nonlinear_arith)
        requires
            ux == s * (b.0 - goal.0),
            uy == s * (b.1 - goal.1),
            nb == s * s * ((b.0 - goal.0) * (b.0 - goal.0) + (b.1 - goal.1) * (b.1 - goal.1)),
    ;
    assert(ux + vx == s * (a.0 - goal.0) && uy + vy == s * (a.1 - goal.1)) by (nonlinear_arith)
        requires
            ux == s * (b.0 - goal.0),
            uy == s * (b.1 - goal.1),
            vx == s * (a.0 - b.0),
            vy == s * (a.1 - b.1),
    ;
    assert(na == (ux + vx) * (ux + vx) + (uy + vy) * (uy + vy)) by (nonlinear_arith)
        requires
            ux + vx == s * (a.0 - goal.0),
            uy + vy == s * (a.1 - goal.1),
            na == s * s * ((a.0 - goal.0) * (a.0 - goal.0) + (a.1 - goal.1) * (a.1 - goal.1)),
    ;
    assert(vx * vx + vy * vy <= c * c) by {
        assert(ex * ex + ey * ey == 1 || ex * ex + ey * ey == 2) by (nonlinear_arith)
            requires
                -1 <= ex <= 1,
                -1 <= ey <= 1,
                !(ex == 0 && ey == 0),
        ;
        assert(vx * vx + vy * vy == s * s * (ex * ex + ey * ey)) by (nonlinear_arith)
            requires
                vx == s * ex,
                vy == s * ey,
        ;
        if a.0 != b.0 && a.1 != b.1 {
            assert(ex * ex == 1 && ey * ey == 1) by (nonlinear_arith)
                requires
                    -1 <= ex <= 1,
                    -1 <= ey <= 1,
                    ex != 0,
                    ey != 0,
            ;
        } else {
            assert(ex * ex + ey * ey == 1) by (nonlinear_arith)
                requires
                    -1 <= ex <= 1,
                    -1 <= ey <= 1,
                    ex == 0 || ey == 0,
                    !(ex == 0 && ey == 0),
            ;
        }
    }
    assert(0 <= na && 0 <= nb) by (nonlinear_arith)
        requires
            nb == ux * ux + uy * uy,
            na == (ux + vx) * (ux + vx) + (uy + vy) * (uy + vy),
    ;
    lemma_floor_sqrt(na);
    lemma_floor_sqrt(nb);
    let ha = floor_sqrt(na);
    let hb = floor_sqrt(nb);
    let p = hb + 1;
    lemma_vector_sum_bound(ux, uy, vx, vy, p, c);
    lemma_dot_bound(ux, uy, vx, vy, p, c);
    assert(nb < p * p);
    assert(na < (p + c) * (p + c));
    lemma_square_order(ha, p + c);
}

impl NavGrid {
    /// Whether `c` names a cell of the grid.
    pub open spec fn has_cell(self, c: (usize, usize)) -> bool {
        self.in_bounds(c.0 as int, c.1 as int)
    }

    /// Whether `c` is a cell of the grid that can be walked on.
    pub open spec fn walkable_cell(self, c: (usize, usize)) -> bool {
        self.walkable_at(c.0 as int, c.1 as int)
    }

    /// Position of cell `c` in the row-major bitmap.
    pub open spec fn index_of(self, c: (usize, usize)) -> int {
        cell_index(self.width as int, c.0 as int, c.1 as int)
    }

    /// Whether `route` starts on a walkable cell and moves by legal steps.
    pub open spec fn is_route(self, route: Seq<(usize, usize)>) -> bool {
        &&& route.len() >= 1
        &&& self.walkable_cell(route[0])
        &&& forall|i: int| 0 <= i < route.len() - 1 ==> self.step_ok(#[trigger] route[i], route[i + 1])
    }

    /// Whether `route` is a route from cell `a` to cell `b`.
    pub open spec fn connects(self, route: Seq<(usize, usize)>, a: (usize, usize), b: (usize, usize)) -> bool {
        self.is_route(route) && route[0] == a && route[route.len() - 1] == b
    }

    /// Whether some route leads from cell `a` to cell `b`.
    pub open spec fn reachable(self, a: (usize, usize), b: (usize, usize)) -> bool {
        exists|route: Seq<(usize, usize)>| #[trigger] self.connects(route, a, b)
    }

    /// Whether `route` leads from `a` to `b` and no route between them costs less.
    pub open spec fn is_shortest_route(
        self,
        route: Seq<(usize, usize)>,
        a: (usize, usize),
        b: (usize, usize),
    ) -> bool {
        &&& self.connects(route, a, b)
        &&& forall|other: Seq<(usize, usize)>| #[trigger]
            self.connects(other, a, b) ==> route_cost(route) <= route_cost(other)
    }

    /// The centres of the cells of `route`.
    pub open spec fn waypoints_of(self, route: Seq<(usize, usize)>) -> Seq<WorldPos> {
        Seq::new(route.len(), |i: int| self.center_of(route[i].0 as int, route[i].1 as int))
    }

    /// Every cell of a route is a walkable cell of the grid.
    pub proof fn lemma_route_cells_walkable(self, route: Seq<(usize, usize)>, i: int)
        requires
            self.is_route(route),
            0 <= i < route.len(),
        ensures
            self.walkable_cell(route[i]),
    {
        if i > 0 {
            assert(self.step_ok(route[i - 1], route[i]));
        }
    }

    /// The first cells of a route form a route, and a route extended by a
    /// legal step costs that step more.
    pub proof fn lemma_route_prefix(self, route: Seq<(usize, usize)>, k: int)
        requires
            self.is_route(route),
            1 <= k <= route.len(),
        ensures
            self.connects(route.take(k), route[0], route[k - 1]),
            k >= 2 ==> route_cost(route.take(k)) == route_cost(route.take(k - 1)) + step_cost(
                route[k - 2],
                route[k - 1],
            ),
    {
        let prefix = route.take(k);
        assert forall|i: int| 0 <= i < prefix.len() - 1 implies self.step_ok(
            #[trigger] prefix[i],
            prefix[i + 1],
        ) by {
            assert(self.step_ok(route[i], route[i + 1]));
        }
        if k >= 2 {
            assert(prefix.drop_last() =~= route.take(k - 1));
        }
    }

    /// A route extended by a legal step is a route to the new cell.
    pub proof fn lemma_route_extend(self, route: Seq<(usize, usize)>, a: (usize, usize), b: (usize, usize), c: (usize, usize))
        requires
            self.connects(route, a, b),
            self.step_ok(b, c),
        ensures
            self.connects(route.push(c), a, c),
            route_cost(route.push(c)) == route_cost(route) + step_cost(b, c),
    {
        let longer = route.push(c);
        assert forall|i: int| 0 <= i < longer.len() - 1 implies self.step_ok(
            #[trigger] longer[i],
            longer[i + 1],
        ) by {
            if i < route.len() - 1 {
                assert(self.step_ok(route[i], route[i + 1]));
            }
        }
        assert(longer.drop_last() =~= route);
    }

    /// Along a route the estimate falls by no more than the steps cost:
    /// from an earlier cell it is at most the cost of the steps to a later
    /// cell and the estimate from there.
    pub proof fn lemma_heuristic_along_route(
        self,
        route: Seq<(usize, usize)>,
        goal: (usize, usize),
        j: int,
        k: int,
    )
        requires
            self.is_route(route),
            0 <= j <= k < route.len(),
        ensures
            heuristic_cost(route[j], goal) <= route_cost(route.take(k + 1)) - route_cost(
                route.take(j + 1),
            ) + heuristic_cost(route[k], goal),
        decreases k - j,
    {
        if j < k {
            self.lemma_heuristic_along_route(route, goal, j, k - 1);
            self.lemma_route_prefix(route, k + 1);
            assert(self.step_ok(route[k - 1], route[k]));
            lemma_heuristic_step(route[k - 1], route[k], goal);
        }
    }

    /// Between two cells of the grid the estimate stays far below the
    /// range of the scores.
    pub proof fn lemma_heuristic_bounded(self, a: (usize, usize), b: (usize, usize))
        requires
            self.wf(),
            self.has_cell(a),
            self.has_cell(b),
        ensures
            0 <= heuristic_cost(a, b) <= 0x400_0000_0000,
    {
        self.lemma_dimensions_bounded();
        let dx = a.0 - b.0;
        let dy = a.1 - b.1;
        assert(0 <= dx * dx <= 0x1_0000_0000_0000_0000 && 0 <= dy * dy <= 0x1_0000_0000_0000_0000)
            by (nonlinear_arith)
            requires
                -0x1_0000_0000 <= dx <= 0x1_0000_0000,
                -0x1_0000_0000 <= dy <= 0x1_0000_0000,
        ;
        let n = CARDINAL_COST * CARDINAL_COST * cell_distance_squared(a, b);
        assert(CARDINAL_COST * CARDINAL_COST == 166464);
        assert(n == 166464 * (dx * dx + dy * dy));
        lemma_floor_sqrt(n);
        let h = floor_sqrt(n);
        assert(h * h <= n);
        let spread = dx * dx + dy * dy;
        assert(spread <= 0x2_0000_0000_0000_0000);
        assert(n == 166464 * spread);
        assert(n <= 0x5_1480_0000_0000_0000_0000) by (nonlinear_arith)
            requires
                n == 166464 * spread,
                spread <= 0x2_0000_0000_0000_0000,
        ;
        if h > 0x400_0000_0000 {
            assert(h * h > 0x10_0000_0000_0000_0000_0000) by (nonlinear_arith)
                requires
                    h > 0x400_0000_0000,
            ;
        }
    }

    /// Straight-line estimate of the cost of a route between two cells.
    pub fn heuristic(&self, a: (usize, usize), b: (usize, usize)) -> (estimate: u128)
        requires
            self.wf(),
            self.has_cell(a),
            self.has_cell(b),
        ensures
            estimate == heuristic_cost(a, b),
            estimate <= 0x400_0000_0000,
    {
        proof {
            self.lemma_dimensions_bounded();
        }
        let dx: u128 = if a.0 >= b.0 {
            (a.0 - b.0) as u128
        } else {
            (b.0 - a.0) as u128
        };
        let dy: u128 = if a.1 >= b.1 {
            (a.1 - b.1) as u128
        } else {
            (b.1 - a.1) as u128
        };
        assert(dx * dx == (a.0 - b.0) * (a.0 - b.0) && dy * dy == (a.1 - b.1) * (a.1 - b.1))
            by (nonlinear_arith)
            requires
                dx == a.0 - b.0 || dx == -(a.0 - b.0),
                dy == a.1 - b.1 || dy == -(a.1 - b.1),
        ;
        assert(dx * dx <= 0x1_0000_0000_0000_0000 && dy * dy <= 0x1_0000_0000_0000_0000)
            by (nonlinear_arith)
            requires
                0 <= dx <= 0x1_0000_0000,
                0 <= dy <= 0x1_0000_0000,
        ;
        let spread: u128 = CARDINAL_COST * CARDINAL_COST * (dx * dx + dy * dy);
        let estimate: u128 = isqrt(spread);
        proof {
            if estimate > 0x400_0000_0000 {
                assert(estimate * estimate > 0x400_0000_0000 * 0x400_0000_0000) by (nonlinear_arith)
                    requires
                        estimate > 0x400_0000_0000,
                ;
            }
        }
        estimate
    }

    /// A well-formed grid is at most `2^32` cells wide and high.
    pub proof fn lemma_dimensions_bounded(self)
        requires
            self.wf(),
        ensures
            self.width <= 0xffff_ffff,
            self.height <= 0xffff_ffff,
    {
        assert(self.width <= self.width * self.cell_size) by (nonlinear_arith)
            requires
                self.cell_size >= 1,
        ;
        assert(self.height <= self.height * self.cell_size) by (nonlinear_arith)
            requires
                self.cell_size >= 1,
        ;
    }
}

} // verus!
