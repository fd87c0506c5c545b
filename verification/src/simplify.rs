//! Line-of-sight tests between world positions and the removal of waypoints
//! that a straight walk makes unnecessary.

use crate::geometry::{
    ceil_sqrt, distance_squared, isqrt, lemma_ceil_sqrt, lemma_selection_not_longer, scaled_length,
};
use crate::grid::{trunc_div, NavGrid, WorldPos};
use vstd::prelude::*;

verus! {

/// The point `i` parts of `steps` along the way from `a` to `b`, each
/// coordinate rounded toward `a`.
pub open spec fn sample_point(a: WorldPos, b: WorldPos, i: int, steps: int) -> WorldPos {
    WorldPos {
        x: (a.x + trunc_div((b.x - a.x) * i, steps)) as i32,
        z: (a.z + trunc_div((b.z - a.z) * i, steps)) as i32,
    }
}

/// A part of a difference lies between zero and the difference.
pub proof fn lemma_part_of_difference(d: int, i: int, steps: int)
    requires
        0 <= i <= steps,
        0 < steps,
    ensures
        d >= 0 ==> 0 <= trunc_div(d * i, steps) <= d,
        d <= 0 ==> d <= trunc_div(d * i, steps) <= 0,
{
    if d >= 0 {
        assert(0 <= d * i <= d * steps) by (nonlinear_arith)
            requires
                0 <= d,
                0 <= i <= steps,
        ;
        assert(0 <= (d * i) / steps <= d) by (nonlinear_arith)
            requires
                0 <= d * i <= d * steps,
                0 < steps,
        ;
    } else {
        let e = -d;
        assert(d * i == -(e * i)) by (nonlinear_arith)
            requires
                e == -d,
        ;
        assert(0 <= e * i <= e * steps) by (nonlinear_arith)
            requires
                0 <= e,
                0 <= i <= steps,
        ;
        assert(0 <= (e * i) / steps <= e) by (nonlinear_arith)
            requires
                0 <= e * i <= e * steps,
                0 < steps,
        ;
        if d * i == 0 {
            assert(0int / steps == 0) by (nonlinear_arith)
                requires
                    0 < steps,
            ;
        }
    }
}

impl NavGrid {
    /// Into how many equal steps the segment from `a` to `b` is cut for
    /// sampling: the least number that makes a step no longer than half a
    /// cell.
    pub open spec fn sample_count(self, a: WorldPos, b: WorldPos) -> int {
        (ceil_sqrt(4 * distance_squared(a, b)) + self.cell_size - 1) / (self.cell_size as int)
    }

    /// The sample count is the least number of steps of half a cell that
    /// reach from `a` to `b`: so many steps span the segment, and one step
    /// fewer does not.
    pub proof fn lemma_sample_spacing(self, a: WorldPos, b: WorldPos)
        requires
            self.cell_size >= 1,
        ensures
            0 <= self.sample_count(a, b),
            4 * distance_squared(a, b) <= (self.sample_count(a, b) * self.cell_size) * (
            self.sample_count(a, b) * self.cell_size),
            self.sample_count(a, b) >= 1 ==> ((self.sample_count(a, b) - 1) * self.cell_size) * ((
            self.sample_count(a, b) - 1) * self.cell_size) < 4 * distance_squared(a, b),
            a == b ==> self.sample_count(a, b) == 0,
    {
        let size = self.cell_size as int;
        let span = 4 * distance_squared(a, b);
        assert(span >= 0) by (nonlinear_arith)
            requires
                span == 4 * ((b.x - a.x) * (b.x - a.x) + (b.z - a.z) * (b.z - a.z)),
        ;
        lemma_ceil_sqrt(span);
        let up = ceil_sqrt(span);
        let n = (up + size - 1) / size;
        assert(n * size >= up && (n - 1) * size < up && n >= 0) by (nonlinear_arith)
            requires
                n == (up + size - 1) / size,
                size >= 1,
                up >= 0,
        ;
        assert((n * size) * (n * size) >= up * up) by (nonlinear_arith)
            requires
                n * size >= up,
                up >= 0,
        ;
        if n >= 1 {
            let less = (n - 1) * size;
            assert(less >= 0) by (nonlinear_arith)
                requires
                    n >= 1,
                    size >= 1,
                    less == (n - 1) * size,
            ;
            if less * less >= span {
                assert(up <= less);
            }
        }
        if a == b {
            assert(span == 0) by (nonlinear_arith)
                requires
                    span == 4 * ((b.x - a.x) * (b.x - a.x) + (b.z - a.z) * (b.z - a.z)),
                    b.x - a.x == 0,
                    b.z - a.z == 0,
            ;
            assert(0int * 0int >= span);
            assert(up == 0);
            assert((size - 1) / size == 0) by (nonlinear_arith)
                requires
                    size >= 1,
            ;
        }
    }

    /// Whether sample `i` of the segment from `a` to `b` lies in a walkable cell.
    pub open spec fn sample_walkable(self, a: WorldPos, b: WorldPos, i: int) -> bool {
        match self.cell_of(sample_point(a, b, i, self.sample_count(a, b))) {
            Some(cell) => self.walkable_at(cell.0 as int, cell.1 as int),
            None => false,
        }
    }

    /// Whether every point sampled strictly between `a` and `b`, in equal
    /// steps of at most half a cell, lies in a walkable cell.
    pub open spec fn line_clear(self, a: WorldPos, b: WorldPos) -> bool {
        forall|i: int| 1 <= i < self.sample_count(a, b) ==> #[trigger] self.sample_walkable(a, b, i)
    }

    /// Check whether the straight segment from `start` to `end` crosses
    /// walkable cells only.
    pub fn can_walk_straight(&self, start: WorldPos, end: WorldPos) -> (clear: bool)
        requires
            self.wf(),
        ensures
            clear == self.line_clear(start, end),
            start == end ==> clear,
    {
        let dx: i128 = end.x as i128 - start.x as i128;
        let dz: i128 = end.z as i128 - start.z as i128;
        assert(0 <= dx * dx <= 0x1_0000_0000_0000_0000 && 0 <= dz * dz <= 0x1_0000_0000_0000_0000)
            by (nonlinear_arith)
            requires
                -0x1_0000_0000 <= dx <= 0x1_0000_0000,
                -0x1_0000_0000 <= dz <= 0x1_0000_0000,
        ;
        let span: u128 = (4 * (dx * dx + dz * dz)) as u128;
        let reach: u128 = isqrt(span);
        assert(reach < 0x8_0000_0000) by {
            if reach >= 0x8_0000_0000 {
                assert(reach * reach >= 0x8_0000_0000 * 0x8_0000_0000) by (nonlinear_arith)
                    requires
                        reach >= 0x8_0000_0000,
                ;
            }
        }
        assert(reach * reach <= u128::MAX) by (nonlinear_arith)
            requires
                0 <= reach < 0x8_0000_0000,
        ;
        let twice: u128 = if reach * reach == span {
            reach
        } else {
            reach + 1
        };
        assert(twice == ceil_sqrt(4 * distance_squared(start, end)));
        let size: u128 = self.cell_size as u128;
        let steps: i128 = ((twice + size - 1) / size) as i128;
        assert(steps == self.sample_count(start, end));
        assert(0 <= steps < 0x10_0000_0000) by (nonlinear_arith)
            requires
                steps == (twice + size - 1) / (size as int),
                1 <= size <= 0xffff_ffff,
                0 <= twice <= 0x8_0000_0000,
        ;
        proof {
            self.lemma_sample_spacing(start, end);
        }
        if steps <= 1 {
            return true;
        }
        let mut i: i128 = 1;
        while i < steps
            invariant
                1 <= i <= steps,
                1 < steps < 0x10_0000_0000,
                start != end,
                steps == self.sample_count(start, end),
                dx == end.x - start.x,
                dz == end.z - start.z,
                self.wf(),
                forall|k: int| 1 <= k < i ==> #[trigger] self.sample_walkable(start, end, k),
            decreases steps - i,
        {
            proof {
                lemma_part_of_difference(dx as int, i as int, steps as int);
                lemma_part_of_difference(dz as int, i as int, steps as int);
            }
            assert(-0x10_0000_0000 * 0x1_0000_0000 <= dx * i <= 0x10_0000_0000 * 0x1_0000_0000
                && -0x10_0000_0000 * 0x1_0000_0000 <= dz * i <= 0x10_0000_0000 * 0x1_0000_0000)
                by (nonlinear_arith)
                requires
                    -0x1_0000_0000 <= dx <= 0x1_0000_0000,
                    -0x1_0000_0000 <= dz <= 0x1_0000_0000,
                    1 <= i < 0x10_0000_0000,
            ;
            let px: i128 = start.x as i128 + (dx * i) / steps;
            let pz: i128 = start.z as i128 + (dz * i) / steps;
            let pos = WorldPos { x: px as i32, z: pz as i32 };
            assert(pos == sample_point(start, end, i as int, steps as int));
            let walkable: bool = match self.world_to_grid(pos) {
                Some(cell) => self.is_walkable(cell.0, cell.1),
                None => false,
            };
            assert(walkable == self.sample_walkable(start, end, i as int));
            if !walkable {
                return false;
            }
            i = i + 1;
        }
        true
    }
}

/// The points of `path` at the positions that `indices` lists.
pub open spec fn picked(path: Seq<WorldPos>, indices: Seq<int>) -> Seq<WorldPos> {
    Seq::new(indices.len(), |k: int| path[indices[k]])
}

/// Picking at a position and then at further positions gives the point
/// there and then the further points.
pub proof fn lemma_picked_first(path: Seq<WorldPos>, first: int, rest: Seq<int>)
    ensures
        picked(path, seq![first] + rest) == seq![path[first]] + picked(path, rest),
{
    assert(picked(path, seq![first] + rest) =~= seq![path[first]] + picked(path, rest));
}

impl NavGrid {
    /// Scanning back from index `j`, the first waypoint that can be walked to
    /// in a straight line from waypoint `i`; the waypoint after `i` where the
    /// scan finds none.
    pub open spec fn furthest_visible(self, path: Seq<WorldPos>, i: int, j: int) -> int
        decreases j - i,
    {
        if j <= i + 1 {
            i + 1
        } else if self.line_clear(path[i], path[j]) {
            j
        } else {
            self.furthest_visible(path, i, j - 1)
        }
    }

    /// The scan for the furthest visible waypoint ends strictly after `i`, at
    /// a waypoint in straight reach or right behind `i`, and passes over
    /// waypoints out of straight reach only.
    pub proof fn lemma_furthest_visible(self, path: Seq<WorldPos>, i: int, j: int)
        requires
            i < j,
        ensures
            i < self.furthest_visible(path, i, j) <= j,
            self.furthest_visible(path, i, j) == i + 1 || self.line_clear(
                path[i],
                path[self.furthest_visible(path, i, j)],
            ),
            forall|k: int|
                self.furthest_visible(path, i, j) < k <= j ==> !self.line_clear(
                    path[i],
                    #[trigger] path[k],
                ),
        decreases j - i,
    {
        if j > i + 1 && !self.line_clear(path[i], path[j]) {
            self.lemma_furthest_visible(path, i, j - 1);
        }
    }

    /// Positions in `path` of the waypoints that string-pulling keeps after
    /// waypoint `i`: from each kept waypoint the furthest one in straight
    /// walking reach, up to the last.
    pub open spec fn kept_after(self, path: Seq<WorldPos>, i: int) -> Seq<int>
        decreases path.len() - i,
        via Self::kept_after_decreases
    {
        if 0 <= i < path.len() - 1 {
            let j = self.furthest_visible(path, i, path.len() - 1);
            seq![j] + self.kept_after(path, j)
        } else {
            Seq::empty()
        }
    }

    #[via_fn]
    proof fn kept_after_decreases(self, path: Seq<WorldPos>, i: int) {
        if 0 <= i < path.len() - 1 {
            self.lemma_furthest_visible(path, i, path.len() - 1);
        }
    }

    /// Positions in `path` of the waypoints that string-pulling keeps: the
    /// first one, and what is kept after it.
    pub open spec fn kept_indices(self, path: Seq<WorldPos>) -> Seq<int> {
        if path.len() == 0 {
            Seq::empty()
        } else {
            seq![0int] + self.kept_after(path, 0)
        }
    }

    /// The waypoints that string-pulling keeps of `path`.
    pub open spec fn simplified(self, path: Seq<WorldPos>) -> Seq<WorldPos> {
        picked(path, self.kept_indices(path))
    }

    /// Whether each position in `indices` lies after the one before, and is
    /// the next one in `path` or names a waypoint in straight walking reach
    /// of the one before.
    pub open spec fn rises_by_sight(self, path: Seq<WorldPos>, indices: Seq<int>) -> bool {
        forall|k: int|
            0 <= k < indices.len() - 1 ==> {
                let a = #[trigger] indices[k];
                let b = indices[k + 1];
                a < b && (b == a + 1 || self.line_clear(path[a], path[b]))
            }
    }

    /// Whether `indices` picks a traversable selection of `path`: positions
    /// rise from the first waypoint to the last, and each picked waypoint is
    /// the next one in `path` or in straight walking reach of the one before.
    pub open spec fn traversable_selection(self, path: Seq<WorldPos>, indices: Seq<int>) -> bool {
        &&& indices.len() >= 1
        &&& indices[0] == 0
        &&& indices[indices.len() - 1] == path.len() - 1
        &&& forall|k: int| 0 <= k < indices.len() ==> 0 <= #[trigger] indices[k] < path.len()
        &&& self.rises_by_sight(path, indices)
    }

    /// Waypoint `i` and what is kept after it rise to the last waypoint,
    /// each step to the next waypoint or to one in straight walking reach.
    pub proof fn lemma_kept_after(self, path: Seq<WorldPos>, i: int)
        requires
            0 <= i < path.len(),
        ensures
            self.kept_after(path, i).len() <= path.len() - 1 - i,
            (seq![i] + self.kept_after(path, i)).last() == path.len() - 1,
            forall|k: int|
                0 <= k <= self.kept_after(path, i).len() ==> i <= #[trigger] (seq![i]
                    + self.kept_after(path, i))[k] < path.len(),
            self.rises_by_sight(path, seq![i] + self.kept_after(path, i)),
        decreases path.len() - i,
    {
        let chain = seq![i] + self.kept_after(path, i);
        if i < path.len() - 1 {
            let j = self.furthest_visible(path, i, path.len() - 1);
            self.lemma_furthest_visible(path, i, path.len() - 1);
            self.lemma_kept_after(path, j);
            let next = seq![j] + self.kept_after(path, j);
            assert(chain =~= seq![i] + next);
            assert forall|k: int| 1 <= k < chain.len() implies chain[k] == next[k - 1] by {}
            assert forall|k: int| 0 <= k <= self.kept_after(path, i).len() implies i
                <= #[trigger] chain[k] < path.len() by {
                if k >= 1 {
                    assert(chain[k] == next[k - 1]);
                }
            }
            assert forall|k: int| 0 <= k < chain.len() - 1 implies {
                let a = #[trigger] chain[k];
                let b = chain[k + 1];
                a < b && (b == a + 1 || self.line_clear(path[a], path[b]))
            } by {
                assert(chain[k + 1] == next[k]);
                if k >= 1 {
                    assert(chain[k] == next[k - 1]);
                }
            }
        }
    }

    /// String-pulling keeps a traversable selection of the path's waypoints,
    /// in their order, the first and the last among them.
    pub proof fn lemma_simplified_is_selection(self, path: Seq<WorldPos>)
        requires
            path.len() >= 1,
        ensures
            self.traversable_selection(path, self.kept_indices(path)),
            1 <= self.simplified(path).len() <= path.len(),
            self.simplified(path)[0] == path[0],
            self.simplified(path).last() == path.last(),
    {
        self.lemma_kept_after(path, 0);
    }

    /// String-pulling never lengthens a path, at any scale of measurement.
    pub proof fn lemma_simplified_not_longer(self, path: Seq<WorldPos>, scale: int)
        requires
            0 <= scale,
        ensures
            scaled_length(self.simplified(path), scale) <= scaled_length(path, scale),
    {
        if path.len() >= 1 {
            self.lemma_simplified_is_selection(path);
            let kept = self.kept_indices(path);
            lemma_selection_not_longer(path, kept, scale);
            assert(path.take(path.len() as int) =~= path);
            assert(scaled_length(path.take(1), scale) == 0);
        } else {
            assert(self.simplified(path) =~= path);
        }
    }

    /// Remove the waypoints that a straight walk makes unnecessary.
    pub fn simplify_path(&self, path: Vec<WorldPos>) -> (simplified: Vec<WorldPos>)
        requires
            self.wf(),
        ensures
            simplified@ == self.simplified(path@),
            simplified@.len() <= path@.len(),
            path@.len() >= 1 ==> simplified@.len() >= 1 && simplified@[0] == path@[0]
                && simplified@.last() == path@.last(),
    {
        let count: usize = path.len();
        if count == 0 {
            assert(path@ =~= self.simplified(path@));
            return path;
        }
        proof {
            self.lemma_simplified_is_selection(path@);
            lemma_picked_first(path@, 0, self.kept_after(path@, 0));
        }
        let mut simplified: Vec<WorldPos> = Vec::new();
        simplified.push(path[0]);
        assert(simplified@ =~= seq![path@[0]]);
        let mut i: usize = 0;
        while i < count - 1
            invariant
                self.wf(),
                count == path@.len(),
                0 <= i < count,
                simplified@ + picked(path@, self.kept_after(path@, i as int)) == self.simplified(path@),
            decreases count - i,
        {
            let mut j: usize = count - 1;
            while j > i + 1 && !self.can_walk_straight(path[i], path[j])
                invariant
                    self.wf(),
                    count == path@.len(),
                    i + 1 <= j <= count - 1,
                    self.furthest_visible(path@, i as int, j as int) == self.furthest_visible(
                        path@,
                        i as int,
                        count - 1,
                    ),
                decreases j,
            {
                j = j - 1;
            }
            assert(j == self.furthest_visible(path@, i as int, count - 1));
            proof {
                let before = simplified@;
                let rest = self.kept_after(path@, j as int);
                assert(self.kept_after(path@, i as int) == seq![j as int] + rest);
                lemma_picked_first(path@, j as int, rest);
                assert(before.push(path@[j as int]) + picked(path@, rest) =~= before + (
                seq![path@[j as int]] + picked(path@, rest)));
            }
            simplified.push(path[j]);
            i = j;
        }
        assert(simplified@ =~= simplified@ + picked(path@, self.kept_after(path@, i as int)));
        simplified
    }
}

} // verus!
