//! A* search over the grid.

use crate::grid::{lemma_cell_index_in_range, lemma_cell_index_injective, NavGrid, WorldPos};
use crate::open_set::{
    lemma_count_after_insert, lemma_count_after_remove, lemma_count_when_empty, Node, OpenSet,
};
use crate::route::{heuristic_cost, route_cost, step_cost, CARDINAL_COST, DIAGONAL_COST};
use vstd::prelude::*;

verus! {

/// Score of a cell that the search has not reached.
pub const UNREACHED: u128 = u128::MAX;

/// Number of `true` entries in `flags`.
pub open spec fn count_set(flags: Seq<bool>) -> nat
    decreases flags.len(),
{
    if flags.len() == 0 {
        0
    } else {
        count_set(flags.drop_last()) + if flags.last() {
            1nat
        } else {
            0nat
        }
    }
}

/// No more entries are set than there are entries.
pub proof fn lemma_count_set_bound(flags: Seq<bool>)
    ensures
        count_set(flags) <= flags.len(),
    decreases flags.len(),
{
    if flags.len() > 0 {
        lemma_count_set_bound(flags.drop_last());
    }
}

/// Setting an entry that was clear raises the count by one.
pub proof fn lemma_count_set_update(flags: Seq<bool>, i: int)
    requires
        0 <= i < flags.len(),
        !flags[i],
    ensures
        count_set(flags.update(i, true)) == count_set(flags) + 1,
    decreases flags.len(),
{
    let after = flags.update(i, true);
    if i == flags.len() - 1 {
        assert(after.drop_last() =~= flags.drop_last());
    } else {
        lemma_count_set_update(flags.drop_last(), i);
        assert(after.drop_last() =~= flags.drop_last().update(i, true));
    }
}

/// Whether following `came_from` back from the last cell of `route` visits
/// the cells of `route` in reverse and ends at its first cell.
pub open spec fn is_chain(
    grid: NavGrid,
    came_from: Seq<Option<(usize, usize)>>,
    route: Seq<(usize, usize)>,
) -> bool {
    &&& route.len() >= 1
    &&& forall|i: int| 0 <= i < route.len() ==> grid.has_cell(#[trigger] route[i])
    &&& came_from[grid.index_of(route[0])] is None
    &&& forall|i: int|
        1 <= i < route.len() ==> came_from[grid.index_of(#[trigger] route[i])] == Some(route[i - 1])
}

/// Two chains over one table that end on the same cell agree on the cells
/// at equal distance from their ends.
pub proof fn lemma_chain_tails_agree(
    grid: NavGrid,
    came_from: Seq<Option<(usize, usize)>>,
    r1: Seq<(usize, usize)>,
    r2: Seq<(usize, usize)>,
    j: int,
)
    requires
        is_chain(grid, came_from, r1),
        is_chain(grid, came_from, r2),
        r1[r1.len() - 1] == r2[r2.len() - 1],
        0 <= j < r1.len(),
        j < r2.len(),
    ensures
        r1[r1.len() - 1 - j] == r2[r2.len() - 1 - j],
    decreases j,
{
    if j > 0 {
        lemma_chain_tails_agree(grid, came_from, r1, r2, j - 1);
        let a = r1[r1.len() - j];
        let b = r2[r2.len() - j];
        assert(came_from[grid.index_of(a)] == Some(r1[r1.len() - j - 1]));
        assert(came_from[grid.index_of(b)] == Some(r2[r2.len() - j - 1]));
    }
}

/// At most one chain over a table ends on a given cell.
pub proof fn lemma_chain_unique(
    grid: NavGrid,
    came_from: Seq<Option<(usize, usize)>>,
    r1: Seq<(usize, usize)>,
    r2: Seq<(usize, usize)>,
)
    requires
        is_chain(grid, came_from, r1),
        is_chain(grid, came_from, r2),
        r1[r1.len() - 1] == r2[r2.len() - 1],
    ensures
        r1 == r2,
{
    if r1.len() < r2.len() {
        lemma_chain_tails_agree(grid, came_from, r1, r2, r1.len() - 1);
        let b = r2[r2.len() - r1.len()];
        assert(came_from[grid.index_of(b)] == Some(r2[r2.len() - r1.len() - 1]));
    } else if r2.len() < r1.len() {
        lemma_chain_tails_agree(grid, came_from, r1, r2, r2.len() - 1);
        let a = r1[r1.len() - r2.len()];
        assert(came_from[grid.index_of(a)] == Some(r1[r1.len() - r2.len() - 1]));
    } else {
        assert forall|i: int| 0 <= i < r1.len() implies r1[i] == r2[i] by {
            lemma_chain_tails_agree(grid, came_from, r1, r2, r1.len() - 1 - i);
        }
        assert(r1 =~= r2);
    }
}

/// What the search knows while it runs: the best score found for each cell,
/// the cell from which that score was reached, the cells that are settled,
/// and the frontier.
pub struct SearchState {
    pub g_score: Vec<u128>,
    pub came_from: Vec<Option<(usize, usize)>>,
    pub closed: Vec<bool>,
    pub open: OpenSet,
    /// For each reached cell, the route that its score stands for.
    pub routes: Ghost<Seq<Seq<(usize, usize)>>>,
}

impl NavGrid {
    /// Position of a cell of the grid in the row-major bitmap.
    pub fn slot_of(&self, c: (usize, usize)) -> (slot: usize)
        requires
            self.wf(),
            self.has_cell(c),
        ensures
            slot == self.index_of(c),
            slot < self.width * self.height,
    {
        proof {
            lemma_cell_index_in_range(self.width as int, self.height as int, c.0 as int, c.1 as int);
        }
        c.1 * self.width + c.0
    }

    /// Two cells of the grid with the same index are the same cell.
    pub proof fn lemma_index_injective(self, a: (usize, usize), b: (usize, usize))
        requires
            self.has_cell(a),
            self.has_cell(b),
            self.index_of(a) == self.index_of(b),
        ensures
            a == b,
    {
        lemma_cell_index_injective(self.width as int, a.0 as int, a.1 as int, b.0 as int, b.1 as int);
    }

    /// The index of a cell of the grid is below the number of cells.
    pub proof fn lemma_index_in_range(self, c: (usize, usize))
        requires
            self.has_cell(c),
        ensures
            0 <= self.index_of(c) < self.width * self.height,
    {
        lemma_cell_index_in_range(self.width as int, self.height as int, c.0 as int, c.1 as int);
    }
}

impl SearchState {
    /// The best score found so far for cell `c`.
    pub open spec fn score(self, grid: NavGrid, c: (usize, usize)) -> int {
        self.g_score@[grid.index_of(c)] as int
    }

    /// Whether a route to cell `c` has been found.
    pub open spec fn reached(self, grid: NavGrid, c: (usize, usize)) -> bool {
        grid.has_cell(c) && self.g_score@[grid.index_of(c)] < UNREACHED
    }

    /// Whether cell `c` is settled: taken off the frontier and expanded.
    pub open spec fn is_closed(self, grid: NavGrid, c: (usize, usize)) -> bool {
        grid.has_cell(c) && self.closed@[grid.index_of(c)]
    }

    /// The route that the score of cell `c` stands for.
    pub open spec fn route_to(self, grid: NavGrid, c: (usize, usize)) -> Seq<(usize, usize)> {
        self.routes@[grid.index_of(c)]
    }

    /// Number of settled cells.
    pub open spec fn closed_count(self) -> nat {
        count_set(self.closed@)
    }

    /// The frontier entry that stands for the current score of `c`.
    pub open spec fn entry(self, grid: NavGrid, c: (usize, usize), goal: (usize, usize)) -> Node {
        Node { pos: c, f_score: (self.score(grid, c) + heuristic_cost(c, goal)) as u128 }
    }

    /// Every table has one entry per cell and the frontier is a heap.
    pub open spec fn shaped(self, grid: NavGrid) -> bool {
        &&& self.g_score@.len() == grid.width * grid.height
        &&& self.came_from@.len() == grid.width * grid.height
        &&& self.closed@.len() == grid.width * grid.height
        &&& self.routes@.len() == grid.width * grid.height
        &&& self.open.wf()
    }

    /// How high the score of `c` can be: a diagonal step for every settled
    /// cell before it.
    pub open spec fn score_limit(self, grid: NavGrid, c: (usize, usize)) -> int {
        DIAGONAL_COST * (self.closed_count() - if self.is_closed(grid, c) {
            1int
        } else {
            0int
        })
    }

    /// The score of every reached cell is the cost of a route from the start
    /// that runs over settled cells and that `came_from` traces back.
    pub open spec fn routes_sound(self, grid: NavGrid, start: (usize, usize)) -> bool {
        forall|c: (usize, usize)| #[trigger] self.reached(grid, c) ==> self.route_sound(grid, start, c)
    }

    /// Every cell of `route` but the last is settled.
    pub open spec fn interior_closed(self, grid: NavGrid, route: Seq<(usize, usize)>) -> bool {
        forall|i: int| 0 <= i < route.len() - 1 ==> self.is_closed(grid, #[trigger] route[i])
    }

    /// Settled cells are reached, and the goal is not settled.
    pub open spec fn closed_sound(self, grid: NavGrid, goal: (usize, usize)) -> bool {
        &&& !self.is_closed(grid, goal)
        &&& forall|c: (usize, usize)| #[trigger] self.is_closed(grid, c) ==> self.reached(grid, c)
    }

    /// Every frontier entry names a reached cell, with an f-score no lower
    /// than the cell's current one.
    pub open spec fn queue_sound(self, grid: NavGrid, goal: (usize, usize)) -> bool {
        forall|n: Node| #[trigger]
            self.open@.count(n) > 0 ==> self.reached(grid, n.pos) && n.f_score >= self.score(
                grid,
                n.pos,
            ) + heuristic_cost(n.pos, goal)
    }

    /// Every reached cell that is not settled has a frontier entry with its
    /// current f-score.
    pub open spec fn frontier_queued(self, grid: NavGrid, goal: (usize, usize)) -> bool {
        forall|c: (usize, usize)| #[trigger]
            self.reached(grid, c) && !self.is_closed(grid, c) ==> self.open@.count(
                self.entry(grid, c, goal),
            ) > 0
    }

    /// Every cell one legal step from a settled cell is reached, with a
    /// score no higher than by way of the settled cell; of the cell `cur`
    /// that is being expanded, those in `done`.
    pub open spec fn expanded(
        self,
        grid: NavGrid,
        cur: Option<(usize, usize)>,
        done: Seq<(usize, usize)>,
    ) -> bool {
        forall|u: (usize, usize), b: (usize, usize)|
            #![trigger self.is_closed(grid, u), grid.step_ok(u, b)]
            self.is_closed(grid, u) && grid.step_ok(u, b) && (cur == Some(u) ==> done.contains(b))
                ==> self.reached(grid, b) && self.score(grid, b) <= self.score(grid, u) + step_cost(
                u,
                b,
            )
    }

    /// No route from the start to a settled cell costs less than the
    /// cell's score.
    pub open spec fn closed_optimal(self, grid: NavGrid, start: (usize, usize)) -> bool {
        forall|u: (usize, usize), route: Seq<(usize, usize)>|
            #![trigger self.is_closed(grid, u), grid.connects(route, start, u)]
            self.is_closed(grid, u) && grid.connects(route, start, u) ==> self.score(grid, u)
                <= route_cost(route)
    }

    /// What holds of the search between two steps.
    #[verifier::opaque]
    pub open spec fn inv(
        self,
        grid: NavGrid,
        start: (usize, usize),
        goal: (usize, usize),
        cur: Option<(usize, usize)>,
        done: Seq<(usize, usize)>,
    ) -> bool {
        &&& grid.wf()
        &&& grid.has_cell(goal)
        &&& self.shaped(grid)
        &&& self.reached(grid, start)
        &&& self.score(grid, start) == 0
        &&& self.routes_sound(grid, start)
        &&& self.closed_sound(grid, goal)
        &&& self.queue_sound(grid, goal)
        &&& self.frontier_queued(grid, goal)
        &&& self.expanded(grid, cur, done)
        &&& self.closed_optimal(grid, start)
    }

    /// The state before the first step: only the start is reached, with
    /// score zero, and it alone is on the frontier.
    pub fn new(grid: &NavGrid, start: (usize, usize), goal: (usize, usize)) -> (st: SearchState)
        requires
            grid.wf(),
            grid.walkable_cell(start),
            grid.has_cell(goal),
        ensures
            st.inv(*grid, start, goal, None, Seq::empty()),
    {
        let cells: usize = grid.width * grid.height;
        let mut g_score: Vec<u128> = Vec::new();
        let mut came_from: Vec<Option<(usize, usize)>> = Vec::new();
        let mut closed: Vec<bool> = Vec::new();
        let mut i: usize = 0;
        while i < cells
            invariant
                i <= cells,
                g_score@.len() == i,
                came_from@.len() == i,
                closed@.len() == i,
                count_set(closed@) == 0,
                forall|k: int| 0 <= k < i ==> g_score@[k] == UNREACHED,
                forall|k: int| 0 <= k < i ==> came_from@[k] is None,
                forall|k: int| 0 <= k < i ==> !closed@[k],
            decreases cells - i,
        {
            g_score.push(UNREACHED);
            came_from.push(None);
            proof {
                assert(closed@.push(false).drop_last() =~= closed@);
            }
            closed.push(false);
            i = i + 1;
        }
        let slot: usize = grid.slot_of(start);
        g_score.set(slot, 0);
        let estimate: u128 = grid.heuristic(start, goal);
        let first = Node { pos: start, f_score: estimate };
        let mut open = OpenSet::new();
        open.push(first);
        let ghost routes = Seq::new(cells as nat, |k: int| seq![start]);
        let st = SearchState { g_score, came_from, closed, open, routes: Ghost(routes) };
        proof {
            reveal(SearchState::inv);
            let g = *grid;
            assert forall|c: (usize, usize)| #[trigger] st.reached(g, c) implies c == start by {
                if g.has_cell(c) && c != start {
                    g.lemma_index_in_range(c);
                    if g.index_of(c) == g.index_of(start) {
                        g.lemma_index_injective(c, start);
                    }
                }
            }
            assert forall|c: (usize, usize)| !#[trigger] st.is_closed(g, c) by {
                if g.has_cell(c) {
                    g.lemma_index_in_range(c);
                }
            }
            assert(st.route_to(g, start) == seq![start]);
            assert(st.entry(g, start, goal) == first);
            assert(st.open@.count(first) > 0);
            assert forall|n: Node| #[trigger] st.open@.count(n) > 0 implies n == first by {}
        }
        st
    }
}

impl SearchState {
    /// Whether `after` is `self` with a better score recorded for `nb`: the
    /// score `through`, reached from `cur`, and `node` added to the frontier.
    pub open spec fn improved_to(
        self,
        after: SearchState,
        grid: NavGrid,
        cur: (usize, usize),
        nb: (usize, usize),
        through: u128,
        node: Node,
    ) -> bool {
        let slot = grid.index_of(nb);
        &&& after.g_score@ == self.g_score@.update(slot, through)
        &&& after.came_from@ == self.came_from@.update(slot, Some(cur))
        &&& after.closed@ == self.closed@
        &&& after.routes@ == self.routes@.update(slot, self.route_to(grid, cur).push(nb))
        &&& after.open@ == self.open@.insert(node)
        &&& after.open.wf()
    }

    /// A better score for `nb` changes the tables' entries for `nb` only.
    pub proof fn lemma_improve_frame(
        self,
        after: SearchState,
        grid: NavGrid,
        cur: (usize, usize),
        nb: (usize, usize),
        through: u128,
        node: Node,
    )
        requires
            grid.has_cell(nb),
            self.shaped(grid),
            through < UNREACHED,
            self.improved_to(after, grid, cur, nb, through, node),
        ensures
            after.shaped(grid),
            after.closed_count() == self.closed_count(),
            after.reached(grid, nb),
            after.score(grid, nb) == through,
            after.route_to(grid, nb) == self.route_to(grid, cur).push(nb),
            after.came_from@[grid.index_of(nb)] == Some(cur),
            forall|c: (usize, usize)| #[trigger] after.is_closed(grid, c) == self.is_closed(grid, c),
            forall|c: (usize, usize)|
                c != nb ==> (#[trigger] after.reached(grid, c) == self.reached(grid, c)),
            forall|c: (usize, usize)|
                grid.has_cell(c) && c != nb ==> #[trigger] after.score(grid, c) == self.score(grid, c),
            forall|c: (usize, usize)|
                grid.has_cell(c) && c != nb ==> #[trigger] after.route_to(grid, c) == self.route_to(
                    grid,
                    c,
                ),
            forall|c: (usize, usize)|
                grid.has_cell(c) && c != nb ==> after.came_from@[#[trigger] grid.index_of(c)]
                    == self.came_from@[grid.index_of(c)],
    {
        let slot = grid.index_of(nb);
        grid.lemma_index_in_range(nb);
        assert forall|c: (usize, usize)| grid.has_cell(c) && c != nb implies #[trigger] grid.index_of(
            c,
        ) != slot && 0 <= grid.index_of(c) < grid.width * grid.height by {
            grid.lemma_index_in_range(c);
            if grid.index_of(c) == slot {
                grid.lemma_index_injective(c, nb);
            }
        }
        assert forall|c: (usize, usize)| c != nb implies (#[trigger] after.reached(grid, c)
            == self.reached(grid, c)) by {
            if grid.has_cell(c) {
                assert(grid.index_of(c) != slot);
            }
        }
        assert forall|c: (usize, usize)| grid.has_cell(c) && c != nb implies #[trigger] after.score(
            grid,
            c,
        ) == self.score(grid, c) by {
            assert(grid.index_of(c) != slot);
        }
        assert forall|c: (usize, usize)| grid.has_cell(c) && c != nb implies #[trigger] after.route_to(
            grid,
            c,
        ) == self.route_to(grid, c) by {
            assert(grid.index_of(c) != slot);
        }
    }

    /// Whether the route recorded for `c` is sound: it leads from the start
    /// to `c` over settled cells, costs the score of `c`, and `came_from`
    /// traces it back.
    pub open spec fn route_sound(self, grid: NavGrid, start: (usize, usize), c: (usize, usize)) -> bool {
        &&& grid.connects(self.route_to(grid, c), start, c)
        &&& route_cost(self.route_to(grid, c)) == self.score(grid, c)
        &&& is_chain(grid, self.came_from@, self.route_to(grid, c))
        &&& self.interior_closed(grid, self.route_to(grid, c))
        &&& self.score(grid, c) <= self.score_limit(grid, c)
    }

    /// A better score for `nb` comes with a sound route to `nb`.
    pub proof fn lemma_improve_new_route(
        self,
        after: SearchState,
        grid: NavGrid,
        start: (usize, usize),
        cur: (usize, usize),
        nb: (usize, usize),
        through: u128,
        node: Node,
    )
        requires
            self.shaped(grid),
            self.route_sound(grid, start, cur),
            self.reached(grid, cur),
            self.is_closed(grid, cur),
            grid.step_ok(cur, nb),
            !self.is_closed(grid, nb),
            through == self.score(grid, cur) + step_cost(cur, nb),
            through < UNREACHED,
            self.improved_to(after, grid, cur, nb, through, node),
        ensures
            after.route_sound(grid, start, nb),
    {
        self.lemma_improve_frame(after, grid, cur, nb, through, node);
        let via = self.route_to(grid, cur);
        let longer = via.push(nb);
        grid.lemma_route_extend(via, start, cur, nb);
        assert forall|i: int| 0 <= i < via.len() implies #[trigger] via[i] != nb && grid.has_cell(
            via[i],
        ) by {
            if i < via.len() - 1 {
                assert(self.is_closed(grid, via[i]));
            }
        }
        assert(is_chain(grid, after.came_from@, longer)) by {
            assert forall|i: int| 1 <= i < longer.len() implies after.came_from@[grid.index_of(
                #[trigger] longer[i],
            )] == Some(longer[i - 1]) by {
                if i < via.len() {
                    assert(longer[i] == via[i]);
                    assert(via[i] != nb);
                    assert(self.came_from@[grid.index_of(via[i])] == Some(via[i - 1]));
                }
            }
            assert forall|i: int| 0 <= i < longer.len() implies grid.has_cell(
                #[trigger] longer[i],
            ) by {
                if i < via.len() {
                    assert(longer[i] == via[i]);
                }
            }
            assert(longer[0] == via[0]);
            assert(via[0] != nb);
        }
        assert(after.interior_closed(grid, longer)) by {
            assert forall|i: int| 0 <= i < longer.len() - 1 implies after.is_closed(
                grid,
                #[trigger] longer[i],
            ) by {
                assert(longer[i] == via[i]);
                if i < via.len() - 1 {
                    assert(self.is_closed(grid, via[i]));
                }
            }
        }
        assert(self.score(grid, cur) <= self.score_limit(grid, cur));
    }

    /// A better score for `nb` keeps the route recorded for another cell sound.
    pub proof fn lemma_improve_old_route(
        self,
        after: SearchState,
        grid: NavGrid,
        start: (usize, usize),
        cur: (usize, usize),
        nb: (usize, usize),
        through: u128,
        node: Node,
        c: (usize, usize),
    )
        requires
            self.shaped(grid),
            grid.has_cell(nb),
            self.reached(grid, c),
            self.route_sound(grid, start, c),
            c != nb,
            !self.is_closed(grid, nb),
            through < UNREACHED,
            self.improved_to(after, grid, cur, nb, through, node),
        ensures
            after.route_sound(grid, start, c),
    {
        self.lemma_improve_frame(after, grid, cur, nb, through, node);
        let r = self.route_to(grid, c);
        assert(after.route_to(grid, c) == r);
        assert forall|i: int| 0 <= i < r.len() implies #[trigger] r[i] != nb by {
            if i < r.len() - 1 {
                assert(self.is_closed(grid, r[i]));
            }
        }
        assert(is_chain(grid, after.came_from@, r)) by {
            assert forall|i: int| 1 <= i < r.len() implies after.came_from@[grid.index_of(
                #[trigger] r[i],
            )] == Some(r[i - 1]) by {
                assert(r[i] != nb);
                assert(self.came_from@[grid.index_of(r[i])] == Some(r[i - 1]));
            }
            assert(r[0] != nb);
        }
        assert(after.interior_closed(grid, r)) by {
            assert forall|i: int| 0 <= i < r.len() - 1 implies after.is_closed(
                grid,
                #[trigger] r[i],
            ) by {
                assert(self.is_closed(grid, r[i]));
            }
        }
        assert(after.score(grid, c) == self.score(grid, c));
    }

    /// A better score for `nb` keeps the recorded routes sound.
    pub proof fn lemma_improve_routes(
        self,
        after: SearchState,
        grid: NavGrid,
        start: (usize, usize),
        cur: (usize, usize),
        nb: (usize, usize),
        through: u128,
        node: Node,
    )
        requires
            self.shaped(grid),
            self.routes_sound(grid, start),
            self.reached(grid, cur),
            self.is_closed(grid, cur),
            grid.step_ok(cur, nb),
            !self.is_closed(grid, nb),
            through == self.score(grid, cur) + step_cost(cur, nb),
            through < UNREACHED,
            self.improved_to(after, grid, cur, nb, through, node),
        ensures
            after.routes_sound(grid, start),
    {
        self.lemma_improve_frame(after, grid, cur, nb, through, node);
        assert forall|c: (usize, usize)| #[trigger] after.reached(grid, c) implies after.route_sound(
            grid,
            start,
            c,
        ) by {
            if c != nb {
                assert(self.reached(grid, c));
                self.lemma_improve_old_route(after, grid, start, cur, nb, through, node, c);
            } else {
                self.lemma_improve_new_route(after, grid, start, cur, nb, through, node);
            }
        }
    }

    /// A better score for `nb`, put on the frontier, keeps the frontier sound.
    pub proof fn lemma_improve_queue(
        self,
        after: SearchState,
        grid: NavGrid,
        goal: (usize, usize),
        cur: (usize, usize),
        nb: (usize, usize),
        through: u128,
        node: Node,
    )
        requires
            grid.has_cell(nb),
            self.shaped(grid),
            self.queue_sound(grid, goal),
            self.frontier_queued(grid, goal),
            through < self.g_score@[grid.index_of(nb)],
            node == (Node { pos: nb, f_score: (through + heuristic_cost(nb, goal)) as u128 }),
            through + heuristic_cost(nb, goal) <= u128::MAX,
            self.improved_to(after, grid, cur, nb, through, node),
        ensures
            after.queue_sound(grid, goal),
            after.frontier_queued(grid, goal),
    {
        self.lemma_improve_frame(after, grid, cur, nb, through, node);
        lemma_count_after_insert(self.open@, node);
        assert forall|n: Node| #[trigger] after.open@.count(n) > 0 implies after.reached(grid, n.pos)
            && n.f_score >= after.score(grid, n.pos) + heuristic_cost(n.pos, goal) by {
            if n != node {
                assert(self.open@.count(n) > 0);
                assert(self.reached(grid, n.pos));
                if n.pos != nb {
                    assert(after.score(grid, n.pos) == self.score(grid, n.pos));
                }
            }
        }
        assert forall|c: (usize, usize)| #[trigger]
            after.reached(grid, c) && !after.is_closed(grid, c) implies after.open@.count(
            after.entry(grid, c, goal),
        ) > 0 by {
            if c != nb {
                assert(self.reached(grid, c));
                assert(!self.is_closed(grid, c));
                assert(after.score(grid, c) == self.score(grid, c));
                assert(after.entry(grid, c, goal) == self.entry(grid, c, goal));
                assert(self.open@.count(self.entry(grid, c, goal)) > 0);
            } else {
                assert(after.entry(grid, c, goal) == node);
            }
        }
    }

    /// A better score for `nb` keeps the settled cells sound, and counts
    /// `nb` among the neighbours that are done.
    pub proof fn lemma_improve_closed(
        self,
        after: SearchState,
        grid: NavGrid,
        start: (usize, usize),
        goal: (usize, usize),
        cur: (usize, usize),
        nb: (usize, usize),
        done: Seq<(usize, usize)>,
        through: u128,
        node: Node,
    )
        requires
            grid.has_cell(nb),
            self.shaped(grid),
            self.closed_sound(grid, goal),
            self.expanded(grid, Some(cur), done),
            self.closed_optimal(grid, start),
            self.is_closed(grid, cur),
            !self.is_closed(grid, nb),
            through == self.score(grid, cur) + step_cost(cur, nb),
            through < self.g_score@[grid.index_of(nb)],
            self.improved_to(after, grid, cur, nb, through, node),
        ensures
            after.closed_sound(grid, goal),
            after.expanded(grid, Some(cur), done.push(nb)),
            after.closed_optimal(grid, start),
    {
        self.lemma_improve_frame(after, grid, cur, nb, through, node);
        assert forall|c: (usize, usize)| #[trigger] after.is_closed(grid, c) implies after.reached(
            grid,
            c,
        ) && after.score(grid, c) == self.score(grid, c) by {
            assert(self.is_closed(grid, c));
            assert(self.reached(grid, c));
        }
        assert forall|u: (usize, usize), b: (usize, usize)|
            #![trigger after.is_closed(grid, u), grid.step_ok(u, b)]
            after.is_closed(grid, u) && grid.step_ok(u, b) && (Some(cur) == Some(u) ==> done.push(
                nb,
            ).contains(b)) implies after.reached(grid, b) && after.score(grid, b) <= after.score(
            grid,
            u,
        ) + step_cost(u, b) by {
            assert(self.is_closed(grid, u));
            assert(after.score(grid, u) == self.score(grid, u));
            if b != nb {
                if u == cur {
                    let i = choose|i: int| 0 <= i < done.push(nb).len() && done.push(nb)[i] == b;
                    assert(done[i] == b);
                    assert(done.contains(b));
                }
                assert(self.reached(grid, b));
                assert(after.score(grid, b) == self.score(grid, b));
            } else if u != cur {
                assert(self.reached(grid, nb));
                assert(self.score(grid, nb) <= self.score(grid, u) + step_cost(u, nb));
            }
        }
        assert forall|u: (usize, usize), route: Seq<(usize, usize)>|
            #![trigger after.is_closed(grid, u), grid.connects(route, start, u)]
            after.is_closed(grid, u) && grid.connects(route, start, u) implies after.score(grid, u)
            <= route_cost(route) by {
            assert(self.is_closed(grid, u));
        }
    }

    /// Recording a better score for a neighbour of the cell that is being
    /// expanded keeps what holds of the search.
    pub proof fn lemma_improve(
        self,
        after: SearchState,
        grid: NavGrid,
        start: (usize, usize),
        goal: (usize, usize),
        cur: (usize, usize),
        nb: (usize, usize),
        done: Seq<(usize, usize)>,
        through: u128,
        node: Node,
    )
        requires
            self.inv(grid, start, goal, Some(cur), done),
            self.is_closed(grid, cur),
            grid.step_ok(cur, nb),
            !self.is_closed(grid, nb),
            through == self.score(grid, cur) + step_cost(cur, nb),
            through < self.g_score@[grid.index_of(nb)],
            node == (Node { pos: nb, f_score: (through + heuristic_cost(nb, goal)) as u128 }),
            through + heuristic_cost(nb, goal) <= u128::MAX,
            self.improved_to(after, grid, cur, nb, through, node),
        ensures
            after.inv(grid, start, goal, Some(cur), done.push(nb)),
    {
        reveal(SearchState::inv);
        assert(self.reached(grid, cur));
        assert(nb != start);
        self.lemma_improve_frame(after, grid, cur, nb, through, node);
        self.lemma_improve_routes(after, grid, start, cur, nb, through, node);
        self.lemma_improve_queue(after, grid, goal, cur, nb, through, node);
        self.lemma_improve_closed(after, grid, start, goal, cur, nb, done, through, node);
        assert(after.reached(grid, start) == self.reached(grid, start));
        assert(after.score(grid, start) == self.score(grid, start));
    }

    /// Seeing that a neighbour of the cell that is being expanded needs no
    /// better score keeps what holds of the search.
    pub proof fn lemma_keep(
        self,
        grid: NavGrid,
        start: (usize, usize),
        goal: (usize, usize),
        cur: (usize, usize),
        nb: (usize, usize),
        done: Seq<(usize, usize)>,
    )
        requires
            self.inv(grid, start, goal, Some(cur), done),
            self.reached(grid, nb),
            self.score(grid, nb) <= self.score(grid, cur) + step_cost(cur, nb),
        ensures
            self.inv(grid, start, goal, Some(cur), done.push(nb)),
    {
        reveal(SearchState::inv);
        assert forall|u: (usize, usize), b: (usize, usize)|
            #![trigger self.is_closed(grid, u), grid.step_ok(u, b)]
            self.is_closed(grid, u) && grid.step_ok(u, b) && (Some(cur) == Some(u) ==> done.push(
                nb,
            ).contains(b)) implies self.reached(grid, b) && self.score(grid, b) <= self.score(
            grid,
            u,
        ) + step_cost(u, b) by {
            if b != nb && u == cur {
                let i = choose|i: int| 0 <= i < done.push(nb).len() && done.push(nb)[i] == b;
                assert(done[i] == b);
                assert(done.contains(b));
            }
        }
    }

    /// Offer the neighbour `nb` of the settled cell `cur` the route through
    /// `cur`, and put it on the frontier where that route is better than
    /// what it had.
    pub fn relax(
        &mut self,
        grid: &NavGrid,
        cur: (usize, usize),
        nb: (usize, usize),
        goal: (usize, usize),
        Ghost(start): Ghost<(usize, usize)>,
        Ghost(done): Ghost<Seq<(usize, usize)>>,
    )
        requires
            old(self).inv(*grid, start, goal, Some(cur), done),
            old(self).is_closed(*grid, cur),
            grid.step_ok(cur, nb),
        ensures
            final(self).inv(*grid, start, goal, Some(cur), done.push(nb)),
            final(self).closed@ == old(self).closed@,
            final(self).open@.len() <= old(self).open@.len() + 1,
    {
        proof {
            self.lemma_inv_basics(*grid, start, goal, Some(cur), done);
            self.lemma_closed_score(*grid, start, goal, Some(cur), done, cur);
            lemma_count_set_bound(self.closed@);
        }
        let slot: usize = grid.slot_of(nb);
        let from: usize = grid.slot_of(cur);
        if self.closed[slot] {
            proof {
                self.lemma_closed_score(*grid, start, goal, Some(cur), done, nb);
                self.lemma_closed_neighbor(*grid, start, goal, Some(cur), done, cur, nb);
                self.lemma_keep(*grid, start, goal, cur, nb, done);
            }
            return ;
        }
        let move_cost: u128 = if nb.0 != cur.0 && nb.1 != cur.1 {
            DIAGONAL_COST
        } else {
            CARDINAL_COST
        };
        assert(self.g_score@[from as int] + move_cost <= DIAGONAL_COST * self.closed_count())
            by (nonlinear_arith)
            requires
                self.g_score@[from as int] <= DIAGONAL_COST * (self.closed_count() - 1),
                move_cost <= DIAGONAL_COST,
        ;
        assert(DIAGONAL_COST * self.closed_count() <= DIAGONAL_COST * usize::MAX) by (nonlinear_arith)
            requires
                self.closed_count() <= usize::MAX,
        ;
        let tentative: u128 = self.g_score[from] + move_cost;
        assert(tentative < UNREACHED);
        if tentative < self.g_score[slot] {
            let estimate: u128 = grid.heuristic(nb, goal);
            let node = Node { pos: nb, f_score: tentative + estimate };
            let ghost before = *self;
            self.came_from.set(slot, Some(cur));
            self.g_score.set(slot, tentative);
            self.open.push(node);
            proof {
                self.routes@ = before.routes@.update(slot as int, before.route_to(*grid, cur).push(nb));
                before.lemma_improve(*self, *grid, start, goal, cur, nb, done, tentative, node);
            }
        } else {
            proof {
                self.lemma_keep(*grid, start, goal, cur, nb, done);
            }
        }
    }
}

impl SearchState {
    /// Whether `after` is `self` with `popped` taken off the frontier and,
    /// where `settle` says so, its cell settled.
    pub open spec fn popped_to(self, after: SearchState, grid: NavGrid, popped: Node, settle: bool) -> bool {
        &&& after.g_score@ == self.g_score@
        &&& after.came_from@ == self.came_from@
        &&& after.routes@ == self.routes@
        &&& after.closed@ == if settle {
            self.closed@.update(grid.index_of(popped.pos), true)
        } else {
            self.closed@
        }
        &&& after.open@ == self.open@.remove(popped)
        &&& after.open.wf()
    }

    /// Dropping a frontier entry whose cell is settled keeps what holds of
    /// the search.
    pub proof fn lemma_discard(
        self,
        after: SearchState,
        grid: NavGrid,
        start: (usize, usize),
        goal: (usize, usize),
        popped: Node,
    )
        requires
            self.inv(grid, start, goal, None, Seq::empty()),
            self.open@.count(popped) > 0,
            self.is_closed(grid, popped.pos),
            self.popped_to(after, grid, popped, false),
        ensures
            after.inv(grid, start, goal, None, Seq::empty()),
    {
        reveal(SearchState::inv);
        lemma_count_after_remove(self.open@, popped);

        assert forall|c: (usize, usize)| #[trigger] after.reached(grid, c) == self.reached(grid, c) by {}
        assert forall|c: (usize, usize)| #[trigger] after.is_closed(grid, c) == self.is_closed(grid, c) by {}
        assert(after.routes_sound(grid, start)) by {
            assert forall|c: (usize, usize)| #[trigger] after.reached(grid, c) implies {
                &&& grid.connects(after.route_to(grid, c), start, c)
                &&& route_cost(after.route_to(grid, c)) == after.score(grid, c)
                &&& is_chain(grid, after.came_from@, after.route_to(grid, c))
                &&& after.interior_closed(grid, after.route_to(grid, c))
                &&& after.score(grid, c) <= after.score_limit(grid, c)
            } by {
                assert(self.reached(grid, c));
                assert(self.interior_closed(grid, self.route_to(grid, c)));
            }
        }
        assert(after.queue_sound(grid, goal)) by {
            assert forall|n: Node| #[trigger] after.open@.count(n) > 0 implies after.reached(
                grid,
                n.pos,
            ) && n.f_score >= after.score(grid, n.pos) + heuristic_cost(n.pos, goal) by {
                assert(self.open@.count(n) > 0);
            }
        }
        assert(after.frontier_queued(grid, goal)) by {
            assert forall|c: (usize, usize)| #[trigger]
                after.reached(grid, c) && !after.is_closed(grid, c) implies after.open@.count(
                after.entry(grid, c, goal),
            ) > 0 by {
                assert(self.reached(grid, c) && !self.is_closed(grid, c));
                assert(after.entry(grid, c, goal) == self.entry(grid, c, goal));
                assert(self.entry(grid, c, goal) != popped);
            }
        }
        assert(after.expanded(grid, None, Seq::empty())) by {
            assert forall|u: (usize, usize), b: (usize, usize)|
                #![trigger after.is_closed(grid, u), grid.step_ok(u, b)]
                after.is_closed(grid, u) && grid.step_ok(u, b) implies after.reached(grid, b)
                && after.score(grid, b) <= after.score(grid, u) + step_cost(u, b) by {
                assert(self.is_closed(grid, u));
            }
        }
        assert(after.closed_optimal(grid, start)) by {
            assert forall|u: (usize, usize), route: Seq<(usize, usize)>|
                #![trigger after.is_closed(grid, u), grid.connects(route, start, u)]
                after.is_closed(grid, u) && grid.connects(route, start, u) implies after.score(grid, u)
                <= route_cost(route) by {
                assert(self.is_closed(grid, u));
            }
        }
    }

    /// Settling the cell of the entry that was taken off the frontier keeps
    /// what holds of the search, with that cell yet to be expanded.
    pub proof fn lemma_settle(
        self,
        after: SearchState,
        grid: NavGrid,
        start: (usize, usize),
        goal: (usize, usize),
        popped: Node,
    )
        requires
            self.inv(grid, start, goal, None, Seq::empty()),
            self.open@.count(popped) > 0,
            popped.pos != goal,
            !self.is_closed(grid, popped.pos),
            forall|route: Seq<(usize, usize)>| #[trigger]
                grid.connects(route, start, popped.pos) ==> self.score(grid, popped.pos) <= route_cost(
                    route,
                ),
            self.popped_to(after, grid, popped, true),
        ensures
            after.inv(grid, start, goal, Some(popped.pos), Seq::empty()),
            after.is_closed(grid, popped.pos),
            after.closed_count() == self.closed_count() + 1,
    {
        reveal(SearchState::inv);
        lemma_count_after_remove(self.open@, popped);

        let cur = popped.pos;
        let slot = grid.index_of(cur);
        assert(self.reached(grid, cur));
        grid.lemma_index_in_range(cur);
        lemma_count_set_update(self.closed@, slot);
        assert forall|c: (usize, usize)| grid.has_cell(c) && c != cur implies #[trigger] grid.index_of(
            c,
        ) != slot && 0 <= grid.index_of(c) < grid.width * grid.height by {
            grid.lemma_index_in_range(c);
            if grid.index_of(c) == slot {
                grid.lemma_index_injective(c, cur);
            }
        }
        assert forall|c: (usize, usize)| #[trigger] after.reached(grid, c) == self.reached(grid, c) by {}
        assert forall|c: (usize, usize)| #[trigger]
            after.is_closed(grid, c) == (self.is_closed(grid, c) || c == cur) by {
            if grid.has_cell(c) && c != cur {
                assert(grid.index_of(c) != slot);
            }
        }
        assert(after.routes_sound(grid, start)) by {
            assert forall|c: (usize, usize)| #[trigger] after.reached(grid, c) implies {
                &&& grid.connects(after.route_to(grid, c), start, c)
                &&& route_cost(after.route_to(grid, c)) == after.score(grid, c)
                &&& is_chain(grid, after.came_from@, after.route_to(grid, c))
                &&& after.interior_closed(grid, after.route_to(grid, c))
                &&& after.score(grid, c) <= after.score_limit(grid, c)
            } by {
                assert(self.reached(grid, c));
                let r = self.route_to(grid, c);
                assert(self.interior_closed(grid, r));
                assert forall|i: int| 0 <= i < r.len() - 1 implies after.is_closed(
                    grid,
                    #[trigger] r[i],
                ) by {
                    assert(self.is_closed(grid, r[i]));
                }
                assert(self.score(grid, c) <= self.score_limit(grid, c));
                assert(self.score_limit(grid, c) <= after.score_limit(grid, c)) by (nonlinear_arith)
                    requires
                        self.score_limit(grid, c) == DIAGONAL_COST * (self.closed_count()
                            - if self.is_closed(grid, c) {
                            1int
                        } else {
                            0int
                        }),
                        after.score_limit(grid, c) == DIAGONAL_COST * (after.closed_count()
                            - if after.is_closed(grid, c) {
                            1int
                        } else {
                            0int
                        }),
                        after.closed_count() == self.closed_count() + 1,
                        self.is_closed(grid, c) ==> after.is_closed(grid, c),
                ;
            }
        }
        assert(after.closed_sound(grid, goal)) by {
            assert forall|c: (usize, usize)| #[trigger] after.is_closed(grid, c) implies after.reached(
                grid,
                c,
            ) by {
                if c != cur {
                    assert(self.is_closed(grid, c));
                }
            }
        }
        assert(after.queue_sound(grid, goal)) by {
            assert forall|n: Node| #[trigger] after.open@.count(n) > 0 implies after.reached(
                grid,
                n.pos,
            ) && n.f_score >= after.score(grid, n.pos) + heuristic_cost(n.pos, goal) by {
                assert(self.open@.count(n) > 0);
            }
        }
        assert(after.frontier_queued(grid, goal)) by {
            assert forall|c: (usize, usize)| #[trigger]
                after.reached(grid, c) && !after.is_closed(grid, c) implies after.open@.count(
                after.entry(grid, c, goal),
            ) > 0 by {
                assert(self.reached(grid, c) && !self.is_closed(grid, c));
                assert(after.entry(grid, c, goal) == self.entry(grid, c, goal));
                assert(self.entry(grid, c, goal) != popped);
            }
        }
        assert(after.expanded(grid, Some(cur), Seq::empty())) by {
            assert forall|u: (usize, usize), b: (usize, usize)|
                #![trigger after.is_closed(grid, u), grid.step_ok(u, b)]
                after.is_closed(grid, u) && grid.step_ok(u, b) && (Some(cur) == Some(u)
                    ==> Seq::<(usize, usize)>::empty().contains(b)) implies after.reached(grid, b)
                && after.score(grid, b) <= after.score(grid, u) + step_cost(u, b) by {
                assert(u != cur);
                assert(self.is_closed(grid, u));
            }
        }
        assert(after.closed_optimal(grid, start)) by {
            assert forall|u: (usize, usize), route: Seq<(usize, usize)>|
                #![trigger after.is_closed(grid, u), grid.connects(route, start, u)]
                after.is_closed(grid, u) && grid.connects(route, start, u) implies after.score(grid, u)
                <= route_cost(route) by {
                if u != cur {
                    assert(self.is_closed(grid, u));
                }
            }
        }
    }

    /// Once every neighbour of the expanded cell has been offered its
    /// route, the search is between two steps again.
    pub proof fn lemma_expansion_done(
        self,
        grid: NavGrid,
        start: (usize, usize),
        goal: (usize, usize),
        cur: (usize, usize),
        done: Seq<(usize, usize)>,
    )
        requires
            self.inv(grid, start, goal, Some(cur), done),
            forall|b: (usize, usize)| grid.step_ok(cur, b) ==> #[trigger] done.contains(b),
        ensures
            self.inv(grid, start, goal, None, Seq::empty()),
    {
        reveal(SearchState::inv);
        assert forall|u: (usize, usize), b: (usize, usize)|
            #![trigger self.is_closed(grid, u), grid.step_ok(u, b)]
            self.is_closed(grid, u) && grid.step_ok(u, b) implies self.reached(grid, b) && self.score(
            grid,
            b,
        ) <= self.score(grid, u) + step_cost(u, b) by {
            if u == cur {
                assert(done.contains(b));
            }
        }
    }

    /// What the search's tables hold before each step.
    pub proof fn lemma_inv_basics(
        self,
        grid: NavGrid,
        start: (usize, usize),
        goal: (usize, usize),
        cur: Option<(usize, usize)>,
        done: Seq<(usize, usize)>,
    )
        requires
            self.inv(grid, start, goal, cur, done),
        ensures
            grid.wf(),
            grid.has_cell(goal),
            self.shaped(grid),
            forall|n: Node| #[trigger] self.open@.count(n) > 0 ==> self.reached(grid, n.pos),
            forall|c: (usize, usize)| #[trigger]
                self.reached(grid, c) ==> grid.connects(self.route_to(grid, c), start, c) && is_chain(
                    grid,
                    self.came_from@,
                    self.route_to(grid, c),
                ),
    {
        reveal(SearchState::inv);
    }

    /// A settled cell is reached, with a score within the limit for
    /// settled cells.
    pub proof fn lemma_closed_score(
        self,
        grid: NavGrid,
        start: (usize, usize),
        goal: (usize, usize),
        cur: Option<(usize, usize)>,
        done: Seq<(usize, usize)>,
        c: (usize, usize),
    )
        requires
            self.inv(grid, start, goal, cur, done),
            self.is_closed(grid, c),
        ensures
            self.reached(grid, c),
            self.closed_count() >= 1,
            self.score(grid, c) <= DIAGONAL_COST * (self.closed_count() - 1),
    {
        reveal(SearchState::inv);
        assert(self.reached(grid, c));
        assert(self.score(grid, c) <= self.score_limit(grid, c));
        assert(self.score(grid, c) >= 0);
        if self.closed_count() == 0 {
            assert(self.score_limit(grid, c) == DIAGONAL_COST * (0 - 1));
        }
    }

    /// The score of a settled cell is no higher than by way of a settled
    /// cell one legal step before it.
    pub proof fn lemma_closed_neighbor(
        self,
        grid: NavGrid,
        start: (usize, usize),
        goal: (usize, usize),
        cur: Option<(usize, usize)>,
        done: Seq<(usize, usize)>,
        u: (usize, usize),
        b: (usize, usize),
    )
        requires
            self.inv(grid, start, goal, cur, done),
            self.is_closed(grid, u),
            self.is_closed(grid, b),
            grid.step_ok(u, b),
        ensures
            self.score(grid, b) <= self.score(grid, u) + step_cost(u, b),
    {
        reveal(SearchState::inv);
        assert(self.reached(grid, u));
        let via = self.route_to(grid, u);
        grid.lemma_route_extend(via, start, u, b);
        assert(grid.connects(via.push(b), start, b));
    }

    /// The first cell of `route` from position `from` on that is not settled.
    pub proof fn lemma_first_unsettled(
        self,
        grid: NavGrid,
        route: Seq<(usize, usize)>,
        from: int,
        k: int,
    ) -> (j: int)
        requires
            0 <= from <= k < route.len(),
            !self.is_closed(grid, route[k]),
            forall|i: int| 0 <= i < from ==> self.is_closed(grid, #[trigger] route[i]),
        ensures
            from <= j <= k,
            !self.is_closed(grid, route[j]),
            forall|i: int| 0 <= i < j ==> self.is_closed(grid, #[trigger] route[i]),
        decreases k - from,
    {
        if !self.is_closed(grid, route[from]) {
            from
        } else {
            self.lemma_first_unsettled(grid, route, from + 1, k)
        }
    }

    /// When the entry with the lowest f-score on the frontier names a cell
    /// that is not settled, no route from the start to that cell costs less
    /// than the cell's score.
    pub proof fn lemma_popped_optimal(
        self,
        grid: NavGrid,
        start: (usize, usize),
        goal: (usize, usize),
        popped: Node,
        route: Seq<(usize, usize)>,
    )
        requires
            self.inv(grid, start, goal, None, Seq::empty()),
            self.open@.count(popped) > 0,
            forall|n: Node| self.open@.count(n) > 0 ==> popped.f_score <= n.f_score,
            !self.is_closed(grid, popped.pos),
            grid.connects(route, start, popped.pos),
        ensures
            self.score(grid, popped.pos) <= route_cost(route),
    {
        reveal(SearchState::inv);
        let cur = popped.pos;
        let last = route.len() - 1;
        let j = self.lemma_first_unsettled(grid, route, 0, last);
        let y = route[j];
        grid.lemma_route_prefix(route, j + 1);
        let prefix = route.take(j + 1);
        grid.lemma_route_cells_walkable(route, j);
        assert(self.reached(grid, y) && self.score(grid, y) <= route_cost(prefix)) by {
            if j == 0 {
                assert(route_cost(prefix) == 0);
            } else {
                let x = route[j - 1];
                assert(self.is_closed(grid, x));
                grid.lemma_route_prefix(route, j);
                assert(grid.connects(route.take(j), start, x));
                assert(self.score(grid, x) <= route_cost(route.take(j)));
                assert(grid.step_ok(x, y));
            }
        }
        assert(self.reached(grid, cur));
        grid.lemma_heuristic_bounded(y, goal);
        grid.lemma_heuristic_bounded(cur, goal);
        lemma_count_set_bound(self.closed@);
        assert(self.score(grid, y) <= self.score_limit(grid, y));
        assert(self.score(grid, y) <= DIAGONAL_COST * usize::MAX) by (nonlinear_arith)
            requires
                self.score(grid, y) <= DIAGONAL_COST * self.closed_count(),
                self.closed_count() <= usize::MAX,
        ;
        let queued = self.entry(grid, y, goal);
        assert(self.open@.count(queued) > 0);
        assert(queued.f_score == self.score(grid, y) + heuristic_cost(y, goal));
        assert(popped.f_score <= queued.f_score);
        assert(popped.f_score >= self.score(grid, cur) + heuristic_cost(cur, goal));
        grid.lemma_heuristic_along_route(route, goal, j, last);
        assert(route.take(last + 1) =~= route);
    }

    /// When the entry with the lowest f-score on the frontier names the
    /// goal, the route recorded for the goal is a shortest one.
    pub proof fn lemma_goal_route_shortest(
        self,
        grid: NavGrid,
        start: (usize, usize),
        goal: (usize, usize),
        popped: Node,
    )
        requires
            self.inv(grid, start, goal, None, Seq::empty()),
            self.open@.count(popped) > 0,
            forall|n: Node| self.open@.count(n) > 0 ==> popped.f_score <= n.f_score,
            popped.pos == goal,
        ensures
            grid.is_shortest_route(self.route_to(grid, goal), start, goal),
    {
        assert(!self.is_closed(grid, goal) && self.reached(grid, goal) && grid.connects(
            self.route_to(grid, goal),
            start,
            goal,
        ) && route_cost(self.route_to(grid, goal)) == self.score(grid, goal)) by {
            reveal(SearchState::inv);
        }
        assert forall|other: Seq<(usize, usize)>| #[trigger]
            grid.connects(other, start, goal) implies route_cost(self.route_to(grid, goal))
            <= route_cost(other) by {
            self.lemma_popped_optimal(grid, start, goal, popped, other);
        }
    }

    /// With the frontier empty, every cell of a route from the start is settled.
    pub proof fn lemma_route_settled(
        self,
        grid: NavGrid,
        start: (usize, usize),
        goal: (usize, usize),
        route: Seq<(usize, usize)>,
        i: int,
    )
        requires
            self.inv(grid, start, goal, None, Seq::empty()),
            self.open@.len() == 0,
            grid.is_route(route),
            route[0] == start,
            0 <= i < route.len(),
        ensures
            self.is_closed(grid, route[i]),
        decreases i,
    {
        reveal(SearchState::inv);
        lemma_count_when_empty(self.open@);

        if i > 0 {
            self.lemma_route_settled(grid, start, goal, route, i - 1);
            assert(grid.step_ok(route[i - 1], route[i]));
            assert(self.reached(grid, route[i]));
        }
        if !self.is_closed(grid, route[i]) {
            assert(self.open@.count(self.entry(grid, route[i], goal)) > 0);
            assert(false);
        }
    }

    /// With the frontier empty, no route leads from the start to the goal.
    pub proof fn lemma_exhausted(self, grid: NavGrid, start: (usize, usize), goal: (usize, usize))
        requires
            self.inv(grid, start, goal, None, Seq::empty()),
            self.open@.len() == 0,
        ensures
            !grid.reachable(start, goal),
    {
        reveal(SearchState::inv);
        if grid.reachable(start, goal) {
            let route = choose|route: Seq<(usize, usize)>| #[trigger] grid.connects(route, start, goal);
            self.lemma_route_settled(grid, start, goal, route, route.len() - 1);
            assert(self.is_closed(grid, goal));
        }
    }
}

impl NavGrid {
    /// Follow `came_from` back from `current` to the cell that has no
    /// predecessor, and turn the cells passed, first to last, into
    /// simplified world waypoints.
    pub fn reconstruct_path(&self, came_from: &Vec<Option<(usize, usize)>>, current: (usize, usize)) -> (path:
        Vec<WorldPos>)
        requires
            self.wf(),
            came_from@.len() == self.width * self.height,
            exists|route: Seq<(usize, usize)>| #[trigger]
                is_chain(*self, came_from@, route) && route[route.len() - 1] == current,
        ensures
            forall|route: Seq<(usize, usize)>| #[trigger]
                is_chain(*self, came_from@, route) && route[route.len() - 1] == current ==> path@
                    == self.simplified(self.waypoints_of(route)),
    {
        let ghost route = choose|route: Seq<(usize, usize)>| #[trigger]
            is_chain(*self, came_from@, route) && route[route.len() - 1] == current;
        let mut cells: Vec<(usize, usize)> = Vec::new();
        cells.push(current);
        let mut at: (usize, usize) = current;
        let ghost mut k: int = route.len() - 1;
        assert(self.has_cell(route[k]));
        let mut step: Option<(usize, usize)> = came_from[self.slot_of(at)];
        while step.is_some()
            invariant
                self.wf(),
                came_from@.len() == self.width * self.height,
                is_chain(*self, came_from@, route),
                0 <= k < route.len(),
                at == route[k],
                step == came_from@[self.index_of(at)],
                cells@.len() == route.len() - k,
                forall|j: int| 0 <= j < cells@.len() ==> cells@[j] == route[route.len() - 1 - j],
            decreases k,
        {
            let prev: (usize, usize) = step.unwrap();
            proof {
                assert(k >= 1);
                assert(came_from@[self.index_of(route[k])] == Some(route[k - 1]));
                k = k - 1;
                assert(self.has_cell(route[k]));
            }
            cells.push(prev);
            at = prev;
            step = came_from[self.slot_of(at)];
        }
        proof {
            if k >= 1 {
                assert(came_from@[self.index_of(route[k])] == Some(route[k - 1]));
            }
            assert(k == 0);
        }
        let count: usize = cells.len();
        let mut raw: Vec<WorldPos> = Vec::new();
        let mut i: usize = count;
        while i > 0
            invariant
                self.wf(),
                count == cells@.len(),
                count == route.len(),
                0 <= i <= count,
                raw@.len() == count - i,
                forall|j: int| 0 <= j < count ==> cells@[j] == route[count - 1 - j],
                forall|j: int| 0 <= j < count ==> self.has_cell(#[trigger] route[j]),
                forall|j: int| 0 <= j < raw@.len() ==> raw@[j] == self.waypoints_of(route)[j],
            decreases i,
        {
            i = i - 1;
            let cell: (usize, usize) = cells[i];
            assert(cell == route[count - 1 - i]);
            assert(self.has_cell(route[count - 1 - i]));
            raw.push(self.grid_to_world(cell.0, cell.1));
        }
        assert(raw@ =~= self.waypoints_of(route));
        let path = self.simplify_path(raw);
        proof {
            assert forall|other: Seq<(usize, usize)>| #[trigger]
                is_chain(*self, came_from@, other) && other[other.len() - 1] == current implies path@
                == self.simplified(self.waypoints_of(other)) by {
                lemma_chain_unique(*self, came_from@, route, other);
            }
        }
        path
    }

    /// Whether `path` is what the search yields between two cells: the
    /// simplified waypoints of a route between them that no other route
    /// undercuts.
    pub open spec fn path_between(self, start: (usize, usize), goal: (usize, usize), path: Seq<WorldPos>) -> bool {
        exists|route: Seq<(usize, usize)>| #[trigger]
            self.is_shortest_route(route, start, goal) && path == self.simplified(
                self.waypoints_of(route),
            )
    }

    /// A* search from the walkable cell `start` to the cell `goal`.
    pub fn find_route(&self, start: (usize, usize), goal: (usize, usize)) -> (found: Option<Vec<WorldPos>>)
        requires
            self.wf(),
            self.walkable_cell(start),
            self.has_cell(goal),
        ensures
            found.is_some() <==> self.reachable(start, goal),
            found.is_some() ==> self.path_between(start, goal, found.unwrap()@),
    {
        let mut st = SearchState::new(self, start, goal);
        let ghost cells: int = self.width * self.height;
        proof {
            st.lemma_inv_basics(*self, start, goal, None, Seq::empty());
            lemma_count_set_bound(st.closed@);
        }
        loop
            invariant
                st.inv(*self, start, goal, None, Seq::empty()),
                cells == self.width * self.height,
                st.closed_count() <= cells,
            decreases cells - st.closed_count(), st.open@.len(),
        {
            let ghost before = st;
            proof {
                before.lemma_inv_basics(*self, start, goal, None, Seq::empty());
            }
            let popped: Option<Node> = st.open.pop();
            if popped.is_none() {
                proof {
                    before.lemma_exhausted(*self, start, goal);
                }
                return None;
            }
            let current: Node = popped.unwrap();
            assert(before.reached(*self, current.pos));
            if current.pos.0 == goal.0 && current.pos.1 == goal.1 {
                proof {
                    let route = before.route_to(*self, goal);
                    assert(is_chain(*self, st.came_from@, route));
                    assert(self.connects(route, start, goal));
                    before.lemma_goal_route_shortest(*self, start, goal, current);
                    assert(self.is_shortest_route(route, start, goal));
                }
                let path = self.reconstruct_path(&st.came_from, current.pos);
                return Some(path);
            }
            let slot: usize = self.slot_of(current.pos);
            if st.closed[slot] {
                proof {
                    before.lemma_discard(st, *self, start, goal, current);
                }
            } else {
                st.closed.set(slot, true);
                proof {
                    assert forall|route: Seq<(usize, usize)>| #[trigger]
                        self.connects(route, start, current.pos) implies before.score(
                        *self,
                        current.pos,
                    ) <= route_cost(route) by {
                        before.lemma_popped_optimal(*self, start, goal, current, route);
                    }
                    before.lemma_settle(st, *self, start, goal, current);
                    lemma_count_set_bound(st.closed@);
                }
                let neighbors: Vec<(usize, usize)> = self.get_neighbors(current.pos);
                let mut k: usize = 0;
                assert(neighbors@.take(0) =~= Seq::<(usize, usize)>::empty());
                while k < neighbors.len()
                    invariant
                        0 <= k <= neighbors@.len(),
                        st.inv(*self, start, goal, Some(current.pos), neighbors@.take(k as int)),
                        st.is_closed(*self, current.pos),
                        st.closed_count() == before.closed_count() + 1,
                        forall|b: (usize, usize)| #[trigger]
                            neighbors@.contains(b) <==> self.step_ok(current.pos, b),
                    decreases neighbors@.len() - k,
                {
                    let neighbor: (usize, usize) = neighbors[k];
                    proof {
                        assert(neighbors@.contains(neighbor));
                        assert(neighbors@.take(k as int).push(neighbor) =~= neighbors@.take(k + 1));
                    }
                    st.relax(self, current.pos, neighbor, goal, Ghost(start), Ghost(neighbors@.take(k as int)));
                    k = k + 1;
                }
                proof {
                    assert(neighbors@.take(k as int) =~= neighbors@);
                    st.lemma_expansion_done(*self, start, goal, current.pos, neighbors@);
                }
            }
        }
    }
}

} // verus!
