//! Staggered path updates: each agent searches on one tick of every window
//! of ticks, and follows the path of its last successful search.

use crate::geometry::distance_squared;
use crate::grid::{NavGrid, WorldPos};
use crate::path::PathError;
use vstd::prelude::*;

verus! {

/// Number of ticks over which the agents' searches are spread.
pub const STAGGER_WINDOW: u32 = 20;

/// The stagger offset of the agent that is spawned as number `index`.
pub fn stagger_offset(index: u32) -> (offset: u32)
    ensures
        offset == index % STAGGER_WINDOW,
        offset < STAGGER_WINDOW,
{
    index % STAGGER_WINDOW
}

/// Frame counter for staggered updates.
#[derive(Clone, Copy, Debug)]
pub struct FrameCounter(pub u32);

impl Default for FrameCounter {
    fn default() -> (counter: FrameCounter)
        ensures
            counter.0 == 0,
    {
        FrameCounter(0)
    }
}

impl FrameCounter {
    /// The offset whose agents search on this tick.
    pub open spec fn slot(self) -> int {
        (self.0 % STAGGER_WINDOW) as int
    }

    /// The offset whose agents search on this tick.
    pub fn current_slot(&self) -> (slot: u32)
        ensures
            slot == self.slot(),
            slot < STAGGER_WINDOW,
    {
        self.0 % STAGGER_WINDOW
    }

    /// Whether an agent with stagger offset `offset` searches on this tick.
    pub fn is_due(&self, offset: u32) -> (due: bool)
        ensures
            due == (offset == self.slot()),
    {
        offset == self.0 % STAGGER_WINDOW
    }

    /// Count one more tick; after the highest count comes zero.
    pub fn increment(&mut self)
        ensures
            final(self).0 == if old(self).0 == u32::MAX {
                0
            } else {
                old(self).0 + 1
            },
    {
        if self.0 == u32::MAX {
            self.0 = 0;
        } else {
            self.0 = self.0 + 1;
        }
    }
}

/// Path component for agent navigation: the waypoints of the last
/// successful search and the index of the waypoint walked toward.
#[derive(Debug)]
pub struct ZombiePath {
    pub waypoints: Vec<WorldPos>,
    pub current_index: usize,
}

impl Default for ZombiePath {
    fn default() -> (path: ZombiePath)
        ensures
            path.waypoints@.len() == 0,
            path.current_index == 0,
    {
        ZombiePath { waypoints: Vec::new(), current_index: 0 }
    }
}

/// What an agent does on a tick, as far as its path decides.
#[derive(Clone, Copy, Debug, PartialEq, Eq, Structural)]
pub enum Steering {
    /// No waypoint is left: stand still.
    Idle,
    /// The current waypoint was reached and the next one chosen: stand still
    /// for this tick.
    Arrived,
    /// Walk toward this waypoint.
    Toward(WorldPos),
}

impl ZombiePath {
    /// Same waypoints and cursor as `other`.
    pub open spec fn same_as(self, other: ZombiePath) -> bool {
        self.waypoints@ == other.waypoints@ && self.current_index == other.current_index
    }

    /// The waypoints are `path`, and the cursor is on the first of them.
    pub open spec fn starts_on(self, path: Seq<WorldPos>) -> bool {
        self.waypoints@ == path && self.current_index == 0
    }

    /// Whether `self` is `before` after the outcome `result` of a search: a
    /// path that was found replaces the old one, a failure changes nothing.
    pub open spec fn follows(self, before: ZombiePath, result: Result<Vec<WorldPos>, PathError>) -> bool {
        match result {
            Ok(path) => self.starts_on(path@),
            Err(_) => self.same_as(before),
        }
    }

    /// Whether a waypoint is left to walk toward.
    pub open spec fn has_target(self) -> bool {
        self.current_index < self.waypoints@.len()
    }

    /// Take over the outcome of a search: a path that was found replaces
    /// the waypoints and resets the cursor; after a failure the agent keeps
    /// its old path.
    pub fn apply(&mut self, result: Result<Vec<WorldPos>, PathError>) -> (replaced: bool)
        ensures
            final(self).follows(*old(self), result),
            replaced == result is Ok,
    {
        match result {
            Ok(new_path) => {
                self.waypoints = new_path;
                self.current_index = 0;
                true
            },
            Err(_) => false,
        }
    }

    /// Decide the agent's move at `pos`: with no waypoint left it idles;
    /// closer than `arrive_distance` to the current waypoint it moves the
    /// cursor on; otherwise it walks toward the current waypoint.
    pub fn steer(&mut self, pos: WorldPos, arrive_distance: u32) -> (steering: Steering)
        ensures
            final(self).waypoints@ == old(self).waypoints@,
            !old(self).has_target() ==> steering == Steering::Idle && final(self).current_index == old(
                self,
            ).current_index,
            old(self).has_target() ==> {
                let target = old(self).waypoints@[old(self).current_index as int];
                if distance_squared(pos, target) < arrive_distance * arrive_distance {
                    steering == Steering::Arrived && final(self).current_index == old(self).current_index
                        + 1
                } else {
                    steering == Steering::Toward(target) && final(self).current_index == old(
                        self,
                    ).current_index
                }
            },
    {
        if self.current_index >= self.waypoints.len() {
            return Steering::Idle;
        }
        let target: WorldPos = self.waypoints[self.current_index];
        let dx: i128 = target.x as i128 - pos.x as i128;
        let dz: i128 = target.z as i128 - pos.z as i128;
        assert(0 <= dx * dx <= 0x1_0000_0000_0000_0000 && 0 <= dz * dz <= 0x1_0000_0000_0000_0000)
            by (nonlinear_arith)
            requires
                -0x1_0000_0000 <= dx <= 0x1_0000_0000,
                -0x1_0000_0000 <= dz <= 0x1_0000_0000,
        ;
        let reach: i128 = arrive_distance as i128;
        assert(0 <= reach * reach <= 0x1_0000_0000_0000_0000) by (nonlinear_arith)
            requires
                0 <= reach <= 0x1_0000_0000,
        ;
        if dx * dx + dz * dz < reach * reach {
            self.current_index = self.current_index + 1;
            Steering::Arrived
        } else {
            Steering::Toward(target)
        }
    }
}

/// How many of `offsets` are equal to `slot`.
pub open spec fn count_due(offsets: Seq<u32>, slot: int) -> nat
    decreases offsets.len(),
{
    if offsets.len() == 0 {
        0
    } else {
        count_due(offsets.drop_last(), slot) + if offsets.last() == slot {
            1nat
        } else {
            0nat
        }
    }
}

/// The offsets of the first `count` agents that are spawned.
pub open spec fn spawn_offsets(count: nat) -> Seq<u32> {
    Seq::new(count, |i: int| (i % (STAGGER_WINDOW as int)) as u32)
}

/// Among the first `count` agents that are spawned, every offset is held by
/// the whole part of `count / STAGGER_WINDOW` agents, and the offsets below
/// the remainder by one more.
pub proof fn lemma_spawn_offsets_even(count: nat, slot: int)
    requires
        0 <= slot < STAGGER_WINDOW,
    ensures
        count_due(spawn_offsets(count), slot) == count / (STAGGER_WINDOW as nat) + if slot < count % (
        STAGGER_WINDOW as nat) {
            1nat
        } else {
            0nat
        },
    decreases count,
{
    if count > 0 {
        let less = (count - 1) as nat;
        lemma_spawn_offsets_even(less, slot);
        assert(spawn_offsets(count).drop_last() =~= spawn_offsets(less));
        assert(spawn_offsets(count).last() == less % 20);
    }
}

/// In every window of consecutive ticks that the counter passes without
/// starting over, each offset is due on exactly one tick.
pub proof fn lemma_due_once_per_window(first: int, offset: int)
    requires
        0 <= first,
        0 <= offset < STAGGER_WINDOW,
    ensures
        exists|tick: int|
            first <= tick < first + STAGGER_WINDOW && #[trigger] (tick % (STAGGER_WINDOW as int))
                == offset && forall|other: int|
                first <= other < first + STAGGER_WINDOW && #[trigger] (other % (STAGGER_WINDOW as int))
                    == offset ==> other == tick,
{
    let base = first - first % 20;
    let tick = if base + offset >= first {
        base + offset
    } else {
        base + offset + 20
    };
    assert(tick % 20 == offset);
    assert forall|other: int|
        first <= other < first + STAGGER_WINDOW && #[trigger] (other % (STAGGER_WINDOW as int))
            == offset implies other == tick by {}
}

/// Whether `after` is what the path `before` of an agent at `pos` with
/// stagger offset `offset` becomes on a tick on which the agents with
/// offset `slot` search for `target`: the path of an agent that is due
/// follows the outcome of its search, and that of another is unchanged.
pub open spec fn path_updated(
    nav_grid: NavGrid,
    slot: int,
    target: WorldPos,
    pos: WorldPos,
    offset: u32,
    before: ZombiePath,
    after: ZombiePath,
) -> bool {
    if offset == slot {
        exists|result: Result<Vec<WorldPos>, PathError>| #[trigger]
            nav_grid.search_outcome(pos, target, result) && after.follows(before, result)
    } else {
        after.same_as(before)
    }
}

/// Whether the first `upto` paths of `after` are the updated paths of `before`.
pub open spec fn paths_updated(
    nav_grid: NavGrid,
    slot: int,
    target: WorldPos,
    positions: Seq<WorldPos>,
    offsets: Seq<u32>,
    before: Seq<ZombiePath>,
    after: Seq<ZombiePath>,
    upto: int,
) -> bool {
    forall|i: int|
        0 <= i < upto ==> path_updated(
            nav_grid,
            slot,
            target,
            positions[i],
            offsets[i],
            before[i],
            #[trigger] after[i],
        )
}

/// Let every agent whose offset is due on this tick search for a path from
/// its position to `target`, and take over what it finds. Returns the
/// number of searches made.
pub fn update_zombie_paths(
    frame: &FrameCounter,
    nav_grid: &NavGrid,
    target: WorldPos,
    positions: &Vec<WorldPos>,
    offsets: &Vec<u32>,
    paths: &mut Vec<ZombiePath>,
) -> (searches: usize)
    requires
        nav_grid.wf(),
        positions@.len() == old(paths)@.len(),
        offsets@.len() == old(paths)@.len(),
    ensures
        final(paths)@.len() == old(paths)@.len(),
        paths_updated(
            *nav_grid,
            frame.slot(),
            target,
            positions@,
            offsets@,
            old(paths)@,
            final(paths)@,
            old(paths)@.len() as int,
        ),
        searches == count_due(offsets@, frame.slot()),
{
    let current_frame: u32 = frame.current_slot();
    let count: usize = paths.len();
    let mut searches: usize = 0;
    let mut i: usize = 0;
    while i < count
        invariant
            nav_grid.wf(),
            count == old(paths)@.len(),
            paths@.len() == count,
            positions@.len() == count,
            offsets@.len() == count,
            current_frame == frame.slot(),
            0 <= i <= count,
            searches == count_due(offsets@.take(i as int), frame.slot()),
            searches <= i,
            paths_updated(
                *nav_grid,
                frame.slot(),
                target,
                positions@,
                offsets@,
                old(paths)@,
                paths@,
                i as int,
            ),
            forall|j: int| i <= j < count ==> (#[trigger] paths@[j]) == old(paths)@[j],
        decreases count - i,
    {
        let ghost before = paths@;
        proof {
            assert(offsets@.take(i + 1).drop_last() =~= offsets@.take(i as int));
        }
        if offsets[i] == current_frame {
            let result: Result<Vec<WorldPos>, PathError> = nav_grid.find_path(positions[i], target);
            match result {
                Ok(new_path) => {
                    paths.set(i, ZombiePath { waypoints: new_path, current_index: 0 });
                },
                Err(_) => {},
            }
            searches = searches + 1;
            proof {
                assert(paths@[i as int].follows(old(paths)@[i as int], result));
            }
        }
        proof {
            assert forall|j: int| 0 <= j < i + 1 implies path_updated(
                *nav_grid,
                frame.slot(),
                target,
                positions@[j],
                offsets@[j],
                old(paths)@[j],
                #[trigger] paths@[j],
            ) by {
                if j < i {
                    assert(paths@[j] == before[j]);
                }
            }
        }
        i = i + 1;
    }
    proof {
        assert(offsets@.take(count as int) =~= offsets@);
    }
    searches
}

} // verus!
