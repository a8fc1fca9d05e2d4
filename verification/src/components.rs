//! The data that the simulation keeps about colonists, buildings and sites.
//!
//! Quantities that the game holds as `f32` (positions, need levels, timers) are kept
//! by the host; the simulation works on the grid cell of each colonist.
use vstd::prelude::*;

use crate::content::{BuildingId, StatusId};

verus! {

/// An entity of the simulation, numbered in the order in which it was spawned.
#[derive(Clone, Copy, Debug, PartialEq, Eq, Hash, Structural)]
pub struct Entity(pub u32);

#[derive(Clone, Copy, Debug, PartialEq, Eq, Structural)]
pub enum TaskKind {
    Idle,
    Eat,
    Sleep,
    Build,
}

#[derive(Clone, Copy, Debug, PartialEq, Eq, Structural)]
pub struct Task {
    pub kind: TaskKind,
    pub building_x: i32,
    pub building_y: i32,
    pub target_x: i32,
    pub target_y: i32,
}

/// The idle task, with both cells at the origin.
pub open spec fn idle_task() -> Task {
    Task { kind: TaskKind::Idle, building_x: 0, building_y: 0, target_x: 0, target_y: 0 }
}

impl Default for Task {
    fn default() -> (r: Self)
        ensures
            r == idle_task(),
    {
        Task { kind: TaskKind::Idle, building_x: 0, building_y: 0, target_x: 0, target_y: 0 }
    }
}

#[derive(Clone, Copy, Debug, PartialEq, Eq, Structural)]
pub struct ColonistId(pub u32);

#[derive(Clone, Debug)]
pub struct ColonistName(pub String);

/// Marker of colonist entities.
#[derive(Clone, Copy, Debug)]
pub struct Colonist;

/// Marker of building entities.
#[derive(Clone, Copy, Debug)]
pub struct Building;

/// The statuses that apply to a colonist; no status occurs twice.
#[derive(Clone, Debug)]
pub struct ActiveStatuses(pub Vec<StatusId>);

impl ActiveStatuses {
    pub open spec fn contains_id(&self, id: StatusId) -> bool {
        self.0@.contains(id)
    }

    pub fn has(&self, id: StatusId) -> (r: bool)
        ensures
            r == self.contains_id(id),
    {
        let mut k: usize = 0;
        while k < self.0.len()
            invariant
                0 <= k <= self.0@.len(),
                forall|j: int| 0 <= j < k ==> self.0@[j] != id,
            decreases self.0@.len() - k,
        {
            if self.0[k] == id {
                return true;
            }
            k += 1;
        }
        false
    }
}

#[derive(Clone, Copy, Debug, PartialEq, Eq, Structural)]
pub struct BerrySupply {
    pub remaining: u8,
}

impl BerrySupply {
    pub fn new(remaining: u8) -> (r: Self)
        ensures
            r.remaining == remaining,
    {
        BerrySupply { remaining }
    }
}

#[derive(Clone, Copy, Debug, PartialEq, Eq, Structural)]
pub struct BuildingKind(pub BuildingId);

/// Who has claimed a bed.
#[derive(Clone, Copy, Debug, PartialEq, Eq, Structural)]
pub struct BedOccupancy {
    pub reserved_by: Option<Entity>,
}

/// A building under construction. `work_left` is the number of work ticks after
/// which the building is finished (`None`: the work never runs out, as for a NaN
/// amount of work); the host keeps the `f32` amount of work that it stands for.
#[derive(Clone, Copy, Debug, PartialEq, Eq, Structural)]
pub struct ConstructionSite {
    pub building_id: BuildingId,
    pub work_left: Option<u32>,
    pub reserved_by: Option<Entity>,
}

/// A building being taken down; the fields are those of `ConstructionSite`.
#[derive(Clone, Copy, Debug, PartialEq, Eq, Structural)]
pub struct DeconstructionSite {
    pub building_id: BuildingId,
    pub work_left: Option<u32>,
    pub reserved_by: Option<Entity>,
}

/// Bit pattern of the `f32` number of seconds that a colonist rests on a bed.
pub const SLEEP_ON_BED_BITS: u32 = 0x4000_0000;

#[derive(Clone, Debug)]
pub struct Path {
    pub waypoints: Vec<(i32, i32)>,
    pub index: usize,
}

impl Path {
    pub fn new() -> (r: Self)
        ensures
            r.waypoints@.len() == 0,
            r.index == 0,
    {
        Path { waypoints: Vec::new(), index: 0 }
    }

    /// The path has no waypoint left to reach.
    pub open spec fn done(&self) -> bool {
        self.index >= self.waypoints@.len()
    }

    pub fn clear(&mut self)
        ensures
            final(self).waypoints@.len() == 0,
            final(self).index == 0,
    {
        self.waypoints.clear();
        self.index = 0;
    }
}

} // verus!
