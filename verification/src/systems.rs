//! The colony and the rules that move it on: which colonist takes which task, how
//! colonists step along their paths, and what happens when they reach their goal.
use vstd::prelude::*;

use crate::components::{
    ActiveStatuses, BedOccupancy, BerrySupply, BuildingKind, ColonistId, ColonistName,
    ConstructionSite, DeconstructionSite, Entity, Path, Task, TaskKind, idle_task,
};
use crate::content::ContentRegistry;
use crate::world::WorldGrid;
use crate::content::StatusId;
use crate::tasks::shuffled_indices;

verus! {

/// A colonist. `cell` is the grid cell of its position; `sleep_timer` holds the bits
/// of the `f32` time left on a bed, while it rests there.
pub struct ColonistState {
    pub entity: Entity,
    pub id: ColonistId,
    pub name: ColonistName,
    pub cell: (i32, i32),
    pub task: Task,
    pub path: Path,
    pub statuses: ActiveStatuses,
    pub sleep_timer: Option<u32>,
}

/// A finished building: a supply for berry bushes, an occupancy for beds.
#[derive(Clone, Copy)]
pub struct BuildingState {
    pub entity: Entity,
    pub cell: (i32, i32),
    pub kind: BuildingKind,
    pub supply: Option<BerrySupply>,
    pub occupancy: Option<BedOccupancy>,
}

#[derive(Clone, Copy)]
pub struct SiteState {
    pub entity: Entity,
    pub cell: (i32, i32),
    pub site: ConstructionSite,
}

#[derive(Clone, Copy)]
pub struct DeconSiteState {
    pub entity: Entity,
    pub cell: (i32, i32),
    pub site: DeconstructionSite,
}

/// All entities of the simulation, each list in spawn order.
pub struct Colony {
    pub colonists: Vec<ColonistState>,
    pub buildings: Vec<BuildingState>,
    pub sites: Vec<SiteState>,
    pub decon_sites: Vec<DeconSiteState>,
    pub next_entity: u32,
}

pub open spec fn manhattan(a: (i32, i32), b: (i32, i32)) -> int {
    let dx = a.0 - b.0;
    let dy = a.1 - b.1;
    (if dx < 0 {
        -dx
    } else {
        dx
    }) + (if dy < 0 {
        -dy
    } else {
        dy
    })
}

/// The colonist that the occupancy map records at `cell`: the last one in the list
/// among `cols[0..n]` that stands there.
pub open spec fn occupant_upto(cols: Seq<ColonistState>, n: int, cell: (i32, i32)) -> Option<Entity>
    decreases n,
{
    if n <= 0 {
        None
    } else if cols[n - 1].cell == cell {
        Some(cols[n - 1].entity)
    } else {
        occupant_upto(cols, n - 1, cell)
    }
}

pub open spec fn occupant(cols: Seq<ColonistState>, cell: (i32, i32)) -> Option<Entity> {
    occupant_upto(cols, cols.len() as int, cell)
}

/// A map from cells to the colonist that stands on each; cells are unique.
pub struct Occupancy {
    pub entries: Vec<((i32, i32), Entity)>,
}

impl Occupancy {
    pub open spec fn wf(&self) -> bool {
        forall|i: int, j: int|
            0 <= i < j < self.entries@.len() ==> self.entries@[i].0 != self.entries@[j].0
    }

    /// The colonist recorded at `cell`.
    pub open spec fn at(&self, cell: (i32, i32)) -> Option<Entity> {
        if exists|i: int| 0 <= i < self.entries@.len() && self.entries@[i].0 == cell {
            Some(self.entries@[choose|i: int| 0 <= i < self.entries@.len() && self.entries@[i].0 == cell].1)
        } else {
            None
        }
    }

    proof fn lemma_at(&self, i: int)
        requires
            self.wf(),
            0 <= i < self.entries@.len(),
        ensures
            self.at(self.entries@[i].0) == Some(self.entries@[i].1),
    {
        let c = self.entries@[i].0;
        let k = choose|k: int| 0 <= k < self.entries@.len() && self.entries@[k].0 == c;
        assert(k == i);
    }

    fn find(&self, cell: (i32, i32)) -> (r: Option<usize>)
        requires
            self.wf(),
        ensures
            match r {
                Some(i) => i < self.entries@.len() && self.entries@[i as int].0 == cell && self.at(cell) == Some(self.entries@[i as int].1),
                None => self.at(cell) is None && forall|j: int| 0 <= j < self.entries@.len() ==> self.entries@[j].0 != cell,
            },
    {
        let mut k: usize = 0;
        while k < self.entries.len()
            invariant
                0 <= k <= self.entries@.len(),
                self.wf(),
                forall|j: int| 0 <= j < k ==> self.entries@[j].0 != cell,
            decreases self.entries@.len() - k,
        {
            if self.entries[k].0.0 == cell.0 && self.entries[k].0.1 == cell.1 {
                proof {
                    self.lemma_at(k as int);
                }
                return Some(k);
            }
            k += 1;
        }
        None
    }

    pub fn get(&self, cell: (i32, i32)) -> (r: Option<Entity>)
        requires
            self.wf(),
        ensures
            r == self.at(cell),
    {
        match self.find(cell) {
            Some(i) => Some(self.entries[i].1),
            None => None,
        }
    }

    /// Records `e` at `cell`, replacing whoever was recorded there.
    pub fn insert(&mut self, cell: (i32, i32), e: Entity)
        requires
            old(self).wf(),
        ensures
            final(self).wf(),
            final(self).at(cell) == Some(e),
            forall|c: (i32, i32)| c != cell ==> #[trigger] final(self).at(c) == old(self).at(c),
    {
        match self.find(cell) {
            Some(i) => {
                self.entries.set(i, (cell, e));
                proof {
                    self.lemma_at(i as int);
                    assert forall|c: (i32, i32)| c != cell implies #[trigger] self.at(c) == old(self).at(c) by {
                        if exists|j: int| 0 <= j < old(self).entries@.len() && old(self).entries@[j].0 == c {
                            let j = choose|j: int| 0 <= j < old(self).entries@.len() && old(self).entries@[j].0 == c;
                            old(self).lemma_at(j);
                            self.lemma_at(j);
                        }
                        if exists|j: int| 0 <= j < self.entries@.len() && self.entries@[j].0 == c {
                            let j = choose|j: int| 0 <= j < self.entries@.len() && self.entries@[j].0 == c;
                            old(self).lemma_at(j);
                            self.lemma_at(j);
                        }
                    }
                }
            },
            None => {
                self.entries.push((cell, e));
                proof {
                    self.lemma_at(self.entries@.len() - 1);
                    assert forall|c: (i32, i32)| c != cell implies #[trigger] self.at(c) == old(self).at(c) by {
                        if exists|j: int| 0 <= j < old(self).entries@.len() && old(self).entries@[j].0 == c {
                            let j = choose|j: int| 0 <= j < old(self).entries@.len() && old(self).entries@[j].0 == c;
                            old(self).lemma_at(j);
                            self.lemma_at(j);
                        }
                        if exists|j: int| 0 <= j < self.entries@.len() && self.entries@[j].0 == c {
                            let j = choose|j: int| 0 <= j < self.entries@.len() && self.entries@[j].0 == c;
                            self.lemma_at(j);
                            old(self).lemma_at(j);
                        }
                    }
                }
            },
        }
    }

    /// Forgets the cell recorded for `e`, if any.
    pub fn remove_entity(&mut self, e: Entity)
        requires
            old(self).wf(),
        ensures
            final(self).wf(),
            forall|c: (i32, i32)| #[trigger] final(self).at(c) == if old(self).at(c) == Some(e) {
                None
            } else {
                old(self).at(c)
            },
    {
        let ghost before = self.entries@;
        let ghost mut src: Seq<int> = Seq::empty();
        let mut kept: Vec<((i32, i32), Entity)> = Vec::new();
        let mut k: usize = 0;
        while k < self.entries.len()
            invariant
                0 <= k <= before.len(),
                self.entries@ == before,
                forall|i: int, j: int| 0 <= i < j < before.len() ==> before[i].0 != before[j].0,
                src.len() == kept@.len(),
                forall|i: int| 0 <= i < kept@.len() ==> 0 <= #[trigger] src[i] < k && kept@[i] == before[src[i]] && before[src[i]].1 != e,
                forall|i: int, j: int| 0 <= i < j < src.len() ==> src[i] < src[j],
                forall|j: int|
                    0 <= j < k && before[j].1 != e ==> exists|i: int|
                        0 <= i < src.len() && src[i] == j,
            decreases before.len() - k,
        {
            let entry = self.entries[k];
            let ghost old_src = src;
            if entry.1 != e {
                kept.push(entry);
                proof {
                    src = src.push(k as int);
                }
            }
            proof {
                assert forall|j: int| 0 <= j < k + 1 && before[j].1 != e implies exists|i: int|
                    0 <= i < src.len() && src[i] == j by {
                    if j == k {
                        assert(src[src.len() - 1] == j);
                    } else {
                        let i = choose|i: int| 0 <= i < old_src.len() && old_src[i] == j;
                        assert(src[i] == j);
                    }
                }
            }
            k += 1;
        }
        self.entries = kept;
        proof {
            assert forall|i: int, j: int| 0 <= i < j < self.entries@.len() implies self.entries@[i].0 != self.entries@[j].0 by {
                assert(src[i] < src[j]);
            }
            assert forall|c: (i32, i32)| #[trigger] self.at(c) == if old(self).at(c) == Some(e) {
                None
            } else {
                old(self).at(c)
            } by {
                if exists|j: int| 0 <= j < before.len() && before[j].0 == c {
                    let j = choose|j: int| 0 <= j < before.len() && before[j].0 == c;
                    old(self).lemma_at(j);
                    if before[j].1 != e {
                        let i = choose|i: int| 0 <= i < src.len() && src[i] == j;
                        self.lemma_at(i);
                    } else {
                        if exists|i: int| 0 <= i < self.entries@.len() && self.entries@[i].0 == c {
                            let i = choose|i: int| 0 <= i < self.entries@.len() && self.entries@[i].0 == c;
                            assert(src[i] == j);
                        }
                    }
                } else {
                    if exists|i: int| 0 <= i < self.entries@.len() && self.entries@[i].0 == c {
                        let i = choose|i: int| 0 <= i < self.entries@.len() && self.entries@[i].0 == c;
                        assert(before[src[i]].0 == c);
                    }
                }
            }
        }
    }
}

/// Sites after every claim by `e` was dropped.
pub open spec fn sites_released(sites: Seq<SiteState>, e: Entity) -> Seq<SiteState> {
    sites.map_values(
        |s: SiteState|
            if s.site.reserved_by == Some(e) {
                SiteState { site: ConstructionSite { reserved_by: None, ..s.site }, ..s }
            } else {
                s
            },
    )
}

/// Buildings after every bed claim by `e` was dropped.
pub open spec fn beds_released(bs: Seq<BuildingState>, e: Entity) -> Seq<BuildingState> {
    bs.map_values(
        |b: BuildingState|
            match b.occupancy {
                Some(o) => if o.reserved_by == Some(e) {
                    BuildingState { occupancy: Some(BedOccupancy { reserved_by: None }), ..b }
                } else {
                    b
                },
                None => b,
            },
    )
}

/// The position of the first building at or after `k` that stands on `cell`.
pub open spec fn first_building_from(bs: Seq<BuildingState>, cell: (i32, i32), k: int) -> Option<int>
    decreases bs.len() - k,
{
    if k < 0 || k >= bs.len() {
        None
    } else if bs[k].cell == cell {
        Some(k)
    } else {
        first_building_from(bs, cell, k + 1)
    }
}

impl Colony {
    /// Drops every claim of colonist `e` on a construction site.
    pub fn release_construction_reservation(&mut self, e: Entity)
        ensures
            final(self).sites@ == sites_released(old(self).sites@, e),
            final(self).colonists == old(self).colonists,
            final(self).buildings == old(self).buildings,
            final(self).decon_sites == old(self).decon_sites,
            final(self).next_entity == old(self).next_entity,
    {
        let mut k: usize = 0;
        while k < self.sites.len()
            invariant
                0 <= k <= self.sites@.len(),
                self.sites@.len() == old(self).sites@.len(),
                forall|j: int| 0 <= j < k ==> #[trigger] self.sites@[j] == sites_released(old(self).sites@, e)[j],
                forall|j: int| k <= j < self.sites@.len() ==> #[trigger] self.sites@[j] == old(self).sites@[j],
                self.colonists == old(self).colonists,
                self.buildings == old(self).buildings,
                self.decon_sites == old(self).decon_sites,
                self.next_entity == old(self).next_entity,
            decreases self.sites@.len() - k,
        {
            let mut s = self.sites[k];
            if s.site.reserved_by == Some(e) {
                s.site.reserved_by = None;
                self.sites.set(k, s);
            }
            k += 1;
        }
        assert(self.sites@ =~= sites_released(old(self).sites@, e));
    }

    /// Drops every claim of colonist `e` on a bed.
    pub fn release_bed_reservation(&mut self, e: Entity)
        ensures
            final(self).buildings@ == beds_released(old(self).buildings@, e),
            final(self).colonists == old(self).colonists,
            final(self).sites == old(self).sites,
            final(self).decon_sites == old(self).decon_sites,
            final(self).next_entity == old(self).next_entity,
    {
        let mut k: usize = 0;
        while k < self.buildings.len()
            invariant
                0 <= k <= self.buildings@.len(),
                self.buildings@.len() == old(self).buildings@.len(),
                forall|j: int| 0 <= j < k ==> #[trigger] self.buildings@[j] == beds_released(old(self).buildings@, e)[j],
                forall|j: int| k <= j < self.buildings@.len() ==> #[trigger] self.buildings@[j] == old(self).buildings@[j],
                self.colonists == old(self).colonists,
                self.sites == old(self).sites,
                self.decon_sites == old(self).decon_sites,
                self.next_entity == old(self).next_entity,
            decreases self.buildings@.len() - k,
        {
            let mut b = self.buildings[k];
            if let Some(o) = b.occupancy {
                if o.reserved_by == Some(e) {
                    b.occupancy = Some(BedOccupancy { reserved_by: None });
                    self.buildings.set(k, b);
                }
            }
            k += 1;
        }
        assert(self.buildings@ =~= beds_released(old(self).buildings@, e));
    }

    /// The position of the first building standing on `(x, y)`.
    pub fn building_entity_at(&self, x: i32, y: i32) -> (r: Option<usize>)
        ensures
            match r {
                Some(i) => i < self.buildings@.len() && self.buildings@[i as int].cell == (x, y)
                    && forall|j: int| 0 <= j < i ==> self.buildings@[j].cell != (x, y),
                None => forall|j: int| 0 <= j < self.buildings@.len() ==> self.buildings@[j].cell != (x, y),
            },
            first_building_from(self.buildings@, (x, y), 0) == match r {
                Some(i) => Some(i as int),
                None => None::<int>,
            },
    {
        let mut k: usize = 0;
        while k < self.buildings.len()
            invariant
                0 <= k <= self.buildings@.len(),
                forall|j: int| 0 <= j < k ==> self.buildings@[j].cell != (x, y),
                first_building_from(self.buildings@, (x, y), 0) == first_building_from(self.buildings@, (x, y), k as int),
            decreases self.buildings@.len() - k,
        {
            if self.buildings[k].cell.0 == x && self.buildings[k].cell.1 == y {
                return Some(k);
            }
            k += 1;
        }
        None
    }

    /// The position of the first construction site on `(x, y)`.
    pub fn construction_site_at(&self, x: i32, y: i32) -> (r: Option<usize>)
        ensures
            match r {
                Some(i) => i < self.sites@.len() && self.sites@[i as int].cell == (x, y)
                    && forall|j: int| 0 <= j < i ==> self.sites@[j].cell != (x, y),
                None => forall|j: int| 0 <= j < self.sites@.len() ==> self.sites@[j].cell != (x, y),
            },
    {
        let mut k: usize = 0;
        while k < self.sites.len()
            invariant
                0 <= k <= self.sites@.len(),
                forall|j: int| 0 <= j < k ==> self.sites@[j].cell != (x, y),
            decreases self.sites@.len() - k,
        {
            if self.sites[k].cell.0 == x && self.sites[k].cell.1 == y {
                return Some(k);
            }
            k += 1;
        }
        None
    }

    /// The position of the first deconstruction site on `(x, y)`.
    pub fn deconstruction_site_at(&self, x: i32, y: i32) -> (r: Option<usize>)
        ensures
            match r {
                Some(i) => i < self.decon_sites@.len() && self.decon_sites@[i as int].cell == (x, y)
                    && forall|j: int| 0 <= j < i ==> self.decon_sites@[j].cell != (x, y),
                None => forall|j: int| 0 <= j < self.decon_sites@.len() ==> self.decon_sites@[j].cell != (x, y),
            },
    {
        let mut k: usize = 0;
        while k < self.decon_sites.len()
            invariant
                0 <= k <= self.decon_sites@.len(),
                forall|j: int| 0 <= j < k ==> self.decon_sites@[j].cell != (x, y),
            decreases self.decon_sites@.len() - k,
        {
            if self.decon_sites[k].cell.0 == x && self.decon_sites[k].cell.1 == y {
                return Some(k);
            }
            k += 1;
        }
        None
    }

    /// The occupancy map of the colonists' cells; where two share a cell, the later one
    /// in the list is recorded.
    pub fn colonist_occupancy_map(&self) -> (r: Occupancy)
        ensures
            r.wf(),
            forall|c: (i32, i32)| #[trigger] r.at(c) == occupant(self.colonists@, c),
    {
        let mut occ = Occupancy { entries: Vec::new() };
        let mut k: usize = 0;
        while k < self.colonists.len()
            invariant
                0 <= k <= self.colonists@.len(),
                occ.wf(),
                forall|c: (i32, i32)| #[trigger] occ.at(c) == occupant_upto(self.colonists@, k as int, c),
            decreases self.colonists@.len() - k,
        {
            occ.insert(self.colonists[k].cell, self.colonists[k].entity);
            k += 1;
        }
        occ
    }
}

/// The cell is free for `e`: nobody is recorded there, or `e` is.
pub fn is_cell_free(occ: &Occupancy, cell: (i32, i32), e: Entity) -> (r: bool)
    requires
        occ.wf(),
    ensures
        r == match occ.at(cell) {
            None => true,
            Some(o) => o == e,
        },
{
    match occ.get(cell) {
        None => true,
        Some(o) => o == e,
    }
}

/// `c2` is colonist `c` with its task made idle, its path cleared and, if it was
/// sleeping, its bed timer gone.
pub open spec fn cleared(c: ColonistState, c2: ColonistState) -> bool {
    &&& c2.entity == c.entity
    &&& c2.id == c.id
    &&& c2.name == c.name
    &&& c2.cell == c.cell
    &&& c2.statuses == c.statuses
    &&& c2.task == idle_task()
    &&& c2.path.waypoints@.len() == 0
    &&& c2.path.index == 0
    &&& c2.sleep_timer == if c.task.kind == TaskKind::Sleep {
        None
    } else {
        c.sleep_timer
    }
}

impl Colony {
    /// Makes colonist `i` idle: drops its site claim if it was building, its bed claim
    /// and bed timer if it was sleeping, and clears its path.
    pub fn clear_task(&mut self, i: usize)
        requires
            i < old(self).colonists@.len(),
        ensures
            final(self).colonists@.len() == old(self).colonists@.len(),
            cleared(old(self).colonists@[i as int], final(self).colonists@[i as int]),
            forall|j: int| 0 <= j < old(self).colonists@.len() && j != i ==> #[trigger] final(self).colonists@[j] == old(self).colonists@[j],
            final(self).sites@ == if old(self).colonists@[i as int].task.kind == TaskKind::Build {
                sites_released(old(self).sites@, old(self).colonists@[i as int].entity)
            } else {
                old(self).sites@
            },
            final(self).buildings@ == if old(self).colonists@[i as int].task.kind == TaskKind::Sleep {
                beds_released(old(self).buildings@, old(self).colonists@[i as int].entity)
            } else {
                old(self).buildings@
            },
            final(self).decon_sites == old(self).decon_sites,
            final(self).next_entity == old(self).next_entity,
    {
        let e = self.colonists[i].entity;
        let kind = self.colonists[i].task.kind;
        if kind == TaskKind::Build {
            self.release_construction_reservation(e);
        }
        if kind == TaskKind::Sleep {
            self.release_bed_reservation(e);
            self.colonists[i].sleep_timer = None;
        }
        self.colonists[i].task = Task::default();
        self.colonists[i].path.clear();
    }
}

pub(crate) fn manhattan_exec(a: (i32, i32), b: (i32, i32)) -> (r: i64)
    ensures
        r == manhattan(a, b),
{
    let dx = a.0 as i64 - b.0 as i64;
    let dy = a.1 as i64 - b.1 as i64;
    let ax = if dx < 0 {
        -dx
    } else {
        dx
    };
    let ay = if dy < 0 {
        -dy
    } else {
        dy
    };
    ax + ay
}

// ---------------------------------------------------------------------------
// Colonists: spawning, statuses, standing at the task
// ---------------------------------------------------------------------------

/// Number of names that new colonists are given from.
pub const NAME_POOL_LEN: usize = 12;

/// The colonist names, in pool order.
pub open spec fn pool_name(i: int) -> Seq<char> {
    if i == 0 {
        "Alex"@
    } else if i == 1 {
        "Mira"@
    } else if i == 2 {
        "Finn"@
    } else if i == 3 {
        "Luna"@
    } else if i == 4 {
        "Kai"@
    } else if i == 5 {
        "Nora"@
    } else if i == 6 {
        "Eli"@
    } else if i == 7 {
        "Zoe"@
    } else if i == 8 {
        "Sam"@
    } else if i == 9 {
        "Ivy"@
    } else if i == 10 {
        "Leo"@
    } else {
        "Noa"@
    }
}

/// Name `i` of the pool.
pub fn colonist_name(i: usize) -> (r: &'static str)
    requires
        i < NAME_POOL_LEN,
    ensures
        r@ == pool_name(i as int),
{
    match i {
        0 => "Alex",
        1 => "Mira",
        2 => "Finn",
        3 => "Luna",
        4 => "Kai",
        5 => "Nora",
        6 => "Eli",
        7 => "Zoe",
        8 => "Sam",
        9 => "Ivy",
        10 => "Leo",
        _ => "Noa",
    }
}

/// Two different positions of the pool hold different names.
pub proof fn lemma_pool_names_distinct(i: int, j: int)
    requires
        0 <= i < NAME_POOL_LEN,
        0 <= j < NAME_POOL_LEN,
        i != j,
    ensures
        pool_name(i) != pool_name(j),
{
    reveal_strlit("Alex");
    reveal_strlit("Mira");
    reveal_strlit("Finn");
    reveal_strlit("Luna");
    reveal_strlit("Kai");
    reveal_strlit("Nora");
    reveal_strlit("Eli");
    reveal_strlit("Zoe");
    reveal_strlit("Sam");
    reveal_strlit("Ivy");
    reveal_strlit("Leo");
    reveal_strlit("Noa");
    let a = pool_name(i);
    let b = pool_name(j);
    if a == b {
        assert(a[0] == b[0]);
        assert(a[1] == b[1]);
        assert(a[2] == b[2]);
    }
}

/// A cell where a colonist may be spawned: grass that a colonist may stand on.
pub open spec fn spawn_ok(grid: &WorldGrid, content: &ContentRegistry, c: (i32, i32)) -> bool {
    &&& grid.spec_terrain_at(c.0 as int, c.1 as int) == Some(content.grass_terrain)
    &&& grid.spec_walkable(content, c.0 as int, c.1 as int)
}

/// The spawn window: cells within 10 of the centre on both axes.
pub open spec fn in_spawn_window(c: (i32, i32)) -> bool {
    15 <= c.0 <= 35 && 15 <= c.1 <= 35
}

/// Position of a window cell in row-major scan order.
pub open spec fn scan_index(c: (i32, i32)) -> int {
    (c.1 - 15) * 21 + (c.0 - 15)
}

/// Colonist `c` as spawned with number `id`: idle, with no path, no status and no
/// bed timer, named from the pool.
pub open spec fn fresh_colonist(c: ColonistState, id: u32) -> bool {
    &&& c.id == ColonistId(id)
    &&& c.task == idle_task()
    &&& c.path.waypoints@.len() == 0
    &&& c.path.index == 0
    &&& c.statuses.0@.len() == 0
    &&& c.sleep_timer is None
    &&& exists|k: int| 0 <= k < NAME_POOL_LEN && c.name.0@ == pool_name(k)
}

impl Colony {
    /// A colony with no entities.
    pub fn new() -> (r: Colony)
        ensures
            r.colonists@.len() == 0,
            r.buildings@.len() == 0,
            r.sites@.len() == 0,
            r.decon_sites@.len() == 0,
            r.next_entity == 0,
    {
        Colony { colonists: Vec::new(), buildings: Vec::new(), sites: Vec::new(), decon_sites: Vec::new(), next_entity: 0 }
    }
}

/// `cols` are the colonists that `spawn_colonists` places in an empty colony on
/// `grid`: at most three, numbered from 1 with entities from 0, fresh, with distinct
/// names, on the first cells of the spawn window, in scan order, where a colonist may
/// stand.
pub open spec fn spawned(cols: Seq<ColonistState>, grid: &WorldGrid, content: &ContentRegistry) -> bool {
    &&& cols.len() <= 3
    &&& forall|k: int| 0 <= k < cols.len() ==> {
        let c = #[trigger] cols[k];
        &&& fresh_colonist(c, (k + 1) as u32)
        &&& c.entity == Entity(k as u32)
        &&& spawn_ok(grid, content, c.cell)
        &&& in_spawn_window(c.cell)
    }
    &&& forall|a: int, b: int| 0 <= a < b < cols.len() ==> scan_index((#[trigger] cols[a]).cell) < scan_index((#[trigger] cols[b]).cell)
    &&& forall|a: int, b: int| 0 <= a < b < cols.len() ==> (#[trigger] cols[a]).name.0@ != (#[trigger] cols[b]).name.0@
    &&& forall|c: (i32, i32)|
        in_spawn_window(c) && #[trigger] spawn_ok(grid, content, c) && (cols.len() < 3 || scan_index(c) < scan_index(cols[2].cell))
            ==> exists|k: int| 0 <= k < cols.len() && (#[trigger] cols[k]).cell == c
}

/// Spawns up to three colonists on the first grass cells that a colonist may stand
/// on, scanning the spawn window row by row; they are numbered from 1 and named from
/// the pool in random order. Returns the next free colonist number.
pub fn spawn_colonists(colony: &mut Colony, grid: &WorldGrid, content: &ContentRegistry) -> (next_id: u32)
    requires
        grid.wf(content),
    ensures
        1 <= next_id <= 4,
        final(colony).colonists@.len() == old(colony).colonists@.len() + next_id - 1,
        final(colony).colonists@.subrange(0, old(colony).colonists@.len() as int) == old(colony).colonists@,
        forall|k: int| 0 <= k < next_id - 1 ==> {
            let c = #[trigger] final(colony).colonists@[old(colony).colonists@.len() + k];
            &&& fresh_colonist(c, (k + 1) as u32)
            &&& spawn_ok(grid, content, c.cell)
            &&& in_spawn_window(c.cell)
        },
        forall|a: int, b: int| 0 <= a < b < next_id - 1 ==> scan_index((#[trigger] final(colony).colonists@[old(colony).colonists@.len() + a]).cell)
            < scan_index((#[trigger] final(colony).colonists@[old(colony).colonists@.len() + b]).cell),
        forall|a: int, b: int| 0 <= a < b < next_id - 1 ==> (#[trigger] final(colony).colonists@[old(colony).colonists@.len() + a]).name.0@
            != (#[trigger] final(colony).colonists@[old(colony).colonists@.len() + b]).name.0@,
        forall|c: (i32, i32)| in_spawn_window(c) && #[trigger] spawn_ok(grid, content, c) && (next_id < 4 || scan_index(c)
            < scan_index(final(colony).colonists@[old(colony).colonists@.len() + 2int].cell)) ==> exists|k: int|
            0 <= k < next_id - 1 && (#[trigger] final(colony).colonists@[old(colony).colonists@.len() + k]).cell == c,
        old(colony).next_entity + 3 <= u32::MAX ==> {
            &&& final(colony).next_entity == old(colony).next_entity + next_id - 1
            &&& forall|k: int| 0 <= k < next_id - 1 ==> (#[trigger] final(colony).colonists@[old(colony).colonists@.len() + k]).entity
                == Entity((old(colony).next_entity + k) as u32)
        },
        final(colony).buildings == old(colony).buildings,
        final(colony).sites == old(colony).sites,
        final(colony).decon_sites == old(colony).decon_sites,
{
    let n0 = colony.colonists.len();
    let names = shuffled_indices(NAME_POOL_LEN, 3);
    let mut next_id: u32 = 1;
    let mut y: i32 = 15;
    while y <= 35
        invariant
            15 <= y <= 36,
            1 <= next_id <= 4,
            grid.wf(content),
            n0 == old(colony).colonists@.len(),
            names@.len() == 3,
            forall|k: int| 0 <= k < 3 ==> #[trigger] names@[k] < NAME_POOL_LEN,
            forall|a: int, b: int| 0 <= a < b < 3 ==> names@[a] != names@[b],
            colony.colonists@.len() == n0 + next_id - 1,
            colony.colonists@.subrange(0, n0 as int) == old(colony).colonists@,
            forall|k: int| 0 <= k < next_id - 1 ==> {
                let c = #[trigger] colony.colonists@[n0 + k];
                &&& fresh_colonist(c, (k + 1) as u32)
                &&& c.name.0@ == pool_name(names@[k] as int)
                &&& spawn_ok(grid, content, c.cell)
                &&& in_spawn_window(c.cell)
                &&& c.cell.1 < y
            },
            forall|a: int, b: int| 0 <= a < b < next_id - 1 ==> scan_index((#[trigger] colony.colonists@[n0 + a]).cell)
                < scan_index((#[trigger] colony.colonists@[n0 + b]).cell),
            forall|c: (i32, i32)| in_spawn_window(c) && #[trigger] spawn_ok(grid, content, c) && c.1 < y ==> exists|k: int|
                0 <= k < next_id - 1 && (#[trigger] colony.colonists@[n0 + k]).cell == c,
            next_id < 4,
            old(colony).next_entity + 3 <= u32::MAX ==> {
                &&& colony.next_entity == old(colony).next_entity + next_id - 1
                &&& forall|k: int| 0 <= k < next_id - 1 ==> (#[trigger] colony.colonists@[n0 + k]).entity
                    == Entity((old(colony).next_entity + k) as u32)
            },
            colony.buildings == old(colony).buildings,
            colony.sites == old(colony).sites,
            colony.decon_sites == old(colony).decon_sites,
        decreases 36 - y,
    {
        let mut x: i32 = 15;
        while x <= 35
            invariant
                15 <= y <= 35,
                15 <= x <= 36,
                1 <= next_id <= 4,
                grid.wf(content),
                n0 == old(colony).colonists@.len(),
                names@.len() == 3,
                forall|k: int| 0 <= k < 3 ==> #[trigger] names@[k] < NAME_POOL_LEN,
                forall|a: int, b: int| 0 <= a < b < 3 ==> names@[a] != names@[b],
                colony.colonists@.len() == n0 + next_id - 1,
                colony.colonists@.subrange(0, n0 as int) == old(colony).colonists@,
                forall|k: int| 0 <= k < next_id - 1 ==> {
                    let c = #[trigger] colony.colonists@[n0 + k];
                    &&& fresh_colonist(c, (k + 1) as u32)
                    &&& c.name.0@ == pool_name(names@[k] as int)
                    &&& spawn_ok(grid, content, c.cell)
                    &&& in_spawn_window(c.cell)
                    &&& scan_index(c.cell) < scan_index((x, y))
                },
                forall|a: int, b: int| 0 <= a < b < next_id - 1 ==> scan_index((#[trigger] colony.colonists@[n0 + a]).cell)
                    < scan_index((#[trigger] colony.colonists@[n0 + b]).cell),
                forall|c: (i32, i32)| in_spawn_window(c) && #[trigger] spawn_ok(grid, content, c) && scan_index(c) < scan_index((x, y))
                    ==> exists|k: int| 0 <= k < next_id - 1 && (#[trigger] colony.colonists@[n0 + k]).cell == c,
                next_id < 4,
                old(colony).next_entity + 3 <= u32::MAX ==> {
                    &&& colony.next_entity == old(colony).next_entity + next_id - 1
                    &&& forall|k: int| 0 <= k < next_id - 1 ==> (#[trigger] colony.colonists@[n0 + k]).entity
                        == Entity((old(colony).next_entity + k) as u32)
                },
                colony.buildings == old(colony).buildings,
                colony.sites == old(colony).sites,
                colony.decon_sites == old(colony).decon_sites,
            decreases 36 - x,
        {
            let grass = match grid.terrain_at(x, y) {
                Some(t) => t == content.grass_terrain,
                None => false,
            };
            if grass && grid.is_walkable(content, x, y) {
                let k = (next_id - 1) as usize;
                let name = colonist_name(names[k]);
                let e = colony.fresh_entity();
                let ghost before = colony.colonists@;
                colony.colonists.push(ColonistState {
                    entity: e,
                    id: ColonistId(next_id),
                    name: ColonistName(name.to_owned()),
                    cell: (x, y),
                    task: Task::default(),
                    path: Path::new(),
                    statuses: ActiveStatuses(Vec::new()),
                    sleep_timer: None,
                });
                proof {
                    assert(colony.colonists@.subrange(0, n0 as int) =~= before.subrange(0, n0 as int));
                    assert(fresh_colonist(colony.colonists@[n0 + k], next_id)) by {
                        assert(colony.colonists@[n0 + k].name.0@ == pool_name(names@[k as int] as int));
                    }
                    assert forall|j: int| 0 <= j < k implies #[trigger] colony.colonists@[n0 + j] == before[n0 + j] by {}
                }
                next_id = next_id + 1;
                if next_id == 4 {
                    proof {
                        assert forall|c: (i32, i32)| in_spawn_window(c) && #[trigger] spawn_ok(grid, content, c) && (next_id < 4 || scan_index(c)
                            < scan_index(colony.colonists@[n0 + 2].cell)) implies exists|k2: int|
                            0 <= k2 < next_id - 1 && (#[trigger] colony.colonists@[n0 + k2]).cell == c by {
                            assert(scan_index(c) < scan_index((x, y)));
                            let k2 = choose|k2: int| 0 <= k2 < 2 && (#[trigger] before[n0 + k2]).cell == c;
                            assert(colony.colonists@[n0 + k2] == before[n0 + k2]);
                        }
                        assert forall|a: int, b: int| 0 <= a < b < next_id - 1 implies (#[trigger] colony.colonists@[n0 + a]).name.0@
                            != (#[trigger] colony.colonists@[n0 + b]).name.0@ by {
                            assert(names@[a] != names@[b]);
                            lemma_pool_names_distinct(names@[a] as int, names@[b] as int);
                        }
                    }
                    return next_id;
                }
                proof {
                    assert forall|c: (i32, i32)| in_spawn_window(c) && #[trigger] spawn_ok(grid, content, c) && scan_index(c) < scan_index(((x + 1) as i32, y))
                        implies exists|k2: int| 0 <= k2 < next_id - 1 && (#[trigger] colony.colonists@[n0 + k2]).cell == c by {
                        if c == (x, y) {
                            assert(colony.colonists@[n0 + k].cell == c);
                        } else {
                            let k2 = choose|k2: int| 0 <= k2 < k && (#[trigger] before[n0 + k2]).cell == c;
                            assert(colony.colonists@[n0 + k2] == before[n0 + k2]);
                        }
                    }
                }
            } else {
                proof {
                    assert forall|c: (i32, i32)| in_spawn_window(c) && #[trigger] spawn_ok(grid, content, c) && scan_index(c) < scan_index(((x + 1) as i32, y))
                        implies exists|k2: int| 0 <= k2 < next_id - 1 && (#[trigger] colony.colonists@[n0 + k2]).cell == c by {
                        if c == (x, y) {
                            assert(false);
                        }
                    }
                }
            }
            x += 1;
        }
        y += 1;
    }
    proof {
        assert forall|a: int, b: int| 0 <= a < b < next_id - 1 implies (#[trigger] colony.colonists@[n0 + a]).name.0@
            != (#[trigger] colony.colonists@[n0 + b]).name.0@ by {
            assert(names@[a] != names@[b]);
            lemma_pool_names_distinct(names@[a] as int, names@[b] as int);
        }
    }
    next_id
}

/// The statuses among `content.statuses[0..n]` whose need is below its threshold by `below`.
pub open spec fn statuses_for(content: &ContentRegistry, below: Seq<bool>, n: int) -> Seq<StatusId>
    decreases n,
{
    if n <= 0 {
        Seq::empty()
    } else if below[content.statuses@[n - 1].apply_when.need.0 as int] {
        statuses_for(content, below, n - 1).push(StatusId((n - 1) as u8))
    } else {
        statuses_for(content, below, n - 1)
    }
}

/// `b` is colony `a` with each colonist's statuses set from `below`, as
/// `sync_statuses` does; nothing else changes.
pub open spec fn statuses_synced(a: Colony, b: Colony, content: &ContentRegistry, below: Seq<Vec<bool>>) -> bool {
    &&& b.colonists@.len() == a.colonists@.len()
    &&& forall|i: int| 0 <= i < a.colonists@.len() ==> {
        let o = a.colonists@[i];
        let f = #[trigger] b.colonists@[i];
        &&& f.statuses.0@ == statuses_for(content, below[i]@, content.statuses@.len() as int)
        &&& f == ColonistState { statuses: f.statuses, ..o }
    }
    &&& b.buildings == a.buildings
    &&& b.sites == a.sites
    &&& b.decon_sites == a.decon_sites
    &&& b.next_entity == a.next_entity
}

impl Colony {
    /// Sets each colonist's statuses from its needs: a status applies exactly when the
    /// need it watches is below that need's critical threshold, which `below[i][n]`
    /// tells for need `n` of colonist `i`.
    pub fn sync_statuses(&mut self, content: &ContentRegistry, below: &Vec<Vec<bool>>)
        requires
            content.wf(),
            below@.len() == old(self).colonists@.len(),
            forall|i: int| 0 <= i < below@.len() ==> (#[trigger] below@[i])@.len() == content.needs@.len(),
        ensures
            statuses_synced(*old(self), *final(self), content, below@),
    {
        let mut i: usize = 0;
        while i < self.colonists.len()
            invariant
                0 <= i <= self.colonists@.len(),
                content.wf(),
                below@.len() == old(self).colonists@.len(),
                forall|j: int| 0 <= j < below@.len() ==> (#[trigger] below@[j])@.len() == content.needs@.len(),
                self.colonists@.len() == old(self).colonists@.len(),
                forall|j: int| 0 <= j < i ==> {
                    let o = old(self).colonists@[j];
                    let f = #[trigger] self.colonists@[j];
                    &&& f.statuses.0@ == statuses_for(content, below@[j]@, content.statuses@.len() as int)
                    &&& f == ColonistState { statuses: f.statuses, ..o }
                },
                forall|j: int| i <= j < self.colonists@.len() ==> #[trigger] self.colonists@[j] == old(self).colonists@[j],
                self.buildings == old(self).buildings,
                self.sites == old(self).sites,
                self.decon_sites == old(self).decon_sites,
                self.next_entity == old(self).next_entity,
            decreases self.colonists@.len() - i,
        {
            let row = &below[i];
            let mut v: Vec<StatusId> = Vec::new();
            let mut s: usize = 0;
            while s < content.statuses.len()
                invariant
                    0 <= s <= content.statuses@.len(),
                    content.wf(),
                    row@.len() == content.needs@.len(),
                    v@ == statuses_for(content, row@, s as int),
                decreases content.statuses@.len() - s,
            {
                let need = content.statuses[s].apply_when.need;
                if row[need.0 as usize] {
                    v.push(StatusId(s as u8));
                }
                s += 1;
            }
            self.colonists[i].statuses = ActiveStatuses(v);
            i += 1;
        }
    }
}

/// A build order at `(x, y)` may be placed: the terrain is walkable, and no building
/// and no construction site stands there.
pub fn is_valid_build_tile(colony: &Colony, grid: &WorldGrid, content: &ContentRegistry, x: i32, y: i32) -> (r: bool)
    requires
        grid.wf(content),
    ensures
        r == ({
            &&& grid.spec_terrain_at(x as int, y as int) matches Some(t) && content.terrain@[t.0 as int].walkable
            &&& grid.spec_building_at(x as int, y as int) is None
            &&& forall|j: int| 0 <= j < colony.sites@.len() ==> colony.sites@[j].cell != (x, y)
        }),
{
    let walkable = match grid.terrain_at(x, y) {
        Some(t) => content.terrain_def(t).walkable,
        None => false,
    };
    if !walkable {
        return false;
    }
    if grid.building_at(x, y).is_some() {
        return false;
    }
    if colony.construction_site_at(x, y).is_some() {
        return false;
    }
    true
}

impl ColonistState {
    /// The colonist has a task, has used up its path and stands on the task's target.
    pub open spec fn spec_at_task_stand(&self) -> bool {
        &&& self.task.kind != TaskKind::Idle
        &&& self.path.done()
        &&& self.cell == (self.task.target_x, self.task.target_y)
    }

    pub fn colonist_at_task_stand(&self) -> (r: bool)
        ensures
            r == self.spec_at_task_stand(),
    {
        self.task.kind != TaskKind::Idle && self.path.index >= self.path.waypoints.len()
            && self.cell.0 == self.task.target_x && self.cell.1 == self.task.target_y
    }
}

} // verus!
