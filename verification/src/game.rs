//! The state of a game: the colony, the world grid and the loaded content, with the
//! orders a player gives (build, deconstruct, pause, load) and the snapshot that the
//! client draws. Quantities kept as `f32` (positions, needs, amounts of work, speed)
//! stay with the host, which hands this module their integer consequences.
use vstd::prelude::*;

use crate::components::{
    idle_task, ActiveStatuses, ColonistId, ColonistName, ConstructionSite, DeconstructionSite,
    Entity, Path, Task, TaskKind,
};
use crate::content::{
    building_ids, id_index, join_text, terrain_ids, BuildingId, ContentRegistry, StatusId,
};
use crate::execution::{buildings_valid, sites_valid, spawned_building, next_after};
use crate::tasks::{auto_assign_tasks, round_done, build_assigned_at, sleep_assigned_at};
use crate::execution::{exec_outcome, restore_ok, tick_done};
use crate::movement::{apply_moves, snap_fold, snap_start, sorted_by_entity};
use crate::tasks::NeedKind;
use crate::systems::{
    statuses_for, is_valid_build_tile, spawn_colonists, spawned, BuildingState, ColonistState, Colony, DeconSiteState,
    SiteState,
};
use crate::world::{cell_index, generate_world, generated_terrain, WorldGrid, GRID_CELLS, WORLD_SIZE};

verus! {

// ---------------------------------------------------------------------------
// Decimal text
// ---------------------------------------------------------------------------

pub open spec fn digit_str(d: int) -> Seq<char> {
    if d == 0 {
        "0"@
    } else if d == 1 {
        "1"@
    } else if d == 2 {
        "2"@
    } else if d == 3 {
        "3"@
    } else if d == 4 {
        "4"@
    } else if d == 5 {
        "5"@
    } else if d == 6 {
        "6"@
    } else if d == 7 {
        "7"@
    } else if d == 8 {
        "8"@
    } else {
        "9"@
    }
}

/// The decimal digits of `n`, without leading zeros.
pub open spec fn decimal(n: nat) -> Seq<char>
    decreases n,
{
    if n < 10 {
        digit_str(n as int)
    } else {
        decimal(n / 10) + digit_str((n % 10) as int)
    }
}

fn digit_text(d: u64) -> (r: &'static str)
    requires
        d < 10,
    ensures
        r@ == digit_str(d as int),
{
    match d {
        0 => "0",
        1 => "1",
        2 => "2",
        3 => "3",
        4 => "4",
        5 => "5",
        6 => "6",
        7 => "7",
        8 => "8",
        _ => "9",
    }
}

/// `n` written in decimal.
pub fn decimal_text(n: u64) -> (r: String)
    ensures
        r@ == decimal(n as nat),
    decreases n,
{
    if n < 10 {
        digit_text(n).to_owned()
    } else {
        let head = decimal_text(n / 10);
        head.concat(digit_text(n % 10))
    }
}

// ---------------------------------------------------------------------------
// Snapshot records
// ---------------------------------------------------------------------------

#[derive(Clone, Debug)]
pub struct TileSnapshot {
    pub x: i32,
    pub y: i32,
    pub terrain: String,
}

#[derive(Clone, Debug)]
pub struct BuildingSnapshot {
    pub x: i32,
    pub y: i32,
    pub building: String,
    pub berries: Option<u8>,
}

/// What the snapshot shows of a construction or deconstruction site, besides its
/// progress (which the host computes from the `f32` amounts of work).
#[derive(Clone, Debug)]
pub struct SiteView {
    pub entity: Entity,
    pub x: i32,
    pub y: i32,
    pub building: String,
}

/// What the snapshot shows of a colonist, besides its position and needs.
#[derive(Clone, Debug)]
pub struct ColonistView {
    pub entity: Entity,
    pub id: u32,
    pub name: String,
    pub hungry: bool,
    pub wants_sleep: bool,
    pub task: TaskKind,
    pub at_task_stand: bool,
}

/// The parts of a state snapshot that the game computes.
pub struct SnapshotParts {
    pub tiles: Vec<TileSnapshot>,
    pub buildings: Vec<BuildingSnapshot>,
    pub construction_sites: Vec<SiteView>,
    pub deconstruction_sites: Vec<SiteView>,
    pub colonists: Vec<ColonistView>,
    pub paused: bool,
}

/// A site as a saved game gives it; `work_left` is worked out by the host from the
/// saved progress.
#[derive(Clone, Debug)]
pub struct SiteLoad {
    pub x: i32,
    pub y: i32,
    pub building: String,
    pub work_left: Option<u32>,
}

/// A colonist as a saved game gives it; `cell_x` and `cell_y` are the cell of its
/// saved position.
#[derive(Clone, Debug)]
pub struct ColonistLoad {
    pub id: u32,
    pub name: String,
    pub cell_x: i32,
    pub cell_y: i32,
    pub task: TaskKind,
    pub hungry: bool,
    pub wants_sleep: bool,
}

/// The parts of a saved game that the game restores.
pub struct LoadState {
    pub tiles: Vec<TileSnapshot>,
    pub buildings: Vec<BuildingSnapshot>,
    pub construction_sites: Vec<SiteLoad>,
    pub deconstruction_sites: Vec<SiteLoad>,
    pub colonists: Vec<ColonistLoad>,
    pub paused: bool,
}

// ---------------------------------------------------------------------------
// The game
// ---------------------------------------------------------------------------

pub struct GameState {
    pub colony: Colony,
    pub grid: WorldGrid,
    pub content: ContentRegistry,
    pub paused: bool,
}

/// Every deconstruction site names a building of `content`.
pub open spec fn decon_sites_valid(ds: Seq<DeconSiteState>, content: &ContentRegistry) -> bool {
    forall|j: int| 0 <= j < ds.len() ==> (#[trigger] ds[j]).site.building_id.0 < content.buildings@.len()
}

/// The seed with which new games generate their world.
pub const NEW_GAME_SEED: u32 = 42;

impl GameState {
    /// The content is well formed, the grid fits it and every site names a building.
    pub open spec fn wf(&self) -> bool {
        &&& self.content.wf()
        &&& self.grid.wf(&self.content)
        &&& sites_valid(self.colony.sites@, &self.content)
        &&& decon_sites_valid(self.colony.decon_sites@, &self.content)
        &&& buildings_valid(self.colony.buildings@, &self.content)
    }

    /// A new game on `content`: the world generated from `NEW_GAME_SEED`, with the
    /// colonists that `spawn_colonists` places; running.
    pub fn new(content: ContentRegistry) -> (r: GameState)
        requires
            content.wf(),
        ensures
            r.wf(),
            r.content == content,
            r.grid.seed == NEW_GAME_SEED,
            r.colony.buildings@.len() == 0,
            r.colony.sites@.len() == 0,
            r.colony.decon_sites@.len() == 0,
            forall|x: int, y: int|
                0 <= x < WORLD_SIZE && 0 <= y < WORLD_SIZE ==> #[trigger] r.grid.spec_terrain_at(x, y)
                    == Some(generated_terrain(&content, x, y, NEW_GAME_SEED)),
            forall|i: int| 0 <= i < GRID_CELLS ==> #[trigger] r.grid.buildings@[i] is None,
            spawned(r.colony.colonists@, &r.grid, &content),
            r.colony.next_entity == r.colony.colonists@.len(),
            !r.paused,
    {
        let grid = generate_world(NEW_GAME_SEED, &content);
        let mut colony = Colony::new();
        let next_id = spawn_colonists(&mut colony, &grid, &content);
        proof {
            let cols = colony.colonists@;
            assert forall|k: int| 0 <= k < cols.len() implies #[trigger] cols[k] == cols[0 + k] by {}
            assert(forall|k: int| 0 <= k < next_id - 1 ==> #[trigger] cols[0 + k] == cols[k]);
            if cols.len() == 3 {
                assert(cols[2] == cols[0 + 2int]);
            }
        }
        GameState { colony, grid, content, paused: false }
    }

    pub fn set_paused(&mut self, paused: bool)
        ensures
            final(self).paused == paused,
            final(self).colony == old(self).colony,
            final(self).grid == old(self).grid,
            final(self).content == old(self).content,
    {
        self.paused = paused;
    }

    /// The building that a deconstruct order at `(x, y)` would take down, when there is
    /// no deconstruction site there yet: that of the first construction site there,
    /// else the one on the grid.
    pub fn deconstruct_target(&self, x: i32, y: i32) -> (r: Option<BuildingId>)
        requires
            self.wf(),
        ensures
            r == if exists|j: int| 0 <= j < self.colony.decon_sites@.len() && self.colony.decon_sites@[j].cell == (x, y) {
                None
            } else if exists|j: int| 0 <= j < self.colony.sites@.len() && self.colony.sites@[j].cell == (x, y) {
                Some(self.colony.sites@[first_site_at(self.colony.sites@, (x, y))].site.building_id)
            } else {
                self.grid.spec_building_at(x as int, y as int)
            },
    {
        if self.colony.deconstruction_site_at(x, y).is_some() {
            return None;
        }
        match self.colony.construction_site_at(x, y) {
            Some(j) => {
                proof {
                    lemma_first_site_at(self.colony.sites@, (x, y), j as int);
                }
                Some(self.colony.sites[j].site.building_id)
            },
            None => self.grid.building_at(x, y),
        }
    }

    /// A build order: if `building` names a building of the content and the tile is
    /// valid (`is_valid_build_tile`), a construction site with `work_left` ticks of
    /// work is placed on `(x, y)`; returns its entity.
    pub fn handle_build(&mut self, building: &str, x: i32, y: i32, work_left: Option<u32>) -> (r: Option<Entity>)
        requires
            old(self).wf(),
        ensures
            final(self).wf(),
            final(self).grid == old(self).grid,
            final(self).content == old(self).content,
            final(self).paused == old(self).paused,
            final(self).colony.colonists == old(self).colony.colonists,
            final(self).colony.buildings == old(self).colony.buildings,
            final(self).colony.decon_sites == old(self).colony.decon_sites,
            match id_index(building_ids(old(self).content.buildings@), building@) {
                Some(b) => {
                    let valid = old(self).grid.spec_terrain_at(x as int, y as int) matches Some(t)
                        && old(self).content.terrain@[t.0 as int].walkable && old(self).grid.spec_building_at(x as int, y as int) is None
                        && forall|j: int| 0 <= j < old(self).colony.sites@.len() ==> old(self).colony.sites@[j].cell != (x, y);
                    if valid {
                        &&& r == Some(Entity(old(self).colony.next_entity))
                        &&& final(self).colony.next_entity == next_after(old(self).colony.next_entity)
                        &&& final(self).colony.sites@ == old(self).colony.sites@.push(SiteState {
                            entity: Entity(old(self).colony.next_entity),
                            cell: (x, y),
                            site: ConstructionSite { building_id: BuildingId(b as u16), work_left: work_left, reserved_by: None },
                        })
                    } else {
                        r is None && final(self).colony == old(self).colony
                    }
                },
                None => r is None && final(self).colony == old(self).colony,
            },
    {
        let b = match self.content.building_id(building) {
            Some(b) => b,
            None => {
                return None;
            },
        };
        proof {
            crate::content::lemma_id_index(building_ids(self.content.buildings@), building@);
        }
        if !is_valid_build_tile(&self.colony, &self.grid, &self.content, x, y) {
            return None;
        }
        let e = self.colony.fresh_entity();
        self.colony.sites.push(SiteState {
            entity: e,
            cell: (x, y),
            site: ConstructionSite { building_id: b, work_left, reserved_by: None },
        });
        proof {
            assert forall|j: int| 0 <= j < self.colony.sites@.len() implies (#[trigger] self.colony.sites@[j]).site.building_id.0
                < self.content.buildings@.len() by {
                if j < old(self).colony.sites@.len() {
                    assert(self.colony.sites@[j] == old(self).colony.sites@[j]);
                }
            }
        }
        Some(e)
    }
}

/// The position of the first site at `cell`.
pub open spec fn first_site_at(sites: Seq<SiteState>, cell: (i32, i32)) -> int {
    choose|j: int| 0 <= j < sites.len() && sites[j].cell == cell && forall|k: int| 0 <= k < j ==> sites[k].cell != cell
}

proof fn lemma_first_site_at(sites: Seq<SiteState>, cell: (i32, i32), j: int)
    requires
        0 <= j < sites.len(),
        sites[j].cell == cell,
        forall|k: int| 0 <= k < j ==> sites[k].cell != cell,
    ensures
        first_site_at(sites, cell) == j,
{
    let f = first_site_at(sites, cell);
    assert(0 <= f < sites.len() && sites[f].cell == cell && forall|k: int| 0 <= k < f ==> sites[k].cell != cell);
    if f < j {
        assert(sites[f].cell != cell);
    }
    if j < f {
        assert(sites[j].cell != cell);
    }
}


/// The position of the first colonist numbered `e`.
pub open spec fn first_colonist_with(cols: Seq<ColonistState>, e: Entity, k: int) -> Option<int>
    decreases cols.len() - k,
{
    if k < 0 || k >= cols.len() {
        None
    } else if cols[k].entity == e {
        Some(k)
    } else {
        first_colonist_with(cols, e, k + 1)
    }
}

/// `b` is colonist list `a` with the first colonist numbered `e` made idle and its path
/// cleared, and nothing else changed.
pub open spec fn builder_reset(a: Seq<ColonistState>, b: Seq<ColonistState>, e: Entity) -> bool {
    &&& b.len() == a.len()
    &&& match first_colonist_with(a, e, 0) {
        Some(k) => {
            &&& b[k].task == idle_task()
            &&& b[k].path.waypoints@.len() == 0
            &&& b[k].path.index == 0
            &&& b[k] == ColonistState { task: b[k].task, path: b[k].path, ..a[k] }
            &&& forall|j: int| 0 <= j < a.len() && j != k ==> #[trigger] b[j] == a[j]
        },
        None => b == a,
    }
}

impl Colony {
    /// The colonist numbered `e` (the first one so numbered) drops its building task:
    /// it becomes idle and its path is cleared.
    pub fn reset_builder(&mut self, e: Entity)
        ensures
            builder_reset(old(self).colonists@, final(self).colonists@, e),
            final(self).buildings == old(self).buildings,
            final(self).sites == old(self).sites,
            final(self).decon_sites == old(self).decon_sites,
            final(self).next_entity == old(self).next_entity,
    {
        let mut k: usize = 0;
        while k < self.colonists.len()
            invariant
                0 <= k <= self.colonists@.len(),
                self.colonists == old(self).colonists,
                self.buildings == old(self).buildings,
                self.sites == old(self).sites,
                self.decon_sites == old(self).decon_sites,
                self.next_entity == old(self).next_entity,
                first_colonist_with(self.colonists@, e, 0) == first_colonist_with(self.colonists@, e, k as int),
            decreases self.colonists@.len() - k,
        {
            if self.colonists[k].entity == e {
                self.colonists[k].task = Task::default();
                self.colonists[k].path.clear();
                return;
            }
            k += 1;
        }
    }
}

/// `g1` is `g0` after a deconstruct order at `(x, y)`, as `handle_deconstruct` says.
pub open spec fn deconstructed(g0: GameState, g1: GameState, x: i32, y: i32, untouched: bool, decon_work: Option<u32>) -> bool {
    let c0 = g0.colony;
    let c1 = g1.colony;
    &&& g1.grid == g0.grid
    &&& g1.content == g0.content
    &&& g1.paused == g0.paused
    &&& c1.buildings == c0.buildings
    &&& {
        let new_decon = |b: BuildingId| DeconSiteState {
            entity: Entity(c0.next_entity),
            cell: (x, y),
            site: DeconstructionSite { building_id: b, work_left: decon_work, reserved_by: None },
        };
        if exists|j: int| 0 <= j < c0.decon_sites@.len() && c0.decon_sites@[j].cell == (x, y) {
            c1 == c0
        } else if exists|j: int| 0 <= j < c0.sites@.len() && c0.sites@[j].cell == (x, y) {
            let j = first_site_at(c0.sites@, (x, y));
            let s = c0.sites@[j];
            &&& c1.sites@ == c0.sites@.remove(j)
            &&& match s.site.reserved_by {
                Some(e) => builder_reset(c0.colonists@, c1.colonists@, e),
                None => c1.colonists == c0.colonists,
            }
            &&& if untouched {
                c1.decon_sites == c0.decon_sites && c1.next_entity == c0.next_entity
            } else {
                &&& c1.decon_sites@ == c0.decon_sites@.push(new_decon(s.site.building_id))
                &&& c1.next_entity == next_after(c0.next_entity)
            }
        } else {
            match g0.grid.spec_building_at(x as int, y as int) {
                Some(b) => {
                    &&& c1.decon_sites@ == c0.decon_sites@.push(new_decon(b))
                    &&& c1.next_entity == next_after(c0.next_entity)
                    &&& c1.colonists == c0.colonists
                    &&& c1.sites == c0.sites
                },
                None => c1 == c0,
            }
        }
    }
}

impl GameState {
    /// A deconstruct order at `(x, y)`. Nothing happens if a deconstruction site is
    /// already there. Else, if a construction site is there (the first one), its
    /// builder drops the task and the site is removed; unless no work had been done
    /// on it yet (`untouched`), a deconstruction site for its building takes its place.
    /// Else, if the grid has a building there, a deconstruction site is placed for it.
    /// A new deconstruction site has `decon_work` ticks of work and no claim.
    pub fn handle_deconstruct(&mut self, x: i32, y: i32, untouched: bool, decon_work: Option<u32>)
        requires
            old(self).wf(),
        ensures
            final(self).wf(),
            deconstructed(*old(self), *final(self), x, y, untouched, decon_work),
    {
        if self.colony.deconstruction_site_at(x, y).is_some() {
            return;
        }
        match self.colony.construction_site_at(x, y) {
            Some(j) => {
                proof {
                    lemma_first_site_at(self.colony.sites@, (x, y), j as int);
                }
                let s = self.colony.sites[j];
                if let Some(builder) = s.site.reserved_by {
                    self.colony.reset_builder(builder);
                }
                self.colony.despawn_site(j);
                proof {
                    assert forall|q: int| 0 <= q < self.colony.sites@.len() implies (#[trigger] self.colony.sites@[q]).site.building_id.0
                        < self.content.buildings@.len() by {
                        if q < j {
                            assert(self.colony.sites@[q] == old(self).colony.sites@[q]);
                        } else {
                            assert(self.colony.sites@[q] == old(self).colony.sites@[q + 1]);
                        }
                    }
                }
                if untouched {
                    return;
                }
                let e = self.colony.fresh_entity();
                let ghost d0 = self.colony.decon_sites@;
                self.colony.decon_sites.push(DeconSiteState {
                    entity: e,
                    cell: (x, y),
                    site: DeconstructionSite { building_id: s.site.building_id, work_left: decon_work, reserved_by: None },
                });
                proof {
                    assert forall|q: int| 0 <= q < self.colony.decon_sites@.len() implies (#[trigger] self.colony.decon_sites@[q]).site.building_id.0
                        < self.content.buildings@.len() by {
                        if q < d0.len() {
                            assert(self.colony.decon_sites@[q] == d0[q]);
                        }
                    }
                }
            },
            None => {
                if let Some(b) = self.grid.building_at(x, y) {
                    let e = self.colony.fresh_entity();
                    let ghost d0 = self.colony.decon_sites@;
                    self.colony.decon_sites.push(DeconSiteState {
                        entity: e,
                        cell: (x, y),
                        site: DeconstructionSite { building_id: b, work_left: decon_work, reserved_by: None },
                    });
                    proof {
                        let i = cell_index(x as int, y as int)->0;
                        assert(self.grid.buildings@[i] == Some(b));
                        assert forall|q: int| 0 <= q < self.colony.decon_sites@.len() implies (#[trigger] self.colony.decon_sites@[q]).site.building_id.0
                            < self.content.buildings@.len() by {
                            if q < d0.len() {
                                assert(self.colony.decon_sites@[q] == d0[q]);
                            }
                        }
                    }
                }
            },
        }
    }
}


/// The terrain that loaded `tiles[0..n]` give cell `i`: that of the last tile on the
/// cell whose terrain the content knows; grass if there is none.
pub open spec fn loaded_terrain(content: &ContentRegistry, tiles: Seq<TileSnapshot>, n: int, i: int) -> crate::content::TerrainId
    decreases n,
{
    if n <= 0 {
        content.grass_terrain
    } else {
        let t = tiles[n - 1];
        match (cell_index(t.x as int, t.y as int), id_index(terrain_ids(content.terrain@), t.terrain@)) {
            (Some(c), Some(id)) => if c == i {
                crate::content::TerrainId(id as u16)
            } else {
                loaded_terrain(content, tiles, n - 1, i)
            },
            _ => loaded_terrain(content, tiles, n - 1, i),
        }
    }
}

/// The building that loaded `bs[0..n]` give cell `i`: that of the last entry on the
/// cell whose building the content knows; none if there is none.
pub open spec fn loaded_building(content: &ContentRegistry, bs: Seq<BuildingSnapshot>, n: int, i: int) -> Option<BuildingId>
    decreases n,
{
    if n <= 0 {
        None
    } else {
        let b = bs[n - 1];
        match (cell_index(b.x as int, b.y as int), id_index(building_ids(content.buildings@), b.building@)) {
            (Some(c), Some(id)) => if c == i {
                Some(BuildingId(id as u16))
            } else {
                loaded_building(content, bs, n - 1, i)
            },
            _ => loaded_building(content, bs, n - 1, i),
        }
    }
}

/// The entries of `bs[0..n]` whose building the content knows.
pub open spec fn known_buildings(content: &ContentRegistry, bs: Seq<BuildingSnapshot>, n: int) -> Seq<BuildingSnapshot>
    decreases n,
{
    if n <= 0 {
        Seq::empty()
    } else if id_index(building_ids(content.buildings@), bs[n - 1].building@) is Some {
        known_buildings(content, bs, n - 1).push(bs[n - 1])
    } else {
        known_buildings(content, bs, n - 1)
    }
}

/// The sites of `ss[0..n]` whose building the content knows.
pub open spec fn known_sites(content: &ContentRegistry, ss: Seq<SiteLoad>, n: int) -> Seq<SiteLoad>
    decreases n,
{
    if n <= 0 {
        Seq::empty()
    } else if id_index(building_ids(content.buildings@), ss[n - 1].building@) is Some {
        known_sites(content, ss, n - 1).push(ss[n - 1])
    } else {
        known_sites(content, ss, n - 1)
    }
}

/// The id that the content gives the building named `name` (which it knows).
pub open spec fn building_of(content: &ContentRegistry, name: Seq<char>) -> BuildingId {
    BuildingId(id_index(building_ids(content.buildings@), name)->0 as u16)
}

/// The statuses of a loaded colonist: hunger, then the wish to sleep.
pub open spec fn loaded_statuses(content: &ContentRegistry, hungry: bool, wants_sleep: bool) -> Seq<StatusId> {
    let h: Seq<StatusId> = if hungry { seq![content.hungry_status] } else { Seq::empty() };
    if wants_sleep && !(hungry && content.wants_sleep_status == content.hungry_status) {
        h.push(content.wants_sleep_status)
    } else {
        h
    }
}

/// Colonist `c` is loaded from `l`: same number, name and cell, the loaded task kind
/// with both cells at the origin, no path, the loaded statuses, no bed timer.
pub open spec fn loaded_colonist(content: &ContentRegistry, c: ColonistState, l: ColonistLoad) -> bool {
    &&& c.id == ColonistId(l.id)
    &&& c.name.0@ == l.name@
    &&& c.cell == (l.cell_x, l.cell_y)
    &&& c.task == Task { kind: l.task, ..idle_task() }
    &&& c.path.waypoints@.len() == 0
    &&& c.path.index == 0
    &&& c.statuses.0@ == loaded_statuses(content, l.hungry, l.wants_sleep)
    &&& c.sleep_timer is None
}

/// The message of a refused saved game whose tile count is `n`.
pub open spec fn tile_count_message(n: nat) -> Seq<char> {
    "invalid tile count: expected 2500, got "@ + decimal(n)
}

impl GameState {
    /// Removes every colonist, building and site.
    pub fn despawn_game_entities(&mut self)
        ensures
            final(self).colony.colonists@.len() == 0,
            final(self).colony.buildings@.len() == 0,
            final(self).colony.sites@.len() == 0,
            final(self).colony.decon_sites@.len() == 0,
            final(self).colony.next_entity == old(self).colony.next_entity,
            final(self).grid == old(self).grid,
            final(self).content == old(self).content,
            final(self).paused == old(self).paused,
    {
        self.colony.colonists = Vec::new();
        self.colony.buildings = Vec::new();
        self.colony.sites = Vec::new();
        self.colony.decon_sites = Vec::new();
    }

    /// Loads a saved game. A save whose tile count is not that of the grid is refused
    /// with `tile_count_message` and nothing changes. Otherwise every entity is removed;
    /// the grid (same seed) takes each cell's terrain and building from the last tile
    /// and building entry on it that the content knows (grass and no building if none);
    /// the buildings, sites and colonists of the save whose buildings the content knows
    /// are spawned in order; the game takes the saved pause flag.
    pub fn restore_from_snapshot(&mut self, load: &LoadState) -> (r: Result<(), String>)
        requires
            old(self).wf(),
        ensures
            final(self).wf(),
            final(self).content == old(self).content,
            load.tiles@.len() != GRID_CELLS ==> {
                &&& r matches Err(m) && m@ == tile_count_message(load.tiles@.len())
                &&& final(self).colony == old(self).colony
                &&& final(self).grid == old(self).grid
                &&& final(self).paused == old(self).paused
            },
            load.tiles@.len() == GRID_CELLS ==> {
                let content = &old(self).content;
                let kb = known_buildings(content, load.buildings@, load.buildings@.len() as int);
                let ks = known_sites(content, load.construction_sites@, load.construction_sites@.len() as int);
                let kd = known_sites(content, load.deconstruction_sites@, load.deconstruction_sites@.len() as int);
                &&& r is Ok
                &&& final(self).grid.seed == old(self).grid.seed
                &&& forall|i: int| 0 <= i < GRID_CELLS ==> #[trigger] final(self).grid.terrain@[i] == loaded_terrain(
                    content,
                    load.tiles@,
                    load.tiles@.len() as int,
                    i,
                )
                &&& forall|i: int| 0 <= i < GRID_CELLS ==> #[trigger] final(self).grid.buildings@[i] == loaded_building(
                    content,
                    load.buildings@,
                    load.buildings@.len() as int,
                    i,
                )
                &&& final(self).colony.buildings@.len() == kb.len()
                &&& forall|k: int| 0 <= k < kb.len() ==> #[trigger] final(self).colony.buildings@[k] == spawned_building(
                    content,
                    final(self).colony.buildings@[k].entity,
                    (kb[k].x, kb[k].y),
                    building_of(content, kb[k].building@),
                    kb[k].berries,
                )
                &&& final(self).colony.sites@.len() == ks.len()
                &&& forall|k: int| 0 <= k < ks.len() ==> #[trigger] final(self).colony.sites@[k] == (SiteState {
                    entity: final(self).colony.sites@[k].entity,
                    cell: (ks[k].x, ks[k].y),
                    site: ConstructionSite { building_id: building_of(content, ks[k].building@), work_left: ks[k].work_left, reserved_by: None },
                })
                &&& final(self).colony.decon_sites@.len() == kd.len()
                &&& forall|k: int| 0 <= k < kd.len() ==> #[trigger] final(self).colony.decon_sites@[k] == (DeconSiteState {
                    entity: final(self).colony.decon_sites@[k].entity,
                    cell: (kd[k].x, kd[k].y),
                    site: DeconstructionSite { building_id: building_of(content, kd[k].building@), work_left: kd[k].work_left, reserved_by: None },
                })
                &&& final(self).colony.colonists@.len() == load.colonists@.len()
                &&& forall|k: int| 0 <= k < load.colonists@.len() ==> loaded_colonist(content, #[trigger] final(self).colony.colonists@[k], load.colonists@[k])
                &&& final(self).paused == load.paused
            },
    {
        let n = load.tiles.len();
        if n != GRID_CELLS {
            let count = decimal_text(n as u64);
            let m = join_text("invalid tile count: expected 2500, got ", count.as_str());
            return Err(m);
        }
        self.despawn_game_entities();
        let mut terrain: Vec<crate::content::TerrainId> = vec![self.content.grass_terrain; GRID_CELLS];
        let mut buildings: Vec<Option<BuildingId>> = vec![None; GRID_CELLS];
        let mut k: usize = 0;
        while k < load.tiles.len()
            invariant
                0 <= k <= load.tiles@.len(),
                self.content.wf(),
                terrain@.len() == GRID_CELLS,
                forall|i: int| 0 <= i < GRID_CELLS ==> #[trigger] terrain@[i] == loaded_terrain(&self.content, load.tiles@, k as int, i),
            decreases load.tiles@.len() - k,
        {
            let tile = &load.tiles[k];
            if let Some(t) = self.content.terrain_id(tile.terrain.as_str()) {
                if let Some(i) = WorldGrid::index(tile.x, tile.y) {
                    terrain.set(i, t);
                }
            }
            k += 1;
        }
        k = 0;
        while k < load.buildings.len()
            invariant
                0 <= k <= load.buildings@.len(),
                self.content.wf(),
                buildings@.len() == GRID_CELLS,
                forall|i: int| 0 <= i < GRID_CELLS ==> #[trigger] buildings@[i] == loaded_building(&self.content, load.buildings@, k as int, i),
            decreases load.buildings@.len() - k,
        {
            let b = &load.buildings[k];
            if let Some(id) = self.content.building_id(b.building.as_str()) {
                if let Some(i) = WorldGrid::index(b.x, b.y) {
                    buildings.set(i, Some(id));
                }
            }
            k += 1;
        }
        let ghost content = self.content;
        proof {
            assert forall|i: int| 0 <= i < GRID_CELLS implies (#[trigger] terrain@[i]).0 < content.terrain@.len() by {
                lemma_loaded_terrain_valid(&content, load.tiles@, load.tiles@.len() as int, i);
            }
            assert forall|i: int| 0 <= i < GRID_CELLS implies match #[trigger] buildings@[i] {
                Some(b) => b.0 < content.buildings@.len(),
                None => true,
            } by {
                lemma_loaded_building_valid(&content, load.buildings@, load.buildings@.len() as int, i);
            }
        }
        self.grid = WorldGrid { terrain, buildings, seed: self.grid.seed };
        let ghost g = self.grid;
        assert(g.wf(&content));
        k = 0;
        while k < load.buildings.len()
            invariant
                0 <= k <= load.buildings@.len(),
                self.content == content,
                self.content.wf(),
                self.colony.buildings@.len() == known_buildings(&content, load.buildings@, k as int).len(),
                forall|q: int| 0 <= q < self.colony.buildings@.len() ==> #[trigger] self.colony.buildings@[q] == spawned_building(
                    &content,
                    self.colony.buildings@[q].entity,
                    (known_buildings(&content, load.buildings@, k as int)[q].x, known_buildings(&content, load.buildings@, k as int)[q].y),
                    building_of(&content, known_buildings(&content, load.buildings@, k as int)[q].building@),
                    known_buildings(&content, load.buildings@, k as int)[q].berries,
                ),
                buildings_valid(self.colony.buildings@, &content),
                self.colony.colonists@.len() == 0,
                self.colony.sites@.len() == 0,
                self.colony.decon_sites@.len() == 0,
                self.grid == g,
                g.wf(&content),
                self.paused == old(self).paused,
            decreases load.buildings@.len() - k,
        {
            let b = &load.buildings[k];
            let ghost before = self.colony.buildings@;
            if let Some(id) = self.content.building_id(b.building.as_str()) {
                proof {
                    crate::content::lemma_id_index(building_ids(content.buildings@), b.building@);
                    lemma_u16_index(id_index(building_ids(content.buildings@), b.building@)->0, content.buildings@.len() as int);
                }
                self.colony.spawn_building(&self.content, (b.x, b.y), id, b.berries);
                proof {
                    assert forall|q: int| 0 <= q < self.colony.buildings@.len() implies (#[trigger] self.colony.buildings@[q]).kind.0.0
                        < content.buildings@.len() by {
                        if q < before.len() {
                            assert(self.colony.buildings@[q] == before[q]);
                        }
                    }
                }
            }
            k += 1;
        }
        let ghost bsf = self.colony.buildings;
        k = 0;
        while k < load.construction_sites.len()
            invariant
                0 <= k <= load.construction_sites@.len(),
                self.content == content,
                self.content.wf(),
                self.colony.sites@.len() == known_sites(&content, load.construction_sites@, k as int).len(),
                forall|q: int| 0 <= q < self.colony.sites@.len() ==> #[trigger] self.colony.sites@[q] == (SiteState {
                    entity: self.colony.sites@[q].entity,
                    cell: (known_sites(&content, load.construction_sites@, k as int)[q].x, known_sites(&content, load.construction_sites@, k as int)[q].y),
                    site: ConstructionSite {
                        building_id: building_of(&content, known_sites(&content, load.construction_sites@, k as int)[q].building@),
                        work_left: known_sites(&content, load.construction_sites@, k as int)[q].work_left,
                        reserved_by: None,
                    },
                }),
                sites_valid(self.colony.sites@, &content),
                self.colony.colonists@.len() == 0,
                self.colony.decon_sites@.len() == 0,
                self.grid == g,
                g.wf(&content),
                self.colony.buildings == bsf,
                self.paused == old(self).paused,
            decreases load.construction_sites@.len() - k,
        {
            let st = &load.construction_sites[k];
            let ghost before = self.colony.sites@;
            if let Some(id) = self.content.building_id(st.building.as_str()) {
                proof {
                    crate::content::lemma_id_index(building_ids(content.buildings@), st.building@);
                    lemma_u16_index(id_index(building_ids(content.buildings@), st.building@)->0, content.buildings@.len() as int);
                }
                let e = self.colony.fresh_entity();
                self.colony.sites.push(SiteState {
                    entity: e,
                    cell: (st.x, st.y),
                    site: ConstructionSite { building_id: id, work_left: st.work_left, reserved_by: None },
                });
                proof {
                    assert forall|q: int| 0 <= q < self.colony.sites@.len() implies (#[trigger] self.colony.sites@[q]).site.building_id.0
                        < content.buildings@.len() by {
                        if q < before.len() {
                            assert(self.colony.sites@[q] == before[q]);
                        }
                    }
                }
            }
            k += 1;
        }
        let ghost ssf = self.colony.sites;
        k = 0;
        while k < load.deconstruction_sites.len()
            invariant
                0 <= k <= load.deconstruction_sites@.len(),
                self.content == content,
                self.content.wf(),
                self.colony.decon_sites@.len() == known_sites(&content, load.deconstruction_sites@, k as int).len(),
                forall|q: int| 0 <= q < self.colony.decon_sites@.len() ==> #[trigger] self.colony.decon_sites@[q] == (DeconSiteState {
                    entity: self.colony.decon_sites@[q].entity,
                    cell: (known_sites(&content, load.deconstruction_sites@, k as int)[q].x, known_sites(&content, load.deconstruction_sites@, k as int)[q].y),
                    site: DeconstructionSite {
                        building_id: building_of(&content, known_sites(&content, load.deconstruction_sites@, k as int)[q].building@),
                        work_left: known_sites(&content, load.deconstruction_sites@, k as int)[q].work_left,
                        reserved_by: None,
                    },
                }),
                decon_sites_valid(self.colony.decon_sites@, &content),
                self.colony.colonists@.len() == 0,
                self.grid == g,
                g.wf(&content),
                self.colony.buildings == bsf,
                self.colony.sites == ssf,
                self.paused == old(self).paused,
            decreases load.deconstruction_sites@.len() - k,
        {
            let st = &load.deconstruction_sites[k];
            let ghost before = self.colony.decon_sites@;
            if let Some(id) = self.content.building_id(st.building.as_str()) {
                proof {
                    crate::content::lemma_id_index(building_ids(content.buildings@), st.building@);
                    lemma_u16_index(id_index(building_ids(content.buildings@), st.building@)->0, content.buildings@.len() as int);
                }
                let e = self.colony.fresh_entity();
                self.colony.decon_sites.push(DeconSiteState {
                    entity: e,
                    cell: (st.x, st.y),
                    site: DeconstructionSite { building_id: id, work_left: st.work_left, reserved_by: None },
                });
                proof {
                    assert forall|q: int| 0 <= q < self.colony.decon_sites@.len() implies (#[trigger] self.colony.decon_sites@[q]).site.building_id.0
                        < content.buildings@.len() by {
                        if q < before.len() {
                            assert(self.colony.decon_sites@[q] == before[q]);
                        }
                    }
                }
            }
            k += 1;
        }
        let ghost dsf = self.colony.decon_sites;
        k = 0;
        while k < load.colonists.len()
            invariant
                0 <= k <= load.colonists@.len(),
                self.content == content,
                self.colony.colonists@.len() == k,
                forall|q: int| 0 <= q < k ==> loaded_colonist(&content, #[trigger] self.colony.colonists@[q], load.colonists@[q]),
                self.grid == g,
                g.wf(&content),
                self.colony.buildings == bsf,
                self.colony.sites == ssf,
                self.colony.decon_sites == dsf,
                self.paused == old(self).paused,
            decreases load.colonists@.len() - k,
        {
            let l = &load.colonists[k];
            let mut statuses: Vec<StatusId> = Vec::new();
            if l.hungry {
                statuses.push(self.content.hungry_status);
            }
            if l.wants_sleep && !(l.hungry && self.content.wants_sleep_status == self.content.hungry_status) {
                statuses.push(self.content.wants_sleep_status);
            }
            proof {
                assert(statuses@ =~= loaded_statuses(&content, l.hungry, l.wants_sleep));
            }
            let e = self.colony.fresh_entity();
            let ghost before = self.colony.colonists@;
            self.colony.colonists.push(ColonistState {
                entity: e,
                id: ColonistId(l.id),
                name: ColonistName(l.name.clone()),
                cell: (l.cell_x, l.cell_y),
                task: Task { kind: l.task, building_x: 0, building_y: 0, target_x: 0, target_y: 0 },
                path: Path::new(),
                statuses: ActiveStatuses(statuses),
                sleep_timer: None,
            });
            proof {
                assert forall|q: int| 0 <= q < k + 1 implies loaded_colonist(&content, #[trigger] self.colony.colonists@[q], load.colonists@[q]) by {
                    if q < k {
                        assert(self.colony.colonists@[q] == before[q]);
                    }
                }
            }
            k += 1;
        }
        self.paused = load.paused;
        Ok(())
    }
}

/// An index below `len`, cut to 16 bits, is still below `len`.
proof fn lemma_u16_index(id: int, len: int)
    requires
        0 <= id < len,
    ensures
        (id as u16) < len,
{
    if id < 0x10000 {
        assert((id as u16) == id);
    } else {
        assert((id as u16) < 0x10000);
    }
}

proof fn lemma_loaded_terrain_valid(content: &ContentRegistry, tiles: Seq<TileSnapshot>, n: int, i: int)
    requires
        content.wf(),
    ensures
        loaded_terrain(content, tiles, n, i).0 < content.terrain@.len(),
    decreases n,
{
    if n > 0 {
        let t = tiles[n - 1];
        crate::content::lemma_id_index(terrain_ids(content.terrain@), t.terrain@);
        if let Some(id) = id_index(terrain_ids(content.terrain@), t.terrain@) {
            lemma_u16_index(id, content.terrain@.len() as int);
        }
        lemma_loaded_terrain_valid(content, tiles, n - 1, i);
    }
}

proof fn lemma_loaded_building_valid(content: &ContentRegistry, bs: Seq<BuildingSnapshot>, n: int, i: int)
    requires
        content.wf(),
    ensures
        match loaded_building(content, bs, n, i) {
            Some(b) => b.0 < content.buildings@.len(),
            None => true,
        },
    decreases n,
{
    if n > 0 {
        let b = bs[n - 1];
        crate::content::lemma_id_index(building_ids(content.buildings@), b.building@);
        if let Some(id) = id_index(building_ids(content.buildings@), b.building@) {
            lemma_u16_index(id, content.buildings@.len() as int);
        }
        lemma_loaded_building_valid(content, bs, n - 1, i);
    }
}


/// Tile `t` shows cell `i` of `grid`.
pub open spec fn tile_shows(content: &ContentRegistry, grid: &WorldGrid, t: TileSnapshot, i: int) -> bool {
    &&& t.x == i % WORLD_SIZE as int
    &&& t.y == i / WORLD_SIZE as int
    &&& t.terrain@ == content.terrain@[grid.terrain@[i].0 as int].id@
}

/// Entry `s` shows building entity `b`.
pub open spec fn building_shows(content: &ContentRegistry, b: BuildingState, s: BuildingSnapshot) -> bool {
    &&& s.x == b.cell.0
    &&& s.y == b.cell.1
    &&& s.building@ == content.buildings@[b.kind.0.0 as int].id@
    &&& s.berries == match b.supply {
        Some(sp) => Some(sp.remaining),
        None => None::<u8>,
    }
}

/// View `v` shows site `e` on `cell` of building `b`.
pub open spec fn site_shows(content: &ContentRegistry, e: Entity, cell: (i32, i32), b: BuildingId, v: SiteView) -> bool {
    &&& v.entity == e
    &&& v.x == cell.0
    &&& v.y == cell.1
    &&& v.building@ == content.buildings@[b.0 as int].id@
}

/// View `v` shows colonist `c`.
pub open spec fn colonist_shows(content: &ContentRegistry, c: ColonistState, v: ColonistView) -> bool {
    &&& v.entity == c.entity
    &&& v.id == c.id.0
    &&& v.name@ == c.name.0@
    &&& v.hungry == c.statuses.contains_id(content.hungry_status)
    &&& v.wants_sleep == c.statuses.contains_id(content.wants_sleep_status)
    &&& v.task == c.task.kind
    &&& v.at_task_stand == c.spec_at_task_stand()
}

impl GameState {
    /// The parts of the state snapshot that the game computes: every tile in row
    /// order, and every building, site and colonist in list order.
    pub fn build_snapshot(&self) -> (r: SnapshotParts)
        requires
            self.wf(),
        ensures
            r.tiles@.len() == GRID_CELLS,
            forall|i: int| 0 <= i < GRID_CELLS ==> tile_shows(&self.content, &self.grid, #[trigger] r.tiles@[i], i),
            r.buildings@.len() == self.colony.buildings@.len(),
            forall|k: int| 0 <= k < r.buildings@.len() ==> building_shows(&self.content, self.colony.buildings@[k], #[trigger] r.buildings@[k]),
            r.construction_sites@.len() == self.colony.sites@.len(),
            forall|k: int| 0 <= k < r.construction_sites@.len() ==> {
                let s = self.colony.sites@[k];
                site_shows(&self.content, s.entity, s.cell, s.site.building_id, #[trigger] r.construction_sites@[k])
            },
            r.deconstruction_sites@.len() == self.colony.decon_sites@.len(),
            forall|k: int| 0 <= k < r.deconstruction_sites@.len() ==> {
                let s = self.colony.decon_sites@[k];
                site_shows(&self.content, s.entity, s.cell, s.site.building_id, #[trigger] r.deconstruction_sites@[k])
            },
            r.colonists@.len() == self.colony.colonists@.len(),
            forall|k: int| 0 <= k < r.colonists@.len() ==> colonist_shows(&self.content, self.colony.colonists@[k], #[trigger] r.colonists@[k]),
            r.paused == self.paused,
    {
        let mut tiles: Vec<TileSnapshot> = Vec::new();
        let mut y: i32 = 0;
        while y < WORLD_SIZE
            invariant
                0 <= y <= WORLD_SIZE,
                self.wf(),
                tiles@.len() == y * WORLD_SIZE,
                forall|i: int| 0 <= i < tiles@.len() ==> tile_shows(&self.content, &self.grid, #[trigger] tiles@[i], i),
            decreases WORLD_SIZE - y,
        {
            let mut x: i32 = 0;
            while x < WORLD_SIZE
                invariant
                    0 <= y < WORLD_SIZE,
                    0 <= x <= WORLD_SIZE,
                    self.wf(),
                    tiles@.len() == y * WORLD_SIZE + x,
                    forall|i: int| 0 <= i < tiles@.len() ==> tile_shows(&self.content, &self.grid, #[trigger] tiles@[i], i),
                decreases WORLD_SIZE - x,
            {
                if let Some(t) = self.grid.terrain_at(x, y) {
                    let name = self.content.terrain_str(t).to_owned();
                    proof {
                        let i = y * WORLD_SIZE + x;
                        assert(i % WORLD_SIZE as int == x && i / WORLD_SIZE as int == y) by (nonlinear_arith)
                            requires
                                i == y * 50 + x,
                                0 <= x < 50,
                                0 <= y,
                        ;
                    }
                    tiles.push(TileSnapshot { x, y, terrain: name });
                }
                x += 1;
            }
            y += 1;
        }
        let mut buildings: Vec<BuildingSnapshot> = Vec::new();
        let mut k: usize = 0;
        while k < self.colony.buildings.len()
            invariant
                0 <= k <= self.colony.buildings@.len(),
                self.wf(),
                buildings@.len() == k,
                forall|q: int| 0 <= q < k ==> building_shows(&self.content, self.colony.buildings@[q], #[trigger] buildings@[q]),
            decreases self.colony.buildings@.len() - k,
        {
            let b = self.colony.buildings[k];
            let name = self.content.building_str(b.kind.0).to_owned();
            let berries = match b.supply {
                Some(sp) => Some(sp.remaining),
                None => None,
            };
            buildings.push(BuildingSnapshot { x: b.cell.0, y: b.cell.1, building: name, berries });
            k += 1;
        }
        let mut sites: Vec<SiteView> = Vec::new();
        k = 0;
        while k < self.colony.sites.len()
            invariant
                0 <= k <= self.colony.sites@.len(),
                self.wf(),
                sites@.len() == k,
                forall|q: int| 0 <= q < k ==> {
                    let s = self.colony.sites@[q];
                    site_shows(&self.content, s.entity, s.cell, s.site.building_id, #[trigger] sites@[q])
                },
            decreases self.colony.sites@.len() - k,
        {
            let s = self.colony.sites[k];
            let name = self.content.building_str(s.site.building_id).to_owned();
            sites.push(SiteView { entity: s.entity, x: s.cell.0, y: s.cell.1, building: name });
            k += 1;
        }
        let mut decons: Vec<SiteView> = Vec::new();
        k = 0;
        while k < self.colony.decon_sites.len()
            invariant
                0 <= k <= self.colony.decon_sites@.len(),
                self.wf(),
                decons@.len() == k,
                forall|q: int| 0 <= q < k ==> {
                    let s = self.colony.decon_sites@[q];
                    site_shows(&self.content, s.entity, s.cell, s.site.building_id, #[trigger] decons@[q])
                },
            decreases self.colony.decon_sites@.len() - k,
        {
            let s = self.colony.decon_sites[k];
            let name = self.content.building_str(s.site.building_id).to_owned();
            decons.push(SiteView { entity: s.entity, x: s.cell.0, y: s.cell.1, building: name });
            k += 1;
        }
        let mut colonists: Vec<ColonistView> = Vec::new();
        k = 0;
        while k < self.colony.colonists.len()
            invariant
                0 <= k <= self.colony.colonists@.len(),
                self.wf(),
                colonists@.len() == k,
                forall|q: int| 0 <= q < k ==> colonist_shows(&self.content, self.colony.colonists@[q], #[trigger] colonists@[q]),
            decreases self.colony.colonists@.len() - k,
        {
            let c = &self.colony.colonists[k];
            colonists.push(ColonistView {
                entity: c.entity,
                id: c.id.0,
                name: c.name.0.clone(),
                hungry: c.statuses.has(self.content.hungry_status),
                wants_sleep: c.statuses.has(self.content.wants_sleep_status),
                task: c.task.kind,
                at_task_stand: c.colonist_at_task_stand(),
            });
            k += 1;
        }
        SnapshotParts {
            tiles,
            buildings,
            construction_sites: sites,
            deconstruction_sites: decons,
            colonists,
            paused: self.paused,
        }
    }
}


impl GameState {
    /// Statuses from needs, as `Colony::sync_statuses` sets them.
    pub fn sync_statuses(&mut self, below: &Vec<Vec<bool>>)
        requires
            old(self).wf(),
            below@.len() == old(self).colony.colonists@.len(),
            forall|i: int| 0 <= i < below@.len() ==> (#[trigger] below@[i])@.len() == old(self).content.needs@.len(),
        ensures
            final(self).wf(),
            final(self).grid == old(self).grid,
            final(self).content == old(self).content,
            final(self).paused == old(self).paused,
            final(self).colony.colonists@.len() == old(self).colony.colonists@.len(),
            forall|i: int| 0 <= i < old(self).colony.colonists@.len() ==> {
                let o = old(self).colony.colonists@[i];
                let f = #[trigger] final(self).colony.colonists@[i];
                &&& f.statuses.0@ == statuses_for(&old(self).content, below@[i]@, old(self).content.statuses@.len() as int)
                &&& f == ColonistState { statuses: f.statuses, ..o }
            },
            final(self).colony.buildings == old(self).colony.buildings,
            final(self).colony.sites == old(self).colony.sites,
            final(self).colony.decon_sites == old(self).colony.decon_sites,
    {
        self.colony.sync_statuses(&self.content, below);
    }

    /// One round of task assignment (`auto_assign_tasks`).
    pub fn auto_assign(&mut self)
        requires
            old(self).wf(),
        ensures
            final(self).wf(),
            final(self).grid == old(self).grid,
            final(self).content == old(self).content,
            final(self).paused == old(self).paused,
            exists|mid: Colony|
                #![trigger round_done(old(self).colony, mid, final(self).colony, &old(self).grid, &old(self).content)]
                round_done(old(self).colony, mid, final(self).colony, &old(self).grid, &old(self).content),
    {
        auto_assign_tasks(&mut self.colony, &self.grid, &self.content);
        proof {
            let mid = choose|mid: Colony|
                #![trigger round_done(old(self).colony, mid, self.colony, &old(self).grid, &old(self).content)]
                round_done(old(self).colony, mid, self.colony, &old(self).grid, &old(self).content);
            let content = &self.content;
            let grid = &self.grid;
            assert forall|j: int| 0 <= j < self.colony.sites@.len() implies (#[trigger] self.colony.sites@[j]).site.building_id.0
                < content.buildings@.len() by {
                assert(crate::tasks::site_or_unclaimed(old(self).colony.sites@[j], mid.sites@[j]));
                if self.colony.sites@[j] != mid.sites@[j] {
                    let i = choose|i: int| 0 <= i < mid.colonists@.len() && build_assigned_at(grid, content, mid, self.colony, mid.colonists@[i], #[trigger] self.colony.colonists@[i], j);
                }
            }
            assert forall|j: int| 0 <= j < self.colony.buildings@.len() implies (#[trigger] self.colony.buildings@[j]).kind.0.0
                < content.buildings@.len() by {
                assert(crate::tasks::building_or_unclaimed(old(self).colony.buildings@[j], mid.buildings@[j]));
                if self.colony.buildings@[j] != mid.buildings@[j] {
                    let i = choose|i: int| 0 <= i < mid.colonists@.len() && sleep_assigned_at(grid, content, mid, self.colony, mid.colonists@[i], #[trigger] self.colony.colonists@[i], j);
                }
            }
        }
    }

    /// One tick of movement on cells (`Colony::colonist_movement`).
    pub fn colonist_movement(&mut self, snaps: &Vec<usize>, moved: &Vec<(usize, (i32, i32))>) -> (snapped: Vec<bool>)
        requires
            old(self).wf(),
            forall|k: int| 0 <= k < snaps@.len() ==> #[trigger] snaps@[k] < old(self).colony.colonists@.len(),
            forall|k: int| 0 <= k < moved@.len() ==> (#[trigger] moved@[k]).0 < old(self).colony.colonists@.len(),
        ensures
            final(self).wf(),
            final(self).grid == old(self).grid,
            final(self).content == old(self).content,
            final(self).paused == old(self).paused,
            ({
                let f = snap_fold(
                    snap_start(old(self).colony.colonists@),
                    sorted_by_entity(old(self).colony.colonists@, snaps@, snaps@.len() as int),
                    snaps@.len() as int,
                );
                &&& snapped@ == f.2
                &&& final(self).colony.colonists@ == apply_moves(f.1, moved@, moved@.len() as int)
            }),
            final(self).colony.buildings == old(self).colony.buildings,
            final(self).colony.sites == old(self).colony.sites,
            final(self).colony.decon_sites == old(self).colony.decon_sites,
    {
        self.colony.colonist_movement(snaps, moved)
    }

    /// One tick of task execution (`Colony::task_execution`); returns the needs to
    /// refill.
    pub fn task_execution(&mut self, sleep_ticks: &Vec<(u32, bool)>) -> (restored: Vec<(Entity, NeedKind)>)
        requires
            old(self).wf(),
            sleep_ticks@.len() == old(self).colony.colonists@.len(),
        ensures
            final(self).wf(),
            final(self).content == old(self).content,
            final(self).paused == old(self).paused,
            final(self).colony.colonists@.len() == old(self).colony.colonists@.len(),
            forall|k: int| 0 <= k < old(self).colony.colonists@.len() ==> exec_outcome(
                old(self).colony.colonists@[k],
                #[trigger] final(self).colony.colonists@[k],
            ),
            forall|q: int| 0 <= q < restored@.len() ==> restore_ok(
                old(self).colony.colonists@,
                final(self).colony.colonists@,
                #[trigger] restored@[q],
            ),
            tick_done(&old(self).content, sleep_ticks@, old(self).colony, old(self).grid, final(self).colony, final(self).grid, restored@),
    {
        self.colony.task_execution(&mut self.grid, &self.content, sleep_ticks)
    }
}

} // verus!
