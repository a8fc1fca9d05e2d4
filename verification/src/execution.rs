//! What colonists do once they reach their targets: work on construction sites, eat
//! from berry bushes, rest on beds and step off them afterwards.
use vstd::prelude::*;

use crate::components::{
    idle_task, BedOccupancy, BerrySupply, BuildingKind, ConstructionSite, Entity, Path, TaskKind,
    SLEEP_ON_BED_BITS,
};
use crate::content::{first_supply_upto, BuildingId, ContentRegistry};
use crate::pathfinding::{find_path, find_path_avoiding, lemma_route_len, reachable, route_len};
use crate::systems::{
    is_cell_free, beds_released, sites_released, first_building_from, cleared, manhattan, manhattan_exec, occupant, BuildingState, ColonistState, Colony, Occupancy,
    SiteState,
};
use crate::tasks::{
    blocked_seq, colonist_blocked_cells, path_follows, task_target, waypoints_after_start, NeedKind,
};
use crate::world::{cell_index, WorldGrid, VACATE_SEARCH_RADIUS, WORLD_SIZE};

verus! {

// ---------------------------------------------------------------------------
// Spawning and removing buildings
// ---------------------------------------------------------------------------

/// Building `b` of `content` has a reservation among its on-complete primitives.
pub open spec fn reserves_on_complete(content: &ContentRegistry, b: BuildingId) -> bool {
    exists|k: int|
        0 <= k < content.buildings@[b.0 as int].on_complete@.len()
            && #[trigger] content.buildings@[b.0 as int].on_complete@[k] is Reservation
}

/// The building entity `e` that appears when building `b` is put on `cell`: with a
/// supply of `berries` (or of the pack's amount) if the pack gives it one, else with
/// an empty bed claim if the pack gives it a reservation.
pub open spec fn spawned_building(content: &ContentRegistry, e: Entity, cell: (i32, i32), b: BuildingId, berries: Option<u8>) -> BuildingState {
    let ps = content.buildings@[b.0 as int].on_complete@;
    let amount = first_supply_upto(ps, ps.len() as int);
    BuildingState {
        entity: e,
        cell: cell,
        kind: BuildingKind(b),
        supply: match amount {
            Some(a) => Some(BerrySupply {
                remaining: match berries {
                    Some(x) => x,
                    None => a,
                },
            }),
            None => None,
        },
        occupancy: if amount is None && reserves_on_complete(content, b) {
            Some(BedOccupancy { reserved_by: None })
        } else {
            None
        },
    }
}

/// The entity number that the next spawn takes; numbers stop growing at `u32::MAX`.
pub open spec fn next_after(n: u32) -> u32 {
    if n < u32::MAX {
        (n + 1) as u32
    } else {
        n
    }
}

impl Colony {
    /// A fresh entity number.
    pub fn fresh_entity(&mut self) -> (e: Entity)
        ensures
            e == Entity(old(self).next_entity),
            final(self).next_entity == next_after(old(self).next_entity),
            final(self).colonists == old(self).colonists,
            final(self).buildings == old(self).buildings,
            final(self).sites == old(self).sites,
            final(self).decon_sites == old(self).decon_sites,
    {
        let e = Entity(self.next_entity);
        if self.next_entity < u32::MAX {
            self.next_entity = self.next_entity + 1;
        }
        e
    }

    /// Adds the building entity for building `b` on `cell` (see `spawned_building`).
    pub fn spawn_building(&mut self, content: &ContentRegistry, cell: (i32, i32), b: BuildingId, berries: Option<u8>)
        requires
            b.0 < content.buildings@.len(),
        ensures
            final(self).buildings@ == old(self).buildings@.push(
                spawned_building(content, Entity(old(self).next_entity), cell, b, berries),
            ),
            final(self).next_entity == next_after(old(self).next_entity),
            final(self).colonists == old(self).colonists,
            final(self).sites == old(self).sites,
            final(self).decon_sites == old(self).decon_sites,
    {
        let e = self.fresh_entity();
        let supply = match content.supply_amount_on_complete(b) {
            Some(a) => Some(BerrySupply {
                remaining: match berries {
                    Some(x) => x,
                    None => a,
                },
            }),
            None => None,
        };
        let occupancy = if supply.is_none() && content.has_reservation_on_complete(b) {
            Some(BedOccupancy { reserved_by: None })
        } else {
            None
        };
        self.buildings.push(BuildingState { entity: e, cell, kind: BuildingKind(b), supply, occupancy });
    }

    /// Removes the first building entity numbered `e`, if there is one.
    pub fn despawn_building(&mut self, e: Entity)
        ensures
            final(self).buildings@ == match first_with_entity(old(self).buildings@, e, 0) {
                Some(k) => old(self).buildings@.remove(k),
                None => old(self).buildings@,
            },
            final(self).colonists == old(self).colonists,
            final(self).sites == old(self).sites,
            final(self).decon_sites == old(self).decon_sites,
            final(self).next_entity == old(self).next_entity,
    {
        let mut k: usize = 0;
        while k < self.buildings.len()
            invariant
                0 <= k <= self.buildings@.len(),
                self.buildings == old(self).buildings,
                self.colonists == old(self).colonists,
                self.sites == old(self).sites,
                self.decon_sites == old(self).decon_sites,
                self.next_entity == old(self).next_entity,
                first_with_entity(self.buildings@, e, 0) == first_with_entity(self.buildings@, e, k as int),
            decreases self.buildings@.len() - k,
        {
            if self.buildings[k].entity == e {
                self.buildings.remove(k);
                return;
            }
            k += 1;
        }
    }

    /// Removes the construction site at position `j`.
    pub fn despawn_site(&mut self, j: usize)
        requires
            j < old(self).sites@.len(),
        ensures
            final(self).sites@ == old(self).sites@.remove(j as int),
            final(self).colonists == old(self).colonists,
            final(self).buildings == old(self).buildings,
            final(self).decon_sites == old(self).decon_sites,
            final(self).next_entity == old(self).next_entity,
    {
        self.sites.remove(j);
    }
}

proof fn lemma_first_entity_range(bs: Seq<BuildingState>, e: Entity, k: int)
    ensures
        first_with_entity(bs, e, k) matches Some(j) ==> 0 <= j < bs.len(),
    decreases bs.len() - k,
{
    if 0 <= k < bs.len() && bs[k].entity != e {
        lemma_first_entity_range(bs, e, k + 1);
    }
}

/// The position of the first building at or after `k` numbered `e`.
pub open spec fn first_with_entity(bs: Seq<BuildingState>, e: Entity, k: int) -> Option<int>
    decreases bs.len() - k,
{
    if k < 0 || k >= bs.len() {
        None
    } else if bs[k].entity == e {
        Some(k)
    } else {
        first_with_entity(bs, e, k + 1)
    }
}


// ---------------------------------------------------------------------------
// Construction
// ---------------------------------------------------------------------------

/// Every site names a building of `content`.
pub open spec fn sites_valid(sites: Seq<SiteState>, content: &ContentRegistry) -> bool {
    forall|j: int| 0 <= j < sites.len() ==> (#[trigger] sites[j]).site.building_id.0 < content.buildings@.len()
}

/// Every building entity is of a building of `content`.
pub open spec fn buildings_valid(bs: Seq<BuildingState>, content: &ContentRegistry) -> bool {
    forall|j: int| 0 <= j < bs.len() ==> (#[trigger] bs[j]).kind.0.0 < content.buildings@.len()
}

/// `g2` is grid `g1`, possibly with a building added on a cell that had none.
pub open spec fn grid_gains(g1: WorldGrid, g2: WorldGrid) -> bool {
    &&& g2.terrain == g1.terrain
    &&& g2.seed == g1.seed
    &&& g2.buildings@.len() == g1.buildings@.len()
    &&& forall|i: int| 0 <= i < g1.buildings@.len() ==> #[trigger] g2.buildings@[i] == g1.buildings@[i]
        || g1.buildings@[i] is None
}

/// One tick of work on a site: the ticks left, and whether the site is finished.
pub open spec fn work_tick(w: Option<u32>) -> (Option<u32>, bool) {
    match w {
        Some(k) => if k <= 1 {
            (Some(0), true)
        } else {
            (Some((k - 1) as u32), false)
        },
        None => (None, false),
    }
}

/// Colonist `c` stands on the stand of its building task, next to the site, with its
/// path used up: it works this tick.
pub open spec fn ready_to_build(c: ColonistState) -> bool {
    &&& c.task.kind == TaskKind::Build
    &&& c.path.done()
    &&& c.cell == task_target(c)
    &&& manhattan(c.cell, (c.task.building_x, c.task.building_y)) == 1
}

/// Site `j` is the first of `ss` on `cell`.
pub open spec fn first_site_on(ss: Seq<SiteState>, cell: (i32, i32), j: int) -> bool {
    &&& 0 <= j < ss.len()
    &&& ss[j].cell == cell
    &&& forall|k: int| 0 <= k < j ==> ss[k].cell != cell
}

/// No site of `ss` stands on `cell`.
pub open spec fn no_site_on(ss: Seq<SiteState>, cell: (i32, i32)) -> bool {
    forall|k: int| 0 <= k < ss.len() ==> ss[k].cell != cell
}

/// The turn of builder `i` in a tick (colony and grid before: `c0`, `g0`; after: `c1`,
/// `g1`). With no site left on its building cell it drops its claims and its task.
/// Otherwise the first site there takes a tick of work; on its last tick the building
/// is put on the grid and spawned, if the cell is walkable and free (the site is then
/// removed), and the builder drops its claims and its task.
#[verifier::opaque]
pub open spec fn build_turn(content: &ContentRegistry, c0: Colony, g0: WorldGrid, c1: Colony, g1: WorldGrid, i: int) -> bool {
    let c = c0.colonists@[i];
    let b = (c.task.building_x, c.task.building_y);
    let e = c.entity;
    &&& c1.colonists@.len() == c0.colonists@.len()
    &&& forall|k: int| 0 <= k < c0.colonists@.len() && k != i ==> #[trigger] c1.colonists@[k] == c0.colonists@[k]
    &&& c1.decon_sites == c0.decon_sites
    &&& g1.terrain == g0.terrain
    &&& g1.seed == g0.seed
    &&& if no_site_on(c0.sites@, b) {
        &&& cleared(c, c1.colonists@[i])
        &&& c1.sites@ == sites_released(c0.sites@, e)
        &&& c1.buildings@ == c0.buildings@
        &&& c1.next_entity == c0.next_entity
        &&& g1.buildings@ == g0.buildings@
    } else {
        exists|j: int| #[trigger] first_site_on(c0.sites@, b, j) && {
            let s = c0.sites@[j];
            let t = work_tick(s.site.work_left);
            let ss = c0.sites@.update(j, SiteState { site: ConstructionSite { work_left: t.0, ..s.site }, ..s });
            if !t.1 {
                &&& c1.colonists@[i] == c
                &&& c1.sites@ == ss
                &&& c1.buildings@ == c0.buildings@
                &&& c1.next_entity == c0.next_entity
                &&& g1.buildings@ == g0.buildings@
            } else if g0.spec_walkable(content, b.0 as int, b.1 as int) && g0.spec_building_at(b.0 as int, b.1 as int) is None {
                &&& cleared(c, c1.colonists@[i])
                &&& g1.buildings@ == g0.buildings@.update(cell_index(b.0 as int, b.1 as int)->0, Some(s.site.building_id))
                &&& c1.buildings@ == c0.buildings@.push(
                    spawned_building(content, Entity(c0.next_entity), b, s.site.building_id, None),
                )
                &&& c1.sites@ == sites_released(ss.remove(j), e)
                &&& c1.next_entity == next_after(c0.next_entity)
            } else {
                &&& cleared(c, c1.colonists@[i])
                &&& g1.buildings@ == g0.buildings@
                &&& c1.buildings@ == c0.buildings@
                &&& c1.sites@ == sites_released(ss, e)
                &&& c1.next_entity == c0.next_entity
            }
        }
    }
}

/// The build phase of a tick, turn by turn: `tr[k]` is the colony and grid before the
/// turn of colonist `k`; a colonist that is not ready to build changes nothing.
pub open spec fn build_trace(
    content: &ContentRegistry,
    c0: Colony,
    g0: WorldGrid,
    c1: Colony,
    g1: WorldGrid,
    tr: Seq<(Colony, WorldGrid)>,
) -> bool {
    &&& tr.len() == c0.colonists@.len() + 1
    &&& tr[0] == (c0, g0)
    &&& tr[tr.len() - 1] == (c1, g1)
    &&& forall|k: int|
        0 <= k < c0.colonists@.len() ==> if ready_to_build((#[trigger] tr[k]).0.colonists@[k]) {
            build_turn(content, tr[k].0, tr[k].1, tr[k + 1].0, tr[k + 1].1, k)
        } else {
            tr[k + 1] == tr[k]
        }
}

impl Colony {
    /// Finishes the site at position `j`: puts its building on `(x, y)` of the grid
    /// and spawns the building entity, if the grid accepts the building there; says
    /// whether it did. The site is removed only then.
    pub fn complete_construction(&mut self, grid: &mut WorldGrid, content: &ContentRegistry, j: usize, x: i32, y: i32) -> (placed: bool)
        requires
            old(grid).wf(content),
            j < old(self).sites@.len(),
            old(self).sites@[j as int].site.building_id.0 < content.buildings@.len(),
        ensures
            placed == (old(grid).spec_walkable(content, x as int, y as int) && old(grid).spec_building_at(x as int, y as int) is None),
            final(grid).wf(content),
            grid_gains(*old(grid), *final(grid)),
            placed ==> final(grid).spec_building_at(x as int, y as int) == Some(old(self).sites@[j as int].site.building_id),
            placed ==> final(grid).buildings@ == old(grid).buildings@.update(
                cell_index(x as int, y as int)->0,
                Some(old(self).sites@[j as int].site.building_id),
            ),
            placed ==> final(self).buildings@ == old(self).buildings@.push(
                spawned_building(content, Entity(old(self).next_entity), (x, y), old(self).sites@[j as int].site.building_id, None),
            ),
            placed ==> final(self).sites@ == old(self).sites@.remove(j as int),
            placed ==> final(self).next_entity == next_after(old(self).next_entity),
            !placed ==> final(grid).buildings@ == old(grid).buildings@ && *final(self) == *old(self),
            final(self).colonists == old(self).colonists,
            final(self).decon_sites == old(self).decon_sites,
    {
        let b = self.sites[j].site.building_id;
        let ghost g0 = *grid;
        if !grid.place_building(content, x, y, b) {
            return false;
        }
        proof {
            assert forall|i: int| 0 <= i < g0.buildings@.len() implies #[trigger] grid.buildings@[i] == g0.buildings@[i]
                || g0.buildings@[i] is None by {
            }
        }
        self.spawn_building(content, (x, y), b, None);
        self.despawn_site(j);
        true
    }

    /// One tick of work by colonist `i`, who is ready to build: with no site left on
    /// its building cell it gives up the task; otherwise the site takes a tick of
    /// work, and on the last tick is completed and the colonist made idle.
    fn work_on_site(&mut self, grid: &mut WorldGrid, content: &ContentRegistry, i: usize)
        requires
            i < old(self).colonists@.len(),
            old(self).colonists@[i as int].task.kind == TaskKind::Build,
            old(grid).wf(content),
            sites_valid(old(self).sites@, content),
            buildings_valid(old(self).buildings@, content),
        ensures
            buildings_valid(final(self).buildings@, content),
            final(grid).wf(content),
            grid_gains(*old(grid), *final(grid)),
            sites_valid(final(self).sites@, content),
            final(self).colonists@.len() == old(self).colonists@.len(),
            forall|k: int| 0 <= k < old(self).colonists@.len() && k != i ==> #[trigger] final(self).colonists@[k] == old(self).colonists@[k],
            final(self).colonists@[i as int] == old(self).colonists@[i as int]
                || cleared(old(self).colonists@[i as int], final(self).colonists@[i as int]),
            old(self).buildings@.is_prefix_of(final(self).buildings@),
            final(self).decon_sites == old(self).decon_sites,
            build_turn(content, *old(self), *old(grid), *final(self), *final(grid), i as int),
    {
        reveal(build_turn);
        let bx = self.colonists[i].task.building_x;
        let by = self.colonists[i].task.building_y;
        let e = self.colonists[i].entity;
        match self.construction_site_at(bx, by) {
            None => {
                self.release_construction_reservation(e);
                proof {
                    assert(self.sites@.len() == old(self).sites@.len());
                    assert forall|j: int| 0 <= j < self.sites@.len() implies (#[trigger] self.sites@[j]).site.building_id.0 < content.buildings@.len() by {
                        assert(old(self).sites@[j].site.building_id == self.sites@[j].site.building_id);
                    }
                }
                self.clear_task(i);
                proof {
                    assert forall|j: int| 0 <= j < self.sites@.len() implies (#[trigger] self.sites@[j]).site.building_id.0 < content.buildings@.len() by {
                    }
                    assert(self.buildings@ =~= old(self).buildings@);
                    assert(sites_released(sites_released(old(self).sites@, e), e) =~= sites_released(old(self).sites@, e));
                    assert(no_site_on(old(self).sites@, (bx, by)));
                }
            },
            Some(j) => {
                proof {
                    assert(first_site_on(old(self).sites@, (bx, by), j as int));
                    assert(!no_site_on(old(self).sites@, (bx, by)));
                }
                let w = self.sites[j].site.work_left;
                let (nw, done) = match w {
                    Some(k) => if k <= 1 {
                        (Some(0u32), true)
                    } else {
                        (Some(k - 1), false)
                    },
                    None => (None, false),
                };
                let mut st = self.sites[j];
                st.site.work_left = nw;
                self.sites.set(j, st);
                proof {
                    assert forall|jj: int| 0 <= jj < self.sites@.len() implies (#[trigger] self.sites@[jj]).site.building_id.0 < content.buildings@.len() by {
                        assert(old(self).sites@[jj].site.building_id == self.sites@[jj].site.building_id);
                    }
                    let s0 = old(self).sites@[j as int];
                    assert(work_tick(s0.site.work_left) == (nw, done));
                    assert(self.sites@ == old(self).sites@.update(
                        j as int,
                        SiteState { site: ConstructionSite { work_left: nw, ..s0.site }, ..s0 },
                    ));
                }
                if done {
                    let ghost bs0 = self.buildings@;
                    let placed = self.complete_construction(grid, content, j, bx, by);
                    proof {
                        assert forall|q: int| 0 <= q < self.buildings@.len() implies (#[trigger] self.buildings@[q]).kind.0.0 < content.buildings@.len() by {
                            if q < bs0.len() {
                                assert(self.buildings@[q] == bs0[q]);
                            }
                        }
                        assert forall|jj: int| 0 <= jj < self.sites@.len() implies (#[trigger] self.sites@[jj]).site.building_id.0 < content.buildings@.len() by {
                        }
                        assert(old(self).buildings@.is_prefix_of(self.buildings@));
                    }
                    self.clear_task(i);
                    proof {
                        assert forall|jj: int| 0 <= jj < self.sites@.len() implies (#[trigger] self.sites@[jj]).site.building_id.0 < content.buildings@.len() by {
                        }
                    }
                } else {
                    proof {
                        assert(self.buildings@ =~= old(self).buildings@);
                    }
                }
            },
        }
    }

    /// Colonists that are ready to build, in list order, each do one tick of work.
    pub fn apply_build_work(&mut self, grid: &mut WorldGrid, content: &ContentRegistry)
        requires
            old(grid).wf(content),
            sites_valid(old(self).sites@, content),
            buildings_valid(old(self).buildings@, content),
        ensures
            final(grid).wf(content),
            grid_gains(*old(grid), *final(grid)),
            sites_valid(final(self).sites@, content),
            buildings_valid(final(self).buildings@, content),
            final(self).colonists@.len() == old(self).colonists@.len(),
            forall|k: int| 0 <= k < old(self).colonists@.len() ==> #[trigger] final(self).colonists@[k] == old(self).colonists@[k]
                || (ready_to_build(old(self).colonists@[k]) && cleared(old(self).colonists@[k], final(self).colonists@[k])),
            old(self).buildings@.is_prefix_of(final(self).buildings@),
            final(self).decon_sites == old(self).decon_sites,
            exists|tr: Seq<(Colony, WorldGrid)>| build_trace(content, *old(self), *old(grid), *final(self), *final(grid), tr),
    {
        let ghost mut tr: Seq<(Colony, WorldGrid)> = seq![(*self, *grid)];
        let mut i: usize = 0;
        while i < self.colonists.len()
            invariant
                0 <= i <= self.colonists@.len(),
                self.colonists@.len() == old(self).colonists@.len(),
                grid.wf(content),
                grid_gains(*old(grid), *grid),
                sites_valid(self.sites@, content),
                buildings_valid(self.buildings@, content),
                forall|k: int| 0 <= k < old(self).colonists@.len() ==> #[trigger] self.colonists@[k] == old(self).colonists@[k]
                    || (k < i && ready_to_build(old(self).colonists@[k]) && cleared(old(self).colonists@[k], self.colonists@[k])),
                forall|k: int| i <= k < old(self).colonists@.len() ==> #[trigger] self.colonists@[k] == old(self).colonists@[k],
                old(self).buildings@.is_prefix_of(self.buildings@),
                self.decon_sites == old(self).decon_sites,
                tr.len() == i + 1,
                tr[0] == (*old(self), *old(grid)),
                tr[i as int] == (*self, *grid),
                forall|k: int|
                    0 <= k < i ==> if ready_to_build((#[trigger] tr[k]).0.colonists@[k]) {
                        build_turn(content, tr[k].0, tr[k].1, tr[k + 1].0, tr[k + 1].1, k)
                    } else {
                        tr[k + 1] == tr[k]
                    },
            decreases old(self).colonists@.len() - i,
        {
            let ghost tr0 = tr;
            let c = &self.colonists[i];
            let adjacent = manhattan_exec(c.cell, (c.task.building_x, c.task.building_y)) == 1;
            let ready = c.task.kind == TaskKind::Build && c.path.index >= c.path.waypoints.len()
                && c.cell.0 == c.task.target_x && c.cell.1 == c.task.target_y && adjacent;
            if ready {
                let ghost s0 = *self;
                let ghost g0 = *grid;
                self.work_on_site(grid, content, i);
                proof {
                    assert(ready_to_build(old(self).colonists@[i as int]));
                    assert forall|i2: int| 0 <= i2 < g0.buildings@.len() implies #[trigger] grid.buildings@[i2] == old(grid).buildings@[i2]
                        || old(grid).buildings@[i2] is None by {
                        assert(grid_gains(*old(grid), g0));
                        assert(grid_gains(g0, *grid));
                        assert(g0.buildings@[i2] == old(grid).buildings@[i2] || old(grid).buildings@[i2] is None);
                    }
                    assert(old(self).buildings@.is_prefix_of(s0.buildings@));
                    assert(s0.buildings@.is_prefix_of(self.buildings@));
                    assert(old(self).buildings@.is_prefix_of(self.buildings@)) by {
                        assert forall|q: int| 0 <= q < old(self).buildings@.len() implies old(self).buildings@[q] == self.buildings@[q] by {
                            assert(s0.buildings@[q] == old(self).buildings@[q]);
                        }
                    }
                }
            }
            proof {
                tr = tr.push((*self, *grid));
                assert forall|k: int|
                    0 <= k < i + 1 implies if ready_to_build((#[trigger] tr[k]).0.colonists@[k]) {
                        build_turn(content, tr[k].0, tr[k].1, tr[k + 1].0, tr[k + 1].1, k)
                    } else {
                        tr[k + 1] == tr[k]
                    } by {
                    if k < i {
                        assert(tr[k] == tr0[k] && tr[k + 1] == tr0[k + 1]);
                    } else {
                        assert(tr[k] == tr0[k]);
                    }
                }
            }
            i += 1;
        }
        assert(build_trace(content, *old(self), *old(grid), *self, *grid, tr));
    }
}


// ---------------------------------------------------------------------------
// Leaving a bed
// ---------------------------------------------------------------------------

/// A cell that a colonist `e` waking at `from` on the bed at `bed` may step off to:
/// within `VACATE_SEARCH_RADIUS` steps of the bed, not the bed, walkable, not taken by
/// another colonist, and reachable.
pub open spec fn vacate_ok(
    grid: &WorldGrid,
    content: &ContentRegistry,
    occ: &Occupancy,
    e: Entity,
    from: (i32, i32),
    bed: (i32, i32),
    c: (i32, i32),
) -> bool {
    &&& 1 <= manhattan(c, bed) <= VACATE_SEARCH_RADIUS
    &&& grid.spec_walkable(content, c.0 as int, c.1 as int)
    &&& (occ.at(c) is None || occ.at(c) == Some(e))
    &&& reachable(grid, content, Seq::empty(), from, c)
}

/// `c2` comes before `c` in the scan of a ring around `bed`: a row above, or the same
/// row further left.
pub open spec fn scan_before(c2: (i32, i32), c: (i32, i32), bed: (i32, i32)) -> bool {
    c2.1 - bed.1 < c.1 - bed.1 || (c2.1 - bed.1 == c.1 - bed.1 && c2.0 - bed.0 < c.0 - bed.0)
}

/// Cell `c2` would be preferred to `c` as a place to leave the bed for: its shortest
/// route from `from` has fewer cells, or as many and it comes first in the scan.
pub open spec fn vacate_before(
    grid: &WorldGrid,
    content: &ContentRegistry,
    from: (i32, i32),
    bed: (i32, i32),
    c2: (i32, i32),
    c: (i32, i32),
) -> bool {
    let l2 = route_len(grid, content, from, c2);
    let l = route_len(grid, content, from, c);
    l2 < l || (l2 == l && scan_before(c2, c, bed))
}

/// The nearest ring around `bed` (by Manhattan distance, up to
/// `VACATE_SEARCH_RADIUS`) that holds a cell `vacate_ok` accepts, and in it the cell
/// whose shortest route from `from` has the fewest cells (the first in scan order on a
/// tie).
#[verifier::spinoff_prover]
#[verifier::rlimit(50)]
pub fn find_vacate_cell_after_sleep(
    grid: &WorldGrid,
    content: &ContentRegistry,
    bed: (i32, i32),
    from: (i32, i32),
    occ: &Occupancy,
    e: Entity,
) -> (r: Option<(i32, i32)>)
    requires
        grid.wf(content),
        occ.wf(),
    ensures
        r matches Some(c) ==> vacate_ok(grid, content, occ, e, from, bed, c) && forall|c2: (i32, i32)|
            manhattan(c2, bed) < manhattan(c, bed) ==> !#[trigger] vacate_ok(grid, content, occ, e, from, bed, c2),
        r matches Some(c) ==> forall|c2: (i32, i32)|
            manhattan(c2, bed) == manhattan(c, bed) && #[trigger] vacate_ok(grid, content, occ, e, from, bed, c2)
                ==> !vacate_before(grid, content, from, bed, c2, c),
        r is None ==> forall|c2: (i32, i32)| !#[trigger] vacate_ok(grid, content, occ, e, from, bed, c2),
{
    let mut ring: i32 = 1;
    while ring <= VACATE_SEARCH_RADIUS
        invariant
            1 <= ring <= VACATE_SEARCH_RADIUS + 1,
            grid.wf(content),
            occ.wf(),
            forall|c2: (i32, i32)| manhattan(c2, bed) < ring ==> !#[trigger] vacate_ok(grid, content, occ, e, from, bed, c2),
        decreases VACATE_SEARCH_RADIUS + 1 - ring,
    {
        let mut best: Option<((i32, i32), usize)> = None;
        let mut dy: i32 = -ring;
        while dy <= ring
            invariant
                1 <= ring <= VACATE_SEARCH_RADIUS,
                -ring <= dy <= ring + 1,
                grid.wf(content),
                occ.wf(),
                forall|c2: (i32, i32)| manhattan(c2, bed) < ring ==> !#[trigger] vacate_ok(grid, content, occ, e, from, bed, c2),
                best matches Some(b) ==> vacate_ok(grid, content, occ, e, from, bed, b.0) && manhattan(b.0, bed) == ring,
                best matches Some(b) ==> b.0.1 - bed.1 < dy && b.1 as int == route_len(grid, content, from, b.0),
                best matches Some(b) ==> forall|c2: (i32, i32)|
                    manhattan(c2, bed) == ring && c2.1 - bed.1 < dy && #[trigger] vacate_ok(grid, content, occ, e, from, bed, c2)
                        ==> !vacate_before(grid, content, from, bed, c2, b.0),
                best is None ==> forall|c2: (i32, i32)|
                    manhattan(c2, bed) == ring && c2.1 - bed.1 < dy ==> !#[trigger] vacate_ok(grid, content, occ, e, from, bed, c2),
            decreases ring + 1 - dy,
        {
            let mut dx: i32 = -ring;
            while dx <= ring
                invariant
                    1 <= ring <= VACATE_SEARCH_RADIUS,
                    -ring <= dy <= ring,
                    -ring <= dx <= ring + 1,
                    grid.wf(content),
                    occ.wf(),
                    forall|c2: (i32, i32)| manhattan(c2, bed) < ring ==> !#[trigger] vacate_ok(grid, content, occ, e, from, bed, c2),
                    best matches Some(b) ==> vacate_ok(grid, content, occ, e, from, bed, b.0) && manhattan(b.0, bed) == ring,
                    best matches Some(b) ==> (b.0.1 - bed.1 < dy || (b.0.1 - bed.1 == dy && b.0.0 - bed.0 < dx))
                        && b.1 as int == route_len(grid, content, from, b.0),
                    best matches Some(b) ==> forall|c2: (i32, i32)|
                        manhattan(c2, bed) == ring && (c2.1 - bed.1 < dy || (c2.1 - bed.1 == dy && c2.0 - bed.0 < dx))
                            && #[trigger] vacate_ok(grid, content, occ, e, from, bed, c2) ==> !vacate_before(
                            grid,
                            content,
                            from,
                            bed,
                            c2,
                            b.0,
                        ),
                    best is None ==> forall|c2: (i32, i32)|
                        manhattan(c2, bed) == ring && (c2.1 - bed.1 < dy || (c2.1 - bed.1 == dy && c2.0 - bed.0 < dx))
                            ==> !#[trigger] vacate_ok(grid, content, occ, e, from, bed, c2),
                decreases ring + 1 - dx,
            {
                let adx = if dx < 0 { -dx } else { dx };
                let ady = if dy < 0 { -dy } else { dy };
                let cx = bed.0 as i64 + dx as i64;
                let cy = bed.1 as i64 + dy as i64;
                let ghost best0 = best;
                let ghost here: (i32, i32) = ((bed.0 + dx) as i32, (bed.1 + dy) as i32);
                let mut seen = false;
                if adx + ady == ring && 0 <= cx && cx < WORLD_SIZE as i64 && 0 <= cy && cy < WORLD_SIZE as i64 {
                    let cell = (cx as i32, cy as i32);
                    if grid.is_walkable(content, cell.0, cell.1) {
                        let free = is_cell_free(occ, cell, e);
                        if free {
                            if let Some(path) = find_path(grid, content, from, cell) {
                                let len = path.len();
                                proof {
                                    lemma_route_len(grid, content, from, cell, path@);
                                    assert(cell == here);
                                }
                                seen = true;
                                let better = match best {
                                    Some(b) => len < b.1,
                                    None => true,
                                };
                                if better {
                                    best = Some((cell, len));
                                }
                            }
                        }
                    }
                }
                proof {
                    if !seen {
                        if vacate_ok(grid, content, occ, e, from, bed, here) && manhattan(here, bed) == ring {
                            assert(adx + ady == ring);
                            assert(grid.spec_walkable(content, here.0 as int, here.1 as int));
                        }
                    }
                    if best0 is None && best is None {
                        assert forall|c2: (i32, i32)|
                            manhattan(c2, bed) == ring && (c2.1 - bed.1 < dy || (c2.1 - bed.1 == dy && c2.0 - bed.0 < dx + 1))
                                implies !#[trigger] vacate_ok(grid, content, occ, e, from, bed, c2) by {
                            if c2.1 - bed.1 == dy && c2.0 - bed.0 == dx {
                                assert(c2 == here);
                                if !(0 <= cx < WORLD_SIZE && 0 <= cy < WORLD_SIZE) {
                                    assert(!grid.spec_walkable(content, c2.0 as int, c2.1 as int));
                                }
                            }
                        }
                    }
                    if let Some(b) = best {
                        assert forall|c2: (i32, i32)|
                            manhattan(c2, bed) == ring && (c2.1 - bed.1 < dy || (c2.1 - bed.1 == dy && c2.0 - bed.0 < dx + 1))
                                && #[trigger] vacate_ok(grid, content, occ, e, from, bed, c2) implies !vacate_before(
                                grid,
                                content,
                                from,
                                bed,
                                c2,
                                b.0,
                            ) by {
                            if c2.1 - bed.1 == dy && c2.0 - bed.0 == dx {
                                assert(c2 == here);
                                if !(0 <= cx < WORLD_SIZE && 0 <= cy < WORLD_SIZE) {
                                    assert(!grid.spec_walkable(content, c2.0 as int, c2.1 as int));
                                }
                            } else if best0 is Some {
                                let b0 = best0->0;
                                if b0 != b {
                                    assert(!vacate_before(grid, content, from, bed, c2, b0.0));
                                }
                            }
                        }
                    }
                }
                dx += 1;
            }
            dy += 1;
        }
        if let Some(b) = best {
            return Some(b.0);
        }
        proof {
            assert forall|c2: (i32, i32)| manhattan(c2, bed) < ring + 1 implies !#[trigger] vacate_ok(grid, content, occ, e, from, bed, c2) by {
                if manhattan(c2, bed) == ring {
                    assert(c2.1 - bed.1 <= ring);
                }
            }
        }
        ring += 1;
    }
    None
}


/// `vacate_ok`, with the occupancy read off the colonists `cols`.
pub open spec fn vacate_ok_cols(
    grid: &WorldGrid,
    content: &ContentRegistry,
    cols: Seq<ColonistState>,
    e: Entity,
    from: (i32, i32),
    bed: (i32, i32),
    c: (i32, i32),
) -> bool {
    &&& 1 <= manhattan(c, bed) <= VACATE_SEARCH_RADIUS
    &&& grid.spec_walkable(content, c.0 as int, c.1 as int)
    &&& (occupant(cols, c) is None || occupant(cols, c) == Some(e))
    &&& reachable(grid, content, Seq::empty(), from, c)
}

/// `r` is what `find_vacate_cell_after_sleep` gives colonist `e` of `cols`, waking at
/// `from` on the bed at `bed`.
pub open spec fn vacate_pick(
    grid: &WorldGrid,
    content: &ContentRegistry,
    cols: Seq<ColonistState>,
    e: Entity,
    from: (i32, i32),
    bed: (i32, i32),
    r: Option<(i32, i32)>,
) -> bool {
    match r {
        Some(c) => {
            &&& vacate_ok_cols(grid, content, cols, e, from, bed, c)
            &&& forall|c2: (i32, i32)|
                manhattan(c2, bed) < manhattan(c, bed) ==> !#[trigger] vacate_ok_cols(grid, content, cols, e, from, bed, c2)
            &&& forall|c2: (i32, i32)|
                manhattan(c2, bed) == manhattan(c, bed) && #[trigger] vacate_ok_cols(grid, content, cols, e, from, bed, c2)
                    ==> !vacate_before(grid, content, from, bed, c2, c)
        },
        None => forall|c2: (i32, i32)| !#[trigger] vacate_ok_cols(grid, content, cols, e, from, bed, c2),
    }
}

/// The waypoints that a sleeper of `cols` waking at `from` on the bed at `bed` is
/// given: to the cell that `vacate_pick` gives, around the other colonists, when it can
/// get there; none otherwise.
pub open spec fn vacate_path(
    grid: &WorldGrid,
    content: &ContentRegistry,
    cols: Seq<ColonistState>,
    e: Entity,
    from: (i32, i32),
    bed: (i32, i32),
    wps: Seq<(i32, i32)>,
) -> bool {
    exists|r: Option<(i32, i32)>| #[trigger] vacate_pick(grid, content, cols, e, from, bed, r) && match r {
        Some(v) => if reachable(grid, content, blocked_seq(cols, e), from, v) {
            path_follows(grid, content, blocked_seq(cols, e), from, v, wps)
        } else {
            wps.len() == 0
        },
        None => wps.len() == 0,
    }
}

// ---------------------------------------------------------------------------
// Eating and sleeping
// ---------------------------------------------------------------------------

/// Colonist `c` has an eating or sleeping task, stands on its target and has used
/// up its path.
pub open spec fn at_task_target(c: ColonistState) -> bool {
    &&& (c.task.kind == TaskKind::Eat || c.task.kind == TaskKind::Sleep)
    &&& c.path.done()
    &&& c.cell == task_target(c)
}

/// The eater at `c` can take a berry: it stands beside its bush, the grid shows a
/// berry bush there, and the first building entity there has berries left.
pub open spec fn can_eat(bs: Seq<BuildingState>, grid: &WorldGrid, content: &ContentRegistry, c: ColonistState) -> bool {
    let b = (c.task.building_x, c.task.building_y);
    &&& manhattan(c.cell, b) == 1
    &&& grid.spec_building_at(b.0 as int, b.1 as int) == Some(content.berry_bush_building)
    &&& first_building_from(bs, b, 0) matches Some(j) && bs[j].supply matches Some(s) && s.remaining > 0
}

/// The sleeper at `c` lies on its bed: the grid shows a bed on its cell, which is the
/// task's building, and the first building entity there records its claim.
pub open spec fn on_claimed_bed(bs: Seq<BuildingState>, grid: &WorldGrid, content: &ContentRegistry, c: ColonistState) -> bool {
    let b = (c.task.building_x, c.task.building_y);
    &&& c.cell == b
    &&& grid.spec_building_at(b.0 as int, b.1 as int) == Some(content.bed_building)
    &&& first_building_from(bs, b, 0) matches Some(j) && bs[j].occupancy == Some(BedOccupancy { reserved_by: Some(c.entity) })
}

/// Colonist `f` is `o` woken on its bed: idle, without bed timer, with a path (maybe
/// empty) that leads off the bed.
pub open spec fn woke(o: ColonistState, f: ColonistState) -> bool {
    &&& f.entity == o.entity
    &&& f.id == o.id
    &&& f.name == o.name
    &&& f.cell == o.cell
    &&& f.statuses == o.statuses
    &&& f.task == idle_task()
    &&& f.sleep_timer is None
    &&& f.path.index == 0
}

/// The turn of eater `i`, at the stand of its task, in a tick (colony before `c0`, after
/// `c1`; bushes emptied so far `d0`, `d1`): it takes a berry if it can (`can_eat`),
/// noting a bush left empty, and its task ends.
#[verifier::opaque]
pub open spec fn eat_turn(
    grid: &WorldGrid,
    content: &ContentRegistry,
    c0: Colony,
    c1: Colony,
    i: int,
    d0: Seq<(Entity, i32, i32)>,
    d1: Seq<(Entity, i32, i32)>,
) -> bool {
    let c = c0.colonists@[i];
    let b = (c.task.building_x, c.task.building_y);
    &&& c1.colonists@.len() == c0.colonists@.len()
    &&& cleared(c, c1.colonists@[i])
    &&& forall|k: int| 0 <= k < c0.colonists@.len() && k != i ==> #[trigger] c1.colonists@[k] == c0.colonists@[k]
    &&& c1.sites@ == c0.sites@
    &&& c1.decon_sites == c0.decon_sites
    &&& c1.next_entity == c0.next_entity
    &&& if can_eat(c0.buildings@, grid, content, c) {
        let j = first_building_from(c0.buildings@, b, 0)->0;
        let s = c0.buildings@[j].supply->0;
        &&& c1.buildings@ == c0.buildings@.update(
            j,
            BuildingState { supply: Some(BerrySupply { remaining: (s.remaining - 1) as u8 }), ..c0.buildings@[j] },
        )
        &&& d1 == if s.remaining == 1 {
            d0.push((c0.buildings@[j].entity, b.0, b.1))
        } else {
            d0
        }
    } else {
        &&& c1.buildings@ == c0.buildings@
        &&& d1 == d0
    }
}

/// The sleeper `o` wakes this tick: it lies on its claimed bed, its bed timer runs,
/// and `tick` says no time is left.
pub open spec fn wakes(bs: Seq<BuildingState>, grid: &WorldGrid, content: &ContentRegistry, o: ColonistState, tick: (u32, bool)) -> bool {
    on_claimed_bed(bs, grid, content, o) && o.sleep_timer is Some && !tick.1
}

/// The turn of sleeper `i`, on the target of its task, in a tick, with `tick` its bed
/// timer after this tick (the bits, and whether time is left). Off its claimed bed its
/// task ends and its bed claims are dropped; on it, a bed timer starts, runs on, or runs
/// out: then it wakes, gives up the bed and is sent off it (`vacate_path`).
#[verifier::opaque]
pub open spec fn sleep_turn(
    grid: &WorldGrid,
    content: &ContentRegistry,
    c0: Colony,
    c1: Colony,
    i: int,
    tick: (u32, bool),
) -> bool {
    let o = c0.colonists@[i];
    let f = c1.colonists@[i];
    &&& c1.colonists@.len() == c0.colonists@.len()
    &&& forall|k: int| 0 <= k < c0.colonists@.len() && k != i ==> #[trigger] c1.colonists@[k] == c0.colonists@[k]
    &&& c1.sites@ == c0.sites@
    &&& c1.decon_sites == c0.decon_sites
    &&& c1.next_entity == c0.next_entity
    &&& if !on_claimed_bed(c0.buildings@, grid, content, o) {
        &&& cleared(o, f)
        &&& c1.buildings@ == beds_released(c0.buildings@, o.entity)
    } else if o.sleep_timer is None {
        &&& f == ColonistState { sleep_timer: Some(SLEEP_ON_BED_BITS), ..o }
        &&& c1.buildings@ == c0.buildings@
    } else if tick.1 {
        &&& f == ColonistState { sleep_timer: Some(tick.0), ..o }
        &&& c1.buildings@ == c0.buildings@
    } else {
        &&& woke(o, f)
        &&& c1.buildings@ == beds_released(c0.buildings@, o.entity)
        &&& vacate_path(grid, content, c0.colonists@, o.entity, o.cell, (o.task.building_x, o.task.building_y), f.path.waypoints@)
    }
}

impl Colony {
    /// Colonist `i`, at the stand of its eating task, takes a berry if it can
    /// (`can_eat`); a bush left empty is noted in `depleted`. Either way its task ends.
    fn complete_eat(&mut self, grid: &WorldGrid, content: &ContentRegistry, i: usize, depleted: &mut Vec<(Entity, i32, i32)>) -> (ate: bool)
        requires
            i < old(self).colonists@.len(),
            old(self).colonists@[i as int].task.kind == TaskKind::Eat,
            grid.wf(content),
        ensures
            ate == can_eat(old(self).buildings@, grid, content, old(self).colonists@[i as int]),
            final(self).colonists@.len() == old(self).colonists@.len(),
            cleared(old(self).colonists@[i as int], final(self).colonists@[i as int]),
            forall|k: int| 0 <= k < old(self).colonists@.len() && k != i ==> #[trigger] final(self).colonists@[k] == old(self).colonists@[k],
            !ate ==> final(self).buildings@ == old(self).buildings@ && final(depleted)@ == old(depleted)@,
            ate ==> {
                let b = (old(self).colonists@[i as int].task.building_x, old(self).colonists@[i as int].task.building_y);
                let j = first_building_from(old(self).buildings@, b, 0)->0;
                let s = old(self).buildings@[j].supply->0;
                &&& final(self).buildings@ == old(self).buildings@.update(
                    j,
                    BuildingState { supply: Some(BerrySupply { remaining: (s.remaining - 1) as u8 }), ..old(self).buildings@[j] },
                )
                &&& final(depleted)@ == if s.remaining == 1 {
                    old(depleted)@.push((old(self).buildings@[j].entity, b.0, b.1))
                } else {
                    old(depleted)@
                }
            },
            final(self).sites@ == old(self).sites@,
            final(self).decon_sites == old(self).decon_sites,
            final(self).next_entity == old(self).next_entity,
            eat_turn(grid, content, *old(self), *final(self), i as int, old(depleted)@, final(depleted)@),
    {
        proof {
            reveal(eat_turn);
        }
        let c = &self.colonists[i];
        let bx = c.task.building_x;
        let by = c.task.building_y;
        let adjacent = manhattan_exec(c.cell, (bx, by)) == 1;
        let mut ate = false;
        if adjacent {
            let is_bush = match grid.building_at(bx, by) {
                Some(b) => b == content.berry_bush_building,
                None => false,
            };
            if is_bush {
                if let Some(j) = self.building_entity_at(bx, by) {
                    let mut b = self.buildings[j];
                    if let Some(s) = b.supply {
                        if s.remaining > 0 {
                            let left = s.remaining - 1;
                            b.supply = Some(BerrySupply { remaining: left });
                            self.buildings.set(j, b);
                            ate = true;
                            if left == 0 {
                                depleted.push((b.entity, bx, by));
                            }
                        }
                    }
                }
            }
        }
        self.clear_task(i);
        ate
    }

    /// Colonist `i`, on the target of its sleeping task. On its claimed bed
    /// (`on_claimed_bed`) it starts the bed timer if none runs, or else takes the
    /// timer after this tick from `tick` (its bits, and whether time is left): while
    /// time is left it keeps sleeping; when the time is up it wakes (`woke`), gives up
    /// the bed, and is sent around the others to the cell that
    /// `find_vacate_cell_after_sleep` picks, if it can reach it. Off its bed, its task
    /// ends. Says whether it woke.
    fn complete_sleep(&mut self, grid: &WorldGrid, content: &ContentRegistry, i: usize, tick: (u32, bool)) -> (woke_up: bool)
        requires
            i < old(self).colonists@.len(),
            old(self).colonists@[i as int].task.kind == TaskKind::Sleep,
            grid.wf(content),
        ensures
            final(self).colonists@.len() == old(self).colonists@.len(),
            forall|k: int| 0 <= k < old(self).colonists@.len() && k != i ==> #[trigger] final(self).colonists@[k] == old(self).colonists@[k],
            !on_claimed_bed(old(self).buildings@, grid, content, old(self).colonists@[i as int]) ==> {
                &&& !woke_up
                &&& cleared(old(self).colonists@[i as int], final(self).colonists@[i as int])
                &&& final(self).buildings@ == beds_released(old(self).buildings@, old(self).colonists@[i as int].entity)
            },
            on_claimed_bed(old(self).buildings@, grid, content, old(self).colonists@[i as int]) ==> {
                let o = old(self).colonists@[i as int];
                let f = final(self).colonists@[i as int];
                if o.sleep_timer is None {
                    &&& !woke_up
                    &&& f == ColonistState { sleep_timer: Some(SLEEP_ON_BED_BITS), ..o }
                    &&& final(self).buildings == old(self).buildings
                } else if tick.1 {
                    &&& !woke_up
                    &&& f == ColonistState { sleep_timer: Some(tick.0), ..o }
                    &&& final(self).buildings == old(self).buildings
                } else {
                    &&& woke_up
                    &&& woke(o, f)
                    &&& final(self).buildings@ == beds_released(old(self).buildings@, o.entity)
                    &&& vacate_path(grid, content, old(self).colonists@, o.entity, o.cell, (o.task.building_x, o.task.building_y), f.path.waypoints@)
                    &&& (f.path.waypoints@.len() == 0 || path_follows(
                        grid,
                        content,
                        blocked_seq(old(self).colonists@, o.entity),
                        o.cell,
                        f.path.waypoints@.last(),
                        f.path.waypoints@,
                    ))
                }
            },
            final(self).sites@ == old(self).sites@,
            final(self).decon_sites == old(self).decon_sites,
            final(self).next_entity == old(self).next_entity,
            sleep_turn(grid, content, *old(self), *final(self), i as int, tick),
            woke_up == wakes(old(self).buildings@, grid, content, old(self).colonists@[i as int], tick),
    {
        proof {
            reveal(sleep_turn);
        }
        let e = self.colonists[i].entity;
        let cell = self.colonists[i].cell;
        let bx = self.colonists[i].task.building_x;
        let by = self.colonists[i].task.building_y;
        let mut on_bed = false;
        if cell.0 == bx && cell.1 == by {
            let is_bed = match grid.building_at(bx, by) {
                Some(b) => b == content.bed_building,
                None => false,
            };
            if is_bed {
                if let Some(j) = self.building_entity_at(bx, by) {
                    if let Some(o) = self.buildings[j].occupancy {
                        if let Some(r) = o.reserved_by {
                            on_bed = r == e;
                        }
                    }
                }
            }
        }
        if !on_bed {
            self.clear_task(i);
            return false;
        }
        match self.colonists[i].sleep_timer {
            None => {
                self.colonists[i].sleep_timer = Some(SLEEP_ON_BED_BITS);
                return false;
            },
            Some(_) => {
                if tick.1 {
                    self.colonists[i].sleep_timer = Some(tick.0);
                    return false;
                }
            },
        }
        let ghost before = self.colonists@;
        let occ = self.colonist_occupancy_map();
        let vacate = find_vacate_cell_after_sleep(grid, content, (bx, by), cell, &occ, e);
        proof {
            assert forall|c2: (i32, i32)|
                #[trigger] vacate_ok_cols(grid, content, before, e, cell, (bx, by), c2) == vacate_ok(
                    grid,
                    content,
                    &occ,
                    e,
                    cell,
                    (bx, by),
                    c2,
                ) by {
                assert(occ.at(c2) == occupant(before, c2));
            }
            assert(vacate_pick(grid, content, before, e, cell, (bx, by), vacate));
        }
        self.clear_task(i);
        if let Some(v) = vacate {
            proof {
                crate::tasks::lemma_same_places_all(before, self.colonists@);
            }
            let blocked = colonist_blocked_cells(&self.colonists, &occ, e);
            if let Some(route) = find_path_avoiding(grid, content, cell, v, blocked.as_slice()) {
                let w = waypoints_after_start(Ghost(grid), Ghost(content), Ghost(blocked@), cell, v, &route);
                proof {
                    if cell != v {
                        assert((seq![cell] + w@).last() == v);
                        assert(w@.last() == v);
                    } else {
                        assert(w@.last() == v);
                    }
                }
                self.colonists[i].path = Path { waypoints: w, index: 0 };
            }
        }
        true
    }
}


/// The turn of colonist `k` in the eating and sleeping part of a tick, from `s0` to
/// `s1` (the colony, the bushes emptied and the needs restored so far), with `tick` its
/// bed timer after this tick. A colonist that is not on the target of an eating or
/// sleeping task changes nothing; an eater that takes a berry restores its food, a
/// sleeper that wakes its sleep.
#[verifier::opaque]
pub open spec fn exec_step(
    grid: &WorldGrid,
    content: &ContentRegistry,
    tick: (u32, bool),
    k: int,
    s0: (Colony, Seq<(Entity, i32, i32)>, Seq<(Entity, NeedKind)>),
    s1: (Colony, Seq<(Entity, i32, i32)>, Seq<(Entity, NeedKind)>),
) -> bool {
    let c = s0.0.colonists@[k];
    if !at_task_target(c) {
        s1 == s0
    } else if c.task.kind == TaskKind::Eat {
        &&& eat_turn(grid, content, s0.0, s1.0, k, s0.1, s1.1)
        &&& s1.2 == if can_eat(s0.0.buildings@, grid, content, c) {
            s0.2.push((c.entity, NeedKind::Food))
        } else {
            s0.2
        }
    } else {
        &&& sleep_turn(grid, content, s0.0, s1.0, k, tick)
        &&& s1.1 == s0.1
        &&& s1.2 == if wakes(s0.0.buildings@, grid, content, c, tick) {
            s0.2.push((c.entity, NeedKind::Sleep))
        } else {
            s0.2
        }
    }
}

/// The eating and sleeping part of a tick, turn by turn (`exec_step`): `tr[k]` is the
/// state before the turn of colonist `k`.
pub open spec fn exec_trace(
    grid: &WorldGrid,
    content: &ContentRegistry,
    ticks: Seq<(u32, bool)>,
    c0: Colony,
    c1: Colony,
    d: Seq<(Entity, i32, i32)>,
    r: Seq<(Entity, NeedKind)>,
    tr: Seq<(Colony, Seq<(Entity, i32, i32)>, Seq<(Entity, NeedKind)>)>,
) -> bool {
    &&& tr.len() == c0.colonists@.len() + 1
    &&& tr[0] == (c0, Seq::<(Entity, i32, i32)>::empty(), Seq::<(Entity, NeedKind)>::empty())
    &&& tr[tr.len() - 1] == (c1, d, r)
    &&& forall|k: int| 0 <= k < c0.colonists@.len() ==> #[trigger] exec_step(grid, content, ticks[k], k, tr[k], tr[k + 1])
}

/// The facts of one turn give `exec_step`.
proof fn lemma_exec_step(
    grid: &WorldGrid,
    content: &ContentRegistry,
    tick: (u32, bool),
    k: int,
    s0: (Colony, Seq<(Entity, i32, i32)>, Seq<(Entity, NeedKind)>),
    s1: (Colony, Seq<(Entity, i32, i32)>, Seq<(Entity, NeedKind)>),
)
    requires
        !at_task_target(s0.0.colonists@[k]) ==> s1 == s0,
        at_task_target(s0.0.colonists@[k]) && s0.0.colonists@[k].task.kind == TaskKind::Eat ==> {
            &&& eat_turn(grid, content, s0.0, s1.0, k, s0.1, s1.1)
            &&& s1.2 == if can_eat(s0.0.buildings@, grid, content, s0.0.colonists@[k]) {
                s0.2.push((s0.0.colonists@[k].entity, NeedKind::Food))
            } else {
                s0.2
            }
        },
        at_task_target(s0.0.colonists@[k]) && s0.0.colonists@[k].task.kind != TaskKind::Eat ==> {
            &&& sleep_turn(grid, content, s0.0, s1.0, k, tick)
            &&& s1.1 == s0.1
            &&& s1.2 == if wakes(s0.0.buildings@, grid, content, s0.0.colonists@[k], tick) {
                s0.2.push((s0.0.colonists@[k].entity, NeedKind::Sleep))
            } else {
                s0.2
            }
        },
    ensures
        exec_step(grid, content, tick, k, s0, s1),
{
    reveal(exec_step);
}

/// The grid's buildings once the first `n` emptied bushes of `d` are taken off it.
pub open spec fn grid_after_removals(gb: Seq<Option<BuildingId>>, d: Seq<(Entity, i32, i32)>, n: int) -> Seq<Option<BuildingId>>
    decreases n,
{
    if n <= 0 {
        gb
    } else {
        let g = grid_after_removals(gb, d, n - 1);
        match cell_index(d[n - 1].1 as int, d[n - 1].2 as int) {
            Some(i) => g.update(i, None),
            None => g,
        }
    }
}

/// The building entities once the first `n` emptied bushes of `d` are despawned.
pub open spec fn buildings_after_removals(bs: Seq<BuildingState>, d: Seq<(Entity, i32, i32)>, n: int) -> Seq<BuildingState>
    decreases n,
{
    if n <= 0 {
        bs
    } else {
        let p = buildings_after_removals(bs, d, n - 1);
        match first_with_entity(p, d[n - 1].0, 0) {
            Some(k) => p.remove(k),
            None => p,
        }
    }
}

/// A whole tick of task execution, from colony `c0` on grid `g0` to colony `c1` on grid
/// `g1`, restoring the needs `r`: the build phase (`build_trace`), the eating and
/// sleeping turns (`exec_trace`), then the bushes emptied are taken off the grid and
/// despawned, in order.
pub open spec fn tick_done(
    content: &ContentRegistry,
    ticks: Seq<(u32, bool)>,
    c0: Colony,
    g0: WorldGrid,
    c1: Colony,
    g1: WorldGrid,
    r: Seq<(Entity, NeedKind)>,
) -> bool {
    exists|
        tr1: Seq<(Colony, WorldGrid)>,
        mid: Colony,
        gm: WorldGrid,
        tr2: Seq<(Colony, Seq<(Entity, i32, i32)>, Seq<(Entity, NeedKind)>)>,
        after: Colony,
        d: Seq<(Entity, i32, i32)>,
    | {
        &&& build_trace(content, c0, g0, mid, gm, tr1)
        &&& exec_trace(&gm, content, ticks, mid, after, d, r, tr2)
        &&& c1.colonists == after.colonists
        &&& c1.sites == after.sites
        &&& c1.decon_sites == after.decon_sites
        &&& c1.next_entity == after.next_entity
        &&& c1.buildings@ == buildings_after_removals(after.buildings@, d, d.len() as int)
        &&& gm.wf(content)
        &&& g1.terrain == gm.terrain
        &&& g1.seed == gm.seed
        &&& g1.buildings@ == grid_after_removals(gm.buildings@, d, d.len() as int)
    }
}

/// What a tick of task execution may make of colonist `o`.
pub open spec fn exec_outcome(o: ColonistState, f: ColonistState) -> bool {
    ||| f == o
    ||| (ready_to_build(o) && cleared(o, f))
    ||| (at_task_target(o) && cleared(o, f))
    ||| (at_task_target(o) && o.task.kind == TaskKind::Sleep && f.sleep_timer is Some
        && f == ColonistState { sleep_timer: f.sleep_timer, ..o })
    ||| (at_task_target(o) && o.task.kind == TaskKind::Sleep && woke(o, f))
}

/// The need of colonist `e` that was restored in a tick: it ate beside its bush, or
/// woke from its bed.
pub open spec fn restore_ok(old_cols: Seq<ColonistState>, new_cols: Seq<ColonistState>, r: (Entity, NeedKind)) -> bool {
    exists|k: int|
        0 <= k < old_cols.len() && (#[trigger] old_cols[k]).entity == r.0 && at_task_target(old_cols[k]) && match r.1 {
            NeedKind::Food => old_cols[k].task.kind == TaskKind::Eat && manhattan(
                old_cols[k].cell,
                (old_cols[k].task.building_x, old_cols[k].task.building_y),
            ) == 1 && cleared(old_cols[k], new_cols[k]),
            NeedKind::Sleep => old_cols[k].task.kind == TaskKind::Sleep && woke(old_cols[k], new_cols[k]),
        }
}

impl Colony {
    /// One tick of task execution: building work (`apply_build_work`), then each
    /// colonist on the target of its eating or sleeping task carries it out
    /// (`complete_eat`, `complete_sleep`, the bed timers after this tick coming from
    /// `sleep_ticks`); last, the bushes left empty disappear from the grid and the
    /// colony. Returns the needs restored, to be refilled by the host.
    pub fn task_execution(&mut self, grid: &mut WorldGrid, content: &ContentRegistry, sleep_ticks: &Vec<(u32, bool)>) -> (restored: Vec<(Entity, NeedKind)>)
        requires
            old(grid).wf(content),
            sites_valid(old(self).sites@, content),
            buildings_valid(old(self).buildings@, content),
            sleep_ticks@.len() == old(self).colonists@.len(),
        ensures
            final(grid).wf(content),
            buildings_valid(final(self).buildings@, content),
            final(self).decon_sites == old(self).decon_sites,
            final(grid).terrain == old(grid).terrain,
            sites_valid(final(self).sites@, content),
            final(self).colonists@.len() == old(self).colonists@.len(),
            forall|k: int| 0 <= k < old(self).colonists@.len() ==> exec_outcome(old(self).colonists@[k], #[trigger] final(self).colonists@[k]),
            forall|q: int| 0 <= q < restored@.len() ==> restore_ok(old(self).colonists@, final(self).colonists@, #[trigger] restored@[q]),
            tick_done(content, sleep_ticks@, *old(self), *old(grid), *final(self), *final(grid), restored@),
    {
        let ghost c0 = self.colonists@;
        self.apply_build_work(grid, content);
        let ghost c1 = self.colonists@;
        let ghost mid = *self;
        let ghost gm = *grid;
        let ghost tr1 = choose|tr: Seq<(Colony, WorldGrid)>| build_trace(content, *old(self), *old(grid), mid, gm, tr);
        let ghost mut tr2: Seq<(Colony, Seq<(Entity, i32, i32)>, Seq<(Entity, NeedKind)>)> = seq![
            (mid, Seq::<(Entity, i32, i32)>::empty(), Seq::<(Entity, NeedKind)>::empty()),
        ];
        let mut restored: Vec<(Entity, NeedKind)> = Vec::new();
        let mut depleted: Vec<(Entity, i32, i32)> = Vec::new();
        let mut i: usize = 0;
        while i < self.colonists.len()
            invariant
                0 <= i <= c0.len(),
                c1.len() == c0.len(),
                self.colonists@.len() == c0.len(),
                sleep_ticks@.len() == c0.len(),
                grid.wf(content),
                grid.terrain == old(grid).terrain,
                sites_valid(self.sites@, content),
                buildings_valid(self.buildings@, content),
                self.decon_sites == old(self).decon_sites,
                forall|k: int| 0 <= k < c0.len() ==> #[trigger] c1[k] == c0[k]
                    || (ready_to_build(c0[k]) && cleared(c0[k], c1[k])),
                forall|k: int| i <= k < c0.len() ==> #[trigger] self.colonists@[k] == c1[k],
                forall|k: int| 0 <= k < i ==> exec_outcome(c0[k], #[trigger] self.colonists@[k]),
                forall|q: int| 0 <= q < restored@.len() ==> restore_ok(c0, self.colonists@, #[trigger] restored@[q]),
                *grid == gm,
                mid.colonists@.len() == c0.len(),
                tr2.len() == i + 1,
                tr2[0] == (mid, Seq::<(Entity, i32, i32)>::empty(), Seq::<(Entity, NeedKind)>::empty()),
                tr2[i as int] == (*self, depleted@, restored@),
                forall|k: int| 0 <= k < i ==> #[trigger] exec_step(&gm, content, sleep_ticks@[k], k, tr2[k], tr2[k + 1]),
            decreases c0.len() - i,
        {
            let ghost tr20 = tr2;
            let ghost st0 = *self;
            let ghost dep0 = depleted@;
            let ghost res0 = restored@;
            let c = &self.colonists[i];
            let kind = c.task.kind;
            let at_target = (kind == TaskKind::Eat || kind == TaskKind::Sleep) && c.path.index >= c.path.waypoints.len()
                && c.cell.0 == c.task.target_x && c.cell.1 == c.task.target_y;
            if at_target {
                let e = c.entity;
                let ghost before = self.colonists@;
                let ghost bs_before = self.buildings@;
                let ghost r0 = restored@;
                proof {
                    assert(c1[i as int] == c0[i as int]);
                }
                if kind == TaskKind::Eat {
                    let ate = self.complete_eat(grid, content, i, &mut depleted);
                    if ate {
                        restored.push((e, NeedKind::Food));
                    }
                } else {
                    let woke_up = self.complete_sleep(grid, content, i, sleep_ticks[i]);
                    if woke_up {
                        restored.push((e, NeedKind::Sleep));
                    }
                }
                proof {
                    let cc = c0[i as int];
                    crate::tasks::lemma_first_in_range(bs_before, (cc.task.building_x, cc.task.building_y), 0);
                    assert(self.buildings@.len() == bs_before.len());
                    assert forall|q: int| 0 <= q < self.buildings@.len() implies (#[trigger] self.buildings@[q]).kind.0.0 < content.buildings@.len() by {
                        assert(self.buildings@[q].kind == bs_before[q].kind);
                    }
                    assert forall|q: int| 0 <= q < restored@.len() implies restore_ok(c0, self.colonists@, #[trigger] restored@[q]) by {
                        if q < r0.len() {
                            assert(restored@[q] == r0[q]);
                            assert(restore_ok(c0, before, r0[q]));
                            let k = choose|k: int| 0 <= k < c0.len() && (#[trigger] c0[k]).entity == r0[q].0 && at_task_target(c0[k]) && match r0[q].1 {
                                NeedKind::Food => c0[k].task.kind == TaskKind::Eat && manhattan(
                                    c0[k].cell,
                                    (c0[k].task.building_x, c0[k].task.building_y),
                                ) == 1 && cleared(c0[k], before[k]),
                                NeedKind::Sleep => c0[k].task.kind == TaskKind::Sleep && woke(c0[k], before[k]),
                            };
                            if k != i {
                                assert(self.colonists@[k] == before[k]);
                            } else {
                                assert(k < i);
                            }
                        } else {
                            assert(c0[i as int].entity == e);
                        }
                    }
                }
            }
            proof {
                lemma_exec_step(&gm, content, sleep_ticks@[i as int], i as int, (st0, dep0, res0), (*self, depleted@, restored@));
                tr2 = tr2.push((*self, depleted@, restored@));
                assert forall|k: int| 0 <= k < i + 1 implies #[trigger] exec_step(&gm, content, sleep_ticks@[k], k, tr2[k], tr2[k + 1]) by {
                    if k < i {
                        assert(tr2[k] == tr20[k] && tr2[k + 1] == tr20[k + 1]);
                    } else {
                        assert(tr2[k] == (st0, dep0, res0));
                    }
                }
            }
            i += 1;
        }
        let ghost after = *self;
        let ghost dl = depleted@;
        let mut d: usize = 0;
        while d < depleted.len()
            invariant
                0 <= d <= depleted@.len(),
                grid.wf(content),
                grid.terrain == old(grid).terrain,
                sites_valid(self.sites@, content),
                buildings_valid(self.buildings@, content),
                self.decon_sites == old(self).decon_sites,
                self.colonists@.len() == c0.len(),
                forall|k: int| 0 <= k < c0.len() ==> exec_outcome(c0[k], #[trigger] self.colonists@[k]),
                forall|q: int| 0 <= q < restored@.len() ==> restore_ok(c0, self.colonists@, #[trigger] restored@[q]),
                depleted@ == dl,
                self.colonists == after.colonists,
                self.sites == after.sites,
                self.decon_sites == after.decon_sites,
                self.next_entity == after.next_entity,
                self.buildings@ == buildings_after_removals(after.buildings@, dl, d as int),
                grid.terrain == gm.terrain,
                grid.seed == gm.seed,
                grid.buildings@ == grid_after_removals(gm.buildings@, dl, d as int),
            decreases depleted@.len() - d,
        {
            let ghost gb0 = grid.buildings@;
            let (be, x, y) = depleted[d];
            let ghost g0 = *grid;
            let _ = grid.remove_building(x, y);
            proof {
                assert forall|k: int| 0 <= k < crate::world::GRID_CELLS implies match #[trigger] grid.buildings@[k] {
                    Some(b) => b.0 < content.buildings@.len(),
                    None => true,
                } by {
                    assert(grid.buildings@[k] == g0.buildings@[k] || grid.buildings@[k] is None);
                }
            }
            let ghost bs_before = self.buildings@;
            self.despawn_building(be);
            proof {
                assert forall|q: int| 0 <= q < self.buildings@.len() implies (#[trigger] self.buildings@[q]).kind.0.0 < content.buildings@.len() by {
                    if let Some(r) = first_with_entity(bs_before, be, 0) {
                        lemma_first_entity_range(bs_before, be, 0);
                        if q < r {
                            assert(self.buildings@[q] == bs_before[q]);
                        } else {
                            assert(self.buildings@[q] == bs_before[q + 1]);
                        }
                    }
                }
            }
            proof {
                match cell_index(x as int, y as int) {
                    Some(ci) => {
                        if gb0[ci] is None {
                            assert(gb0.update(ci, None) =~= gb0);
                        }
                    },
                    None => {},
                }
                assert(dl[d as int] == (be, x, y));
            }
            d += 1;
        }
        proof {
            assert(build_trace(content, *old(self), *old(grid), mid, gm, tr1));
            assert(exec_trace(&gm, content, sleep_ticks@, mid, after, dl, restored@, tr2));
            assert(tick_done(content, sleep_ticks@, *old(self), *old(grid), *self, *grid, restored@));
        }
        restored
    }
}

} // verus!
