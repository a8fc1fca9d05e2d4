//! Which colonist takes which task: tasks that can no longer be carried out are
//! dropped, then idle colonists are sent to satisfy a need, to build, or to wander.
use vstd::prelude::*;

use crate::components::{BedOccupancy, ConstructionSite, Entity, Path, Task, TaskKind};
use crate::content::ContentRegistry;
use crate::pathfinding::{
    best_adjacent_stand, best_adjacent_stand_filtered, dir, find_path, find_path_avoiding, first_nearest_stand,
    is_route, listed, reachable, shortest, stand_before, stand_cell, stand_open,
};
use crate::systems::{
    manhattan, manhattan_exec, cleared, first_building_from, occupant, occupant_upto, BuildingState,
    ColonistState, Colony, Occupancy, SiteState,
};
use crate::world::{WorldGrid, WORLD_SIZE, WANDER_MIN_RADIUS, WANDER_PICK_ATTEMPTS, WANDER_RADIUS};

verus! {

// ---------------------------------------------------------------------------
// Cells that a colonist walks around
// ---------------------------------------------------------------------------

/// The cells of `cols[0..n]` where the occupancy map records a colonist other than `e`.
pub open spec fn blocked_upto(cols: Seq<ColonistState>, e: Entity, n: int) -> Seq<(i32, i32)>
    decreases n,
{
    if n <= 0 {
        Seq::empty()
    } else if occupant(cols, cols[n - 1].cell) != Some(e) {
        blocked_upto(cols, e, n - 1).push(cols[n - 1].cell)
    } else {
        blocked_upto(cols, e, n - 1)
    }
}

/// The cells that colonist `e` must not walk through: those where another colonist stands.
pub open spec fn blocked_seq(cols: Seq<ColonistState>, e: Entity) -> Seq<(i32, i32)> {
    blocked_upto(cols, e, cols.len() as int)
}

/// Two colony lists hold the same entities on the same cells.
pub open spec fn same_places(a: Seq<ColonistState>, b: Seq<ColonistState>) -> bool {
    &&& a.len() == b.len()
    &&& forall|k: int| 0 <= k < a.len() ==> #[trigger] a[k].cell == b[k].cell && a[k].entity == b[k].entity
}

pub proof fn lemma_same_places_occupant(a: Seq<ColonistState>, b: Seq<ColonistState>, n: int, c: (i32, i32))
    requires
        same_places(a, b),
        n <= a.len(),
    ensures
        occupant_upto(a, n, c) == occupant_upto(b, n, c),
    decreases n,
{
    if n > 0 {
        assert(a[n - 1].cell == b[n - 1].cell);
        lemma_same_places_occupant(a, b, n - 1, c);
    }
}

pub proof fn lemma_same_places_blocked(a: Seq<ColonistState>, b: Seq<ColonistState>, e: Entity, n: int)
    requires
        same_places(a, b),
        n <= a.len(),
    ensures
        blocked_upto(a, e, n) == blocked_upto(b, e, n),
    decreases n,
{
    if n > 0 {
        assert(a[n - 1].cell == b[n - 1].cell);
        lemma_same_places_occupant(a, b, a.len() as int, a[n - 1].cell);
        lemma_same_places_blocked(a, b, e, n - 1);
    }
}

/// The cells that colonist `e` must walk around, for a path search.
pub fn colonist_blocked_cells(cols: &Vec<ColonistState>, occ: &Occupancy, e: Entity) -> (r: Vec<(i32, i32)>)
    requires
        occ.wf(),
        forall|c: (i32, i32)| #[trigger] occ.at(c) == occupant(cols@, c),
    ensures
        r@ == blocked_seq(cols@, e),
{
    let mut r: Vec<(i32, i32)> = Vec::new();
    let mut k: usize = 0;
    while k < cols.len()
        invariant
            0 <= k <= cols@.len(),
            occ.wf(),
            forall|c: (i32, i32)| #[trigger] occ.at(c) == occupant(cols@, c),
            r@ == blocked_upto(cols@, e, k as int),
        decreases cols@.len() - k,
    {
        let c = cols[k].cell;
        let o = occ.get(c);
        let mine = match o {
            Some(x) => x == e,
            None => false,
        };
        if !mine {
            r.push(c);
        }
        k += 1;
    }
    r
}

/// A path search for colonist `e` from `from` to `goal` that walks around the other colonists.
pub fn find_path_for_colonist(
    grid: &WorldGrid,
    content: &ContentRegistry,
    cols: &Vec<ColonistState>,
    occ: &Occupancy,
    from: (i32, i32),
    goal: (i32, i32),
    e: Entity,
) -> (r: Option<Vec<(i32, i32)>>)
    requires
        grid.wf(content),
        occ.wf(),
        forall|c: (i32, i32)| #[trigger] occ.at(c) == occupant(cols@, c),
    ensures
        from == goal ==> (r matches Some(p) && p@ == seq![goal]),
        r matches Some(p) ==> is_route(grid, content, blocked_seq(cols@, e), from, goal, p@),
        r matches Some(p) ==> shortest(grid, content, blocked_seq(cols@, e), from, goal, p@),
        r is Some <==> reachable(grid, content, blocked_seq(cols@, e), from, goal),
{
    let blocked = colonist_blocked_cells(cols, occ, e);
    find_path_avoiding(grid, content, from, goal, blocked.as_slice())
}

// ---------------------------------------------------------------------------
// Dropping several tasks at once
// ---------------------------------------------------------------------------

/// Some colonist `k < n` with `which[k]` has a task of `kind` and entity `e`.
pub open spec fn dropped_upto(cols: Seq<ColonistState>, which: Seq<bool>, kind: TaskKind, e: Entity, n: int) -> bool {
    exists|k: int| 0 <= k < n && #[trigger] which[k] && cols[k].task.kind == kind && cols[k].entity == e
}

/// Site `s` once the colonists picked by `which[0..n]` gave up their tasks.
pub open spec fn site_after_drops(s: SiteState, cols: Seq<ColonistState>, which: Seq<bool>, n: int) -> SiteState {
    match s.site.reserved_by {
        Some(e) => if dropped_upto(cols, which, TaskKind::Build, e, n) {
            SiteState { site: ConstructionSite { reserved_by: None, ..s.site }, ..s }
        } else {
            s
        },
        None => s,
    }
}

/// Building `b` once the colonists picked by `which[0..n]` gave up their tasks.
pub open spec fn building_after_drops(b: BuildingState, cols: Seq<ColonistState>, which: Seq<bool>, n: int) -> BuildingState {
    match b.occupancy {
        Some(o) => match o.reserved_by {
            Some(e) => if dropped_upto(cols, which, TaskKind::Sleep, e, n) {
                BuildingState { occupancy: Some(BedOccupancy { reserved_by: None }), ..b }
            } else {
                b
            },
            None => b,
        },
        None => b,
    }
}

impl Colony {
    /// Makes every colonist `i` with `which[i]` idle, as `clear_task` does.
    pub fn clear_tasks(&mut self, which: &Vec<bool>)
        requires
            which@.len() == old(self).colonists@.len(),
        ensures
            final(self).colonists@.len() == old(self).colonists@.len(),
            forall|i: int| 0 <= i < old(self).colonists@.len() ==> if which@[i] {
                cleared(old(self).colonists@[i], #[trigger] final(self).colonists@[i])
            } else {
                final(self).colonists@[i] == old(self).colonists@[i]
            },
            final(self).sites@.len() == old(self).sites@.len(),
            forall|j: int| 0 <= j < old(self).sites@.len() ==> #[trigger] final(self).sites@[j]
                == site_after_drops(old(self).sites@[j], old(self).colonists@, which@, which@.len() as int),
            final(self).buildings@.len() == old(self).buildings@.len(),
            forall|j: int| 0 <= j < old(self).buildings@.len() ==> #[trigger] final(self).buildings@[j]
                == building_after_drops(old(self).buildings@[j], old(self).colonists@, which@, which@.len() as int),
            final(self).decon_sites == old(self).decon_sites,
            final(self).next_entity == old(self).next_entity,
    {
        let ghost cols0 = self.colonists@;
        let ghost sites0 = self.sites@;
        let ghost bs0 = self.buildings@;
        let mut i: usize = 0;
        while i < which.len()
            invariant
                0 <= i <= which@.len(),
                which@.len() == cols0.len(),
                self.colonists@.len() == cols0.len(),
                forall|k: int| 0 <= k < cols0.len() ==> if k < i && which@[k] {
                    cleared(cols0[k], #[trigger] self.colonists@[k])
                } else {
                    self.colonists@[k] == cols0[k]
                },
                self.sites@.len() == sites0.len(),
                forall|j: int| 0 <= j < sites0.len() ==> #[trigger] self.sites@[j]
                    == site_after_drops(sites0[j], cols0, which@, i as int),
                self.buildings@.len() == bs0.len(),
                forall|j: int| 0 <= j < bs0.len() ==> #[trigger] self.buildings@[j]
                    == building_after_drops(bs0[j], cols0, which@, i as int),
                self.decon_sites == old(self).decon_sites,
                self.next_entity == old(self).next_entity,
            decreases which@.len() - i,
        {
            if which[i] {
                let ghost before_sites = self.sites@;
                let ghost before_bs = self.buildings@;
                self.clear_task(i);
                proof {
                    let c = cols0[i as int];
                    assert forall|j: int| 0 <= j < sites0.len() implies #[trigger] self.sites@[j]
                        == site_after_drops(sites0[j], cols0, which@, i + 1) by {
                        let s = sites0[j];
                        if let Some(e) = s.site.reserved_by {
                            if dropped_upto(cols0, which@, TaskKind::Build, e, i as int) {
                                let k = choose|k: int| 0 <= k < i && #[trigger] which@[k] && cols0[k].task.kind == TaskKind::Build && cols0[k].entity == e;
                                assert(dropped_upto(cols0, which@, TaskKind::Build, e, i + 1));
                            } else if c.task.kind == TaskKind::Build && c.entity == e {
                                assert(which@[i as int]);
                                assert(dropped_upto(cols0, which@, TaskKind::Build, e, i + 1));
                            } else {
                                assert forall|k: int| 0 <= k < i + 1 && #[trigger] which@[k] implies !(cols0[k].task.kind == TaskKind::Build && cols0[k].entity == e) by {
                                    if k < i {
                                        assert(!dropped_upto(cols0, which@, TaskKind::Build, e, i as int));
                                    }
                                }
                            }
                        }
                        assert(before_sites[j] == site_after_drops(sites0[j], cols0, which@, i as int));
                    }
                    assert forall|j: int| 0 <= j < bs0.len() implies #[trigger] self.buildings@[j]
                        == building_after_drops(bs0[j], cols0, which@, i + 1) by {
                        let b = bs0[j];
                        if let Some(o) = b.occupancy {
                            if let Some(e) = o.reserved_by {
                                if dropped_upto(cols0, which@, TaskKind::Sleep, e, i as int) {
                                    let k = choose|k: int| 0 <= k < i && #[trigger] which@[k] && cols0[k].task.kind == TaskKind::Sleep && cols0[k].entity == e;
                                    assert(dropped_upto(cols0, which@, TaskKind::Sleep, e, i + 1));
                                } else if c.task.kind == TaskKind::Sleep && c.entity == e {
                                    assert(which@[i as int]);
                                    assert(dropped_upto(cols0, which@, TaskKind::Sleep, e, i + 1));
                                } else {
                                    assert forall|k: int| 0 <= k < i + 1 && #[trigger] which@[k] implies !(cols0[k].task.kind == TaskKind::Sleep && cols0[k].entity == e) by {
                                        if k < i {
                                            assert(!dropped_upto(cols0, which@, TaskKind::Sleep, e, i as int));
                                        }
                                    }
                                }
                            }
                        }
                        assert(before_bs[j] == building_after_drops(bs0[j], cols0, which@, i as int));
                    }
                }
            } else {
                proof {
                    assert forall|j: int| 0 <= j < sites0.len() implies #[trigger] self.sites@[j]
                        == site_after_drops(sites0[j], cols0, which@, i + 1) by {
                        if let Some(e) = sites0[j].site.reserved_by {
                            if dropped_upto(cols0, which@, TaskKind::Build, e, i + 1) {
                                let k = choose|k: int| 0 <= k < i + 1 && #[trigger] which@[k] && cols0[k].task.kind == TaskKind::Build && cols0[k].entity == e;
                                assert(dropped_upto(cols0, which@, TaskKind::Build, e, i as int));
                            }
                        }
                    }
                    assert forall|j: int| 0 <= j < bs0.len() implies #[trigger] self.buildings@[j]
                        == building_after_drops(bs0[j], cols0, which@, i + 1) by {
                        if let Some(o) = bs0[j].occupancy {
                            if let Some(e) = o.reserved_by {
                                if dropped_upto(cols0, which@, TaskKind::Sleep, e, i + 1) {
                                    let k = choose|k: int| 0 <= k < i + 1 && #[trigger] which@[k] && cols0[k].task.kind == TaskKind::Sleep && cols0[k].entity == e;
                                    assert(dropped_upto(cols0, which@, TaskKind::Sleep, e, i as int));
                                }
                            }
                        }
                    }
                }
            }
            i += 1;
        }
    }
}


/// `b` is colony `a` after the colonists that `which` picks gave up their tasks.
pub open spec fn drops_applied(a: Colony, b: Colony, which: Seq<bool>) -> bool {
    &&& which.len() == a.colonists@.len()
    &&& b.colonists@.len() == a.colonists@.len()
    &&& forall|i: int| 0 <= i < a.colonists@.len() ==> if which[i] {
        cleared(a.colonists@[i], #[trigger] b.colonists@[i])
    } else {
        b.colonists@[i] == a.colonists@[i]
    }
    &&& b.sites@.len() == a.sites@.len()
    &&& forall|j: int| 0 <= j < a.sites@.len() ==> #[trigger] b.sites@[j]
        == site_after_drops(a.sites@[j], a.colonists@, which, which.len() as int)
    &&& b.buildings@.len() == a.buildings@.len()
    &&& forall|j: int| 0 <= j < a.buildings@.len() ==> #[trigger] b.buildings@[j]
        == building_after_drops(a.buildings@[j], a.colonists@, which, which.len() as int)
    &&& b.decon_sites == a.decon_sites
    &&& b.next_entity == a.next_entity
}

// ---------------------------------------------------------------------------
// Tasks that are given up
// ---------------------------------------------------------------------------

pub open spec fn is_hungry(c: ColonistState, content: &ContentRegistry) -> bool {
    c.statuses.contains_id(content.hungry_status)
}

pub open spec fn wants_sleep(c: ColonistState, content: &ContentRegistry) -> bool {
    c.statuses.contains_id(content.wants_sleep_status)
}

/// The cell that the colonist's task sends it to.
pub open spec fn task_target(c: ColonistState) -> (i32, i32) {
    (c.task.target_x, c.task.target_y)
}

/// A colonist that is building while hungry or sleepy stops building.
pub open spec fn preempts_build(c: ColonistState, content: &ContentRegistry) -> bool {
    c.task.kind == TaskKind::Build && (is_hungry(c, content) || wants_sleep(c, content))
}

/// The grid shows a berry bush at `(x, y)`, and the first building entity there has
/// berries left.
pub open spec fn bush_has_berries(bs: Seq<BuildingState>, grid: &WorldGrid, content: &ContentRegistry, x: i32, y: i32) -> bool {
    &&& grid.spec_building_at(x as int, y as int) == Some(content.berry_bush_building)
    &&& match first_building_from(bs, (x, y), 0) {
        Some(j) => bs[j].supply matches Some(s) && s.remaining > 0,
        None => false,
    }
}

/// An eating task whose bush is gone or empty.
pub open spec fn eat_invalid(c: ColonistState, bs: Seq<BuildingState>, grid: &WorldGrid, content: &ContentRegistry) -> bool {
    c.task.kind == TaskKind::Eat && !bush_has_berries(bs, grid, content, c.task.building_x, c.task.building_y)
}

/// An eating task whose stand the colonist cannot reach around the others.
pub open spec fn eat_unreachable(c: ColonistState, cols: Seq<ColonistState>, grid: &WorldGrid, content: &ContentRegistry) -> bool {
    c.task.kind == TaskKind::Eat && !reachable(grid, content, blocked_seq(cols, c.entity), c.cell, task_target(c))
}

/// A task whose path ran out before the colonist reached its target.
pub open spec fn stuck(c: ColonistState) -> bool {
    c.task.kind != TaskKind::Idle && c.cell != task_target(c) && c.path.done()
}

pub open spec fn preempt_marks(cols: Seq<ColonistState>, content: &ContentRegistry) -> Seq<bool> {
    Seq::new(cols.len(), |i: int| preempts_build(cols[i], content))
}

pub open spec fn eat_invalid_marks(cols: Seq<ColonistState>, bs: Seq<BuildingState>, grid: &WorldGrid, content: &ContentRegistry) -> Seq<bool> {
    Seq::new(cols.len(), |i: int| eat_invalid(cols[i], bs, grid, content))
}

pub open spec fn eat_unreachable_marks(cols: Seq<ColonistState>, grid: &WorldGrid, content: &ContentRegistry) -> Seq<bool> {
    Seq::new(cols.len(), |i: int| eat_unreachable(cols[i], cols, grid, content))
}

pub open spec fn stuck_marks(cols: Seq<ColonistState>) -> Seq<bool> {
    Seq::new(cols.len(), |i: int| stuck(cols[i]))
}

impl Colony {
    /// Colonists that are building while hungry or sleepy drop the site.
    pub fn preempt_build_for_critical_needs(&mut self, content: &ContentRegistry)
        ensures
            drops_applied(*old(self), *final(self), preempt_marks(old(self).colonists@, content)),
    {
        let mut which: Vec<bool> = Vec::new();
        let mut i: usize = 0;
        while i < self.colonists.len()
            invariant
                0 <= i <= self.colonists@.len(),
                which@ == preempt_marks(self.colonists@, content).take(i as int),
            decreases self.colonists@.len() - i,
        {
            let c = &self.colonists[i];
            let m = c.task.kind == TaskKind::Build && (c.statuses.has(content.hungry_status)
                || c.statuses.has(content.wants_sleep_status));
            which.push(m);
            proof {
                assert(which@ =~= preempt_marks(self.colonists@, content).take(i + 1));
            }
            i += 1;
        }
        assert(which@ =~= preempt_marks(self.colonists@, content));
        self.clear_tasks(&which);
    }

    /// Colonists whose bush is gone or has no berries left give up eating.
    pub fn release_unsatisfiable_eat_tasks(&mut self, grid: &WorldGrid, content: &ContentRegistry)
        requires
            grid.buildings@.len() == crate::world::GRID_CELLS,
        ensures
            drops_applied(*old(self), *final(self), eat_invalid_marks(old(self).colonists@, old(self).buildings@, grid, content)),
    {
        let mut which: Vec<bool> = Vec::new();
        let mut i: usize = 0;
        while i < self.colonists.len()
            invariant
                0 <= i <= self.colonists@.len(),
                grid.buildings@.len() == crate::world::GRID_CELLS,
                which@ == eat_invalid_marks(self.colonists@, self.buildings@, grid, content).take(i as int),
            decreases self.colonists@.len() - i,
        {
            let kind = self.colonists[i].task.kind;
            let bx = self.colonists[i].task.building_x;
            let by = self.colonists[i].task.building_y;
            let mut m = false;
            if kind == TaskKind::Eat {
                let on_grid = match grid.building_at(bx, by) {
                    Some(b) => b == content.berry_bush_building,
                    None => false,
                };
                let has_berries = match self.building_entity_at(bx, by) {
                    Some(j) => match self.buildings[j].supply {
                        Some(s) => s.remaining > 0,
                        None => false,
                    },
                    None => false,
                };
                m = !(on_grid && has_berries);
            }
            which.push(m);
            proof {
                assert(which@ =~= eat_invalid_marks(self.colonists@, self.buildings@, grid, content).take(i + 1));
            }
            i += 1;
        }
        assert(which@ =~= eat_invalid_marks(self.colonists@, self.buildings@, grid, content));
        self.clear_tasks(&which);
    }

    /// Colonists that can no longer reach their eating stand give up eating.
    pub fn release_unreachable_eat_tasks(&mut self, grid: &WorldGrid, content: &ContentRegistry, occ: &Occupancy)
        requires
            grid.wf(content),
            occ.wf(),
            forall|c: (i32, i32)| #[trigger] occ.at(c) == occupant(old(self).colonists@, c),
        ensures
            drops_applied(*old(self), *final(self), eat_unreachable_marks(old(self).colonists@, grid, content)),
    {
        let mut which: Vec<bool> = Vec::new();
        let mut i: usize = 0;
        while i < self.colonists.len()
            invariant
                0 <= i <= self.colonists@.len(),
                grid.wf(content),
                occ.wf(),
                forall|c: (i32, i32)| #[trigger] occ.at(c) == occupant(self.colonists@, c),
                which@ == eat_unreachable_marks(self.colonists@, grid, content).take(i as int),
            decreases self.colonists@.len() - i,
        {
            let mut m = false;
            if self.colonists[i].task.kind == TaskKind::Eat {
                let target = (self.colonists[i].task.target_x, self.colonists[i].task.target_y);
                let p = find_path_for_colonist(grid, content, &self.colonists, occ, self.colonists[i].cell, target, self.colonists[i].entity);
                m = p.is_none();
            }
            which.push(m);
            proof {
                assert(which@ =~= eat_unreachable_marks(self.colonists@, grid, content).take(i + 1));
            }
            i += 1;
        }
        assert(which@ =~= eat_unreachable_marks(self.colonists@, grid, content));
        self.clear_tasks(&which);
    }

    /// Colonists whose path ran out before they reached their target give up their
    /// task; says which of them were going to eat, who then look for a bed first.
    pub fn release_stuck_tasks(&mut self) -> (prefer_sleep_first: Vec<bool>)
        ensures
            drops_applied(*old(self), *final(self), stuck_marks(old(self).colonists@)),
            prefer_sleep_first@ == Seq::new(old(self).colonists@.len(), |i: int| stuck(old(self).colonists@[i])
                && old(self).colonists@[i].task.kind == TaskKind::Eat),
    {
        let mut which: Vec<bool> = Vec::new();
        let mut prefer: Vec<bool> = Vec::new();
        let ghost pm = Seq::new(self.colonists@.len(), |i: int| stuck(self.colonists@[i])
            && self.colonists@[i].task.kind == TaskKind::Eat);
        let mut i: usize = 0;
        while i < self.colonists.len()
            invariant
                0 <= i <= self.colonists@.len(),
                pm == Seq::new(self.colonists@.len(), |i: int| stuck(self.colonists@[i])
                    && self.colonists@[i].task.kind == TaskKind::Eat),
                which@ == stuck_marks(self.colonists@).take(i as int),
                prefer@ == pm.take(i as int),
            decreases self.colonists@.len() - i,
        {
            let c = &self.colonists[i];
            let m = c.task.kind != TaskKind::Idle && !(c.cell.0 == c.task.target_x && c.cell.1 == c.task.target_y)
                && c.path.index >= c.path.waypoints.len();
            which.push(m);
            prefer.push(m && c.task.kind == TaskKind::Eat);
            proof {
                assert(which@ =~= stuck_marks(self.colonists@).take(i + 1));
                assert(prefer@ =~= pm.take(i + 1));
            }
            i += 1;
        }
        assert(which@ =~= stuck_marks(self.colonists@));
        assert(prefer@ =~= pm);
        self.clear_tasks(&which);
        prefer
    }
}


// ---------------------------------------------------------------------------
// Paths handed to colonists
// ---------------------------------------------------------------------------

/// `wps` are the waypoints that lead from `from` to `target`: a route found around the
/// `blocked` cells, without its first cell; just `[target]` when the colonist is there.
pub open spec fn path_follows(
    grid: &WorldGrid,
    content: &ContentRegistry,
    blocked: Seq<(i32, i32)>,
    from: (i32, i32),
    target: (i32, i32),
    wps: Seq<(i32, i32)>,
) -> bool {
    ||| from == target && wps == seq![target]
    ||| from != target && is_route(grid, content, blocked, from, target, seq![from] + wps) && shortest(
        grid,
        content,
        blocked,
        from,
        target,
        seq![from] + wps,
    )
}

/// The waypoints that follow the first cell of `route`, or `[goal]` for a route of one cell.
pub fn waypoints_after_start(
    Ghost(grid): Ghost<&WorldGrid>,
    Ghost(content): Ghost<&ContentRegistry>,
    Ghost(blocked): Ghost<Seq<(i32, i32)>>,
    from: (i32, i32),
    goal: (i32, i32),
    route: &Vec<(i32, i32)>,
) -> (r: Vec<(i32, i32)>)
    requires
        is_route(grid, content, blocked, from, goal, route@),
        shortest(grid, content, blocked, from, goal, route@),
        from == goal ==> route@ == seq![goal],
    ensures
        path_follows(grid, content, blocked, from, goal, r@),
{
    if route.len() > 1 {
        let mut r: Vec<(i32, i32)> = Vec::new();
        let mut k: usize = 1;
        while k < route.len()
            invariant
                1 <= k <= route@.len(),
                r@ == route@.subrange(1, k as int),
            decreases route@.len() - k,
        {
            r.push(route[k]);
            k += 1;
        }
        proof {
            assert(seq![from] + r@ =~= route@);
            if from == goal {
                assert(route@.len() == 1);
            }
            assert(from != goal);
            assert(is_route(grid, content, blocked, from, goal, seq![from] + r@));
        }
        r
    } else {
        proof {
            if from != goal {
                assert(route@.len() == 1);
                assert(route@[0] == from && route@.last() == goal);
            }
        }
        let r = vec![goal];
        assert(r@ =~= seq![goal]);
        r
    }
}

// ---------------------------------------------------------------------------
// Chance
// ---------------------------------------------------------------------------

#[verifier::external_type_specification]
#[verifier::external_body]
pub struct ExRandomError(getrandom::Error);

/// Eight bytes from `getrandom::fill`, read as a little-endian `u64`, or the error that
/// `fill` reported. Nothing is claimed of the value: it comes from the system's
/// random source.
#[verifier::external_body]
fn random_u64() -> (r: Result<u64, getrandom::Error>) {
    let mut buf = [0u8; 8];
    match getrandom::fill(&mut buf) {
        Ok(()) => Ok(u64::from_le_bytes(buf)),
        Err(e) => Err(e),
    }
}

/// The index below `upper` that the drawn number `v` stands for: `v` modulo `upper`.
pub fn index_from_draw(v: u64, upper: usize) -> (r: usize)
    requires
        upper > 1,
    ensures
        r == v % (upper as u64),
        r < upper,
{
    (v % (upper as u64)) as usize
}

/// A random number below `upper` (0 when `upper <= 1`); 0 as well when the random
/// source fails. Otherwise it is `index_from_draw` of the number drawn.
pub fn random_usize(upper: usize) -> (r: usize)
    ensures
        upper <= 1 ==> r == 0,
        upper > 1 ==> r < upper,
{
    if upper <= 1 {
        return 0;
    }
    match random_u64() {
        Ok(v) => index_from_draw(v, upper),
        Err(_) => 0,
    }
}

/// `s` after the swaps of a Fisher–Yates shuffle from position `i` on: position `k`
/// is swapped with position `k + draws[k]`.
pub open spec fn shuffle_from(s: Seq<usize>, draws: Seq<usize>, i: int) -> Seq<usize>
    decreases s.len() - i,
{
    if i < 0 || i >= s.len() || i >= draws.len() || i + draws[i] >= s.len() {
        s
    } else {
        let j = i + draws[i];
        shuffle_from(s.update(i, s[j]).update(j, s[i]), draws, i + 1)
    }
}

/// The permutation of `0..len` that a Fisher–Yates shuffle with the given draws makes.
pub open spec fn fisher_yates(len: nat, draws: Seq<usize>) -> Seq<usize> {
    shuffle_from(Seq::new(len, |k: int| k as usize), draws, 0)
}

/// Draws fit for a shuffle of `len` items: one per position, the `i`th below `len - i`.
pub open spec fn draws_ok(len: nat, draws: Seq<usize>) -> bool {
    &&& draws.len() == len
    &&& forall|i: int| 0 <= i < len ==> #[trigger] draws[i] < len - i
}

/// The first `count` entries of the permutation of `0..len` that a Fisher–Yates
/// shuffle makes with `draws`.
pub fn permute_by_draws(len: usize, count: usize, draws: &Vec<usize>) -> (r: Vec<usize>)
    requires
        draws_ok(len as nat, draws@),
    ensures
        r@ == fisher_yates(len as nat, draws@).take(if count < len { count as int } else { len as int }),
        r@.len() == if count < len { count } else { len },
        forall|k: int| 0 <= k < r@.len() ==> #[trigger] r@[k] < len,
        forall|a: int, b: int| 0 <= a < b < r@.len() ==> r@[a] != r@[b],
{
    let mut idx: Vec<usize> = Vec::new();
    let mut k: usize = 0;
    while k < len
        invariant
            0 <= k <= len,
            idx@.len() == k,
            forall|j: int| 0 <= j < k ==> #[trigger] idx@[j] == j,
        decreases len - k,
    {
        idx.push(k);
        k += 1;
    }
    assert(idx@ =~= Seq::new(len as nat, |k: int| k as usize));
    let mut i: usize = 0;
    while i < len
        invariant
            0 <= i <= len,
            draws_ok(len as nat, draws@),
            idx@.len() == len,
            forall|j: int| 0 <= j < len ==> #[trigger] idx@[j] < len,
            forall|a: int, b: int| 0 <= a < b < len ==> idx@[a] != idx@[b],
            shuffle_from(idx@, draws@, i as int) == fisher_yates(len as nat, draws@),
        decreases len - i,
    {
        let j = i + draws[i];
        let a = idx[i];
        let b = idx[j];
        let ghost before = idx@;
        idx.set(i, b);
        idx.set(j, a);
        proof {
            assert(idx@ == before.update(i as int, before[j as int]).update(j as int, before[i as int]));
        }
        i += 1;
    }
    assert(shuffle_from(idx@, draws@, len as int) == idx@);
    idx.truncate(count);
    idx
}

/// The first `count` entries of a random permutation of `0..len`: a Fisher–Yates
/// shuffle whose `i`th draw is a random number below `len - i`.
pub fn shuffled_indices(len: usize, count: usize) -> (r: Vec<usize>)
    ensures
        exists|draws: Seq<usize>|
            #[trigger] draws_ok(len as nat, draws) && r@ == fisher_yates(len as nat, draws).take(
                if count < len { count as int } else { len as int },
            ),
        r@.len() == if count < len { count } else { len },
        forall|k: int| 0 <= k < r@.len() ==> #[trigger] r@[k] < len,
        forall|a: int, b: int| 0 <= a < b < r@.len() ==> r@[a] != r@[b],
{
    let mut draws: Vec<usize> = Vec::new();
    let mut i: usize = 0;
    while i < len
        invariant
            0 <= i <= len,
            draws@.len() == i,
            forall|k: int| 0 <= k < i ==> #[trigger] draws@[k] < len - k,
        decreases len - i,
    {
        let d = random_usize(len - i);
        draws.push(d);
        i += 1;
    }
    permute_by_draws(len, count, &draws)
}

// ---------------------------------------------------------------------------
// Wandering
// ---------------------------------------------------------------------------

/// A cell that an idle colonist of entity `e` at `from` may wander to: between
/// `WANDER_MIN_RADIUS` and `WANDER_RADIUS` steps away, walkable, and not taken by
/// another colonist.
pub open spec fn wander_ok(
    grid: &WorldGrid,
    content: &ContentRegistry,
    cols: Seq<ColonistState>,
    e: Entity,
    from: (i32, i32),
    cell: (i32, i32),
) -> bool {
    &&& WANDER_MIN_RADIUS <= manhattan(cell, from) <= WANDER_RADIUS
    &&& grid.spec_walkable(content, cell.0 as int, cell.1 as int)
    &&& (occupant(cols, cell) is None || occupant(cols, cell) == Some(e))
}

/// The cells where colonist `e` at `from` may wander.
pub open spec fn wander_cells(
    grid: &WorldGrid,
    content: &ContentRegistry,
    cols: Seq<ColonistState>,
    e: Entity,
    from: (i32, i32),
) -> Set<(i32, i32)> {
    Set::new(|c: (i32, i32)| wander_ok(grid, content, cols, e, from, c))
}

/// The cells where colonist `e` at `from` may wander but that it cannot reach around
/// the other colonists.
pub open spec fn wander_stuck(
    grid: &WorldGrid,
    content: &ContentRegistry,
    cols: Seq<ColonistState>,
    e: Entity,
    from: (i32, i32),
) -> Set<(i32, i32)> {
    Set::new(
        |c: (i32, i32)|
            wander_ok(grid, content, cols, e, from, c) && !reachable(
                grid,
                content,
                blocked_seq(cols, e),
                from,
                c,
            ),
    )
}

/// `c` lies in a row above `dy`, or in row `dy` left of column `dx`, counted from `from`.
spec fn scanned_before(from: (i32, i32), c: (i32, i32), dy: int, dx: int) -> bool {
    ||| c.1 - from.1 < dy
    ||| c.1 - from.1 == dy && c.0 - from.0 < dx
}

/// Every cell where the colonist may wander, each once, row by row.
fn wander_candidates(
    grid: &WorldGrid,
    content: &ContentRegistry,
    cols: &Vec<ColonistState>,
    occ: &Occupancy,
    from: (i32, i32),
    e: Entity,
) -> (candidates: Vec<(i32, i32)>)
    requires
        grid.wf(content),
        occ.wf(),
        forall|c: (i32, i32)| #[trigger] occ.at(c) == occupant(cols@, c),
    ensures
        candidates@.no_duplicates(),
        forall|c: (i32, i32)|
            #[trigger] candidates@.contains(c) <==> wander_ok(grid, content, cols@, e, from, c),
{
    let mut candidates: Vec<(i32, i32)> = Vec::new();
    let mut dy: i32 = -WANDER_RADIUS;
    while dy <= WANDER_RADIUS
        invariant
            -WANDER_RADIUS <= dy <= WANDER_RADIUS + 1,
            grid.wf(content),
            occ.wf(),
            forall|c: (i32, i32)| #[trigger] occ.at(c) == occupant(cols@, c),
            candidates@.no_duplicates(),
            forall|k: int|
                0 <= k < candidates@.len() ==> wander_ok(grid, content, cols@, e, from, #[trigger] candidates@[k])
                    && scanned_before(from, candidates@[k], dy as int, -WANDER_RADIUS as int),
            forall|c: (i32, i32)|
                wander_ok(grid, content, cols@, e, from, c) && scanned_before(from, c, dy as int, -WANDER_RADIUS as int)
                    ==> #[trigger] candidates@.contains(c),
        decreases WANDER_RADIUS + 1 - dy,
    {
        let mut dx: i32 = -WANDER_RADIUS;
        while dx <= WANDER_RADIUS
            invariant
                -WANDER_RADIUS <= dy <= WANDER_RADIUS,
                -WANDER_RADIUS <= dx <= WANDER_RADIUS + 1,
                grid.wf(content),
                occ.wf(),
                forall|c: (i32, i32)| #[trigger] occ.at(c) == occupant(cols@, c),
                candidates@.no_duplicates(),
                forall|k: int|
                    0 <= k < candidates@.len() ==> wander_ok(grid, content, cols@, e, from, #[trigger] candidates@[k])
                        && scanned_before(from, candidates@[k], dy as int, dx as int),
                forall|c: (i32, i32)|
                    wander_ok(grid, content, cols@, e, from, c) && scanned_before(from, c, dy as int, dx as int)
                        ==> #[trigger] candidates@.contains(c),
            decreases WANDER_RADIUS + 1 - dx,
        {
            let ghost old_c = candidates@;
            let ax = if dx < 0 { -dx } else { dx };
            let ay = if dy < 0 { -dy } else { dy };
            let dist = ax + ay;
            let cx = from.0 as i64 + dx as i64;
            let cy = from.1 as i64 + dy as i64;
            let ghost mut pushed = false;
            if dist >= WANDER_MIN_RADIUS && dist <= WANDER_RADIUS && 0 <= cx && cx < WORLD_SIZE as i64
                && 0 <= cy && cy < WORLD_SIZE as i64 {
                let cell = (cx as i32, cy as i32);
                if grid.is_walkable(content, cell.0, cell.1) {
                    let free = match occ.get(cell) {
                        Some(o) => o == e,
                        None => true,
                    };
                    if free {
                        proof {
                            assert(!old_c.contains(cell)) by {
                                if old_c.contains(cell) {
                                    let k = choose|k: int| 0 <= k < old_c.len() && old_c[k] == cell;
                                    assert(scanned_before(from, old_c[k], dy as int, dx as int));
                                }
                            }
                        }
                        candidates.push(cell);
                        proof {
                            pushed = true;
                            assert(candidates@ == old_c.push(cell));
                            assert(wander_ok(grid, content, cols@, e, from, cell));
                        }
                    }
                }
            }
            proof {
                assert forall|c: (i32, i32)|
                    wander_ok(grid, content, cols@, e, from, c) && scanned_before(from, c, dy as int, dx + 1)
                        implies #[trigger] candidates@.contains(c) by {
                    if scanned_before(from, c, dy as int, dx as int) {
                        assert(old_c.contains(c));
                        let k = choose|k: int| 0 <= k < old_c.len() && old_c[k] == c;
                        assert(candidates@[k] == c);
                    } else {
                        assert(c.0 == from.0 + dx && c.1 == from.1 + dy);
                        assert(pushed);
                        assert(candidates@[candidates@.len() - 1] == c);
                    }
                }
            }
            dx += 1;
        }
        dy += 1;
    }
    proof {
        assert forall|c: (i32, i32)|
            #[trigger] candidates@.contains(c) <==> wander_ok(grid, content, cols@, e, from, c) by {
            if candidates@.contains(c) {
                let k = choose|k: int| 0 <= k < candidates@.len() && candidates@[k] == c;
                assert(wander_ok(grid, content, cols@, e, from, candidates@[k]));
            }
        }
    }
    candidates
}

/// The cells that `order` picks from `candidates`, in that order.
spec fn picked(candidates: Seq<(i32, i32)>, order: Seq<usize>, n: int) -> Seq<(i32, i32)> {
    Seq::new(n as nat, |j: int| candidates[order[j] as int])
}

/// `n` distinct cells where the colonist may wander, none reachable, show that at
/// least `n` such cells exist.
proof fn lemma_stuck_at_least(
    grid: &WorldGrid,
    content: &ContentRegistry,
    cols: Seq<ColonistState>,
    e: Entity,
    from: (i32, i32),
    tried: Seq<(i32, i32)>,
)
    requires
        tried.no_duplicates(),
        wander_cells(grid, content, cols, e, from).finite(),
        forall|j: int|
            0 <= j < tried.len() ==> wander_ok(grid, content, cols, e, from, #[trigger] tried[j])
                && !reachable(grid, content, blocked_seq(cols, e), from, tried[j]),
    ensures
        wander_stuck(grid, content, cols, e, from).finite(),
        tried.len() <= wander_stuck(grid, content, cols, e, from).len(),
{
    let w = wander_cells(grid, content, cols, e, from);
    let st = wander_stuck(grid, content, cols, e, from);
    assert(st.subset_of(w));
    vstd::set_lib::lemma_len_subset(st, w);
    assert(tried.to_set().subset_of(st)) by {
        assert forall|c: (i32, i32)| #[trigger] tried.to_set().contains(c) implies st.contains(c) by {
            let j = choose|j: int| 0 <= j < tried.len() && tried[j] == c;
            assert(wander_ok(grid, content, cols, e, from, tried[j]));
        }
    }
    tried.unique_seq_to_set();
    vstd::set_lib::lemma_len_subset(tried.to_set(), st);
}

/// Waypoints to a random cell where the colonist may wander and that it can reach
/// around the others; up to `WANDER_PICK_ATTEMPTS` of those cells, in random order,
/// are tried. So the colonist finds a way whenever fewer of the cells than are tried
/// are out of reach, and finds none when every cell is out of reach; with at most
/// `WANDER_PICK_ATTEMPTS` cells, it finds one exactly when one is within reach.
pub fn pick_wander_target(
    grid: &WorldGrid,
    content: &ContentRegistry,
    cols: &Vec<ColonistState>,
    occ: &Occupancy,
    from: (i32, i32),
    e: Entity,
) -> (r: Option<Vec<(i32, i32)>>)
    requires
        grid.wf(content),
        occ.wf(),
        forall|c: (i32, i32)| #[trigger] occ.at(c) == occupant(cols@, c),
    ensures
        r matches Some(w) ==> {
            &&& w@.len() >= 1
            &&& wander_ok(grid, content, cols@, e, from, w@.last())
            &&& path_follows(grid, content, blocked_seq(cols@, e), from, w@.last(), w@)
        },
        wander_cells(grid, content, cols@, e, from).finite(),
        ({
            let stuck = wander_stuck(grid, content, cols@, e, from).len();
            stuck < wander_cells(grid, content, cols@, e, from).len() && stuck < WANDER_PICK_ATTEMPTS
                ==> r is Some
        }),
        (forall|c: (i32, i32)|
            #[trigger] wander_ok(grid, content, cols@, e, from, c) ==> !reachable(
                grid,
                content,
                blocked_seq(cols@, e),
                from,
                c,
            )) ==> r is None,
        wander_cells(grid, content, cols@, e, from).len() <= WANDER_PICK_ATTEMPTS ==> (r is Some <==> exists|c: (i32, i32)|
            #[trigger] wander_ok(grid, content, cols@, e, from, c) && reachable(
                grid,
                content,
                blocked_seq(cols@, e),
                from,
                c,
            )),
{
    let candidates = wander_candidates(grid, content, cols, occ, from, e);
    let ghost wc = wander_cells(grid, content, cols@, e, from);
    let ghost ws = wander_stuck(grid, content, cols@, e, from);
    let ghost bl = blocked_seq(cols@, e);
    proof {
        assert(wc =~= candidates@.to_set());
        vstd::seq_lib::seq_to_set_is_finite(candidates@);
        candidates@.unique_seq_to_set();
        assert(wc.len() == candidates@.len());
        assert(ws.subset_of(wc));
        vstd::set_lib::lemma_len_subset(ws, wc);
    }
    if candidates.len() == 0 {
        proof {
            assert forall|c: (i32, i32)|
                #[trigger] wander_ok(grid, content, cols@, e, from, c) implies !reachable(grid, content, bl, from, c) by {
                assert(candidates@.contains(c));
            }
        }
        return None;
    }
    assert forall|j: int| 0 <= j < candidates@.len() implies wander_ok(
        grid,
        content,
        cols@,
        e,
        from,
        #[trigger] candidates@[j],
    ) by {
        assert(candidates@.contains(candidates@[j]));
    }
    let attempts = if WANDER_PICK_ATTEMPTS < candidates.len() {
        WANDER_PICK_ATTEMPTS
    } else {
        candidates.len()
    };
    let order = shuffled_indices(candidates.len(), attempts);
    let mut k: usize = 0;
    while k < order.len()
        invariant
            0 <= k <= order@.len(),
            order@.len() == attempts,
            grid.wf(content),
            occ.wf(),
            forall|c: (i32, i32)| #[trigger] occ.at(c) == occupant(cols@, c),
            forall|j: int| 0 <= j < order@.len() ==> #[trigger] order@[j] < candidates@.len(),
            forall|a: int, b: int| 0 <= a < b < order@.len() ==> order@[a] != order@[b],
            forall|j: int|
                0 <= j < candidates@.len() ==> wander_ok(grid, content, cols@, e, from, #[trigger] candidates@[j]),
            forall|j: int|
                0 <= j < k ==> !reachable(grid, content, bl, from, #[trigger] candidates@[order@[j] as int]),
            bl == blocked_seq(cols@, e),
            wander_cells(grid, content, cols@, e, from).finite(),
        decreases order@.len() - k,
    {
        let target = candidates[order[k]];
        assert(wander_ok(grid, content, cols@, e, from, candidates@[order@[k as int] as int]));
        if let Some(route) = find_path_for_colonist(grid, content, cols, occ, from, target, e) {
            let w = waypoints_after_start(Ghost(grid), Ghost(content), Ghost(blocked_seq(cols@, e)), from, target, &route);
            proof {
                assert(from != target);
                assert(w@.last() == target) by {
                    assert((seq![from] + w@).last() == target);
                }
                assert(reachable(grid, content, bl, from, target));
            }
            return Some(w);
        }
        k += 1;
    }
    proof {
        let tried = picked(candidates@, order@, attempts as int);
        assert forall|a: int, b: int| 0 <= a < tried.len() && 0 <= b < tried.len() && a != b implies tried[a]
            != tried[b] by {
            if a < b {
                assert(order@[a] != order@[b]);
            } else {
                assert(order@[b] != order@[a]);
            }
        }
        assert forall|j: int| 0 <= j < tried.len() implies wander_ok(grid, content, cols@, e, from, #[trigger] tried[j])
            && !reachable(grid, content, blocked_seq(cols@, e), from, tried[j]) by {
            assert(wander_ok(grid, content, cols@, e, from, candidates@[order@[j] as int]));
            assert(!reachable(grid, content, bl, from, candidates@[order@[j] as int]));
        }
        lemma_stuck_at_least(grid, content, cols@, e, from, tried);
        if wc.len() <= WANDER_PICK_ATTEMPTS {
            assert forall|c: (i32, i32)|
                #[trigger] wander_ok(grid, content, cols@, e, from, c) implies !reachable(grid, content, bl, from, c) by {
                if !ws.contains(c) {
                    ws.lemma_subset_not_in_lt(wc, c);
                }
            }
        }
    }
    None
}

// ---------------------------------------------------------------------------
// Choosing a bed, a bush or a site
// ---------------------------------------------------------------------------

pub fn contains_index(v: &Vec<usize>, x: usize) -> (r: bool)
    ensures
        r == v@.contains(x),
{
    let mut k: usize = 0;
    while k < v.len()
        invariant
            0 <= k <= v@.len(),
            forall|j: int| 0 <= j < k ==> v@[j] != x,
        decreases v@.len() - k,
    {
        if v[k] == x {
            return true;
        }
        k += 1;
    }
    false
}

pub fn contains_cell(v: &Vec<(i32, i32)>, c: (i32, i32)) -> (r: bool)
    ensures
        r == listed(v@, c.0 as int, c.1 as int),
{
    let mut k: usize = 0;
    while k < v.len()
        invariant
            0 <= k <= v@.len(),
            forall|j: int| 0 <= j < k ==> !(v@[j].0 == c.0 && v@[j].1 == c.1),
        decreases v@.len() - k,
    {
        if v[k].0 == c.0 && v[k].1 == c.1 {
            return true;
        }
        k += 1;
    }
    false
}

/// Some colonist stands on `cell`, by the occupancy map.
pub fn occupied(occ: &Occupancy, cell: (i32, i32)) -> (r: bool)
    ensures
        r == (occ.at(cell) is Some),
{
    let mut k: usize = 0;
    while k < occ.entries.len()
        invariant
            0 <= k <= occ.entries@.len(),
            forall|j: int| 0 <= j < k ==> occ.entries@[j].0 != cell,
        decreases occ.entries@.len() - k,
    {
        if occ.entries[k].0.0 == cell.0 && occ.entries[k].0.1 == cell.1 {
            assert(occ.entries@[k as int].0 == cell);
            return true;
        }
        k += 1;
    }
    false
}

/// A stand beside a bush that nobody stands on and nobody was sent to this round.
pub open spec fn stand_free(occ: &Occupancy, reserved_stands: Seq<(i32, i32)>, stand: (i32, i32)) -> bool {
    !listed(reserved_stands, stand.0 as int, stand.1 as int) && occ.at(stand) is None
}

pub fn stand_available_for_eat(stand: (i32, i32), occ: &Occupancy, reserved_stands: &Vec<(i32, i32)>) -> (r: bool)
    ensures
        r == stand_free(occ, reserved_stands@, stand),
{
    !contains_cell(reserved_stands, stand) && !occupied(occ, stand)
}

/// `s` is one of the four cells beside `b`.
pub open spec fn beside(b: (i32, i32), s: (i32, i32)) -> bool {
    exists|k: int| 0 <= k < 4 && s.0 == b.0 + dir(k).0 && s.1 == b.1 + dir(k).1
}

/// Some cell beside `b` is walkable and can be reached from `from`.
pub open spec fn has_stand(grid: &WorldGrid, content: &ContentRegistry, b: (i32, i32), from: (i32, i32)) -> bool {
    exists|k: int|
        0 <= k < 4 && #[trigger] grid.spec_walkable(content, b.0 + dir(k).0, b.1 + dir(k).1)
            && reachable(grid, content, Seq::empty(), from, ((b.0 + dir(k).0) as i32, (b.1 + dir(k).1) as i32))
}

/// `b` is entry `k` of `beds`, not reserved, nearest to `from` among the beds that
/// are not reserved, and the first such.
pub open spec fn nearest_bed_at(beds: Seq<(usize, i32, i32)>, reserved: Seq<usize>, from: (i32, i32), b: (usize, i32, i32), k: int) -> bool {
    &&& 0 <= k < beds.len()
    &&& beds[k] == b
    &&& !reserved.contains(b.0)
    &&& forall|j: int| 0 <= j < beds.len() && !reserved.contains(#[trigger] beds[j].0) ==> manhattan((b.1, b.2), from)
        <= manhattan((beds[j].1, beds[j].2), from)
    &&& forall|j: int| 0 <= j < k && !reserved.contains(#[trigger] beds[j].0) ==> manhattan((b.1, b.2), from)
        < manhattan((beds[j].1, beds[j].2), from)
}

/// The free bed nearest to `from` by Manhattan distance; the first such on a tie.
pub fn nearest_free_bed(from: (i32, i32), beds: &Vec<(usize, i32, i32)>, reserved: &Vec<usize>) -> (r: Option<(usize, i32, i32)>)
    ensures
        r matches Some(b) ==> exists|k: int| nearest_bed_at(beds@, reserved@, from, b, k),
        r is None <==> forall|j: int| 0 <= j < beds@.len() ==> reserved@.contains(#[trigger] beds@[j].0),
{
    let mut best: Option<(usize, i32, i32)> = None;
    let mut best_k: usize = 0;
    let mut best_d: i64 = 0;
    let mut j: usize = 0;
    while j < beds.len()
        invariant
            0 <= j <= beds@.len(),
            best is None ==> forall|i: int| 0 <= i < j ==> reserved@.contains(#[trigger] beds@[i].0),
            best matches Some(b) ==> {
                &&& best_k < j
                &&& beds@[best_k as int] == b
                &&& !reserved@.contains(b.0)
                &&& best_d == manhattan((b.1, b.2), from)
                &&& forall|i: int| 0 <= i < j && !reserved@.contains(#[trigger] beds@[i].0) ==> best_d
                    <= manhattan((beds@[i].1, beds@[i].2), from)
                &&& forall|i: int| 0 <= i < best_k && !reserved@.contains(#[trigger] beds@[i].0) ==> best_d
                    < manhattan((beds@[i].1, beds@[i].2), from)
            },
        decreases beds@.len() - j,
    {
        let bed = beds[j];
        if !contains_index(reserved, bed.0) {
            let d = manhattan_exec((bed.1, bed.2), from);
            let better = match best {
                Some(_) => d < best_d,
                None => true,
            };
            if better {
                best = Some(bed);
                best_k = j;
                best_d = d;
            }
        }
        j += 1;
    }
    proof {
        if let Some(b) = best {
            assert(nearest_bed_at(beds@, reserved@, from, b, best_k as int));
        }
    }
    best
}

/// The nearest open site (by Manhattan distance, the first on a tie) that has a cell
/// beside it that `from` can reach; with the site's cell and the stand that
/// `best_adjacent_stand` picks.
pub fn nearest_build_assignment(
    grid: &WorldGrid,
    content: &ContentRegistry,
    from: (i32, i32),
    sites: &Vec<(usize, i32, i32)>,
    reserved: &Vec<usize>,
) -> (r: Option<(usize, (i32, i32), (i32, i32))>)
    requires
        grid.wf(content),
    ensures
        r matches Some(a) ==> exists|k: int| {
            &&& 0 <= k < sites@.len()
            &&& sites@[k] == (a.0, a.1.0, a.1.1)
            &&& !reserved@.contains(a.0)
            &&& beside(a.1, a.2)
            &&& grid.spec_walkable(content, a.2.0 as int, a.2.1 as int)
            &&& reachable(grid, content, Seq::empty(), from, a.2)
            &&& first_nearest_stand(grid, content, a.1, from, a.2)
            &&& forall|j: int|
                0 <= j < sites@.len() && !reserved@.contains(#[trigger] sites@[j].0) && (manhattan(
                    (sites@[j].1, sites@[j].2),
                    from,
                ) < manhattan(a.1, from) || (manhattan((sites@[j].1, sites@[j].2), from) == manhattan(a.1, from)
                    && j < k)) ==> !has_stand(grid, content, (sites@[j].1, sites@[j].2), from)
        },
        r is None ==> forall|j: int|
            0 <= j < sites@.len() && !reserved@.contains(#[trigger] sites@[j].0) ==> !has_stand(
                grid,
                content,
                (sites@[j].1, sites@[j].2),
                from,
            ),
{
    let mut best: Option<(usize, (i32, i32), (i32, i32))> = None;
    let mut best_k: usize = 0;
    let mut best_d: i64 = 0;
    let mut j: usize = 0;
    while j < sites.len()
        invariant
            0 <= j <= sites@.len(),
            grid.wf(content),
            best is None ==> forall|i: int|
                0 <= i < j && !reserved@.contains(#[trigger] sites@[i].0) ==> !has_stand(
                    grid,
                    content,
                    (sites@[i].1, sites@[i].2),
                    from,
                ),
            best matches Some(a) ==> {
                &&& best_k < j
                &&& sites@[best_k as int] == (a.0, a.1.0, a.1.1)
                &&& !reserved@.contains(a.0)
                &&& beside(a.1, a.2)
                &&& grid.spec_walkable(content, a.2.0 as int, a.2.1 as int)
                &&& reachable(grid, content, Seq::empty(), from, a.2)
                &&& first_nearest_stand(grid, content, a.1, from, a.2)
                &&& best_d == manhattan(a.1, from)
                &&& forall|i: int|
                    0 <= i < j && !reserved@.contains(#[trigger] sites@[i].0) && (manhattan(
                        (sites@[i].1, sites@[i].2),
                        from,
                    ) < best_d || (manhattan((sites@[i].1, sites@[i].2), from) == best_d && i < best_k))
                        ==> !has_stand(grid, content, (sites@[i].1, sites@[i].2), from)
            },
        decreases sites@.len() - j,
    {
        let site = sites[j];
        if !contains_index(reserved, site.0) {
            let d = manhattan_exec((site.1, site.2), from);
            let worth = match best {
                Some(_) => d < best_d,
                None => true,
            };
            if worth {
                match best_adjacent_stand(grid, content, (site.1, site.2), from) {
                    Some(stand) => {
                        best = Some((site.0, (site.1, site.2), stand));
                        best_k = j;
                        best_d = d;
                        proof {
                            let k = choose|k: int| 0 <= k < 4 && stand.0 == site.1 + dir(k).0 && stand.1 == site.2 + dir(k).1;
                            assert(beside((site.1, site.2), stand));
                        }
                    },
                    None => {
                        proof {
                            if has_stand(grid, content, (site.1, site.2), from) {
                                let k = choose|k: int|
                                    0 <= k < 4 && #[trigger] grid.spec_walkable(content, site.1 + dir(k).0, site.2 + dir(k).1)
                                        && reachable(grid, content, Seq::empty(), from, ((site.1 + dir(k).0) as i32, (site.2 + dir(k).1) as i32));
                                assert(false);
                            }
                        }
                    },
                }
            }
        }
        j += 1;
    }
    proof {
        if let Some(a) = best {
            assert(sites@[best_k as int] == (a.0, a.1.0, a.1.1));
        }
    }
    best
}

/// Stand `s` is not claimed by an earlier eater this round and no colonist of `cols`
/// stands on it.
pub open spec fn stand_unclaimed(cols: Seq<ColonistState>, reserved_stands: Seq<(i32, i32)>, s: (i32, i32)) -> bool {
    !listed(reserved_stands, s.0 as int, s.1 as int) && occupant(cols, s) is None
}

/// `s` is the stand that `best_adjacent_stand_filtered` picks beside `bush` for a
/// colonist at `from` when the free stands are those that `stand_free` accepts.
pub open spec fn eat_stand_pick(
    grid: &WorldGrid,
    content: &ContentRegistry,
    cols: Seq<ColonistState>,
    reserved_stands: Seq<(i32, i32)>,
    bush: (i32, i32),
    from: (i32, i32),
    s: (i32, i32),
) -> bool {
    exists|k: int|
        0 <= k < 4 && s == stand_cell(bush, k) && stand_open(grid, content, bush, from, k) && stand_unclaimed(cols,
            reserved_stands,
            s,
        ) && forall|j: int|
            0 <= j < 4 && #[trigger] stand_open(grid, content, bush, from, j) && stand_unclaimed(cols,
                reserved_stands,
                stand_cell(bush, j),
            ) ==> !stand_before(grid, content, bush, from, j, k)
}

/// Bush `bush` offers the colonist `e` at `from` the stand `s`: the free stand picked
/// beside it, which it can also reach around the other colonists.
pub open spec fn eat_option(
    grid: &WorldGrid,
    content: &ContentRegistry,
    cols: Seq<ColonistState>,
    e: Entity,
    reserved_stands: Seq<(i32, i32)>,
    bush: (i32, i32),
    from: (i32, i32),
    s: (i32, i32),
) -> bool {
    &&& eat_stand_pick(grid, content, cols, reserved_stands, bush, from, s)
    &&& reachable(grid, content, blocked_seq(cols, e), from, s)
}

/// Bush `bush` offers the colonist no stand.
pub open spec fn no_eat_option(
    grid: &WorldGrid,
    content: &ContentRegistry,
    cols: Seq<ColonistState>,
    e: Entity,
    reserved_stands: Seq<(i32, i32)>,
    bush: (i32, i32),
    from: (i32, i32),
) -> bool {
    forall|s: (i32, i32)| !#[trigger] eat_option(grid, content, cols, e, reserved_stands, bush, from, s)
}

/// The pick is unique.
proof fn lemma_eat_pick_unique(
    grid: &WorldGrid,
    content: &ContentRegistry,
    cols: Seq<ColonistState>,
    reserved_stands: Seq<(i32, i32)>,
    bush: (i32, i32),
    from: (i32, i32),
    s1: (i32, i32),
    s2: (i32, i32),
)
    requires
        eat_stand_pick(grid, content, cols, reserved_stands, bush, from, s1),
        eat_stand_pick(grid, content, cols, reserved_stands, bush, from, s2),
    ensures
        s1 == s2,
{
    let k1 = choose|k: int|
        0 <= k < 4 && s1 == stand_cell(bush, k) && stand_open(grid, content, bush, from, k) && stand_unclaimed(cols,
            reserved_stands,
            s1,
        ) && forall|j: int|
            0 <= j < 4 && #[trigger] stand_open(grid, content, bush, from, j) && stand_unclaimed(cols,
                reserved_stands,
                stand_cell(bush, j),
            ) ==> !stand_before(grid, content, bush, from, j, k);
    let k2 = choose|k: int|
        0 <= k < 4 && s2 == stand_cell(bush, k) && stand_open(grid, content, bush, from, k) && stand_unclaimed(cols,
            reserved_stands,
            s2,
        ) && forall|j: int|
            0 <= j < 4 && #[trigger] stand_open(grid, content, bush, from, j) && stand_unclaimed(cols,
                reserved_stands,
                stand_cell(bush, j),
            ) ==> !stand_before(grid, content, bush, from, j, k);
    assert(!stand_before(grid, content, bush, from, k1, k2));
    assert(!stand_before(grid, content, bush, from, k2, k1));
}

/// The nearest bush (by Manhattan distance, the first on a tie) that offers the
/// colonist a stand (`eat_option`); with that stand.
#[verifier::spinoff_prover]
#[verifier::rlimit(40)]
pub fn nearest_eat_assignment(
    grid: &WorldGrid,
    content: &ContentRegistry,
    cols: &Vec<ColonistState>,
    occ: &Occupancy,
    from: (i32, i32),
    e: Entity,
    bushes: &Vec<(i32, i32)>,
    reserved_stands: &Vec<(i32, i32)>,
) -> (r: Option<((i32, i32), (i32, i32))>)
    requires
        grid.wf(content),
        occ.wf(),
        forall|c: (i32, i32)| #[trigger] occ.at(c) == occupant(cols@, c),
    ensures
        r matches Some(a) ==> {
            &&& exists|k: int| 0 <= k < bushes@.len() && bushes@[k] == a.0
            &&& beside(a.0, a.1)
            &&& grid.spec_walkable(content, a.1.0 as int, a.1.1 as int)
            &&& stand_free(occ, reserved_stands@, a.1)
            &&& reachable(grid, content, Seq::empty(), from, a.1)
            &&& reachable(grid, content, blocked_seq(cols@, e), from, a.1)
            &&& exists|k: int| {
                &&& 0 <= k < bushes@.len()
                &&& bushes@[k] == a.0
                &&& eat_option(grid, content, cols@, e, reserved_stands@, a.0, from, a.1)
                &&& forall|j: int|
                    0 <= j < bushes@.len() && (manhattan(#[trigger] bushes@[j], from) < manhattan(a.0, from) || (
                    manhattan(bushes@[j], from) == manhattan(a.0, from) && j < k)) ==> no_eat_option(
                        grid,
                        content,
                        cols@,
                        e,
                        reserved_stands@,
                        bushes@[j],
                        from,
                    )
            }
        },
        r is None ==> forall|j: int|
            0 <= j < bushes@.len() ==> no_eat_option(
                grid,
                content,
                cols@,
                e,
                reserved_stands@,
                #[trigger] bushes@[j],
                from,
            ),
{
    let avail = |stand: (i32, i32)| -> (b: bool)
        ensures
            b == stand_free(occ, reserved_stands@, stand),
        { stand_available_for_eat(stand, occ, reserved_stands) };
    let blocked = colonist_blocked_cells(cols, occ, e);
    proof {
        assert forall|c: (i32, i32), b: bool| call_ensures(avail, (c,), b) implies b == stand_unclaimed(
            cols@,
            reserved_stands@,
            c,
        ) by {
            assert(occ.at(c) == occupant(cols@, c));
        }
    }
    let mut best: Option<((i32, i32), (i32, i32))> = None;
    let mut best_d: i64 = 0;
    let mut best_k: usize = 0;
    let mut j: usize = 0;
    while j < bushes.len()
        invariant
            0 <= j <= bushes@.len(),
            grid.wf(content),
            blocked@ == blocked_seq(cols@, e),
            forall|c: (i32, i32)| #[trigger] call_requires(avail, (c,)),
            forall|c: (i32, i32), b: bool| call_ensures(avail, (c,), b) ==> b == stand_unclaimed(cols@, reserved_stands@, c),
            forall|c: (i32, i32)| #[trigger] occ.at(c) == occupant(cols@, c),
            best matches Some(a) ==> {
                &&& best_k < j
                &&& bushes@[best_k as int] == a.0
                &&& beside(a.0, a.1)
                &&& grid.spec_walkable(content, a.1.0 as int, a.1.1 as int)
                &&& stand_free(occ, reserved_stands@, a.1)
                &&& reachable(grid, content, Seq::empty(), from, a.1)
                &&& reachable(grid, content, blocked_seq(cols@, e), from, a.1)
                &&& eat_option(grid, content, cols@, e, reserved_stands@, a.0, from, a.1)
                &&& best_d == manhattan(a.0, from)
                &&& forall|i: int|
                    0 <= i < j && (manhattan(#[trigger] bushes@[i], from) < best_d || (manhattan(bushes@[i], from)
                        == best_d && i < best_k)) ==> no_eat_option(
                        grid,
                        content,
                        cols@,
                        e,
                        reserved_stands@,
                        bushes@[i],
                        from,
                    )
            },
            best is None ==> forall|i: int|
                0 <= i < j ==> no_eat_option(
                    grid,
                    content,
                    cols@,
                    e,
                    reserved_stands@,
                    #[trigger] bushes@[i],
                    from,
                ),
        decreases bushes@.len() - j,
    {
        let bush = bushes[j];
        let d = manhattan_exec(bush, from);
        let worth = match best {
            Some(_) => d < best_d,
            None => true,
        };
        if worth {
            let pick = best_adjacent_stand_filtered(grid, content, bush, from, avail);
            proof {
                lemma_pick_or_none(grid, content, cols@, e, reserved_stands@, bush, from, avail, pick);
            }
            let mut found = false;
            if let Some(stand) = pick {
                if find_path_avoiding(grid, content, from, stand, blocked.as_slice()).is_some() {
                    proof {
                        let k = choose|k: int| 0 <= k < 4 && stand.0 == bush.0 + dir(k).0 && stand.1 == bush.1 + dir(k).1;
                        assert(beside(bush, stand));
                        assert(bushes@[j as int] == bush);
                    }
                    best = Some((bush, stand));
                    best_d = d;
                    best_k = j;
                    found = true;
                }
            }
            proof {
                if !found {
                    assert(no_eat_option(grid, content, cols@, e, reserved_stands@, bush, from));
                }
            }
        }
        proof {
            assert(bushes@[j as int] == bush);
        }
        j += 1;
    }
    best
}

/// What `best_adjacent_stand_filtered` returned, with the stand filter `avail`, tells
/// whether a bush offers a stand: if it found none, none; if it found `s`, then `s` is
/// the pick, and any offer is of `s`.
proof fn lemma_pick_or_none<F: Fn((i32, i32)) -> bool>(
    grid: &WorldGrid,
    content: &ContentRegistry,
    cols: Seq<ColonistState>,
    e: Entity,
    reserved_stands: Seq<(i32, i32)>,
    bush: (i32, i32),
    from: (i32, i32),
    avail: F,
    pick: Option<(i32, i32)>,
)
    requires
        forall|c: (i32, i32), b: bool| call_ensures(avail, (c,), b) ==> b == stand_unclaimed(cols, reserved_stands, c),
        pick matches Some(s) ==> exists|k: int| {
            &&& 0 <= k < 4
            &&& s == stand_cell(bush, k)
            &&& s.0 == bush.0 + dir(k).0 && s.1 == bush.1 + dir(k).1
            &&& stand_open(grid, content, bush, from, k)
            &&& grid.spec_walkable(content, s.0 as int, s.1 as int)
            &&& call_ensures(avail, (s,), true)
            &&& reachable(grid, content, Seq::empty(), from, s)
            &&& forall|j: int|
                0 <= j < 4 && #[trigger] stand_open(grid, content, bush, from, j) && stand_before(
                    grid,
                    content,
                    bush,
                    from,
                    j,
                    k,
                ) ==> call_ensures(avail, (stand_cell(bush, j),), false)
        },
        pick is None ==> forall|k: int|
            0 <= k < 4 && #[trigger] grid.spec_walkable(content, bush.0 + dir(k).0, bush.1 + dir(k).1)
                && reachable(
                grid,
                content,
                Seq::empty(),
                from,
                ((bush.0 + dir(k).0) as i32, (bush.1 + dir(k).1) as i32),
            ) ==> call_ensures(avail, (((bush.0 + dir(k).0) as i32, (bush.1 + dir(k).1) as i32),), false),
    ensures
        pick is None ==> no_eat_option(grid, content, cols, e, reserved_stands, bush, from),
        pick matches Some(s) ==> eat_stand_pick(grid, content, cols, reserved_stands, bush, from, s),
        pick matches Some(s) ==> forall|t: (i32, i32)|
            #[trigger] eat_option(grid, content, cols, e, reserved_stands, bush, from, t) ==> t == s,
{
    match pick {
        None => {
            assert forall|s: (i32, i32)| !#[trigger] eat_option(grid, content, cols, e, reserved_stands, bush, from, s) by {
                if eat_option(grid, content, cols, e, reserved_stands, bush, from, s) {
                    let k = choose|k: int|
                        0 <= k < 4 && s == stand_cell(bush, k) && stand_open(grid, content, bush, from, k) && stand_unclaimed(cols,
                            reserved_stands,
                            s,
                        ) && forall|j: int|
                            0 <= j < 4 && #[trigger] stand_open(grid, content, bush, from, j) && stand_unclaimed(cols,
                                reserved_stands,
                                stand_cell(bush, j),
                            ) ==> !stand_before(grid, content, bush, from, j, k);
                    assert(grid.spec_walkable(content, bush.0 + dir(k).0, bush.1 + dir(k).1));
                }
            }
        },
        Some(s) => {
            let k = choose|k: int| {
                &&& 0 <= k < 4
                &&& s == stand_cell(bush, k)
                &&& s.0 == bush.0 + dir(k).0 && s.1 == bush.1 + dir(k).1
                &&& stand_open(grid, content, bush, from, k)
                &&& grid.spec_walkable(content, s.0 as int, s.1 as int)
                &&& call_ensures(avail, (s,), true)
                &&& reachable(grid, content, Seq::empty(), from, s)
                &&& forall|j: int|
                    0 <= j < 4 && #[trigger] stand_open(grid, content, bush, from, j) && stand_before(
                        grid,
                        content,
                        bush,
                        from,
                        j,
                        k,
                    ) ==> call_ensures(avail, (stand_cell(bush, j),), false)
            };
            assert forall|j: int|
                0 <= j < 4 && #[trigger] stand_open(grid, content, bush, from, j) && stand_unclaimed(cols,
                    reserved_stands,
                    stand_cell(bush, j),
                ) implies !stand_before(grid, content, bush, from, j, k) by {
                if stand_before(grid, content, bush, from, j, k) {
                    assert(call_ensures(avail, (stand_cell(bush, j),), false));
                }
            }
            assert(eat_stand_pick(grid, content, cols, reserved_stands, bush, from, s));
            assert forall|t: (i32, i32)| #[trigger]
                eat_option(grid, content, cols, e, reserved_stands, bush, from, t) implies t == s by {
                lemma_eat_pick_unique(grid, content, cols, reserved_stands, bush, from, t, s);
            }
        },
    }
}


// ---------------------------------------------------------------------------
// All tasks given up in one round
// ---------------------------------------------------------------------------

/// The colonist's task is given up this round: it is building while hungry or
/// sleepy, its bush is gone or empty, its stand is out of reach, or its path ran out.
pub open spec fn task_dropped(c: ColonistState, cols: Seq<ColonistState>, bs: Seq<BuildingState>, grid: &WorldGrid, content: &ContentRegistry) -> bool {
    ||| preempts_build(c, content)
    ||| eat_invalid(c, bs, grid, content)
    ||| eat_unreachable(c, cols, grid, content)
    ||| stuck(c)
}

/// `b` is building `a`, or `a` with its claim dropped.
pub open spec fn building_or_unclaimed(a: BuildingState, b: BuildingState) -> bool {
    ||| b == a
    ||| b == BuildingState { occupancy: Some(BedOccupancy { reserved_by: None }), ..a }
}

/// `b` is site `a`, or `a` with its claim dropped.
pub open spec fn site_or_unclaimed(a: SiteState, b: SiteState) -> bool {
    ||| b == a
    ||| b == SiteState { site: ConstructionSite { reserved_by: None, ..a.site }, ..a }
}

/// `mid` is `old` once every task that `task_dropped` picks was given up; claims on
/// beds and sites were only dropped.
pub open spec fn releases_done(old: Colony, mid: Colony, grid: &WorldGrid, content: &ContentRegistry) -> bool {
    &&& mid.colonists@.len() == old.colonists@.len()
    &&& forall|i: int| 0 <= i < old.colonists@.len() ==> if task_dropped(old.colonists@[i], old.colonists@, old.buildings@, grid, content) {
        cleared(old.colonists@[i], #[trigger] mid.colonists@[i])
    } else {
        mid.colonists@[i] == old.colonists@[i]
    }
    &&& mid.buildings@.len() == old.buildings@.len()
    &&& forall|j: int| 0 <= j < old.buildings@.len() ==> building_or_unclaimed(old.buildings@[j], #[trigger] mid.buildings@[j])
    &&& mid.sites@.len() == old.sites@.len()
    &&& forall|j: int| 0 <= j < old.sites@.len() ==> site_or_unclaimed(old.sites@[j], #[trigger] mid.sites@[j])
    &&& mid.decon_sites == old.decon_sites
    &&& mid.next_entity == old.next_entity
}

/// Two building lists that differ at most in their claims.
pub open spec fn same_stock(a: Seq<BuildingState>, b: Seq<BuildingState>) -> bool {
    &&& a.len() == b.len()
    &&& forall|j: int| 0 <= j < a.len() ==> #[trigger] a[j].cell == b[j].cell && a[j].kind == b[j].kind && a[j].supply == b[j].supply
}

proof fn lemma_same_stock_first(a: Seq<BuildingState>, b: Seq<BuildingState>, cell: (i32, i32), k: int)
    requires
        same_stock(a, b),
    ensures
        first_building_from(a, cell, k) == first_building_from(b, cell, k),
    decreases a.len() - k,
{
    if 0 <= k < a.len() {
        assert(a[k].cell == b[k].cell);
        lemma_same_stock_first(a, b, cell, k + 1);
    }
}

proof fn lemma_same_stock_berries(a: Seq<BuildingState>, b: Seq<BuildingState>, grid: &WorldGrid, content: &ContentRegistry, x: i32, y: i32)
    requires
        same_stock(a, b),
    ensures
        bush_has_berries(a, grid, content, x, y) == bush_has_berries(b, grid, content, x, y),
{
    lemma_same_stock_first(a, b, (x, y), 0);
    if let Some(j) = first_building_from(a, (x, y), 0) {
        lemma_first_in_range(a, (x, y), 0);
        assert(a[j].supply == b[j].supply);
    }
}

pub proof fn lemma_first_in_range(a: Seq<BuildingState>, cell: (i32, i32), k: int)
    ensures
        first_building_from(a, cell, k) matches Some(j) ==> 0 <= j < a.len() && a[j].cell == cell,
    decreases a.len() - k,
{
    if 0 <= k < a.len() && a[k].cell != cell {
        lemma_first_in_range(a, cell, k + 1);
    }
}

/// One round of `drops_applied` keeps the stock of buildings and turns claims only off.
proof fn lemma_drops_keep_stock(a: Colony, b: Colony, which: Seq<bool>)
    requires
        drops_applied(a, b, which),
    ensures
        same_stock(a.buildings@, b.buildings@),
        forall|j: int| 0 <= j < a.buildings@.len() ==> building_or_unclaimed(a.buildings@[j], #[trigger] b.buildings@[j]),
        forall|j: int| 0 <= j < a.sites@.len() ==> site_or_unclaimed(a.sites@[j], #[trigger] b.sites@[j]),
        same_places(a.colonists@, b.colonists@),
{
    assert forall|j: int| 0 <= j < a.buildings@.len() implies building_or_unclaimed(a.buildings@[j], #[trigger] b.buildings@[j]) by {
        assert(b.buildings@[j] == building_after_drops(a.buildings@[j], a.colonists@, which, which.len() as int));
    }
    assert forall|j: int| 0 <= j < a.sites@.len() implies site_or_unclaimed(a.sites@[j], #[trigger] b.sites@[j]) by {
        assert(b.sites@[j] == site_after_drops(a.sites@[j], a.colonists@, which, which.len() as int));
    }
    assert forall|j: int| 0 <= j < a.buildings@.len() implies #[trigger] a.buildings@[j].cell == b.buildings@[j].cell
        && a.buildings@[j].kind == b.buildings@[j].kind && a.buildings@[j].supply == b.buildings@[j].supply by {
        assert(building_or_unclaimed(a.buildings@[j], b.buildings@[j]));
    }
    assert forall|k: int| 0 <= k < a.colonists@.len() implies #[trigger] a.colonists@[k].cell == b.colonists@[k].cell
        && a.colonists@[k].entity == b.colonists@[k].entity by {
        if which[k] {
            assert(cleared(a.colonists@[k], b.colonists@[k]));
        }
    }
}

/// `mid` is `start` after the four release phases in turn: builders that are hungry
/// or sleepy leave their sites; then eaters whose bush is gone or empty; then eaters
/// that cannot reach their stand; then colonists whose path ran out give up their tasks.
pub open spec fn release_steps(start: Colony, mid: Colony, grid: &WorldGrid, content: &ContentRegistry) -> bool {
    exists|s1: Colony, s2: Colony, s3: Colony| {
        &&& drops_applied(start, s1, preempt_marks(start.colonists@, content))
        &&& drops_applied(s1, s2, eat_invalid_marks(s1.colonists@, s1.buildings@, grid, content))
        &&& drops_applied(s2, s3, eat_unreachable_marks(s2.colonists@, grid, content))
        &&& drops_applied(s3, mid, stuck_marks(s3.colonists@))
    }
}

/// The colonists that look for a bed before food this round: those that gave up
/// eating because their path ran out.
pub open spec fn prefer_marks(start: Colony, grid: &WorldGrid, content: &ContentRegistry) -> Seq<bool> {
    Seq::new(
        start.colonists@.len(),
        |i: int|
            start.colonists@[i].task.kind == TaskKind::Eat && stuck(start.colonists@[i]) && !eat_invalid(
                start.colonists@[i],
                start.buildings@,
                grid,
                content,
            ) && !eat_unreachable(start.colonists@[i], start.colonists@, grid, content),
    )
}

impl Colony {
    /// Gives up, in turn, the tasks of colonists that build while hungry or sleepy,
    /// that go to eat at a bush that is gone or empty, that cannot reach their eating
    /// stand, and whose path ran out before the target. Says which colonists gave up
    /// eating because they were stuck: those look for a bed first.
    pub fn release_invalid_tasks(&mut self, grid: &WorldGrid, content: &ContentRegistry) -> (prefer_sleep_first: Vec<bool>)
        requires
            grid.wf(content),
        ensures
            releases_done(*old(self), *final(self), grid, content),
            release_steps(*old(self), *final(self), grid, content),
            prefer_sleep_first@ == prefer_marks(*old(self), grid, content),
            prefer_sleep_first@.len() == old(self).colonists@.len(),
            forall|i: int| 0 <= i < old(self).colonists@.len() ==> #[trigger] prefer_sleep_first@[i] == (
                old(self).colonists@[i].task.kind == TaskKind::Eat && stuck(old(self).colonists@[i]) && !eat_invalid(
                    old(self).colonists@[i],
                    old(self).buildings@,
                    grid,
                    content,
                ) && !eat_unreachable(old(self).colonists@[i], old(self).colonists@, grid, content)),
    {
        let ghost s0 = *self;
        self.preempt_build_for_critical_needs(content);
        let ghost s1 = *self;
        proof { lemma_drops_keep_stock(s0, s1, preempt_marks(s0.colonists@, content)); }
        self.release_unsatisfiable_eat_tasks(grid, content);
        let ghost s2 = *self;
        proof { lemma_drops_keep_stock(s1, s2, eat_invalid_marks(s1.colonists@, s1.buildings@, grid, content)); }
        let occ = self.colonist_occupancy_map();
        self.release_unreachable_eat_tasks(grid, content, &occ);
        let ghost s3 = *self;
        proof { lemma_drops_keep_stock(s2, s3, eat_unreachable_marks(s2.colonists@, grid, content)); }
        let prefer = self.release_stuck_tasks();
        let ghost s4 = *self;
        proof {
            lemma_drops_keep_stock(s3, s4, stuck_marks(s3.colonists@));
            let n = s0.colonists@.len();
            assert forall|i: int| 0 <= i < n implies if task_dropped(s0.colonists@[i], s0.colonists@, s0.buildings@, grid, content) {
                cleared(s0.colonists@[i], #[trigger] s4.colonists@[i])
            } else {
                s4.colonists@[i] == s0.colonists@[i]
            } by {
                let c0 = s0.colonists@[i];
                lemma_same_stock_berries(s0.buildings@, s1.buildings@, grid, content, c0.task.building_x, c0.task.building_y);
                lemma_same_places_blocked(s0.colonists@, s1.colonists@, c0.entity, n as int);
                lemma_same_places_blocked(s1.colonists@, s2.colonists@, c0.entity, n as int);
                assert(preempt_marks(s0.colonists@, content)[i] == preempts_build(c0, content));
                if preempts_build(c0, content) {
                    assert(cleared(c0, s1.colonists@[i]));
                    assert(eat_invalid_marks(s1.colonists@, s1.buildings@, grid, content)[i] == false);
                    assert(eat_unreachable_marks(s2.colonists@, grid, content)[i] == false);
                    assert(stuck_marks(s3.colonists@)[i] == false);
                } else {
                    assert(s1.colonists@[i] == c0);
                    assert(eat_invalid_marks(s1.colonists@, s1.buildings@, grid, content)[i] == eat_invalid(c0, s1.buildings@, grid, content));
                    if eat_invalid(c0, s0.buildings@, grid, content) {
                        assert(cleared(c0, s2.colonists@[i]));
                        assert(eat_unreachable_marks(s2.colonists@, grid, content)[i] == false);
                        assert(stuck_marks(s3.colonists@)[i] == false);
                    } else {
                        assert(s2.colonists@[i] == c0);
                        assert(eat_unreachable_marks(s2.colonists@, grid, content)[i] == eat_unreachable(c0, s2.colonists@, grid, content));
                        if eat_unreachable(c0, s0.colonists@, grid, content) {
                            assert(cleared(c0, s3.colonists@[i]));
                            assert(stuck_marks(s3.colonists@)[i] == false);
                        } else {
                            assert(s3.colonists@[i] == c0);
                            assert(stuck_marks(s3.colonists@)[i] == stuck(c0));
                        }
                    }
                }
            }
            assert forall|j: int| 0 <= j < s0.buildings@.len() implies building_or_unclaimed(s0.buildings@[j], #[trigger] s4.buildings@[j]) by {
                assert(building_or_unclaimed(s0.buildings@[j], s1.buildings@[j]));
                assert(building_or_unclaimed(s1.buildings@[j], s2.buildings@[j]));
                assert(building_or_unclaimed(s2.buildings@[j], s3.buildings@[j]));
                assert(building_or_unclaimed(s3.buildings@[j], s4.buildings@[j]));
            }
            assert forall|j: int| 0 <= j < s0.sites@.len() implies site_or_unclaimed(s0.sites@[j], #[trigger] s4.sites@[j]) by {
                assert(site_or_unclaimed(s0.sites@[j], s1.sites@[j]));
                assert(site_or_unclaimed(s1.sites@[j], s2.sites@[j]));
                assert(site_or_unclaimed(s2.sites@[j], s3.sites@[j]));
                assert(site_or_unclaimed(s3.sites@[j], s4.sites@[j]));
            }
            assert forall|i: int| 0 <= i < n implies #[trigger] prefer@[i] == (
                s0.colonists@[i].task.kind == TaskKind::Eat
                    && stuck(s0.colonists@[i]) && !eat_invalid(s0.colonists@[i], s0.buildings@, grid, content)
                    && !eat_unreachable(s0.colonists@[i], s0.colonists@, grid, content)) by {
                let c0 = s0.colonists@[i];
                lemma_same_stock_berries(s0.buildings@, s1.buildings@, grid, content, c0.task.building_x, c0.task.building_y);
                lemma_same_places_blocked(s0.colonists@, s1.colonists@, c0.entity, n as int);
                lemma_same_places_blocked(s1.colonists@, s2.colonists@, c0.entity, n as int);
                if c0.task.kind == TaskKind::Eat {
                    assert(!preempts_build(c0, content));
                    assert(s1.colonists@[i] == c0);
                    assert(eat_invalid_marks(s1.colonists@, s1.buildings@, grid, content)[i] == eat_invalid(c0, s1.buildings@, grid, content));
                    if !eat_invalid(c0, s0.buildings@, grid, content) {
                        assert(s2.colonists@[i] == c0);
                        assert(eat_unreachable_marks(s2.colonists@, grid, content)[i] == eat_unreachable(c0, s2.colonists@, grid, content));
                        if !eat_unreachable(c0, s0.colonists@, grid, content) {
                            assert(s3.colonists@[i] == c0);
                        } else {
                            assert(cleared(c0, s3.colonists@[i]));
                        }
                    } else {
                        assert(cleared(c0, s2.colonists@[i]));
                        assert(eat_unreachable_marks(s2.colonists@, grid, content)[i] == false);
                    }
                } else {
                    if preempts_build(c0, content) {
                        assert(cleared(c0, s1.colonists@[i]));
                        assert(eat_invalid_marks(s1.colonists@, s1.buildings@, grid, content)[i] == false);
                        assert(eat_unreachable_marks(s2.colonists@, grid, content)[i] == false);
                    } else {
                        assert(s1.colonists@[i] == c0);
                        assert(eat_invalid_marks(s1.colonists@, s1.buildings@, grid, content)[i] == false);
                        assert(s2.colonists@[i] == c0);
                        assert(eat_unreachable_marks(s2.colonists@, grid, content)[i] == false);
                    }
                }
            }
        }
        prefer
    }
}


// ---------------------------------------------------------------------------
// Giving idle colonists something to do
// ---------------------------------------------------------------------------

#[derive(Clone, Copy, Debug, PartialEq, Eq, Structural)]
pub enum NeedKind {
    Food,
    Sleep,
}

/// A task chosen for a colonist, with the bed that it claims.
#[derive(Clone, Copy, Debug)]
pub struct PendingAssignment {
    pub task_kind: TaskKind,
    pub building_x: i32,
    pub building_y: i32,
    pub target_x: i32,
    pub target_y: i32,
    pub bed: Option<usize>,
}

/// Some bush of `bushes` offers colonist `e` at `from` a stand.
pub open spec fn food_ok(
    grid: &WorldGrid,
    content: &ContentRegistry,
    cols: Seq<ColonistState>,
    e: Entity,
    from: (i32, i32),
    rs: Seq<(i32, i32)>,
    bushes: Seq<(i32, i32)>,
) -> bool {
    exists|j: int, s: (i32, i32)|
        0 <= j < bushes.len() && #[trigger] eat_option(grid, content, cols, e, rs, bushes[j], from, s)
}

/// Bush `b` and stand `s` are those the colonist is sent to eat at: `b` is the nearest
/// bush (the first on a tie) that offers a stand, and `s` that stand.
pub open spec fn eat_pick(
    grid: &WorldGrid,
    content: &ContentRegistry,
    cols: Seq<ColonistState>,
    e: Entity,
    from: (i32, i32),
    rs: Seq<(i32, i32)>,
    bushes: Seq<(i32, i32)>,
    b: (i32, i32),
    s: (i32, i32),
) -> bool {
    exists|k: int| {
        &&& 0 <= k < bushes.len()
        &&& bushes[k] == b
        &&& eat_option(grid, content, cols, e, rs, b, from, s)
        &&& forall|j: int|
            0 <= j < bushes.len() && (manhattan(#[trigger] bushes[j], from) < manhattan(b, from) || (manhattan(
                bushes[j],
                from,
            ) == manhattan(b, from) && j < k)) ==> no_eat_option(grid, content, cols, e, rs, bushes[j], from)
    }
}

/// The nearest free bed can be reached by colonist `e` around the others.
pub open spec fn bed_ok(
    grid: &WorldGrid,
    content: &ContentRegistry,
    cols: Seq<ColonistState>,
    e: Entity,
    from: (i32, i32),
    beds: Seq<(usize, i32, i32)>,
    rb: Seq<usize>,
) -> bool {
    exists|b: (usize, i32, i32), k: int|
        #[trigger] nearest_bed_at(beds, rb, from, b, k) && reachable(grid, content, blocked_seq(cols, e), from, (b.1, b.2))
}

/// There is one nearest free bed.
proof fn lemma_nearest_bed_unique(
    beds: Seq<(usize, i32, i32)>,
    rb: Seq<usize>,
    from: (i32, i32),
    b1: (usize, i32, i32),
    k1: int,
    b2: (usize, i32, i32),
    k2: int,
)
    requires
        nearest_bed_at(beds, rb, from, b1, k1),
        nearest_bed_at(beds, rb, from, b2, k2),
    ensures
        b1 == b2,
        k1 == k2,
{
    if k1 < k2 {
        assert(!rb.contains(beds[k1].0));
    } else if k2 < k1 {
        assert(!rb.contains(beds[k2].0));
    }
}

/// Stand and route conditions only depend on where the colonists stand.
proof fn lemma_eat_option_same(
    grid: &WorldGrid,
    content: &ContentRegistry,
    a: Seq<ColonistState>,
    b: Seq<ColonistState>,
    e: Entity,
    rs: Seq<(i32, i32)>,
    bush: (i32, i32),
    from: (i32, i32),
    s: (i32, i32),
)
    requires
        same_places(a, b),
    ensures
        eat_option(grid, content, a, e, rs, bush, from, s) == eat_option(grid, content, b, e, rs, bush, from, s),
{
    lemma_same_places_all(a, b);
    assert forall|a2: Seq<ColonistState>, b2: Seq<ColonistState>|
        same_places(a2, b2) && eat_stand_pick(grid, content, a2, rs, bush, from, s) implies eat_stand_pick(
        grid,
        content,
        b2,
        rs,
        bush,
        from,
        s,
    ) by {
        lemma_same_places_all(a2, b2);
        let k = choose|k: int|
            0 <= k < 4 && s == stand_cell(bush, k) && stand_open(grid, content, bush, from, k) && stand_unclaimed(
                a2,
                rs,
                s,
            ) && forall|j: int|
                0 <= j < 4 && #[trigger] stand_open(grid, content, bush, from, j) && stand_unclaimed(
                    a2,
                    rs,
                    stand_cell(bush, j),
                ) ==> !stand_before(grid, content, bush, from, j, k);
        assert(occupant(a2, s) == occupant(b2, s));
        assert forall|j: int|
            0 <= j < 4 && #[trigger] stand_open(grid, content, bush, from, j) && stand_unclaimed(
                b2,
                rs,
                stand_cell(bush, j),
            ) implies !stand_before(grid, content, bush, from, j, k) by {
            assert(occupant(a2, stand_cell(bush, j)) == occupant(b2, stand_cell(bush, j)));
        }
    }
    assert(same_places(b, a));
}

/// The whole of the food and bed conditions only depends on where the colonists stand.
proof fn lemma_needs_same(
    grid: &WorldGrid,
    content: &ContentRegistry,
    a: Seq<ColonistState>,
    b: Seq<ColonistState>,
    e: Entity,
    from: (i32, i32),
    rs: Seq<(i32, i32)>,
    bushes: Seq<(i32, i32)>,
    beds: Seq<(usize, i32, i32)>,
    rb: Seq<usize>,
)
    requires
        same_places(a, b),
    ensures
        food_ok(grid, content, a, e, from, rs, bushes) == food_ok(grid, content, b, e, from, rs, bushes),
        bed_ok(grid, content, a, e, from, beds, rb) == bed_ok(grid, content, b, e, from, beds, rb),
        forall|bb: (i32, i32), ss: (i32, i32)|
            #[trigger] eat_pick(grid, content, a, e, from, rs, bushes, bb, ss) == eat_pick(
                grid,
                content,
                b,
                e,
                from,
                rs,
                bushes,
                bb,
                ss,
            ),
{
    lemma_same_places_all(a, b);
    assert forall|bush: (i32, i32), s: (i32, i32)| #[trigger]
        eat_option(grid, content, a, e, rs, bush, from, s) == eat_option(grid, content, b, e, rs, bush, from, s) by {
        lemma_eat_option_same(grid, content, a, b, e, rs, bush, from, s);
    }
    assert forall|bush: (i32, i32)|
        no_eat_option(grid, content, a, e, rs, bush, from) == no_eat_option(grid, content, b, e, rs, bush, from) by {
        if no_eat_option(grid, content, a, e, rs, bush, from) {
            assert forall|s: (i32, i32)| !#[trigger] eat_option(grid, content, b, e, rs, bush, from, s) by {
                assert(eat_option(grid, content, a, e, rs, bush, from, s) == eat_option(grid, content, b, e, rs, bush, from, s));
            }
        }
        if no_eat_option(grid, content, b, e, rs, bush, from) {
            assert forall|s: (i32, i32)| !#[trigger] eat_option(grid, content, a, e, rs, bush, from, s) by {
                assert(eat_option(grid, content, a, e, rs, bush, from, s) == eat_option(grid, content, b, e, rs, bush, from, s));
            }
        }
    }
    if food_ok(grid, content, a, e, from, rs, bushes) {
        let (j, s) = choose|j: int, s: (i32, i32)|
            0 <= j < bushes.len() && #[trigger] eat_option(grid, content, a, e, rs, bushes[j], from, s);
        assert(eat_option(grid, content, b, e, rs, bushes[j], from, s));
    }
    if food_ok(grid, content, b, e, from, rs, bushes) {
        let (j, s) = choose|j: int, s: (i32, i32)|
            0 <= j < bushes.len() && #[trigger] eat_option(grid, content, b, e, rs, bushes[j], from, s);
        assert(eat_option(grid, content, a, e, rs, bushes[j], from, s));
    }
    assert(blocked_seq(a, e) == blocked_seq(b, e));
    assert forall|bb: (i32, i32), ss: (i32, i32)|
        #[trigger] eat_pick(grid, content, a, e, from, rs, bushes, bb, ss) == eat_pick(
            grid,
            content,
            b,
            e,
            from,
            rs,
            bushes,
            bb,
            ss,
        ) by {
        assert(eat_option(grid, content, a, e, rs, bb, from, ss) == eat_option(grid, content, b, e, rs, bb, from, ss));
        assert forall|j: int| 0 <= j < bushes.len() implies no_eat_option(grid, content, a, e, rs, #[trigger] bushes[j], from)
            == no_eat_option(grid, content, b, e, rs, bushes[j], from) by {
        }
    }
}

/// The task that would satisfy `need`: eating beside the nearest bush with a free
/// stand, or sleeping in the nearest free bed.
pub fn try_need_assignment(
    grid: &WorldGrid,
    content: &ContentRegistry,
    cols: &Vec<ColonistState>,
    occ: &Occupancy,
    from: (i32, i32),
    e: Entity,
    need: NeedKind,
    bushes: &Vec<(i32, i32)>,
    beds: &Vec<(usize, i32, i32)>,
    reserved_stands: &Vec<(i32, i32)>,
    reserved_beds: &Vec<usize>,
) -> (r: Option<PendingAssignment>)
    requires
        grid.wf(content),
        occ.wf(),
        forall|c: (i32, i32)| #[trigger] occ.at(c) == occupant(cols@, c),
    ensures
        need == NeedKind::Food ==> (r matches Some(a) ==> {
            &&& a.task_kind == TaskKind::Eat
            &&& a.bed is None
            &&& exists|k: int| 0 <= k < bushes@.len() && bushes@[k] == (a.building_x, a.building_y)
            &&& beside((a.building_x, a.building_y), (a.target_x, a.target_y))
            &&& grid.spec_walkable(content, a.target_x as int, a.target_y as int)
            &&& stand_free(occ, reserved_stands@, (a.target_x, a.target_y))
            &&& eat_pick(grid, content, cols@, e, from, reserved_stands@, bushes@, (a.building_x, a.building_y), (a.target_x, a.target_y))
        }),
        need == NeedKind::Food ==> (r is Some <==> food_ok(grid, content, cols@, e, from, reserved_stands@, bushes@)),
        need == NeedKind::Sleep ==> (r matches Some(a) ==> {
            &&& a.task_kind == TaskKind::Sleep
            &&& a.target_x == a.building_x
            &&& a.target_y == a.building_y
            &&& a.bed matches Some(j) && exists|k: int| nearest_bed_at(beds@, reserved_beds@, from, (j, a.building_x, a.building_y), k)
        }),
        need == NeedKind::Sleep ==> (r is None <==> forall|k: int| 0 <= k < beds@.len() ==> reserved_beds@.contains(#[trigger] beds@[k].0)),
{
    match need {
        NeedKind::Food => match nearest_eat_assignment(grid, content, cols, occ, from, e, bushes, reserved_stands) {
            Some((b, s)) => {
                proof {
                    let k = choose|k: int| {
                        &&& 0 <= k < bushes@.len()
                        &&& bushes@[k] == b
                        &&& eat_option(grid, content, cols@, e, reserved_stands@, b, from, s)
                        &&& forall|j: int|
                            0 <= j < bushes@.len() && (manhattan(#[trigger] bushes@[j], from) < manhattan(b, from) || (
                            manhattan(bushes@[j], from) == manhattan(b, from) && j < k)) ==> no_eat_option(
                                grid,
                                content,
                                cols@,
                                e,
                                reserved_stands@,
                                bushes@[j],
                                from,
                            )
                    };
                    assert(eat_option(grid, content, cols@, e, reserved_stands@, bushes@[k], from, s));
                }
                Some(PendingAssignment {
                task_kind: TaskKind::Eat,
                building_x: b.0,
                building_y: b.1,
                target_x: s.0,
                target_y: s.1,
                bed: None,
            })
            },
            None => {
                proof {
                    assert forall|j: int, t: (i32, i32)|
                        0 <= j < bushes@.len() implies !#[trigger] eat_option(grid, content, cols@, e, reserved_stands@, bushes@[j], from, t) by {
                        assert(no_eat_option(grid, content, cols@, e, reserved_stands@, bushes@[j], from));
                    }
                }
                None
            },
        },
        NeedKind::Sleep => match nearest_free_bed(from, beds, reserved_beds) {
            Some((j, bx, by)) => Some(PendingAssignment {
                task_kind: TaskKind::Sleep,
                building_x: bx,
                building_y: by,
                target_x: bx,
                target_y: by,
                bed: Some(j),
            }),
            None => None,
        },
    }
}

/// `try_need_assignment`, kept only when the colonist can reach the target around
/// the others; with the waypoints there.
fn plan_need(
    grid: &WorldGrid,
    content: &ContentRegistry,
    cols: &Vec<ColonistState>,
    occ: &Occupancy,
    from: (i32, i32),
    e: Entity,
    need: NeedKind,
    bushes: &Vec<(i32, i32)>,
    beds: &Vec<(usize, i32, i32)>,
    reserved_stands: &Vec<(i32, i32)>,
    reserved_beds: &Vec<usize>,
) -> (r: Option<(PendingAssignment, Vec<(i32, i32)>)>)
    requires
        grid.wf(content),
        occ.wf(),
        forall|c: (i32, i32)| #[trigger] occ.at(c) == occupant(cols@, c),
    ensures
        r matches Some(p) ==> {
            let a = p.0;
            &&& path_follows(grid, content, blocked_seq(cols@, e), from, (a.target_x, a.target_y), p.1@)
            &&& need == NeedKind::Food ==> {
                &&& a.task_kind == TaskKind::Eat
                &&& a.bed is None
                &&& exists|k: int| 0 <= k < bushes@.len() && bushes@[k] == (a.building_x, a.building_y)
                &&& beside((a.building_x, a.building_y), (a.target_x, a.target_y))
                &&& grid.spec_walkable(content, a.target_x as int, a.target_y as int)
                &&& stand_free(occ, reserved_stands@, (a.target_x, a.target_y))
            }
            &&& need == NeedKind::Sleep ==> {
                &&& a.task_kind == TaskKind::Sleep
                &&& a.target_x == a.building_x
                &&& a.target_y == a.building_y
                &&& a.bed matches Some(j) && exists|k: int| nearest_bed_at(beds@, reserved_beds@, from, (j, a.building_x, a.building_y), k)
            }
            &&& need == NeedKind::Food ==> eat_pick(
                grid,
                content,
                cols@,
                e,
                from,
                reserved_stands@,
                bushes@,
                (a.building_x, a.building_y),
                (a.target_x, a.target_y),
            )
        },
        need == NeedKind::Food ==> (r is Some <==> food_ok(grid, content, cols@, e, from, reserved_stands@, bushes@)),
        need == NeedKind::Sleep ==> (r is Some <==> bed_ok(grid, content, cols@, e, from, beds@, reserved_beds@)),
{
    match try_need_assignment(grid, content, cols, occ, from, e, need, bushes, beds, reserved_stands, reserved_beds) {
        Some(a) => {
            let target = (a.target_x, a.target_y);
            proof {
                if need == NeedKind::Food {
                    let k = choose|k: int| {
                        &&& 0 <= k < bushes@.len()
                        &&& bushes@[k] == (a.building_x, a.building_y)
                        &&& eat_option(grid, content, cols@, e, reserved_stands@, (a.building_x, a.building_y), from, target)
                        &&& forall|j: int|
                            0 <= j < bushes@.len() && (manhattan(#[trigger] bushes@[j], from) < manhattan((a.building_x, a.building_y), from) || (
                            manhattan(bushes@[j], from) == manhattan((a.building_x, a.building_y), from) && j < k)) ==> no_eat_option(
                                grid,
                                content,
                                cols@,
                                e,
                                reserved_stands@,
                                bushes@[j],
                                from,
                            )
                    };
                    assert(reachable(grid, content, blocked_seq(cols@, e), from, target));
                } else {
                    let j = a.bed->0;
                    let k = choose|k: int| nearest_bed_at(beds@, reserved_beds@, from, (j, a.building_x, a.building_y), k);
                    if bed_ok(grid, content, cols@, e, from, beds@, reserved_beds@) {
                        let (b2, k2) = choose|b2: (usize, i32, i32), k2: int|
                            #[trigger] nearest_bed_at(beds@, reserved_beds@, from, b2, k2) && reachable(
                                grid,
                                content,
                                blocked_seq(cols@, e),
                                from,
                                (b2.1, b2.2),
                            );
                        lemma_nearest_bed_unique(beds@, reserved_beds@, from, (j, a.building_x, a.building_y), k, b2, k2);
                    }
                    if reachable(grid, content, blocked_seq(cols@, e), from, target) {
                        assert(nearest_bed_at(beds@, reserved_beds@, from, (j, a.building_x, a.building_y), k));
                    }
                }
            }
            match find_path_for_colonist(grid, content, cols, occ, from, target, e) {
                Some(route) => {
                    let w = waypoints_after_start(Ghost(grid), Ghost(content), Ghost(blocked_seq(cols@, e)), from, target, &route);
                    Some((a, w))
                },
                None => None,
            }
        },
        None => {
            proof {
                if need == NeedKind::Sleep && bed_ok(grid, content, cols@, e, from, beds@, reserved_beds@) {
                    let (b2, k2) = choose|b2: (usize, i32, i32), k2: int|
                        #[trigger] nearest_bed_at(beds@, reserved_beds@, from, b2, k2) && reachable(
                            grid,
                            content,
                            blocked_seq(cols@, e),
                            from,
                            (b2.1, b2.2),
                        );
                    assert(reserved_beds@.contains(beds@[k2].0));
                }
            }
            None
        },
    }
}

/// A berry bush with berries left.
pub open spec fn stocked_bush(b: BuildingState, content: &ContentRegistry) -> bool {
    &&& b.kind.0 == content.berry_bush_building
    &&& b.supply matches Some(s) && s.remaining > 0
}

/// A berry bush with berries left stands on `c`.
pub open spec fn stocked_cell(bs: Seq<BuildingState>, content: &ContentRegistry, c: (i32, i32)) -> bool {
    exists|j: int| 0 <= j < bs.len() && stocked_bush(#[trigger] bs[j], content) && bs[j].cell == c
}

/// A bed that nobody has claimed.
pub open spec fn free_bed(b: BuildingState, content: &ContentRegistry) -> bool {
    &&& b.kind.0 == content.bed_building
    &&& b.occupancy == Some(BedOccupancy { reserved_by: None })
}

/// The cells of the stocked bushes among the first `n` buildings, in list order.
pub open spec fn stocked_list(bs: Seq<BuildingState>, content: &ContentRegistry, n: int) -> Seq<(i32, i32)>
    decreases n,
{
    if n <= 0 {
        Seq::empty()
    } else if stocked_bush(bs[n - 1], content) {
        stocked_list(bs, content, n - 1).push(bs[n - 1].cell)
    } else {
        stocked_list(bs, content, n - 1)
    }
}

/// The free beds among the first `n` buildings, by position and cell, in list order.
pub open spec fn free_bed_list(bs: Seq<BuildingState>, content: &ContentRegistry, n: int) -> Seq<(usize, i32, i32)>
    decreases n,
{
    if n <= 0 {
        Seq::empty()
    } else if free_bed(bs[n - 1], content) {
        free_bed_list(bs, content, n - 1).push(((n - 1) as usize, bs[n - 1].cell.0, bs[n - 1].cell.1))
    } else {
        free_bed_list(bs, content, n - 1)
    }
}

/// The unclaimed sites among the first `n`, by position and cell, in list order.
pub open spec fn open_site_list(ss: Seq<SiteState>, n: int) -> Seq<(usize, i32, i32)>
    decreases n,
{
    if n <= 0 {
        Seq::empty()
    } else if ss[n - 1].site.reserved_by is None {
        open_site_list(ss, n - 1).push(((n - 1) as usize, ss[n - 1].cell.0, ss[n - 1].cell.1))
    } else {
        open_site_list(ss, n - 1)
    }
}

impl Colony {
    /// The cells of the berry bushes that have berries left.
    pub fn stocked_bushes(&self, content: &ContentRegistry) -> (r: Vec<(i32, i32)>)
        ensures
            forall|k: int| 0 <= k < r@.len() ==> stocked_cell(self.buildings@, content, #[trigger] r@[k]),
            r@ == stocked_list(self.buildings@, content, self.buildings@.len() as int),
    {
        let mut r: Vec<(i32, i32)> = Vec::new();
        let mut j: usize = 0;
        while j < self.buildings.len()
            invariant
                0 <= j <= self.buildings@.len(),
                r@ == stocked_list(self.buildings@, content, j as int),
                forall|k: int| 0 <= k < r@.len() ==> stocked_cell(self.buildings@, content, #[trigger] r@[k]),
            decreases self.buildings@.len() - j,
        {
            let b = self.buildings[j];
            let stocked = b.kind.0 == content.berry_bush_building && match b.supply {
                Some(s) => s.remaining > 0,
                None => false,
            };
            if stocked {
                r.push(b.cell);
                proof {
                    assert(stocked_bush(self.buildings@[j as int], content));
                    assert(stocked_cell(self.buildings@, content, b.cell));
                }
            }
            j += 1;
        }
        r
    }

    /// The beds that nobody has claimed, by position in the list and cell.
    pub fn free_beds(&self, content: &ContentRegistry) -> (r: Vec<(usize, i32, i32)>)
        ensures
            forall|k: int| 0 <= k < r@.len() ==> {
                &&& (#[trigger] r@[k]).0 < self.buildings@.len()
                &&& free_bed(self.buildings@[r@[k].0 as int], content)
                &&& self.buildings@[r@[k].0 as int].cell == (r@[k].1, r@[k].2)
            },
            r@ == free_bed_list(self.buildings@, content, self.buildings@.len() as int),
    {
        let mut r: Vec<(usize, i32, i32)> = Vec::new();
        let mut j: usize = 0;
        while j < self.buildings.len()
            invariant
                0 <= j <= self.buildings@.len(),
                r@ == free_bed_list(self.buildings@, content, j as int),
                forall|k: int| 0 <= k < r@.len() ==> {
                    &&& (#[trigger] r@[k]).0 < self.buildings@.len()
                    &&& free_bed(self.buildings@[r@[k].0 as int], content)
                    &&& self.buildings@[r@[k].0 as int].cell == (r@[k].1, r@[k].2)
                },
            decreases self.buildings@.len() - j,
        {
            let b = self.buildings[j];
            let free = b.kind.0 == content.bed_building && match b.occupancy {
                Some(o) => o.reserved_by.is_none(),
                None => false,
            };
            if free {
                r.push((j, b.cell.0, b.cell.1));
            }
            j += 1;
        }
        r
    }

    /// The construction sites that nobody has claimed, by position in the list and cell.
    pub fn open_sites(&self) -> (r: Vec<(usize, i32, i32)>)
        ensures
            forall|k: int| 0 <= k < r@.len() ==> {
                &&& (#[trigger] r@[k]).0 < self.sites@.len()
                &&& self.sites@[r@[k].0 as int].site.reserved_by is None
                &&& self.sites@[r@[k].0 as int].cell == (r@[k].1, r@[k].2)
            },
            r@ == open_site_list(self.sites@, self.sites@.len() as int),
    {
        let mut r: Vec<(usize, i32, i32)> = Vec::new();
        let mut j: usize = 0;
        while j < self.sites.len()
            invariant
                0 <= j <= self.sites@.len(),
                r@ == open_site_list(self.sites@, j as int),
                forall|k: int| 0 <= k < r@.len() ==> {
                    &&& (#[trigger] r@[k]).0 < self.sites@.len()
                    &&& self.sites@[r@[k].0 as int].site.reserved_by is None
                    &&& self.sites@[r@[k].0 as int].cell == (r@[k].1, r@[k].2)
                },
            decreases self.sites@.len() - j,
        {
            let st = self.sites[j];
            if st.site.reserved_by.is_none() {
                r.push((j, st.cell.0, st.cell.1));
            }
            j += 1;
        }
        r
    }

    /// Gives colonist `i` `task` with the path `wps`.
    fn give_task(&mut self, i: usize, task: Task, wps: Vec<(i32, i32)>)
        requires
            i < old(self).colonists@.len(),
        ensures
            final(self).colonists@.len() == old(self).colonists@.len(),
            final(self).colonists@[i as int].task == task,
            final(self).colonists@[i as int].path.waypoints@ == wps@,
            final(self).colonists@[i as int].path.index == 0,
            same_colonist(old(self).colonists@[i as int], final(self).colonists@[i as int]),
            forall|k: int| 0 <= k < old(self).colonists@.len() && k != i ==> #[trigger] final(self).colonists@[k] == old(self).colonists@[k],
            final(self).buildings == old(self).buildings,
            final(self).sites == old(self).sites,
            final(self).decon_sites == old(self).decon_sites,
            final(self).next_entity == old(self).next_entity,
    {
        self.colonists[i].task = task;
        self.colonists[i].path = Path { waypoints: wps, index: 0 };
    }

    /// Records that colonist `e` has claimed the bed at position `j`.
    fn claim_bed(&mut self, j: usize, e: Entity)
        requires
            j < old(self).buildings@.len(),
        ensures
            final(self).buildings@ == old(self).buildings@.update(
                j as int,
                BuildingState { occupancy: Some(BedOccupancy { reserved_by: Some(e) }), ..old(self).buildings@[j as int] },
            ),
            final(self).colonists == old(self).colonists,
            final(self).sites == old(self).sites,
            final(self).decon_sites == old(self).decon_sites,
            final(self).next_entity == old(self).next_entity,
    {
        let mut b = self.buildings[j];
        b.occupancy = Some(BedOccupancy { reserved_by: Some(e) });
        self.buildings.set(j, b);
    }

    /// Records that colonist `e` has claimed the construction site at position `j`.
    fn claim_site(&mut self, j: usize, e: Entity)
        requires
            j < old(self).sites@.len(),
        ensures
            final(self).sites@ == old(self).sites@.update(
                j as int,
                SiteState { site: ConstructionSite { reserved_by: Some(e), ..old(self).sites@[j as int].site }, ..old(self).sites@[j as int] },
            ),
            final(self).colonists == old(self).colonists,
            final(self).buildings == old(self).buildings,
            final(self).decon_sites == old(self).decon_sites,
            final(self).next_entity == old(self).next_entity,
    {
        let mut st = self.sites[j];
        st.site.reserved_by = Some(e);
        self.sites.set(j, st);
    }
}

/// `f` is colonist `m` with the same entity, name, cell, statuses and bed timer.
pub open spec fn same_colonist(m: ColonistState, f: ColonistState) -> bool {
    &&& f.entity == m.entity
    &&& f.id == m.id
    &&& f.name == m.name
    &&& f.cell == m.cell
    &&& f.statuses == m.statuses
    &&& f.sleep_timer == m.sleep_timer
}


/// Colonist `f` is `m` sent to eat: it is hungry, and it goes to a free cell beside a
/// bush with berries, along waypoints found around the other colonists.
pub open spec fn eat_assigned(grid: &WorldGrid, content: &ContentRegistry, mid: Colony, m: ColonistState, f: ColonistState) -> bool {
    let b = (f.task.building_x, f.task.building_y);
    let t = task_target(f);
    &&& f.task.kind == TaskKind::Eat
    &&& is_hungry(m, content)
    &&& stocked_cell(mid.buildings@, content, b)
    &&& beside(b, t)
    &&& grid.spec_walkable(content, t.0 as int, t.1 as int)
    &&& occupant(mid.colonists@, t) is None
    &&& f.path.index == 0
    &&& path_follows(grid, content, blocked_seq(mid.colonists@, m.entity), m.cell, t, f.path.waypoints@)
}

/// Colonist `f` is `m` sent to sleep in the unclaimed bed at position `j`.
pub open spec fn sleep_core(grid: &WorldGrid, content: &ContentRegistry, mid: Colony, m: ColonistState, f: ColonistState, j: int) -> bool {
    let b = (f.task.building_x, f.task.building_y);
    &&& f.task.kind == TaskKind::Sleep
    &&& task_target(f) == b
    &&& wants_sleep(m, content)
    &&& 0 <= j < mid.buildings@.len()
    &&& free_bed(mid.buildings@[j], content)
    &&& mid.buildings@[j].cell == b
    &&& f.path.index == 0
    &&& path_follows(grid, content, blocked_seq(mid.colonists@, m.entity), m.cell, b, f.path.waypoints@)
}

/// `sleep_core`, and the bed now records the colonist's claim.
pub open spec fn sleep_assigned_at(grid: &WorldGrid, content: &ContentRegistry, mid: Colony, fin: Colony, m: ColonistState, f: ColonistState, j: int) -> bool {
    &&& sleep_core(grid, content, mid, m, f, j)
    &&& fin.buildings@[j] == BuildingState { occupancy: Some(BedOccupancy { reserved_by: Some(m.entity) }), ..mid.buildings@[j] }
}

/// Colonist `f` is `m` sent to build at the unclaimed site at position `j`, from a
/// walkable cell beside it.
pub open spec fn build_core(grid: &WorldGrid, content: &ContentRegistry, mid: Colony, m: ColonistState, f: ColonistState, j: int) -> bool {
    let b = (f.task.building_x, f.task.building_y);
    let t = task_target(f);
    &&& f.task.kind == TaskKind::Build
    &&& 0 <= j < mid.sites@.len()
    &&& mid.sites@[j].site.reserved_by is None
    &&& mid.sites@[j].cell == b
    &&& beside(b, t)
    &&& grid.spec_walkable(content, t.0 as int, t.1 as int)
    &&& f.path.index == 0
    &&& path_follows(grid, content, Seq::empty(), m.cell, t, f.path.waypoints@)
}

/// `build_core`, and the site now records the colonist's claim.
pub open spec fn build_assigned_at(grid: &WorldGrid, content: &ContentRegistry, mid: Colony, fin: Colony, m: ColonistState, f: ColonistState, j: int) -> bool {
    &&& build_core(grid, content, mid, m, f, j)
    &&& fin.sites@[j] == SiteState { site: ConstructionSite { reserved_by: Some(m.entity), ..mid.sites@[j].site }, ..mid.sites@[j] }
}

/// Colonist `f` is idle `m`, whose path had run out, given a path to a cell to wander to.
pub open spec fn wandering(grid: &WorldGrid, content: &ContentRegistry, mid: Colony, m: ColonistState, f: ColonistState) -> bool {
    &&& f.task == m.task
    &&& m.path.done()
    &&& f.path.index == 0
    &&& f.path.waypoints@.len() >= 1
    &&& wander_ok(grid, content, mid.colonists@, m.entity, m.cell, f.path.waypoints@.last())
    &&& path_follows(grid, content, blocked_seq(mid.colonists@, m.entity), m.cell, f.path.waypoints@.last(), f.path.waypoints@)
}

/// What the round made of colonist `m`: a colonist with a task keeps it; an idle one
/// stays as it was, wanders, or is sent to eat, sleep or build.
pub open spec fn assign_outcome(grid: &WorldGrid, content: &ContentRegistry, mid: Colony, fin: Colony, m: ColonistState, f: ColonistState) -> bool {
    &&& same_colonist(m, f)
    &&& if m.task.kind != TaskKind::Idle {
        f == m
    } else {
        ||| f == m
        ||| wandering(grid, content, mid, m, f)
        ||| eat_assigned(grid, content, mid, m, f)
        ||| exists|j: int| sleep_assigned_at(grid, content, mid, fin, m, f, j)
        ||| exists|j: int| build_assigned_at(grid, content, mid, fin, m, f, j)
    }
}

/// `fin` is `mid` after idle colonists were given work: each colonist as
/// `assign_outcome` says; a bed or site changes only by the claim of the colonist sent
/// to it; no two colonists are sent to the same eating stand.
pub open spec fn assignment_done(mid: Colony, fin: Colony, grid: &WorldGrid, content: &ContentRegistry) -> bool {
    &&& fin.colonists@.len() == mid.colonists@.len()
    &&& forall|i: int| 0 <= i < mid.colonists@.len() ==> assign_outcome(grid, content, mid, fin, mid.colonists@[i], #[trigger] fin.colonists@[i])
    &&& fin.buildings@.len() == mid.buildings@.len()
    &&& forall|j: int| 0 <= j < mid.buildings@.len() ==> #[trigger] fin.buildings@[j] == mid.buildings@[j] || exists|i: int|
        0 <= i < mid.colonists@.len() && sleep_assigned_at(grid, content, mid, fin, mid.colonists@[i], #[trigger] fin.colonists@[i], j)
    &&& fin.sites@.len() == mid.sites@.len()
    &&& forall|j: int| 0 <= j < mid.sites@.len() ==> #[trigger] fin.sites@[j] == mid.sites@[j] || exists|i: int|
        0 <= i < mid.colonists@.len() && build_assigned_at(grid, content, mid, fin, mid.colonists@[i], #[trigger] fin.colonists@[i], j)
    &&& forall|i1: int, i2: int|
        0 <= i1 < i2 < mid.colonists@.len() && mid.colonists@[i1].task.kind == TaskKind::Idle
            && mid.colonists@[i2].task.kind == TaskKind::Idle && (#[trigger] fin.colonists@[i1]).task.kind == TaskKind::Eat
            && (#[trigger] fin.colonists@[i2]).task.kind == TaskKind::Eat ==> task_target(fin.colonists@[i1]) != task_target(fin.colonists@[i2])
    &&& fin.decon_sites == mid.decon_sites
    &&& fin.next_entity == mid.next_entity
}


/// Colonist `f` after its turn in the round, with the bed `bj` or site `sj` it was sent to.
pub open spec fn handled(grid: &WorldGrid, content: &ContentRegistry, mid: Colony, m: ColonistState, f: ColonistState, bj: int, sj: int) -> bool {
    &&& same_colonist(m, f)
    &&& if m.task.kind != TaskKind::Idle {
        f == m
    } else {
        ||| f == m
        ||| wandering(grid, content, mid, m, f)
        ||| eat_assigned(grid, content, mid, m, f)
        ||| sleep_core(grid, content, mid, m, f, bj)
        ||| build_core(grid, content, mid, m, f, sj)
    }
}

pub proof fn lemma_same_places_all(a: Seq<ColonistState>, b: Seq<ColonistState>)
    requires
        same_places(a, b),
    ensures
        forall|c: (i32, i32)| #[trigger] occupant(a, c) == occupant(b, c),
        forall|e: Entity| #[trigger] blocked_seq(a, e) == blocked_seq(b, e),
{
    assert forall|c: (i32, i32)| #[trigger] occupant(a, c) == occupant(b, c) by {
        lemma_same_places_occupant(a, b, a.len() as int, c);
    }
    assert forall|e: Entity| #[trigger] blocked_seq(a, e) == blocked_seq(b, e) by {
        lemma_same_places_blocked(a, b, e, a.len() as int);
    }
}

/// What happened to a colonist in its turn of the round.
#[derive(Clone, Copy, Debug, PartialEq, Eq, Structural)]
pub enum Outcome {
    Unchanged,
    Wander,
    Eat,
    Sleep(usize),
    Build(usize),
}

/// The bed that an outcome claims, or -1.
pub open spec fn outcome_bed(r: Outcome) -> int {
    match r {
        Outcome::Sleep(j) => j as int,
        _ => -1,
    }
}

/// The site that an outcome claims, or -1.
pub open spec fn outcome_site(r: Outcome) -> int {
    match r {
        Outcome::Build(j) => j as int,
        _ => -1,
    }
}

/// The facts about the lists of bushes, free beds and open sites taken from `mid`.
pub open spec fn lists_from(mid: Colony, content: &ContentRegistry, bushes: Seq<(i32, i32)>, beds: Seq<(usize, i32, i32)>, sites: Seq<(usize, i32, i32)>) -> bool {
    &&& forall|k: int| 0 <= k < bushes.len() ==> stocked_cell(mid.buildings@, content, #[trigger] bushes[k])
    &&& forall|k: int| 0 <= k < beds.len() ==> {
        &&& (#[trigger] beds[k]).0 < mid.buildings@.len()
        &&& free_bed(mid.buildings@[beds[k].0 as int], content)
        &&& mid.buildings@[beds[k].0 as int].cell == (beds[k].1, beds[k].2)
    }
    &&& forall|k: int| 0 <= k < sites.len() ==> {
        &&& (#[trigger] sites[k]).0 < mid.sites@.len()
        &&& mid.sites@[sites[k].0 as int].site.reserved_by is None
        &&& mid.sites@[sites[k].0 as int].cell == (sites[k].1, sites[k].2)
    }
}

/// Some unclaimed site of `sites` has an open stand for a colonist at `from`.
pub open spec fn build_ok(
    grid: &WorldGrid,
    content: &ContentRegistry,
    from: (i32, i32),
    sites: Seq<(usize, i32, i32)>,
    rst: Seq<usize>,
) -> bool {
    exists|j: int|
        0 <= j < sites.len() && !rst.contains(sites[j].0) && #[trigger] has_stand(
            grid,
            content,
            (sites[j].1, sites[j].2),
            from,
        )
}

/// Site `j` at `b`, and stand `t`, are what a colonist at `from` is sent to build: the
/// nearest unclaimed site (the first on a tie) with an open stand, and its nearest stand.
pub open spec fn build_pick(
    grid: &WorldGrid,
    content: &ContentRegistry,
    from: (i32, i32),
    sites: Seq<(usize, i32, i32)>,
    rst: Seq<usize>,
    j: usize,
    b: (i32, i32),
    t: (i32, i32),
) -> bool {
    exists|k: int| {
        &&& 0 <= k < sites.len()
        &&& sites[k] == (j, b.0, b.1)
        &&& !rst.contains(j)
        &&& first_nearest_stand(grid, content, b, from, t)
        &&& forall|i: int|
            0 <= i < sites.len() && !rst.contains(#[trigger] sites[i].0) && (manhattan((sites[i].1, sites[i].2), from)
                < manhattan(b, from) || (manhattan((sites[i].1, sites[i].2), from) == manhattan(b, from) && i < k))
                ==> !has_stand(grid, content, (sites[i].1, sites[i].2), from)
    }
}

/// What colonist `m` of `mid` becomes in its turn (`f`, with outcome `o`), given the
/// stands `rs`, beds `rb` and sites `rst` claimed earlier in the round. A colonist with
/// a task keeps it. An idle one that is hungry and can get food eats, unless it should
/// try its bed first (`sleep_first`) and can; one that wants sleep and can reach the
/// nearest free bed sleeps there; otherwise it builds at the nearest site it can work
/// at; otherwise, if its path has run out, it wanders: surely when fewer of its wander
/// cells are out of reach than are tried, never when all of them are.
pub open spec fn decide(
    grid: &WorldGrid,
    content: &ContentRegistry,
    mid: Colony,
    m: ColonistState,
    f: ColonistState,
    sleep_first: bool,
    bushes: Seq<(i32, i32)>,
    beds: Seq<(usize, i32, i32)>,
    sites: Seq<(usize, i32, i32)>,
    rs: Seq<(i32, i32)>,
    rb: Seq<usize>,
    rst: Seq<usize>,
    o: Outcome,
) -> bool {
    let cols = mid.colonists@;
    let food = is_hungry(m, content) && food_ok(grid, content, cols, m.entity, m.cell, rs, bushes);
    let sleep = wants_sleep(m, content) && bed_ok(grid, content, cols, m.entity, m.cell, beds, rb);
    if m.task.kind != TaskKind::Idle {
        o == Outcome::Unchanged && f == m
    } else if food && !(sleep_first && sleep) {
        &&& o == Outcome::Eat
        &&& eat_assigned(grid, content, mid, m, f)
        &&& eat_pick(grid, content, cols, m.entity, m.cell, rs, bushes, (f.task.building_x, f.task.building_y), task_target(f))
    } else if sleep {
        &&& o is Sleep
        &&& sleep_core(grid, content, mid, m, f, o->Sleep_0 as int)
        &&& exists|k: int| nearest_bed_at(beds, rb, m.cell, (o->Sleep_0, f.task.building_x, f.task.building_y), k)
    } else if build_ok(grid, content, m.cell, sites, rst) {
        &&& o is Build
        &&& build_core(grid, content, mid, m, f, o->Build_0 as int)
        &&& build_pick(grid, content, m.cell, sites, rst, o->Build_0, (f.task.building_x, f.task.building_y), task_target(f))
    } else if m.path.done() {
        let cells = wander_cells(grid, content, cols, m.entity, m.cell);
        let stuck = wander_stuck(grid, content, cols, m.entity, m.cell);
        &&& (o == Outcome::Wander && wandering(grid, content, mid, m, f)) || (o == Outcome::Unchanged && f == m)
        &&& stuck.len() < cells.len() && stuck.len() < WANDER_PICK_ATTEMPTS ==> o == Outcome::Wander
        &&& (forall|c: (i32, i32)|
            #[trigger] wander_ok(grid, content, cols, m.entity, m.cell, c) ==> !reachable(
                grid,
                content,
                blocked_seq(cols, m.entity),
                m.cell,
                c,
            )) ==> o == Outcome::Unchanged
    } else {
        o == Outcome::Unchanged && f == m
    }
}

/// The stands claimed by the eaters among the first `i` turns of a round with
/// outcomes `h`, whose colonists ended as `cols`.
pub open spec fn stands_of(h: Seq<Outcome>, cols: Seq<ColonistState>, i: int) -> Seq<(i32, i32)>
    decreases i,
{
    if i <= 0 {
        Seq::empty()
    } else if h[i - 1] == Outcome::Eat {
        stands_of(h, cols, i - 1).push(task_target(cols[i - 1]))
    } else {
        stands_of(h, cols, i - 1)
    }
}

/// The beds claimed in the first `i` turns.
pub open spec fn beds_of(h: Seq<Outcome>, i: int) -> Seq<usize>
    decreases i,
{
    if i <= 0 {
        Seq::empty()
    } else if h[i - 1] is Sleep {
        beds_of(h, i - 1).push(h[i - 1]->Sleep_0)
    } else {
        beds_of(h, i - 1)
    }
}

/// The sites claimed in the first `i` turns.
pub open spec fn sites_of(h: Seq<Outcome>, i: int) -> Seq<usize>
    decreases i,
{
    if i <= 0 {
        Seq::empty()
    } else if h[i - 1] is Build {
        sites_of(h, i - 1).push(h[i - 1]->Build_0)
    } else {
        sites_of(h, i - 1)
    }
}

/// The claims of a round's first `n` turns depend on those turns only.
proof fn lemma_claims_prefix(h1: Seq<Outcome>, c1: Seq<ColonistState>, h2: Seq<Outcome>, c2: Seq<ColonistState>, n: int)
    requires
        0 <= n <= h1.len(),
        n <= h2.len(),
        n <= c1.len(),
        n <= c2.len(),
        forall|k: int| 0 <= k < n ==> h1[k] == h2[k] && c1[k] == c2[k],
    ensures
        stands_of(h1, c1, n) == stands_of(h2, c2, n),
        beds_of(h1, n) == beds_of(h2, n),
        sites_of(h1, n) == sites_of(h2, n),
    decreases n,
{
    if n > 0 {
        lemma_claims_prefix(h1, c1, h2, c2, n - 1);
    }
}

/// A bed or site claimed in one of the first `i` turns is among their claims.
proof fn lemma_claim_listed(h: Seq<Outcome>, i: int, k: int)
    requires
        0 <= k < i <= h.len(),
    ensures
        h[k] is Sleep ==> beds_of(h, i).contains(h[k]->Sleep_0),
        h[k] is Build ==> sites_of(h, i).contains(h[k]->Build_0),
    decreases i,
{
    if k < i - 1 {
        lemma_claim_listed(h, i - 1, k);
        if h[k] is Sleep {
            let bs = beds_of(h, i - 1);
            let q = choose|q: int| 0 <= q < bs.len() && #[trigger] bs[q] == h[k]->Sleep_0;
            assert(beds_of(h, i)[q] == h[k]->Sleep_0);
        }
        if h[k] is Build {
            let ss = sites_of(h, i - 1);
            let q = choose|q: int| 0 <= q < ss.len() && #[trigger] ss[q] == h[k]->Build_0;
            assert(sites_of(h, i)[q] == h[k]->Build_0);
        }
    } else {
        if h[k] is Sleep {
            assert(beds_of(h, i)[beds_of(h, i).len() - 1] == h[k]->Sleep_0);
        }
        if h[k] is Build {
            assert(sites_of(h, i)[sites_of(h, i).len() - 1] == h[k]->Build_0);
        }
    }
}

/// `fin` is `mid` after a round whose turns had outcomes `h`: each turn as `decide`
/// says, given what the turns before it claimed; a bed or site changes exactly when a
/// turn claims it, and then records the claim.
pub open spec fn round_follows(
    grid: &WorldGrid,
    content: &ContentRegistry,
    mid: Colony,
    fin: Colony,
    prefer: Seq<bool>,
    bushes: Seq<(i32, i32)>,
    beds: Seq<(usize, i32, i32)>,
    sites: Seq<(usize, i32, i32)>,
    h: Seq<Outcome>,
) -> bool {
    &&& h.len() == mid.colonists@.len()
    &&& prefer.len() == mid.colonists@.len()
    &&& fin.colonists@.len() == mid.colonists@.len()
    &&& forall|i: int|
        0 <= i < h.len() ==> decide(
            grid,
            content,
            mid,
            mid.colonists@[i],
            #[trigger] fin.colonists@[i],
            prefer[i],
            bushes,
            beds,
            sites,
            stands_of(h, fin.colonists@, i),
            beds_of(h, i),
            sites_of(h, i),
            h[i],
        )
    &&& fin.buildings@.len() == mid.buildings@.len()
    &&& forall|i: int|
        0 <= i < h.len() && (#[trigger] h[i]) is Sleep ==> fin.buildings@[h[i]->Sleep_0 as int] == BuildingState {
            occupancy: Some(BedOccupancy { reserved_by: Some(mid.colonists@[i].entity) }),
            ..mid.buildings@[h[i]->Sleep_0 as int]
        }
    &&& forall|j: int|
        0 <= j < mid.buildings@.len() && !beds_of(h, h.len() as int).contains(j as usize) ==> #[trigger] fin.buildings@[j]
            == mid.buildings@[j]
    &&& fin.sites@.len() == mid.sites@.len()
    &&& forall|i: int|
        0 <= i < h.len() && (#[trigger] h[i]) is Build ==> fin.sites@[h[i]->Build_0 as int] == SiteState {
            site: ConstructionSite { reserved_by: Some(mid.colonists@[i].entity), ..mid.sites@[h[i]->Build_0 as int].site },
            ..mid.sites@[h[i]->Build_0 as int]
        }
    &&& forall|j: int|
        0 <= j < mid.sites@.len() && !sites_of(h, h.len() as int).contains(j as usize) ==> #[trigger] fin.sites@[j]
            == mid.sites@[j]
}

/// The state of a round after its first `i` turns, with outcomes `hist` and the claims
/// `rs`, `rb`, `rst` made so far.
#[verifier::opaque]
pub open spec fn round_inv(
    grid: &WorldGrid,
    content: &ContentRegistry,
    m0: Colony,
    cur: Colony,
    hist: Seq<Outcome>,
    i: int,
    prefer: Seq<bool>,
    bushes: Seq<(i32, i32)>,
    beds: Seq<(usize, i32, i32)>,
    sites: Seq<(usize, i32, i32)>,
    rs: Seq<(i32, i32)>,
    rb: Seq<usize>,
    rst: Seq<usize>,
) -> bool {
    &&& hist.len() == i
    &&& rs == stands_of(hist, cur.colonists@, i)
    &&& rb == beds_of(hist, i)
    &&& rst == sites_of(hist, i)
    &&& forall|k: int|
        0 <= k < i ==> decide(
            grid,
            content,
            m0,
            m0.colonists@[k],
            #[trigger] cur.colonists@[k],
            prefer[k],
            bushes,
            beds,
            sites,
            stands_of(hist, cur.colonists@, k),
            beds_of(hist, k),
            sites_of(hist, k),
            hist[k],
        )
    &&& forall|k: int|
        0 <= k < i && (#[trigger] hist[k]) is Sleep ==> hist[k]->Sleep_0 < m0.buildings@.len() && cur.buildings@[hist[k]->Sleep_0 as int]
            == (BuildingState {
            occupancy: Some(BedOccupancy { reserved_by: Some(m0.colonists@[k].entity) }),
            ..m0.buildings@[hist[k]->Sleep_0 as int]
        })
    &&& forall|j: int|
        0 <= j < m0.buildings@.len() && !beds_of(hist, i).contains(j as usize) ==> #[trigger] cur.buildings@[j]
            == m0.buildings@[j]
    &&& forall|k: int|
        0 <= k < i && (#[trigger] hist[k]) is Build ==> hist[k]->Build_0 < m0.sites@.len() && cur.sites@[hist[k]->Build_0 as int]
            == (SiteState {
            site: ConstructionSite { reserved_by: Some(m0.colonists@[k].entity), ..m0.sites@[hist[k]->Build_0 as int].site },
            ..m0.sites@[hist[k]->Build_0 as int]
        })
    &&& forall|j: int|
        0 <= j < m0.sites@.len() && !sites_of(hist, i).contains(j as usize) ==> #[trigger] cur.sites@[j] == m0.sites@[j]
}

/// One turn of the round keeps `round_inv`.
proof fn lemma_round_step(
    grid: &WorldGrid,
    content: &ContentRegistry,
    m0: Colony,
    before: Colony,
    after: Colony,
    hist: Seq<Outcome>,
    i: int,
    r: Outcome,
    prefer: Seq<bool>,
    bushes: Seq<(i32, i32)>,
    beds: Seq<(usize, i32, i32)>,
    sites: Seq<(usize, i32, i32)>,
    rs0: Seq<(i32, i32)>,
    rb0: Seq<usize>,
    rst0: Seq<usize>,
    rs1: Seq<(i32, i32)>,
    rb1: Seq<usize>,
    rst1: Seq<usize>,
)
    requires
        round_inv(grid, content, m0, before, hist, i, prefer, bushes, beds, sites, rs0, rb0, rst0),
        0 <= i < before.colonists@.len(),
        after.colonists@.len() == before.colonists@.len(),
        before.buildings@.len() == m0.buildings@.len(),
        before.sites@.len() == m0.sites@.len(),
        forall|k: int| 0 <= k < before.colonists@.len() && k != i ==> #[trigger] after.colonists@[k] == before.colonists@[k],
        decide(
            grid,
            content,
            m0,
            m0.colonists@[i],
            after.colonists@[i],
            prefer[i],
            bushes,
            beds,
            sites,
            rs0,
            rb0,
            rst0,
            r,
        ),
        r is Sleep ==> {
            &&& !rb0.contains(r->Sleep_0)
            &&& r->Sleep_0 < m0.buildings@.len()
            &&& after.buildings@ == before.buildings@.update(
                r->Sleep_0 as int,
                BuildingState {
                    occupancy: Some(BedOccupancy { reserved_by: Some(m0.colonists@[i].entity) }),
                    ..before.buildings@[r->Sleep_0 as int]
                },
            )
        },
        !(r is Sleep) ==> after.buildings == before.buildings,
        r is Build ==> {
            &&& !rst0.contains(r->Build_0)
            &&& r->Build_0 < m0.sites@.len()
            &&& after.sites@ == before.sites@.update(
                r->Build_0 as int,
                SiteState {
                    site: ConstructionSite { reserved_by: Some(m0.colonists@[i].entity), ..before.sites@[r->Build_0 as int].site },
                    ..before.sites@[r->Build_0 as int]
                },
            )
        },
        !(r is Build) ==> after.sites == before.sites,
        rs1 == (if r == Outcome::Eat { rs0.push(task_target(after.colonists@[i])) } else { rs0 }),
        rb1 == (if r is Sleep { rb0.push(r->Sleep_0) } else { rb0 }),
        rst1 == (if r is Build { rst0.push(r->Build_0) } else { rst0 }),
    ensures
        round_inv(grid, content, m0, after, hist.push(r), i + 1, prefer, bushes, beds, sites, rs1, rb1, rst1),
{
    reveal(round_inv);
    let h2 = hist.push(r);
    let cols2 = after.colonists@;
    assert forall|k: int| 0 <= k < i implies h2[k] == hist[k] && #[trigger] cols2[k] == before.colonists@[k] by {
    }
    lemma_claims_prefix(hist, before.colonists@, h2, cols2, i);
    assert(h2[i] == r);
    assert(stands_of(h2, cols2, i + 1) == rs1);
    assert(beds_of(h2, i + 1) == rb1);
    assert(sites_of(h2, i + 1) == rst1);
    assert forall|k: int|
        0 <= k < i + 1 implies decide(
            grid,
            content,
            m0,
            m0.colonists@[k],
            #[trigger] cols2[k],
            prefer[k],
            bushes,
            beds,
            sites,
            stands_of(h2, cols2, k),
            beds_of(h2, k),
            sites_of(h2, k),
            h2[k],
        ) by {
        lemma_claims_prefix(hist, before.colonists@, h2, cols2, k);
        if k < i {
            assert(cols2[k] == before.colonists@[k]);
        }
    }
    assert forall|k: int|
        0 <= k < i + 1 && (#[trigger] h2[k]) is Sleep implies h2[k]->Sleep_0 < m0.buildings@.len()
            && after.buildings@[h2[k]->Sleep_0 as int] == (BuildingState {
            occupancy: Some(BedOccupancy { reserved_by: Some(m0.colonists@[k].entity) }),
            ..m0.buildings@[h2[k]->Sleep_0 as int]
        }) by {
        if k < i {
            assert(hist[k] == h2[k]);
            lemma_claim_listed(hist, i, k);
        } else {
            assert(before.buildings@[r->Sleep_0 as int] == m0.buildings@[r->Sleep_0 as int]);
        }
    }
    assert forall|j: int|
        0 <= j < m0.buildings@.len() && !beds_of(h2, i + 1).contains(j as usize) implies #[trigger] after.buildings@[j]
            == m0.buildings@[j] by {
        if rb0.contains(j as usize) {
            let q = choose|q: int| 0 <= q < rb0.len() && rb0[q] == j as usize;
            assert(rb1[q] == j as usize);
        }
        if r is Sleep {
            assert(rb1[rb0.len() as int] == r->Sleep_0);
        }
        assert(before.buildings@[j] == m0.buildings@[j]);
    }
    assert forall|k: int|
        0 <= k < i + 1 && (#[trigger] h2[k]) is Build implies h2[k]->Build_0 < m0.sites@.len() && after.sites@[h2[k]->Build_0 as int]
            == (SiteState {
            site: ConstructionSite { reserved_by: Some(m0.colonists@[k].entity), ..m0.sites@[h2[k]->Build_0 as int].site },
            ..m0.sites@[h2[k]->Build_0 as int]
        }) by {
        if k < i {
            assert(hist[k] == h2[k]);
            lemma_claim_listed(hist, i, k);
        } else {
            assert(before.sites@[r->Build_0 as int] == m0.sites@[r->Build_0 as int]);
        }
    }
    assert forall|j: int|
        0 <= j < m0.sites@.len() && !sites_of(h2, i + 1).contains(j as usize) implies #[trigger] after.sites@[j]
            == m0.sites@[j] by {
        if rst0.contains(j as usize) {
            let q = choose|q: int| 0 <= q < rst0.len() && rst0[q] == j as usize;
            assert(rst1[q] == j as usize);
        }
        if r is Build {
            assert(rst1[rst0.len() as int] == r->Build_0);
        }
        assert(before.sites@[j] == m0.sites@[j]);
    }
}

/// The start of a round.
proof fn lemma_round_start(
    grid: &WorldGrid,
    content: &ContentRegistry,
    m0: Colony,
    prefer: Seq<bool>,
    bushes: Seq<(i32, i32)>,
    beds: Seq<(usize, i32, i32)>,
    sites: Seq<(usize, i32, i32)>,
)
    ensures
        round_inv(grid, content, m0, m0, Seq::empty(), 0, prefer, bushes, beds, sites, Seq::empty(), Seq::empty(), Seq::empty()),
{
    reveal(round_inv);
}

/// The end of a round.
proof fn lemma_round_done(
    grid: &WorldGrid,
    content: &ContentRegistry,
    m0: Colony,
    fin: Colony,
    hist: Seq<Outcome>,
    prefer: Seq<bool>,
    bushes: Seq<(i32, i32)>,
    beds: Seq<(usize, i32, i32)>,
    sites: Seq<(usize, i32, i32)>,
    rs: Seq<(i32, i32)>,
    rb: Seq<usize>,
    rst: Seq<usize>,
)
    requires
        round_inv(grid, content, m0, fin, hist, m0.colonists@.len() as int, prefer, bushes, beds, sites, rs, rb, rst),
        prefer.len() == m0.colonists@.len(),
        fin.colonists@.len() == m0.colonists@.len(),
        fin.buildings@.len() == m0.buildings@.len(),
        fin.sites@.len() == m0.sites@.len(),
    ensures
        round_follows(grid, content, m0, fin, prefer, bushes, beds, sites, hist),
{
    reveal(round_inv);
}

impl Colony {
    /// The turn of colonist `i` in `assign_idle_colonists`.
    fn assign_one(
        &mut self,
        i: usize,
        Ghost(m0): Ghost<Colony>,
        grid: &WorldGrid,
        content: &ContentRegistry,
        occ: &Occupancy,
        sleep_first: bool,
        bushes: &Vec<(i32, i32)>,
        beds: &Vec<(usize, i32, i32)>,
        sites: &Vec<(usize, i32, i32)>,
        reserved_stands: &Vec<(i32, i32)>,
        reserved_beds: &Vec<usize>,
        reserved_sites: &Vec<usize>,
    ) -> (r: Outcome)
        requires
            i < old(self).colonists@.len(),
            old(self).colonists@.len() == m0.colonists@.len(),
            old(self).colonists@[i as int] == m0.colonists@[i as int],
            same_places(m0.colonists@, old(self).colonists@),
            grid.wf(content),
            occ.wf(),
            forall|c: (i32, i32)| #[trigger] occ.at(c) == occupant(m0.colonists@, c),
            lists_from(m0, content, bushes@, beds@, sites@),
            old(self).buildings@.len() == m0.buildings@.len(),
            old(self).sites@.len() == m0.sites@.len(),
        ensures
            final(self).colonists@.len() == old(self).colonists@.len(),
            forall|k: int| 0 <= k < old(self).colonists@.len() && k != i ==> #[trigger] final(self).colonists@[k] == old(self).colonists@[k],
            handled(grid, content, m0, m0.colonists@[i as int], final(self).colonists@[i as int], outcome_bed(r), outcome_site(r)),
            m0.colonists@[i as int].task.kind != TaskKind::Idle ==> r == Outcome::Unchanged,
            r == Outcome::Unchanged ==> final(self).colonists@[i as int] == old(self).colonists@[i as int],
            r == Outcome::Wander ==> wandering(grid, content, m0, m0.colonists@[i as int], final(self).colonists@[i as int]),
            r == Outcome::Eat ==> eat_assigned(grid, content, m0, m0.colonists@[i as int], final(self).colonists@[i as int])
                && !listed(reserved_stands@, final(self).colonists@[i as int].task.target_x as int, final(self).colonists@[i as int].task.target_y as int),
            r matches Outcome::Sleep(j) ==> {
                &&& sleep_core(grid, content, m0, m0.colonists@[i as int], final(self).colonists@[i as int], j as int)
                &&& !reserved_beds@.contains(j)
                &&& final(self).buildings@ == old(self).buildings@.update(
                    j as int,
                    BuildingState { occupancy: Some(BedOccupancy { reserved_by: Some(m0.colonists@[i as int].entity) }), ..old(self).buildings@[j as int] },
                )
            },
            r matches Outcome::Build(j) ==> {
                &&& build_core(grid, content, m0, m0.colonists@[i as int], final(self).colonists@[i as int], j as int)
                &&& !reserved_sites@.contains(j)
                &&& final(self).sites@ == old(self).sites@.update(
                    j as int,
                    SiteState { site: ConstructionSite { reserved_by: Some(m0.colonists@[i as int].entity), ..old(self).sites@[j as int].site }, ..old(self).sites@[j as int] },
                )
            },
            !(r is Sleep) ==> final(self).buildings == old(self).buildings,
            !(r is Build) ==> final(self).sites == old(self).sites,
            final(self).colonists@[i as int].task.kind == match r {
                Outcome::Eat => TaskKind::Eat,
                Outcome::Sleep(_) => TaskKind::Sleep,
                Outcome::Build(_) => TaskKind::Build,
                _ => m0.colonists@[i as int].task.kind,
            },
            final(self).decon_sites == old(self).decon_sites,
            final(self).next_entity == old(self).next_entity,
            decide(
                grid,
                content,
                m0,
                m0.colonists@[i as int],
                final(self).colonists@[i as int],
                sleep_first,
                bushes@,
                beds@,
                sites@,
                reserved_stands@,
                reserved_beds@,
                reserved_sites@,
                r,
            ),
    {
        proof {
            lemma_same_places_all(m0.colonists@, self.colonists@);
        }
        if self.colonists[i].task.kind != TaskKind::Idle {
            return Outcome::Unchanged;
        }
        let cell = self.colonists[i].cell;
        let e = self.colonists[i].entity;
        let hungry = self.colonists[i].statuses.has(content.hungry_status);
        let sleepy = self.colonists[i].statuses.has(content.wants_sleep_status);
        let path_done = self.colonists[i].path.index >= self.colonists[i].path.waypoints.len();
        let ghost m = m0.colonists@[i as int];
        let ghost food = is_hungry(m, content) && food_ok(grid, content, m0.colonists@, m.entity, m.cell, reserved_stands@, bushes@);
        let ghost sleep = wants_sleep(m, content) && bed_ok(grid, content, m0.colonists@, m.entity, m.cell, beds@, reserved_beds@);
        proof {
            lemma_needs_same(grid, content, self.colonists@, m0.colonists@, e, cell, reserved_stands@, bushes@, beds@, reserved_beds@);
        }
        let mut planned: Option<(PendingAssignment, Vec<(i32, i32)>)> = None;
        let mut planned_need = NeedKind::Food;
        if hungry || sleepy {
            let first = if sleep_first { NeedKind::Sleep } else { NeedKind::Food };
            let second = if sleep_first { NeedKind::Food } else { NeedKind::Sleep };
            let first_active = match first {
                NeedKind::Food => hungry,
                NeedKind::Sleep => sleepy,
            };
            if first_active {
                planned = plan_need(grid, content, &self.colonists, occ, cell, e, first, bushes, beds, reserved_stands, reserved_beds);
                planned_need = first;
            }
            if planned.is_none() {
                let second_active = match second {
                    NeedKind::Food => hungry,
                    NeedKind::Sleep => sleepy,
                };
                if second_active {
                    planned = plan_need(grid, content, &self.colonists, occ, cell, e, second, bushes, beds, reserved_stands, reserved_beds);
                    planned_need = second;
                }
            }
        }
        proof {
            assert(planned is Some <==> (food || sleep));
            if planned is Some {
                assert((planned_need == NeedKind::Food) <==> (food && !(sleep_first && sleep)));
            }
        }
        match planned {
            Some((a, wps)) => {
                let task = Task {
                    kind: a.task_kind,
                    building_x: a.building_x,
                    building_y: a.building_y,
                    target_x: a.target_x,
                    target_y: a.target_y,
                };
                self.give_task(i, task, wps);
                match a.bed {
                    Some(j) => {
                        proof {
                            let k = choose|k: int| nearest_bed_at(beds@, reserved_beds@, cell, (j, a.building_x, a.building_y), k);
                            assert(beds@[k].0 == j);
                            assert(sleep_core(grid, content, m0, m0.colonists@[i as int], self.colonists@[i as int], j as int));
                        }
                        self.claim_bed(j, e);
                        Outcome::Sleep(j)
                    },
                    None => {
                        proof {
                            assert(planned_need == NeedKind::Food);
                            assert(stocked_cell(m0.buildings@, content, (a.building_x, a.building_y)));
                            assert(eat_assigned(grid, content, m0, m0.colonists@[i as int], self.colonists@[i as int]));
                            assert(eat_pick(
                                grid,
                                content,
                                m0.colonists@,
                                e,
                                cell,
                                reserved_stands@,
                                bushes@,
                                (a.building_x, a.building_y),
                                (a.target_x, a.target_y),
                            ));
                        }
                        Outcome::Eat
                    },
                }
            },
            None => {
                match nearest_build_assignment(grid, content, cell, sites, reserved_sites) {
                    Some((sj, b, st)) => {
                        match find_path(grid, content, cell, st) {
                            Some(route) => {
                                let wps = waypoints_after_start(Ghost(grid), Ghost(content), Ghost(Seq::empty()), cell, st, &route);
                                let task = Task { kind: TaskKind::Build, building_x: b.0, building_y: b.1, target_x: st.0, target_y: st.1 };
                                self.give_task(i, task, wps);
                                proof {
                                    let k = choose|k: int| {
                                        &&& 0 <= k < sites@.len()
                                        &&& sites@[k] == (sj, b.0, b.1)
                                        &&& !reserved_sites@.contains(sj)
                                        &&& beside(b, st)
                                        &&& grid.spec_walkable(content, st.0 as int, st.1 as int)
                                        &&& reachable(grid, content, Seq::empty(), cell, st)
                                        &&& first_nearest_stand(grid, content, b, cell, st)
                                        &&& forall|j: int|
                                            0 <= j < sites@.len() && !reserved_sites@.contains(#[trigger] sites@[j].0) && (manhattan(
                                                (sites@[j].1, sites@[j].2),
                                                cell,
                                            ) < manhattan(b, cell) || (manhattan((sites@[j].1, sites@[j].2), cell) == manhattan(b, cell)
                                                && j < k)) ==> !has_stand(grid, content, (sites@[j].1, sites@[j].2), cell)
                                    };
                                    assert(sites@[k].0 == sj);
                                    assert(build_core(grid, content, m0, m0.colonists@[i as int], self.colonists@[i as int], sj as int));
                                    assert(build_pick(grid, content, cell, sites@, reserved_sites@, sj, b, st));
                                    let d = choose|d: int| 0 <= d < 4 && st.0 == b.0 + dir(d).0 && st.1 == b.1 + dir(d).1;
                                    assert(grid.spec_walkable(content, b.0 + dir(d).0, b.1 + dir(d).1));
                                    assert(has_stand(grid, content, (sites@[k].1, sites@[k].2), cell));
                                    assert(build_ok(grid, content, cell, sites@, reserved_sites@));
                                }
                                self.claim_site(sj, e);
                                Outcome::Build(sj)
                            },
                            None => Outcome::Unchanged,
                        }
                    },
                    None => {
                        proof {
                            if build_ok(grid, content, cell, sites@, reserved_sites@) {
                                let j = choose|j: int|
                                    0 <= j < sites@.len() && !reserved_sites@.contains(sites@[j].0) && #[trigger] has_stand(
                                        grid,
                                        content,
                                        (sites@[j].1, sites@[j].2),
                                        cell,
                                    );
                                assert(!has_stand(grid, content, (sites@[j].1, sites@[j].2), cell));
                            }
                        }
                        if path_done {
                            proof {
                                assert(wander_cells(grid, content, self.colonists@, e, cell) =~= wander_cells(
                                    grid,
                                    content,
                                    m0.colonists@,
                                    e,
                                    cell,
                                ));
                                assert(wander_stuck(grid, content, self.colonists@, e, cell) =~= wander_stuck(
                                    grid,
                                    content,
                                    m0.colonists@,
                                    e,
                                    cell,
                                ));
                                assert(blocked_seq(self.colonists@, e) == blocked_seq(m0.colonists@, e));
                            }
                            match pick_wander_target(grid, content, &self.colonists, occ, cell, e) {
                                Some(w) => {
                                    let task = self.colonists[i].task;
                                    self.give_task(i, task, w);
                                    proof {
                                        assert(wandering(grid, content, m0, m0.colonists@[i as int], self.colonists@[i as int]));
                                    }
                                    Outcome::Wander
                                },
                                None => Outcome::Unchanged,
                            }
                        } else {
                            Outcome::Unchanged
                        }
                    },
                }
            },
        }
    }

    /// Gives each idle colonist, in list order, something to do. A hungry or sleepy
    /// colonist looks for food and then a bed (a bed first if `prefer_sleep_first` says
    /// so); failing that, any idle colonist takes the nearest open construction site;
    /// failing that, one whose path has run out wanders.
    pub fn assign_idle_colonists(
        &mut self,
        grid: &WorldGrid,
        content: &ContentRegistry,
        occ: &Occupancy,
        prefer_sleep_first: &Vec<bool>,
        bushes: &Vec<(i32, i32)>,
        beds: &Vec<(usize, i32, i32)>,
        sites: &Vec<(usize, i32, i32)>,
    )
        requires
            grid.wf(content),
            occ.wf(),
            forall|c: (i32, i32)| #[trigger] occ.at(c) == occupant(old(self).colonists@, c),
            prefer_sleep_first@.len() == old(self).colonists@.len(),
            lists_from(*old(self), content, bushes@, beds@, sites@),
        ensures
            assignment_done(*old(self), *final(self), grid, content),
            exists|h: Seq<Outcome>|
                round_follows(grid, content, *old(self), *final(self), prefer_sleep_first@, bushes@, beds@, sites@, h),
    {
        let ghost m0 = *self;
        let ghost n = m0.colonists@.len() as int;
        let ghost nb = m0.buildings@.len() as int;
        let ghost ns = m0.sites@.len() as int;
        let ghost mut bed_of: Seq<int> = Seq::new(n as nat, |k: int| -1int);
        let ghost mut site_of: Seq<int> = Seq::new(n as nat, |k: int| -1int);
        let ghost mut bed_claimant: Seq<int> = Seq::new(nb as nat, |j: int| -1int);
        let ghost mut site_claimant: Seq<int> = Seq::new(ns as nat, |j: int| -1int);
        let mut reserved_beds: Vec<usize> = Vec::new();
        let mut reserved_sites: Vec<usize> = Vec::new();
        let mut reserved_stands: Vec<(i32, i32)> = Vec::new();
        let ghost mut hist: Seq<Outcome> = Seq::empty();
        proof {
            lemma_round_start(grid, content, m0, prefer_sleep_first@, bushes@, beds@, sites@);
            assert(reserved_stands@ == Seq::<(i32, i32)>::empty());
            assert(reserved_beds@ == Seq::<usize>::empty());
            assert(reserved_sites@ == Seq::<usize>::empty());
        }
        let mut i: usize = 0;
        while i < self.colonists.len()
            invariant
                0 <= i <= n,
                n == m0.colonists@.len(),
                nb == m0.buildings@.len(),
                ns == m0.sites@.len(),
                self.colonists@.len() == n,
                grid.wf(content),
                occ.wf(),
                forall|c: (i32, i32)| #[trigger] occ.at(c) == occupant(m0.colonists@, c),
                prefer_sleep_first@.len() == n,
                lists_from(m0, content, bushes@, beds@, sites@),
                same_places(m0.colonists@, self.colonists@),
                forall|k: int| i <= k < n ==> #[trigger] self.colonists@[k] == m0.colonists@[k],
                bed_of.len() == n,
                site_of.len() == n,
                bed_claimant.len() == nb,
                site_claimant.len() == ns,
                forall|k: int| 0 <= k < i ==> handled(grid, content, m0, m0.colonists@[k], #[trigger] self.colonists@[k], bed_of[k], site_of[k]),
                forall|k: int| 0 <= k < i && m0.colonists@[k].task.kind == TaskKind::Idle && (#[trigger] self.colonists@[k]).task.kind == TaskKind::Sleep
                    ==> sleep_core(grid, content, m0, m0.colonists@[k], self.colonists@[k], bed_of[k]) && bed_claimant[bed_of[k]] == k,
                forall|k: int| 0 <= k < i && m0.colonists@[k].task.kind == TaskKind::Idle && (#[trigger] self.colonists@[k]).task.kind == TaskKind::Build
                    ==> build_core(grid, content, m0, m0.colonists@[k], self.colonists@[k], site_of[k]) && site_claimant[site_of[k]] == k,
                self.buildings@.len() == nb,
                forall|j: int| 0 <= j < nb ==> if #[trigger] bed_claimant[j] == -1 {
                    self.buildings@[j] == m0.buildings@[j]
                } else {
                    &&& 0 <= bed_claimant[j] < i
                    &&& bed_of[bed_claimant[j]] == j
                    &&& m0.colonists@[bed_claimant[j]].task.kind == TaskKind::Idle
                    &&& self.colonists@[bed_claimant[j]].task.kind == TaskKind::Sleep
                    &&& self.buildings@[j] == BuildingState {
                        occupancy: Some(BedOccupancy { reserved_by: Some(m0.colonists@[bed_claimant[j]].entity) }),
                        ..m0.buildings@[j]
                    }
                },
                forall|q: int| 0 <= q < reserved_beds@.len() ==> #[trigger] reserved_beds@[q] < nb && bed_claimant[reserved_beds@[q] as int] != -1,
                forall|j: int| 0 <= j < nb && #[trigger] bed_claimant[j] != -1 ==> reserved_beds@.contains(j as usize),
                self.sites@.len() == ns,
                forall|j: int| 0 <= j < ns ==> if #[trigger] site_claimant[j] == -1 {
                    self.sites@[j] == m0.sites@[j]
                } else {
                    &&& 0 <= site_claimant[j] < i
                    &&& site_of[site_claimant[j]] == j
                    &&& m0.colonists@[site_claimant[j]].task.kind == TaskKind::Idle
                    &&& self.colonists@[site_claimant[j]].task.kind == TaskKind::Build
                    &&& self.sites@[j] == SiteState {
                        site: ConstructionSite { reserved_by: Some(m0.colonists@[site_claimant[j]].entity), ..m0.sites@[j].site },
                        ..m0.sites@[j]
                    }
                },
                forall|q: int| 0 <= q < reserved_sites@.len() ==> #[trigger] reserved_sites@[q] < ns && site_claimant[reserved_sites@[q] as int] != -1,
                forall|j: int| 0 <= j < ns && #[trigger] site_claimant[j] != -1 ==> reserved_sites@.contains(j as usize),
                forall|k: int| 0 <= k < i && m0.colonists@[k].task.kind == TaskKind::Idle && (#[trigger] self.colonists@[k]).task.kind == TaskKind::Eat
                    ==> listed(reserved_stands@, self.colonists@[k].task.target_x as int, self.colonists@[k].task.target_y as int),
                forall|k1: int, k2: int|
                    0 <= k1 < k2 < i && m0.colonists@[k1].task.kind == TaskKind::Idle
                        && m0.colonists@[k2].task.kind == TaskKind::Idle && (#[trigger] self.colonists@[k1]).task.kind == TaskKind::Eat
                        && (#[trigger] self.colonists@[k2]).task.kind == TaskKind::Eat ==> task_target(self.colonists@[k1]) != task_target(self.colonists@[k2]),
                self.decon_sites == m0.decon_sites,
                self.next_entity == m0.next_entity,
                round_inv(grid, content, m0, *self, hist, i as int, prefer_sleep_first@, bushes@, beds@, sites@, reserved_stands@, reserved_beds@, reserved_sites@),
            decreases n - i,
        {
            let ghost before = *self;
            let ghost rs0 = reserved_stands@;
            let ghost rb0 = reserved_beds@;
            let ghost rst0 = reserved_sites@;
            let r = self.assign_one(i, Ghost(m0), grid, content, occ, prefer_sleep_first[i], bushes, beds, sites, &reserved_stands, &reserved_beds, &reserved_sites);
            proof {
                bed_of = bed_of.update(i as int, outcome_bed(r));
                site_of = site_of.update(i as int, outcome_site(r));
            }
            match r {
                Outcome::Sleep(j) => {
                    proof {
                        if bed_claimant[j as int] != -1 {
                            assert(reserved_beds@.contains(j));
                        }
                        bed_claimant = bed_claimant.update(j as int, i as int);
                    }
                    let ghost rb0 = reserved_beds@;
                    reserved_beds.push(j);
                    proof {
                        assert forall|q: int| 0 <= q < reserved_beds@.len() implies #[trigger] reserved_beds@[q] < nb && bed_claimant[reserved_beds@[q] as int] != -1 by {
                            if q < rb0.len() {
                                assert(rb0[q] == reserved_beds@[q]);
                            }
                        }
                        assert forall|jj: int| 0 <= jj < nb && #[trigger] bed_claimant[jj] != -1 implies reserved_beds@.contains(jj as usize) by {
                            if jj != j {
                                let q = choose|q: int| 0 <= q < rb0.len() && rb0[q] == jj as usize;
                                assert(reserved_beds@[q] == jj as usize);
                            } else {
                                assert(reserved_beds@[rb0.len() as int] == j);
                            }
                        }
                    }
                },
                Outcome::Build(j) => {
                    proof {
                        if site_claimant[j as int] != -1 {
                            assert(reserved_sites@.contains(j));
                        }
                        site_claimant = site_claimant.update(j as int, i as int);
                    }
                    let ghost rs0 = reserved_sites@;
                    reserved_sites.push(j);
                    proof {
                        assert forall|q: int| 0 <= q < reserved_sites@.len() implies #[trigger] reserved_sites@[q] < ns && site_claimant[reserved_sites@[q] as int] != -1 by {
                            if q < rs0.len() {
                                assert(rs0[q] == reserved_sites@[q]);
                            }
                        }
                        assert forall|jj: int| 0 <= jj < ns && #[trigger] site_claimant[jj] != -1 implies reserved_sites@.contains(jj as usize) by {
                            if jj != j {
                                let q = choose|q: int| 0 <= q < rs0.len() && rs0[q] == jj as usize;
                                assert(reserved_sites@[q] == jj as usize);
                            } else {
                                assert(reserved_sites@[rs0.len() as int] == j);
                            }
                        }
                    }
                },
                Outcome::Eat => {
                    let t = (self.colonists[i].task.target_x, self.colonists[i].task.target_y);
                    let ghost st0 = reserved_stands@;
                    reserved_stands.push(t);
                    proof {
                        assert(reserved_stands@[st0.len() as int] == t);
                        assert forall|k: int| 0 <= k < i + 1 && m0.colonists@[k].task.kind == TaskKind::Idle && (#[trigger] self.colonists@[k]).task.kind == TaskKind::Eat
                            implies listed(reserved_stands@, self.colonists@[k].task.target_x as int, self.colonists@[k].task.target_y as int) by {
                            if k < i {
                                assert(before.colonists@[k] == self.colonists@[k]);
                                let q = choose|q: int| 0 <= q < st0.len() && st0[q].0 == self.colonists@[k].task.target_x && st0[q].1 == self.colonists@[k].task.target_y;
                                assert(reserved_stands@[q] == st0[q]);
                            }
                        }
                        assert forall|k1: int, k2: int|
                            0 <= k1 < k2 < i + 1 && m0.colonists@[k1].task.kind == TaskKind::Idle
                                && m0.colonists@[k2].task.kind == TaskKind::Idle && (#[trigger] self.colonists@[k1]).task.kind == TaskKind::Eat
                                && (#[trigger] self.colonists@[k2]).task.kind == TaskKind::Eat implies task_target(self.colonists@[k1]) != task_target(self.colonists@[k2]) by {
                            if k2 == i {
                                assert(before.colonists@[k1] == self.colonists@[k1]);
                                assert(listed(st0, self.colonists@[k1].task.target_x as int, self.colonists@[k1].task.target_y as int));
                            } else {
                                assert(before.colonists@[k1] == self.colonists@[k1]);
                                assert(before.colonists@[k2] == self.colonists@[k2]);
                            }
                        }
                    }
                },
                _ => {},
            }
            proof {
                lemma_round_step(
                    grid,
                    content,
                    m0,
                    before,
                    *self,
                    hist,
                    i as int,
                    r,
                    prefer_sleep_first@,
                    bushes@,
                    beds@,
                    sites@,
                    rs0,
                    rb0,
                    rst0,
                    reserved_stands@,
                    reserved_beds@,
                    reserved_sites@,
                );
                hist = hist.push(r);
            }
            i += 1;
        }
        proof {
            let fin = *self;
            lemma_round_done(grid, content, m0, fin, hist, prefer_sleep_first@, bushes@, beds@, sites@, reserved_stands@, reserved_beds@, reserved_sites@);
            assert forall|k: int| 0 <= k < n implies assign_outcome(grid, content, m0, fin, m0.colonists@[k], #[trigger] fin.colonists@[k]) by {
                assert(handled(grid, content, m0, m0.colonists@[k], fin.colonists@[k], bed_of[k], site_of[k]));
                if m0.colonists@[k].task.kind == TaskKind::Idle && fin.colonists@[k].task.kind == TaskKind::Sleep {
                    assert(sleep_assigned_at(grid, content, m0, fin, m0.colonists@[k], fin.colonists@[k], bed_of[k]));
                }
                if m0.colonists@[k].task.kind == TaskKind::Idle && fin.colonists@[k].task.kind == TaskKind::Build {
                    assert(build_assigned_at(grid, content, m0, fin, m0.colonists@[k], fin.colonists@[k], site_of[k]));
                }
            }
            assert forall|j: int| 0 <= j < nb implies #[trigger] fin.buildings@[j] == m0.buildings@[j] || exists|k: int|
                0 <= k < n && sleep_assigned_at(grid, content, m0, fin, m0.colonists@[k], #[trigger] fin.colonists@[k], j) by {
                if bed_claimant[j] != -1 {
                    let k = bed_claimant[j];
                    assert(sleep_core(grid, content, m0, m0.colonists@[k], fin.colonists@[k], bed_of[k]));
                    assert(sleep_assigned_at(grid, content, m0, fin, m0.colonists@[k], fin.colonists@[k], j));
                }
            }
            assert forall|j: int| 0 <= j < ns implies #[trigger] fin.sites@[j] == m0.sites@[j] || exists|k: int|
                0 <= k < n && build_assigned_at(grid, content, m0, fin, m0.colonists@[k], #[trigger] fin.colonists@[k], j) by {
                if site_claimant[j] != -1 {
                    let k = site_claimant[j];
                    assert(build_core(grid, content, m0, m0.colonists@[k], fin.colonists@[k], site_of[k]));
                    assert(build_assigned_at(grid, content, m0, fin, m0.colonists@[k], fin.colonists@[k], j));
                }
            }
        }
    }
}

/// `fin` is `start` after one round of task assignment through `mid`: the release
/// phases, then the turns of the idle colonists, which draw on the stocked bushes, free
/// beds and open sites of `mid` in list order.
pub open spec fn round_done(start: Colony, mid: Colony, fin: Colony, grid: &WorldGrid, content: &ContentRegistry) -> bool {
    &&& release_steps(start, mid, grid, content)
    &&& releases_done(start, mid, grid, content)
    &&& assignment_done(mid, fin, grid, content)
    &&& exists|h: Seq<Outcome>|
        round_follows(
            grid,
            content,
            mid,
            fin,
            prefer_marks(start, grid, content),
            stocked_list(mid.buildings@, content, mid.buildings@.len() as int),
            free_bed_list(mid.buildings@, content, mid.buildings@.len() as int),
            open_site_list(mid.sites@, mid.sites@.len() as int),
            h,
        )
}

/// One round of task assignment: tasks that can no longer be carried out are given up
/// (`release_invalid_tasks`), then idle colonists are given work
/// (`assign_idle_colonists`).
pub fn auto_assign_tasks(colony: &mut Colony, grid: &WorldGrid, content: &ContentRegistry)
    requires
        grid.wf(content),
    ensures
        exists|mid: Colony| #![trigger round_done(*old(colony), mid, *final(colony), grid, content)]
            round_done(*old(colony), mid, *final(colony), grid, content),
{
    let prefer = colony.release_invalid_tasks(grid, content);
    let ghost mid = *colony;
    let occ = colony.colonist_occupancy_map();
    let bushes = colony.stocked_bushes(content);
    let beds = colony.free_beds(content);
    let sites = colony.open_sites();
    colony.assign_idle_colonists(grid, content, &occ, &prefer, &bushes, &beds, &sites);
    assert(round_done(*old(colony), mid, *colony, grid, content));
}

} // verus!
