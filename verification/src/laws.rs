//! Properties of the simulation that hold across its operations.
use vstd::prelude::*;

use crate::components::{idle_task, BerrySupply, ConstructionSite, Entity, TaskKind};
use crate::execution::{
    at_task_target, build_trace, build_turn, buildings_after_removals, can_eat, eat_turn, exec_step, exec_trace, first_site_on,
    grid_after_removals, no_site_on, sleep_turn, tick_done,
};
use crate::content::{
    building_ids, first_at, id_index, ids_unique, lemma_first_at_unique, lemma_id_index,
    lemma_registry_of_wf, need_ids, pack_error, raw_building_ids, raw_need_ids, raw_status_ids,
    raw_terrain_ids, registry_of, status_ids, terrain_ids, BuildingId, ContentPackRaw,
    ContentRegistry, NeedId, StatusId, TerrainId,
};
use crate::game::{
    deconstructed, loaded_building, loaded_terrain, tile_shows, BuildingSnapshot, GameState, TileSnapshot,
};
use crate::movement::{occ_moved, snap_fold, snap_start, snap_step, snapped_colonist, next_waypoint};
use crate::pathfinding::{legal_step, listed, passable};
use crate::systems::{
    first_building_from, occupant, occupant_upto, statuses_synced, BuildingState, ColonistState, Colony, SiteState,
};
use crate::tasks::{
    assignment_done, blocked_seq, blocked_upto, build_assigned_at, drops_applied, eat_assigned, lemma_same_places_all,
    path_follows, release_steps, round_done, same_places, sleep_assigned_at, task_target, NeedKind,
};
use crate::world::{cell_index, generated_terrain, noise_bits, WorldGrid, GRID_CELLS, WORLD_SIZE};

verus! {

// ---------------------------------------------------------------------------
// Content
// ---------------------------------------------------------------------------

/// Looking up the name of building `b` of a well-formed registry gives `b` back.
pub proof fn lemma_building_id_round_trip(reg: &ContentRegistry, b: int)
    requires
        reg.wf(),
        0 <= b < reg.buildings@.len(),
    ensures
        id_index(building_ids(reg.buildings@), reg.buildings@[b].id@) == Some(b),
{
    let ids = building_ids(reg.buildings@);
    assert(ids_unique(ids));
    assert(ids[b] == reg.buildings@[b].id@);
    assert(first_at(ids, ids[b], b));
    lemma_id_index(ids, ids[b]);
    let k = id_index(ids, ids[b])->0;
    lemma_first_at_unique(ids, ids[b], k, b);
}

/// Looking up the name of terrain `t` of a well-formed registry gives `t` back.
pub proof fn lemma_terrain_id_round_trip(reg: &ContentRegistry, t: int)
    requires
        reg.wf(),
        0 <= t < reg.terrain@.len(),
    ensures
        id_index(terrain_ids(reg.terrain@), reg.terrain@[t].id@) == Some(t),
{
    let ids = terrain_ids(reg.terrain@);
    assert(ids_unique(ids));
    assert(ids[t] == reg.terrain@[t].id@);
    assert(first_at(ids, ids[t], t));
    lemma_id_index(ids, ids[t]);
    let k = id_index(ids, ids[t])->0;
    lemma_first_at_unique(ids, ids[t], k, t);
}

/// Looking up the name of need `n` of a well-formed registry gives `n` back.
pub proof fn lemma_need_id_round_trip(reg: &ContentRegistry, n: int)
    requires
        reg.wf(),
        0 <= n < reg.needs@.len(),
    ensures
        id_index(need_ids(reg.needs@), reg.needs@[n].id@) == Some(n),
{
    let ids = need_ids(reg.needs@);
    assert(ids_unique(ids));
    assert(ids[n] == reg.needs@[n].id@);
    assert(first_at(ids, ids[n], n));
    lemma_id_index(ids, ids[n]);
    let k = id_index(ids, ids[n])->0;
    lemma_first_at_unique(ids, ids[n], k, n);
}

/// Looking up the name of status `s` of a well-formed registry gives `s` back.
pub proof fn lemma_status_id_round_trip(reg: &ContentRegistry, s: int)
    requires
        reg.wf(),
        0 <= s < reg.statuses@.len(),
    ensures
        id_index(status_ids(reg.statuses@), reg.statuses@[s].id@) == Some(s),
{
    let ids = status_ids(reg.statuses@);
    assert(ids_unique(ids));
    assert(ids[s] == reg.statuses@[s].id@);
    assert(first_at(ids, ids[s], s));
    lemma_id_index(ids, ids[s]);
    let k = id_index(ids, ids[s])->0;
    lemma_first_at_unique(ids, ids[s], k, s);
}

/// A registry built from a pack keeps the pack's needs, statuses, terrain and
/// buildings in order under their names, and each base id it holds (food, sleep,
/// hungry, wants_sleep, grass, water, sand, berry_bush, bed, wall) is the one that
/// looking up that name gives.
pub proof fn lemma_pack_base_ids(reg: ContentRegistry, raw: ContentPackRaw)
    requires
        pack_error(raw) is None,
        registry_of(reg, raw),
    ensures
        reg.wf(),
        need_ids(reg.needs@) == raw_need_ids(raw.needs@),
        status_ids(reg.statuses@) == raw_status_ids(raw.statuses@),
        terrain_ids(reg.terrain@) == raw_terrain_ids(raw.terrain@),
        building_ids(reg.buildings@) == raw_building_ids(raw.buildings@),
        id_index(need_ids(reg.needs@), "food"@) matches Some(i) && reg.food_need == NeedId(i as u8),
        id_index(need_ids(reg.needs@), "sleep"@) matches Some(i) && reg.sleep_need == NeedId(i as u8),
        id_index(status_ids(reg.statuses@), "hungry"@) matches Some(i) && reg.hungry_status == StatusId(i as u8),
        id_index(status_ids(reg.statuses@), "wants_sleep"@) matches Some(i) && reg.wants_sleep_status == StatusId(
            i as u8,
        ),
        id_index(terrain_ids(reg.terrain@), "grass"@) matches Some(i) && reg.grass_terrain == TerrainId(i as u16),
        id_index(terrain_ids(reg.terrain@), "water"@) matches Some(i) && reg.water_terrain == TerrainId(i as u16),
        id_index(terrain_ids(reg.terrain@), "sand"@) matches Some(i) && reg.sand_terrain == TerrainId(i as u16),
        id_index(building_ids(reg.buildings@), "berry_bush"@) matches Some(i) && reg.berry_bush_building
            == BuildingId(i as u16),
        id_index(building_ids(reg.buildings@), "bed"@) matches Some(i) && reg.bed_building == BuildingId(
            i as u16,
        ),
        id_index(building_ids(reg.buildings@), "wall"@) matches Some(i) && reg.wall_building == BuildingId(
            i as u16,
        ),
{
    lemma_registry_of_wf(reg, raw);
    let nids = raw_need_ids(raw.needs@);
    assert(need_ids(reg.needs@) =~= nids);
    assert(terrain_ids(reg.terrain@) =~= raw_terrain_ids(raw.terrain@));
    assert forall|j: int| 0 <= j < reg.buildings@.len() implies #[trigger] building_ids(reg.buildings@)[j]
        == raw_building_ids(raw.buildings@)[j] by {
        assert(crate::content::building_matches(reg.buildings@[j], raw.buildings@[j], nids));
    }
    assert(building_ids(reg.buildings@) =~= raw_building_ids(raw.buildings@));
    assert forall|j: int| 0 <= j < reg.statuses@.len() implies #[trigger] status_ids(reg.statuses@)[j]
        == raw_status_ids(raw.statuses@)[j] by {
        assert(crate::content::status_matches(reg.statuses@[j], raw.statuses@[j], nids));
    }
    assert(status_ids(reg.statuses@) =~= raw_status_ids(raw.statuses@));
}

// ---------------------------------------------------------------------------
// Player orders
// ---------------------------------------------------------------------------

/// A second deconstruct order at the same cell changes nothing. The one exception: the
/// first order removed a construction site that nobody had worked on, and the cell
/// still holds another construction site or a building afterwards.
pub proof fn lemma_deconstruct_twice(
    g0: GameState,
    g1: GameState,
    g2: GameState,
    x: i32,
    y: i32,
    untouched1: bool,
    work1: Option<u32>,
    untouched2: bool,
    work2: Option<u32>,
)
    requires
        deconstructed(g0, g1, x, y, untouched1, work1),
        deconstructed(g1, g2, x, y, untouched2, work2),
        !({
            &&& untouched1
            &&& forall|j: int| 0 <= j < g0.colony.decon_sites@.len() ==> g0.colony.decon_sites@[j].cell != (x, y)
            &&& exists|j: int| 0 <= j < g0.colony.sites@.len() && g0.colony.sites@[j].cell == (x, y)
            &&& (exists|j: int| 0 <= j < g1.colony.sites@.len() && g1.colony.sites@[j].cell == (x, y))
                || g1.grid.spec_building_at(x as int, y as int) is Some
        }),
    ensures
        g2 == g1,
{
    let c0 = g0.colony;
    let c1 = g1.colony;
    if exists|j: int| 0 <= j < c0.decon_sites@.len() && c0.decon_sites@[j].cell == (x, y) {
    } else if exists|j: int| 0 <= j < c0.sites@.len() && c0.sites@[j].cell == (x, y) {
        if !untouched1 {
            let n = c0.decon_sites@.len() as int;
            assert(c1.decon_sites@[n].cell == (x, y));
        }
    } else if g0.grid.spec_building_at(x as int, y as int) is Some {
        let n = c0.decon_sites@.len() as int;
        assert(c1.decon_sites@[n].cell == (x, y));
    }
    assert(g2.colony == g1.colony);
}

/// Setting the statuses a second time from the same need flags changes nothing: each
/// colonist keeps the statuses it has (as a list) and everything else.
pub proof fn lemma_sync_statuses_twice(
    c0: Colony,
    c1: Colony,
    c2: Colony,
    content: &ContentRegistry,
    below: Seq<Vec<bool>>,
)
    requires
        statuses_synced(c0, c1, content, below),
        statuses_synced(c1, c2, content, below),
    ensures
        c2.colonists@.len() == c1.colonists@.len(),
        forall|i: int|
            0 <= i < c1.colonists@.len() ==> (#[trigger] c2.colonists@[i]).statuses.0@ == c1.colonists@[i].statuses.0@
                && c2.colonists@[i] == (ColonistState { statuses: c2.colonists@[i].statuses, ..c1.colonists@[i] }),
        c2.buildings == c1.buildings,
        c2.sites == c1.sites,
        c2.decon_sites == c1.decon_sites,
        c2.next_entity == c1.next_entity,
{
    assert forall|i: int| 0 <= i < c1.colonists@.len() implies (#[trigger] c2.colonists@[i]).statuses.0@
        == c1.colonists@[i].statuses.0@ by {
        assert(c1.colonists@[i] == c1.colonists@[i]);
    }
}

// ---------------------------------------------------------------------------
// Construction work
// ---------------------------------------------------------------------------

/// Two sites that are each the first on a cell are the same site.
proof fn lemma_first_site_unique(ss: Seq<SiteState>, cell: (i32, i32), a: int, b: int)
    requires
        first_site_on(ss, cell, a),
        first_site_on(ss, cell, b),
    ensures
        a == b,
{
    if a < b {
        assert(ss[a].cell != cell);
    } else if b < a {
        assert(ss[b].cell != cell);
    }
}

/// A builder's tick of work on a site with `k > 1` ticks left leaves `k - 1` ticks
/// on it and does not finish it: the grid and the building entities stay as they
/// were, the site keeps its place, building and claim, and the builder keeps its task.
pub proof fn lemma_build_tick_counts_down(
    content: &ContentRegistry,
    c0: Colony,
    g0: WorldGrid,
    c1: Colony,
    g1: WorldGrid,
    i: int,
    j: int,
    k: u32,
)
    requires
        0 <= i < c0.colonists@.len(),
        build_turn(content, c0, g0, c1, g1, i),
        first_site_on(
            c0.sites@,
            (c0.colonists@[i].task.building_x, c0.colonists@[i].task.building_y),
            j,
        ),
        c0.sites@[j].site.work_left == Some(k),
        k > 1,
    ensures
        c1.sites@.len() == c0.sites@.len(),
        c1.sites@[j].site.work_left == Some((k - 1) as u32),
        c1.sites@[j].cell == c0.sites@[j].cell,
        c1.sites@[j].entity == c0.sites@[j].entity,
        c1.sites@[j].site.building_id == c0.sites@[j].site.building_id,
        c1.sites@[j].site.reserved_by == c0.sites@[j].site.reserved_by,
        forall|q: int| 0 <= q < c0.sites@.len() && q != j ==> #[trigger] c1.sites@[q] == c0.sites@[q],
        c1.colonists@[i] == c0.colonists@[i],
        g1.buildings@ == g0.buildings@,
        c1.buildings@ == c0.buildings@,
{
    reveal(build_turn);
    let b = (c0.colonists@[i].task.building_x, c0.colonists@[i].task.building_y);
    assert(!no_site_on(c0.sites@, b)) by {
        assert(c0.sites@[j].cell == b);
    }
    assert forall|j2: int| #[trigger] first_site_on(c0.sites@, b, j2) implies j2 == j by {
        lemma_first_site_unique(c0.sites@, b, j, j2);
    }
}

/// A builder's tick of work on a site with one tick left finishes it, when the
/// site's cell is walkable and free: its building stands on the grid at the site's
/// cell, the site is gone, and the builder is idle.
pub proof fn lemma_build_last_tick(
    content: &ContentRegistry,
    c0: Colony,
    g0: WorldGrid,
    c1: Colony,
    g1: WorldGrid,
    i: int,
    j: int,
)
    requires
        0 <= i < c0.colonists@.len(),
        build_turn(content, c0, g0, c1, g1, i),
        first_site_on(
            c0.sites@,
            (c0.colonists@[i].task.building_x, c0.colonists@[i].task.building_y),
            j,
        ),
        c0.sites@[j].site.work_left == Some(1u32),
        g0.buildings@.len() == GRID_CELLS,
        g0.spec_walkable(content, c0.sites@[j].cell.0 as int, c0.sites@[j].cell.1 as int),
        g0.spec_building_at(c0.sites@[j].cell.0 as int, c0.sites@[j].cell.1 as int) is None,
    ensures
        g1.spec_building_at(c0.sites@[j].cell.0 as int, c0.sites@[j].cell.1 as int) == Some(
            c0.sites@[j].site.building_id,
        ),
        c1.sites@.len() == c0.sites@.len() - 1,
        c1.colonists@[i].task == idle_task(),
        c1.buildings@.len() == c0.buildings@.len() + 1,
{
    reveal(build_turn);
    let b = (c0.colonists@[i].task.building_x, c0.colonists@[i].task.building_y);
    assert(!no_site_on(c0.sites@, b)) by {
        assert(c0.sites@[j].cell == b);
    }
    assert forall|j2: int| #[trigger] first_site_on(c0.sites@, b, j2) implies j2 == j by {
        lemma_first_site_unique(c0.sites@, b, j, j2);
    }
}

// ---------------------------------------------------------------------------
// Emptied bushes
// ---------------------------------------------------------------------------

/// The first building on `cell` from `k` on stands on `cell`.
proof fn lemma_first_building_cell(bs: Seq<BuildingState>, cell: (i32, i32), k: int)
    ensures
        first_building_from(bs, cell, k) matches Some(j) ==> 0 <= j < bs.len() && bs[j].cell == cell,
    decreases bs.len() - k,
{
    if 0 <= k < bs.len() && bs[k].cell != cell {
        lemma_first_building_cell(bs, cell, k + 1);
    }
}

/// Every bush noted as emptied in `s` stood on its noted cell on grid `g` as a berry
/// bush, and its entity is still listed on that cell with no berries left.
pub open spec fn emptied_noted(
    g: &WorldGrid,
    content: &ContentRegistry,
    s: (Colony, Seq<(Entity, i32, i32)>, Seq<(Entity, NeedKind)>),
) -> bool {
    forall|k: int| 0 <= k < s.1.len() ==> {
        &&& g.spec_building_at((#[trigger] s.1[k]).1 as int, s.1[k].2 as int) == Some(content.berry_bush_building)
        &&& exists|j: int|
            0 <= j < s.0.buildings@.len() && (#[trigger] s.0.buildings@[j]).entity == s.1[k].0
                && s.0.buildings@[j].cell == (s.1[k].1, s.1[k].2) && s.0.buildings@[j].supply == Some(
                BerrySupply { remaining: 0 },
            )
    }
}

proof fn lemma_step_keeps_emptied(
    g: &WorldGrid,
    content: &ContentRegistry,
    tick: (u32, bool),
    k: int,
    s0: (Colony, Seq<(Entity, i32, i32)>, Seq<(Entity, NeedKind)>),
    s1: (Colony, Seq<(Entity, i32, i32)>, Seq<(Entity, NeedKind)>),
)
    requires
        0 <= k < s0.0.colonists@.len(),
        exec_step(g, content, tick, k, s0, s1),
        emptied_noted(g, content, s0),
    ensures
        emptied_noted(g, content, s1),
{
    reveal(exec_step);
    reveal(eat_turn);
    reveal(sleep_turn);
    let c = s0.0.colonists@[k];
    let b = (c.task.building_x, c.task.building_y);
    let bs0 = s0.0.buildings@;
    let bs1 = s1.0.buildings@;
    if !at_task_target(c) {
    } else if c.task.kind == TaskKind::Eat {
        if can_eat(bs0, g, content, c) {
            let j = first_building_from(bs0, b, 0)->0;
            lemma_first_building_cell(bs0, b, 0);
            assert forall|q: int| 0 <= q < s1.1.len() implies {
                &&& g.spec_building_at((#[trigger] s1.1[q]).1 as int, s1.1[q].2 as int) == Some(content.berry_bush_building)
                &&& exists|jj: int|
                    0 <= jj < bs1.len() && (#[trigger] bs1[jj]).entity == s1.1[q].0 && bs1[jj].cell == (s1.1[q].1, s1.1[q].2)
                        && bs1[jj].supply == Some(BerrySupply { remaining: 0 })
            } by {
                if q < s0.1.len() {
                    assert(s1.1[q] == s0.1[q]);
                    let jj = choose|jj: int|
                        0 <= jj < bs0.len() && (#[trigger] bs0[jj]).entity == s0.1[q].0 && bs0[jj].cell == (s0.1[q].1, s0.1[q].2)
                            && bs0[jj].supply == Some(BerrySupply { remaining: 0 });
                    assert(jj != j);
                    assert(bs1[jj] == bs0[jj]);
                } else {
                    assert(bs1[j].entity == bs0[j].entity);
                }
            }
        } else {
        }
    } else {
        if bs1 != bs0 {
            assert forall|q: int| #![trigger s1.1[q]] 0 <= q < s1.1.len() implies exists|jj: int|
                0 <= jj < bs1.len() && (#[trigger] bs1[jj]).entity == s1.1[q].0 && bs1[jj].cell == (s1.1[q].1, s1.1[q].2)
                    && bs1[jj].supply == Some(BerrySupply { remaining: 0 }) by {
                let jj = choose|jj: int|
                    0 <= jj < bs0.len() && (#[trigger] bs0[jj]).entity == s0.1[q].0 && bs0[jj].cell == (s0.1[q].1, s0.1[q].2)
                        && bs0[jj].supply == Some(BerrySupply { remaining: 0 });
                assert(bs1[jj].entity == bs0[jj].entity);
            }
        }
    }
}

proof fn lemma_trace_keeps_emptied(
    g: &WorldGrid,
    content: &ContentRegistry,
    ticks: Seq<(u32, bool)>,
    c0: Colony,
    c1: Colony,
    d: Seq<(Entity, i32, i32)>,
    r: Seq<(Entity, NeedKind)>,
    tr: Seq<(Colony, Seq<(Entity, i32, i32)>, Seq<(Entity, NeedKind)>)>,
    n: int,
)
    requires
        exec_trace(g, content, ticks, c0, c1, d, r, tr),
        0 <= n <= c0.colonists@.len(),
    ensures
        emptied_noted(g, content, tr[n]),
        tr[n].0.colonists@.len() == c0.colonists@.len(),
    decreases n,
{
    if n > 0 {
        lemma_trace_keeps_emptied(g, content, ticks, c0, c1, d, r, tr, n - 1);
        let k = n - 1;
        assert(exec_step(g, content, ticks[k], k, tr[k], tr[k + 1]));
        assert(k + 1 == n);
        lemma_step_keeps_emptied(g, content, ticks[k], k, tr[k], tr[k + 1]);
        reveal(exec_step);
        reveal(eat_turn);
        reveal(sleep_turn);
    }
}

/// Taking the emptied bushes `d` off grid buildings `gb` clears exactly their cells.
proof fn lemma_removals_clear_cells(gb: Seq<Option<BuildingId>>, d: Seq<(Entity, i32, i32)>, n: int, x: int, y: int)
    requires
        gb.len() == GRID_CELLS,
        0 <= n <= d.len(),
        0 <= x < WORLD_SIZE,
        0 <= y < WORLD_SIZE,
    ensures
        grid_after_removals(gb, d, n).len() == GRID_CELLS,
        grid_after_removals(gb, d, n)[y * WORLD_SIZE + x] == if exists|k: int|
            0 <= k < n && d[k].1 == x && d[k].2 == y {
            None
        } else {
            gb[y * WORLD_SIZE + x]
        },
    decreases n,
{
    if n > 0 {
        lemma_removals_clear_cells(gb, d, n - 1, x, y);
        let e = d[n - 1];
        if let Some(ci) = cell_index(e.1 as int, e.2 as int) {
            if ci == y * WORLD_SIZE + x {
                assert(e.1 == x && e.2 == y) by (nonlinear_arith)
                    requires
                        ci == e.2 * 50 + e.1,
                        ci == y * 50 + x,
                        0 <= e.1 < 50,
                        0 <= x < 50,
                        0 <= e.2 < 50,
                        0 <= y < 50,
                {
                }
            } else {
                if e.1 == x && e.2 == y {
                    assert(false);
                }
            }
        }
        if exists|k: int| 0 <= k < n - 1 && d[k].1 == x && d[k].2 == y {
            let k = choose|k: int| 0 <= k < n - 1 && d[k].1 == x && d[k].2 == y;
            assert(0 <= k < n && d[k].1 == x && d[k].2 == y);
        }
    }
}

/// The grid `g1` after a tick from colony `c0` on grid `g0` is `gm`, the grid after
/// the build phase, with exactly the cells of the bushes `d` emptied in the tick
/// cleared: each of those cells showed a berry bush on `gm` whose entity, listed in
/// `after` on that cell, had no berries left; every other cell is unchanged.
pub open spec fn emptied_bushes_cleared(
    content: &ContentRegistry,
    c0: Colony,
    g0: WorldGrid,
    g1: WorldGrid,
    gm: WorldGrid,
    after: Colony,
    d: Seq<(Entity, i32, i32)>,
) -> bool {
    &&& exists|mid: Colony, tr: Seq<(Colony, WorldGrid)>| build_trace(content, c0, g0, mid, gm, tr)
    &&& g1.terrain == gm.terrain
    &&& forall|k: int| 0 <= k < d.len() ==> {
        &&& gm.spec_building_at((#[trigger] d[k]).1 as int, d[k].2 as int) == Some(content.berry_bush_building)
        &&& exists|j: int|
            0 <= j < after.buildings@.len() && (#[trigger] after.buildings@[j]).entity == d[k].0
                && after.buildings@[j].cell == (d[k].1, d[k].2) && after.buildings@[j].supply == Some(
                BerrySupply { remaining: 0 },
            )
    }
    &&& forall|x: int, y: int|
        0 <= x < WORLD_SIZE && 0 <= y < WORLD_SIZE ==> #[trigger] g1.spec_building_at(x, y) == if exists|k: int|
            0 <= k < d.len() && d[k].1 == x && d[k].2 == y {
            None
        } else {
            gm.spec_building_at(x, y)
        }
}

/// After a tick of task execution, a bush emptied in the tick is gone from the grid
/// at its own cell, and no other cell of the grid changes after the build phase.
pub proof fn lemma_tick_clears_emptied_bushes(
    content: &ContentRegistry,
    ticks: Seq<(u32, bool)>,
    c0: Colony,
    g0: WorldGrid,
    c1: Colony,
    g1: WorldGrid,
    r: Seq<(Entity, NeedKind)>,
)
    requires
        tick_done(content, ticks, c0, g0, c1, g1, r),
    ensures
        exists|gm: WorldGrid, after: Colony, d: Seq<(Entity, i32, i32)>|
            #[trigger] emptied_bushes_cleared(content, c0, g0, g1, gm, after, d),
{
    let (tr1, mid, gm, tr2, after, d) = choose|
        tr1: Seq<(Colony, WorldGrid)>,
        mid: Colony,
        gm: WorldGrid,
        tr2: Seq<(Colony, Seq<(Entity, i32, i32)>, Seq<(Entity, NeedKind)>)>,
        after: Colony,
        d: Seq<(Entity, i32, i32)>,
    | {
        &&& build_trace(content, c0, g0, mid, gm, tr1)
        &&& exec_trace(&gm, content, ticks, mid, after, d, r, tr2)
        &&& c1.colonists == after.colonists
        &&& c1.sites == after.sites
        &&& c1.decon_sites == after.decon_sites
        &&& c1.next_entity == after.next_entity
        &&& c1.buildings@ == buildings_after_removals(after.buildings@, d, d.len() as int)
        &&& gm.wf(content)
        &&& g1.terrain == gm.terrain
        &&& g1.seed == gm.seed
        &&& g1.buildings@ == grid_after_removals(gm.buildings@, d, d.len() as int)
    };
    lemma_trace_keeps_emptied(&gm, content, ticks, mid, after, d, r, tr2, mid.colonists@.len() as int);
    assert(tr2[mid.colonists@.len() as int] == (after, d, r));
    assert forall|x: int, y: int| 0 <= x < WORLD_SIZE && 0 <= y < WORLD_SIZE implies #[trigger] g1.spec_building_at(x, y)
        == if exists|k: int| 0 <= k < d.len() && d[k].1 == x && d[k].2 == y {
        None
    } else {
        gm.spec_building_at(x, y)
    } by {
        lemma_removals_clear_cells(gm.buildings@, d, d.len() as int, x, y);
    }
    assert(build_trace(content, c0, g0, mid, gm, tr1));
    assert(emptied_bushes_cleared(content, c0, g0, g1, gm, after, d));
}

// ---------------------------------------------------------------------------
// World generation
// ---------------------------------------------------------------------------

/// A generated world is an island of radius `0.42` of the world's width around its
/// centre, read with the seeded noise `h` as a fraction `h / 65535`: outside the
/// island, and where the noise is below `0.12`, there is water; where it is from
/// `0.12` to below `0.28`, sand; from `0.28` up, grass. (The edge of the island, at
/// exactly `0.42`, is water, as the floating-point reading of the original makes it.)
pub proof fn lemma_generated_island(content: &ContentRegistry, seed: u32, g: WorldGrid, x: int, y: int)
    requires
        forall|x: int, y: int|
            0 <= x < WORLD_SIZE && 0 <= y < WORLD_SIZE ==> #[trigger] g.spec_terrain_at(x, y)
                == Some(generated_terrain(content, x, y, seed)),
        0 <= x < WORLD_SIZE,
        0 <= y < WORLD_SIZE,
    ensures
        ({
            let h = noise_bits(x as u32, y as u32, seed) as int;
            let island = 10000 * ((x - 25) * (x - 25) + (y - 25) * (y - 25)) < 1764 * (WORLD_SIZE * WORLD_SIZE);
            &&& island && 100 * h >= 28 * 65535 ==> g.spec_terrain_at(x, y) == Some(content.grass_terrain)
            &&& island && 12 * 65535 <= 100 * h < 28 * 65535 ==> g.spec_terrain_at(x, y) == Some(content.sand_terrain)
            &&& !island || 100 * h < 12 * 65535 ==> g.spec_terrain_at(x, y) == Some(content.water_terrain)
        }),
{
    assert(g.spec_terrain_at(x, y) == Some(generated_terrain(content, x, y, seed)));
}

// ---------------------------------------------------------------------------
// Saving and loading
// ---------------------------------------------------------------------------

/// Entry `b` of a save names a building that `content` knows and lies on `(x, y)`.
pub open spec fn known_entry_at(content: &ContentRegistry, b: BuildingSnapshot, x: int, y: int) -> bool {
    &&& id_index(building_ids(content.buildings@), b.building@) is Some
    &&& b.x == x
    &&& b.y == y
}

/// The id that `content` gives the building of entry `b`.
spec fn entry_id(content: &ContentRegistry, b: BuildingSnapshot) -> BuildingId {
    BuildingId(id_index(building_ids(content.buildings@), b.building@)->0 as u16)
}

/// Loading the first `n` entries gives cell `(x, y)` the building of entry `n - 1`
/// if that entry is known and lies there, and otherwise what the first `n - 1` give it.
proof fn lemma_loaded_step(content: &ContentRegistry, bs: Seq<BuildingSnapshot>, n: int, x: int, y: int)
    requires
        0 < n <= bs.len(),
        0 <= x < WORLD_SIZE,
        0 <= y < WORLD_SIZE,
    ensures
        loaded_building(content, bs, n, y * WORLD_SIZE + x) == if known_entry_at(content, bs[n - 1], x, y) {
            Some(entry_id(content, bs[n - 1]))
        } else {
            loaded_building(content, bs, n - 1, y * WORLD_SIZE + x)
        },
{
    let e = bs[n - 1];
    let i = y * WORLD_SIZE + x;
    if let Some(c) = cell_index(e.x as int, e.y as int) {
        if c == i {
            assert(e.x == x && e.y == y) by (nonlinear_arith)
                requires
                    c == e.y * 50 + e.x,
                    c == y * 50 + x,
                    0 <= e.x < 50,
                    0 <= x < 50,
                    0 <= e.y < 50,
                    0 <= y < 50,
            {
            }
        }
    }
}

/// Entry `k` is the last of the first `n` entries that is known and lies on `(x, y)`.
pub open spec fn last_known_at(content: &ContentRegistry, bs: Seq<BuildingSnapshot>, n: int, k: int, x: int, y: int) -> bool {
    &&& 0 <= k < n
    &&& known_entry_at(content, bs[k], x, y)
    &&& forall|q: int| k < q < n ==> !known_entry_at(content, #[trigger] bs[q], x, y)
}

/// None of the first `n` entries is known and lies on `(x, y)`.
pub open spec fn none_known_at(content: &ContentRegistry, bs: Seq<BuildingSnapshot>, n: int, x: int, y: int) -> bool {
    forall|k: int| 0 <= k < n ==> !known_entry_at(content, #[trigger] bs[k], x, y)
}

proof fn lemma_loaded_building_at(content: &ContentRegistry, bs: Seq<BuildingSnapshot>, n: int, x: int, y: int)
    requires
        0 <= n <= bs.len(),
        0 <= x < WORLD_SIZE,
        0 <= y < WORLD_SIZE,
    ensures
        none_known_at(content, bs, n, x, y) ==> loaded_building(content, bs, n, y * WORLD_SIZE + x) is None,
        forall|k: int|
            #[trigger] last_known_at(content, bs, n, k, x, y) ==> loaded_building(content, bs, n, y * WORLD_SIZE + x)
                == Some(entry_id(content, bs[k])),
    decreases n,
{
    if n > 0 {
        lemma_loaded_building_at(content, bs, n - 1, x, y);
        lemma_loaded_step(content, bs, n, x, y);
        let last = known_entry_at(content, bs[n - 1], x, y);
        if none_known_at(content, bs, n, x, y) {
            assert(!last);
            assert(none_known_at(content, bs, n - 1, x, y));
        }
        assert forall|k: int| #[trigger] last_known_at(content, bs, n, k, x, y) implies loaded_building(
            content,
            bs,
            n,
            y * WORLD_SIZE + x,
        ) == Some(entry_id(content, bs[k])) by {
            if k < n - 1 {
                assert(!last);
                assert(last_known_at(content, bs, n - 1, k, x, y));
            }
        }
    }
}

/// After a saved game is loaded, each building entry of the save whose building the
/// content knows stands on the grid at its own `(x, y)`, unless a later such entry
/// lies on the same cell; a cell that no such entry names has no building.
pub proof fn lemma_load_places_buildings(content: &ContentRegistry, bs: Seq<BuildingSnapshot>, g: WorldGrid)
    requires
        g.buildings@.len() == GRID_CELLS,
        forall|i: int| 0 <= i < GRID_CELLS ==> #[trigger] g.buildings@[i] == loaded_building(
            content,
            bs,
            bs.len() as int,
            i,
        ),
    ensures
        forall|k: int|
            0 <= bs[k].x < WORLD_SIZE && 0 <= bs[k].y < WORLD_SIZE && #[trigger] last_known_at(
                content,
                bs,
                bs.len() as int,
                k,
                bs[k].x as int,
                bs[k].y as int,
            ) ==> g.spec_building_at(bs[k].x as int, bs[k].y as int) == Some(
                BuildingId(id_index(building_ids(content.buildings@), bs[k].building@)->0 as u16),
            ),
        forall|x: int, y: int|
            0 <= x < WORLD_SIZE && 0 <= y < WORLD_SIZE && none_known_at(content, bs, bs.len() as int, x, y)
                ==> #[trigger] g.spec_building_at(x, y) is None,
{
    assert forall|k: int|
        0 <= bs[k].x < WORLD_SIZE && 0 <= bs[k].y < WORLD_SIZE && #[trigger] last_known_at(
            content,
            bs,
            bs.len() as int,
            k,
            bs[k].x as int,
            bs[k].y as int,
        ) implies g.spec_building_at(bs[k].x as int, bs[k].y as int) == Some(
        BuildingId(id_index(building_ids(content.buildings@), bs[k].building@)->0 as u16),
    ) by {
        lemma_loaded_building_at(content, bs, bs.len() as int, bs[k].x as int, bs[k].y as int);
    }
    assert forall|x: int, y: int|
        0 <= x < WORLD_SIZE && 0 <= y < WORLD_SIZE && none_known_at(content, bs, bs.len() as int, x, y)
            implies #[trigger] g.spec_building_at(x, y) is None by {
        lemma_loaded_building_at(content, bs, bs.len() as int, x, y);
    }
}


proof fn lemma_tile_cell(t: TileSnapshot, i: int, content: &ContentRegistry, grid: &WorldGrid)
    requires
        0 <= i < GRID_CELLS,
        tile_shows(content, grid, t, i),
    ensures
        cell_index(t.x as int, t.y as int) == Some(i),
{
    assert(i == (i / 50) * 50 + i % 50 && 0 <= i % 50 < 50 && 0 <= i / 50 < 50) by (nonlinear_arith)
        requires
            0 <= i < 2500,
    ;
}

proof fn lemma_loaded_terrain_upto(content: &ContentRegistry, grid: &WorldGrid, tiles: Seq<TileSnapshot>, n: int, i: int)
    requires
        content.wf(),
        grid.wf(content),
        tiles.len() == GRID_CELLS,
        forall|k: int| 0 <= k < GRID_CELLS ==> tile_shows(content, grid, #[trigger] tiles[k], k),
        0 <= i < n <= GRID_CELLS,
    ensures
        loaded_terrain(content, tiles, n, i) == grid.terrain@[i],
    decreases n,
{
    let t = tiles[n - 1];
    lemma_tile_cell(t, n - 1, content, grid);
    if n - 1 == i {
        let tid = grid.terrain@[i];
        lemma_terrain_id_round_trip(content, tid.0 as int);
    } else {
        lemma_loaded_terrain_upto(content, grid, tiles, n - 1, i);
    }
}

/// Saving the tiles of a grid (one per cell, in row order, as the snapshot lists
/// them) and loading them back gives every cell its terrain back.
pub proof fn lemma_tiles_round_trip(content: &ContentRegistry, grid: &WorldGrid, tiles: Seq<TileSnapshot>)
    requires
        content.wf(),
        grid.wf(content),
        tiles.len() == GRID_CELLS,
        forall|k: int| 0 <= k < GRID_CELLS ==> tile_shows(content, grid, #[trigger] tiles[k], k),
    ensures
        forall|i: int| 0 <= i < GRID_CELLS ==> #[trigger] loaded_terrain(content, tiles, GRID_CELLS as int, i) == grid.terrain@[i],
{
    assert forall|i: int| 0 <= i < GRID_CELLS implies #[trigger] loaded_terrain(content, tiles, GRID_CELLS as int, i) == grid.terrain@[i] by {
        lemma_loaded_terrain_upto(content, grid, tiles, GRID_CELLS as int, i);
    }
}

// ---------------------------------------------------------------------------
// Task assignment
// ---------------------------------------------------------------------------

/// No two colonists carry the same entity number.
pub open spec fn entities_distinct(cols: Seq<ColonistState>) -> bool {
    forall|a: int, b: int| 0 <= a < b < cols.len() ==> (#[trigger] cols[a]).entity != (#[trigger] cols[b]).entity
}

/// Colonist `c` is on its way to sleep in the bed at `cell`.
pub open spec fn sleeps_at(c: ColonistState, cell: (i32, i32)) -> bool {
    c.task.kind == TaskKind::Sleep && (c.task.building_x, c.task.building_y) == cell
}

/// Colonist `c` is on its way to build the site at `cell`.
pub open spec fn builds_at(c: ColonistState, cell: (i32, i32)) -> bool {
    c.task.kind == TaskKind::Build && (c.task.building_x, c.task.building_y) == cell
}

/// Every bed, and every construction site, is claimed by exactly the colonists whose
/// task sends them there: one colonist, or none.
pub open spec fn claims_match(col: Colony) -> bool {
    let cols = col.colonists@;
    let bs = col.buildings@;
    let ss = col.sites@;
    &&& forall|j: int, i: int|
        0 <= j < bs.len() && 0 <= i < cols.len() && (#[trigger] bs[j]).occupancy is Some && sleeps_at(
            #[trigger] cols[i],
            bs[j].cell,
        ) ==> bs[j].occupancy->0.reserved_by == Some(cols[i].entity)
    &&& forall|j: int|
        0 <= j < bs.len() && (#[trigger] bs[j]).occupancy is Some && bs[j].occupancy->0.reserved_by is Some
            ==> exists|i: int|
            0 <= i < cols.len() && cols[i].entity == bs[j].occupancy->0.reserved_by->0 && #[trigger] sleeps_at(
                cols[i],
                bs[j].cell,
            )
    &&& forall|j: int, i: int|
        0 <= j < ss.len() && 0 <= i < cols.len() && builds_at(#[trigger] cols[i], (#[trigger] ss[j]).cell)
            ==> ss[j].site.reserved_by == Some(cols[i].entity)
    &&& forall|j: int|
        0 <= j < ss.len() && (#[trigger] ss[j]).site.reserved_by is Some ==> exists|i: int|
            0 <= i < cols.len() && cols[i].entity == ss[j].site.reserved_by->0 && #[trigger] builds_at(
                cols[i],
                ss[j].cell,
            )
}

/// No two beds stand on one cell.
pub open spec fn bed_cells_distinct(bs: Seq<BuildingState>) -> bool {
    forall|a: int, b: int|
        0 <= a < b < bs.len() && (#[trigger] bs[a]).occupancy is Some && (#[trigger] bs[b]).occupancy is Some
            ==> bs[a].cell != bs[b].cell
}

/// No two construction sites stand on one cell.
pub open spec fn site_cells_distinct(ss: Seq<SiteState>) -> bool {
    forall|a: int, b: int| 0 <= a < b < ss.len() ==> (#[trigger] ss[a]).cell != (#[trigger] ss[b]).cell
}

/// Buildings `a` and `b` differ at most in their bed claims.
pub open spec fn same_stock_and_beds(a: Seq<BuildingState>, b: Seq<BuildingState>) -> bool {
    &&& b.len() == a.len()
    &&& forall|j: int|
        0 <= j < a.len() ==> (#[trigger] b[j]).cell == a[j].cell && b[j].kind == a[j].kind && b[j].supply
            == a[j].supply && (b[j].occupancy is Some <==> a[j].occupancy is Some)
}

/// Colonists `a` and `b` stand on the same cells with the same entities and statuses.
pub open spec fn same_cells_and_statuses(a: Seq<ColonistState>, b: Seq<ColonistState>) -> bool {
    &&& b.len() == a.len()
    &&& forall|i: int|
        0 <= i < a.len() ==> (#[trigger] b[i]).cell == a[i].cell && b[i].entity == a[i].entity && b[i].statuses
            == a[i].statuses
}

/// Dropping tasks keeps the claims matched.
proof fn lemma_drops_keep_claims(a: Colony, b: Colony, which: Seq<bool>)
    requires
        drops_applied(a, b, which),
        claims_match(a),
        entities_distinct(a.colonists@),
        bed_cells_distinct(a.buildings@),
        site_cells_distinct(a.sites@),
    ensures
        claims_match(b),
        entities_distinct(b.colonists@),
        bed_cells_distinct(b.buildings@),
        site_cells_distinct(b.sites@),
        same_stock_and_beds(a.buildings@, b.buildings@),
        same_cells_and_statuses(a.colonists@, b.colonists@),
        b.sites@.len() == a.sites@.len(),
        forall|j: int| 0 <= j < a.sites@.len() ==> (#[trigger] b.sites@[j]).cell == a.sites@[j].cell,
{
    let ac = a.colonists@;
    let bc = b.colonists@;
    let ab = a.buildings@;
    let bb = b.buildings@;
    let asi = a.sites@;
    let bsi = b.sites@;
    assert forall|j: int, i: int|
        0 <= j < bb.len() && 0 <= i < bc.len() && (#[trigger] bb[j]).occupancy is Some && sleeps_at(
            #[trigger] bc[i],
            bb[j].cell,
        ) implies bb[j].occupancy->0.reserved_by == Some(bc[i].entity) by {
        assert(!which[i]);
        assert(bc[i] == ac[i]);
        assert(ab[j].occupancy->0.reserved_by == Some(ac[i].entity));
        if crate::tasks::dropped_upto(ac, which, TaskKind::Sleep, ac[i].entity, which.len() as int) {
            let k = choose|k: int|
                0 <= k < which.len() as int && #[trigger] which[k] && ac[k].task.kind == TaskKind::Sleep
                    && ac[k].entity == ac[i].entity;
            if k < i {
                assert(ac[k].entity != ac[i].entity);
            } else if k > i {
                assert(ac[i].entity != ac[k].entity);
            }
        }
    }
    assert forall|j: int|
        0 <= j < bb.len() && (#[trigger] bb[j]).occupancy is Some && bb[j].occupancy->0.reserved_by is Some
            implies exists|i: int|
            0 <= i < bc.len() && bc[i].entity == bb[j].occupancy->0.reserved_by->0 && #[trigger] sleeps_at(
                bc[i],
                bb[j].cell,
            ) by {
        let e = bb[j].occupancy->0.reserved_by->0;
        assert(ab[j].occupancy->0.reserved_by == Some(e));
        let i = choose|i: int|
            0 <= i < ac.len() && ac[i].entity == e && #[trigger] sleeps_at(ac[i], ab[j].cell);
        if which[i] {
            assert(crate::tasks::dropped_upto(ac, which, TaskKind::Sleep, e, which.len() as int));
        }
        assert(bc[i] == ac[i]);
        assert(sleeps_at(bc[i], bb[j].cell));
    }
    assert forall|j: int, i: int|
        0 <= j < bsi.len() && 0 <= i < bc.len() && builds_at(#[trigger] bc[i], (#[trigger] bsi[j]).cell)
            implies bsi[j].site.reserved_by == Some(bc[i].entity) by {
        assert(!which[i]);
        assert(bc[i] == ac[i]);
        assert(builds_at(ac[i], asi[j].cell));
        assert(asi[j].site.reserved_by == Some(ac[i].entity));
        if crate::tasks::dropped_upto(ac, which, TaskKind::Build, ac[i].entity, which.len() as int) {
            let k = choose|k: int|
                0 <= k < which.len() as int && #[trigger] which[k] && ac[k].task.kind == TaskKind::Build
                    && ac[k].entity == ac[i].entity;
            if k < i {
                assert(ac[k].entity != ac[i].entity);
            } else if k > i {
                assert(ac[i].entity != ac[k].entity);
            }
        }
    }
    assert forall|j: int|
        0 <= j < bsi.len() && (#[trigger] bsi[j]).site.reserved_by is Some implies exists|i: int|
            0 <= i < bc.len() && bc[i].entity == bsi[j].site.reserved_by->0 && #[trigger] builds_at(
                bc[i],
                bsi[j].cell,
            ) by {
        let e = bsi[j].site.reserved_by->0;
        assert(asi[j].site.reserved_by == Some(e));
        let i = choose|i: int| 0 <= i < ac.len() && ac[i].entity == e && #[trigger] builds_at(ac[i], asi[j].cell);
        if which[i] {
            assert(crate::tasks::dropped_upto(ac, which, TaskKind::Build, e, which.len() as int));
        }
        assert(bc[i] == ac[i]);
        assert(builds_at(bc[i], bsi[j].cell));
    }
    assert forall|x: int, y: int| 0 <= x < y < bc.len() implies (#[trigger] bc[x]).entity != (#[trigger] bc[y]).entity by {
        assert(ac[x].entity != ac[y].entity);
    }
    assert forall|x: int, y: int|
        0 <= x < y < bb.len() && (#[trigger] bb[x]).occupancy is Some && (#[trigger] bb[y]).occupancy is Some
            implies bb[x].cell != bb[y].cell by {
        assert(ab[x].occupancy is Some && ab[y].occupancy is Some);
    }
    assert forall|x: int, y: int| 0 <= x < y < bsi.len() implies (#[trigger] bsi[x]).cell != (#[trigger] bsi[y]).cell by {
        assert(asi[x].cell != asi[y].cell);
    }
    assert forall|j: int| 0 <= j < ab.len() implies (#[trigger] bb[j]).cell == ab[j].cell && bb[j].kind == ab[j].kind
        && bb[j].supply == ab[j].supply && (bb[j].occupancy is Some <==> ab[j].occupancy is Some) by {
        assert(bb[j] == crate::tasks::building_after_drops(ab[j], ac, which, which.len() as int));
    }
    assert forall|j: int| 0 <= j < asi.len() implies (#[trigger] bsi[j]).cell == asi[j].cell by {
        assert(bsi[j] == crate::tasks::site_after_drops(asi[j], ac, which, which.len() as int));
    }
    assert forall|i: int| 0 <= i < ac.len() implies (#[trigger] bc[i]).cell == ac[i].cell && bc[i].entity
        == ac[i].entity && bc[i].statuses == ac[i].statuses by {
        if which[i] {
        }
    }
}

/// Giving idle colonists work keeps the claims matched.
proof fn lemma_assignment_keeps_claims(mid: Colony, fin: Colony, grid: &WorldGrid, content: &ContentRegistry)
    requires
        assignment_done(mid, fin, grid, content),
        claims_match(mid),
        bed_cells_distinct(mid.buildings@),
        site_cells_distinct(mid.sites@),
    ensures
        claims_match(fin),
        same_stock_and_beds(mid.buildings@, fin.buildings@),
        same_cells_and_statuses(mid.colonists@, fin.colonists@),
{
    let mc = mid.colonists@;
    let fc = fin.colonists@;
    let mb = mid.buildings@;
    let fb = fin.buildings@;
    let ms = mid.sites@;
    let fs = fin.sites@;
    assert forall|j: int, i: int|
        0 <= j < fb.len() && 0 <= i < fc.len() && (#[trigger] fb[j]).occupancy is Some && sleeps_at(
            #[trigger] fc[i],
            fb[j].cell,
        ) implies fb[j].occupancy->0.reserved_by == Some(fc[i].entity) by {
        assert(crate::tasks::assign_outcome(grid, content, mid, fin, mc[i], fc[i]));
        let fresh = fb[j] != mb[j];
        if fresh {
            let q = choose|q: int| 0 <= q < mc.len() && sleep_assigned_at(grid, content, mid, fin, mc[q], #[trigger] fc[q], j);
            assert(fb[j].cell == mb[j].cell);
        }
        if mc[i].task.kind != TaskKind::Idle {
            assert(fc[i] == mc[i]);
            assert(mb[j].occupancy->0.reserved_by == Some(mc[i].entity));
        } else {
            let j2 = choose|j2: int| sleep_assigned_at(grid, content, mid, fin, mc[i], fc[i], j2);
            if j2 != j {
                assert(mb[j2].occupancy is Some);
                assert(mb[j].cell == mb[j2].cell);
                if j < j2 {
                    assert(mb[j].cell != mb[j2].cell);
                } else {
                    assert(mb[j2].cell != mb[j].cell);
                }
            }
        }
    }
    assert forall|j: int|
        0 <= j < fb.len() && (#[trigger] fb[j]).occupancy is Some && fb[j].occupancy->0.reserved_by is Some
            implies exists|i: int|
            0 <= i < fc.len() && fc[i].entity == fb[j].occupancy->0.reserved_by->0 && #[trigger] sleeps_at(
                fc[i],
                fb[j].cell,
            ) by {
        if fb[j] == mb[j] {
            let e = mb[j].occupancy->0.reserved_by->0;
            let i = choose|i: int| 0 <= i < mc.len() && mc[i].entity == e && #[trigger] sleeps_at(mc[i], mb[j].cell);
            assert(crate::tasks::assign_outcome(grid, content, mid, fin, mc[i], fc[i]));
            assert(fc[i] == mc[i]);
            assert(sleeps_at(fc[i], fb[j].cell));
        } else {
            let q = choose|q: int| 0 <= q < mc.len() && sleep_assigned_at(grid, content, mid, fin, mc[q], #[trigger] fc[q], j);
            assert(sleeps_at(fc[q], fb[j].cell));
        }
    }
    assert forall|j: int, i: int|
        0 <= j < fs.len() && 0 <= i < fc.len() && builds_at(#[trigger] fc[i], (#[trigger] fs[j]).cell)
            implies fs[j].site.reserved_by == Some(fc[i].entity) by {
        assert(crate::tasks::assign_outcome(grid, content, mid, fin, mc[i], fc[i]));
        if fs[j] != ms[j] {
            let q = choose|q: int| 0 <= q < mc.len() && build_assigned_at(grid, content, mid, fin, mc[q], #[trigger] fc[q], j);
            assert(fs[j].cell == ms[j].cell);
        }
        if mc[i].task.kind != TaskKind::Idle {
            assert(fc[i] == mc[i]);
            assert(builds_at(mc[i], ms[j].cell));
            assert(ms[j].site.reserved_by == Some(mc[i].entity));
        } else {
            let j2 = choose|j2: int| build_assigned_at(grid, content, mid, fin, mc[i], fc[i], j2);
            if j2 != j {
                assert(ms[j].cell == ms[j2].cell);
                if j < j2 {
                    assert(ms[j].cell != ms[j2].cell);
                } else {
                    assert(ms[j2].cell != ms[j].cell);
                }
            }
        }
    }
    assert forall|j: int|
        0 <= j < fs.len() && (#[trigger] fs[j]).site.reserved_by is Some implies exists|i: int|
            0 <= i < fc.len() && fc[i].entity == fs[j].site.reserved_by->0 && #[trigger] builds_at(
                fc[i],
                fs[j].cell,
            ) by {
        if fs[j] == ms[j] {
            let e = ms[j].site.reserved_by->0;
            let i = choose|i: int| 0 <= i < mc.len() && mc[i].entity == e && #[trigger] builds_at(mc[i], ms[j].cell);
            assert(crate::tasks::assign_outcome(grid, content, mid, fin, mc[i], fc[i]));
            assert(fc[i] == mc[i]);
            assert(builds_at(fc[i], fs[j].cell));
        } else {
            let q = choose|q: int| 0 <= q < mc.len() && build_assigned_at(grid, content, mid, fin, mc[q], #[trigger] fc[q], j);
            assert(builds_at(fc[q], fs[j].cell));
        }
    }
    assert forall|j: int| 0 <= j < mb.len() implies (#[trigger] fb[j]).cell == mb[j].cell && fb[j].kind == mb[j].kind
        && fb[j].supply == mb[j].supply && (fb[j].occupancy is Some <==> mb[j].occupancy is Some) by {
        if fb[j] != mb[j] {
            let q = choose|q: int| 0 <= q < mc.len() && sleep_assigned_at(grid, content, mid, fin, mc[q], #[trigger] fc[q], j);
        }
    }
    assert forall|i: int| 0 <= i < mc.len() implies (#[trigger] fc[i]).cell == mc[i].cell && fc[i].entity
        == mc[i].entity && fc[i].statuses == mc[i].statuses by {
        assert(crate::tasks::assign_outcome(grid, content, mid, fin, mc[i], fc[i]));
    }
}

/// A round of task assignment keeps every bed and construction site claimed by exactly
/// the colonists whose task sends them there, when no two colonists share an entity
/// and no two beds, or two sites, share a cell. Colonists keep their cells, entities
/// and statuses; buildings keep their cell, kind and berries; the colonists sent to
/// eat in the round go to distinct stands where nobody stands.
pub proof fn lemma_round_keeps_claims(start: Colony, mid: Colony, fin: Colony, grid: &WorldGrid, content: &ContentRegistry)
    requires
        round_done(start, mid, fin, grid, content),
        claims_match(start),
        entities_distinct(start.colonists@),
        bed_cells_distinct(start.buildings@),
        site_cells_distinct(start.sites@),
    ensures
        claims_match(fin),
        same_cells_and_statuses(start.colonists@, fin.colonists@),
        fin.buildings@.len() == start.buildings@.len(),
        forall|j: int|
            0 <= j < start.buildings@.len() ==> (#[trigger] fin.buildings@[j]).cell == start.buildings@[j].cell
                && fin.buildings@[j].kind == start.buildings@[j].kind && fin.buildings@[j].supply
                == start.buildings@[j].supply,
        forall|i: int|
            0 <= i < fin.colonists@.len() && mid.colonists@[i].task.kind == TaskKind::Idle && (#[trigger] fin.colonists@[i]).task.kind
                == TaskKind::Eat ==> occupant(start.colonists@, task_target(fin.colonists@[i])) is None,
        forall|i1: int, i2: int|
            0 <= i1 < i2 < fin.colonists@.len() && mid.colonists@[i1].task.kind == TaskKind::Idle
                && mid.colonists@[i2].task.kind == TaskKind::Idle && (#[trigger] fin.colonists@[i1]).task.kind
                == TaskKind::Eat && (#[trigger] fin.colonists@[i2]).task.kind == TaskKind::Eat ==> task_target(
                fin.colonists@[i1],
            ) != task_target(fin.colonists@[i2]),
{
    let (s1, s2, s3) = choose|s1: Colony, s2: Colony, s3: Colony| {
        &&& drops_applied(start, s1, crate::tasks::preempt_marks(start.colonists@, content))
        &&& drops_applied(s1, s2, crate::tasks::eat_invalid_marks(s1.colonists@, s1.buildings@, grid, content))
        &&& drops_applied(s2, s3, crate::tasks::eat_unreachable_marks(s2.colonists@, grid, content))
        &&& drops_applied(s3, mid, crate::tasks::stuck_marks(s3.colonists@))
    };
    lemma_drops_keep_claims(start, s1, crate::tasks::preempt_marks(start.colonists@, content));
    lemma_drops_keep_claims(s1, s2, crate::tasks::eat_invalid_marks(s1.colonists@, s1.buildings@, grid, content));
    lemma_drops_keep_claims(s2, s3, crate::tasks::eat_unreachable_marks(s2.colonists@, grid, content));
    lemma_drops_keep_claims(s3, mid, crate::tasks::stuck_marks(s3.colonists@));
    lemma_assignment_keeps_claims(mid, fin, grid, content);
    assert(same_places(start.colonists@, mid.colonists@));
    lemma_same_places_all(start.colonists@, mid.colonists@);
    assert forall|i: int|
        0 <= i < fin.colonists@.len() && mid.colonists@[i].task.kind == TaskKind::Idle && (#[trigger] fin.colonists@[i]).task.kind
            == TaskKind::Eat implies occupant(start.colonists@, task_target(fin.colonists@[i])) is None by {
        assert(crate::tasks::assign_outcome(grid, content, mid, fin, mid.colonists@[i], fin.colonists@[i]));
        assert(eat_assigned(grid, content, mid, mid.colonists@[i], fin.colonists@[i]));
    }
}

/// Two different colonists sent to sleep in the same round are sent to different
/// beds: a bed holds one claim.
pub proof fn lemma_one_sleeper_per_bed(
    mid: Colony,
    fin: Colony,
    grid: &WorldGrid,
    content: &ContentRegistry,
    i1: int,
    i2: int,
    j1: int,
    j2: int,
)
    requires
        entities_distinct(mid.colonists@),
        assignment_done(mid, fin, grid, content),
        0 <= i1 < i2 < mid.colonists@.len(),
        sleep_assigned_at(grid, content, mid, fin, mid.colonists@[i1], fin.colonists@[i1], j1),
        sleep_assigned_at(grid, content, mid, fin, mid.colonists@[i2], fin.colonists@[i2], j2),
    ensures
        j1 != j2,
{
    if j1 == j2 {
        assert(mid.colonists@[i1].entity != mid.colonists@[i2].entity);
    }
}

proof fn lemma_occupant_witness(cols: Seq<ColonistState>, n: int, c: (i32, i32))
    requires
        0 <= n <= cols.len(),
        occupant_upto(cols, n, c) is Some,
    ensures
        exists|k: int| 0 <= k < n && cols[k].cell == c,
    decreases n,
{
    if cols[n - 1].cell != c {
        lemma_occupant_witness(cols, n - 1, c);
    }
}

proof fn lemma_listed_blocked(cols: Seq<ColonistState>, e: Entity, n: int, k: int)
    requires
        0 <= k < n <= cols.len(),
        occupant(cols, cols[k].cell) != Some(e),
    ensures
        listed(blocked_upto(cols, e, n), cols[k].cell.0 as int, cols[k].cell.1 as int),
    decreases n,
{
    if k == n - 1 {
        let s = blocked_upto(cols, e, n);
        assert(s[s.len() - 1] == cols[k].cell);
    } else {
        lemma_listed_blocked(cols, e, n - 1, k);
        let s0 = blocked_upto(cols, e, n - 1);
        let q = choose|q: int| 0 <= q < s0.len() && s0[q].0 == cols[k].cell.0 && s0[q].1 == cols[k].cell.1;
        if occupant(cols, cols[n - 1].cell) != Some(e) {
            assert(blocked_upto(cols, e, n)[q] == s0[q]);
        }
    }
}

/// A path handed to a colonist never starts by stepping onto a cell where another
/// colonist stands: the first waypoint of a route found around the others is free
/// for it, when the target is.
pub proof fn lemma_first_waypoint_free(
    grid: &WorldGrid,
    content: &ContentRegistry,
    cols: Seq<ColonistState>,
    e: Entity,
    from: (i32, i32),
    target: (i32, i32),
    wps: Seq<(i32, i32)>,
)
    requires
        path_follows(grid, content, blocked_seq(cols, e), from, target, wps),
        occupant(cols, target) is None || occupant(cols, target) == Some(e),
    ensures
        wps.len() >= 1,
        occupant(cols, wps[0]) is None || occupant(cols, wps[0]) == Some(e),
{
    if from == target {
        assert(wps[0] == target);
    } else {
        let p = seq![from] + wps;
        assert(legal_step(grid, content, target, blocked_seq(cols, e), p[0], p[1]));
        assert(p[1] == wps[0]);
        let c = wps[0];
        if c != target && occupant(cols, c) is Some && occupant(cols, c) != Some(e) {
            lemma_occupant_witness(cols, cols.len() as int, c);
            let k = choose|k: int| 0 <= k < cols.len() && cols[k].cell == c;
            lemma_listed_blocked(cols, e, cols.len() as int, k);
            assert(passable(grid, content, target, blocked_seq(cols, e), c.0 as int, c.1 as int));
        }
    }
}

// ---------------------------------------------------------------------------
// Movement
// ---------------------------------------------------------------------------

/// No two colonists stand on the same cell.
pub open spec fn cells_distinct(cols: Seq<ColonistState>) -> bool {
    forall|a: int, b: int| 0 <= a < b < cols.len() ==> (#[trigger] cols[a]).cell != (#[trigger] cols[b]).cell
}

/// The occupancy map of a snap fold agrees with the colonists' cells.
pub open spec fn occ_agrees(st: (spec_fn((i32, i32)) -> Option<Entity>, Seq<ColonistState>, Seq<bool>)) -> bool {
    let occ = st.0;
    let cols = st.1;
    &&& forall|k: int| 0 <= k < cols.len() ==> occ((#[trigger] cols[k]).cell) == Some(cols[k].entity)
    &&& forall|c: (i32, i32)| #![trigger occ(c)] occ(c) is Some ==> exists|k: int|
        0 <= k < cols.len() && cols[k].cell == c && occ(c) == Some(cols[k].entity)
}

proof fn lemma_occupant_distinct(cols: Seq<ColonistState>, n: int, k: int)
    requires
        cells_distinct(cols),
        0 <= k < n <= cols.len(),
    ensures
        occupant_upto(cols, n, cols[k].cell) == Some(cols[k].entity),
    decreases n,
{
    if k < n - 1 {
        assert(cols[n - 1].cell != cols[k].cell);
        lemma_occupant_distinct(cols, n - 1, k);
    }
}

proof fn lemma_fold_keeps_apart(cols0: Seq<ColonistState>, order: Seq<usize>, n: int)
    requires
        entities_distinct(cols0),
        cells_distinct(cols0),
        forall|k: int| 0 <= k < order.len() ==> #[trigger] order[k] < cols0.len(),
        0 <= n <= order.len(),
    ensures
        snap_fold(snap_start(cols0), order, n).1.len() == cols0.len(),
        entities_distinct(snap_fold(snap_start(cols0), order, n).1),
        cells_distinct(snap_fold(snap_start(cols0), order, n).1),
        occ_agrees(snap_fold(snap_start(cols0), order, n)),
        forall|k: int| 0 <= k < cols0.len() ==> (#[trigger] snap_fold(snap_start(cols0), order, n).1[k]).entity == cols0[k].entity,
    decreases n,
{
    let st0 = snap_start(cols0);
    if n == 0 {
        assert forall|k: int| 0 <= k < cols0.len() implies (st0.0)((#[trigger] cols0[k]).cell) == Some(cols0[k].entity) by {
            lemma_occupant_distinct(cols0, cols0.len() as int, k);
        }
        assert forall|c: (i32, i32)| #![trigger (st0.0)(c)] (st0.0)(c) is Some implies exists|k: int|
            0 <= k < cols0.len() && cols0[k].cell == c && (st0.0)(c) == Some(cols0[k].entity) by {
            lemma_occupant_witness(cols0, cols0.len() as int, c);
            let k = choose|k: int| 0 <= k < cols0.len() && cols0[k].cell == c;
            lemma_occupant_distinct(cols0, cols0.len() as int, k);
        }
    } else {
        lemma_fold_keeps_apart(cols0, order, n - 1);
        let prev = snap_fold(st0, order, n - 1);
        let idx = order[n - 1];
        let occ = prev.0;
        let cols = prev.1;
        let c = cols[idx as int];
        if !c.path.done() {
            let t = next_waypoint(c);
            if occ(t) is None || occ(t) == Some(c.entity) {
                let nxt = snap_step(prev, idx);
                let occ2 = occ_moved(occ, c.entity, t);
                let cols2 = cols.update(idx as int, snapped_colonist(c));
                assert(nxt.0 == occ2);
                assert(nxt.1 == cols2);
                assert forall|a: int, b: int| 0 <= a < b < cols2.len() implies (#[trigger] cols2[a]).cell != (#[trigger] cols2[b]).cell by {
                    if a == idx {
                        assert(occ(cols[b].cell) == Some(cols[b].entity));
                        assert(cols[b].entity != c.entity);
                    } else if b == idx {
                        assert(occ(cols[a].cell) == Some(cols[a].entity));
                        assert(cols[a].entity != c.entity);
                    } else {
                        assert(cols2[a] == cols[a] && cols2[b] == cols[b]);
                    }
                }
                assert forall|a: int, b: int| 0 <= a < b < cols2.len() implies (#[trigger] cols2[a]).entity != (#[trigger] cols2[b]).entity by {
                    assert(cols2[a].entity == cols[a].entity && cols2[b].entity == cols[b].entity);
                }
                assert forall|k: int| 0 <= k < cols2.len() implies occ2((#[trigger] cols2[k]).cell) == Some(cols2[k].entity) by {
                    if k != idx {
                        assert(cols2[k] == cols[k]);
                        assert(occ(cols[k].cell) == Some(cols[k].entity));
                        assert(cols[k].entity != c.entity);
                        assert(cols[k].cell != t) by {
                            if cols[k].cell == t {
                                assert(occ(t) == Some(cols[k].entity));
                            }
                        }
                    }
                }
                assert forall|cc: (i32, i32)| #![trigger occ2(cc)] occ2(cc) is Some implies exists|k: int|
                    0 <= k < cols2.len() && cols2[k].cell == cc && occ2(cc) == Some(cols2[k].entity) by {
                    if cc == t {
                        assert(cols2[idx as int].cell == cc);
                    } else {
                        let x = occ2(cc)->0;
                        assert(occ(cc) == Some(x) && x != c.entity);
                        let k = choose|k: int| 0 <= k < cols.len() && cols[k].cell == cc && occ(cc) == Some(cols[k].entity);
                        assert(k != idx);
                        assert(cols2[k] == cols[k]);
                    }
                }
                assert(occ_agrees(nxt));
            }
        }
    }
}

/// When no two colonists share a cell or an entity number before a tick of movement,
/// none share a cell after the arrivals of that tick: an arriving colonist only takes
/// a cell that nobody stands on.
pub proof fn lemma_snaps_keep_cells_apart(cols0: Seq<ColonistState>, order: Seq<usize>)
    requires
        entities_distinct(cols0),
        cells_distinct(cols0),
        forall|k: int| 0 <= k < order.len() ==> #[trigger] order[k] < cols0.len(),
    ensures
        cells_distinct(snap_fold(snap_start(cols0), order, order.len() as int).1),
{
    lemma_fold_keeps_apart(cols0, order, order.len() as int);
}

} // verus!
