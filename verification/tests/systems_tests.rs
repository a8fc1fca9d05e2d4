use game_core::components::{
    ActiveStatuses, BedOccupancy, BerrySupply, BuildingKind, ColonistId, ColonistName,
    ConstructionSite, Entity, Path, Task, TaskKind,
};
use game_core::content::{
    ApplyWhenRaw, BuildingDefRaw, ContentPackRaw, ContentRegistry, InteractionDefRaw,
    InteractionEffectRaw, NeedDefRaw, SpawnPrimitiveRaw, StatusDefRaw, StatusEffectRaw,
    TerrainDefRaw,
};
use game_core::systems::{BuildingState, ColonistState, Colony, SiteState};
use game_core::world::{WorldGrid, GRID_CELLS};

fn need(id: &str, max: f32, decay: f32, threshold: f32) -> NeedDefRaw {
    NeedDefRaw {
        id: id.to_string(),
        label: id.to_string(),
        max_bits: max.to_bits(),
        decay_per_sec_bits: decay.to_bits(),
        critical_threshold_bits: threshold.to_bits(),
    }
}

fn status(id: &str, need: &str, task: &str) -> StatusDefRaw {
    StatusDefRaw {
        id: id.to_string(),
        label: id.to_string(),
        apply_when: ApplyWhenRaw { need: need.to_string(), condition: "below_threshold".to_string() },
        effects: vec![StatusEffectRaw::TaskPriority { task: task.to_string(), priority: 100 }],
    }
}

fn building_def(id: &str, work: f32, blocks_movement: bool, on_complete: Vec<SpawnPrimitiveRaw>, interactions: Vec<InteractionDefRaw>) -> BuildingDefRaw {
    BuildingDefRaw {
        id: id.to_string(),
        label: id.to_string(),
        work_required_bits: work.to_bits(),
        work_to_deconstruct_bits: None,
        blocks_movement,
        blocks_settle: true,
        buildable: true,
        color: 0,
        on_complete,
        interactions,
    }
}

fn base_content() -> ContentRegistry {
    let pack = ContentPackRaw {
        needs: vec![need("food", 100.0, 2.0, 30.0), need("sleep", 100.0, 1.5, 30.0)],
        statuses: vec![status("hungry", "food", "eat"), status("wants_sleep", "sleep", "sleep")],
        buildings: vec![
            building_def(
                "berry_bush",
                40.0,
                true,
                vec![SpawnPrimitiveRaw::Supply { resource: "berries".to_string(), amount: 3 }],
                vec![InteractionDefRaw {
                    mode: "adjacent".to_string(),
                    duration_sec_bits: 0.0f32.to_bits(),
                    effects: vec![
                        InteractionEffectRaw::ConsumeSupply { resource: "berries".to_string(), amount: 1 },
                        InteractionEffectRaw::RestoreNeed { need: "food".to_string(), amount_bits: 100.0f32.to_bits() },
                    ],
                }],
            ),
            building_def(
                "bed",
                30.0,
                false,
                vec![SpawnPrimitiveRaw::Reservation { kind: "single_occupant".to_string() }],
                vec![InteractionDefRaw {
                    mode: "on_tile".to_string(),
                    duration_sec_bits: 2.0f32.to_bits(),
                    effects: vec![InteractionEffectRaw::RestoreNeed { need: "sleep".to_string(), amount_bits: 100.0f32.to_bits() }],
                }],
            ),
            building_def("wall", 30.0, true, vec![], vec![]),
        ],
        terrain: vec![
            TerrainDefRaw { id: "grass".to_string(), walkable: true, color: 0 },
            TerrainDefRaw { id: "water".to_string(), walkable: false, color: 0 },
            TerrainDefRaw { id: "sand".to_string(), walkable: true, color: 0 },
        ],
    };
    ContentRegistry::from_pack(&pack).expect("base content pack must be valid")
}

fn grass_grid(content: &ContentRegistry) -> WorldGrid {
    WorldGrid { terrain: vec![content.grass_terrain; GRID_CELLS], buildings: vec![None; GRID_CELLS], seed: 0 }
}

fn set_water(grid: &mut WorldGrid, content: &ContentRegistry, x: i32, y: i32) {
    grid.terrain[WorldGrid::index(x, y).unwrap()] = content.water_terrain;
}

fn colonist(e: u32, x: i32, y: i32) -> ColonistState {
    ColonistState {
        entity: Entity(e),
        id: ColonistId(e),
        name: ColonistName(format!("c{e}")),
        cell: (x, y),
        task: Task::default(),
        path: Path::new(),
        statuses: ActiveStatuses(vec![]),
        sleep_timer: None,
    }
}

fn colony_of(colonists: Vec<ColonistState>) -> Colony {
    Colony { colonists, buildings: vec![], sites: vec![], decon_sites: vec![], next_entity: 1000 }
}

fn bush(content: &ContentRegistry, e: u32, x: i32, y: i32, berries: u8) -> BuildingState {
    BuildingState {
        entity: Entity(e),
        cell: (x, y),
        kind: BuildingKind(content.berry_bush_building),
        supply: Some(BerrySupply::new(berries)),
        occupancy: None,
    }
}

fn bed(content: &ContentRegistry, e: u32, x: i32, y: i32) -> BuildingState {
    BuildingState {
        entity: Entity(e),
        cell: (x, y),
        kind: BuildingKind(content.bed_building),
        supply: None,
        occupancy: Some(BedOccupancy { reserved_by: None }),
    }
}

fn wall_site(content: &ContentRegistry, e: u32, x: i32, y: i32, work: u32) -> SiteState {
    SiteState {
        entity: Entity(e),
        cell: (x, y),
        site: ConstructionSite { building_id: content.wall_building, work_left: Some(work), reserved_by: None },
    }
}

/// Statuses from needs: `(food below threshold, sleep below threshold)` per colonist.
fn set_needs(colony: &mut Colony, content: &ContentRegistry, rows: &[(bool, bool)]) {
    let below: Vec<Vec<bool>> = rows.iter().map(|&(f, s)| vec![f, s]).collect();
    colony.sync_statuses(content, &below);
}

fn run_auto_assign(colony: &mut Colony, grid: &WorldGrid, content: &ContentRegistry, rows: &[(bool, bool)]) {
    set_needs(colony, content, rows);
    game_core::tasks::auto_assign_tasks(colony, grid, content);
}

/// One tick of movement in which every colonist that may step reaches its waypoint.
fn step_all(colony: &mut Colony) {
    let targets = colony.movement_targets();
    let snaps: Vec<usize> = targets.iter().enumerate().filter(|(_, t)| t.is_some()).map(|(i, _)| i).collect();
    colony.colonist_movement(&snaps, &vec![]);
}

fn idle(colony: &Colony, i: usize) -> bool {
    colony.colonists[i].task.kind == TaskKind::Idle
}
use game_core::pathfinding::best_adjacent_stand;
use game_core::tasks::{permute_by_draws, pick_wander_target, NeedKind};
use game_core::systems::spawn_colonists;
use game_core::world::{generate_world, VACATE_SEARCH_RADIUS, WANDER_MIN_RADIUS};

fn ticks(colony: &Colony, dt: f32) -> Vec<(u32, bool)> {
    colony
        .colonists
        .iter()
        .map(|c| match c.sleep_timer {
            Some(b) => {
                let r = f32::from_bits(b) - dt;
                (r.to_bits(), r > 0.0)
            }
            None => (0, false),
        })
        .collect()
}

fn execute(colony: &mut Colony, grid: &mut WorldGrid, content: &ContentRegistry, dt: f32) -> Vec<(Entity, NeedKind)> {
    let t = ticks(colony, dt);
    colony.task_execution(grid, content, &t)
}

fn sleeper_on_bed(colony: &mut Colony, e: u32, bed_index: usize, x: i32, y: i32) -> usize {
    let mut c = colonist(e, x, y);
    c.task = Task { kind: TaskKind::Sleep, building_x: x, building_y: y, target_x: x, target_y: y };
    colony.colonists.push(c);
    colony.buildings[bed_index].occupancy = Some(BedOccupancy { reserved_by: Some(Entity(e)) });
    colony.colonists.len() - 1
}

/// Wakes the sleeper at `i` (its bed time runs out) and lets it walk off the bed.
fn sleep_and_vacate(colony: &mut Colony, grid: &mut WorldGrid, content: &ContentRegistry, i: usize, bed: (i32, i32)) -> Vec<(Entity, NeedKind)> {
    colony.colonists[i].sleep_timer = Some(0.0f32.to_bits());
    let restored = execute(colony, grid, content, 2.0);
    for _ in 0..64 {
        if colony.colonists[i].cell == bed {
            step_all(colony);
        } else {
            break;
        }
    }
    restored
}

#[test]
fn hungry_buff_applied_when_food_below_threshold() {
    let content = base_content();
    let mut colony = colony_of(vec![colonist(1, 0, 0)]);
    set_needs(&mut colony, &content, &[(true, false)]);
    assert!(colony.colonists[0].statuses.has(content.hungry_status));
    assert!(!colony.colonists[0].statuses.has(content.wants_sleep_status));
}

#[test]
fn eat_task_targets_adjacent_stand_not_bush_tile() {
    let content = base_content();
    let mut grid = grass_grid(&content);
    assert!(grid.place_building(&content, 10, 10, content.berry_bush_building));
    let mut colony = colony_of(vec![colonist(1, 5, 10)]);
    colony.buildings.push(bush(&content, 50, 10, 10, 3));
    run_auto_assign(&mut colony, &grid, &content, &[(true, false)]);
    let task = colony.colonists[0].task;
    assert_eq!(task.kind, TaskKind::Eat);
    assert_eq!((task.building_x, task.building_y), (10, 10));
    assert_ne!((task.target_x, task.target_y), (10, 10));
    assert_eq!((task.target_x - task.building_x).abs() + (task.target_y - task.building_y).abs(), 1);
}

#[test]
fn eat_execution_requires_adjacency_not_bush_tile() {
    let content = base_content();
    let mut grid = grass_grid(&content);
    assert!(grid.place_building(&content, 10, 10, content.berry_bush_building));
    let mut c = colonist(1, 10, 10);
    c.task = Task { kind: TaskKind::Eat, building_x: 10, building_y: 10, target_x: 10, target_y: 10 };
    let mut colony = colony_of(vec![c]);
    colony.buildings.push(bush(&content, 50, 10, 10, 3));
    let restored = execute(&mut colony, &mut grid, &content, 0.05);
    assert!(restored.is_empty(), "standing on bush must not eat");
    assert_eq!(colony.buildings[0].supply.unwrap().remaining, 3);
}

#[test]
fn only_one_colonist_reserves_a_bed() {
    let content = base_content();
    let mut grid = grass_grid(&content);
    assert!(grid.place_building(&content, 12, 12, content.bed_building));
    let mut colony = colony_of(vec![colonist(1, 5, 12), colonist(2, 6, 12)]);
    colony.buildings.push(bed(&content, 50, 12, 12));
    run_auto_assign(&mut colony, &grid, &content, &[(false, true), (false, true)]);
    let assigned: Vec<usize> = (0..2).filter(|&i| colony.colonists[i].task.kind == TaskKind::Sleep).collect();
    assert_eq!(assigned.len(), 1);
    assert_eq!(colony.buildings[0].occupancy.unwrap().reserved_by, Some(colony.colonists[assigned[0]].entity));
}

#[test]
fn bed_reservation_released_when_sleep_path_fails() {
    let content = base_content();
    let mut grid = grass_grid(&content);
    assert!(grid.place_building(&content, 12, 12, content.bed_building));
    let mut c = colonist(1, 5, 12);
    c.task = Task { kind: TaskKind::Sleep, building_x: 12, building_y: 12, target_x: 12, target_y: 12 };
    let mut colony = colony_of(vec![c]);
    colony.buildings.push(bed(&content, 50, 12, 12));
    colony.buildings[0].occupancy = Some(BedOccupancy { reserved_by: Some(Entity(1)) });
    run_auto_assign(&mut colony, &grid, &content, &[(false, false)]);
    assert!(colony.buildings[0].occupancy.unwrap().reserved_by.is_none());
    assert_eq!(colony.colonists[0].task.kind, TaskKind::Idle);
}

#[test]
fn colonist_stays_on_bed_while_sleeping() {
    let content = base_content();
    let mut grid = grass_grid(&content);
    assert!(grid.place_building(&content, 12, 12, content.bed_building));
    let mut colony = colony_of(vec![]);
    colony.buildings.push(bed(&content, 50, 12, 12));
    let i = sleeper_on_bed(&mut colony, 1, 0, 12, 12);
    let restored = execute(&mut colony, &mut grid, &content, 0.05);
    assert!(restored.is_empty());
    assert!(colony.colonists[i].sleep_timer.is_some());
    assert_eq!(f32::from_bits(colony.colonists[i].sleep_timer.unwrap()), 2.0);
    assert_eq!(colony.colonists[i].cell, (12, 12));
    assert_eq!(colony.colonists[i].task.kind, TaskKind::Sleep);
    assert_eq!(colony.buildings[0].occupancy.unwrap().reserved_by, Some(Entity(1)));
}

#[test]
fn sleep_vacates_to_adjacent_cell_after_completion() {
    let content = base_content();
    let mut grid = grass_grid(&content);
    assert!(grid.place_building(&content, 12, 12, content.bed_building));
    let mut colony = colony_of(vec![]);
    colony.buildings.push(bed(&content, 50, 12, 12));
    let i = sleeper_on_bed(&mut colony, 1, 0, 12, 12);
    let restored = sleep_and_vacate(&mut colony, &mut grid, &content, i, (12, 12));
    let (gx, gy) = colony.colonists[i].cell;
    assert_ne!((gx, gy), (12, 12), "colonist must leave the bed tile");
    assert_eq!((gx - 12).abs() + (gy - 12).abs(), 1, "vacate should prefer ring 1");
    assert_eq!(restored, vec![(Entity(1), NeedKind::Sleep)]);
    assert_eq!(colony.colonists[i].task.kind, TaskKind::Idle);
    assert!(colony.buildings[0].occupancy.unwrap().reserved_by.is_none());
}

#[test]
fn sleep_vacates_to_free_adjacent_when_one_ring_one_cell_open() {
    let content = base_content();
    let mut grid = grass_grid(&content);
    assert!(grid.place_building(&content, 12, 12, content.bed_building));
    let mut colony = colony_of(vec![colonist(2, 12, 11), colonist(3, 12, 13), colonist(4, 11, 12)]);
    colony.buildings.push(bed(&content, 50, 12, 12));
    let i = sleeper_on_bed(&mut colony, 1, 0, 12, 12);
    let restored = sleep_and_vacate(&mut colony, &mut grid, &content, i, (12, 12));
    assert_eq!(colony.colonists[i].cell, (13, 12));
    assert_eq!(restored, vec![(Entity(1), NeedKind::Sleep)]);
    assert!(colony.buildings[0].occupancy.unwrap().reserved_by.is_none());
}

#[test]
fn sleep_stays_on_bed_when_ring_one_fully_blocked() {
    let content = base_content();
    let mut grid = grass_grid(&content);
    assert!(grid.place_building(&content, 12, 12, content.bed_building));
    let mut colony = colony_of(vec![colonist(2, 12, 11), colonist(3, 12, 13), colonist(4, 11, 12), colonist(5, 13, 12)]);
    colony.buildings.push(bed(&content, 50, 12, 12));
    let i = sleeper_on_bed(&mut colony, 1, 0, 12, 12);
    colony.colonists[i].sleep_timer = Some(0.0f32.to_bits());
    let restored = execute(&mut colony, &mut grid, &content, 2.0);
    for _ in 0..64 {
        step_all(&mut colony);
    }
    assert_eq!(colony.colonists[i].cell, (12, 12));
    assert_eq!(restored, vec![(Entity(1), NeedKind::Sleep)]);
    assert!(colony.buildings[0].occupancy.unwrap().reserved_by.is_none());
}

#[test]
fn sleep_stays_on_bed_when_no_vacate_cell() {
    let content = base_content();
    let mut grid = grass_grid(&content);
    assert!(grid.place_building(&content, 12, 12, content.bed_building));
    let mut colony = colony_of(vec![]);
    colony.buildings.push(bed(&content, 50, 12, 12));
    let r = VACATE_SEARCH_RADIUS;
    let mut e = 100;
    for dy in -r..=r {
        for dx in -r..=r {
            let dist = dx.abs() + dy.abs();
            if dist == 0 || dist > r {
                continue;
            }
            colony.colonists.push(colonist(e, 12 + dx, 12 + dy));
            e += 1;
        }
    }
    let i = sleeper_on_bed(&mut colony, 1, 0, 12, 12);
    colony.colonists[i].sleep_timer = Some(0.0f32.to_bits());
    let restored = execute(&mut colony, &mut grid, &content, 2.0);
    assert_eq!(colony.colonists[i].cell, (12, 12));
    assert!(colony.colonists[i].path.waypoints.is_empty());
    assert_eq!(restored, vec![(Entity(1), NeedKind::Sleep)]);
    assert_eq!(colony.colonists[i].task.kind, TaskKind::Idle);
    assert!(colony.buildings[0].occupancy.unwrap().reserved_by.is_none());
}

#[test]
fn second_colonist_can_sleep_after_first_vacates() {
    let content = base_content();
    let mut grid = grass_grid(&content);
    assert!(grid.place_building(&content, 12, 12, content.bed_building));
    let mut colony = colony_of(vec![]);
    colony.buildings.push(bed(&content, 50, 12, 12));
    let first = sleeper_on_bed(&mut colony, 1, 0, 12, 12);
    sleep_and_vacate(&mut colony, &mut grid, &content, first, (12, 12));
    assert_ne!(colony.colonists[first].cell, (12, 12));
    let second = sleeper_on_bed(&mut colony, 2, 0, 12, 12);
    colony.colonists[second].sleep_timer = Some(0.0f32.to_bits());
    let restored = execute(&mut colony, &mut grid, &content, 2.0);
    assert!(restored.contains(&(Entity(2), NeedKind::Sleep)));
    assert!(colony.buildings[0].occupancy.unwrap().reserved_by.is_none());
}

#[test]
fn build_task_targets_adjacent_stand_not_site_tile() {
    let content = base_content();
    let grid = grass_grid(&content);
    let mut colony = colony_of(vec![colonist(1, 5, 10)]);
    colony.sites.push(wall_site(&content, 50, 10, 10, 30));
    run_auto_assign(&mut colony, &grid, &content, &[(false, false)]);
    let task = colony.colonists[0].task;
    assert_eq!(task.kind, TaskKind::Build);
    assert_eq!((task.building_x, task.building_y), (10, 10));
    assert_ne!((task.target_x, task.target_y), (10, 10));
    assert_eq!((task.target_x - task.building_x).abs() + (task.target_y - task.building_y).abs(), 1);
    assert_eq!(colony.sites[0].site.reserved_by, Some(Entity(1)));
}

#[test]
fn best_adjacent_stand_skips_unwalkable_neighbors() {
    let content = base_content();
    let mut grid = grass_grid(&content);
    set_water(&mut grid, &content, 5, 4);
    set_water(&mut grid, &content, 5, 6);
    set_water(&mut grid, &content, 4, 5);
    let stand = best_adjacent_stand(&grid, &content, (5, 5), (0, 5)).unwrap();
    assert_eq!(stand, (6, 5));
}

#[test]
fn second_colonist_waits_when_snap_target_occupied() {
    let mut blocker = colonist(1, 10, 10);
    blocker.path = Path { waypoints: vec![(10, 10)], index: 0 };
    let mut waiter = colonist(2, 9, 10);
    waiter.path = Path { waypoints: vec![(10, 10)], index: 0 };
    let mut colony = colony_of(vec![blocker, waiter]);
    let targets = colony.movement_targets();
    assert_eq!(targets, vec![Some((10, 10)), None]);
    // The blocker is already on its waypoint: it arrives this tick.
    let snapped = colony.colonist_movement(&vec![0], &vec![]);
    assert_eq!(snapped, vec![true, false]);
    assert_eq!(colony.colonists[0].cell, (10, 10));
    assert_ne!(colony.colonists[1].cell, (10, 10));
    assert_eq!(colony.colonists[1].path.index, 0);
}

#[test]
fn colonists_partial_step_without_snap_blocking() {
    let mut a = colonist(1, 9, 10);
    a.path = Path { waypoints: vec![(10, 10)], index: 0 };
    let mut b = colonist(2, 11, 10);
    b.path = Path { waypoints: vec![(10, 10)], index: 0 };
    let mut colony = colony_of(vec![a, b]);
    let targets = colony.movement_targets();
    assert_eq!(targets, vec![Some((10, 10)), Some((10, 10))]);
    // Both are a whole cell away with a step of 0.04: neither arrives; the host
    // reports their new cells (9.04 -> 9, 10.96 -> 10).
    let snapped = colony.colonist_movement(&vec![], &vec![(0, (9, 10)), (1, (10, 10))]);
    assert_eq!(snapped, vec![false, false]);
    let indices: Vec<usize> = colony.colonists.iter().map(|c| c.path.index).collect();
    assert_eq!(indices, vec![0, 0]);
}

#[test]
fn eat_assignment_skips_stand_occupied_by_colonist() {
    let content = base_content();
    let mut grid = grass_grid(&content);
    assert!(grid.place_building(&content, 10, 10, content.berry_bush_building));
    let mut colony = colony_of(vec![colonist(1, 9, 10), colonist(2, 5, 10)]);
    colony.buildings.push(bush(&content, 50, 10, 10, 3));
    run_auto_assign(&mut colony, &grid, &content, &[(false, false), (true, false)]);
    let task = colony.colonists[1].task;
    assert_eq!(task.kind, TaskKind::Eat);
    assert_ne!((task.target_x, task.target_y), (9, 10));
}

#[test]
fn only_one_colonist_assigned_single_bush_stand() {
    let content = base_content();
    let mut grid = grass_grid(&content);
    set_water(&mut grid, &content, 10, 9);
    set_water(&mut grid, &content, 10, 11);
    set_water(&mut grid, &content, 9, 10);
    assert!(grid.place_building(&content, 10, 10, content.berry_bush_building));
    let mut colony = colony_of(vec![colonist(1, 5, 10), colonist(2, 6, 10)]);
    colony.buildings.push(bush(&content, 50, 10, 10, 3));
    run_auto_assign(&mut colony, &grid, &content, &[(true, false), (true, false)]);
    let assigned = (0..2)
        .filter(|&i| colony.colonists[i].task.kind == TaskKind::Eat)
        .filter(|&i| (colony.colonists[i].task.target_x, colony.colonists[i].task.target_y) == (11, 10))
        .count();
    assert_eq!(assigned, 1);
}

#[test]
fn idle_mode_assigns_wander_when_no_need_buffs() {
    let content = base_content();
    let grid = grass_grid(&content);
    let mut colony = colony_of(vec![colonist(1, 10, 10)]);
    set_needs(&mut colony, &content, &[(false, false)]);
    assert!(!colony.colonists[0].statuses.has(content.hungry_status));
    assert!(!colony.colonists[0].statuses.has(content.wants_sleep_status));
    game_core::tasks::auto_assign_tasks(&mut colony, &grid, &content);
    assert!(!colony.colonists[0].path.waypoints.is_empty(), "idle mode should assign wander when no need buffs");
    assert!(idle(&colony, 0));
}

#[test]
fn idle_colonist_gets_wander_path_when_no_needs_or_build() {
    let content = base_content();
    let grid = grass_grid(&content);
    let mut colony = colony_of(vec![colonist(1, 10, 10)]);
    run_auto_assign(&mut colony, &grid, &content, &[(false, false)]);
    assert!(!colony.colonists[0].path.waypoints.is_empty(), "idle colonist should receive a wander path");
    assert!(idle(&colony, 0));
}

#[test]
fn wander_path_replaced_when_critical_need_triggers_eat() {
    let content = base_content();
    let mut grid = grass_grid(&content);
    assert!(grid.place_building(&content, 10, 10, content.berry_bush_building));
    let mut c = colonist(1, 5, 10);
    c.path = Path { waypoints: vec![(6, 10), (7, 10)], index: 0 };
    let mut colony = colony_of(vec![c]);
    colony.buildings.push(bush(&content, 50, 10, 10, 3));
    run_auto_assign(&mut colony, &grid, &content, &[(true, false)]);
    assert_eq!(colony.colonists[0].task.kind, TaskKind::Eat);
    assert_ne!(colony.colonists[0].path.waypoints, vec![(6, 10), (7, 10)]);
    assert!(!colony.colonists[0].path.waypoints.is_empty());
}

#[test]
fn fallback_to_sleep_when_food_path_blocked_by_colonist() {
    let content = base_content();
    let mut grid = grass_grid(&content);
    set_water(&mut grid, &content, 10, 9);
    set_water(&mut grid, &content, 10, 11);
    set_water(&mut grid, &content, 11, 10);
    assert!(grid.place_building(&content, 10, 10, content.berry_bush_building));
    assert!(grid.place_building(&content, 12, 12, content.bed_building));
    // Block the only stand tile (9, 10) next to the bush.
    let mut colony = colony_of(vec![colonist(1, 9, 10), colonist(2, 5, 10)]);
    colony.buildings.push(bush(&content, 50, 10, 10, 3));
    colony.buildings.push(bed(&content, 51, 12, 12));
    run_auto_assign(&mut colony, &grid, &content, &[(false, false), (true, true)]);
    assert_eq!(colony.colonists[1].task.kind, TaskKind::Sleep, "blocked food path should fall back to sleep");
}

#[test]
fn fallback_to_sleep_when_food_unavailable() {
    let content = base_content();
    let mut grid = grass_grid(&content);
    assert!(grid.place_building(&content, 12, 12, content.bed_building));
    let mut colony = colony_of(vec![colonist(1, 5, 12)]);
    colony.buildings.push(bed(&content, 50, 12, 12));
    run_auto_assign(&mut colony, &grid, &content, &[(true, true)]);
    let task = colony.colonists[0].task;
    assert_eq!(task.kind, TaskKind::Sleep);
    assert_eq!((task.building_x, task.building_y), (12, 12));
    assert_eq!(colony.buildings[0].occupancy.unwrap().reserved_by, Some(Entity(1)));
}

#[test]
fn fallback_to_eat_when_sleep_unavailable() {
    let content = base_content();
    let mut grid = grass_grid(&content);
    assert!(grid.place_building(&content, 10, 10, content.berry_bush_building));
    let mut colony = colony_of(vec![colonist(1, 5, 10)]);
    colony.buildings.push(bush(&content, 50, 10, 10, 3));
    run_auto_assign(&mut colony, &grid, &content, &[(true, true)]);
    let task = colony.colonists[0].task;
    assert_eq!(task.kind, TaskKind::Eat);
    assert_eq!((task.building_x, task.building_y), (10, 10));
}

#[test]
fn food_priority_when_both_needs_critical() {
    let content = base_content();
    let mut grid = grass_grid(&content);
    assert!(grid.place_building(&content, 10, 10, content.berry_bush_building));
    assert!(grid.place_building(&content, 12, 12, content.bed_building));
    let mut colony = colony_of(vec![colonist(1, 5, 10)]);
    colony.buildings.push(bush(&content, 50, 10, 10, 3));
    colony.buildings.push(bed(&content, 51, 12, 12));
    run_auto_assign(&mut colony, &grid, &content, &[(true, true)]);
    assert_eq!(colony.colonists[0].task.kind, TaskKind::Eat);
}

#[test]
fn stays_idle_when_both_needs_critical_but_nothing_satisfiable() {
    let content = base_content();
    let grid = grass_grid(&content);
    let mut colony = colony_of(vec![colonist(1, 10, 10)]);
    run_auto_assign(&mut colony, &grid, &content, &[(true, true)]);
    assert!(idle(&colony, 0));
    assert!(!colony.colonists[0].path.waypoints.is_empty(), "unsatisfiable critical needs should fall back to wander");
}

#[test]
fn hungry_colonist_wanders_when_no_food_available() {
    let content = base_content();
    let grid = grass_grid(&content);
    let mut colony = colony_of(vec![colonist(1, 10, 10)]);
    set_needs(&mut colony, &content, &[(true, false)]);
    assert!(colony.colonists[0].statuses.has(content.hungry_status));
    game_core::tasks::auto_assign_tasks(&mut colony, &grid, &content);
    assert!(idle(&colony, 0));
    assert!(!colony.colonists[0].path.waypoints.is_empty(), "hungry colonist with no food source should wander");
}

#[test]
fn eat_task_released_when_bush_depleted_then_fallback_to_sleep() {
    let content = base_content();
    let mut grid = grass_grid(&content);
    assert!(grid.place_building(&content, 10, 10, content.berry_bush_building));
    assert!(grid.place_building(&content, 12, 12, content.bed_building));
    let mut c = colonist(1, 5, 10);
    c.task = Task { kind: TaskKind::Eat, building_x: 10, building_y: 10, target_x: 9, target_y: 10 };
    c.path = Path { waypoints: vec![(9, 10)], index: 0 };
    let mut colony = colony_of(vec![c]);
    colony.buildings.push(bush(&content, 50, 10, 10, 0));
    colony.buildings.push(bed(&content, 51, 12, 12));
    run_auto_assign(&mut colony, &grid, &content, &[(true, true)]);
    assert_eq!(colony.colonists[0].task.kind, TaskKind::Sleep);
    assert_eq!(colony.buildings[1].occupancy.unwrap().reserved_by, Some(Entity(1)));
}

#[test]
fn wander_path_replaced_when_fallback_sleep_assignment_succeeds() {
    let content = base_content();
    let mut grid = grass_grid(&content);
    assert!(grid.place_building(&content, 12, 12, content.bed_building));
    let mut c = colonist(1, 5, 12);
    c.path = Path { waypoints: vec![(6, 12), (7, 12)], index: 0 };
    let mut colony = colony_of(vec![c]);
    colony.buildings.push(bed(&content, 50, 12, 12));
    run_auto_assign(&mut colony, &grid, &content, &[(true, true)]);
    assert_eq!(colony.colonists[0].task.kind, TaskKind::Sleep);
    assert_ne!(colony.colonists[0].path.waypoints, vec![(6, 12), (7, 12)]);
    assert!(!colony.colonists[0].path.waypoints.is_empty());
}

#[test]
fn wander_target_excludes_current_and_occupied_cells() {
    let content = base_content();
    let grid = grass_grid(&content);
    let colony = colony_of(vec![colonist(1, 11, 10), colonist(2, 10, 10)]);
    let occ = colony.colonist_occupancy_map();
    let from = (10, 10);
    for _ in 0..20 {
        let Some(waypoints) = pick_wander_target(&grid, &content, &colony.colonists, &occ, from, Entity(2)) else {
            continue;
        };
        let target = *waypoints.last().unwrap();
        let dist = (target.0 - from.0).abs() + (target.1 - from.1).abs();
        assert!(dist >= WANDER_MIN_RADIUS, "wander must be at least {WANDER_MIN_RADIUS} cells away");
        assert_ne!(target, (11, 10), "wander must not target occupied cell");
        assert_ne!(occ.get(target), Some(Entity(1)), "wander must not target another colonist's cell");
    }
}

#[test]
fn wander_keeps_task_kind_idle() {
    let content = base_content();
    let grid = grass_grid(&content);
    let mut colony = colony_of(vec![colonist(1, 10, 10)]);
    run_auto_assign(&mut colony, &grid, &content, &[(false, false)]);
    assert!(idle(&colony, 0));
    assert!(!colony.colonists[0].path.waypoints.is_empty());
}

#[test]
fn wander_path_avoids_occupied_cells_on_first_step() {
    let content = base_content();
    for seed in 0..200u32 {
        let grid = generate_world(seed, &content);
        let mut colony = colony_of(vec![]);
        spawn_colonists(&mut colony, &grid, &content);
        let rows: Vec<(bool, bool)> = colony.colonists.iter().map(|_| (false, false)).collect();
        run_auto_assign(&mut colony, &grid, &content, &rows);
        let occ = colony.colonist_occupancy_map();
        for c in &colony.colonists {
            if c.task.kind != TaskKind::Idle || c.path.waypoints.is_empty() {
                continue;
            }
            let wp = c.path.waypoints[0];
            assert!(
                !occ.get(wp).is_some_and(|o| o != c.entity),
                "seed {seed}: colonist at {:?} has blocked first waypoint {:?}",
                c.cell,
                wp
            );
        }
    }
}

#[test]
fn spawn_colonists_all_move_after_wander_assignment() {
    let content = base_content();
    let grid = generate_world(42, &content);
    let mut colony = colony_of(vec![]);
    spawn_colonists(&mut colony, &grid, &content);
    let start: Vec<(i32, i32)> = colony.colonists.iter().map(|c| c.cell).collect();
    assert_eq!(start.len(), 3, "expected 3 spawned colonists");
    for _ in 0..200 {
        let rows: Vec<(bool, bool)> = colony.colonists.iter().map(|_| (false, false)).collect();
        run_auto_assign(&mut colony, &grid, &content, &rows);
        step_all(&mut colony);
    }
    let occ = colony.colonist_occupancy_map();
    let mut stuck = Vec::new();
    for (i, c) in colony.colonists.iter().enumerate() {
        let has_active_path = c.path.index < c.path.waypoints.len();
        if c.task.kind == TaskKind::Idle && has_active_path && c.cell == start[i] {
            let wp = c.path.waypoints[c.path.index];
            let blocked_first = occ.get(wp).filter(|&e| e != c.entity);
            stuck.push((c.entity, start[i], wp, blocked_first));
        }
    }
    assert!(stuck.is_empty(), "colonists stuck at spawn with active wander path: {:?}", stuck);
}

#[test]
fn arrivals_never_share_a_cell() {
    // Three colonists head for the same cell from different sides; after every tick
    // of arrivals no two of them stand on one cell.
    let mut a = colonist(1, 8, 10);
    a.path = Path { waypoints: vec![(9, 10), (10, 10)], index: 0 };
    let mut b = colonist(2, 12, 10);
    b.path = Path { waypoints: vec![(11, 10), (10, 10)], index: 0 };
    let mut c = colonist(3, 10, 12);
    c.path = Path { waypoints: vec![(10, 11), (10, 10)], index: 0 };
    let mut colony = colony_of(vec![a, b, c]);
    for _ in 0..4 {
        let snaps: Vec<usize> = (0..3).collect();
        colony.colonist_movement(&snaps, &vec![]);
        let cells: Vec<(i32, i32)> = colony.colonists.iter().map(|c| c.cell).collect();
        for i in 0..3 {
            for j in (i + 1)..3 {
                assert_ne!(cells[i], cells[j], "colonists {i} and {j} share a cell");
            }
        }
    }
    let on_goal = colony.colonists.iter().filter(|c| c.cell == (10, 10)).count();
    assert_eq!(on_goal, 1);
}

#[test]
fn shuffled_indices_are_distinct_and_in_range() {
    for _ in 0..50 {
        let r = game_core::tasks::shuffled_indices(20, 8);
        assert_eq!(r.len(), 8);
        for (i, &x) in r.iter().enumerate() {
            assert!(x < 20);
            assert!(!r[..i].contains(&x));
        }
    }
    let all = game_core::tasks::shuffled_indices(5, 9);
    let mut sorted = all.clone();
    sorted.sort();
    assert_eq!(sorted, vec![0, 1, 2, 3, 4]);
}

#[test]
fn random_usize_stays_below_its_bound() {
    assert_eq!(game_core::tasks::random_usize(0), 0);
    assert_eq!(game_core::tasks::random_usize(1), 0);
    for _ in 0..100 {
        assert!(game_core::tasks::random_usize(7) < 7);
    }
}

#[test]
fn wander_always_finds_a_way_on_open_ground() {
    let content = base_content();
    let grid = grass_grid(&content);
    let colony = colony_of(vec![colonist(1, 20, 20)]);
    let occ = colony.colonist_occupancy_map();
    for _ in 0..20 {
        assert!(pick_wander_target(&grid, &content, &colony.colonists, &occ, (20, 20), Entity(1)).is_some());
    }
}

#[test]
fn wander_finds_nothing_when_walled_in() {
    let content = base_content();
    let mut grid = grass_grid(&content);
    for x in 9..=11 {
        for y in 9..=11 {
            if (x, y) != (10, 10) {
                set_water(&mut grid, &content, x, y);
            }
        }
    }
    let colony = colony_of(vec![colonist(1, 10, 10)]);
    let occ = colony.colonist_occupancy_map();
    assert!(pick_wander_target(&grid, &content, &colony.colonists, &occ, (10, 10), Entity(1)).is_none());
}

#[test]
fn wander_takes_the_only_cell_in_reach() {
    let content = base_content();
    let mut grid = grass_grid(&content);
    for x in 0..50 {
        for y in 0..50 {
            set_water(&mut grid, &content, x, y);
        }
    }
    for y in 10..=13 {
        grid.terrain[WorldGrid::index(10, y).unwrap()] = content.grass_terrain;
    }
    let colony = colony_of(vec![colonist(1, 10, 10)]);
    let occ = colony.colonist_occupancy_map();
    let waypoints = pick_wander_target(&grid, &content, &colony.colonists, &occ, (10, 10), Entity(1))
        .expect("the one cell far enough away is reachable");
    assert_eq!(waypoints, vec![(10, 11), (10, 12), (10, 13)]);
}

#[test]
fn draws_pick_indices_by_modulo() {
    assert_eq!(game_core::tasks::index_from_draw(10, 3), 1);
    assert_eq!(game_core::tasks::index_from_draw(u64::MAX, 2), 1);
    assert_eq!(game_core::tasks::index_from_draw(6, 7), 6);
}

#[test]
fn fisher_yates_follows_the_draws() {
    assert_eq!(permute_by_draws(3, 3, &vec![2, 0, 0]), vec![2, 1, 0]);
    assert_eq!(permute_by_draws(4, 2, &vec![1, 2, 0, 0]), vec![1, 3]);
    assert_eq!(permute_by_draws(4, 9, &vec![0, 0, 0, 0]), vec![0, 1, 2, 3]);
    assert_eq!(permute_by_draws(0, 3, &vec![]), Vec::<usize>::new());
}

#[test]
fn syncing_statuses_twice_changes_nothing() {
    let content = base_content();
    let mut colony = colony_of(vec![colonist(1, 3, 3), colonist(2, 5, 5)]);
    set_needs(&mut colony, &content, &[(true, false), (false, true)]);
    let once: Vec<Vec<_>> = colony.colonists.iter().map(|c| c.statuses.0.clone()).collect();
    set_needs(&mut colony, &content, &[(true, false), (false, true)]);
    let twice: Vec<Vec<_>> = colony.colonists.iter().map(|c| c.statuses.0.clone()).collect();
    assert_eq!(once, twice);
    assert_eq!(once[0], vec![content.hungry_status]);
    assert_eq!(once[1], vec![content.wants_sleep_status]);
}
