use game_core::components::{
    ActiveStatuses, BedOccupancy, BerrySupply, BuildingKind, ColonistId, ColonistName,
    ConstructionSite, Entity, Path, Task, TaskKind,
};
use game_core::content::{
    ApplyWhenRaw, BuildingDefRaw, ContentPackRaw, ContentRegistry, InteractionDefRaw,
    InteractionEffectRaw, NeedDefRaw, SpawnPrimitiveRaw, StatusDefRaw, StatusEffectRaw,
    TerrainDefRaw,
};
use game_core::systems::{BuildingState, ColonistState, Colony, SiteState};
use game_core::world::{WorldGrid, GRID_CELLS};

fn need(id: &str, max: f32, decay: f32, threshold: f32) -> NeedDefRaw {
    NeedDefRaw {
        id: id.to_string(),
        label: id.to_string(),
        max_bits: max.to_bits(),
        decay_per_sec_bits: decay.to_bits(),
        critical_threshold_bits: threshold.to_bits(),
    }
}

fn status(id: &str, need: &str, task: &str) -> StatusDefRaw {
    StatusDefRaw {
        id: id.to_string(),
        label: id.to_string(),
        apply_when: ApplyWhenRaw { need: need.to_string(), condition: "below_threshold".to_string() },
        effects: vec![StatusEffectRaw::TaskPriority { task: task.to_string(), priority: 100 }],
    }
}

fn building_def(id: &str, work: f32, blocks_movement: bool, on_complete: Vec<SpawnPrimitiveRaw>, interactions: Vec<InteractionDefRaw>) -> BuildingDefRaw {
    BuildingDefRaw {
        id: id.to_string(),
        label: id.to_string(),
        work_required_bits: work.to_bits(),
        work_to_deconstruct_bits: None,
        blocks_movement,
        blocks_settle: true,
        buildable: true,
        color: 0,
        on_complete,
        interactions,
    }
}

fn base_content() -> ContentRegistry {
    let pack = ContentPackRaw {
        needs: vec![need("food", 100.0, 2.0, 30.0), need("sleep", 100.0, 1.5, 30.0)],
        statuses: vec![status("hungry", "food", "eat"), status("wants_sleep", "sleep", "sleep")],
        buildings: vec![
            building_def(
                "berry_bush",
                40.0,
                true,
                vec![SpawnPrimitiveRaw::Supply { resource: "berries".to_string(), amount: 3 }],
                vec![InteractionDefRaw {
                    mode: "adjacent".to_string(),
                    duration_sec_bits: 0.0f32.to_bits(),
                    effects: vec![
                        InteractionEffectRaw::ConsumeSupply { resource: "berries".to_string(), amount: 1 },
                        InteractionEffectRaw::RestoreNeed { need: "food".to_string(), amount_bits: 100.0f32.to_bits() },
                    ],
                }],
            ),
            building_def(
                "bed",
                30.0,
                false,
                vec![SpawnPrimitiveRaw::Reservation { kind: "single_occupant".to_string() }],
                vec![InteractionDefRaw {
                    mode: "on_tile".to_string(),
                    duration_sec_bits: 2.0f32.to_bits(),
                    effects: vec![InteractionEffectRaw::RestoreNeed { need: "sleep".to_string(), amount_bits: 100.0f32.to_bits() }],
                }],
            ),
            building_def("wall", 30.0, true, vec![], vec![]),
        ],
        terrain: vec![
            TerrainDefRaw { id: "grass".to_string(), walkable: true, color: 0 },
            TerrainDefRaw { id: "water".to_string(), walkable: false, color: 0 },
            TerrainDefRaw { id: "sand".to_string(), walkable: true, color: 0 },
        ],
    };
    ContentRegistry::from_pack(&pack).expect("base content pack must be valid")
}

fn grass_grid(content: &ContentRegistry) -> WorldGrid {
    WorldGrid { terrain: vec![content.grass_terrain; GRID_CELLS], buildings: vec![None; GRID_CELLS], seed: 0 }
}

fn set_water(grid: &mut WorldGrid, content: &ContentRegistry, x: i32, y: i32) {
    grid.terrain[WorldGrid::index(x, y).unwrap()] = content.water_terrain;
}

fn colonist(e: u32, x: i32, y: i32) -> ColonistState {
    ColonistState {
        entity: Entity(e),
        id: ColonistId(e),
        name: ColonistName(format!("c{e}")),
        cell: (x, y),
        task: Task::default(),
        path: Path::new(),
        statuses: ActiveStatuses(vec![]),
        sleep_timer: None,
    }
}

fn colony_of(colonists: Vec<ColonistState>) -> Colony {
    Colony { colonists, buildings: vec![], sites: vec![], decon_sites: vec![], next_entity: 1000 }
}

fn bush(content: &ContentRegistry, e: u32, x: i32, y: i32, berries: u8) -> BuildingState {
    BuildingState {
        entity: Entity(e),
        cell: (x, y),
        kind: BuildingKind(content.berry_bush_building),
        supply: Some(BerrySupply::new(berries)),
        occupancy: None,
    }
}

fn bed(content: &ContentRegistry, e: u32, x: i32, y: i32) -> BuildingState {
    BuildingState {
        entity: Entity(e),
        cell: (x, y),
        kind: BuildingKind(content.bed_building),
        supply: None,
        occupancy: Some(BedOccupancy { reserved_by: None }),
    }
}

fn wall_site(content: &ContentRegistry, e: u32, x: i32, y: i32, work: u32) -> SiteState {
    SiteState {
        entity: Entity(e),
        cell: (x, y),
        site: ConstructionSite { building_id: content.wall_building, work_left: Some(work), reserved_by: None },
    }
}

/// Statuses from needs: `(food below threshold, sleep below threshold)` per colonist.
use game_core::pathfinding::{find_path, find_path_avoiding};

fn path_has_diagonal_step(path: &[(i32, i32)]) -> bool {
    path.windows(2).any(|w| {
        let (x0, y0) = w[0];
        let (x1, y1) = w[1];
        (x1 - x0).abs() == 1 && (y1 - y0).abs() == 1
    })
}

fn path_cost(path: &[(i32, i32)]) -> f32 {
    path.windows(2)
        .map(|w| {
            let dx = (w[1].0 - w[0].0).abs();
            let dy = (w[1].1 - w[0].1).abs();
            if dx == 1 && dy == 1 {
                std::f32::consts::SQRT_2
            } else {
                1.0
            }
        })
        .sum()
}

#[test]
fn open_area_path_prefers_diagonal_shortcut() {
    let content = base_content();
    let grid = grass_grid(&content);
    let path = find_path(&grid, &content, (0, 0), (4, 4)).expect("path should exist");
    assert!(path_has_diagonal_step(&path), "expected diagonal waypoints, got {:?}", path);
    assert!(path_cost(&path) < 8.0, "diagonal route should beat orthogonal-only cost of 8, got {}", path_cost(&path));
}

#[test]
fn diagonal_step_blocked_when_corner_bounded_by_walls() {
    let content = base_content();
    let mut grid = grass_grid(&content);
    assert!(grid.place_building(&content, 6, 5, content.wall_building));
    assert!(grid.place_building(&content, 5, 6, content.wall_building));
    let path = find_path(&grid, &content, (5, 5), (6, 6)).expect("path should exist");
    assert!(!path.windows(2).any(|w| w[0] == (5, 5) && w[1] == (6, 6)), "corner-cutting diagonal should be blocked, got {:?}", path);
    assert!(path.len() > 2, "path must route around the corner");
}

#[test]
fn same_start_and_goal_gives_single_cell() {
    let content = base_content();
    let grid = grass_grid(&content);
    assert_eq!(find_path(&grid, &content, (7, 7), (7, 7)), Some(vec![(7, 7)]));
}

#[test]
fn unwalkable_goal_has_no_path() {
    let content = base_content();
    let mut grid = grass_grid(&content);
    set_water(&mut grid, &content, 9, 9);
    assert_eq!(find_path(&grid, &content, (0, 0), (9, 9)), None);
    assert_eq!(find_path(&grid, &content, (0, 0), (60, 9)), None);
}

#[test]
fn straight_path_is_shortest() {
    let content = base_content();
    let grid = grass_grid(&content);
    let path = find_path(&grid, &content, (0, 0), (5, 0)).unwrap();
    assert_eq!(path, vec![(0, 0), (1, 0), (2, 0), (3, 0), (4, 0), (5, 0)]);
}

#[test]
fn blocked_cells_are_avoided_but_goal_may_be_blocked() {
    let content = base_content();
    let grid = grass_grid(&content);
    let blocked = [(1, 0), (1, 1), (1, -1)];
    let path = find_path_avoiding(&grid, &content, (0, 0), (2, 0), &blocked).unwrap();
    assert!(path.iter().all(|c| !blocked.contains(c)));
    assert_eq!(*path.last().unwrap(), (2, 0));
    let path = find_path_avoiding(&grid, &content, (0, 0), (1, 0), &[(1, 0)]).unwrap();
    assert_eq!(path, vec![(0, 0), (1, 0)]);
}

#[test]
fn walled_in_goal_is_unreachable() {
    let content = base_content();
    let mut grid = grass_grid(&content);
    for (x, y) in [(19, 20), (21, 20), (20, 19), (20, 21), (19, 19), (21, 21), (19, 21), (21, 19)] {
        assert!(grid.place_building(&content, x, y, content.wall_building));
    }
    assert_eq!(find_path(&grid, &content, (0, 0), (20, 20)), None);
}
