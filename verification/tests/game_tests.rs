use game_core::components::{
    ActiveStatuses, BedOccupancy, BerrySupply, BuildingKind, ColonistId, ColonistName,
    ConstructionSite, Entity, Path, Task, TaskKind,
};
use game_core::content::{
    ApplyWhenRaw, BuildingDefRaw, ContentPackRaw, ContentRegistry, InteractionDefRaw,
    InteractionEffectRaw, NeedDefRaw, SpawnPrimitiveRaw, StatusDefRaw, StatusEffectRaw,
    TerrainDefRaw,
};
use game_core::systems::{BuildingState, ColonistState, Colony, SiteState};
use game_core::world::{WorldGrid, GRID_CELLS};

fn need(id: &str, max: f32, decay: f32, threshold: f32) -> NeedDefRaw {
    NeedDefRaw {
        id: id.to_string(),
        label: id.to_string(),
        max_bits: max.to_bits(),
        decay_per_sec_bits: decay.to_bits(),
        critical_threshold_bits: threshold.to_bits(),
    }
}

fn status(id: &str, need: &str, task: &str) -> StatusDefRaw {
    StatusDefRaw {
        id: id.to_string(),
        label: id.to_string(),
        apply_when: ApplyWhenRaw { need: need.to_string(), condition: "below_threshold".to_string() },
        effects: vec![StatusEffectRaw::TaskPriority { task: task.to_string(), priority: 100 }],
    }
}

fn building_def(id: &str, work: f32, blocks_movement: bool, on_complete: Vec<SpawnPrimitiveRaw>, interactions: Vec<InteractionDefRaw>) -> BuildingDefRaw {
    BuildingDefRaw {
        id: id.to_string(),
        label: id.to_string(),
        work_required_bits: work.to_bits(),
        work_to_deconstruct_bits: None,
        blocks_movement,
        blocks_settle: true,
        buildable: true,
        color: 0,
        on_complete,
        interactions,
    }
}

fn base_content() -> ContentRegistry {
    let pack = ContentPackRaw {
        needs: vec![need("food", 100.0, 2.0, 30.0), need("sleep", 100.0, 1.5, 30.0)],
        statuses: vec![status("hungry", "food", "eat"), status("wants_sleep", "sleep", "sleep")],
        buildings: vec![
            building_def(
                "berry_bush",
                40.0,
                true,
                vec![SpawnPrimitiveRaw::Supply { resource: "berries".to_string(), amount: 3 }],
                vec![InteractionDefRaw {
                    mode: "adjacent".to_string(),
                    duration_sec_bits: 0.0f32.to_bits(),
                    effects: vec![
                        InteractionEffectRaw::ConsumeSupply { resource: "berries".to_string(), amount: 1 },
                        InteractionEffectRaw::RestoreNeed { need: "food".to_string(), amount_bits: 100.0f32.to_bits() },
                    ],
                }],
            ),
            building_def(
                "bed",
                30.0,
                false,
                vec![SpawnPrimitiveRaw::Reservation { kind: "single_occupant".to_string() }],
                vec![InteractionDefRaw {
                    mode: "on_tile".to_string(),
                    duration_sec_bits: 2.0f32.to_bits(),
                    effects: vec![InteractionEffectRaw::RestoreNeed { need: "sleep".to_string(), amount_bits: 100.0f32.to_bits() }],
                }],
            ),
            building_def("wall", 30.0, true, vec![], vec![]),
        ],
        terrain: vec![
            TerrainDefRaw { id: "grass".to_string(), walkable: true, color: 0 },
            TerrainDefRaw { id: "water".to_string(), walkable: false, color: 0 },
            TerrainDefRaw { id: "sand".to_string(), walkable: true, color: 0 },
        ],
    };
    ContentRegistry::from_pack(&pack).expect("base content pack must be valid")
}

use game_core::game::{
    decimal_text, BuildingSnapshot, ColonistLoad, GameState, LoadState, SiteLoad, SnapshotParts,
};

fn test_game() -> GameState {
    GameState::new(base_content())
}

/// A saved game made from a snapshot: sites keep `work_left` from the game.
fn load_from(game: &GameState, parts: &SnapshotParts) -> LoadState {
    LoadState {
        tiles: parts.tiles.clone(),
        buildings: parts.buildings.clone(),
        construction_sites: parts
            .construction_sites
            .iter()
            .map(|s| SiteLoad { x: s.x, y: s.y, building: s.building.clone(), work_left: Some(1) })
            .collect(),
        deconstruction_sites: parts
            .deconstruction_sites
            .iter()
            .map(|s| SiteLoad { x: s.x, y: s.y, building: s.building.clone(), work_left: Some(1) })
            .collect(),
        colonists: parts
            .colonists
            .iter()
            .zip(game.colony.colonists.iter())
            .map(|(v, c)| ColonistLoad {
                id: v.id,
                name: v.name.clone(),
                cell_x: c.cell.0,
                cell_y: c.cell.1,
                task: v.task,
                hungry: v.hungry,
                wants_sleep: v.wants_sleep,
            })
            .collect(),
        paused: parts.paused,
    }
}

fn below_all(game: &GameState, below: bool) -> Vec<Vec<bool>> {
    game.colony.colonists.iter().map(|_| vec![below, below]).collect()
}

#[test]
fn snapshot_flags_match_need_buffs_below_threshold() {
    let mut game = test_game();
    let below = below_all(&game, true);
    game.sync_statuses(&below);
    let snapshot = game.build_snapshot();
    assert!(!snapshot.colonists.is_empty());
    for colonist in &snapshot.colonists {
        assert!(colonist.hungry, "colonist {} should be hungry", colonist.id);
        assert!(colonist.wants_sleep, "colonist {} should want sleep", colonist.id);
    }
}

#[test]
fn snapshot_flags_false_when_needs_satisfied() {
    let mut game = test_game();
    let below = below_all(&game, false);
    game.sync_statuses(&below);
    let snapshot = game.build_snapshot();
    for colonist in &snapshot.colonists {
        assert!(!colonist.hungry, "colonist {} should not be hungry", colonist.id);
        assert!(!colonist.wants_sleep, "colonist {} should not want sleep", colonist.id);
    }
}

#[test]
fn load_state_round_trip_preserves_key_fields() {
    let mut game = test_game();
    game.set_paused(true);
    let original = game.build_snapshot();
    let load = load_from(&game, &original);
    let r = game.restore_from_snapshot(&load);
    assert!(r.is_ok(), "load should succeed: {:?}", r);
    let restored = game.build_snapshot();
    assert_eq!(restored.paused, original.paused);
    assert_eq!(restored.tiles.len(), original.tiles.len());
    assert_eq!(restored.buildings.len(), original.buildings.len());
    assert_eq!(restored.construction_sites.len(), original.construction_sites.len());
    assert_eq!(restored.deconstruction_sites.len(), original.deconstruction_sites.len());
    assert_eq!(restored.colonists.len(), original.colonists.len());
    for (a, b) in restored.colonists.iter().zip(original.colonists.iter()) {
        assert_eq!(a.id, b.id);
        assert_eq!(a.name, b.name);
        assert_eq!(a.hungry, b.hungry);
        assert_eq!(a.wants_sleep, b.wants_sleep);
        assert_eq!(a.task, b.task);
    }
    for (a, b) in restored.tiles.iter().zip(original.tiles.iter()) {
        assert_eq!((a.x, a.y, &a.terrain), (b.x, b.y, &b.terrain));
    }
}

#[test]
fn load_state_rejects_invalid_tile_count() {
    let mut game = test_game();
    let snapshot = game.build_snapshot();
    let mut load = load_from(&game, &snapshot);
    load.tiles.truncate(100);
    let err = game.restore_from_snapshot(&load);
    assert_eq!(err, Err("invalid tile count: expected 2500, got 100".to_string()));
    let unchanged = game.build_snapshot();
    assert_eq!(unchanged.tiles.len(), 2500);
    assert!(!unchanged.paused);
    assert_eq!(unchanged.colonists.len(), snapshot.colonists.len());
}

#[test]
fn deconstruct_event_instant_cancel_at_zero_progress() {
    let mut game = test_game();
    let _ = game.handle_build("wall", 10, 10, Some(30));
    game.handle_deconstruct(10, 10, true, Some(30));
    let snapshot = game.build_snapshot();
    assert!(snapshot.construction_sites.is_empty());
    assert!(snapshot.deconstruction_sites.is_empty());
}

#[test]
fn deconstruction_sites_survive_save_load_round_trip() {
    let mut game = test_game();
    let original = game.build_snapshot();
    let mut load = load_from(&game, &original);
    load.buildings.push(BuildingSnapshot { x: 10, y: 10, building: "wall".to_string(), berries: None });
    load.deconstruction_sites.push(SiteLoad { x: 10, y: 10, building: "wall".to_string(), work_left: Some(15) });
    let r = game.restore_from_snapshot(&load);
    assert!(r.is_ok(), "load should succeed: {:?}", r);
    let restored = game.build_snapshot();
    assert_eq!(restored.deconstruction_sites.len(), 1);
    assert_eq!(restored.deconstruction_sites[0].x, 10);
    assert_eq!(restored.deconstruction_sites[0].y, 10);
    assert_eq!(game.colony.decon_sites[0].site.work_left, Some(15));
}

#[test]
fn decimal_text_writes_digits() {
    assert_eq!(decimal_text(0), "0");
    assert_eq!(decimal_text(7), "7");
    assert_eq!(decimal_text(100), "100");
    assert_eq!(decimal_text(2500), "2500");
    assert_eq!(decimal_text(u64::MAX), u64::MAX.to_string());
}

#[test]
fn build_order_places_site_once() {
    let mut game = test_game();
    // Find a cell where a wall may be ordered.
    let mut spot = None;
    for y in 0..50 {
        for x in 0..50 {
            if game_core::systems::is_valid_build_tile(&game.colony, &game.grid, &game.content, x, y) {
                spot = Some((x, y));
                break;
            }
        }
        if spot.is_some() {
            break;
        }
    }
    let (x, y) = spot.unwrap();
    let e = game.handle_build("wall", x, y, Some(30));
    assert!(e.is_some());
    assert_eq!(game.colony.sites.len(), 1);
    assert_eq!(game.colony.sites[0].cell, (x, y));
    assert_eq!(game.colony.sites[0].site.building_id, game.content.wall_building);
    assert!(game.handle_build("wall", x, y, Some(30)).is_none(), "a second order on the site is refused");
    assert!(game.handle_build("tower", x + 1, y, Some(30)).is_none(), "unknown buildings are refused");
    assert_eq!(game.colony.sites.len(), 1);
}

#[test]
fn deconstruct_started_site_becomes_deconstruction_site() {
    let mut game = test_game();
    let mut spot = None;
    for y in 0..50 {
        for x in 0..50 {
            if spot.is_none() && game_core::systems::is_valid_build_tile(&game.colony, &game.grid, &game.content, x, y) {
                spot = Some((x, y));
            }
        }
    }
    let (x, y) = spot.unwrap();
    game.handle_build("bed", x, y, Some(30)).unwrap();
    assert_eq!(game.deconstruct_target(x, y), Some(game.content.bed_building));
    game.handle_deconstruct(x, y, false, Some(12));
    assert!(game.colony.sites.is_empty());
    assert_eq!(game.colony.decon_sites.len(), 1);
    assert_eq!(game.colony.decon_sites[0].cell, (x, y));
    assert_eq!(game.colony.decon_sites[0].site.work_left, Some(12));
    assert_eq!(game.deconstruct_target(x, y), None, "already being taken down");
    game.handle_deconstruct(x, y, false, Some(12));
    assert_eq!(game.colony.decon_sites.len(), 1);
}

#[test]
fn new_game_spawns_three_named_colonists() {
    let game = test_game();
    assert_eq!(game.colony.colonists.len(), 3);
    let names = ["Alex", "Mira", "Finn", "Luna", "Kai", "Nora", "Eli", "Zoe", "Sam", "Ivy", "Leo", "Noa"];
    for (k, c) in game.colony.colonists.iter().enumerate() {
        assert_eq!(c.id.0, k as u32 + 1);
        assert!(names.contains(&c.name.0.as_str()));
        assert_eq!(c.task.kind, TaskKind::Idle);
    }
    assert_ne!(game.colony.colonists[0].name.0, game.colony.colonists[1].name.0);
    assert_eq!(game.grid.seed, 42);
}

#[test]
fn second_deconstruct_order_changes_nothing() {
    let mut game = test_game();
    let mut spot = None;
    for y in 0..50 {
        for x in 0..50 {
            if spot.is_none() && game_core::systems::is_valid_build_tile(&game.colony, &game.grid, &game.content, x, y) {
                spot = Some((x, y));
            }
        }
    }
    let (x, y) = spot.unwrap();
    let wall = game.content.wall_building;
    assert!(game.grid.place_building(&game.content, x, y, wall));
    game.handle_deconstruct(x, y, false, Some(7));
    assert_eq!(game.colony.decon_sites.len(), 1);
    let next = game.colony.next_entity;
    let first = game.colony.decon_sites[0];
    game.handle_deconstruct(x, y, true, Some(99));
    assert_eq!(game.colony.decon_sites.len(), 1);
    assert_eq!(game.colony.decon_sites[0].entity, first.entity);
    assert_eq!(game.colony.decon_sites[0].site.work_left, Some(7));
    assert_eq!(game.colony.next_entity, next);
    assert_eq!(game.grid.building_at(x, y), Some(wall));
}

#[test]
fn new_game_uses_the_generated_world_and_first_spawn_cells() {
    let game = test_game();
    let world = game_core::world::generate_world(42, &game.content);
    assert_eq!(game.grid.terrain, world.terrain);
    assert!(game.grid.buildings.iter().all(|b| b.is_none()));
    assert_eq!(game.colony.next_entity as usize, game.colony.colonists.len());
    let mut expected = Vec::new();
    for y in 15..=35 {
        for x in 15..=35 {
            if expected.len() < 3
                && game.grid.terrain_at(x, y) == Some(game.content.grass_terrain)
                && game.grid.is_walkable(&game.content, x, y)
            {
                expected.push((x, y));
            }
        }
    }
    let cells: Vec<(i32, i32)> = game.colony.colonists.iter().map(|c| c.cell).collect();
    assert_eq!(cells, expected);
    for (k, c) in game.colony.colonists.iter().enumerate() {
        assert_eq!(c.entity, Entity(k as u32));
    }
}
