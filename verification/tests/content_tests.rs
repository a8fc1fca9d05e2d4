use game_core::content::{
    base_content_json, ApplyWhenRaw, BuildingDefRaw, ContentPackRaw, ContentRegistry,
    InteractionDefRaw, InteractionEffectRaw, NeedDefRaw, SpawnPrimitiveRaw, StatusDefRaw,
    StatusEffectRaw, TerrainDefRaw, TaskKindRef, parse_spawn_primitive, parse_status_effect,
    SpawnPrimitive, ReservationKind, StatusEffect,
};
use game_core::content::default_true;

fn need(id: &str, max: f32, decay: f32, threshold: f32) -> NeedDefRaw {
    NeedDefRaw {
        id: id.to_string(),
        label: id.to_string(),
        max_bits: max.to_bits(),
        decay_per_sec_bits: decay.to_bits(),
        critical_threshold_bits: threshold.to_bits(),
    }
}

fn status(id: &str, need: &str, task: &str) -> StatusDefRaw {
    StatusDefRaw {
        id: id.to_string(),
        label: id.to_string(),
        apply_when: ApplyWhenRaw { need: need.to_string(), condition: "below_threshold".to_string() },
        effects: vec![StatusEffectRaw::TaskPriority { task: task.to_string(), priority: 100 }],
    }
}

fn building(id: &str, work: f32, blocks_movement: bool, on_complete: Vec<SpawnPrimitiveRaw>, interactions: Vec<InteractionDefRaw>) -> BuildingDefRaw {
    BuildingDefRaw {
        id: id.to_string(),
        label: id.to_string(),
        work_required_bits: work.to_bits(),
        work_to_deconstruct_bits: None,
        blocks_movement,
        blocks_settle: true,
        buildable: default_true(),
        color: 0,
        on_complete,
        interactions,
    }
}

fn terrain(id: &str, walkable: bool) -> TerrainDefRaw {
    TerrainDefRaw { id: id.to_string(), walkable, color: 0 }
}

fn base_pack() -> ContentPackRaw {
    ContentPackRaw {
        needs: vec![need("food", 100.0, 2.0, 30.0), need("sleep", 100.0, 1.5, 30.0)],
        statuses: vec![status("hungry", "food", "eat"), status("wants_sleep", "sleep", "sleep")],
        buildings: vec![
            building(
                "berry_bush",
                40.0,
                true,
                vec![SpawnPrimitiveRaw::Supply { resource: "berries".to_string(), amount: 3 }],
                vec![InteractionDefRaw {
                    mode: "adjacent".to_string(),
                    duration_sec_bits: 0.0f32.to_bits(),
                    effects: vec![
                        InteractionEffectRaw::ConsumeSupply { resource: "berries".to_string(), amount: 1 },
                        InteractionEffectRaw::RestoreNeed { need: "food".to_string(), amount_bits: 100.0f32.to_bits() },
                    ],
                }],
            ),
            building(
                "bed",
                30.0,
                false,
                vec![SpawnPrimitiveRaw::Reservation { kind: "single_occupant".to_string() }],
                vec![InteractionDefRaw {
                    mode: "on_tile".to_string(),
                    duration_sec_bits: 2.0f32.to_bits(),
                    effects: vec![InteractionEffectRaw::RestoreNeed { need: "sleep".to_string(), amount_bits: 100.0f32.to_bits() }],
                }],
            ),
            building("wall", 30.0, true, vec![], vec![]),
        ],
        terrain: vec![terrain("grass", true), terrain("water", false), terrain("sand", true)],
    }
}

fn base_content() -> ContentRegistry {
    ContentRegistry::from_pack(&base_pack()).expect("base content pack must be valid")
}

#[test]
fn loads_base_pack() {
    let registry = base_content();
    assert_eq!(registry.needs.len(), 2);
    assert_eq!(registry.buildings.len(), 3);
    assert_eq!(registry.terrain.len(), 3);
    assert_eq!(registry.statuses.len(), 2);
}

#[test]
fn o1_def_access() {
    let registry = base_content();
    let id = registry.berry_bush_building;
    assert_eq!(f32::from_bits(registry.building_def(id).work_required_bits), 40.0);
    assert!(registry.blocks_settle(id));
}

#[test]
fn rejects_duplicate_ids() {
    let pack = ContentPackRaw {
        needs: vec![],
        statuses: vec![],
        terrain: vec![],
        buildings: vec![building("x", 1.0, false, vec![], vec![]), building("x", 1.0, false, vec![], vec![])],
    };
    let r = ContentRegistry::from_pack(&pack);
    assert!(r.is_err());
    assert_eq!(r.err().unwrap().message(), "duplicate building id: x");
}

#[test]
fn rejects_unknown_need_ref() {
    let pack = ContentPackRaw {
        needs: vec![],
        statuses: vec![status("s", "missing", "eat")],
        terrain: vec![],
        buildings: vec![],
    };
    let r = ContentRegistry::from_pack(&pack);
    assert!(r.is_err());
    assert_eq!(r.err().unwrap().message(), "status s references unknown need missing");
}

#[test]
fn base_json_lists_the_base_pack() {
    let v: serde_json::Value = serde_json::from_str(base_content_json()).unwrap();
    assert_eq!(v["needs"].as_array().unwrap().len(), 2);
    assert_eq!(v["statuses"].as_array().unwrap().len(), 2);
    assert_eq!(v["buildings"].as_array().unwrap().len(), 3);
    assert_eq!(v["terrain"].as_array().unwrap().len(), 3);
    assert_eq!(v["buildings"][0]["id"], "berry_bush");
    assert_eq!(v["buildings"][0]["work_required"], 40);
    assert_eq!(v["buildings"][0]["blocks_settle"], true);
}

#[test]
fn ids_round_trip() {
    let r = base_content();
    for name in ["berry_bush", "bed", "wall"] {
        let id = r.building_id(name).unwrap();
        assert_eq!(r.building_str(id), name);
    }
    for name in ["grass", "water", "sand"] {
        let id = r.terrain_id(name).unwrap();
        assert_eq!(r.terrain_str(id), name);
    }
    assert_eq!(r.need_str(r.need_id("sleep").unwrap()), "sleep");
    assert_eq!(r.status_str(r.status_id("hungry").unwrap()), "hungry");
    assert!(r.building_id("castle").is_none());
    assert!(r.terrain_id("lava").is_none());
}

#[test]
fn missing_base_entry_is_reported() {
    let mut pack = base_pack();
    pack.terrain.pop();
    let r = ContentRegistry::from_pack(&pack);
    assert_eq!(r.err().unwrap().message(), "base pack missing terrain: sand");
}

#[test]
fn non_positive_need_max_is_refused() {
    let mut pack = base_pack();
    pack.needs[1] = need("sleep", 0.0, 1.5, 30.0);
    let r = ContentRegistry::from_pack(&pack);
    assert_eq!(r.err().unwrap().message(), "need sleep max must be positive");
    let mut pack = base_pack();
    pack.needs[0] = need("food", -5.0, 2.0, 30.0);
    assert!(ContentRegistry::from_pack(&pack).is_err());
    let mut pack = base_pack();
    pack.needs[0] = need("food", f32::NAN, 2.0, 30.0);
    assert!(ContentRegistry::from_pack(&pack).is_ok());
}

#[test]
fn unknown_kinds_are_refused() {
    let r = parse_spawn_primitive(&SpawnPrimitiveRaw::Reservation { kind: "double".to_string() });
    assert_eq!(r.err().unwrap().message(), "unknown reservation kind: double");
    let r = parse_spawn_primitive(&SpawnPrimitiveRaw::Reservation { kind: "single_occupant".to_string() }).unwrap();
    assert!(matches!(r, SpawnPrimitive::Reservation { kind: ReservationKind::SingleOccupant }));
    let r = parse_status_effect(&StatusEffectRaw::TaskPriority { task: "dance".to_string(), priority: 1 });
    assert_eq!(r.err().unwrap().message(), "unknown task in status effect: dance");
    let r = parse_status_effect(&StatusEffectRaw::TaskPriority { task: "build".to_string(), priority: 7 }).unwrap();
    assert!(matches!(r, StatusEffect::TaskPriority { task: TaskKindRef::Build, priority: 7 }));
    let mut pack = base_pack();
    pack.buildings[1].interactions[0].mode = "far".to_string();
    assert_eq!(ContentRegistry::from_pack(&pack).err().unwrap().message(), "unknown interaction mode: far");
}

#[test]
fn building_queries_follow_the_pack() {
    let r = base_content();
    let bush = r.berry_bush_building;
    let bed = r.bed_building;
    let wall = r.wall_building;
    assert_eq!(r.supply_amount_on_complete(bush), Some(3));
    assert!(r.has_supply_on_complete(bush));
    assert!(!r.has_reservation_on_complete(bush));
    assert!(r.has_reservation_on_complete(bed));
    assert_eq!(r.supply_amount_on_complete(wall), None);
    assert!(r.blocks_movement(wall));
    assert!(!r.blocks_movement(bed));
    assert_eq!(r.work_to_deconstruct(bush), 40.0f32.to_bits());
    assert!(r.sleep_interaction(bed).is_some());
    assert!(r.eat_interaction(bed).is_none());
    assert!(r.eat_interaction(bush).is_some());
    assert_eq!(r.task_for_status(r.hungry_status), Some(TaskKindRef::Eat));
    assert_eq!(r.task_for_status(r.wants_sleep_status), Some(TaskKindRef::Sleep));
    assert_eq!(r.buildable_buildings().len(), 3);
}

#[test]
fn default_true_is_true() {
    assert!(default_true());
}

#[test]
fn base_ids_are_what_the_names_give() {
    let r = base_content();
    assert_eq!(r.need_id("food"), Some(r.food_need));
    assert_eq!(r.need_id("sleep"), Some(r.sleep_need));
    assert_eq!(r.status_id("hungry"), Some(r.hungry_status));
    assert_eq!(r.status_id("wants_sleep"), Some(r.wants_sleep_status));
    assert_eq!(r.terrain_id("grass"), Some(r.grass_terrain));
    assert_eq!(r.terrain_id("water"), Some(r.water_terrain));
    assert_eq!(r.terrain_id("sand"), Some(r.sand_terrain));
    assert_eq!(r.building_id("berry_bush"), Some(r.berry_bush_building));
    assert_eq!(r.building_id("bed"), Some(r.bed_building));
    assert_eq!(r.building_id("wall"), Some(r.wall_building));
    for (i, n) in r.needs.iter().enumerate() {
        assert_eq!(r.need_id(&n.id), Some(game_core::content::NeedId(i as u8)));
    }
    for (i, s) in r.statuses.iter().enumerate() {
        assert_eq!(r.status_id(&s.id), Some(game_core::content::StatusId(i as u8)));
    }
}
