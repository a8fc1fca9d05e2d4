//! Content pack definitions: terrain, buildings, needs and statuses, with
//! validation of a raw pack and lookups by string id and by numeric id.
//!
//! Numbers that the pack gives as 32-bit floats are carried here as their IEEE-754
//! bit patterns (`f32::to_bits`): the library stores and returns them, and the one
//! test it makes on them (a need's maximum must be positive) is written on the bits.
use vstd::prelude::*;

verus! {

#[derive(Clone, Copy, Debug, PartialEq, Eq, Hash, Structural)]
pub struct TerrainId(pub u16);

#[derive(Clone, Copy, Debug, PartialEq, Eq, Hash, Structural)]
pub struct BuildingId(pub u16);

#[derive(Clone, Copy, Debug, PartialEq, Eq, Hash, Structural)]
pub struct NeedId(pub u8);

#[derive(Clone, Copy, Debug, PartialEq, Eq, Hash, Structural)]
pub struct StatusId(pub u8);

#[derive(Clone, Debug)]
pub struct TerrainDef {
    pub id: String,
    pub walkable: bool,
    pub color: u32,
}

/// A need; `max_bits`, `decay_per_sec_bits` and `critical_threshold_bits` are the
/// bit patterns of the pack's `f32` values.
#[derive(Clone, Debug)]
pub struct NeedDef {
    pub id: String,
    pub label: String,
    pub max_bits: u32,
    pub decay_per_sec_bits: u32,
    pub critical_threshold_bits: u32,
}

#[derive(Clone, Copy, Debug, PartialEq, Eq, Structural)]
pub enum ApplyCondition {
    BelowThreshold,
}

#[derive(Clone, Copy, Debug, PartialEq, Eq, Structural)]
pub struct ApplyWhen {
    pub need: NeedId,
    pub condition: ApplyCondition,
}

#[derive(Clone, Copy, Debug, PartialEq, Eq, Structural)]
pub enum TaskKindRef {
    Eat,
    Sleep,
    Build,
}

#[derive(Clone, Copy, Debug, PartialEq, Eq, Structural)]
pub enum StatusEffect {
    TaskPriority { task: TaskKindRef, priority: i32 },
}

#[derive(Clone, Debug)]
pub struct StatusDef {
    pub id: String,
    pub label: String,
    pub apply_when: ApplyWhen,
    pub effects: Vec<StatusEffect>,
}

#[derive(Clone, Copy, Debug, PartialEq, Eq, Structural)]
pub enum ReservationKind {
    SingleOccupant,
}

#[derive(Clone, Debug)]
pub enum SpawnPrimitive {
    Supply { resource: String, amount: u8 },
    Reservation { kind: ReservationKind },
}

#[derive(Clone, Copy, Debug, PartialEq, Eq, Structural)]
pub enum InteractionMode {
    Adjacent,
    OnTile,
}

/// `amount_bits` is the bit pattern of the pack's `f32` amount.
#[derive(Clone, Debug)]
pub enum InteractionEffect {
    RestoreNeed { need: NeedId, amount_bits: u32 },
    ConsumeSupply { resource: String, amount: u8 },
}

#[derive(Clone, Debug)]
pub struct InteractionDef {
    pub mode: InteractionMode,
    pub duration_sec_bits: u32,
    pub effects: Vec<InteractionEffect>,
}

#[derive(Clone, Debug)]
pub struct BuildingDef {
    pub id: String,
    pub label: String,
    pub work_required_bits: u32,
    pub work_to_deconstruct_bits: u32,
    pub blocks_movement: bool,
    pub blocks_settle: bool,
    pub buildable: bool,
    pub color: u32,
    pub on_complete: Vec<SpawnPrimitive>,
    pub interactions: Vec<InteractionDef>,
}

/// The loaded content. Lookups by string id search the definition lists, whose
/// ids are unique in a registry built by `from_pack`.
#[derive(Clone, Debug)]
pub struct ContentRegistry {
    pub terrain: Vec<TerrainDef>,
    pub buildings: Vec<BuildingDef>,
    pub needs: Vec<NeedDef>,
    pub statuses: Vec<StatusDef>,
    pub food_need: NeedId,
    pub sleep_need: NeedId,
    pub hungry_status: StatusId,
    pub wants_sleep_status: StatusId,
    pub grass_terrain: TerrainId,
    pub water_terrain: TerrainId,
    pub sand_terrain: TerrainId,
    pub berry_bush_building: BuildingId,
    pub bed_building: BuildingId,
    pub wall_building: BuildingId,
}

/// Serde default for boolean flags that are on unless a content pack says otherwise.
pub fn default_true() -> (r: bool)
    ensures
        r,
{
    true
}

/// Why a content pack was refused.
#[derive(Clone, Debug)]
pub struct ContentError(pub String);

impl ContentError {
    /// The message that `Display` shows.
    pub fn message(&self) -> (r: &str)
        ensures
            r@ == self.0@,
    {
        self.0.as_str()
    }
}

/// `id` occurs in `ids` first at position `i`.
pub open spec fn first_at(ids: Seq<Seq<char>>, key: Seq<char>, i: int) -> bool {
    &&& 0 <= i < ids.len()
    &&& ids[i] == key
    &&& forall|j: int| 0 <= j < i ==> ids[j] != key
}

/// The position at which `key` first occurs in `ids`, if it does.
pub open spec fn id_index(ids: Seq<Seq<char>>, key: Seq<char>) -> Option<int> {
    if exists|i: int| first_at(ids, key, i) {
        Some(choose|i: int| first_at(ids, key, i))
    } else {
        None
    }
}

pub proof fn lemma_first_at_unique(ids: Seq<Seq<char>>, key: Seq<char>, i: int, k: int)
    requires
        first_at(ids, key, i),
        first_at(ids, key, k),
    ensures
        i == k,
{
    if i < k {
        assert(ids[i] != key);
    } else if k < i {
        assert(ids[k] != key);
    }
}

/// `id_index` is `None` exactly when no entry equals `key`.
pub proof fn lemma_id_index(ids: Seq<Seq<char>>, key: Seq<char>)
    ensures
        id_index(ids, key) is None <==> (forall|j: int| 0 <= j < ids.len() ==> ids[j] != key),
        id_index(ids, key) matches Some(i) ==> first_at(ids, key, i),
{
    if exists|j: int| 0 <= j < ids.len() && ids[j] == key {
        let j = choose|j: int| 0 <= j < ids.len() && ids[j] == key;
        lemma_first_exists(ids, key, j);
    }
}

proof fn lemma_first_exists(ids: Seq<Seq<char>>, key: Seq<char>, j: int)
    requires
        0 <= j < ids.len(),
        ids[j] == key,
    ensures
        exists|i: int| first_at(ids, key, i),
    decreases j,
{
    if forall|k: int| 0 <= k < j ==> ids[k] != key {
        assert(first_at(ids, key, j));
    } else {
        let k = choose|k: int| 0 <= k < j && ids[k] == key;
        lemma_first_exists(ids, key, k);
    }
}

pub open spec fn terrain_ids(defs: Seq<TerrainDef>) -> Seq<Seq<char>> {
    defs.map_values(|d: TerrainDef| d.id@)
}

pub open spec fn building_ids(defs: Seq<BuildingDef>) -> Seq<Seq<char>> {
    defs.map_values(|d: BuildingDef| d.id@)
}

pub open spec fn need_ids(defs: Seq<NeedDef>) -> Seq<Seq<char>> {
    defs.map_values(|d: NeedDef| d.id@)
}

pub open spec fn status_ids(defs: Seq<StatusDef>) -> Seq<Seq<char>> {
    defs.map_values(|d: StatusDef| d.id@)
}

/// Compares a string with a string slice.
pub fn string_eq(a: &String, b: &str) -> (r: bool)
    ensures
        r == (a@ == b@),
{
    let owned = b.to_owned();
    *a == owned
}

/// Joins two pieces of text.
pub fn join_text(a: &str, b: &str) -> (r: String)
    ensures
        r@ == a@ + b@,
{
    let owned = a.to_owned();
    owned.concat(b)
}


// ---------------------------------------------------------------------------
// Raw pack: what the JSON file holds, before ids are checked and resolved.
// ---------------------------------------------------------------------------

#[derive(Clone, Debug)]
pub struct NeedDefRaw {
    pub id: String,
    pub label: String,
    pub max_bits: u32,
    pub decay_per_sec_bits: u32,
    pub critical_threshold_bits: u32,
}

#[derive(Clone, Debug)]
pub struct ApplyWhenRaw {
    pub need: String,
    pub condition: String,
}

#[derive(Clone, Debug)]
pub enum StatusEffectRaw {
    TaskPriority { task: String, priority: i32 },
}

#[derive(Clone, Debug)]
pub struct StatusDefRaw {
    pub id: String,
    pub label: String,
    pub apply_when: ApplyWhenRaw,
    pub effects: Vec<StatusEffectRaw>,
}

#[derive(Clone, Debug)]
pub enum SpawnPrimitiveRaw {
    Supply { resource: String, amount: u8 },
    Reservation { kind: String },
}

#[derive(Clone, Debug)]
pub enum InteractionEffectRaw {
    RestoreNeed { need: String, amount_bits: u32 },
    ConsumeSupply { resource: String, amount: u8 },
}

#[derive(Clone, Debug)]
pub struct InteractionDefRaw {
    pub mode: String,
    pub duration_sec_bits: u32,
    pub effects: Vec<InteractionEffectRaw>,
}

#[derive(Clone, Debug)]
pub struct BuildingDefRaw {
    pub id: String,
    pub label: String,
    pub work_required_bits: u32,
    pub work_to_deconstruct_bits: Option<u32>,
    pub blocks_movement: bool,
    pub blocks_settle: bool,
    pub buildable: bool,
    pub color: u32,
    pub on_complete: Vec<SpawnPrimitiveRaw>,
    pub interactions: Vec<InteractionDefRaw>,
}

#[derive(Clone, Debug)]
pub struct TerrainDefRaw {
    pub id: String,
    pub walkable: bool,
    pub color: u32,
}

#[derive(Clone, Debug)]
pub struct ContentPackRaw {
    pub needs: Vec<NeedDefRaw>,
    pub statuses: Vec<StatusDefRaw>,
    pub buildings: Vec<BuildingDefRaw>,
    pub terrain: Vec<TerrainDefRaw>,
}

// ---------------------------------------------------------------------------
// What a raw pack means: its first error, in the order in which it is checked,
// and otherwise the registry that it gives.
// ---------------------------------------------------------------------------

/// The `f32` whose bits are `bits` is `<= 0.0` (IEEE-754: not a NaN, and zero or negative).
pub open spec fn f32_bits_le_zero(bits: u32) -> bool {
    let mag = bits & 0x7fff_ffffu32;
    &&& mag <= 0x7f80_0000u32
    &&& (mag == 0 || bits >= 0x8000_0000u32)
}

/// Entry `i` repeats an earlier id.
pub open spec fn dup_at(ids: Seq<Seq<char>>, i: int) -> bool {
    exists|j: int| 0 <= j < i && ids[j] == ids[i]
}

pub open spec fn raw_need_ids(s: Seq<NeedDefRaw>) -> Seq<Seq<char>> {
    s.map_values(|n: NeedDefRaw| n.id@)
}

pub open spec fn raw_terrain_ids(s: Seq<TerrainDefRaw>) -> Seq<Seq<char>> {
    s.map_values(|t: TerrainDefRaw| t.id@)
}

pub open spec fn raw_building_ids(s: Seq<BuildingDefRaw>) -> Seq<Seq<char>> {
    s.map_values(|b: BuildingDefRaw| b.id@)
}

pub open spec fn raw_status_ids(s: Seq<StatusDefRaw>) -> Seq<Seq<char>> {
    s.map_values(|t: StatusDefRaw| t.id@)
}

pub open spec fn need_error(s: Seq<NeedDefRaw>, i: int) -> Option<Seq<char>> {
    if dup_at(raw_need_ids(s), i) {
        Some("duplicate need id: "@ + s[i].id@)
    } else if f32_bits_le_zero(s[i].max_bits) {
        Some("need "@ + s[i].id@ + " max must be positive"@)
    } else {
        None
    }
}

pub open spec fn terrain_error(s: Seq<TerrainDefRaw>, i: int) -> Option<Seq<char>> {
    if dup_at(raw_terrain_ids(s), i) {
        Some("duplicate terrain id: "@ + s[i].id@)
    } else {
        None
    }
}

pub open spec fn spawn_error(p: SpawnPrimitiveRaw) -> Option<Seq<char>> {
    match p {
        SpawnPrimitiveRaw::Supply { .. } => None,
        SpawnPrimitiveRaw::Reservation { kind } => if kind@ == "single_occupant"@ {
            None
        } else {
            Some("unknown reservation kind: "@ + kind@)
        },
    }
}

pub open spec fn spawn_of(p: SpawnPrimitiveRaw) -> SpawnPrimitive {
    match p {
        SpawnPrimitiveRaw::Supply { resource, amount } => SpawnPrimitive::Supply { resource, amount },
        SpawnPrimitiveRaw::Reservation { .. } => SpawnPrimitive::Reservation {
            kind: ReservationKind::SingleOccupant,
        },
    }
}

pub open spec fn mode_of(m: Seq<char>) -> Option<InteractionMode> {
    if m == "adjacent"@ {
        Some(InteractionMode::Adjacent)
    } else if m == "on_tile"@ {
        Some(InteractionMode::OnTile)
    } else {
        None
    }
}

pub open spec fn effect_error(e: InteractionEffectRaw, needs: Seq<Seq<char>>) -> Option<Seq<char>> {
    match e {
        InteractionEffectRaw::RestoreNeed { need, .. } => if id_index(needs, need@) is None {
            Some("interaction references unknown need: "@ + need@)
        } else {
            None
        },
        InteractionEffectRaw::ConsumeSupply { .. } => None,
    }
}

pub open spec fn effect_of(e: InteractionEffectRaw, needs: Seq<Seq<char>>) -> InteractionEffect {
    match e {
        InteractionEffectRaw::RestoreNeed { need, amount_bits } => InteractionEffect::RestoreNeed {
            need: NeedId(id_index(needs, need@)->0 as u8),
            amount_bits,
        },
        InteractionEffectRaw::ConsumeSupply { resource, amount } => InteractionEffect::ConsumeSupply {
            resource,
            amount,
        },
    }
}

/// The first error among effects `k..` of an interaction.
pub open spec fn effects_error_from(
    es: Seq<InteractionEffectRaw>,
    needs: Seq<Seq<char>>,
    k: int,
) -> Option<Seq<char>>
    decreases es.len() - k,
{
    if 0 <= k < es.len() {
        match effect_error(es[k], needs) {
            Some(m) => Some(m),
            None => effects_error_from(es, needs, k + 1),
        }
    } else {
        None
    }
}

pub open spec fn interaction_error(d: InteractionDefRaw, needs: Seq<Seq<char>>) -> Option<Seq<char>> {
    if mode_of(d.mode@) is None {
        Some("unknown interaction mode: "@ + d.mode@)
    } else {
        effects_error_from(d.effects@, needs, 0)
    }
}

/// The first error among interactions `k..` of a building.
pub open spec fn interactions_error_from(
    ds: Seq<InteractionDefRaw>,
    needs: Seq<Seq<char>>,
    k: int,
) -> Option<Seq<char>>
    decreases ds.len() - k,
{
    if 0 <= k < ds.len() {
        match interaction_error(ds[k], needs) {
            Some(m) => Some(m),
            None => interactions_error_from(ds, needs, k + 1),
        }
    } else {
        None
    }
}

/// The first error among spawn primitives `k..` of a building.
pub open spec fn spawns_error_from(ps: Seq<SpawnPrimitiveRaw>, k: int) -> Option<Seq<char>>
    decreases ps.len() - k,
{
    if 0 <= k < ps.len() {
        match spawn_error(ps[k]) {
            Some(m) => Some(m),
            None => spawns_error_from(ps, k + 1),
        }
    } else {
        None
    }
}

pub open spec fn interaction_matches(
    out: InteractionDef,
    d: InteractionDefRaw,
    needs: Seq<Seq<char>>,
) -> bool {
    &&& mode_of(d.mode@) == Some(out.mode)
    &&& out.duration_sec_bits == d.duration_sec_bits
    &&& out.effects@ == d.effects@.map_values(|e: InteractionEffectRaw| effect_of(e, needs))
}

pub open spec fn building_error(
    s: Seq<BuildingDefRaw>,
    i: int,
    needs: Seq<Seq<char>>,
) -> Option<Seq<char>> {
    let b = s[i];
    if dup_at(raw_building_ids(s), i) {
        Some("duplicate building id: "@ + b.id@)
    } else {
        match spawns_error_from(b.on_complete@, 0) {
            Some(m) => Some(m),
            None => interactions_error_from(b.interactions@, needs, 0),
        }
    }
}

pub open spec fn building_matches(out: BuildingDef, b: BuildingDefRaw, needs: Seq<Seq<char>>) -> bool {
    &&& out.id == b.id
    &&& out.label == b.label
    &&& out.work_required_bits == b.work_required_bits
    &&& out.work_to_deconstruct_bits == match b.work_to_deconstruct_bits {
        Some(w) => w,
        None => b.work_required_bits,
    }
    &&& out.blocks_movement == b.blocks_movement
    &&& out.blocks_settle == b.blocks_settle
    &&& out.buildable == b.buildable
    &&& out.color == b.color
    &&& out.on_complete@ == b.on_complete@.map_values(|p: SpawnPrimitiveRaw| spawn_of(p))
    &&& out.interactions@.len() == b.interactions@.len()
    &&& forall|k: int|
        0 <= k < b.interactions@.len() ==> interaction_matches(
            #[trigger] out.interactions@[k],
            b.interactions@[k],
            needs,
        )
}

pub open spec fn task_of(t: Seq<char>) -> Option<TaskKindRef> {
    if t == "eat"@ {
        Some(TaskKindRef::Eat)
    } else if t == "sleep"@ {
        Some(TaskKindRef::Sleep)
    } else if t == "build"@ {
        Some(TaskKindRef::Build)
    } else {
        None
    }
}

pub open spec fn status_effect_error(e: StatusEffectRaw) -> Option<Seq<char>> {
    match e {
        StatusEffectRaw::TaskPriority { task, .. } => if task_of(task@) is None {
            Some("unknown task in status effect: "@ + task@)
        } else {
            None
        },
    }
}

pub open spec fn status_effect_of(e: StatusEffectRaw) -> StatusEffect {
    match e {
        StatusEffectRaw::TaskPriority { task, priority } => StatusEffect::TaskPriority {
            task: task_of(task@)->0,
            priority,
        },
    }
}

/// The first error among status effects `k..`.
pub open spec fn status_effects_error_from(es: Seq<StatusEffectRaw>, k: int) -> Option<Seq<char>>
    decreases es.len() - k,
{
    if 0 <= k < es.len() {
        match status_effect_error(es[k]) {
            Some(m) => Some(m),
            None => status_effects_error_from(es, k + 1),
        }
    } else {
        None
    }
}

pub open spec fn status_error(s: Seq<StatusDefRaw>, i: int, needs: Seq<Seq<char>>) -> Option<
    Seq<char>,
> {
    let d = s[i];
    if dup_at(raw_status_ids(s), i) {
        Some("duplicate status id: "@ + d.id@)
    } else if id_index(needs, d.apply_when.need@) is None {
        Some("status "@ + d.id@ + " references unknown need "@ + d.apply_when.need@)
    } else if d.apply_when.condition@ != "below_threshold"@ {
        Some("status "@ + d.id@ + " unknown condition: "@ + d.apply_when.condition@)
    } else {
        status_effects_error_from(d.effects@, 0)
    }
}

pub open spec fn status_matches(out: StatusDef, d: StatusDefRaw, needs: Seq<Seq<char>>) -> bool {
    &&& out.id == d.id
    &&& out.label == d.label
    &&& out.apply_when == ApplyWhen {
        need: NeedId(id_index(needs, d.apply_when.need@)->0 as u8),
        condition: ApplyCondition::BelowThreshold,
    }
    &&& out.effects@ == d.effects@.map_values(|e: StatusEffectRaw| status_effect_of(e))
}

pub open spec fn need_def_of(n: NeedDefRaw) -> NeedDef {
    NeedDef {
        id: n.id,
        label: n.label,
        max_bits: n.max_bits,
        decay_per_sec_bits: n.decay_per_sec_bits,
        critical_threshold_bits: n.critical_threshold_bits,
    }
}

pub open spec fn terrain_def_of(t: TerrainDefRaw) -> TerrainDef {
    TerrainDef { id: t.id, walkable: t.walkable, color: t.color }
}

/// The first of the ids that the base pack must define which is missing.
pub open spec fn base_error(raw: ContentPackRaw) -> Option<Seq<char>> {
    let n = raw_need_ids(raw.needs@);
    let s = raw_status_ids(raw.statuses@);
    let t = raw_terrain_ids(raw.terrain@);
    let b = raw_building_ids(raw.buildings@);
    if id_index(n, "food"@) is None {
        Some("base pack missing need: food"@)
    } else if id_index(n, "sleep"@) is None {
        Some("base pack missing need: sleep"@)
    } else if id_index(s, "hungry"@) is None {
        Some("base pack missing status: hungry"@)
    } else if id_index(s, "wants_sleep"@) is None {
        Some("base pack missing status: wants_sleep"@)
    } else if id_index(t, "grass"@) is None {
        Some("base pack missing terrain: grass"@)
    } else if id_index(t, "water"@) is None {
        Some("base pack missing terrain: water"@)
    } else if id_index(t, "sand"@) is None {
        Some("base pack missing terrain: sand"@)
    } else if id_index(b, "berry_bush"@) is None {
        Some("base pack missing building: berry_bush"@)
    } else if id_index(b, "bed"@) is None {
        Some("base pack missing building: bed"@)
    } else if id_index(b, "wall"@) is None {
        Some("base pack missing building: wall"@)
    } else {
        None
    }
}

/// The first error among needs `i..`.
pub open spec fn needs_error_from(s: Seq<NeedDefRaw>, i: int) -> Option<Seq<char>>
    decreases s.len() - i,
{
    if 0 <= i < s.len() {
        match need_error(s, i) {
            Some(m) => Some(m),
            None => needs_error_from(s, i + 1),
        }
    } else {
        None
    }
}

/// The first error among terrain entries `i..`.
pub open spec fn terrains_error_from(s: Seq<TerrainDefRaw>, i: int) -> Option<Seq<char>>
    decreases s.len() - i,
{
    if 0 <= i < s.len() {
        match terrain_error(s, i) {
            Some(m) => Some(m),
            None => terrains_error_from(s, i + 1),
        }
    } else {
        None
    }
}

/// The first error among buildings `i..`.
pub open spec fn buildings_error_from(
    s: Seq<BuildingDefRaw>,
    needs: Seq<Seq<char>>,
    i: int,
) -> Option<Seq<char>>
    decreases s.len() - i,
{
    if 0 <= i < s.len() {
        match building_error(s, i, needs) {
            Some(m) => Some(m),
            None => buildings_error_from(s, needs, i + 1),
        }
    } else {
        None
    }
}

/// The first error among statuses `i..`.
pub open spec fn statuses_error_from(
    s: Seq<StatusDefRaw>,
    needs: Seq<Seq<char>>,
    i: int,
) -> Option<Seq<char>>
    decreases s.len() - i,
{
    if 0 <= i < s.len() {
        match status_error(s, i, needs) {
            Some(m) => Some(m),
            None => statuses_error_from(s, needs, i + 1),
        }
    } else {
        None
    }
}

pub open spec fn needs_error(raw: ContentPackRaw) -> Option<Seq<char>> {
    needs_error_from(raw.needs@, 0)
}

pub open spec fn terrains_error(raw: ContentPackRaw) -> Option<Seq<char>> {
    terrains_error_from(raw.terrain@, 0)
}

pub open spec fn buildings_error(raw: ContentPackRaw) -> Option<Seq<char>> {
    buildings_error_from(raw.buildings@, raw_need_ids(raw.needs@), 0)
}

pub open spec fn statuses_error(raw: ContentPackRaw) -> Option<Seq<char>> {
    statuses_error_from(raw.statuses@, raw_need_ids(raw.needs@), 0)
}

/// The message of the first check that `raw` fails, in the order of the checks:
/// needs, terrain, buildings, statuses, then the ids the base pack must define.
pub open spec fn pack_error(raw: ContentPackRaw) -> Option<Seq<char>> {
    if needs_error(raw) is Some {
        needs_error(raw)
    } else if terrains_error(raw) is Some {
        terrains_error(raw)
    } else if buildings_error(raw) is Some {
        buildings_error(raw)
    } else if statuses_error(raw) is Some {
        statuses_error(raw)
    } else {
        base_error(raw)
    }
}

/// `reg` is the registry that `raw` describes.
pub open spec fn registry_of(reg: ContentRegistry, raw: ContentPackRaw) -> bool {
    let nids = raw_need_ids(raw.needs@);
    &&& reg.needs@ == raw.needs@.map_values(|n: NeedDefRaw| need_def_of(n))
    &&& reg.terrain@ == raw.terrain@.map_values(|t: TerrainDefRaw| terrain_def_of(t))
    &&& reg.buildings@.len() == raw.buildings@.len()
    &&& (forall|i: int|
        0 <= i < raw.buildings@.len() ==> building_matches(
            #[trigger] reg.buildings@[i],
            raw.buildings@[i],
            nids,
        ))
    &&& reg.statuses@.len() == raw.statuses@.len()
    &&& (forall|i: int|
        0 <= i < raw.statuses@.len() ==> status_matches(
            #[trigger] reg.statuses@[i],
            raw.statuses@[i],
            nids,
        ))
    &&& reg.food_need == NeedId(id_index(nids, "food"@)->0 as u8)
    &&& reg.sleep_need == NeedId(id_index(nids, "sleep"@)->0 as u8)
    &&& reg.hungry_status == StatusId(
        id_index(raw_status_ids(raw.statuses@), "hungry"@)->0 as u8,
    )
    &&& reg.wants_sleep_status == StatusId(
        id_index(raw_status_ids(raw.statuses@), "wants_sleep"@)->0 as u8,
    )
    &&& reg.grass_terrain == TerrainId(id_index(raw_terrain_ids(raw.terrain@), "grass"@)->0 as u16)
    &&& reg.water_terrain == TerrainId(id_index(raw_terrain_ids(raw.terrain@), "water"@)->0 as u16)
    &&& reg.sand_terrain == TerrainId(id_index(raw_terrain_ids(raw.terrain@), "sand"@)->0 as u16)
    &&& reg.berry_bush_building == BuildingId(
        id_index(raw_building_ids(raw.buildings@), "berry_bush"@)->0 as u16,
    )
    &&& reg.bed_building == BuildingId(
        id_index(raw_building_ids(raw.buildings@), "bed"@)->0 as u16,
    )
    &&& reg.wall_building == BuildingId(
        id_index(raw_building_ids(raw.buildings@), "wall"@)->0 as u16,
    )
}


/// The first position whose id is `key`.
fn find_need(defs: &Vec<NeedDef>, key: &String) -> (r: Option<usize>)
    ensures
        match r {
            Some(i) => id_index(need_ids(defs@), key@) == Some(i as int) && i < defs@.len(),
            None => id_index(need_ids(defs@), key@) is None,
        },
{
    let mut i: usize = 0;
    while i < defs.len()
        invariant
            0 <= i <= defs@.len(),
            forall|j: int| 0 <= j < i ==> need_ids(defs@)[j] != key@,
        decreases defs@.len() - i,
    {
        if defs[i].id == *key {
            proof {
                lemma_id_index(need_ids(defs@), key@);
                assert(first_at(need_ids(defs@), key@, i as int));
                let k = id_index(need_ids(defs@), key@)->0;
                lemma_first_at_unique(need_ids(defs@), key@, k, i as int);
            }
            return Some(i);
        }
        i += 1;
    }
    proof {
        lemma_id_index(need_ids(defs@), key@);
    }
    None
}

/// The first position whose id is `key`.
fn find_terrain(defs: &Vec<TerrainDef>, key: &String) -> (r: Option<usize>)
    ensures
        match r {
            Some(i) => id_index(terrain_ids(defs@), key@) == Some(i as int) && i < defs@.len(),
            None => id_index(terrain_ids(defs@), key@) is None,
        },
{
    let mut i: usize = 0;
    while i < defs.len()
        invariant
            0 <= i <= defs@.len(),
            forall|j: int| 0 <= j < i ==> terrain_ids(defs@)[j] != key@,
        decreases defs@.len() - i,
    {
        if defs[i].id == *key {
            proof {
                lemma_id_index(terrain_ids(defs@), key@);
                assert(first_at(terrain_ids(defs@), key@, i as int));
                let k = id_index(terrain_ids(defs@), key@)->0;
                lemma_first_at_unique(terrain_ids(defs@), key@, k, i as int);
            }
            return Some(i);
        }
        i += 1;
    }
    proof {
        lemma_id_index(terrain_ids(defs@), key@);
    }
    None
}

/// The first position whose id is `key`.
fn find_building(defs: &Vec<BuildingDef>, key: &String) -> (r: Option<usize>)
    ensures
        match r {
            Some(i) => id_index(building_ids(defs@), key@) == Some(i as int) && i < defs@.len(),
            None => id_index(building_ids(defs@), key@) is None,
        },
{
    let mut i: usize = 0;
    while i < defs.len()
        invariant
            0 <= i <= defs@.len(),
            forall|j: int| 0 <= j < i ==> building_ids(defs@)[j] != key@,
        decreases defs@.len() - i,
    {
        if defs[i].id == *key {
            proof {
                lemma_id_index(building_ids(defs@), key@);
                assert(first_at(building_ids(defs@), key@, i as int));
                let k = id_index(building_ids(defs@), key@)->0;
                lemma_first_at_unique(building_ids(defs@), key@, k, i as int);
            }
            return Some(i);
        }
        i += 1;
    }
    proof {
        lemma_id_index(building_ids(defs@), key@);
    }
    None
}

/// The first position whose id is `key`.
fn find_status(defs: &Vec<StatusDef>, key: &String) -> (r: Option<usize>)
    ensures
        match r {
            Some(i) => id_index(status_ids(defs@), key@) == Some(i as int) && i < defs@.len(),
            None => id_index(status_ids(defs@), key@) is None,
        },
{
    let mut i: usize = 0;
    while i < defs.len()
        invariant
            0 <= i <= defs@.len(),
            forall|j: int| 0 <= j < i ==> status_ids(defs@)[j] != key@,
        decreases defs@.len() - i,
    {
        if defs[i].id == *key {
            proof {
                lemma_id_index(status_ids(defs@), key@);
                assert(first_at(status_ids(defs@), key@, i as int));
                let k = id_index(status_ids(defs@), key@)->0;
                lemma_first_at_unique(status_ids(defs@), key@, k, i as int);
            }
            return Some(i);
        }
        i += 1;
    }
    proof {
        lemma_id_index(status_ids(defs@), key@);
    }
    None
}

pub fn parse_spawn_primitive(raw: &SpawnPrimitiveRaw) -> (r: Result<SpawnPrimitive, ContentError>)
    ensures
        match r {
            Ok(p) => spawn_error(*raw) is None && p == spawn_of(*raw),
            Err(e) => spawn_error(*raw) == Some(e.0@),
        },
{
    match raw {
        SpawnPrimitiveRaw::Supply { resource, amount } => {
            Ok(SpawnPrimitive::Supply { resource: resource.clone(), amount: *amount })
        },
        SpawnPrimitiveRaw::Reservation { kind } => {
            if string_eq(kind, "single_occupant") {
                Ok(SpawnPrimitive::Reservation { kind: ReservationKind::SingleOccupant })
            } else {
                Err(ContentError(join_text("unknown reservation kind: ", kind.as_str())))
            }
        },
    }
}

pub fn parse_interaction_effect(raw: &InteractionEffectRaw, needs: &Vec<NeedDef>) -> (r: Result<
    InteractionEffect,
    ContentError,
>)
    ensures
        match r {
            Ok(e) => effect_error(*raw, need_ids(needs@)) is None && e == effect_of(
                *raw,
                need_ids(needs@),
            ),
            Err(e) => effect_error(*raw, need_ids(needs@)) == Some(e.0@),
        },
{
    match raw {
        InteractionEffectRaw::RestoreNeed { need, amount_bits } => {
            match find_need(needs, need) {
                Some(i) => Ok(
                    InteractionEffect::RestoreNeed { need: NeedId(i as u8), amount_bits: *amount_bits },
                ),
                None => Err(
                    ContentError(join_text("interaction references unknown need: ", need.as_str())),
                ),
            }
        },
        InteractionEffectRaw::ConsumeSupply { resource, amount } => {
            Ok(InteractionEffect::ConsumeSupply { resource: resource.clone(), amount: *amount })
        },
    }
}

pub fn parse_interaction(raw: &InteractionDefRaw, needs: &Vec<NeedDef>) -> (r: Result<
    InteractionDef,
    ContentError,
>)
    ensures
        match r {
            Ok(d) => interaction_error(*raw, need_ids(needs@)) is None && interaction_matches(
                d,
                *raw,
                need_ids(needs@),
            ),
            Err(e) => interaction_error(*raw, need_ids(needs@)) == Some(e.0@),
        },
{
    let ghost nids = need_ids(needs@);
    let mode = if string_eq(&raw.mode, "adjacent") {
        InteractionMode::Adjacent
    } else if string_eq(&raw.mode, "on_tile") {
        InteractionMode::OnTile
    } else {
        return Err(ContentError(join_text("unknown interaction mode: ", raw.mode.as_str())));
    };
    let mut effects: Vec<InteractionEffect> = Vec::new();
    let mut k: usize = 0;
    while k < raw.effects.len()
        invariant
            0 <= k <= raw.effects@.len(),
            nids == need_ids(needs@),
            mode_of(raw.mode@) == Some(mode),
            effects_error_from(raw.effects@, nids, 0) == effects_error_from(raw.effects@, nids, k as int),
            effects@ == raw.effects@.take(k as int).map_values(
                |e: InteractionEffectRaw| effect_of(e, nids),
            ),
        decreases raw.effects@.len() - k,
    {
        match parse_interaction_effect(&raw.effects[k], needs) {
            Ok(e) => {
                effects.push(e);
                assert(effects@ =~= raw.effects@.take(k + 1).map_values(
                    |e: InteractionEffectRaw| effect_of(e, nids),
                ));
            },
            Err(err) => {
                return Err(err);
            },
        }
        k += 1;
    }
    assert(raw.effects@.take(k as int) =~= raw.effects@);
    Ok(InteractionDef { mode, duration_sec_bits: raw.duration_sec_bits, effects })
}

pub fn parse_status_effect(raw: &StatusEffectRaw) -> (r: Result<StatusEffect, ContentError>)
    ensures
        match r {
            Ok(e) => status_effect_error(*raw) is None && e == status_effect_of(*raw),
            Err(e) => status_effect_error(*raw) == Some(e.0@),
        },
{
    match raw {
        StatusEffectRaw::TaskPriority { task, priority } => {
            let kind = if string_eq(task, "eat") {
                TaskKindRef::Eat
            } else if string_eq(task, "sleep") {
                TaskKindRef::Sleep
            } else if string_eq(task, "build") {
                TaskKindRef::Build
            } else {
                return Err(ContentError(join_text("unknown task in status effect: ", task.as_str())));
            };
            Ok(StatusEffect::TaskPriority { task: kind, priority: *priority })
        },
    }
}

fn build_needs(raw: &Vec<NeedDefRaw>) -> (r: Result<Vec<NeedDef>, ContentError>)
    ensures
        match r {
            Ok(v) => needs_error_from(raw@, 0) is None && v@ == raw@.map_values(
                |n: NeedDefRaw| need_def_of(n),
            ),
            Err(e) => needs_error_from(raw@, 0) == Some(e.0@),
        },
{
    let mut v: Vec<NeedDef> = Vec::new();
    let mut i: usize = 0;
    while i < raw.len()
        invariant
            0 <= i <= raw@.len(),
            needs_error_from(raw@, 0) == needs_error_from(raw@, i as int),
            v@ == raw@.take(i as int).map_values(|n: NeedDefRaw| need_def_of(n)),
        decreases raw@.len() - i,
    {
        let n = &raw[i];
        assert(need_ids(v@) =~= raw_need_ids(raw@).take(i as int));
        match find_need(&v, &n.id) {
            Some(j) => {
                proof {
                    lemma_id_index(need_ids(v@), n.id@);
                    assert(raw_need_ids(raw@)[j as int] == raw_need_ids(raw@)[i as int]);
                    assert(dup_at(raw_need_ids(raw@), i as int));
                }
                return Err(ContentError(join_text("duplicate need id: ", n.id.as_str())));
            },
            None => {
                proof {
                    lemma_id_index(need_ids(v@), n.id@);
                    if dup_at(raw_need_ids(raw@), i as int) {
                        let j = choose|j: int|
                            0 <= j < i && raw_need_ids(raw@)[j] == raw_need_ids(raw@)[i as int];
                        assert(need_ids(v@)[j] == n.id@);
                    }
                }
            },
        }
        let mag = n.max_bits & 0x7fff_ffffu32;
        if mag <= 0x7f80_0000u32 && (mag == 0 || n.max_bits >= 0x8000_0000u32) {
            let head = join_text("need ", n.id.as_str());
            return Err(ContentError(join_text(head.as_str(), " max must be positive")));
        }
        v.push(
            NeedDef {
                id: n.id.clone(),
                label: n.label.clone(),
                max_bits: n.max_bits,
                decay_per_sec_bits: n.decay_per_sec_bits,
                critical_threshold_bits: n.critical_threshold_bits,
            },
        );
        assert(v@ =~= raw@.take(i + 1).map_values(|n: NeedDefRaw| need_def_of(n)));
        i += 1;
    }
    assert(raw@.take(i as int) =~= raw@);
    Ok(v)
}

fn build_terrain(raw: &Vec<TerrainDefRaw>) -> (r: Result<Vec<TerrainDef>, ContentError>)
    ensures
        match r {
            Ok(v) => terrains_error_from(raw@, 0) is None && v@ == raw@.map_values(
                |t: TerrainDefRaw| terrain_def_of(t),
            ),
            Err(e) => terrains_error_from(raw@, 0) == Some(e.0@),
        },
{
    let mut v: Vec<TerrainDef> = Vec::new();
    let mut i: usize = 0;
    while i < raw.len()
        invariant
            0 <= i <= raw@.len(),
            terrains_error_from(raw@, 0) == terrains_error_from(raw@, i as int),
            v@ == raw@.take(i as int).map_values(|t: TerrainDefRaw| terrain_def_of(t)),
        decreases raw@.len() - i,
    {
        let t = &raw[i];
        assert(terrain_ids(v@) =~= raw_terrain_ids(raw@).take(i as int));
        match find_terrain(&v, &t.id) {
            Some(j) => {
                proof {
                    lemma_id_index(terrain_ids(v@), t.id@);
                    assert(raw_terrain_ids(raw@)[j as int] == raw_terrain_ids(raw@)[i as int]);
                    assert(dup_at(raw_terrain_ids(raw@), i as int));
                }
                return Err(ContentError(join_text("duplicate terrain id: ", t.id.as_str())));
            },
            None => {
                proof {
                    lemma_id_index(terrain_ids(v@), t.id@);
                    if dup_at(raw_terrain_ids(raw@), i as int) {
                        let j = choose|j: int|
                            0 <= j < i && raw_terrain_ids(raw@)[j] == raw_terrain_ids(
                                raw@,
                            )[i as int];
                        assert(terrain_ids(v@)[j] == t.id@);
                    }
                }
            },
        }
        v.push(TerrainDef { id: t.id.clone(), walkable: t.walkable, color: t.color });
        assert(v@ =~= raw@.take(i + 1).map_values(|t: TerrainDefRaw| terrain_def_of(t)));
        i += 1;
    }
    assert(raw@.take(i as int) =~= raw@);
    Ok(v)
}

fn build_on_complete(ps: &Vec<SpawnPrimitiveRaw>) -> (r: Result<Vec<SpawnPrimitive>, ContentError>)
    ensures
        match r {
            Ok(v) => spawns_error_from(ps@, 0) is None && v@ == ps@.map_values(
                |p: SpawnPrimitiveRaw| spawn_of(p),
            ),
            Err(e) => spawns_error_from(ps@, 0) == Some(e.0@),
        },
{
    let mut v: Vec<SpawnPrimitive> = Vec::new();
    let mut k: usize = 0;
    while k < ps.len()
        invariant
            0 <= k <= ps@.len(),
            spawns_error_from(ps@, 0) == spawns_error_from(ps@, k as int),
            v@ == ps@.take(k as int).map_values(|p: SpawnPrimitiveRaw| spawn_of(p)),
        decreases ps@.len() - k,
    {
        match parse_spawn_primitive(&ps[k]) {
            Ok(p) => {
                v.push(p);
                assert(v@ =~= ps@.take(k + 1).map_values(|p: SpawnPrimitiveRaw| spawn_of(p)));
            },
            Err(e) => {
                return Err(e);
            },
        }
        k += 1;
    }
    assert(ps@.take(k as int) =~= ps@);
    Ok(v)
}

fn build_interactions(ds: &Vec<InteractionDefRaw>, needs: &Vec<NeedDef>) -> (r: Result<
    Vec<InteractionDef>,
    ContentError,
>)
    ensures
        match r {
            Ok(v) => {
                &&& interactions_error_from(ds@, need_ids(needs@), 0) is None
                &&& v@.len() == ds@.len()
                &&& forall|k: int|
                    0 <= k < ds@.len() ==> interaction_matches(
                        #[trigger] v@[k],
                        ds@[k],
                        need_ids(needs@),
                    )
            },
            Err(e) => interactions_error_from(ds@, need_ids(needs@), 0) == Some(e.0@),
        },
{
    let ghost nids = need_ids(needs@);
    let mut v: Vec<InteractionDef> = Vec::new();
    let mut k: usize = 0;
    while k < ds.len()
        invariant
            0 <= k <= ds@.len(),
            nids == need_ids(needs@),
            interactions_error_from(ds@, nids, 0) == interactions_error_from(ds@, nids, k as int),
            v@.len() == k,
            forall|j: int| 0 <= j < k ==> interaction_matches(#[trigger] v@[j], ds@[j], nids),
        decreases ds@.len() - k,
    {
        match parse_interaction(&ds[k], needs) {
            Ok(d) => {
                v.push(d);
            },
            Err(e) => {
                return Err(e);
            },
        }
        k += 1;
    }
    Ok(v)
}

fn build_buildings(raw: &Vec<BuildingDefRaw>, needs: &Vec<NeedDef>) -> (r: Result<
    Vec<BuildingDef>,
    ContentError,
>)
    ensures
        match r {
            Ok(v) => {
                &&& buildings_error_from(raw@, need_ids(needs@), 0) is None
                &&& v@.len() == raw@.len()
                &&& forall|k: int|
                    0 <= k < raw@.len() ==> building_matches(
                        #[trigger] v@[k],
                        raw@[k],
                        need_ids(needs@),
                    )
            },
            Err(e) => buildings_error_from(raw@, need_ids(needs@), 0) == Some(e.0@),
        },
{
    let ghost nids = need_ids(needs@);
    let mut v: Vec<BuildingDef> = Vec::new();
    let mut i: usize = 0;
    while i < raw.len()
        invariant
            0 <= i <= raw@.len(),
            nids == need_ids(needs@),
            buildings_error_from(raw@, nids, 0) == buildings_error_from(raw@, nids, i as int),
            v@.len() == i,
            forall|j: int| 0 <= j < i ==> building_matches(#[trigger] v@[j], raw@[j], nids),
        decreases raw@.len() - i,
    {
        let b = &raw[i];
        assert forall|j: int| 0 <= j < i implies #[trigger] building_ids(v@)[j] == raw_building_ids(
            raw@,
        )[j] by {
            assert(building_matches(v@[j], raw@[j], nids));
        }
        match find_building(&v, &b.id) {
            Some(j) => {
                proof {
                    lemma_id_index(building_ids(v@), b.id@);
                    assert(raw_building_ids(raw@)[j as int] == raw_building_ids(raw@)[i as int]);
                    assert(dup_at(raw_building_ids(raw@), i as int));
                }
                return Err(ContentError(join_text("duplicate building id: ", b.id.as_str())));
            },
            None => {
                proof {
                    lemma_id_index(building_ids(v@), b.id@);
                    if dup_at(raw_building_ids(raw@), i as int) {
                        let j = choose|j: int|
                            0 <= j < i && raw_building_ids(raw@)[j] == raw_building_ids(
                                raw@,
                            )[i as int];
                        assert(building_ids(v@)[j] == b.id@);
                    }
                }
            },
        }
        let on_complete = match build_on_complete(&b.on_complete) {
            Ok(p) => p,
            Err(e) => {
                return Err(e);
            },
        };
        let interactions = match build_interactions(&b.interactions, needs) {
            Ok(d) => d,
            Err(e) => {
                return Err(e);
            },
        };
        let work_to_deconstruct_bits = match b.work_to_deconstruct_bits {
            Some(w) => w,
            None => b.work_required_bits,
        };
        v.push(
            BuildingDef {
                id: b.id.clone(),
                label: b.label.clone(),
                work_required_bits: b.work_required_bits,
                work_to_deconstruct_bits,
                blocks_movement: b.blocks_movement,
                blocks_settle: b.blocks_settle,
                buildable: b.buildable,
                color: b.color,
                on_complete,
                interactions,
            },
        );
        assert(building_matches(v@[i as int], raw@[i as int], nids));
        i += 1;
    }
    Ok(v)
}

fn build_status_effects(es: &Vec<StatusEffectRaw>) -> (r: Result<Vec<StatusEffect>, ContentError>)
    ensures
        match r {
            Ok(v) => status_effects_error_from(es@, 0) is None && v@ == es@.map_values(
                |e: StatusEffectRaw| status_effect_of(e),
            ),
            Err(e) => status_effects_error_from(es@, 0) == Some(e.0@),
        },
{
    let mut v: Vec<StatusEffect> = Vec::new();
    let mut k: usize = 0;
    while k < es.len()
        invariant
            0 <= k <= es@.len(),
            status_effects_error_from(es@, 0) == status_effects_error_from(es@, k as int),
            v@ == es@.take(k as int).map_values(|e: StatusEffectRaw| status_effect_of(e)),
        decreases es@.len() - k,
    {
        match parse_status_effect(&es[k]) {
            Ok(e) => {
                v.push(e);
                assert(v@ =~= es@.take(k + 1).map_values(|e: StatusEffectRaw| status_effect_of(e)));
            },
            Err(e) => {
                return Err(e);
            },
        }
        k += 1;
    }
    assert(es@.take(k as int) =~= es@);
    Ok(v)
}

fn build_statuses(raw: &Vec<StatusDefRaw>, needs: &Vec<NeedDef>) -> (r: Result<
    Vec<StatusDef>,
    ContentError,
>)
    ensures
        match r {
            Ok(v) => {
                &&& statuses_error_from(raw@, need_ids(needs@), 0) is None
                &&& v@.len() == raw@.len()
                &&& forall|k: int|
                    0 <= k < raw@.len() ==> status_matches(
                        #[trigger] v@[k],
                        raw@[k],
                        need_ids(needs@),
                    )
            },
            Err(e) => statuses_error_from(raw@, need_ids(needs@), 0) == Some(e.0@),
        },
{
    let ghost nids = need_ids(needs@);
    let mut v: Vec<StatusDef> = Vec::new();
    let mut i: usize = 0;
    while i < raw.len()
        invariant
            0 <= i <= raw@.len(),
            nids == need_ids(needs@),
            statuses_error_from(raw@, nids, 0) == statuses_error_from(raw@, nids, i as int),
            v@.len() == i,
            forall|j: int| 0 <= j < i ==> status_matches(#[trigger] v@[j], raw@[j], nids),
        decreases raw@.len() - i,
    {
        let d = &raw[i];
        assert forall|j: int| 0 <= j < i implies #[trigger] status_ids(v@)[j] == raw_status_ids(
            raw@,
        )[j] by {
            assert(status_matches(v@[j], raw@[j], nids));
        }
        match find_status(&v, &d.id) {
            Some(j) => {
                proof {
                    lemma_id_index(status_ids(v@), d.id@);
                    assert(raw_status_ids(raw@)[j as int] == raw_status_ids(raw@)[i as int]);
                    assert(dup_at(raw_status_ids(raw@), i as int));
                }
                return Err(ContentError(join_text("duplicate status id: ", d.id.as_str())));
            },
            None => {
                proof {
                    lemma_id_index(status_ids(v@), d.id@);
                    if dup_at(raw_status_ids(raw@), i as int) {
                        let j = choose|j: int|
                            0 <= j < i && raw_status_ids(raw@)[j] == raw_status_ids(raw@)[i as int];
                        assert(status_ids(v@)[j] == d.id@);
                    }
                }
            },
        }
        let need = match find_need(needs, &d.apply_when.need) {
            Some(n) => NeedId(n as u8),
            None => {
                let a = join_text("status ", d.id.as_str());
                let b = join_text(a.as_str(), " references unknown need ");
                return Err(ContentError(join_text(b.as_str(), d.apply_when.need.as_str())));
            },
        };
        if !string_eq(&d.apply_when.condition, "below_threshold") {
            let a = join_text("status ", d.id.as_str());
            let b = join_text(a.as_str(), " unknown condition: ");
            return Err(ContentError(join_text(b.as_str(), d.apply_when.condition.as_str())));
        }
        let effects = match build_status_effects(&d.effects) {
            Ok(e) => e,
            Err(e) => {
                return Err(e);
            },
        };
        v.push(
            StatusDef {
                id: d.id.clone(),
                label: d.label.clone(),
                apply_when: ApplyWhen { need, condition: ApplyCondition::BelowThreshold },
                effects,
            },
        );
        assert(status_matches(v@[i as int], raw@[i as int], nids));
        i += 1;
    }
    Ok(v)
}

impl ContentRegistry {
    /// Checks a raw pack and resolves its string references into ids.
    ///
    /// Fails with the message of the first check that fails, in the order of
    /// `pack_error`; otherwise the registry is the one that `registry_of` describes.
    pub fn from_pack(raw: &ContentPackRaw) -> (r: Result<ContentRegistry, ContentError>)
        ensures
            match r {
                Ok(reg) => pack_error(*raw) is None && registry_of(reg, *raw) && reg.wf(),
                Err(e) => pack_error(*raw) == Some(e.0@),
            },
    {
        let needs = match build_needs(&raw.needs) {
            Ok(n) => n,
            Err(e) => {
                return Err(e);
            },
        };
        assert(need_ids(needs@) =~= raw_need_ids(raw.needs@));
        let terrain = match build_terrain(&raw.terrain) {
            Ok(t) => t,
            Err(e) => {
                return Err(e);
            },
        };
        assert(terrain_ids(terrain@) =~= raw_terrain_ids(raw.terrain@));
        let buildings = match build_buildings(&raw.buildings, &needs) {
            Ok(b) => b,
            Err(e) => {
                return Err(e);
            },
        };
        assert forall|j: int| 0 <= j < buildings@.len() implies #[trigger] building_ids(
            buildings@,
        )[j] == raw_building_ids(raw.buildings@)[j] by {
            assert(building_matches(buildings@[j], raw.buildings@[j], need_ids(needs@)));
        }
        assert(building_ids(buildings@) =~= raw_building_ids(raw.buildings@));
        let statuses = match build_statuses(&raw.statuses, &needs) {
            Ok(s) => s,
            Err(e) => {
                return Err(e);
            },
        };
        assert forall|j: int| 0 <= j < statuses@.len() implies #[trigger] status_ids(statuses@)[j]
            == raw_status_ids(raw.statuses@)[j] by {
            assert(status_matches(statuses@[j], raw.statuses@[j], need_ids(needs@)));
        }
        assert(status_ids(statuses@) =~= raw_status_ids(raw.statuses@));
        let food_need = match find_need(&needs, &"food".to_owned()) {
            Some(i) => NeedId(i as u8),
            None => {
                return Err(ContentError("base pack missing need: food".to_owned()));
            },
        };
        let sleep_need = match find_need(&needs, &"sleep".to_owned()) {
            Some(i) => NeedId(i as u8),
            None => {
                return Err(ContentError("base pack missing need: sleep".to_owned()));
            },
        };
        let hungry_status = match find_status(&statuses, &"hungry".to_owned()) {
            Some(i) => StatusId(i as u8),
            None => {
                return Err(ContentError("base pack missing status: hungry".to_owned()));
            },
        };
        let wants_sleep_status = match find_status(&statuses, &"wants_sleep".to_owned()) {
            Some(i) => StatusId(i as u8),
            None => {
                return Err(ContentError("base pack missing status: wants_sleep".to_owned()));
            },
        };
        let grass_terrain = match find_terrain(&terrain, &"grass".to_owned()) {
            Some(i) => TerrainId(i as u16),
            None => {
                return Err(ContentError("base pack missing terrain: grass".to_owned()));
            },
        };
        let water_terrain = match find_terrain(&terrain, &"water".to_owned()) {
            Some(i) => TerrainId(i as u16),
            None => {
                return Err(ContentError("base pack missing terrain: water".to_owned()));
            },
        };
        let sand_terrain = match find_terrain(&terrain, &"sand".to_owned()) {
            Some(i) => TerrainId(i as u16),
            None => {
                return Err(ContentError("base pack missing terrain: sand".to_owned()));
            },
        };
        let berry_bush_building = match find_building(&buildings, &"berry_bush".to_owned()) {
            Some(i) => BuildingId(i as u16),
            None => {
                return Err(ContentError("base pack missing building: berry_bush".to_owned()));
            },
        };
        let bed_building = match find_building(&buildings, &"bed".to_owned()) {
            Some(i) => BuildingId(i as u16),
            None => {
                return Err(ContentError("base pack missing building: bed".to_owned()));
            },
        };
        let wall_building = match find_building(&buildings, &"wall".to_owned()) {
            Some(i) => BuildingId(i as u16),
            None => {
                return Err(ContentError("base pack missing building: wall".to_owned()));
            },
        };
        let reg = ContentRegistry {
                terrain,
                buildings,
                needs,
                statuses,
                food_need,
                sleep_need,
                hungry_status,
                wants_sleep_status,
                grass_terrain,
                water_terrain,
                sand_terrain,
                berry_bush_building,
                bed_building,
                wall_building,
            };
        proof {
            lemma_registry_of_wf(reg, *raw);
        }
        Ok(reg)
    }
}

/// No two entries are equal.
pub open spec fn ids_unique(ids: Seq<Seq<char>>) -> bool {
    forall|i: int, j: int| 0 <= i < j < ids.len() ==> ids[i] != ids[j]
}

proof fn lemma_unique_from_no_dup(ids: Seq<Seq<char>>)
    requires
        forall|i: int| 0 <= i < ids.len() ==> !dup_at(ids, i),
    ensures
        ids_unique(ids),
{
    assert forall|i: int, j: int| 0 <= i < j < ids.len() implies ids[i] != ids[j] by {
        assert(!dup_at(ids, j));
    }
}

proof fn lemma_needs_ok(s: Seq<NeedDefRaw>, i: int)
    requires
        0 <= i,
        needs_error_from(s, i) is None,
    ensures
        forall|k: int| i <= k < s.len() ==> need_error(s, k) is None,
    decreases s.len() - i,
{
    if i < s.len() {
        lemma_needs_ok(s, i + 1);
    }
}

proof fn lemma_terrains_ok(s: Seq<TerrainDefRaw>, i: int)
    requires
        0 <= i,
        terrains_error_from(s, i) is None,
    ensures
        forall|k: int| i <= k < s.len() ==> terrain_error(s, k) is None,
    decreases s.len() - i,
{
    if i < s.len() {
        lemma_terrains_ok(s, i + 1);
    }
}

proof fn lemma_buildings_ok(s: Seq<BuildingDefRaw>, needs: Seq<Seq<char>>, i: int)
    requires
        0 <= i,
        buildings_error_from(s, needs, i) is None,
    ensures
        forall|k: int| i <= k < s.len() ==> building_error(s, k, needs) is None,
    decreases s.len() - i,
{
    if i < s.len() {
        lemma_buildings_ok(s, needs, i + 1);
    }
}

proof fn lemma_statuses_ok(s: Seq<StatusDefRaw>, needs: Seq<Seq<char>>, i: int)
    requires
        0 <= i,
        statuses_error_from(s, needs, i) is None,
    ensures
        forall|k: int| i <= k < s.len() ==> status_error(s, k, needs) is None,
    decreases s.len() - i,
{
    if i < s.len() {
        lemma_statuses_ok(s, needs, i + 1);
    }
}

impl ContentRegistry {
    /// Ids are unique in each list, and the base ids and the need that each status
    /// watches name existing entries.
    pub open spec fn wf(&self) -> bool {
        &&& ids_unique(terrain_ids(self.terrain@))
        &&& ids_unique(building_ids(self.buildings@))
        &&& ids_unique(need_ids(self.needs@))
        &&& ids_unique(status_ids(self.statuses@))
        &&& self.food_need.0 < self.needs@.len()
        &&& self.sleep_need.0 < self.needs@.len()
        &&& self.hungry_status.0 < self.statuses@.len()
        &&& self.wants_sleep_status.0 < self.statuses@.len()
        &&& self.grass_terrain.0 < self.terrain@.len()
        &&& self.water_terrain.0 < self.terrain@.len()
        &&& self.sand_terrain.0 < self.terrain@.len()
        &&& self.berry_bush_building.0 < self.buildings@.len()
        &&& self.bed_building.0 < self.buildings@.len()
        &&& self.wall_building.0 < self.buildings@.len()
        &&& forall|i: int|
            0 <= i < self.statuses@.len() ==> (#[trigger] self.statuses@[i]).apply_when.need.0
                < self.needs@.len()
    }
}

/// A registry that `from_pack` builds is well formed.
pub proof fn lemma_registry_of_wf(reg: ContentRegistry, raw: ContentPackRaw)
    requires
        pack_error(raw) is None,
        registry_of(reg, raw),
    ensures
        reg.wf(),
{
    let nids = raw_need_ids(raw.needs@);
    lemma_needs_ok(raw.needs@, 0);
    lemma_terrains_ok(raw.terrain@, 0);
    lemma_buildings_ok(raw.buildings@, nids, 0);
    lemma_statuses_ok(raw.statuses@, nids, 0);
    assert(need_ids(reg.needs@) =~= nids);
    assert(terrain_ids(reg.terrain@) =~= raw_terrain_ids(raw.terrain@));
    assert forall|j: int| 0 <= j < reg.buildings@.len() implies #[trigger] building_ids(
        reg.buildings@,
    )[j] == raw_building_ids(raw.buildings@)[j] by {
        assert(building_matches(reg.buildings@[j], raw.buildings@[j], nids));
    }
    assert(building_ids(reg.buildings@) =~= raw_building_ids(raw.buildings@));
    assert forall|j: int| 0 <= j < reg.statuses@.len() implies #[trigger] status_ids(
        reg.statuses@,
    )[j] == raw_status_ids(raw.statuses@)[j] by {
        assert(status_matches(reg.statuses@[j], raw.statuses@[j], nids));
    }
    assert(status_ids(reg.statuses@) =~= raw_status_ids(raw.statuses@));
    assert forall|i: int| 0 <= i < nids.len() implies !dup_at(nids, i) by {
        assert(need_error(raw.needs@, i) is None);
    }
    lemma_unique_from_no_dup(nids);
    assert forall|i: int| 0 <= i < raw.terrain@.len() implies !dup_at(
        raw_terrain_ids(raw.terrain@),
        i,
    ) by {
        assert(terrain_error(raw.terrain@, i) is None);
    }
    lemma_unique_from_no_dup(raw_terrain_ids(raw.terrain@));
    assert forall|i: int| 0 <= i < raw.buildings@.len() implies !dup_at(
        raw_building_ids(raw.buildings@),
        i,
    ) by {
        assert(building_error(raw.buildings@, i, nids) is None);
    }
    lemma_unique_from_no_dup(raw_building_ids(raw.buildings@));
    assert forall|i: int| 0 <= i < raw.statuses@.len() implies !dup_at(
        raw_status_ids(raw.statuses@),
        i,
    ) by {
        assert(status_error(raw.statuses@, i, nids) is None);
    }
    lemma_unique_from_no_dup(raw_status_ids(raw.statuses@));
    lemma_id_index(nids, "food"@);
    lemma_id_index(nids, "sleep"@);
    lemma_id_index(raw_status_ids(raw.statuses@), "hungry"@);
    lemma_id_index(raw_status_ids(raw.statuses@), "wants_sleep"@);
    lemma_id_index(raw_terrain_ids(raw.terrain@), "grass"@);
    lemma_id_index(raw_terrain_ids(raw.terrain@), "water"@);
    lemma_id_index(raw_terrain_ids(raw.terrain@), "sand"@);
    lemma_id_index(raw_building_ids(raw.buildings@), "berry_bush"@);
    lemma_id_index(raw_building_ids(raw.buildings@), "bed"@);
    lemma_id_index(raw_building_ids(raw.buildings@), "wall"@);
    assert forall|i: int| 0 <= i < reg.statuses@.len() implies (
    #[trigger] reg.statuses@[i]).apply_when.need.0 < reg.needs@.len() by {
        assert(status_matches(reg.statuses@[i], raw.statuses@[i], nids));
        assert(status_error(raw.statuses@, i, nids) is None);
        lemma_id_index(nids, raw.statuses@[i].apply_when.need@);
    }
}

/// Positions `0..n` of the buildings that players may order built.
pub open spec fn buildable_upto(defs: Seq<BuildingDef>, n: int) -> Seq<int>
    decreases n,
{
    if n <= 0 {
        Seq::empty()
    } else {
        buildable_upto(defs, n - 1) + if defs[n - 1].buildable {
            seq![n - 1]
        } else {
            Seq::empty()
        }
    }
}

/// The first supply amount among `ps[0..n]`.
pub open spec fn first_supply_upto(ps: Seq<SpawnPrimitive>, n: int) -> Option<u8>
    decreases n,
{
    if n <= 0 {
        None
    } else {
        match first_supply_upto(ps, n - 1) {
            Some(a) => Some(a),
            None => match ps[n - 1] {
                SpawnPrimitive::Supply { amount, .. } => Some(amount),
                _ => None,
            },
        }
    }
}

/// `i` is the first interaction in `ds` with mode `m`.
pub open spec fn first_with_mode(ds: Seq<InteractionDef>, m: InteractionMode, i: int) -> bool {
    &&& 0 <= i < ds.len()
    &&& ds[i].mode == m
    &&& forall|j: int| 0 <= j < i ==> ds[j].mode != m
}

impl ContentRegistry {
    pub fn terrain_id(&self, id: &str) -> (r: Option<TerrainId>)
        ensures
            r == match id_index(terrain_ids(self.terrain@), id@) {
                Some(i) => Some(TerrainId(i as u16)),
                None => None,
            },
    {
        match find_terrain(&self.terrain, &id.to_owned()) {
            Some(i) => Some(TerrainId(i as u16)),
            None => None,
        }
    }

    pub fn building_id(&self, id: &str) -> (r: Option<BuildingId>)
        ensures
            r == match id_index(building_ids(self.buildings@), id@) {
                Some(i) => Some(BuildingId(i as u16)),
                None => None,
            },
    {
        match find_building(&self.buildings, &id.to_owned()) {
            Some(i) => Some(BuildingId(i as u16)),
            None => None,
        }
    }

    pub fn need_id(&self, id: &str) -> (r: Option<NeedId>)
        ensures
            r == match id_index(need_ids(self.needs@), id@) {
                Some(i) => Some(NeedId(i as u8)),
                None => None,
            },
    {
        match find_need(&self.needs, &id.to_owned()) {
            Some(i) => Some(NeedId(i as u8)),
            None => None,
        }
    }

    pub fn status_id(&self, id: &str) -> (r: Option<StatusId>)
        ensures
            r == match id_index(status_ids(self.statuses@), id@) {
                Some(i) => Some(StatusId(i as u8)),
                None => None,
            },
    {
        match find_status(&self.statuses, &id.to_owned()) {
            Some(i) => Some(StatusId(i as u8)),
            None => None,
        }
    }

    pub fn terrain_str(&self, id: TerrainId) -> (r: &str)
        requires
            id.0 < self.terrain@.len(),
        ensures
            r@ == self.terrain@[id.0 as int].id@,
    {
        self.terrain[id.0 as usize].id.as_str()
    }

    pub fn building_str(&self, id: BuildingId) -> (r: &str)
        requires
            id.0 < self.buildings@.len(),
        ensures
            r@ == self.buildings@[id.0 as int].id@,
    {
        self.buildings[id.0 as usize].id.as_str()
    }

    pub fn need_str(&self, id: NeedId) -> (r: &str)
        requires
            id.0 < self.needs@.len(),
        ensures
            r@ == self.needs@[id.0 as int].id@,
    {
        self.needs[id.0 as usize].id.as_str()
    }

    pub fn status_str(&self, id: StatusId) -> (r: &str)
        requires
            id.0 < self.statuses@.len(),
        ensures
            r@ == self.statuses@[id.0 as int].id@,
    {
        self.statuses[id.0 as usize].id.as_str()
    }

    pub fn terrain_def(&self, id: TerrainId) -> (r: &TerrainDef)
        requires
            id.0 < self.terrain@.len(),
        ensures
            *r == self.terrain@[id.0 as int],
    {
        &self.terrain[id.0 as usize]
    }

    pub fn building_def(&self, id: BuildingId) -> (r: &BuildingDef)
        requires
            id.0 < self.buildings@.len(),
        ensures
            *r == self.buildings@[id.0 as int],
    {
        &self.buildings[id.0 as usize]
    }

    pub fn need_def(&self, id: NeedId) -> (r: &NeedDef)
        requires
            id.0 < self.needs@.len(),
        ensures
            *r == self.needs@[id.0 as int],
    {
        &self.needs[id.0 as usize]
    }

    pub fn status_def(&self, id: StatusId) -> (r: &StatusDef)
        requires
            id.0 < self.statuses@.len(),
        ensures
            *r == self.statuses@[id.0 as int],
    {
        &self.statuses[id.0 as usize]
    }

    /// Bits of the `f32` work that building `id` takes.
    pub fn work_required(&self, id: BuildingId) -> (r: u32)
        requires
            id.0 < self.buildings@.len(),
        ensures
            r == self.buildings@[id.0 as int].work_required_bits,
    {
        self.building_def(id).work_required_bits
    }

    /// Bits of the `f32` work that taking building `id` down takes.
    pub fn work_to_deconstruct(&self, id: BuildingId) -> (r: u32)
        requires
            id.0 < self.buildings@.len(),
        ensures
            r == self.buildings@[id.0 as int].work_to_deconstruct_bits,
    {
        self.building_def(id).work_to_deconstruct_bits
    }

    pub fn blocks_movement(&self, id: BuildingId) -> (r: bool)
        requires
            id.0 < self.buildings@.len(),
        ensures
            r == self.buildings@[id.0 as int].blocks_movement,
    {
        self.building_def(id).blocks_movement
    }

    pub fn blocks_settle(&self, id: BuildingId) -> (r: bool)
        requires
            id.0 < self.buildings@.len(),
        ensures
            r == self.buildings@[id.0 as int].blocks_settle,
    {
        self.building_def(id).blocks_settle
    }

    pub fn has_supply_on_complete(&self, id: BuildingId) -> (r: bool)
        requires
            id.0 < self.buildings@.len(),
        ensures
            r == exists|k: int|
                0 <= k < self.buildings@[id.0 as int].on_complete@.len()
                    && #[trigger] self.buildings@[id.0 as int].on_complete@[k] is Supply,
    {
        let ps = &self.building_def(id).on_complete;
        let mut k: usize = 0;
        while k < ps.len()
            invariant
                0 <= k <= ps@.len(),
                *ps == self.buildings@[id.0 as int].on_complete,
                forall|j: int| 0 <= j < k ==> !(ps@[j] is Supply),
            decreases ps@.len() - k,
        {
            if let SpawnPrimitive::Supply { .. } = &ps[k] {
                return true;
            }
            k += 1;
        }
        false
    }

    pub fn supply_amount_on_complete(&self, id: BuildingId) -> (r: Option<u8>)
        requires
            id.0 < self.buildings@.len(),
        ensures
            r == first_supply_upto(
                self.buildings@[id.0 as int].on_complete@,
                self.buildings@[id.0 as int].on_complete@.len() as int,
            ),
    {
        let ps = &self.building_def(id).on_complete;
        let mut k: usize = 0;
        while k < ps.len()
            invariant
                0 <= k <= ps@.len(),
                *ps == self.buildings@[id.0 as int].on_complete,
                first_supply_upto(ps@, k as int) is None,
            decreases ps@.len() - k,
        {
            if let SpawnPrimitive::Supply { amount, .. } = &ps[k] {
                proof {
                    lemma_first_supply_stays(ps@, k as int + 1);
                }
                return Some(*amount);
            }
            k += 1;
        }
        None
    }

    pub fn has_reservation_on_complete(&self, id: BuildingId) -> (r: bool)
        requires
            id.0 < self.buildings@.len(),
        ensures
            r == exists|k: int|
                0 <= k < self.buildings@[id.0 as int].on_complete@.len()
                    && #[trigger] self.buildings@[id.0 as int].on_complete@[k] is Reservation,
    {
        let ps = &self.building_def(id).on_complete;
        let mut k: usize = 0;
        while k < ps.len()
            invariant
                0 <= k <= ps@.len(),
                *ps == self.buildings@[id.0 as int].on_complete,
                forall|j: int| 0 <= j < k ==> !(ps@[j] is Reservation),
            decreases ps@.len() - k,
        {
            if let SpawnPrimitive::Reservation { .. } = &ps[k] {
                return true;
            }
            k += 1;
        }
        false
    }

    /// The buildings that players may order built, in pack order.
    pub fn buildable_buildings(&self) -> (r: Vec<(BuildingId, &BuildingDef)>)
        ensures
            r@.len() == buildable_upto(self.buildings@, self.buildings@.len() as int).len(),
            forall|k: int|
                0 <= k < r@.len() ==> {
                    let i = buildable_upto(self.buildings@, self.buildings@.len() as int)[k];
                    &&& (#[trigger] r@[k]).0 == BuildingId(i as u16)
                    &&& *r@[k].1 == self.buildings@[i]
                },
    {
        let mut r: Vec<(BuildingId, &BuildingDef)> = Vec::new();
        let mut i: usize = 0;
        while i < self.buildings.len()
            invariant
                0 <= i <= self.buildings@.len(),
                r@.len() == buildable_upto(self.buildings@, i as int).len(),
                forall|k: int|
                    0 <= k < r@.len() ==> {
                        let j = buildable_upto(self.buildings@, i as int)[k];
                        &&& (#[trigger] r@[k]).0 == BuildingId(j as u16)
                        &&& *r@[k].1 == self.buildings@[j]
                    },
            decreases self.buildings@.len() - i,
        {
            let b = &self.buildings[i];
            if b.buildable {
                r.push((BuildingId(i as u16), b));
            }
            i += 1;
        }
        r
    }

    /// The task that status `status` gives priority to: that of its first effect.
    pub fn task_for_status(&self, status: StatusId) -> (r: Option<TaskKindRef>)
        requires
            status.0 < self.statuses@.len(),
        ensures
            r == if self.statuses@[status.0 as int].effects@.len() > 0 {
                match self.statuses@[status.0 as int].effects@[0] {
                    StatusEffect::TaskPriority { task, .. } => Some(task),
                }
            } else {
                None
            },
    {
        let effects = &self.status_def(status).effects;
        if effects.len() > 0 {
            match &effects[0] {
                StatusEffect::TaskPriority { task, .. } => Some(*task),
            }
        } else {
            None
        }
    }

    /// The first interaction of building `id` that is carried out on its tile.
    pub fn sleep_interaction(&self, id: BuildingId) -> (r: Option<&InteractionDef>)
        requires
            id.0 < self.buildings@.len(),
        ensures
            match r {
                Some(d) => exists|i: int|
                    first_with_mode(
                        self.buildings@[id.0 as int].interactions@,
                        InteractionMode::OnTile,
                        i,
                    ) && *d == self.buildings@[id.0 as int].interactions@[i],
                None => forall|i: int|
                    0 <= i < self.buildings@[id.0 as int].interactions@.len()
                        ==> #[trigger] self.buildings@[id.0 as int].interactions@[i].mode
                        != InteractionMode::OnTile,
            },
    {
        find_interaction(&self.building_def(id).interactions, InteractionMode::OnTile)
    }

    /// The first interaction of building `id` that is carried out from a neighbouring tile.
    pub fn eat_interaction(&self, id: BuildingId) -> (r: Option<&InteractionDef>)
        requires
            id.0 < self.buildings@.len(),
        ensures
            match r {
                Some(d) => exists|i: int|
                    first_with_mode(
                        self.buildings@[id.0 as int].interactions@,
                        InteractionMode::Adjacent,
                        i,
                    ) && *d == self.buildings@[id.0 as int].interactions@[i],
                None => forall|i: int|
                    0 <= i < self.buildings@[id.0 as int].interactions@.len()
                        ==> #[trigger] self.buildings@[id.0 as int].interactions@[i].mode
                        != InteractionMode::Adjacent,
            },
    {
        find_interaction(&self.building_def(id).interactions, InteractionMode::Adjacent)
    }
}

proof fn lemma_first_supply_stays(ps: Seq<SpawnPrimitive>, n: int)
    requires
        0 < n <= ps.len(),
        first_supply_upto(ps, n) is Some,
    ensures
        first_supply_upto(ps, ps.len() as int) == first_supply_upto(ps, n),
    decreases ps.len() - n,
{
    if n < ps.len() {
        lemma_first_supply_stays(ps, n + 1);
    }
}

fn find_interaction(ds: &Vec<InteractionDef>, m: InteractionMode) -> (r: Option<&InteractionDef>)
    ensures
        match r {
            Some(d) => exists|i: int| first_with_mode(ds@, m, i) && *d == ds@[i],
            None => forall|i: int| 0 <= i < ds@.len() ==> #[trigger] ds@[i].mode != m,
        },
{
    let mut k: usize = 0;
    while k < ds.len()
        invariant
            0 <= k <= ds@.len(),
            forall|j: int| 0 <= j < k ==> #[trigger] ds@[j].mode != m,
        decreases ds@.len() - k,
    {
        if ds[k].mode == m {
            assert(first_with_mode(ds@, m, k as int));
            return Some(&ds[k]);
        }
        k += 1;
    }
    None
}


/// The text of the base content pack.
pub open spec fn base_pack_text() -> Seq<char> {
    BASE_PACK@
}

/// The base content pack, as JSON.
pub const BASE_PACK: &'static str = r#"{"needs":[{"id":"food","label":"Food","max":100,"decay_per_sec":2.0,"critical_threshold":30},{"id":"sleep","label":"Sleep","max":100,"decay_per_sec":1.5,"critical_threshold":30}],"statuses":[{"id":"hungry","label":"Hungry","apply_when":{"need":"food","condition":"below_threshold"},"effects":[{"type":"task_priority","task":"eat","priority":100}]},{"id":"wants_sleep","label":"Wants sleep","apply_when":{"need":"sleep","condition":"below_threshold"},"effects":[{"type":"task_priority","task":"sleep","priority":90}]}],"buildings":[{"id":"berry_bush","label":"Berry bush","work_required":40,"blocks_movement":true,"blocks_settle":true,"color":3050327,"on_complete":[{"type":"supply","resource":"berries","amount":3}],"interactions":[{"mode":"adjacent","duration_sec":0,"effects":[{"type":"consume_supply","resource":"berries","amount":1},{"type":"restore_need","need":"food","amount":100}]}]},{"id":"bed","label":"Bed","work_required":30,"blocks_movement":false,"blocks_settle":true,"color":9127187,"on_complete":[{"type":"reservation","kind":"single_occupant"}],"interactions":[{"mode":"on_tile","duration_sec":2,"effects":[{"type":"restore_need","need":"sleep","amount":100}]}]},{"id":"wall","label":"Wall","work_required":30,"blocks_movement":true,"blocks_settle":true,"color":8421504,"on_complete":[],"interactions":[]}],"terrain":[{"id":"grass","walkable":true,"color":5025616},{"id":"water","walkable":false,"color":2201331},{"id":"sand","walkable":true,"color":15787660}]}"#;

/// The base content pack as JSON text.
pub fn base_content_json() -> (r: &'static str)
    ensures
        r@ == base_pack_text(),
{
    BASE_PACK
}

} // verus!
