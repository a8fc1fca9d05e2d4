//! The world grid: terrain and buildings on a square of `WORLD_SIZE` cells a side,
//! and the seeded generation of a new world.
use vstd::prelude::*;

use crate::content::{BuildingId, ContentRegistry, TerrainId};

verus! {

pub const WORLD_SIZE: i32 = 50;

/// Number of cells of the grid.
pub const GRID_CELLS: usize = 2500;

pub const BERRIES_PER_BUSH: u8 = 3;

pub const WANDER_MIN_RADIUS: i32 = 3;

pub const WANDER_RADIUS: i32 = 10;

pub const WANDER_PICK_ATTEMPTS: usize = 8;

/// Max Manhattan ring from a bed when searching for a vacate cell after sleep.
pub const VACATE_SEARCH_RADIUS: i32 = 5;

pub struct WorldGrid {
    pub terrain: Vec<TerrainId>,
    pub buildings: Vec<Option<BuildingId>>,
    pub seed: u32,
}

/// The position of cell `(x, y)` in the grid's vectors, if it lies on the grid.
pub open spec fn cell_index(x: int, y: int) -> Option<int> {
    if 0 <= x < WORLD_SIZE && 0 <= y < WORLD_SIZE {
        Some(y * WORLD_SIZE + x)
    } else {
        None
    }
}

impl WorldGrid {
    /// Both vectors cover the grid, and every id names an entry of `content`.
    pub open spec fn wf(&self, content: &ContentRegistry) -> bool {
        &&& self.terrain@.len() == GRID_CELLS
        &&& self.buildings@.len() == GRID_CELLS
        &&& forall|i: int|
            0 <= i < GRID_CELLS ==> (#[trigger] self.terrain@[i]).0 < content.terrain@.len()
        &&& forall|i: int|
            0 <= i < GRID_CELLS ==> match #[trigger] self.buildings@[i] {
                Some(b) => b.0 < content.buildings@.len(),
                None => true,
            }
    }

    pub open spec fn spec_terrain_at(&self, x: int, y: int) -> Option<TerrainId> {
        match cell_index(x, y) {
            Some(i) => Some(self.terrain@[i]),
            None => None,
        }
    }

    pub open spec fn spec_building_at(&self, x: int, y: int) -> Option<BuildingId> {
        match cell_index(x, y) {
            Some(i) => self.buildings@[i],
            None => None,
        }
    }

    /// A colonist may stand on `(x, y)`: it lies on the grid, its terrain is walkable
    /// and no building there blocks movement.
    pub open spec fn spec_walkable(&self, content: &ContentRegistry, x: int, y: int) -> bool {
        match cell_index(x, y) {
            Some(i) => {
                &&& content.terrain@[self.terrain@[i].0 as int].walkable
                &&& match self.buildings@[i] {
                    Some(b) => !content.buildings@[b.0 as int].blocks_movement,
                    None => true,
                }
            },
            None => false,
        }
    }

    pub fn index(x: i32, y: i32) -> (r: Option<usize>)
        ensures
            r == match cell_index(x as int, y as int) {
                Some(i) => Some(i as usize),
                None => None,
            },
            r matches Some(i) ==> i < GRID_CELLS,
    {
        if x < 0 || y < 0 || x >= WORLD_SIZE || y >= WORLD_SIZE {
            return None;
        }
        Some((y * WORLD_SIZE + x) as usize)
    }

    pub fn terrain_at(&self, x: i32, y: i32) -> (r: Option<TerrainId>)
        requires
            self.terrain@.len() == GRID_CELLS,
        ensures
            r == self.spec_terrain_at(x as int, y as int),
    {
        match Self::index(x, y) {
            Some(i) => Some(self.terrain[i]),
            None => None,
        }
    }

    pub fn building_at(&self, x: i32, y: i32) -> (r: Option<BuildingId>)
        requires
            self.buildings@.len() == GRID_CELLS,
        ensures
            r == self.spec_building_at(x as int, y as int),
    {
        match Self::index(x, y) {
            Some(i) => self.buildings[i],
            None => None,
        }
    }

    pub fn is_walkable(&self, content: &ContentRegistry, x: i32, y: i32) -> (r: bool)
        requires
            self.wf(content),
        ensures
            r == self.spec_walkable(content, x as int, y as int),
    {
        match Self::index(x, y) {
            Some(i) => {
                let t = self.terrain[i];
                if !content.terrain_def(t).walkable {
                    return false;
                }
                match self.buildings[i] {
                    Some(b) => !content.blocks_movement(b),
                    None => true,
                }
            },
            None => false,
        }
    }

    /// Clears the building at `(x, y)`; says whether there was one.
    pub fn remove_building(&mut self, x: i32, y: i32) -> (r: bool)
        requires
            old(self).buildings@.len() == GRID_CELLS,
        ensures
            r == (old(self).spec_building_at(x as int, y as int) is Some),
            final(self).terrain == old(self).terrain,
            final(self).seed == old(self).seed,
            final(self).buildings@ == match cell_index(x as int, y as int) {
                Some(i) => if r {
                    old(self).buildings@.update(i, None)
                } else {
                    old(self).buildings@
                },
                None => old(self).buildings@,
            },
    {
        if let Some(i) = Self::index(x, y) {
            if self.buildings[i].is_some() {
                self.buildings.set(i, None);
                return true;
            }
        }
        false
    }

    /// Puts `building` on `(x, y)` if a colonist may stand there and no building
    /// stands there yet; says whether it did.
    pub fn place_building(&mut self, content: &ContentRegistry, x: i32, y: i32, building: BuildingId) -> (r: bool)
        requires
            old(self).wf(content),
            building.0 < content.buildings@.len(),
        ensures
            r == (old(self).spec_walkable(content, x as int, y as int)
                && old(self).spec_building_at(x as int, y as int) is None),
            final(self).wf(content),
            final(self).terrain == old(self).terrain,
            final(self).seed == old(self).seed,
            final(self).buildings@ == if r {
                old(self).buildings@.update(cell_index(x as int, y as int)->0, Some(building))
            } else {
                old(self).buildings@
            },
    {
        if !self.is_walkable(content, x, y) {
            return false;
        }
        if self.building_at(x, y).is_some() {
            return false;
        }
        if let Some(i) = Self::index(x, y) {
            self.buildings.set(i, Some(building));
            true
        } else {
            false
        }
    }
}

/// The 16 low bits of the seeded hash of cell `(x, y)`.
pub open spec fn noise_bits(x: u32, y: u32, seed: u32) -> u32 {
    let a = vstd::wrapping::u32_specs::wrapping_mul(x, 374761393u32);
    let b = vstd::wrapping::u32_specs::wrapping_add(a, y);
    let c = vstd::wrapping::u32_specs::wrapping_mul(b, 668265263u32);
    let n = vstd::wrapping::u32_specs::wrapping_add(c, seed);
    let m = n ^ (n >> 13u32);
    vstd::wrapping::u32_specs::wrapping_mul(m, 1274126177u32) & 0xffffu32
}

/// The terrain that generation puts on cell `(x, y)` of the grid.
///
/// Cells at distance 21 or more from the centre `(25, 25)` are water; inside that
/// disc the noise picks water below 7865, sand below 18350 and grass above.
pub open spec fn generated_terrain(content: &ContentRegistry, x: int, y: int, seed: u32) -> TerrainId {
    let h = noise_bits(x as u32, y as u32, seed);
    if (x - 25) * (x - 25) + (y - 25) * (y - 25) > 440 || h < 7865 {
        content.water_terrain
    } else if h < 18350 {
        content.sand_terrain
    } else {
        content.grass_terrain
    }
}

fn hash_noise(x: u32, y: u32, seed: u32) -> (r: u32)
    ensures
        r == noise_bits(x, y, seed),
{
    let mut n = x.wrapping_mul(374761393u32).wrapping_add(y).wrapping_mul(668265263u32).wrapping_add(
        seed,
    );
    n = (n ^ (n >> 13u32)).wrapping_mul(1274126177u32);
    n & 0xffffu32
}

fn terrain_at(content: &ContentRegistry, x: i32, y: i32, seed: u32) -> (r: TerrainId)
    requires
        0 <= x < WORLD_SIZE,
        0 <= y < WORLD_SIZE,
    ensures
        r == generated_terrain(content, x as int, y as int, seed),
{
    let h = hash_noise(x as u32, y as u32, seed);
    let dx = x - 25;
    let dy = y - 25;
    proof {
        assert(0 <= dx * dx <= 625) by (nonlinear_arith)
            requires
                -25 <= dx <= 25,
        ;
        assert(0 <= dy * dy <= 625) by (nonlinear_arith)
            requires
                -25 <= dy <= 25,
        ;
    }
    let d2 = dx * dx + dy * dy;
    if d2 > 440 || h < 7865 {
        content.water_terrain
    } else if h < 18350 {
        content.sand_terrain
    } else {
        content.grass_terrain
    }
}

/// Generates the world for `seed`: terrain by `generated_terrain`, no buildings.
pub fn generate_world(seed: u32, content: &ContentRegistry) -> (r: WorldGrid)
    requires
        content.wf(),
    ensures
        r.wf(content),
        r.seed == seed,
        forall|x: int, y: int|
            0 <= x < WORLD_SIZE && 0 <= y < WORLD_SIZE ==> #[trigger] r.spec_terrain_at(x, y)
                == Some(generated_terrain(content, x, y, seed)),
        forall|i: int| 0 <= i < GRID_CELLS ==> #[trigger] r.buildings@[i] is None,
{
    let mut terrain: Vec<TerrainId> = Vec::with_capacity(GRID_CELLS);
    let mut y: i32 = 0;
    while y < WORLD_SIZE
        invariant
            0 <= y <= WORLD_SIZE,
            content.wf(),
            terrain@.len() == y * WORLD_SIZE,
            forall|i: int|
                0 <= i < terrain@.len() ==> #[trigger] terrain@[i] == generated_terrain(
                    content,
                    i % WORLD_SIZE as int,
                    i / WORLD_SIZE as int,
                    seed,
                ),
        decreases WORLD_SIZE - y,
    {
        let mut x: i32 = 0;
        while x < WORLD_SIZE
            invariant
                0 <= y < WORLD_SIZE,
                0 <= x <= WORLD_SIZE,
                content.wf(),
                terrain@.len() == y * WORLD_SIZE + x,
                forall|i: int|
                    0 <= i < terrain@.len() ==> #[trigger] terrain@[i] == generated_terrain(
                        content,
                        i % WORLD_SIZE as int,
                        i / WORLD_SIZE as int,
                        seed,
                    ),
            decreases WORLD_SIZE - x,
        {
            let t = terrain_at(content, x, y, seed);
            proof {
                let i = y * WORLD_SIZE + x;
                assert(i % WORLD_SIZE as int == x && i / WORLD_SIZE as int == y) by (nonlinear_arith)
                    requires
                        i == y * 50 + x,
                        0 <= x < 50,
                        0 <= y,
                ;
            }
            terrain.push(t);
            x += 1;
        }
        y += 1;
    }
    let buildings: Vec<Option<BuildingId>> = vec![None; GRID_CELLS];
    let r = WorldGrid { terrain, buildings, seed };
    assert forall|x: int, y: int|
        0 <= x < WORLD_SIZE && 0 <= y < WORLD_SIZE implies #[trigger] r.spec_terrain_at(x, y)
        == Some(generated_terrain(content, x, y, seed)) by {
        let i = y * WORLD_SIZE + x;
        assert(i % WORLD_SIZE as int == x && i / WORLD_SIZE as int == y && 0 <= i < 2500)
            by (nonlinear_arith)
            requires
                i == y * 50 + x,
                0 <= x < 50,
                0 <= y < 50,
        ;
    }
    r
}

} // verus!
