use crate::world::World;
use vstd::prelude::*;

verus! {

/// Terrain that a fresh view paints with: rock.
pub const DEFAULT_BRUSH: u8 = 7;

/// Top-level application state for gameplay.
pub struct GameView {
    pub world: World,
    /// Terrain type that clicks on the map paint with.
    pub terrain_brush: u8,
}

impl GameView {
    pub fn new(world: World) -> (r: GameView)
        ensures
            r.world == world,
            r.terrain_brush == DEFAULT_BRUSH,
    {
        GameView { world, terrain_brush: DEFAULT_BRUSH }
    }
}

} // verus!
