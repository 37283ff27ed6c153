//! The classification of one grid cell.

use vstd::prelude::*;

verus! {

/// What stands on a cell of a floor plan.
#[derive(Clone, Copy, Debug, PartialEq, Eq, Hash, Structural)]
pub enum TileType {
    Floor,
    Wall,
    Stair,
    Elevator,
    Door,
    Exit,
    Alarm,
    Hydrant,
    Detector,
    Furniture,
    Stone,
    SavePlace,
}

impl TileType {
    /// Fire can take hold of furniture and of nothing else.
    pub open spec fn flammable(self) -> bool {
        self == TileType::Furniture
    }

    /// Smoke does not enter walls and exits.
    pub open spec fn blocks_smoke(self) -> bool {
        self == TileType::Wall || self == TileType::Exit
    }

    /// Nobody walks through walls, furniture and stone.
    pub open spec fn blocks_walking(self) -> bool {
        self == TileType::Wall || self == TileType::Furniture || self == TileType::Stone
    }

    /// Someone who has left the building walks on stone, safe places and exits.
    pub open spec fn open_outside(self) -> bool {
        self == TileType::Stone || self == TileType::SavePlace || self == TileType::Exit
    }
}

impl Default for TileType {
    fn default() -> (t: TileType)
        ensures
            t == TileType::Floor,
    {
        TileType::Floor
    }
}

} // verus!
