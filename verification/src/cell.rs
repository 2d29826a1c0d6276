use vstd::prelude::*;

verus! {

/// One grid unit of the dungeon map.
///
/// `Void` is unexplored, unreachable space; `Wall` blocks both movement and
/// sight; `Floor` and `Corridor` are walkable and sight-transparent but are
/// drawn differently.
#[derive(Clone, Copy, PartialEq, Eq, Structural, Debug)]
pub enum Cell {
    Void,
    Wall,
    Floor,
    Corridor,
}

impl Cell {
    /// A cell the player may stand on.
    pub open spec fn is_walkable(self) -> bool {
        self == Cell::Floor || self == Cell::Corridor
    }

    /// A cell that stops a sight line (and that a corridor may not cross).
    pub open spec fn blocks_sight(self) -> bool {
        self == Cell::Wall || self == Cell::Void
    }

    /// A cell a corridor search may traverse.
    pub open spec fn is_carveable(self) -> bool {
        self == Cell::Void || self == Cell::Corridor
    }
}

} // verus!
