use vstd::prelude::*;

use crate::grid::Position;

verus! {

/// The animation-relevant lifecycle tag of a tile: freshly spawned, carried
/// over from an earlier move, or grown by a merge during the current move.
#[derive(Debug, Clone, Copy, PartialEq, Eq, Structural)]
pub enum TileState {
    New,
    Static,
    Merged,
}

/// One tile of the board: a number (a positive power of two), a lifecycle
/// tag, and the cell the tile sat in before the move now being rendered.
/// The tag and the remembered position are animation metadata, not identity:
/// two tiles are equal exactly when their numbers are equal.
#[derive(Debug, Clone, Copy)]
pub struct Tile {
    pub number: u64,
    pub state: TileState,
    pub previous_position: Option<Position>,
}

impl Tile {
    /// A freshly spawned tile: the given number, tagged `New`, no history.
    pub fn new(number: u64) -> (t: Tile)
        ensures
            t.number == number,
            t.state == TileState::New,
            t.previous_position is None,
    {
        Tile { number, state: TileState::New, previous_position: None }
    }
}

impl PartialEq for Tile {
    fn eq(&self, other: &Self) -> bool {
        self.number == other.number
    }
}

impl vstd::std_specs::cmp::PartialEqSpecImpl for Tile {
    open spec fn obeys_eq_spec() -> bool {
        true
    }

    open spec fn eq_spec(&self, other: &Self) -> bool {
        self.number == other.number
    }
}

} // verus!
