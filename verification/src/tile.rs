//! One cell of the grid.

use vstd::prelude::*;

verus! {

/// What the player sees of a tile.
#[derive(Clone, Copy, PartialEq, Eq, Structural, Debug)]
pub enum TileState {
    Revealed,
    /// Concealed; the flag is `true` where the player has marked the tile.
    Block(bool),
}

/// A tile as the rules see it: its visibility, whether it hides a mine, and
/// how many of its neighbours do.
pub struct TileView {
    pub state: TileState,
    pub mine: bool,
    pub adjacent: nat,
}

impl TileView {
    pub open spec fn is_revealed(self) -> bool {
        self.state == TileState::Revealed
    }

    pub open spec fn is_flagged(self) -> bool {
        self.state == TileState::Block(true)
    }

    /// Concealed and without a flag: the only tiles a reveal acts on.
    pub open spec fn is_untouched(self) -> bool {
        self.state == TileState::Block(false)
    }

    /// The same tile, turned face up.
    pub open spec fn uncovered(self) -> TileView {
        TileView { state: TileState::Revealed, ..self }
    }

    /// The same tile with its flag flipped; a revealed tile has none to flip.
    pub open spec fn toggled(self) -> TileView {
        match self.state {
            TileState::Block(flag) => TileView { state: TileState::Block(!flag), ..self },
            TileState::Revealed => self,
        }
    }
}

#[derive(Clone, Copy, Debug)]
pub struct Tile {
    pub state: TileState,
    has_bomb: bool,
    adjacent_bombs: u32,
}

impl View for Tile {
    type V = TileView;

    closed spec fn view(&self) -> TileView {
        TileView { state: self.state, mine: self.has_bomb, adjacent: self.adjacent_bombs as nat }
    }
}

/// The tiles of a board as the rules see them.
pub open spec fn tile_views(tiles: Seq<Tile>) -> Seq<TileView> {
    Seq::new(tiles.len(), |i: int| tiles[i]@)
}

impl Tile {
    /// What a tile is before the game has touched it.
    pub open spec fn blank_view() -> TileView {
        TileView { state: TileState::Block(false), mine: false, adjacent: 0 }
    }

    /// A concealed tile without flag or mine.
    pub fn blank() -> (tile: Tile)
        ensures
            tile@ == Self::blank_view(),
    {
        Tile { state: TileState::Block(false), has_bomb: false, adjacent_bombs: 0 }
    }

    pub fn is_bomb(&self) -> (b: bool)
        ensures
            b == self@.mine,
    {
        self.has_bomb
    }

    pub fn num_adjacent_bombs(&self) -> (n: u32)
        ensures
            n == self@.adjacent,
    {
        self.adjacent_bombs
    }

    pub fn no_adjacent_bombs(&self) -> (b: bool)
        ensures
            b == (self@.adjacent == 0),
    {
        self.adjacent_bombs == 0
    }

    pub fn is_flagged(&self) -> (b: bool)
        ensures
            b == self@.is_flagged(),
    {
        match self.state {
            TileState::Block(true) => true,
            _ => false,
        }
    }

    pub fn is_revealed(&self) -> (b: bool)
        ensures
            b == self@.is_revealed(),
    {
        self.state == TileState::Revealed
    }

    /// Buries a mine under the tile.
    pub fn arm(&mut self)
        ensures
            final(self)@ == (TileView { mine: true, ..old(self)@ }),
    {
        self.has_bomb = true;
    }

    /// Records how many neighbours hide a mine.
    pub fn set_adjacent_bombs(&mut self, count: u32)
        ensures
            final(self)@ == (TileView { adjacent: count as nat, ..old(self)@ }),
    {
        self.adjacent_bombs = count;
    }

    /// Turns the tile face up.
    pub fn uncover(&mut self)
        ensures
            final(self)@ == old(self)@.uncovered(),
    {
        self.state = TileState::Revealed;
    }

    /// Flips the flag of a concealed tile and leaves a revealed one alone.
    pub fn toggle_flag(&mut self)
        ensures
            final(self)@ == old(self)@.toggled(),
    {
        self.state = match self.state {
            TileState::Block(flag) => TileState::Block(!flag),
            TileState::Revealed => TileState::Revealed,
        };
    }
}

} // verus!
