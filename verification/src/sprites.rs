//! The pictures of the game, by name, and which of them shows a tile.

use crate::engine::GameState;
use crate::tile::{Tile, TileView};
use vstd::prelude::*;
use vstd::std_specs::convert::FromSpecImpl;

verus! {

/// The digit on a revealed tile.
#[derive(Clone, Copy, PartialEq, Eq, Debug)]
pub struct Number(pub u8);

impl From<u32> for Number {
    /// Keeps the low eight bits of `n`.
    fn from(n: u32) -> (number: Number) {
        Number(
            #[verifier::truncate]
            (n as u8),
        )
    }
}

impl FromSpecImpl<u32> for Number {
    open spec fn obeys_from_spec() -> bool {
        true
    }

    open spec fn from_spec(n: u32) -> Number {
        Number(n as u8)
    }
}

impl Number {
    /// The digit `n`, where a tile can show it: a tile has eight neighbours,
    /// and shows no digit for none.
    pub fn new(n: u8) -> (number: Option<Number>)
        ensures
            number == if 1 <= n <= 8 {
                Some(Number(n))
            } else {
                None
            },
    {
        match n {
            1..=8 => Some(Number(n)),
            _ => None,
        }
    }
}

#[derive(Clone, Copy, PartialEq, Eq, Debug)]
pub enum GameMode {
    Easy,
    Medium,
    Hard,
}

#[derive(Clone, Copy, PartialEq, Eq, Debug)]
pub enum BombKind {
    /// The mine that ended the game.
    Clicked,
    /// A flag on a tile that hid no mine, shown once the game is lost.
    FlaggedWrong,
    /// A mine that was never found, shown once the game is lost.
    NotRevealed,
}

#[derive(Clone, Copy, PartialEq, Eq, Debug)]
pub enum BlockKind {
    Revealed,
    Solid,
    Flagged,
}

#[derive(Clone, Copy, PartialEq, Eq, Debug)]
pub enum FaceKind {
    Smile,
    Dead,
    Surprised,
    Cool,
}

#[derive(Clone, Copy, PartialEq, Eq, Debug)]
pub enum Sprite {
    Digit(Number),
    Bomb(BombKind),
    Block(BlockKind),
    Face(FaceKind),
    GameMode(GameMode),
}

impl FaceKind {
    /// The face once the game is in the given phase: cool for a game won,
    /// dead for a game lost, and unchanged while the game goes on.
    pub open spec fn in_state(self, state: GameState) -> FaceKind {
        match state {
            GameState::Won => FaceKind::Cool,
            GameState::Lost => FaceKind::Dead,
            _ => self,
        }
    }

    /// The face to show for the given phase of the game.
    pub fn for_state(self, state: GameState) -> (face: FaceKind)
        ensures
            face == self.in_state(state),
    {
        match state {
            GameState::Won => FaceKind::Cool,
            GameState::Lost => FaceKind::Dead,
            _ => self,
        }
    }
}

/// The picture of a tile.
///
/// A revealed tile shows the mine that was hit, or its count of neighbouring
/// mines, or nothing for a count of zero. A concealed tile looks pressed
/// while the pointer holds it down. Once the game is lost, a concealed mine
/// without flag shows, and so does a flag that was set on a mine-free tile;
/// only a mine without flag looks pressed even then. Otherwise a concealed
/// tile shows its flag or its plain back.
pub open spec fn sprite_for(tile: TileView, lost: bool, pressed: bool) -> Sprite {
    if tile.is_revealed() {
        if tile.mine {
            Sprite::Bomb(BombKind::Clicked)
        } else if tile.adjacent > 0 {
            Sprite::Digit(Number(tile.adjacent as u8))
        } else {
            Sprite::Block(BlockKind::Revealed)
        }
    } else if pressed && tile.mine && !tile.is_flagged() {
        Sprite::Block(BlockKind::Revealed)
    } else if lost && tile.mine && !tile.is_flagged() {
        Sprite::Bomb(BombKind::NotRevealed)
    } else if lost && !tile.mine && tile.is_flagged() {
        Sprite::Bomb(BombKind::FlaggedWrong)
    } else if pressed {
        Sprite::Block(BlockKind::Revealed)
    } else if tile.is_flagged() {
        Sprite::Block(BlockKind::Flagged)
    } else {
        Sprite::Block(BlockKind::Solid)
    }
}

/// Picks the picture for `tile`: `lost` says whether the game is lost,
/// `is_current_tile` whether the pointer holds the tile down.
pub fn tile_sprite(tile: &Tile, lost: bool, is_current_tile: bool) -> (sprite: Sprite)
    ensures
        sprite == sprite_for(tile@, lost, is_current_tile),
{
    if tile.is_revealed() {
        if tile.num_adjacent_bombs() > 0 && !tile.is_bomb() {
            Sprite::Digit(Number::from(tile.num_adjacent_bombs()))
        } else if tile.is_bomb() {
            Sprite::Bomb(BombKind::Clicked)
        } else {
            Sprite::Block(BlockKind::Revealed)
        }
    } else {
        let flag = tile.is_flagged();
        if !flag && tile.is_bomb() && is_current_tile {
            Sprite::Block(BlockKind::Revealed)
        } else if !flag && lost && tile.is_bomb() {
            Sprite::Bomb(BombKind::NotRevealed)
        } else if flag && lost && !tile.is_bomb() {
            Sprite::Bomb(BombKind::FlaggedWrong)
        } else if is_current_tile {
            Sprite::Block(BlockKind::Revealed)
        } else if flag {
            Sprite::Block(BlockKind::Flagged)
        } else {
            Sprite::Block(BlockKind::Solid)
        }
    }
}

} // verus!
