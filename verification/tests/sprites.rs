use rust_sweeper::engine::{Engine, GameState};
use rust_sweeper::position::Position;
use rust_sweeper::sprites::{tile_sprite, BlockKind, BombKind, FaceKind, Number, Sprite};
use rust_sweeper::tile::Tile;

#[test]
fn digits_run_from_one_to_eight() {
    assert_eq!(Number::new(0), None);
    assert_eq!(Number::new(1), Some(Number(1)));
    assert_eq!(Number::new(8), Some(Number(8)));
    assert_eq!(Number::new(9), None);
    assert_eq!(Number::new(255), None);
    assert_eq!(Number::from(7u32), Number(7));
    assert_eq!(Number::from(300u32), Number(44));
}

#[test]
fn face_follows_the_end_of_the_game() {
    assert_eq!(FaceKind::Smile.for_state(GameState::Won), FaceKind::Cool);
    assert_eq!(FaceKind::Surprised.for_state(GameState::Lost), FaceKind::Dead);
    assert_eq!(FaceKind::Surprised.for_state(GameState::InProgress), FaceKind::Surprised);
    assert_eq!(FaceKind::Smile.for_state(GameState::FirstMove), FaceKind::Smile);
}

#[test]
fn concealed_tiles_show_back_flag_or_press() {
    let mut tile = Tile::blank();
    assert_eq!(tile_sprite(&tile, false, false), Sprite::Block(BlockKind::Solid));
    assert_eq!(tile_sprite(&tile, false, true), Sprite::Block(BlockKind::Revealed));
    assert_eq!(tile_sprite(&tile, true, false), Sprite::Block(BlockKind::Solid));
    tile.toggle_flag();
    assert_eq!(tile_sprite(&tile, false, false), Sprite::Block(BlockKind::Flagged));
    assert_eq!(tile_sprite(&tile, false, true), Sprite::Block(BlockKind::Revealed));
    assert_eq!(tile_sprite(&tile, true, false), Sprite::Bomb(BombKind::FlaggedWrong));
    assert_eq!(tile_sprite(&tile, true, true), Sprite::Bomb(BombKind::FlaggedWrong));
}

#[test]
fn mines_show_once_the_game_is_lost() {
    let mut tile = Tile::blank();
    tile.arm();
    assert_eq!(tile_sprite(&tile, false, false), Sprite::Block(BlockKind::Solid));
    assert_eq!(tile_sprite(&tile, true, false), Sprite::Bomb(BombKind::NotRevealed));
    assert_eq!(tile_sprite(&tile, true, true), Sprite::Block(BlockKind::Revealed));
    tile.toggle_flag();
    assert_eq!(tile_sprite(&tile, true, false), Sprite::Block(BlockKind::Flagged));
    assert_eq!(tile_sprite(&tile, true, true), Sprite::Block(BlockKind::Revealed));
    tile.toggle_flag();
    tile.uncover();
    assert_eq!(tile_sprite(&tile, true, false), Sprite::Bomb(BombKind::Clicked));
}

#[test]
fn revealed_tiles_show_their_count() {
    let bombs = [Position(0, 0), Position(1, 0), Position(2, 0)];
    let mut engine = Engine::with_bombs(3, 3, &bombs).unwrap();
    engine.reveal_at(Position(1, 1)).unwrap();
    engine.reveal_at(Position(0, 2)).unwrap();
    let tiles = engine.get_tiles();
    assert_eq!(tile_sprite(&tiles[4], false, false), Sprite::Digit(Number(3)));
    assert_eq!(tile_sprite(&tiles[3], false, false), Sprite::Digit(Number(2)));
    assert_eq!(tile_sprite(&tiles[6], false, false), Sprite::Block(BlockKind::Revealed));
    assert_eq!(tile_sprite(&tiles[6], false, true), Sprite::Block(BlockKind::Revealed));
    assert_eq!(tile_sprite(&tiles[0], false, false), Sprite::Block(BlockKind::Solid));
}
