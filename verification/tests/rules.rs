use rust_sweeper::board::Board;
use rust_sweeper::engine::{Engine, GameState};
use rust_sweeper::error::EngineError;
use rust_sweeper::position::{nth_offset, Position};
use rust_sweeper::tile::{Tile, TileState};

fn states(engine: &Engine) -> Vec<TileState> {
    engine.get_tiles().iter().map(|t| t.state).collect()
}

fn count_revealed(tiles: &[Tile]) -> usize {
    tiles.iter().filter(|t| t.is_revealed()).count()
}

fn count_bombs(tiles: &[Tile]) -> usize {
    tiles.iter().filter(|t| t.is_bomb()).count()
}

/// The number of mines around a cell, counted the slow way.
fn bombs_around(tiles: &[Tile], width: i32, height: i32, x: i32, y: i32) -> u32 {
    let mut n = 0;
    for dy in -1..=1 {
        for dx in -1..=1 {
            let (nx, ny) = (x + dx, y + dy);
            if (dx, dy) != (0, 0) && nx >= 0 && nx < width && ny >= 0 && ny < height {
                if tiles[(ny * width + nx) as usize].is_bomb() {
                    n += 1;
                }
            }
        }
    }
    n
}

fn assert_counts_right(tiles: &[Tile], width: i32, height: i32) {
    for y in 0..height {
        for x in 0..width {
            let tile = &tiles[(y * width + x) as usize];
            let expected = if tile.is_bomb() { 0 } else { bombs_around(tiles, width, height, x, y) };
            assert_eq!(tile.num_adjacent_bombs(), expected, "count at ({}, {})", x, y);
        }
    }
}

#[test]
fn position_and_index_convert_both_ways() {
    let pos = Position::from_index(12, 5);
    assert_eq!((pos.0, pos.1), (2, 2));
    assert_eq!(pos.to_index(5), 12);
    let pos = Position::from_index(47, 30);
    assert_eq!((pos.0, pos.1), (17, 1));
    assert_eq!(Position(29, 15).to_index(30), 479);
    assert_eq!(Position(0, 0).to_index(7), 0);
    for index in 0..24 {
        assert_eq!(Position::from_index(index, 6).to_index(6), index);
    }
}

#[test]
fn position_within_grid() {
    assert!(Position(0, 0).is_within(1, 1));
    assert!(Position(7, 3).is_within(8, 4));
    assert!(!Position(8, 3).is_within(8, 4));
    assert!(!Position(7, 4).is_within(8, 4));
    assert!(!Position(-1, 0).is_within(8, 4));
    assert!(!Position(0, -1).is_within(8, 4));
}

#[test]
fn offsets_go_round_clockwise() {
    let expected = [(-1, -1), (0, -1), (1, -1), (1, 0), (1, 1), (0, 1), (-1, 1), (-1, 0)];
    for k in 0..8 {
        let offset = nth_offset(k);
        assert_eq!((offset.0, offset.1), expected[k]);
    }
    let moved = Position(3, 4) + nth_offset(4);
    assert_eq!((moved.0, moved.1), (4, 5));
    let moved = Position(0, 0) + nth_offset(0);
    assert_eq!((moved.0, moved.1), (-1, -1));
}

#[test]
fn new_engine_is_blank() {
    let engine = Engine::new(30, 16, 99).unwrap();
    assert_eq!(engine.width(), 30);
    assert_eq!(engine.height(), 16);
    assert_eq!(engine.get_tiles().len(), 480);
    assert_eq!(engine.bombs_left(), 99);
    assert!(!engine.is_won());
    assert!(!engine.is_lost());
    for tile in engine.get_tiles() {
        assert_eq!(tile.state, TileState::Block(false));
        assert!(!tile.is_bomb());
        assert!(!tile.is_flagged());
        assert!(!tile.is_revealed());
        assert!(tile.no_adjacent_bombs());
        assert_eq!(tile.num_adjacent_bombs(), 0);
    }
}

#[test]
fn new_refuses_what_cannot_be_played() {
    assert_eq!(Engine::new(0, 5, 0).err(), Some(EngineError::InvalidConfiguration));
    assert_eq!(Engine::new(5, 0, 0).err(), Some(EngineError::InvalidConfiguration));
    assert_eq!(Engine::new(1, 1, 1).err(), Some(EngineError::InvalidConfiguration));
    // a corner and its three neighbours must stay free
    assert_eq!(Engine::new(3, 3, 6).err(), Some(EngineError::InvalidConfiguration));
    assert!(Engine::new(3, 3, 5).is_ok());
    // on a single row the corner has one neighbour
    assert!(Engine::new(5, 1, 3).is_ok());
    assert_eq!(Engine::new(5, 1, 4).err(), Some(EngineError::InvalidConfiguration));
    assert!(Engine::new(1, 1, 0).is_ok());
    // sides beyond the range of a coordinate
    assert_eq!(Engine::new(usize::MAX, 1, 0).err(), Some(EngineError::InvalidConfiguration));
    assert_eq!(Engine::new(1, 0x8000_0000, 0).err(), Some(EngineError::InvalidConfiguration));
    assert_eq!(Board::new(3, 3, 6).err(), Some(EngineError::InvalidConfiguration));
    assert!(Board::new(3, 3, 5).is_ok());
}

#[test]
fn out_of_bounds_is_reported_and_changes_nothing() {
    let mut engine = Engine::new(5, 4, 3).unwrap();
    for pos in [Position(-1, 0), Position(0, -1), Position(5, 0), Position(0, 4), Position(5, 4)] {
        assert_eq!(engine.reveal_at(pos), Err(EngineError::OutOfBoundsCoordinate));
        assert_eq!(engine.flag(pos), Err(EngineError::OutOfBoundsCoordinate));
    }
    assert_eq!(engine.state(), GameState::FirstMove);
    assert_eq!(engine.bombs_left(), 3);
    assert_eq!(count_bombs(engine.get_tiles()), 0);
    assert!(states(&engine).iter().all(|s| *s == TileState::Block(false)));

    let mut engine = Engine::with_bombs(2, 1, &[Position(0, 0)]).unwrap();
    engine.reveal_at(Position(0, 0)).unwrap();
    assert!(engine.is_lost());
    assert_eq!(engine.reveal_at(Position(2, 0)), Err(EngineError::OutOfBoundsCoordinate));
}

#[test]
fn first_move_fills_all_but_its_zone() {
    // 16 cells, 9 of them in the zone of (1, 1): the 7 mines have one place to go
    let mut engine = Engine::new(4, 4, 7).unwrap();
    engine.reveal_at(Position(1, 1)).unwrap();
    let tiles = engine.get_tiles();
    for y in 0..4 {
        for x in 0..4 {
            let tile = &tiles[y * 4 + x];
            assert_eq!(tile.is_bomb(), x == 3 || y == 3, "mine at ({}, {})", x, y);
            assert_eq!(tile.is_revealed(), x < 3 && y < 3, "revealed at ({}, {})", x, y);
        }
    }
    let counts: Vec<u32> = tiles.iter().map(|t| t.num_adjacent_bombs()).collect();
    assert_eq!(counts, vec![0, 0, 2, 0, 0, 0, 3, 0, 2, 3, 5, 0, 0, 0, 0, 0]);
    assert!(engine.is_won());
    assert_eq!(engine.bombs_left(), 7);
}

#[test]
fn first_move_without_room_is_refused() {
    let mut engine = Engine::new(4, 4, 8).unwrap();
    assert_eq!(engine.reveal_at(Position(1, 1)), Err(EngineError::InvalidConfiguration));
    assert_eq!(engine.state(), GameState::FirstMove);
    assert_eq!(count_bombs(engine.get_tiles()), 0);
    assert_eq!(count_revealed(engine.get_tiles()), 0);
    // an edge has a zone of six, a corner one of four
    assert_eq!(engine.reveal_at(Position(1, 0)), Ok(()));
    assert_eq!(count_bombs(engine.get_tiles()), 8);
    assert_ne!(engine.state(), GameState::FirstMove);

    let mut board = Board::new(3, 3, 5).unwrap();
    assert_eq!(board.insert_bombs(Position(1, 1)), Err(EngineError::InvalidConfiguration));
    assert_eq!(count_bombs(board.tiles()), 0);
    assert_eq!(board.insert_bombs(Position(2, 2)), Ok(()));
    assert_eq!(count_bombs(board.tiles()), 5);
    for (x, y) in [(1, 1), (2, 1), (1, 2), (2, 2)] {
        assert!(!board.tiles()[y * 3 + x].is_bomb());
    }
}

#[test]
fn first_move_is_safe_wherever_it_is_made() {
    for round in 0..20 {
        for (x, y) in [(0, 0), (7, 0), (0, 7), (7, 7), (3, 0), (0, 4), (7, 2), (5, 7), (3, 3), (6, 1)] {
            let mut engine = Engine::new(8, 8, 10).unwrap();
            engine.reveal_at(Position(x, y)).unwrap();
            let tiles = engine.get_tiles();
            assert_eq!(count_bombs(tiles), 10, "round {}", round);
            for dy in -1..=1 {
                for dx in -1..=1 {
                    let (nx, ny) = (x + dx, y + dy);
                    if nx >= 0 && nx < 8 && ny >= 0 && ny < 8 {
                        assert!(!tiles[(ny * 8 + nx) as usize].is_bomb());
                    }
                }
            }
            assert!(tiles[(y * 8 + x) as usize].is_revealed());
            assert_eq!(tiles[(y * 8 + x) as usize].num_adjacent_bombs(), 0);
            assert!(!engine.is_lost());
            assert_counts_right(tiles, 8, 8);
            // revealed and concealed make up the board; the mines stay concealed
            let revealed = count_revealed(tiles);
            assert!(revealed >= 1 && 64 - revealed >= 10);
            assert_eq!(engine.is_won(), 64 - revealed == 10);
            assert!(tiles.iter().all(|t| !(t.is_bomb() && t.is_revealed())));
        }
    }
}

#[test]
fn first_move_on_a_flagged_tile_lays_mines_and_reveals_nothing() {
    let mut engine = Engine::new(5, 5, 5).unwrap();
    engine.flag(Position(2, 2)).unwrap();
    assert_eq!(engine.bombs_left(), 4);
    engine.reveal_at(Position(2, 2)).unwrap();
    assert_eq!(engine.state(), GameState::InProgress);
    assert_eq!(count_bombs(engine.get_tiles()), 5);
    assert_eq!(count_revealed(engine.get_tiles()), 0);
    assert!(engine.get_tiles()[12].is_flagged());
    assert_counts_right(engine.get_tiles(), 5, 5);
}

#[test]
fn given_layout_is_laid_and_counted() {
    let bombs = [Position(0, 0), Position(2, 1), Position(3, 2)];
    let engine = Engine::with_bombs(4, 3, &bombs).unwrap();
    assert_eq!(engine.state(), GameState::InProgress);
    assert_eq!(engine.bombs_left(), 3);
    let tiles = engine.get_tiles();
    let mined: Vec<bool> = tiles.iter().map(|t| t.is_bomb()).collect();
    assert_eq!(
        mined,
        vec![true, false, false, false, false, false, true, false, false, false, false, true]
    );
    let counts: Vec<u32> = tiles.iter().map(|t| t.num_adjacent_bombs()).collect();
    assert_eq!(counts, vec![0, 2, 1, 1, 1, 2, 0, 2, 0, 1, 2, 0]);
    assert_eq!(count_revealed(tiles), 0);

    let board = Board::with_bombs(4, 3, &bombs).unwrap();
    assert_eq!(board.width(), 4);
    assert_eq!(board.height(), 3);
    assert_eq!(board.num_bombs(), 3);
    assert_eq!(board.tiles_left(), 12);
    assert_counts_right(board.tiles(), 4, 3);
}

#[test]
fn given_layout_is_checked() {
    assert_eq!(
        Engine::with_bombs(3, 3, &[Position(1, 1), Position(3, 0)]).err(),
        Some(EngineError::OutOfBoundsCoordinate)
    );
    assert_eq!(
        Engine::with_bombs(3, 3, &[Position(0, -1)]).err(),
        Some(EngineError::OutOfBoundsCoordinate)
    );
    assert_eq!(
        Engine::with_bombs(3, 3, &[Position(1, 1), Position(0, 2), Position(1, 1)]).err(),
        Some(EngineError::InvalidConfiguration)
    );
    assert_eq!(
        Engine::with_bombs(2, 1, &[Position(0, 0), Position(1, 0)]).err(),
        Some(EngineError::InvalidConfiguration)
    );
    assert_eq!(
        Engine::with_bombs(0, 3, &[]).err(),
        Some(EngineError::InvalidConfiguration)
    );
    assert!(Engine::with_bombs(2, 1, &[Position(1, 0)]).is_ok());
    assert!(Engine::with_bombs(2, 2, &[]).is_ok());
}

#[test]
fn mine_in_the_middle_of_three_by_three() {
    let mut engine = Engine::with_bombs(3, 3, &[Position(1, 1)]).unwrap();
    for (i, tile) in engine.get_tiles().iter().enumerate() {
        assert_eq!(tile.num_adjacent_bombs(), if i == 4 { 0 } else { 1 });
    }
    // every tile around the mine shows a 1, so none passes the reveal on
    engine.reveal_at(Position(0, 0)).unwrap();
    assert_eq!(count_revealed(engine.get_tiles()), 1);
    assert!(engine.get_tiles()[0].is_revealed());
    assert_eq!(engine.state(), GameState::InProgress);
    for (x, y) in [(1, 0), (2, 0), (0, 1), (2, 1), (0, 2), (1, 2)] {
        engine.reveal_at(Position(x, y)).unwrap();
        assert_eq!(engine.state(), GameState::InProgress);
    }
    engine.reveal_at(Position(2, 2)).unwrap();
    assert_eq!(engine.state(), GameState::Won);
    assert_eq!(count_revealed(engine.get_tiles()), 8);
    assert!(!engine.get_tiles()[4].is_revealed());
    assert!(engine.get_tiles()[4].is_bomb());
}

#[test]
fn cascade_stops_at_the_numbers() {
    // mines down the middle column: the left side opens, the right stays shut
    let bombs = [Position(2, 0), Position(2, 1), Position(2, 2)];
    let mut engine = Engine::with_bombs(5, 3, &bombs).unwrap();
    engine.reveal_at(Position(0, 1)).unwrap();
    let revealed: Vec<bool> = engine.get_tiles().iter().map(|t| t.is_revealed()).collect();
    assert_eq!(
        revealed,
        vec![
            true, true, false, false, false, true, true, false, false, false, true, true, false,
            false, false
        ]
    );
    assert_eq!(engine.state(), GameState::InProgress);
    engine.reveal_at(Position(4, 1)).unwrap();
    assert_eq!(count_revealed(engine.get_tiles()), 12);
    assert_eq!(engine.state(), GameState::Won);
}

#[test]
fn cascade_opens_everything_but_a_far_mine() {
    let mut engine = Engine::with_bombs(5, 5, &[Position(4, 4)]).unwrap();
    engine.reveal_at(Position(0, 0)).unwrap();
    assert_eq!(count_revealed(engine.get_tiles()), 24);
    assert!(!engine.get_tiles()[24].is_revealed());
    assert!(engine.is_won());
}

#[test]
fn flags_block_the_cascade() {
    let mut engine = Engine::with_bombs(5, 1, &[]).unwrap();
    engine.flag(Position(2, 0)).unwrap();
    engine.reveal_at(Position(0, 0)).unwrap();
    assert_eq!(
        states(&engine),
        vec![
            TileState::Revealed,
            TileState::Revealed,
            TileState::Block(true),
            TileState::Block(false),
            TileState::Block(false)
        ]
    );
    assert_eq!(engine.state(), GameState::InProgress);
    // a reveal on the flag itself does nothing
    engine.reveal_at(Position(2, 0)).unwrap();
    assert_eq!(count_revealed(engine.get_tiles()), 2);
    engine.flag(Position(2, 0)).unwrap();
    engine.reveal_at(Position(2, 0)).unwrap();
    assert_eq!(count_revealed(engine.get_tiles()), 5);
    assert!(engine.is_won());

    // a flag in the middle is walked around
    let mut engine = Engine::with_bombs(3, 3, &[]).unwrap();
    engine.flag(Position(1, 1)).unwrap();
    engine.reveal_at(Position(0, 0)).unwrap();
    assert_eq!(count_revealed(engine.get_tiles()), 8);
    assert_eq!(engine.get_tiles()[4].state, TileState::Block(true));
    assert_eq!(engine.state(), GameState::InProgress);
}

#[test]
fn revealing_a_mine_loses_and_touches_nothing_else() {
    let bombs = [Position(0, 0), Position(3, 3)];
    let mut engine = Engine::with_bombs(4, 4, &bombs).unwrap();
    engine.flag(Position(1, 0)).unwrap();
    engine.reveal_at(Position(3, 0)).unwrap();
    let before = states(&engine);
    let left = engine.bombs_left();
    engine.reveal_at(Position(3, 3)).unwrap();
    assert!(engine.is_lost());
    assert!(!engine.is_won());
    let after = states(&engine);
    for i in 0..16 {
        if i == 15 {
            assert_eq!(after[i], TileState::Revealed);
        } else {
            assert_eq!(after[i], before[i]);
        }
    }
    assert_eq!(engine.bombs_left(), left);
}

#[test]
fn nothing_is_revealed_after_the_end() {
    let mut lost = Engine::with_bombs(3, 3, &[Position(1, 1)]).unwrap();
    lost.reveal_at(Position(1, 1)).unwrap();
    assert!(lost.is_lost());
    let before = states(&lost);
    for y in 0..3 {
        for x in 0..3 {
            assert_eq!(lost.reveal_at(Position(x, y)), Ok(()));
        }
    }
    assert_eq!(states(&lost), before);
    assert!(lost.is_lost());

    let mut won = Engine::with_bombs(2, 2, &[Position(1, 1)]).unwrap();
    for (x, y) in [(0, 0), (1, 0), (0, 1)] {
        won.reveal_at(Position(x, y)).unwrap();
    }
    assert!(won.is_won());
    let before = states(&won);
    assert_eq!(won.reveal_at(Position(1, 1)), Ok(()));
    assert_eq!(states(&won), before);
    assert!(won.is_won());
    assert!(!won.is_lost());
}

#[test]
fn flags_are_still_set_after_the_end() {
    let mut engine = Engine::with_bombs(3, 1, &[Position(0, 0)]).unwrap();
    engine.reveal_at(Position(0, 0)).unwrap();
    assert!(engine.is_lost());
    engine.flag(Position(2, 0)).unwrap();
    assert!(engine.get_tiles()[2].is_flagged());
    assert_eq!(engine.bombs_left(), 0);
    assert!(engine.is_lost());
}

#[test]
fn a_lost_game_with_only_mines_concealed_is_not_won() {
    let mut engine = Engine::with_bombs(2, 1, &[Position(0, 0)]).unwrap();
    engine.reveal_at(Position(0, 0)).unwrap();
    assert_eq!(engine.state(), GameState::Lost);
    assert_eq!(count_revealed(engine.get_tiles()), 1);
}

#[test]
fn flagging_twice_restores_tile_and_count() {
    let mut engine = Engine::new(5, 5, 5).unwrap();
    let before = states(&engine);
    engine.flag(Position(4, 1)).unwrap();
    assert_eq!(engine.get_tiles()[9].state, TileState::Block(true));
    assert_eq!(engine.bombs_left(), 4);
    engine.flag(Position(4, 1)).unwrap();
    assert_eq!(states(&engine), before);
    assert_eq!(engine.bombs_left(), 5);
}

#[test]
fn flagging_a_revealed_tile_does_nothing() {
    let mut engine = Engine::with_bombs(3, 3, &[Position(1, 1)]).unwrap();
    engine.reveal_at(Position(0, 0)).unwrap();
    let before = states(&engine);
    engine.flag(Position(0, 0)).unwrap();
    assert_eq!(states(&engine), before);
    assert_eq!(engine.bombs_left(), 1);
}

#[test]
fn mines_left_never_shows_below_zero() {
    let mut engine = Engine::new(3, 3, 1).unwrap();
    engine.flag(Position(0, 0)).unwrap();
    assert_eq!(engine.bombs_left(), 0);
    engine.flag(Position(1, 0)).unwrap();
    engine.flag(Position(2, 0)).unwrap();
    assert_eq!(engine.bombs_left(), 0);
    engine.flag(Position(1, 0)).unwrap();
    engine.flag(Position(0, 0)).unwrap();
    assert_eq!(engine.bombs_left(), 0);
    engine.flag(Position(2, 0)).unwrap();
    assert_eq!(engine.bombs_left(), 1);
}

#[test]
fn won_exactly_when_only_the_mines_are_left() {
    let bombs = [Position(0, 0), Position(1, 0)];
    let mut engine = Engine::with_bombs(3, 2, &bombs).unwrap();
    let mut revealed = 0;
    for (x, y) in [(2, 0), (0, 1), (1, 1), (2, 1)] {
        assert_eq!(engine.is_won(), 6 - revealed == 2);
        engine.reveal_at(Position(x, y)).unwrap();
        revealed += 1;
        assert_eq!(count_revealed(engine.get_tiles()), revealed);
    }
    assert!(engine.is_won());
    assert_eq!(6 - revealed, 2);
}

#[test]
fn single_cell_board_is_won_at_once() {
    let mut engine = Engine::new(1, 1, 0).unwrap();
    engine.reveal_at(Position(0, 0)).unwrap();
    assert!(engine.is_won());
    assert!(engine.get_tiles()[0].is_revealed());
}

#[test]
fn board_lays_counts_and_reveals() {
    let mut board = Board::new(8, 8, 10).unwrap();
    assert_eq!(board.tiles_left(), 64);
    assert!(board.position_out_of_bounds(&Position(8, 0)));
    assert!(board.position_out_of_bounds(&Position(0, -1)));
    assert!(!board.position_out_of_bounds(&Position(7, 7)));
    board.insert_bombs(Position(4, 4)).unwrap();
    assert_eq!(count_bombs(board.tiles()), 10);
    assert!(board.tiles().iter().all(|t| t.num_adjacent_bombs() == 0));
    board.calculate_adjacent_bombs();
    assert_counts_right(board.tiles(), 8, 8);
    board.reveal_tile(Position(4, 4));
    let revealed = count_revealed(board.tiles());
    assert!(revealed >= 9);
    assert_eq!(board.tiles_left(), 64 - revealed);
    assert!(board.tiles().iter().all(|t| !(t.is_bomb() && t.is_revealed())));
    // a second reveal of the same tile finds nothing to do
    board.reveal_tile(Position(4, 4));
    assert_eq!(count_revealed(board.tiles()), revealed);
    assert_eq!(board.tiles_left(), 64 - revealed);

    board.create_tiles();
    assert_eq!(board.tiles().len(), 64);
    assert_eq!(count_bombs(board.tiles()), 0);
    assert_eq!(count_revealed(board.tiles()), 0);
}

#[test]
fn tile_changes_one_thing_at_a_time() {
    let mut tile = Tile::blank();
    assert_eq!(tile.state, TileState::Block(false));
    tile.toggle_flag();
    assert!(tile.is_flagged());
    assert!(!tile.is_revealed());
    tile.toggle_flag();
    assert!(!tile.is_flagged());
    tile.arm();
    assert!(tile.is_bomb());
    tile.set_adjacent_bombs(3);
    assert_eq!(tile.num_adjacent_bombs(), 3);
    assert!(!tile.no_adjacent_bombs());
    tile.uncover();
    assert!(tile.is_revealed());
    assert!(tile.is_bomb());
    tile.toggle_flag();
    assert_eq!(tile.state, TileState::Revealed);
}
