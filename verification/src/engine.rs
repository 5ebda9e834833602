//! The game: a board, the phase of play, and the count of mines left to flag.

use crate::board::Board;
use crate::error::EngineError;
use crate::grid::BoardView;
use crate::position::{lemma_index_roundtrip, Position};
use crate::tile::{tile_views, Tile, TileState};
use vstd::prelude::*;
use vstd::set_lib::lemma_len_subset;

verus! {

/// The phase of play. `Won` and `Lost` are final.
#[derive(Clone, Copy, PartialEq, Eq, Structural, Debug)]
pub enum GameState {
    Lost,
    Won,
    InProgress,
    FirstMove,
}

/// The game as a mathematical value.
pub struct EngineView {
    pub board: BoardView,
    pub state: GameState,
    /// The number of mines less the number of flags; negative where the
    /// player has set more flags than there are mines.
    pub bombs_left: int,
}

impl EngineView {
    /// The game before the first move.
    pub open spec fn fresh(width: nat, height: nat, num_bombs: nat) -> EngineView {
        EngineView {
            board: BoardView::fresh(width, height, num_bombs),
            state: GameState::FirstMove,
            bombs_left: num_bombs as int,
        }
    }

    /// What holds of a game at all times.
    ///
    /// The board is well formed and its counts are right; the mines left are
    /// the mines less the flags. Before the first move no mine is laid and no
    /// tile revealed. From then on the board holds its full number of mines.
    /// While the game is not lost, none of them is revealed and the counter
    /// of tiles left is the number of concealed tiles; it has come down to
    /// the number of mines exactly when the game is won. A lost game counts
    /// one tile more than are concealed: the mine that was revealed.
    pub open spec fn wf(self) -> bool {
        &&& self.board.wf()
        &&& self.board.counted()
        &&& self.bombs_left == self.board.num_bombs - self.board.flagged().len()
        &&& match self.state {
            GameState::FirstMove => {
                &&& self.board.mines() == Set::<int>::empty()
                &&& self.board.revealed() == Set::<int>::empty()
                &&& self.board.tiles_left == self.board.size()
                &&& self.board.num_bombs < self.board.size()
            },
            GameState::InProgress => {
                &&& self.board.mines().len() == self.board.num_bombs
                &&& self.board.mines().subset_of(self.board.concealed())
                &&& self.board.tiles_left == self.board.concealed().len()
                &&& self.board.tiles_left > self.board.num_bombs
            },
            GameState::Won => {
                &&& self.board.mines().len() == self.board.num_bombs
                &&& self.board.mines().subset_of(self.board.concealed())
                &&& self.board.tiles_left == self.board.concealed().len()
                &&& self.board.tiles_left == self.board.num_bombs
            },
            GameState::Lost => {
                &&& self.board.mines().len() == self.board.num_bombs
                &&& self.board.tiles_left == self.board.concealed().len() + 1
                &&& self.board.tiles_left > self.board.num_bombs
            },
        }
    }

    /// The game after the flag of cell `i` has been toggled: a concealed tile
    /// gains or loses its flag and the mines left follow; a revealed tile
    /// stays as it is. The phase plays no part.
    pub open spec fn after_flag(self, i: int) -> EngineView {
        let tile = self.board.tiles[i];
        EngineView {
            board: self.board.with_tile(i, tile.toggled()),
            bombs_left: match tile.state {
                TileState::Block(true) => self.bombs_left + 1,
                TileState::Block(false) => self.bombs_left - 1,
                TileState::Revealed => self.bombs_left,
            },
            ..self
        }
    }

    /// The game in progress after a reveal at cell `i`. A revealed or
    /// flagged tile stays as it is. A mine is turned face up and the game is
    /// lost, with no other tile touched. Any other tile starts a cascade,
    /// and the game is won if that leaves only the mines concealed.
    pub open spec fn after_reveal(self, i: int) -> EngineView {
        let tile = self.board.tiles[i];
        if !tile.is_untouched() {
            self
        } else if tile.mine {
            EngineView {
                board: self.board.with_tile(i, tile.uncovered()),
                state: GameState::Lost,
                ..self
            }
        } else {
            let board = self.board.cascade(i);
            EngineView {
                board,
                state: if board.tiles_left == board.num_bombs {
                    GameState::Won
                } else {
                    GameState::InProgress
                },
                ..self
            }
        }
    }

    /// The game as the first move finds it once the mines lie under `cells`
    /// and are counted.
    pub open spec fn begun(self, cells: Set<int>) -> EngineView {
        EngineView {
            board: self.board.laid(cells).recounted(),
            state: GameState::InProgress,
            ..self
        }
    }

    /// Toggling a flag keeps a game well formed.
    pub proof fn lemma_flag_wf(self, i: int)
        requires
            self.wf(),
            self.board.has(i),
        ensures
            self.after_flag(i).wf(),
            self.after_flag(i).board.flagged().len() <= self.board.size(),
    {
        let after = self.after_flag(i);
        let tile = self.board.tiles[i];
        self.board.lemma_sets_finite();
        after.board.lemma_sets_finite();
        self.board.lemma_with_tile_counted(i, tile.toggled());
        assert(after.board.concealed() =~= self.board.concealed());
        assert(after.board.revealed() =~= self.board.revealed());
        match tile.state {
            TileState::Block(true) => {
                assert(after.board.flagged() =~= self.board.flagged().remove(i));
            },
            TileState::Block(false) => {
                assert(after.board.flagged() =~= self.board.flagged().insert(i));
            },
            TileState::Revealed => {
                assert(after.board.tiles =~= self.board.tiles);
            },
        }
        assert forall|j: int| after.board.has(j) implies (#[trigger] after.board.tiles[j]).adjacent
            <= 8 by {
            assert(self.board.tiles[j].adjacent <= 8);
        }
    }

    /// A reveal keeps a game in progress well formed.
    pub proof fn lemma_reveal_wf(self, i: int)
        requires
            self.wf(),
            self.state == GameState::InProgress,
            self.board.has(i),
        ensures
            self.after_reveal(i).wf(),
    {
        let after = self.after_reveal(i);
        let tile = self.board.tiles[i];
        self.board.lemma_sets_finite();
        if !tile.is_untouched() {
        } else if tile.mine {
            self.board.lemma_with_tile_counted(i, tile.uncovered());
            assert(after.board.concealed() =~= self.board.concealed().remove(i));
            assert(after.board.flagged() =~= self.board.flagged());
            assert forall|j: int| after.board.has(j) implies (
            #[trigger] after.board.tiles[j]).adjacent <= 8 by {
                assert(self.board.tiles[j].adjacent <= 8);
            }
        } else {
            self.board.lemma_cascade_sets(i);
            self.board.lemma_flood_avoids_mines(i);
            after.board.lemma_sets_finite();
            assert(after.board.mines().subset_of(after.board.concealed()));
            lemma_len_subset(after.board.mines(), after.board.concealed());
        }
    }

    /// Laying and counting the mines for a first move at `c` turns a game
    /// that has not begun into a well-formed game in progress with no mine
    /// in the safe zone of `c`.
    pub proof fn lemma_begun_wf(self, cells: Set<int>, c: int)
        requires
            self.wf(),
            self.state == GameState::FirstMove,
            self.board.has(c),
            self.board.admits(cells, c),
        ensures
            self.begun(cells).wf(),
            self.begun(cells).board.mines() == cells,
            self.begun(cells).board.mines().disjoint(self.board.safe_zone(c)),
    {
        let after = self.begun(cells);
        self.board.lemma_sets_finite();
        assert forall|i: int| self.board.has(i) implies !(#[trigger] self.board.tiles[i]).mine by {
            assert(!self.board.mines().contains(i));
        }
        assert forall|i: int| self.board.has(i) implies (#[trigger] self.board.tiles[i]).adjacent
            == 0 by {
            self.board.lemma_no_mines_around(i, 8);
        }
        self.board.lemma_laid_counted(cells);
        assert forall|i: int| self.board.has(i) implies self.board.concealed().contains(i) by {
            assert(!self.board.revealed().contains(i));
        }
        vstd::set_lib::lemma_int_range(0, self.board.size() as int);
        assert(self.board.concealed() =~= vstd::set_lib::set_int_range(0, self.board.size() as int));
        after.board.lemma_same_shape(self.board);
    }
}

pub struct Engine {
    board: Board,
    state: GameState,
    bombs_left: i64,
}

impl View for Engine {
    type V = EngineView;

    closed spec fn view(&self) -> EngineView {
        EngineView { board: self.board@, state: self.state, bombs_left: self.bombs_left as int }
    }
}

impl Engine {
    /// What every engine that this library hands out satisfies.
    pub open spec fn wf(&self) -> bool {
        self@.wf()
    }

    /// A game on a board of the given size, waiting for its first move. The
    /// mines are laid by that move, away from it. A size that cannot be
    /// stored, or more mines than even a first move at the origin leaves
    /// room for, is refused.
    pub fn new(width: usize, height: usize, num_bombs: usize) -> (made: Result<Engine, EngineError>)
        ensures
            match made {
                Ok(engine) => {
                    &&& BoardView::playable(width as nat, height as nat, num_bombs as nat)
                    &&& engine@ == EngineView::fresh(width as nat, height as nat, num_bombs as nat)
                    &&& engine.wf()
                },
                Err(e) => {
                    &&& e == EngineError::InvalidConfiguration
                    &&& !BoardView::playable(width as nat, height as nat, num_bombs as nat)
                },
            },
    {
        let board = match Board::new(width, height, num_bombs) {
            Ok(board) => board,
            Err(e) => {
                return Err(e);
            },
        };
        proof {
            BoardView::lemma_fresh_wf(width as nat, height as nat, num_bombs as nat);
            assert(0 < width * height) by (nonlinear_arith)
                requires
                    0 < width,
                    0 < height,
            ;
            board@.lemma_safe_zone_finite(0);
            lemma_size_bound(width as nat, height as nat);
        }
        Ok(Engine { board, state: GameState::FirstMove, bombs_left: num_bombs as i64 })
    }

    /// A game in progress on a board whose mines lie where `bombs` says: the
    /// layout is given, not drawn, and no first move is set apart. The
    /// positions must lie on the board, name each cell at most once, and
    /// leave at least one cell free.
    pub fn with_bombs(width: usize, height: usize, bombs: &[Position]) -> (made: Result<
        Engine,
        EngineError,
    >)
        ensures
            match made {
                Ok(engine) => {
                    &&& BoardView::valid_size(width as nat, height as nat)
                    &&& BoardView::all_within(bombs@, width as int, height as int)
                    &&& bombs@.no_duplicates()
                    &&& bombs@.len() < width * height
                    &&& engine@ == EngineView::fresh(width as nat, height as nat, bombs@.len()).begun(
                        BoardView::cells_of(bombs@, width as int),
                    )
                    &&& engine.wf()
                },
                Err(EngineError::OutOfBoundsCoordinate) => {
                    &&& BoardView::valid_size(width as nat, height as nat)
                    &&& !BoardView::all_within(bombs@, width as int, height as int)
                },
                Err(EngineError::InvalidConfiguration) => {
                    ||| !BoardView::valid_size(width as nat, height as nat)
                    ||| {
                        &&& BoardView::all_within(bombs@, width as int, height as int)
                        &&& (bombs@.len() >= width * height || !bombs@.no_duplicates())
                    }
                },
            },
    {
        let board = match Board::with_bombs(width, height, bombs) {
            Ok(board) => board,
            Err(e) => {
                return Err(e);
            },
        };
        proof {
            let fresh = BoardView::fresh(width as nat, height as nat, bombs@.len());
            let cells = BoardView::cells_of(bombs@, width as int);
            BoardView::lemma_fresh_wf(width as nat, height as nat, bombs@.len());
            BoardView::lemma_cells_of_len(bombs@, width as int, height as int);
            fresh.lemma_laid_counted(cells);
            lemma_size_bound(width as nat, height as nat);
        }
        Ok(Engine { board, state: GameState::InProgress, bombs_left: bombs.len() as i64 })
    }

    /// The mines left to flag, for display: never below zero, however many
    /// flags are set.
    pub fn bombs_left(&self) -> (left: usize)
        requires
            self.wf(),
        ensures
            left == if self@.bombs_left < 0 {
                0
            } else {
                self@.bombs_left
            },
    {
        if self.bombs_left < 0 {
            0
        } else {
            self.bombs_left as usize
        }
    }

    pub fn is_lost(&self) -> (lost: bool)
        ensures
            lost == (self@.state == GameState::Lost),
    {
        self.state == GameState::Lost
    }

    pub fn is_won(&self) -> (won: bool)
        ensures
            won == (self@.state == GameState::Won),
    {
        self.state == GameState::Won
    }

    pub fn width(&self) -> (width: usize)
        ensures
            width == self@.board.width,
    {
        self.board.width()
    }

    pub fn height(&self) -> (height: usize)
        ensures
            height == self@.board.height,
    {
        self.board.height()
    }

    /// The phase of play.
    pub fn state(&self) -> (state: GameState)
        ensures
            state == self@.state,
    {
        self.state
    }

    /// Sets or clears the flag of the concealed tile at `pos`, in any phase
    /// of play.
    pub fn flag(&mut self, pos: Position) -> (done: Result<(), EngineError>)
        requires
            old(self).wf(),
        ensures
            final(self).wf(),
            match done {
                Ok(()) => {
                    &&& pos.within(old(self)@.board.width as int, old(self)@.board.height as int)
                    &&& final(self)@ == old(self)@.after_flag(pos.index(old(self)@.board.width as int))
                },
                Err(e) => {
                    &&& e == EngineError::OutOfBoundsCoordinate
                    &&& !pos.within(old(self)@.board.width as int, old(self)@.board.height as int)
                    &&& final(self)@ == old(self)@
                },
            },
    {
        if self.board.position_out_of_bounds(&pos) {
            return Err(EngineError::OutOfBoundsCoordinate);
        }
        let ghost before = self@;
        proof {
            lemma_index_roundtrip(
                pos.0 as int,
                pos.1 as int,
                before.board.width as int,
                before.board.height as int,
            );
            before.lemma_flag_wf(pos.index(before.board.width as int));
            before.board.lemma_sets_finite();
            lemma_size_bound(before.board.width, before.board.height);
        }
        let idx = pos.to_index(self.board.width());
        let mut tile = self.board.tile(idx);
        if tile.is_flagged() {
            self.bombs_left += 1;
        } else if !tile.is_revealed() {
            self.bombs_left -= 1;
        }
        tile.toggle_flag();
        self.board.set_tile(idx, tile);
        Ok(())
    }

    /// Reveals the tile at `pos`.
    ///
    /// A game that is won or lost stays as it is. The first move of a game
    /// lays the mines, none of them on `pos` or around it, and counts them;
    /// it is refused, and nothing laid, where the cells outside that zone
    /// are fewer than the mines. After that a revealed or flagged tile stays
    /// as it is, a mine ends the game, and any other tile starts a cascade
    /// that may win it.
    pub fn reveal_at(&mut self, pos: Position) -> (done: Result<(), EngineError>)
        requires
            old(self).wf(),
        ensures
            final(self).wf(),
            match done {
                Ok(()) => {
                    &&& pos.within(old(self)@.board.width as int, old(self)@.board.height as int)
                    &&& match old(self)@.state {
                        GameState::Won | GameState::Lost => final(self)@ == old(self)@,
                        GameState::InProgress => final(self)@ == old(self)@.after_reveal(
                            pos.index(old(self)@.board.width as int),
                        ),
                        GameState::FirstMove => exists|cells: Set<int>|
                            {
                                &&& #[trigger] old(self)@.board.admits(
                                    cells,
                                    pos.index(old(self)@.board.width as int),
                                )
                                &&& final(self)@ == old(self)@.begun(cells).after_reveal(
                                    pos.index(old(self)@.board.width as int),
                                )
                            },
                    }
                },
                Err(EngineError::OutOfBoundsCoordinate) => {
                    &&& !pos.within(old(self)@.board.width as int, old(self)@.board.height as int)
                    &&& final(self)@ == old(self)@
                },
                Err(EngineError::InvalidConfiguration) => {
                    &&& pos.within(old(self)@.board.width as int, old(self)@.board.height as int)
                    &&& old(self)@.state == GameState::FirstMove
                    &&& !old(self)@.board.has_room(pos.index(old(self)@.board.width as int))
                    &&& final(self)@ == old(self)@
                },
            },
            old(self)@.state == GameState::FirstMove && done.is_ok()
                ==> final(self)@.board.mines().disjoint(
                old(self)@.board.safe_zone(pos.index(old(self)@.board.width as int)),
            ),
    {
        if self.board.position_out_of_bounds(&pos) {
            return Err(EngineError::OutOfBoundsCoordinate);
        }
        if self.is_lost() || self.is_won() {
            return Ok(());
        }
        let ghost before = self@;
        let ghost c = pos.index(before.board.width as int);
        proof {
            lemma_index_roundtrip(
                pos.0 as int,
                pos.1 as int,
                before.board.width as int,
                before.board.height as int,
            );
        }
        let ghost mut cells: Set<int> = Set::empty();
        // the first move is always safe
        if self.state == GameState::FirstMove {
            match self.board.insert_bombs(pos) {
                Ok(()) => {},
                Err(e) => {
                    return Err(e);
                },
            }
            proof {
                cells = self.board@.mines();
                self.board@.lemma_mined_from_laid(before.board, c);
                before.lemma_begun_wf(cells, c);
            }
            self.board.calculate_adjacent_bombs();
            self.state = GameState::InProgress;
            assert(self@ == before.begun(cells));
        }
        let ghost known = self@;
        proof {
            known.lemma_reveal_wf(c);
            known.board.lemma_same_shape(before.board);
            if known.board.tiles[c].is_untouched() && !known.board.tiles[c].mine {
                known.board.lemma_cascade_sets(c);
            }
        }
        let idx = pos.to_index(self.board.width());
        let mut tile = self.board.tile(idx);
        if tile.is_revealed() || tile.is_flagged() {
            return Ok(());
        }
        if tile.is_bomb() {
            tile.uncover();
            self.board.set_tile(idx, tile);
            self.state = GameState::Lost;
            proof {
                assert(self@.board.mines() =~= known.board.mines());
            }
            return Ok(());
        }
        self.board.reveal_tile(pos);

        self.check_win_condition();
        Ok(())
    }

    /// The tiles, row by row, for display.
    pub fn get_tiles(&self) -> (tiles: &[Tile])
        ensures
            tile_views(tiles@) == self@.board.tiles,
    {
        self.board.tiles()
    }

    /// Declares the game won once only the mines are left to reveal.
    fn check_win_condition(&mut self)
        ensures
            final(self)@ == (EngineView {
                state: if old(self)@.board.tiles_left == old(self)@.board.num_bombs {
                    GameState::Won
                } else {
                    old(self)@.state
                },
                ..old(self)@
            }),
    {
        if self.board.tiles_left() == self.board.num_bombs() {
            self.state = GameState::Won;
        }
    }
}

/// A grid whose sides fit a coordinate has fewer than 2^62 cells.
proof fn lemma_size_bound(width: nat, height: nat)
    requires
        width <= i32::MAX,
        height <= i32::MAX,
    ensures
        width * height <= 0x3fff_ffff_0000_0001,
{
    assert(width * height <= 0x7fff_ffff * 0x7fff_ffff) by (nonlinear_arith)
        requires
            width <= 0x7fff_ffff,
            height <= 0x7fff_ffff,
    ;
}

} // verus!
