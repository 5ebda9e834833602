//! What holds of every game, stated over the views that the engine's
//! contracts speak of.

use crate::engine::{Engine, EngineView, GameState};
use crate::grid::BoardView;
use vstd::prelude::*;
use vstd::set_lib::{lemma_int_range, lemma_set_disjoint_lens, set_int_range};

verus! {

/// Every tile is either revealed or concealed, and the concealed tiles are
/// never fewer than the mines; in a game that is won they are exactly as
/// many.
pub proof fn lemma_tile_counts(engine: Engine)
    requires
        engine.wf(),
    ensures
        engine@.board.revealed().len() + engine@.board.concealed().len() == engine@.board.width
            * engine@.board.height,
        engine@.board.concealed().len() >= engine@.board.num_bombs,
        engine@.state == GameState::Won ==> engine@.board.concealed().len()
            == engine@.board.num_bombs,
{
    let board = engine@.board;
    board.lemma_sets_finite();
    lemma_int_range(0, board.size() as int);
    lemma_set_disjoint_lens(board.revealed(), board.concealed());
    assert(board.revealed() + board.concealed() =~= set_int_range(0, board.size() as int));
    if engine@.state == GameState::FirstMove {
        assert(board.concealed() =~= set_int_range(0, board.size() as int)) by {
            assert forall|i: int| board.has(i) implies board.concealed().contains(i) by {
                assert(!board.revealed().contains(i));
            }
        }
    }
}

/// The game is won exactly when the counter of tiles left has come down to
/// the number of mines. Unless the game is lost, that counter is the number
/// of concealed tiles; so a game that is not lost is won exactly when only
/// as many tiles are concealed as there are mines.
pub proof fn lemma_won_iff_only_mines_left(engine: Engine)
    requires
        engine.wf(),
    ensures
        engine@.state == GameState::Won <==> engine@.board.tiles_left == engine@.board.num_bombs,
        engine@.state != GameState::Lost ==> engine@.board.tiles_left
            == engine@.board.concealed().len(),
        engine@.state != GameState::Lost ==> (engine@.state == GameState::Won
            <==> engine@.board.concealed().len() == engine@.board.num_bombs),
{
    let board = engine@.board;
    if engine@.state == GameState::FirstMove {
        lemma_tile_counts(engine);
        assert(board.revealed().len() == 0);
    }
}

/// A reveal in a game in progress wins it exactly when it leaves as many
/// tiles to reveal as there are mines, and then all that is concealed is
/// mines.
pub proof fn lemma_reveal_wins(game: EngineView, i: int)
    requires
        game.wf(),
        game.state == GameState::InProgress,
        game.board.has(i),
    ensures
        game.after_reveal(i).state == GameState::Won <==> game.after_reveal(i).board.tiles_left
            == game.board.num_bombs,
        game.after_reveal(i).state == GameState::Won ==> game.after_reveal(i).board.concealed()
            == game.board.mines(),
{
    let after = game.after_reveal(i);
    game.lemma_reveal_wf(i);
    if after.state == GameState::Won {
        after.board.lemma_sets_finite();
        game.board.lemma_cascade_sets(i);
        vstd::set_lib::lemma_subset_equality(after.board.mines(), after.board.concealed());
    }
}

/// After the first move of a game, neither the tile it was made on nor any
/// tile around it hides a mine, whichever layout was drawn.
pub proof fn lemma_first_move_safe(game: EngineView, cells: Set<int>, c: int, j: int)
    requires
        game.wf(),
        game.state == GameState::FirstMove,
        game.board.has(c),
        game.board.admits(cells, c),
        j == c || game.board.adjacent(c, j),
        game.board.has(j),
    ensures
        !game.begun(cells).after_reveal(c).board.tiles[j].mine,
        game.begun(cells).after_reveal(c).state != GameState::Lost,
{
    let begun = game.begun(cells);
    game.lemma_begun_wf(cells, c);
    assert(game.board.safe_zone(c).contains(j));
    assert(game.board.safe_zone(c).contains(c));
    assert(!begun.board.mines().contains(j));
    assert(!begun.board.mines().contains(c));
    if begun.board.tiles[c].is_untouched() {
        begun.board.lemma_cascade_sets(c);
        assert(begun.after_reveal(c).board.mines().contains(j) == begun.board.mines().contains(j));
    }
}

/// Revealing a mine loses the game at once: the mine is turned face up and
/// every other tile stays as it was.
pub proof fn lemma_mine_loses(game: EngineView, i: int)
    requires
        game.wf(),
        game.state == GameState::InProgress,
        game.board.has(i),
        game.board.tiles[i].is_untouched(),
        game.board.tiles[i].mine,
    ensures
        game.after_reveal(i).state == GameState::Lost,
        game.after_reveal(i).board.tiles[i] == game.board.tiles[i].uncovered(),
        forall|j: int|
            game.board.has(j) && j != i ==> #[trigger] game.after_reveal(i).board.tiles[j]
                == game.board.tiles[j],
        game.after_reveal(i).board.tiles_left == game.board.tiles_left,
        game.after_reveal(i).bombs_left == game.bombs_left,
{
}

/// Toggling the flag of a tile twice leaves the game as it was: the tile,
/// and the count of mines left.
pub proof fn lemma_flag_twice(game: EngineView, i: int)
    requires
        game.wf(),
        game.board.has(i),
    ensures
        game.after_flag(i).after_flag(i) == game,
{
    let twice = game.after_flag(i).after_flag(i);
    assert(twice.board.tiles =~= game.board.tiles);
}

/// A cascade never turns up a flagged tile, nor passes through one: the
/// flagged tiles are the same after it, each as it was.
pub proof fn lemma_flags_block_cascade(board: BoardView, start: int, i: int)
    requires
        board.wf(),
        board.has(i),
        board.tiles[i].is_flagged(),
    ensures
        !board.floods(start, i),
        board.cascade(start).tiles[i] == board.tiles[i],
        board.cascade(start).flagged() == board.flagged(),
        forall|path: Seq<int>, k: int|
            board.flood_path(path) && 0 <= k < path.len() ==> #[trigger] path[k] != i,
{
    if board.floods(start, i) {
        board.lemma_flood_untouched(start, i);
    }
    board.lemma_cascade_sets(start);
}

/// After a cascade a tile is face up exactly if it was before or the
/// cascade reached it, and the cascade reaches its own start exactly if that
/// tile was untouched.
pub proof fn lemma_cascade_reveals_exactly_flood(board: BoardView, start: int, i: int)
    requires
        board.wf(),
        board.has(start),
        board.has(i),
    ensures
        board.cascade(start).tiles[i].is_revealed() <==> board.tiles[i].is_revealed()
            || board.floods(start, i),
        board.floods(start, start) <==> board.tiles[start].is_untouched(),
{
    if board.floods(start, i) {
        board.lemma_flood_untouched(start, i);
    }
    if board.floods(start, start) {
        board.lemma_flood_untouched(start, start);
    }
    if board.tiles[start].is_untouched() {
        board.lemma_flood_start(start);
    }
}

} // verus!
