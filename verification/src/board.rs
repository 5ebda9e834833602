//! The grid of tiles: laying mines, counting them, and revealing.

use crate::error::EngineError;
use crate::grid::BoardView;
use crate::position::{lemma_index_roundtrip, nth_offset, Position};
use crate::random::random_below;
use crate::tile::{tile_views, Tile};
use std::collections::VecDeque;
use vstd::prelude::*;

verus! {

pub struct Board {
    width: usize,
    height: usize,
    tiles: Vec<Tile>,
    tiles_left: usize,
    num_bombs: usize,
}

impl View for Board {
    type V = BoardView;

    closed spec fn view(&self) -> BoardView {
        BoardView {
            width: self.width as nat,
            height: self.height as nat,
            tiles: tile_views(self.tiles@),
            tiles_left: self.tiles_left as nat,
            num_bombs: self.num_bombs as nat,
        }
    }
}

/// The number of cells of a grid, where the grid can be stored.
fn grid_size(width: usize, height: usize) -> (total: Option<usize>)
    ensures
        match total {
            Some(cells) => BoardView::valid_size(width as nat, height as nat) && cells == width
                * height,
            None => !BoardView::valid_size(width as nat, height as nat),
        },
{
    if width == 0 || height == 0 || width > i32::MAX as usize || height > i32::MAX as usize {
        return None;
    }
    width.checked_mul(height)
}

impl Board {
    /// A board of the given size, every tile concealed and none mined. The
    /// mines are laid at the first move; a configuration that leaves them no
    /// room even for a first move at the origin is refused.
    pub fn new(width: usize, height: usize, num_bombs: usize) -> (made: Result<Board, EngineError>)
        ensures
            match made {
                Ok(board) => {
                    &&& BoardView::playable(width as nat, height as nat, num_bombs as nat)
                    &&& board@ == BoardView::fresh(width as nat, height as nat, num_bombs as nat)
                    &&& board@.wf()
                },
                Err(e) => {
                    &&& e == EngineError::InvalidConfiguration
                    &&& !BoardView::playable(width as nat, height as nat, num_bombs as nat)
                },
            },
    {
        let total = match grid_size(width, height) {
            Some(cells) => cells,
            None => {
                return Err(EngineError::InvalidConfiguration);
            },
        };
        let across: usize = if width >= 2 { 2 } else { 1 };
        let down: usize = if height >= 2 { 2 } else { 1 };
        proof {
            BoardView::fresh(width as nat, height as nat, num_bombs as nat).lemma_corner_zone();
            assert(across * down <= width * height) by (nonlinear_arith)
                requires
                    1 <= across <= width,
                    1 <= down <= height,
            ;
            assert(across * down <= 4) by (nonlinear_arith)
                requires
                    1 <= across <= 2,
                    1 <= down <= 2,
            ;
        }
        if num_bombs > total - across * down {
            return Err(EngineError::InvalidConfiguration);
        }
        let mut board = Board { width, height, tiles: Vec::new(), tiles_left: total, num_bombs };
        board.create_tiles();
        proof {
            BoardView::lemma_fresh_wf(width as nat, height as nat, num_bombs as nat);
        }
        Ok(board)
    }

    /// A board with its mines laid where `bombs` says and counted: the
    /// layout is given, not drawn. The positions must lie on the board, name
    /// each cell at most once, and leave at least one cell free.
    pub fn with_bombs(width: usize, height: usize, bombs: &[Position]) -> (made: Result<
        Board,
        EngineError,
    >)
        ensures
            match made {
                Ok(board) => {
                    &&& BoardView::valid_size(width as nat, height as nat)
                    &&& BoardView::all_within(bombs@, width as int, height as int)
                    &&& bombs@.no_duplicates()
                    &&& bombs@.len() < width * height
                    &&& board@ == BoardView::fresh(
                        width as nat,
                        height as nat,
                        bombs@.len(),
                    ).laid(BoardView::cells_of(bombs@, width as int)).recounted()
                    &&& board@.wf()
                },
                Err(EngineError::OutOfBoundsCoordinate) => {
                    &&& BoardView::valid_size(width as nat, height as nat)
                    &&& !BoardView::all_within(bombs@, width as int, height as int)
                },
                Err(EngineError::InvalidConfiguration) => {
                    ||| !BoardView::valid_size(width as nat, height as nat)
                    ||| {
                        &&& BoardView::all_within(bombs@, width as int, height as int)
                        &&& (bombs@.len() >= width * height || !bombs@.no_duplicates())
                    }
                },
            },
    {
        let total = match grid_size(width, height) {
            Some(cells) => cells,
            None => {
                return Err(EngineError::InvalidConfiguration);
            },
        };
        let mut board = Board {
            width,
            height,
            tiles: Vec::new(),
            tiles_left: total,
            num_bombs: bombs.len(),
        };
        board.create_tiles();
        let ghost fresh = board@;
        let ghost w = width as int;
        let mut m: usize = 0;
        while m < bombs.len()
            invariant
                m <= bombs@.len(),
                w == width,
                BoardView::valid_size(width as nat, height as nat),
                board@ == fresh,
                fresh.width == width,
                fresh.height == height,
                forall|n: int| 0 <= n < m ==> (#[trigger] bombs@[n]).within(w, height as int),
            decreases bombs@.len() - m,
        {
            if board.position_out_of_bounds(&bombs[m]) {
                assert(!bombs@[m as int].within(w, height as int));
                return Err(EngineError::OutOfBoundsCoordinate);
            }
            m += 1;
        }
        if bombs.len() >= total {
            return Err(EngineError::InvalidConfiguration);
        }
        proof {
            BoardView::lemma_fresh_wf(width as nat, height as nat, bombs@.len());
            assert(fresh.laid(BoardView::cells_of(bombs@.take(0), w)).tiles =~= fresh.tiles);
        }
        m = 0;
        while m < bombs.len()
            invariant
                m <= bombs@.len(),
                w == width,
                BoardView::valid_size(width as nat, height as nat),
                fresh == BoardView::fresh(width as nat, height as nat, bombs@.len()),
                BoardView::all_within(bombs@, w, height as int),
                board@ == fresh.laid(BoardView::cells_of(bombs@.take(m as int), w)),
                forall|a: int, b: int| 0 <= a < b < m ==> bombs@[a] != bombs@[b],
            decreases bombs@.len() - m,
        {
            let ghost laid_cells = BoardView::cells_of(bombs@.take(m as int), w);
            let ghost next_cells = BoardView::cells_of(bombs@.take(m + 1), w);
            let ghost current = board@;
            let pos = bombs[m];
            proof {
                assert(bombs@[m as int].within(w, height as int));
                lemma_index_roundtrip(pos.0 as int, pos.1 as int, w, height as int);
            }
            let idx = pos.to_index(width);
            let mut tile = board.tile(idx);
            if tile.is_bomb() {
                proof {
                    assert(laid_cells.contains(idx as int));
                    let a = choose|a: int|
                        0 <= a < bombs@.take(m as int).len() && (#[trigger] bombs@.take(
                            m as int,
                        )[a]).index(w) == idx;
                    assert(bombs@.take(m as int)[a] == bombs@[a]);
                    assert(bombs@[a].within(w, height as int));
                    BoardView::lemma_index_injective(bombs@[a], pos, w, height as int);
                    assert(bombs@[a] == bombs@[m as int]);
                }
                return Err(EngineError::InvalidConfiguration);
            }
            tile.arm();
            board.set_tile(idx, tile);
            proof {
                assert(!laid_cells.contains(idx as int));
                assert forall|a: int| 0 <= a < m implies bombs@[a] != bombs@[m as int] by {
                    if bombs@[a] == bombs@[m as int] {
                        assert(bombs@.take(m as int)[a].index(w) == idx);
                        assert(laid_cells.contains(idx as int));
                    }
                }
                assert forall|i: int| next_cells.contains(i) <==> laid_cells.insert(
                    idx as int,
                ).contains(i) by {
                    if next_cells.contains(i) {
                        let a = choose|a: int|
                            0 <= a < bombs@.take(m + 1).len() && (#[trigger] bombs@.take(
                                m + 1,
                            )[a]).index(w) == i;
                        if a < m {
                            assert(bombs@.take(m as int)[a] == bombs@.take(m + 1)[a]);
                        }
                    }
                    if laid_cells.contains(i) {
                        let a = choose|a: int|
                            0 <= a < bombs@.take(m as int).len() && (#[trigger] bombs@.take(
                                m as int,
                            )[a]).index(w) == i;
                        assert(bombs@.take(m + 1)[a] == bombs@.take(m as int)[a]);
                    }
                    if i == idx {
                        assert(bombs@.take(m + 1)[m as int].index(w) == idx);
                    }
                }
                assert(board@.tiles =~= fresh.laid(next_cells).tiles);
            }
            m += 1;
        }
        proof {
            assert(bombs@.take(m as int) =~= bombs@);
            assert(board@.concealed() =~= fresh.concealed());
            assert(board@.wf());
        }
        board.calculate_adjacent_bombs();
        Ok(board)
    }

    /// Makes every tile concealed again, without flag, mine or count.
    pub fn create_tiles(&mut self)
        requires
            old(self)@.width * old(self)@.height <= usize::MAX,
        ensures
            final(self)@ == (BoardView {
                tiles: BoardView::fresh(old(self)@.width, old(self)@.height, 0).tiles,
                ..old(self)@
            }),
    {
        let total = self.width * self.height;
        let mut tiles: Vec<Tile> = Vec::with_capacity(total);
        let mut i: usize = 0;
        while i < total
            invariant
                i <= total,
                tiles@.len() == i,
                forall|j: int| 0 <= j < i ==> (#[trigger] tiles@[j])@ == Tile::blank_view(),
            decreases total - i,
        {
            tiles.push(Tile::blank());
            i += 1;
        }
        self.tiles = tiles;
        assert(self@.tiles =~= BoardView::fresh(old(self)@.width, old(self)@.height, 0).tiles);
    }

    pub fn width(&self) -> (width: usize)
        ensures
            width == self@.width,
    {
        self.width
    }

    pub fn height(&self) -> (height: usize)
        ensures
            height == self@.height,
    {
        self.height
    }

    /// The tiles still to be revealed before the game is won, mines included.
    pub fn tiles_left(&self) -> (left: usize)
        ensures
            left == self@.tiles_left,
    {
        self.tiles_left
    }

    pub fn num_bombs(&self) -> (bombs: usize)
        ensures
            bombs == self@.num_bombs,
    {
        self.num_bombs
    }

    /// The tiles, row by row.
    pub fn tiles(&self) -> (tiles: &[Tile])
        ensures
            tile_views(tiles@) == self@.tiles,
    {
        self.tiles.as_slice()
    }

    /// Whether `pos` names no cell of this board.
    pub fn position_out_of_bounds(&self, pos: &Position) -> (out: bool)
        ensures
            out == !pos.within(self@.width as int, self@.height as int),
    {
        !pos.is_within(self.width, self.height)
    }

    /// Replaces the tile of cell `idx`.
    pub(crate) fn set_tile(&mut self, idx: usize, tile: Tile)
        requires
            idx < old(self)@.tiles.len(),
        ensures
            final(self)@ == old(self)@.with_tile(idx as int, tile@),
    {
        self.tiles.set(idx, tile);
        assert(self@.tiles =~= old(self)@.with_tile(idx as int, tile@).tiles);
    }

    /// The tile of cell `idx`.
    pub(crate) fn tile(&self, idx: usize) -> (tile: Tile)
        requires
            idx < self@.tiles.len(),
        ensures
            tile@ == self@.tiles[idx as int],
    {
        self.tiles[idx]
    }

    /// Lays `num_bombs` mines on a board that has none, each on a cell drawn
    /// at random among those that are still free: outside the safe zone of
    /// `safe_position` and not yet mined. Where the free cells are fewer than
    /// the mines, nothing is laid.
    pub fn insert_bombs(&mut self, safe_position: Position) -> (laid: Result<(), EngineError>)
        requires
            old(self)@.wf(),
            old(self)@.mines().is_empty(),
            safe_position.within(old(self)@.width as int, old(self)@.height as int),
        ensures
            final(self)@.wf(),
            match laid {
                Ok(()) => final(self)@.mined_from(
                    old(self)@,
                    safe_position.index(old(self)@.width as int),
                ),
                Err(e) => {
                    &&& e == EngineError::InvalidConfiguration
                    &&& !old(self)@.has_room(safe_position.index(old(self)@.width as int))
                    &&& final(self)@ == old(self)@
                },
            },
    {
        let ghost before = self@;
        let ghost c = safe_position.index(before.width as int);
        proof {
            lemma_index_roundtrip(
                safe_position.0 as int,
                safe_position.1 as int,
                before.width as int,
                before.height as int,
            );
            before.lemma_safe_zone_finite(c);
        }
        let mut rng = rand::rng();
        let mut bombs_placed: usize = 0;

        let mut safe_idxs: Vec<usize> = Vec::new();
        safe_idxs.push(safe_position.to_index(self.width));
        assert(safe_idxs@[0] == c);
        let mut k: usize = 0;
        while k < 8
            invariant
                k <= 8,
                self@ == before,
                before.wf(),
                safe_position.within(before.width as int, before.height as int),
                c == safe_position.index(before.width as int),
                c % (before.width as int) == safe_position.0,
                c / (before.width as int) == safe_position.1,
                listed(safe_idxs@, c),
                forall|m: int|
                    0 <= m < safe_idxs@.len() ==> before.safe_zone(c).contains(
                        #[trigger] safe_idxs@[m] as int,
                    ),
                forall|d: int|
                    0 <= d < k ==> (#[trigger] before.neighbor(c, d) matches Some(j) ==> listed(
                        safe_idxs@,
                        j,
                    )),
            decreases 8 - k,
        {
            let pos = safe_position + nth_offset(k);
            if !self.position_out_of_bounds(&pos) {
                proof {
                    lemma_index_roundtrip(
                        pos.0 as int,
                        pos.1 as int,
                        before.width as int,
                        before.height as int,
                    );
                    assert(before.neighbor(c, k as int) == Some(pos.index(before.width as int)));
                }
                let ghost listed_before = safe_idxs@;
                safe_idxs.push(pos.to_index(self.width));
                proof {
                    assert(safe_idxs@[safe_idxs@.len() - 1] == pos.index(before.width as int));
                    assert forall|j: int| listed(listed_before, j) implies listed(safe_idxs@, j) by {
                        let m = choose|m: int| 0 <= m < listed_before.len() && listed_before[m] == j;
                        assert(safe_idxs@[m] == j);
                    }
                }
            }
            k += 1;
        }
        proof {
            assert forall|j: int| before.safe_zone(c).contains(j) implies listed(safe_idxs@, j) by {
                if j != c {
                    let d = choose|d: int| 0 <= d < 8 && #[trigger] before.neighbor(c, d) == Some(j);
                    assert(before.neighbor(c, d) matches Some(j2) ==> listed(safe_idxs@, j2));
                }
            }
        }

        let total = self.tiles.len();
        let mut free: Vec<usize> = Vec::new();
        let mut idx: usize = 0;
        assert(safe_zone_below(before, c, 0) =~= Set::empty());
        while idx < total
            invariant
                idx <= total,
                total == before.size(),
                self@ == before,
                before.wf(),
                forall|j: int| before.safe_zone(c).contains(j) <==> listed(safe_idxs@, j),
                forall|m: int|
                    0 <= m < free@.len() ==> (#[trigger] free@[m]) < idx && !before.safe_zone(
                        c,
                    ).contains(free@[m] as int),
                forall|a: int, b: int|
                    0 <= a < b < free@.len() ==> (#[trigger] free@[a]) != (#[trigger] free@[b]),
                safe_zone_below(before, c, idx as int).finite(),
                free@.len() + safe_zone_below(before, c, idx as int).len() == idx,
            decreases total - idx,
        {
            let ghost seen = safe_zone_below(before, c, idx as int);
            let ghost seen_next = safe_zone_below(before, c, idx + 1);
            if holds(&safe_idxs, idx) {
                proof {
                    assert(seen_next =~= seen.insert(idx as int));
                }
            } else {
                free.push(idx);
                proof {
                    assert(seen_next =~= seen);
                }
            }
            idx += 1;
        }
        proof {
            assert(safe_zone_below(before, c, idx as int) =~= before.safe_zone(c));
        }
        if self.num_bombs > free.len() {
            return Err(EngineError::InvalidConfiguration);
        }
        proof {
            before.lemma_sets_finite();
            assert forall|i: int| before.has(i) implies !(#[trigger] before.tiles[i]).mine by {
                assert(!before.mines().contains(i));
            }
        }
        while bombs_placed < self.num_bombs
            invariant
                bombs_placed <= self.num_bombs,
                before.wf(),
                before.has_room(c),
                self@.width == before.width,
                self@.height == before.height,
                self@.tiles_left == before.tiles_left,
                self@.num_bombs == before.num_bombs,
                self@.tiles.len() == before.tiles.len(),
                forall|i: int|
                    before.has(i) ==> (#[trigger] self@.tiles[i]).state == before.tiles[i].state
                        && self@.tiles[i].adjacent == before.tiles[i].adjacent,
                self@.mines().finite(),
                self@.mines().len() == bombs_placed,
                forall|i: int|
                    before.has(i) && (#[trigger] self@.tiles[i]).mine ==> !before.safe_zone(
                        c,
                    ).contains(i),
                forall|m: int|
                    0 <= m < free@.len() ==> before.has(#[trigger] free@[m] as int)
                        && !before.safe_zone(c).contains(free@[m] as int)
                        && !self@.tiles[free@[m] as int].mine,
                forall|a: int, b: int|
                    0 <= a < b < free@.len() ==> (#[trigger] free@[a]) != (#[trigger] free@[b]),
                free@.len() + bombs_placed + before.safe_zone(c).len() == before.size(),
            decreases self.num_bombs - bombs_placed,
        {
            let ghost current = self@;
            let ghost free_before = free@;
            let pick = random_below(&mut rng, free.len());
            let idx = free.swap_remove(pick);
            let mut tile = self.tile(idx);
            tile.arm();
            self.set_tile(idx, tile);
            bombs_placed += 1;
            proof {
                assert(self@.mines() =~= current.mines().insert(idx as int));
                assert forall|m: int| 0 <= m < free@.len() implies before.has(
                    #[trigger] free@[m] as int,
                ) && !before.safe_zone(c).contains(free@[m] as int) && !self@.tiles[free@[m] as int].mine by {
                    if m == pick {
                        assert(free@[m] == free_before[free_before.len() - 1]);
                    } else {
                        assert(free@[m] == free_before[m]);
                    }
                }
                assert forall|a: int, b: int| 0 <= a < b < free@.len() implies (#[trigger] free@[a])
                    != (#[trigger] free@[b]) by {
                    let a0 = if a == pick { free_before.len() - 1 } else { a };
                    let b0 = if b == pick { free_before.len() - 1 } else { b };
                    assert(free@[a] == free_before[a0]);
                    assert(free@[b] == free_before[b0]);
                }
            }
        }
        proof {
            assert(self@.concealed() =~= before.concealed());
            assert(self@.mines().disjoint(before.safe_zone(c)));
        }
        Ok(())
    }

    /// Writes on every mine-free tile the number of mines around it.
    pub fn calculate_adjacent_bombs(&mut self)
        requires
            old(self)@.wf(),
        ensures
            final(self)@ == old(self)@.recounted(),
            final(self)@.wf(),
    {
        let ghost before = self@;
        let ghost goal = before.recounted();
        let mut y: usize = 0;
        while y < self.height
            invariant
                y <= self.height,
                before.wf(),
                self@.width == before.width,
                self@.height == before.height,
                self@.tiles_left == before.tiles_left,
                self@.num_bombs == before.num_bombs,
                self@.tiles.len() == before.tiles.len(),
                goal == before.recounted(),
                forall|i: int|
                    before.has(i) ==> (#[trigger] self@.tiles[i]) == if i < y * before.width {
                        goal.tiles[i]
                    } else {
                        before.tiles[i]
                    },
            decreases self.height - y,
        {
            let mut x: usize = 0;
            while x < self.width
                invariant
                    x <= self.width,
                    y < self.height,
                    before.wf(),
                    self@.width == before.width,
                    self@.height == before.height,
                    self@.tiles_left == before.tiles_left,
                    self@.num_bombs == before.num_bombs,
                    self@.tiles.len() == before.tiles.len(),
                    goal == before.recounted(),
                    forall|i: int|
                        before.has(i) ==> (#[trigger] self@.tiles[i]) == if i < y * before.width
                            + x {
                            goal.tiles[i]
                        } else {
                            before.tiles[i]
                        },
                decreases self.width - x,
            {
                let pos = Position(x as i32, y as i32);
                proof {
                    lemma_index_roundtrip(x as int, y as int, before.width as int, before.height as int);
                }
                let idx = pos.to_index(self.width);
                let ghost current = self@;
                if !self.tile(idx).is_bomb() {
                    let mut count: u32 = 0;
                    let mut k: usize = 0;
                    while k < 8
                        invariant
                            k <= 8,
                            before.wf(),
                            self@ == current,
                            current.width == before.width,
                            current.height == before.height,
                            current.tiles.len() == before.tiles.len(),
                            forall|i: int|
                                before.has(i) ==> (#[trigger] current.tiles[i]).mine
                                    == before.tiles[i].mine,
                            pos.within(before.width as int, before.height as int),
                            idx == pos.index(before.width as int),
                            (idx as int) % (before.width as int) == pos.0,
                            (idx as int) / (before.width as int) == pos.1,
                            count == before.mines_around_upto(idx as int, k as nat),
                            count <= k,
                        decreases 8 - k,
                    {
                        let adj_pos = pos + nth_offset(k);
                        if !self.position_out_of_bounds(&adj_pos) {
                            proof {
                                lemma_index_roundtrip(
                                    adj_pos.0 as int,
                                    adj_pos.1 as int,
                                    before.width as int,
                                    before.height as int,
                                );
                            }
                            let adj_idx = adj_pos.to_index(self.width);
                            assert(before.neighbor(idx as int, k as int) == Some(adj_idx as int));
                            if self.tile(adj_idx).is_bomb() {
                                count += 1;
                            }
                        } else {
                            assert(before.neighbor(idx as int, k as int).is_none());
                        }
                        k += 1;
                    }
                    let mut tile = self.tile(idx);
                    tile.set_adjacent_bombs(count);
                    self.set_tile(idx, tile);
                }
                x += 1;
            }
            proof {
                assert(y * before.width + before.width == (y + 1) * before.width) by (nonlinear_arith);
            }
            y += 1;
        }
        proof {
            assert(self@.tiles =~= goal.tiles) by {
                assert forall|i: int| 0 <= i < goal.tiles.len() implies self@.tiles[i]
                    == goal.tiles[i] by {
                    assert(i < before.height * before.width) by (nonlinear_arith)
                        requires
                            i < before.width * before.height,
                    ;
                }
            }
            before.lemma_recounted_wf();
        }
    }

    /// Reveals the tile at `pos` and, from every revealed tile with no mine
    /// around it, its neighbours in turn. Revealed and flagged tiles stay as
    /// they are and pass nothing on.
    pub fn reveal_tile(&mut self, pos: Position)
        requires
            old(self)@.wf(),
            pos.within(old(self)@.width as int, old(self)@.height as int),
        ensures
            final(self)@ == old(self)@.cascade(pos.index(old(self)@.width as int)),
            final(self)@.wf(),
    {
        let ghost before = self@;
        let ghost w = before.width as int;
        let ghost start = pos.index(w);
        proof {
            lemma_index_roundtrip(pos.0 as int, pos.1 as int, w, before.height as int);
            before.lemma_sets_finite();
            if before.tiles[start].is_untouched() {
                before.lemma_flood_start(start);
            }
            assert(newly_revealed(before, before) =~= Set::empty());
        }
        let mut queue: VecDeque<Position> = VecDeque::new();
        queue.push_back(pos);
        assert(queue@[0] == pos);

        while queue.len() > 0
            invariant
                before.wf(),
                before.has(start),
                w == before.width,
                self@.wf(),
                self@.width == before.width,
                self@.height == before.height,
                self@.num_bombs == before.num_bombs,
                self@.tiles.len() == before.tiles.len(),
                turned_up(before, self@, start),
                sound_queue(before, queue@, start),
                !self@.tiles[start].is_untouched() || queued(queue@, w, start),
                forall|i: int, k: int|
                    0 <= k < 8 && before.spreads(i) && self@.tiles[i].is_revealed()
                        ==> match #[trigger] before.neighbor(i, k) {
                        Some(j) => !self@.tiles[j].is_untouched() || queued(queue@, w, j),
                        None => true,
                    },
                newly_revealed(before, self@).finite(),
                self@.tiles_left + newly_revealed(before, self@).len() == before.tiles_left,
            decreases self@.untouched().len(), queue@.len(),
        {
            let ghost queue_before = queue@;
            let ghost current = self@;
            let pos = queue.pop_front().unwrap();
            assert(pos == queue_before[0]);
            proof {
                lemma_index_roundtrip(pos.0 as int, pos.1 as int, w, before.height as int);
                current.lemma_sets_finite();
                assert forall|j: int|
                    queued(queue_before, w, j) && j != pos.index(w) implies queued(
                    queue@,
                    w,
                    j,
                ) by {
                    lemma_queued_pop(queue_before, w, j);
                }
                assert forall|m: int| 0 <= m < queue@.len() implies (#[trigger] queue@[m])
                    == queue_before[m + 1] by {}
                assert forall|i: int, k: int|
                    0 <= k < 8 && before.spreads(i) && current.tiles[i].is_revealed()
                        implies match #[trigger] before.neighbor(i, k) {
                        Some(j) => before.has(j) && (!current.tiles[j].is_untouched() || queued(
                            queue@,
                            w,
                            j,
                        ) || j == pos.index(w)),
                        None => true,
                    } by {
                    before.lemma_neighbor_has(i, k);
                }
            }
            let idx = pos.to_index(self.width);
            let mut tile = self.tile(idx);
            if !(tile.is_revealed() || tile.is_flagged()) {
                assert(before.tiles[idx as int].is_untouched());
                assert(before.floods(start, idx as int));
                assert(current.concealed().contains(idx as int));
                assert(current.concealed().len() >= 1) by {
                    if current.concealed().len() == 0 {
                        current.concealed().lemma_len0_is_empty();
                    }
                }
                tile.uncover();
                self.set_tile(idx, tile);
                self.tiles_left -= 1;
                let ghost revealed_here = self@;
                proof {
                    assert(revealed_here.concealed() =~= current.concealed().remove(idx as int));
                    assert(revealed_here.untouched() =~= current.untouched().remove(idx as int));
                    assert(newly_revealed(before, revealed_here) =~= newly_revealed(
                        before,
                        current,
                    ).insert(idx as int));
                    assert(revealed_here.wf());
                    assert forall|i: int, d: int|
                        0 <= d < 8 && before.spreads(i) && revealed_here.tiles[i].is_revealed()
                            && i != idx implies match #[trigger] before.neighbor(i, d) {
                            Some(j) => !revealed_here.tiles[j].is_untouched() || queued(
                                queue@,
                                w,
                                j,
                            ),
                            None => true,
                        } by {
                        assert(current.tiles[i].is_revealed());
                    }
                }
                if tile.no_adjacent_bombs() {
                    assert(before.spreads(idx as int));
                    let mut k: usize = 0;
                    while k < 8
                        invariant
                            k <= 8,
                            before.wf(),
                            w == before.width,
                            self@ == revealed_here,
                            revealed_here.width == before.width,
                            revealed_here.height == before.height,
                            revealed_here.tiles.len() == before.tiles.len(),
                            revealed_here.tiles[idx as int].is_revealed(),
                            turned_up(before, revealed_here, start),
                            pos.within(w, before.height as int),
                            idx == pos.index(w),
                            (idx as int) % w == pos.0,
                            (idx as int) / w == pos.1,
                            before.spreads(idx as int),
                            before.floods(start, idx as int),
                            sound_queue(before, queue@, start),
                            !revealed_here.tiles[start].is_untouched() || queued(queue@, w, start),
                            forall|i: int, d: int|
                                0 <= d < 8 && before.spreads(i) && revealed_here.tiles[i].is_revealed()
                                    && (i != idx || d < k) ==> match #[trigger] before.neighbor(
                                    i,
                                    d,
                                ) {
                                    Some(j) => !revealed_here.tiles[j].is_untouched() || queued(
                                        queue@,
                                        w,
                                        j,
                                    ),
                                    None => true,
                                },
                        decreases 8 - k,
                    {
                        let adj_pos = pos + nth_offset(k);
                        if !self.position_out_of_bounds(&adj_pos) {
                            let ghost queue_then = queue@;
                            let ghost j = adj_pos.index(w);
                            proof {
                                lemma_index_roundtrip(
                                    adj_pos.0 as int,
                                    adj_pos.1 as int,
                                    w,
                                    before.height as int,
                                );
                                assert(before.neighbor(idx as int, k as int) == Some(j));
                                if before.tiles[j].is_untouched() {
                                    before.lemma_flood_step(start, idx as int, j);
                                }
                            }
                            queue.push_back(adj_pos);
                            proof {
                                assert(queue@[queue@.len() - 1] == adj_pos);
                                assert(queued(queue@, w, j));
                                assert forall|c: int| queued(queue_then, w, c) implies queued(
                                    queue@,
                                    w,
                                    c,
                                ) by {
                                    lemma_queued_push(queue_then, w, adj_pos, c);
                                }
                                assert forall|m: int| 0 <= m < queue@.len() implies (
                                #[trigger] queue@[m]).within(w, before.height as int) && (
                                before.tiles[queue@[m].index(w)].is_untouched() ==> before.floods(
                                    start,
                                    queue@[m].index(w),
                                )) by {
                                    if m < queue_then.len() {
                                        assert(queue@[m] == queue_then[m]);
                                    }
                                }
                            }
                        }
                        k += 1;
                    }
                }
            }
        }
        proof {
            let after = self@;
            let goal = before.cascade(start);
            before.lemma_flood_finite(start);
            assert forall|i: int| before.has(i) implies (before.floods(start, i)
                <==> #[trigger] newly_revealed(before, after).contains(i)) by {
                if before.floods(start, i) {
                    let path = choose|path: Seq<int>|
                        #[trigger] before.flood_path(path) && path.first() == start && path.last()
                            == i;
                    before.lemma_flood_closed(after, start, path, path.len() - 1);
                    before.lemma_flood_untouched(start, i);
                }
            }
            assert(newly_revealed(before, after) =~= before.flood(start)) by {
                assert forall|i: int| before.flood(start).contains(i) implies before.has(i) by {
                    before.lemma_flood_untouched(start, i);
                }
            }
            assert forall|i: int| 0 <= i < goal.tiles.len() implies after.tiles[i]
                == goal.tiles[i] by {
                assert(before.has(i));
                assert(before.floods(start, i) <==> newly_revealed(before, after).contains(i));
            }
            assert(after.tiles =~= goal.tiles);
        }
    }
}

/// The tiles that are face up in `now` and were not in `before`.
spec fn newly_revealed(before: BoardView, now: BoardView) -> Set<int> {
    Set::new(|i: int| before.has(i) && now.tiles[i].is_revealed() && !before.tiles[i].is_revealed())
}

/// Every tile of `now` is as in `before`, or a tile that a reveal at `start`
/// reaches, turned face up.
spec fn turned_up(before: BoardView, now: BoardView, start: int) -> bool {
    forall|i: int|
        before.has(i) ==> (#[trigger] now.tiles[i]) == before.tiles[i] || (before.floods(start, i)
            && now.tiles[i] == before.tiles[i].uncovered())
}

/// Every waiting position is on the board, and is reached by a reveal at
/// `start` if its tile was untouched.
spec fn sound_queue(before: BoardView, queue: Seq<Position>, start: int) -> bool {
    forall|m: int|
        0 <= m < queue.len() ==> (#[trigger] queue[m]).within(
            before.width as int,
            before.height as int,
        ) && (before.tiles[queue[m].index(before.width as int)].is_untouched() ==> before.floods(
            start,
            queue[m].index(before.width as int),
        ))
}

/// Whether the cell `j` is waiting in the queue.
spec fn queued(queue: Seq<Position>, width: int, j: int) -> bool {
    exists|m: int| 0 <= m < queue.len() && (#[trigger] queue[m]).index(width) == j
}

proof fn lemma_queued_pop(queue: Seq<Position>, width: int, j: int)
    requires
        queued(queue, width, j),
        queue[0].index(width) != j,
    ensures
        queued(queue.subrange(1, queue.len() as int), width, j),
{
    let m = choose|m: int| 0 <= m < queue.len() && (#[trigger] queue[m]).index(width) == j;
    let rest = queue.subrange(1, queue.len() as int);
    assert(rest[m - 1] == queue[m]);
}

proof fn lemma_queued_push(queue: Seq<Position>, width: int, pos: Position, j: int)
    requires
        queued(queue, width, j),
    ensures
        queued(queue.push(pos), width, j),
{
    let m = choose|m: int| 0 <= m < queue.len() && (#[trigger] queue[m]).index(width) == j;
    assert(queue.push(pos)[m] == queue[m]);
}

/// The cells of the safe zone of `c` with a number below `n`.
spec fn safe_zone_below(board: BoardView, c: int, n: int) -> Set<int> {
    Set::new(|j: int| j < n && board.safe_zone(c).contains(j))
}

/// Whether the list holds the cell number `j`.
spec fn listed(list: Seq<usize>, j: int) -> bool {
    exists|m: int| 0 <= m < list.len() && #[trigger] list[m] == j
}

/// Whether `list` holds `idx`.
fn holds(list: &Vec<usize>, idx: usize) -> (found: bool)
    ensures
        found == listed(list@, idx as int),
{
    let mut m: usize = 0;
    while m < list.len()
        invariant
            m <= list@.len(),
            forall|n: int| 0 <= n < m ==> list@[n] != idx,
        decreases list@.len() - m,
    {
        if list[m] == idx {
            return true;
        }
        m += 1;
    }
    false
}

} // verus!
