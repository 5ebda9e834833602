//! The board as a mathematical value: a row-major sequence of tiles with the
//! sets and relations the rules are stated over.

use crate::position::{adjacent_offset, lemma_index_roundtrip, Position};
use crate::tile::{Tile, TileView};
use vstd::prelude::*;
use vstd::set_lib::{lemma_int_range, lemma_len_subset, lemma_set_difference_len, set_int_range};

verus! {

pub struct BoardView {
    pub width: nat,
    pub height: nat,
    /// Row-major: the cell in column `x` of row `y` is number `y * width + x`.
    pub tiles: Seq<TileView>,
    /// The tiles still to be revealed before the game is won, mines included.
    pub tiles_left: nat,
    pub num_bombs: nat,
}

impl BoardView {
    /// Whether a grid of this width and height can be stored: both sides
    /// positive and within the range of a coordinate, the number of cells
    /// within that of an index.
    pub open spec fn valid_size(width: nat, height: nat) -> bool {
        &&& 0 < width <= i32::MAX
        &&& 0 < height <= i32::MAX
        &&& width * height <= usize::MAX
    }

    /// The board before the first move: every tile concealed, without flag,
    /// mine or count.
    pub open spec fn fresh(width: nat, height: nat, num_bombs: nat) -> BoardView {
        BoardView {
            width,
            height,
            tiles: Seq::new(
                width * height,
                |i: int| Tile::blank_view(),
            ),
            tiles_left: width * height,
            num_bombs,
        }
    }

    /// Whether a board of this size can be played with this many mines: the
    /// grid can be stored, and a first move at the origin, whose safe zone is
    /// the smallest, leaves room for the mines.
    pub open spec fn playable(width: nat, height: nat, num_bombs: nat) -> bool {
        &&& Self::valid_size(width, height)
        &&& Self::fresh(width, height, num_bombs).has_room(0)
    }

    pub open spec fn size(self) -> nat {
        self.width * self.height
    }

    /// Whether the grid has a cell number `i`.
    pub open spec fn has(self, i: int) -> bool {
        0 <= i < self.size()
    }

    /// A board that can be stored: both sides positive and within the range
    /// of a coordinate, one tile for each cell, and a counter that has never
    /// been decremented without a reveal.
    pub open spec fn wf(self) -> bool {
        &&& 0 < self.width <= i32::MAX
        &&& 0 < self.height <= i32::MAX
        &&& self.size() <= usize::MAX
        &&& self.tiles.len() == self.size()
        &&& self.concealed().len() <= self.tiles_left <= self.size()
        &&& self.num_bombs <= usize::MAX
        &&& forall|i: int| self.has(i) ==> (#[trigger] self.tiles[i]).adjacent <= 8
    }

    /// The cell one step from cell `i` in direction `k`, where the grid has one.
    pub open spec fn neighbor(self, i: int, k: int) -> Option<int> {
        let x = i % (self.width as int) + adjacent_offset(k).0;
        let y = i / (self.width as int) + adjacent_offset(k).1;
        if 0 <= x < self.width && 0 <= y < self.height {
            Some(y * self.width + x)
        } else {
            None
        }
    }

    /// Whether `j` is one of the up to eight cells around `i`.
    pub open spec fn adjacent(self, i: int, j: int) -> bool {
        exists|k: int| 0 <= k < 8 && #[trigger] self.neighbor(i, k) == Some(j)
    }

    /// Whether the cell next to `i` in direction `k` exists and hides a mine.
    pub open spec fn mine_toward(self, i: int, k: int) -> bool {
        match self.neighbor(i, k) {
            Some(j) => self.tiles[j].mine,
            None => false,
        }
    }

    /// The number of mines next to `i` in the directions below `k`.
    pub open spec fn mines_around_upto(self, i: int, k: nat) -> nat
        decreases k,
    {
        if k == 0 {
            0
        } else {
            self.mines_around_upto(i, (k - 1) as nat) + if self.mine_toward(i, k - 1) {
                1nat
            } else {
                0nat
            }
        }
    }

    /// The number of mines among the neighbours of `i`.
    pub open spec fn mines_around(self, i: int) -> nat {
        self.mines_around_upto(i, 8)
    }

    /// Every tile carries the count it is meant to show: its number of
    /// neighbouring mines, or 0 where it hides a mine itself.
    pub open spec fn counted(self) -> bool {
        forall|i: int|
            self.has(i) ==> (#[trigger] self.tiles[i]).adjacent == if self.tiles[i].mine {
                0
            } else {
                self.mines_around(i)
            }
    }

    pub open spec fn mines(self) -> Set<int> {
        Set::new(|i: int| self.has(i) && self.tiles[i].mine)
    }

    pub open spec fn revealed(self) -> Set<int> {
        Set::new(|i: int| self.has(i) && self.tiles[i].is_revealed())
    }

    pub open spec fn concealed(self) -> Set<int> {
        Set::new(|i: int| self.has(i) && !self.tiles[i].is_revealed())
    }

    pub open spec fn flagged(self) -> Set<int> {
        Set::new(|i: int| self.has(i) && self.tiles[i].is_flagged())
    }

    /// The concealed tiles without a flag.
    pub open spec fn untouched(self) -> Set<int> {
        Set::new(|i: int| self.has(i) && self.tiles[i].is_untouched())
    }

    /// The cell `c` and the cells around it: where a first move at `c` allows
    /// no mine.
    pub open spec fn safe_zone(self, c: int) -> Set<int> {
        Set::new(|j: int| self.has(j) && (j == c || self.adjacent(c, j)))
    }

    /// An untouched tile with no mine around it: once revealed, the reveal
    /// passes on to its neighbours.
    pub open spec fn spreads(self, i: int) -> bool {
        self.has(i) && self.tiles[i].is_untouched() && self.tiles[i].adjacent == 0
    }

    /// The step from `path[k]` to `path[k + 1]` is one that a reveal takes.
    pub open spec fn flood_link(self, path: Seq<int>, k: int) -> bool {
        self.spreads(path[k]) && self.adjacent(path[k], path[k + 1])
    }

    /// A walk over untouched tiles that steps from each tile to a neighbour,
    /// and leaves only tiles with no mine around them.
    pub open spec fn flood_path(self, path: Seq<int>) -> bool {
        &&& path.len() > 0
        &&& forall|k: int|
            0 <= k < path.len() ==> self.has(#[trigger] path[k]) && self.tiles[path[k]].is_untouched()
        &&& forall|k: int| 0 <= k < path.len() - 1 ==> #[trigger] self.flood_link(path, k)
    }

    /// Whether a reveal at `start` reaches the tile `i`.
    pub open spec fn floods(self, start: int, i: int) -> bool {
        exists|path: Seq<int>|
            #[trigger] self.flood_path(path) && path.first() == start && path.last() == i
    }

    /// The tiles that a reveal at `start` turns face up.
    pub open spec fn flood(self, start: int) -> Set<int> {
        Set::new(|i: int| self.floods(start, i))
    }

    /// The board after a reveal at `start` has run its course.
    pub open spec fn cascade(self, start: int) -> BoardView {
        BoardView {
            tiles: Seq::new(
                self.tiles.len(),
                |i: int|
                    if self.floods(start, i) {
                        self.tiles[i].uncovered()
                    } else {
                        self.tiles[i]
                    },
            ),
            tiles_left: (self.tiles_left - self.flood(start).len()) as nat,
            ..self
        }
    }

    /// Whether the cells outside the safe zone of `c` can take all the mines.
    pub open spec fn has_room(self, c: int) -> bool {
        self.num_bombs + self.safe_zone(c).len() <= self.size()
    }

    /// Whether this board is `before` with its mines laid for a first move
    /// at `c`: as many as the board calls for, none in the safe zone of `c`,
    /// and nothing else changed.
    pub open spec fn mined_from(self, before: BoardView, c: int) -> bool {
        &&& before.has_room(c)
        &&& self.width == before.width
        &&& self.height == before.height
        &&& self.tiles_left == before.tiles_left
        &&& self.num_bombs == before.num_bombs
        &&& self.tiles.len() == before.tiles.len()
        &&& forall|i: int|
            before.has(i) ==> (#[trigger] self.tiles[i]).state == before.tiles[i].state
                && self.tiles[i].adjacent == before.tiles[i].adjacent
        &&& self.mines().finite()
        &&& self.mines().len() == self.num_bombs
        &&& self.mines().disjoint(before.safe_zone(c))
    }

    /// The board with every mine-free tile showing the number of mines
    /// around it; a tile that hides a mine keeps what it showed.
    pub open spec fn recounted(self) -> BoardView {
        BoardView {
            tiles: Seq::new(
                self.tiles.len(),
                |i: int|
                    if self.tiles[i].mine {
                        self.tiles[i]
                    } else {
                        TileView { adjacent: self.mines_around(i), ..self.tiles[i] }
                    },
            ),
            ..self
        }
    }

    /// The board with mines under exactly the cells of `cells`.
    pub open spec fn laid(self, cells: Set<int>) -> BoardView {
        BoardView {
            tiles: Seq::new(
                self.tiles.len(),
                |i: int| TileView { mine: cells.contains(i), ..self.tiles[i] },
            ),
            ..self
        }
    }

    /// The cells that the positions of `bombs` name on a grid `width` wide.
    pub open spec fn cells_of(bombs: Seq<Position>, width: int) -> Set<int> {
        Set::new(|i: int| exists|m: int| 0 <= m < bombs.len() && (#[trigger] bombs[m]).index(width) == i)
    }

    /// Whether every position of `bombs` lies on a grid of this size.
    pub open spec fn all_within(bombs: Seq<Position>, width: int, height: int) -> bool {
        forall|m: int| 0 <= m < bombs.len() ==> (#[trigger] bombs[m]).within(width, height)
    }

    /// Whether `cells` is a layout for a first move at `c`: as many cells of
    /// the grid as the board has mines, none of them in the safe zone of `c`.
    pub open spec fn admits(self, cells: Set<int>, c: int) -> bool {
        &&& forall|i: int| cells.contains(i) ==> self.has(i)
        &&& cells.len() == self.num_bombs
        &&& cells.disjoint(self.safe_zone(c))
    }

    /// The board with the tile `i` replaced.
    pub open spec fn with_tile(self, i: int, tile: TileView) -> BoardView {
        BoardView { tiles: self.tiles.update(i, tile), ..self }
    }
}

/// Facts about sets of cells.
impl BoardView {
    /// A set of cells of the grid is finite and no larger than the grid.
    pub proof fn lemma_cells_finite(self, cells: Set<int>)
        requires
            forall|i: int| cells.contains(i) ==> self.has(i),
        ensures
            cells.finite(),
            cells.len() <= self.size(),
    {
        lemma_int_range(0, self.size() as int);
        assert(cells.subset_of(set_int_range(0, self.size() as int)));
        lemma_len_subset(cells, set_int_range(0, self.size() as int));
    }

    /// The sets that the rules count are finite.
    pub proof fn lemma_sets_finite(self)
        ensures
            self.mines().finite(),
            self.revealed().finite(),
            self.concealed().finite(),
            self.flagged().finite(),
            self.untouched().finite(),
            self.mines().len() <= self.size(),
            self.concealed().len() <= self.size(),
            self.flagged().len() <= self.size(),
            self.untouched().len() <= self.size(),
    {
        self.lemma_cells_finite(self.mines());
        self.lemma_cells_finite(self.revealed());
        self.lemma_cells_finite(self.concealed());
        self.lemma_cells_finite(self.flagged());
        self.lemma_cells_finite(self.untouched());
    }

    /// The safe zone of a cell is finite, and holds the cell itself.
    pub proof fn lemma_safe_zone_finite(self, c: int)
        ensures
            self.safe_zone(c).finite(),
            self.safe_zone(c).len() <= self.size(),
            self.has(c) ==> self.safe_zone(c).len() >= 1,
    {
        self.lemma_cells_finite(self.safe_zone(c));
        if self.has(c) {
            assert(self.safe_zone(c).contains(c));
            if self.safe_zone(c).len() == 0 {
                self.safe_zone(c).lemma_len0_is_empty();
            }
        }
    }

    /// Which cells lie around which depends on the shape of the grid alone.
    pub proof fn lemma_same_shape(self, other: BoardView)
        requires
            self.width == other.width,
            self.height == other.height,
        ensures
            forall|i: int, k: int| #[trigger] self.neighbor(i, k) == other.neighbor(i, k),
            forall|i: int, j: int| #[trigger] self.adjacent(i, j) == other.adjacent(i, j),
            forall|c: int| #[trigger] self.safe_zone(c) == other.safe_zone(c),
    {
        assert forall|i: int, j: int| #[trigger] self.adjacent(i, j) == other.adjacent(i, j) by {
            if self.adjacent(i, j) {
                let k = choose|k: int| 0 <= k < 8 && #[trigger] self.neighbor(i, k) == Some(j);
                assert(other.neighbor(i, k) == Some(j));
            }
            if other.adjacent(i, j) {
                let k = choose|k: int| 0 <= k < 8 && #[trigger] other.neighbor(i, k) == Some(j);
                assert(self.neighbor(i, k) == Some(j));
            }
        }
        assert forall|c: int| #[trigger] self.safe_zone(c) == other.safe_zone(c) by {
            assert(self.safe_zone(c) =~= other.safe_zone(c));
        }
    }

    /// A neighbour of a cell of the grid is a cell of the grid.
    pub proof fn lemma_neighbor_has(self, i: int, k: int)
        requires
            self.width > 0,
        ensures
            self.neighbor(i, k) matches Some(j) ==> self.has(j),
    {
        if let Some(j) = self.neighbor(i, k) {
            let x = i % (self.width as int) + adjacent_offset(k).0;
            let y = i / (self.width as int) + adjacent_offset(k).1;
            crate::position::lemma_index_roundtrip(x, y, self.width as int, self.height as int);
        }
    }

    /// A cell has at most one mine in each direction.
    pub proof fn lemma_mines_around_bound(self, i: int, k: nat)
        ensures
            self.mines_around_upto(i, k) <= k,
        decreases k,
    {
        if k > 0 {
            self.lemma_mines_around_bound(i, (k - 1) as nat);
        }
    }

    /// The count of mines around a cell depends on the grid's shape and on
    /// where the mines lie, and on nothing else.
    pub proof fn lemma_mines_around_same(self, other: BoardView, i: int, k: nat)
        requires
            self.width == other.width,
            self.height == other.height,
            self.width > 0,
            forall|j: int| self.has(j) ==> (#[trigger] self.tiles[j]).mine == other.tiles[j].mine,
        ensures
            self.mines_around_upto(i, k) == other.mines_around_upto(i, k),
        decreases k,
    {
        if k > 0 {
            self.lemma_mines_around_same(other, i, (k - 1) as nat);
            self.lemma_neighbor_has(i, k - 1);
            assert(self.neighbor(i, k - 1) == other.neighbor(i, k - 1));
        }
    }

    /// Counting the mines leaves a board well formed.
    pub proof fn lemma_recounted_wf(self)
        requires
            self.wf(),
        ensures
            self.recounted().wf(),
    {
        let after = self.recounted();
        assert(after.concealed() =~= self.concealed());
        assert forall|i: int| after.has(i) implies (#[trigger] after.tiles[i]).adjacent <= 8 by {
            self.lemma_mines_around_bound(i, 8);
            assert(self.tiles[i].adjacent <= 8);
        }
    }
}

/// Facts about how a reveal spreads.
impl BoardView {
    /// The tiles a reveal reaches are cells of the grid, untouched before it.
    pub proof fn lemma_flood_untouched(self, start: int, i: int)
        requires
            self.floods(start, i),
        ensures
            self.has(i),
            self.tiles[i].is_untouched(),
            self.has(start),
            self.tiles[start].is_untouched(),
    {
        let path = choose|path: Seq<int>|
            #[trigger] self.flood_path(path) && path.first() == start && path.last() == i;
        assert(self.has(path[0]));
        assert(self.has(path[path.len() - 1]));
    }

    /// A reveal reaches the tile it starts on, if that tile is untouched.
    pub proof fn lemma_flood_start(self, start: int)
        requires
            self.has(start),
            self.tiles[start].is_untouched(),
        ensures
            self.floods(start, start),
    {
        let path = seq![start];
        assert(self.flood_path(path));
        assert(path.first() == start && path.last() == start);
    }

    /// From a tile with no mine around it, a reveal goes on to each
    /// untouched neighbour.
    pub proof fn lemma_flood_step(self, start: int, i: int, j: int)
        requires
            self.floods(start, i),
            self.spreads(i),
            self.adjacent(i, j),
            self.has(j),
            self.tiles[j].is_untouched(),
        ensures
            self.floods(start, j),
    {
        let path = choose|path: Seq<int>|
            #[trigger] self.flood_path(path) && path.first() == start && path.last() == i;
        let longer = path.push(j);
        assert forall|k: int| 0 <= k < longer.len() implies self.has(#[trigger] longer[k])
            && self.tiles[longer[k]].is_untouched() by {
            if k < path.len() {
                assert(longer[k] == path[k]);
            }
        }
        assert forall|k: int| 0 <= k < longer.len() - 1 implies #[trigger] self.flood_link(
            longer,
            k,
        ) by {
            if k < path.len() - 1 {
                assert(self.flood_link(path, k));
                assert(longer[k] == path[k]);
                assert(longer[k + 1] == path[k + 1]);
            } else {
                assert(longer[k] == i);
                assert(longer[k + 1] == j);
            }
        }
        assert(self.flood_path(longer));
        assert(longer.first() == start && longer.last() == j);
    }

    /// Once nothing is left to do, every tile on a walk from `start` is face
    /// up: `after` differs from this board only in tiles turned face up, the
    /// start is no longer untouched, and neither is any neighbour of a
    /// revealed tile that passes the reveal on.
    pub proof fn lemma_flood_closed(self, after: BoardView, start: int, path: Seq<int>, n: int)
        requires
            self.width == after.width,
            self.height == after.height,
            self.tiles.len() == after.tiles.len(),
            forall|i: int|
                self.has(i) ==> (#[trigger] after.tiles[i]) == self.tiles[i] || after.tiles[i]
                    == self.tiles[i].uncovered(),
            !after.tiles[start].is_untouched(),
            forall|i: int, k: int|
                0 <= k < 8 && self.spreads(i) && after.tiles[i].is_revealed() ==> match #[trigger] self.neighbor(
                    i,
                    k,
                ) {
                    Some(j) => !after.tiles[j].is_untouched(),
                    None => true,
                },
            self.flood_path(path),
            path.first() == start,
            0 <= n < path.len(),
        ensures
            after.tiles[path[n]].is_revealed(),
        decreases n,
    {
        assert(self.has(path[n]) && self.tiles[path[n]].is_untouched());
        if n > 0 {
            self.lemma_flood_closed(after, start, path, n - 1);
            assert(self.flood_link(path, n - 1));
            let k = choose|k: int|
                0 <= k < 8 && #[trigger] self.neighbor(path[n - 1], k) == Some(path[n]);
            assert(self.neighbor(path[n - 1], k) == Some(path[n]));
        }
    }

    /// The tiles a reveal reaches are finitely many, and all of them are
    /// concealed before it.
    pub proof fn lemma_flood_finite(self, start: int)
        ensures
            self.flood(start).finite(),
            self.flood(start).subset_of(self.untouched()),
            self.flood(start).subset_of(self.concealed()),
            self.flood(start).len() <= self.untouched().len(),
            self.flood(start).len() <= self.concealed().len(),
    {
        assert forall|i: int| self.flood(start).contains(i) implies self.untouched().contains(i)
            && self.concealed().contains(i) by {
            self.lemma_flood_untouched(start, i);
        }
        self.lemma_sets_finite();
        lemma_len_subset(self.flood(start), self.untouched());
        lemma_len_subset(self.flood(start), self.concealed());
    }
}

/// Facts about boards before and at the first move.
impl BoardView {
    /// A fresh board of a valid size is well formed and has no mine.
    pub proof fn lemma_fresh_wf(width: nat, height: nat, num_bombs: nat)
        requires
            Self::valid_size(width, height),
            num_bombs <= usize::MAX,
        ensures
            Self::fresh(width, height, num_bombs).wf(),
            Self::fresh(width, height, num_bombs).counted(),
            Self::fresh(width, height, num_bombs).mines() =~= Set::empty(),
            Self::fresh(width, height, num_bombs).flagged() =~= Set::empty(),
            Self::fresh(width, height, num_bombs).revealed() =~= Set::empty(),
            Self::fresh(width, height, num_bombs).concealed().len() == width * height,
    {
        let board = Self::fresh(width, height, num_bombs);
        board.lemma_sets_finite();
        lemma_int_range(0, board.size() as int);
        assert(board.concealed() =~= set_int_range(0, board.size() as int));
        assert forall|i: int| board.has(i) implies board.mines_around(i) == 0 by {
            board.lemma_no_mines_around(i, 8);
        }
    }

    /// Where no tile hides a mine, no cell has a mine around it.
    pub proof fn lemma_no_mines_around(self, i: int, k: nat)
        requires
            self.width > 0,
            forall|j: int| self.has(j) ==> !(#[trigger] self.tiles[j]).mine,
        ensures
            self.mines_around_upto(i, k) == 0,
        decreases k,
    {
        if k > 0 {
            self.lemma_no_mines_around(i, (k - 1) as nat);
            self.lemma_neighbor_has(i, k - 1);
        }
    }

    /// The safe zone of the origin is the origin with its neighbours to the
    /// right, below, and below right, as far as the grid has them.
    pub proof fn lemma_corner_zone(self)
        requires
            self.width > 0,
            self.height > 0,
        ensures
            self.safe_zone(0).len() == (if self.width >= 2 {
                2nat
            } else {
                1nat
            }) * (if self.height >= 2 {
                2nat
            } else {
                1nat
            }),
    {
        let w = self.width as int;
        let zone = self.safe_zone(0);
        let wide = self.width >= 2;
        let tall = self.height >= 2;
        let right: Set<int> = if wide { set![1int] } else { Set::empty() };
        let below: Set<int> = if tall { set![w] } else { Set::empty() };
        let across: Set<int> = if wide && tall { set![w + 1] } else { Set::empty() };
        let listed = set![0int] + right + below + across;
        assert(0 < w * self.height) by (nonlinear_arith)
            requires
                0 < w,
                0 < self.height,
        ;
        vstd::arithmetic::div_mod::lemma_small_mod(0, self.width);
        vstd::arithmetic::div_mod::lemma_basic_div(0, w);
        assert(0int % w == 0 && 0int / w == 0);
        assert(adjacent_offset(3) == (1int, 0int));
        assert(adjacent_offset(4) == (1int, 1int));
        assert(adjacent_offset(5) == (0int, 1int));
        assert forall|j: int| zone.contains(j) implies listed.contains(j) by {
            if j != 0 {
                let k = choose|k: int| 0 <= k < 8 && #[trigger] self.neighbor(0, k) == Some(j);
                let x = adjacent_offset(k).0;
                let y = adjacent_offset(k).1;
                assert(0 <= x < self.width && 0 <= y < self.height);
                assert(j == y * w + x);
                assert(y * w == if y == 0 { 0 } else { w }) by (nonlinear_arith)
                    requires
                        y == 0 || y == 1,
                ;
            }
        }
        assert forall|j: int| listed.contains(j) implies zone.contains(j) by {
            if j == 0 {
            } else if wide && j == 1 {
                assert(0 * w + 1 == 1);
                assert(self.neighbor(0, 3) == Some(1int));
                assert(1 < w * self.height) by (nonlinear_arith)
                    requires
                        2 <= w,
                        0 < self.height,
                ;
            } else if tall && j == w {
                assert(1 * w + 0 == w);
                assert(self.neighbor(0, 5) == Some(w));
                crate::position::lemma_index_roundtrip(0, 1, w, self.height as int);
            } else {
                assert(wide && tall && j == w + 1);
                assert(1 * w + 1 == w + 1);
                assert(self.neighbor(0, 4) == Some(w + 1));
                crate::position::lemma_index_roundtrip(1, 1, w, self.height as int);
            }
        }
        assert(zone =~= listed);
        if wide && tall {
            assert(listed =~= set![0int].insert(1).insert(w).insert(w + 1));
        } else if wide {
            assert(listed =~= set![0int].insert(1));
        } else if tall {
            assert(listed =~= set![0int].insert(w));
        } else {
            assert(listed =~= set![0int]);
        }
    }
}

/// Facts about layouts given as positions.
impl BoardView {
    /// Two positions on the grid that name the same cell are the same.
    pub proof fn lemma_index_injective(p: Position, q: Position, width: int, height: int)
        requires
            p.within(width, height),
            q.within(width, height),
            p.index(width) == q.index(width),
        ensures
            p == q,
    {
        lemma_index_roundtrip(p.0 as int, p.1 as int, width, height);
        lemma_index_roundtrip(q.0 as int, q.1 as int, width, height);
    }

    /// Distinct positions on the grid name as many cells as they are.
    pub proof fn lemma_cells_of_len(bombs: Seq<Position>, width: int, height: int)
        requires
            Self::all_within(bombs, width, height),
            bombs.no_duplicates(),
        ensures
            Self::cells_of(bombs, width).finite(),
            Self::cells_of(bombs, width).len() == bombs.len(),
            forall|i: int| Self::cells_of(bombs, width).contains(i) ==> 0 <= i < width * height,
        decreases bombs.len(),
    {
        let cells = Self::cells_of(bombs, width);
        if bombs.len() == 0 {
            assert(cells =~= Set::empty());
        } else {
            let rest = bombs.drop_last();
            let last = bombs.last();
            assert forall|m: int| 0 <= m < rest.len() implies (#[trigger] rest[m]).within(
                width,
                height,
            ) by {
                assert(rest[m] == bombs[m]);
            }
            Self::lemma_cells_of_len(rest, width, height);
            let fewer = Self::cells_of(rest, width);
            if fewer.contains(last.index(width)) {
                let m = choose|m: int| 0 <= m < rest.len() && (#[trigger] rest[m]).index(width)
                    == last.index(width);
                assert(rest[m] == bombs[m]);
                Self::lemma_index_injective(bombs[m], last, width, height);
                assert(false);
            }
            assert forall|i: int| cells.contains(i) implies fewer.insert(last.index(width)).contains(
                i,
            ) by {
                let m = choose|m: int| 0 <= m < bombs.len() && (#[trigger] bombs[m]).index(width)
                    == i;
                if m < rest.len() {
                    assert(rest[m] == bombs[m]);
                }
            }
            assert forall|i: int| fewer.insert(last.index(width)).contains(i) implies cells.contains(
                i,
            ) by {
                if i == last.index(width) {
                    assert(bombs[bombs.len() - 1].index(width) == i);
                } else {
                    let m = choose|m: int| 0 <= m < rest.len() && (#[trigger] rest[m]).index(width)
                        == i;
                    assert(bombs[m] == rest[m]);
                }
            }
            assert(cells =~= fewer.insert(last.index(width)));
            lemma_index_roundtrip(last.0 as int, last.1 as int, width, height);
        }
    }
}

/// Facts about a board after a reveal.
impl BoardView {
    /// Where a cell counts no mine around it, none of its neighbours hides one.
    pub proof fn lemma_no_mine_toward(self, i: int, k: nat, d: int)
        requires
            self.mines_around_upto(i, k) == 0,
            0 <= d < k,
        ensures
            !self.mine_toward(i, d),
        decreases k,
    {
        if d < k - 1 {
            self.lemma_no_mine_toward(i, (k - 1) as nat, d);
        }
    }

    /// On a counted board, a walk that starts on a mine-free tile never
    /// steps on a mine.
    pub proof fn lemma_path_avoids_mines(self, path: Seq<int>, n: int)
        requires
            self.width > 0,
            self.counted(),
            self.flood_path(path),
            !self.tiles[path[0]].mine,
            0 <= n < path.len(),
        ensures
            !self.tiles[path[n]].mine,
        decreases n,
    {
        if n > 0 {
            self.lemma_path_avoids_mines(path, n - 1);
            assert(self.flood_link(path, n - 1));
            let from = path[n - 1];
            let k = choose|k: int| 0 <= k < 8 && #[trigger] self.neighbor(from, k) == Some(path[n]);
            assert(self.tiles[from].adjacent == self.mines_around(from));
            self.lemma_no_mine_toward(from, 8, k);
        }
    }

    /// On a counted board, a reveal that starts on a mine-free tile turns up
    /// no mine.
    pub proof fn lemma_flood_avoids_mines(self, start: int)
        requires
            self.width > 0,
            self.counted(),
            !self.tiles[start].mine,
        ensures
            self.flood(start).disjoint(self.mines()),
    {
        assert forall|i: int| self.flood(start).contains(i) implies !self.mines().contains(i) by {
            let path = choose|path: Seq<int>|
                #[trigger] self.flood_path(path) && path.first() == start && path.last() == i;
            self.lemma_path_avoids_mines(path, path.len() - 1);
        }
    }

    /// What a reveal changes and what it keeps: the tiles it reaches leave
    /// the concealed and the untouched ones; mines, flags and counts stay.
    pub proof fn lemma_cascade_sets(self, start: int)
        requires
            self.wf(),
        ensures
            self.cascade(start).wf(),
            self.cascade(start).concealed() == self.concealed().difference(self.flood(start)),
            self.cascade(start).untouched() == self.untouched().difference(self.flood(start)),
            self.cascade(start).revealed() == self.revealed() + self.flood(start),
            self.cascade(start).mines() == self.mines(),
            self.cascade(start).flagged() == self.flagged(),
            self.cascade(start).concealed().len() == self.concealed().len() - self.flood(
                start,
            ).len(),
            self.cascade(start).tiles_left == self.tiles_left - self.flood(start).len(),
            self.counted() ==> self.cascade(start).counted(),
    {
        let after = self.cascade(start);
        let flood = self.flood(start);
        self.lemma_flood_finite(start);
        self.lemma_sets_finite();
        assert forall|i: int| flood.contains(i) implies self.has(i)
            && self.tiles[i].is_untouched() by {
            self.lemma_flood_untouched(start, i);
        }
        assert(after.concealed() =~= self.concealed().difference(flood));
        assert(after.untouched() =~= self.untouched().difference(flood));
        assert(after.revealed() =~= self.revealed() + flood);
        assert(after.mines() =~= self.mines());
        assert(after.flagged() =~= self.flagged());
        lemma_set_difference_len(self.concealed(), flood);
        assert(self.concealed().intersect(flood) =~= flood);
        if self.counted() {
            assert forall|i: int| after.has(i) implies (#[trigger] after.tiles[i]).adjacent
                == if after.tiles[i].mine {
                0
            } else {
                after.mines_around(i)
            } by {
                after.lemma_mines_around_same(self, i, 8);
                assert(self.tiles[i].adjacent == if self.tiles[i].mine {
                    0
                } else {
                    self.mines_around(i)
                });
            }
        }
        assert forall|i: int| after.has(i) implies (#[trigger] after.tiles[i]).adjacent <= 8 by {
            assert(self.tiles[i].adjacent <= 8);
        }
    }

    /// Replacing a tile by one with the same mine and count keeps the counts
    /// of the board right.
    pub proof fn lemma_with_tile_counted(self, i: int, tile: TileView)
        requires
            self.wf(),
            self.counted(),
            self.has(i),
            tile.mine == self.tiles[i].mine,
            tile.adjacent == self.tiles[i].adjacent,
        ensures
            self.with_tile(i, tile).counted(),
            self.with_tile(i, tile).mines() == self.mines(),
    {
        let after = self.with_tile(i, tile);
        assert(after.mines() =~= self.mines());
        assert forall|j: int| after.has(j) implies (#[trigger] after.tiles[j]).adjacent
            == if after.tiles[j].mine {
            0
        } else {
            after.mines_around(j)
        } by {
            after.lemma_mines_around_same(self, j, 8);
            assert(self.tiles[j].adjacent == if self.tiles[j].mine {
                0
            } else {
                self.mines_around(j)
            });
        }
    }

    /// A board on which a layout has been laid and counted carries the
    /// right counts, provided the tiles under the mines showed none before.
    pub proof fn lemma_laid_counted(self, cells: Set<int>)
        requires
            self.wf(),
            forall|i: int| self.has(i) ==> (#[trigger] self.tiles[i]).adjacent == 0,
            forall|i: int| cells.contains(i) ==> self.has(i),
        ensures
            self.laid(cells).recounted().wf(),
            self.laid(cells).recounted().counted(),
            self.laid(cells).recounted().mines() == cells,
            self.laid(cells).recounted().concealed() == self.concealed(),
            self.laid(cells).recounted().revealed() == self.revealed(),
            self.laid(cells).recounted().flagged() == self.flagged(),
    {
        let laid = self.laid(cells);
        let after = laid.recounted();
        assert(laid.concealed() =~= self.concealed());
        assert(laid.wf());
        laid.lemma_recounted_wf();
        assert(after.mines() =~= cells);
        assert(after.concealed() =~= self.concealed());
        assert(after.revealed() =~= self.revealed());
        assert(after.flagged() =~= self.flagged());
        assert forall|i: int| after.has(i) implies (#[trigger] after.tiles[i]).adjacent
            == if after.tiles[i].mine {
            0
        } else {
            after.mines_around(i)
        } by {
            after.lemma_mines_around_same(laid, i, 8);
            assert(self.tiles[i].adjacent == 0);
        }
    }

    /// A board on which mines have been laid for a first move is the board
    /// before with a layout that the move admits.
    pub proof fn lemma_mined_from_laid(self, before: BoardView, c: int)
        requires
            before.wf(),
            self.mined_from(before, c),
        ensures
            self == before.laid(self.mines()),
            before.admits(self.mines(), c),
    {
        assert(self.tiles =~= before.laid(self.mines()).tiles);
        self.lemma_same_shape(before);
    }
}

} // verus!
