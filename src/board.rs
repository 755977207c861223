//! The board: a row-major grid of cells, a cursor, the mine count and the
//! state of the game.
use vstd::prelude::*;
use crate::tile::{Tile, TileType, MarkType, GameState, next_mark};
use crate::config::GameConfig;
use crate::grid::{
    in_grid, at, index_of, count_covered, count_flagged, is_covered, is_flagged, lemma_index,
    lemma_count_take,
};

verus! {

/// The state after the win check: a game in play is won when both the
/// covered cells and the flagged cells number `num_mines`.
pub open spec fn win_checked(state: GameState, cells: Seq<Tile>, num_mines: usize) -> GameState {
    if state == GameState::Play && count_covered(cells) == num_mines && count_flagged(cells) == num_mines {
        GameState::Win
    } else {
        state
    }
}

/// A minesweeper board. Cell `(x, y)` is stored at `x + y * width`.
pub struct TileArray {
    pub data: Vec<Tile>,
    pub width: usize,
    pub height: usize,
    pub cursor_x: usize,
    pub cursor_y: usize,
    pub game_state: GameState,
    pub num_mines: usize,
}

impl TileArray {
    /// The shape of the board holds together: positive sides, one cell per
    /// position, the cursor on the board and no more mines than cells.
    pub open spec fn wf(&self) -> bool {
        &&& self.width > 0
        &&& self.height > 0
        &&& self.data@.len() == self.width * self.height
        &&& self.cursor_x < self.width
        &&& self.cursor_y < self.height
        &&& self.num_mines <= self.width * self.height
    }

    /// `(x, y)` lies on the board.
    pub open spec fn in_bounds(&self, x: int, y: int) -> bool {
        in_grid(self.width as int, self.height as int, x, y)
    }

    /// The cell at `(x, y)`.
    pub open spec fn tile(&self, x: int, y: int) -> Tile {
        at(self.data@, self.width as int, x, y)
    }

    /// Width, height, mine count and cursor agree.
    pub open spec fn same_frame(&self, other: &TileArray) -> bool {
        &&& self.width == other.width
        &&& self.height == other.height
        &&& self.num_mines == other.num_mines
        &&& self.cursor_x == other.cursor_x
        &&& self.cursor_y == other.cursor_y
        &&& self.data@.len() == other.data@.len()
    }

    /// No cell uncovered in `self` is covered in `other`.
    pub open spec fn keeps_uncovered(&self, other: &TileArray) -> bool {
        &&& self.data@.len() == other.data@.len()
        &&& forall|i: int| 0 <= i < self.data@.len() && (#[trigger] self.data@[i]).uncovered
            ==> other.data@[i].uncovered
    }

    /// Builds a board of the configured size with every cell covered, safe
    /// and unmarked, the cursor at the origin and the game in play. Mines are
    /// placed by `setup`.
    pub fn new(config: GameConfig) -> (r: TileArray)
        requires
            config.valid(),
        ensures
            r.wf(),
            r.width == config.width,
            r.height == config.height,
            r.num_mines == config.mines,
            r.cursor_x == 0 && r.cursor_y == 0,
            r.game_state == GameState::Play,
            forall|i: int| 0 <= i < r.data@.len() ==> #[trigger] r.data@[i] == Tile::new_spec(TileType::Safe(0)),
    {
        let n: usize = config.width * config.height;
        let mut data: Vec<Tile> = Vec::new();
        while data.len() < n
            invariant
                data@.len() <= n,
                forall|i: int| 0 <= i < data@.len() ==> #[trigger] data@[i] == Tile::new_spec(TileType::Safe(0)),
            decreases n - data@.len(),
        {
            data.push(Tile::new(TileType::Safe(0)));
        }
        TileArray {
            data,
            width: config.width,
            height: config.height,
            cursor_x: 0,
            cursor_y: 0,
            game_state: GameState::Play,
            num_mines: config.mines,
        }
    }

    /// The index of the on-board position `(x, y)`.
    fn index(&self, x: usize, y: usize) -> (r: usize)
        requires
            self.wf(),
            self.in_bounds(x as int, y as int),
        ensures
            r as int == index_of(self.width as int, x as int, y as int),
            r < self.data@.len(),
    {
        proof {
            lemma_index(self.width as int, self.height as int, x as int, y as int);
        }
        let n = self.data.len();
        assert(x + y * self.width < n);
        x + y * self.width
    }

    /// What the cell at `(x, y)` holds.
    pub fn get_tile_type(&self, x: usize, y: usize) -> (r: TileType)
        requires
            self.wf(),
            self.in_bounds(x as int, y as int),
        ensures
            r == self.tile(x as int, y as int).kind,
    {
        let i = self.index(x, y);
        self.data[i].kind
    }

    /// Replaces what the cell at `(x, y)` holds; nothing else changes.
    pub fn set_tile_type(&mut self, x: usize, y: usize, kind: TileType)
        requires
            old(self).wf(),
            old(self).in_bounds(x as int, y as int),
        ensures
            final(self).wf(),
            final(self).same_frame(old(self)),
            final(self).game_state == old(self).game_state,
            final(self).data@ == old(self).data@.update(
                index_of(old(self).width as int, x as int, y as int),
                Tile { kind: kind, ..old(self).tile(x as int, y as int) },
            ),
    {
        let i = self.index(x, y);
        self.data[i].kind = kind;
    }

    /// Whether the cell at `(x, y)` is uncovered.
    pub fn is_tile_uncovered(&self, x: usize, y: usize) -> (r: bool)
        requires
            self.wf(),
            self.in_bounds(x as int, y as int),
        ensures
            r == self.tile(x as int, y as int).uncovered,
    {
        let i = self.index(x, y);
        self.data[i].uncovered
    }

    /// Sets whether the cell at `(x, y)` is uncovered; nothing else changes.
    pub fn set_tile_uncovered(&mut self, x: usize, y: usize, uncover: bool)
        requires
            old(self).wf(),
            old(self).in_bounds(x as int, y as int),
        ensures
            final(self).wf(),
            final(self).same_frame(old(self)),
            final(self).game_state == old(self).game_state,
            final(self).data@ == old(self).data@.update(
                index_of(old(self).width as int, x as int, y as int),
                Tile { uncovered: uncover, ..old(self).tile(x as int, y as int) },
            ),
    {
        let i = self.index(x, y);
        self.data[i].uncovered = uncover;
    }

    /// The mark on the cell at `(x, y)`.
    pub fn get_tile_mark(&self, x: usize, y: usize) -> (r: MarkType)
        requires
            self.wf(),
            self.in_bounds(x as int, y as int),
        ensures
            r == self.tile(x as int, y as int).marked,
    {
        let i = self.index(x, y);
        self.data[i].marked
    }

    /// Sets the mark on the cell at `(x, y)`; nothing else changes.
    pub fn set_tile_mark(&mut self, x: usize, y: usize, marked: MarkType)
        requires
            old(self).wf(),
            old(self).in_bounds(x as int, y as int),
        ensures
            final(self).wf(),
            final(self).same_frame(old(self)),
            final(self).game_state == old(self).game_state,
            final(self).data@ == old(self).data@.update(
                index_of(old(self).width as int, x as int, y as int),
                Tile { marked: marked, ..old(self).tile(x as int, y as int) },
            ),
    {
        let i = self.index(x, y);
        self.data[i].marked = marked;
    }

    /// Moves the cursor to `(x, y)` if that position is on the board, and
    /// otherwise leaves it where it is.
    pub fn move_cursor(&mut self, x: usize, y: usize)
        requires
            old(self).wf(),
        ensures
            final(self).wf(),
            final(self).data@ == old(self).data@,
            final(self).width == old(self).width,
            final(self).height == old(self).height,
            final(self).num_mines == old(self).num_mines,
            final(self).game_state == old(self).game_state,
            old(self).in_bounds(x as int, y as int) ==> final(self).cursor_x == x && final(self).cursor_y == y,
            !old(self).in_bounds(x as int, y as int) ==> final(self).cursor_x == old(self).cursor_x
                && final(self).cursor_y == old(self).cursor_y,
            old(self).keeps_uncovered(final(self)),
    {
        if x < self.width && y < self.height {
            self.cursor_x = x;
            self.cursor_y = y;
        }
    }

    /// Moves the cursor to column `x` of its row, if that column exists.
    pub fn move_cursor_x(&mut self, x: usize)
        requires
            old(self).wf(),
        ensures
            final(self).wf(),
            final(self).data@ == old(self).data@,
            final(self).width == old(self).width,
            final(self).height == old(self).height,
            final(self).num_mines == old(self).num_mines,
            final(self).game_state == old(self).game_state,
            final(self).cursor_y == old(self).cursor_y,
            final(self).cursor_x == if x < old(self).width { x } else { old(self).cursor_x },
            old(self).keeps_uncovered(final(self)),
    {
        let y = self.cursor_y;
        self.move_cursor(x, y);
    }

    /// Moves the cursor to row `y` of its column, if that row exists.
    pub fn move_cursor_y(&mut self, y: usize)
        requires
            old(self).wf(),
        ensures
            final(self).wf(),
            final(self).data@ == old(self).data@,
            final(self).width == old(self).width,
            final(self).height == old(self).height,
            final(self).num_mines == old(self).num_mines,
            final(self).game_state == old(self).game_state,
            final(self).cursor_x == old(self).cursor_x,
            final(self).cursor_y == if y < old(self).height { y } else { old(self).cursor_y },
            old(self).keeps_uncovered(final(self)),
    {
        let x = self.cursor_x;
        self.move_cursor(x, y);
    }

    /// Moves the mark on the cell at `(x, y)` one step along the cycle none,
    /// flagged, uncertain, none. Nothing else changes.
    pub fn mark_tile(&mut self, x: usize, y: usize)
        requires
            old(self).wf(),
            old(self).in_bounds(x as int, y as int),
        ensures
            final(self).wf(),
            final(self).same_frame(old(self)),
            final(self).game_state == old(self).game_state,
            final(self).data@ == old(self).data@.update(
                index_of(old(self).width as int, x as int, y as int),
                Tile { marked: next_mark(old(self).tile(x as int, y as int).marked), ..old(self).tile(x as int, y as int) },
            ),
            old(self).keeps_uncovered(final(self)),
    {
        proof {
            lemma_index(self.width as int, self.height as int, x as int, y as int);
        }
        let m = self.get_tile_mark(x, y);
        self.set_tile_mark(x, y, m.next());
    }

    /// The game is won when it is in play and both the number of covered
    /// cells and the number of flagged cells equal the number of mines.
    /// Where the flags stand is not checked.
    pub fn check_win_condition(&mut self)
        requires
            old(self).wf(),
        ensures
            final(self).wf(),
            final(self).same_frame(old(self)),
            final(self).data@ == old(self).data@,
            final(self).game_state == win_checked(old(self).game_state, old(self).data@, old(self).num_mines),
            old(self).keeps_uncovered(final(self)),
    {
        let mut tiles_left: usize = 0;
        let mut num_marked: usize = 0;
        let n = self.data.len();
        let mut i: usize = 0;
        while i < n
            invariant
                n == self.data@.len(),
                i <= n,
                tiles_left == count_covered(self.data@.take(i as int)),
                num_marked == count_flagged(self.data@.take(i as int)),
                tiles_left <= i,
                num_marked <= i,
            decreases n - i,
        {
            proof {
                lemma_count_take(self.data@, is_covered(), i as int);
                lemma_count_take(self.data@, is_flagged(), i as int);
            }
            if !self.data[i].uncovered {
                tiles_left = tiles_left + 1;
            }
            if self.data[i].marked == MarkType::Yes {
                num_marked = num_marked + 1;
            }
            i = i + 1;
        }
        assert(self.data@.take(n as int) == self.data@);
        if self.game_state == GameState::Play && tiles_left == self.num_mines && num_marked == self.num_mines {
            self.game_state = GameState::Win;
        }
    }
}

/// Uncovered cells stay uncovered along a sequence of actions: keeping them
/// from `a` to `b` and from `b` to `c` keeps them from `a` to `c`.
pub proof fn lemma_keeps_uncovered_trans(a: TileArray, b: TileArray, c: TileArray)
    requires
        a.keeps_uncovered(&b),
        b.keeps_uncovered(&c),
    ensures
        a.keeps_uncovered(&c),
{
    assert forall|i: int| 0 <= i < a.data@.len() && (#[trigger] a.data@[i]).uncovered implies c.data@[i].uncovered by {
        assert(b.data@[i].uncovered);
    }
}

/// Marking the cell at `(x, y)` three times in a row, as `mark_tile` does,
/// leaves every cell as it was.
pub proof fn lemma_mark_three_times(a: TileArray, b: TileArray, c: TileArray, d: TileArray, x: int, y: int)
    requires
        a.wf(),
        a.in_bounds(x, y),
        b.same_frame(&a),
        c.same_frame(&a),
        b.data@ == a.data@.update(index_of(a.width as int, x, y), Tile { marked: next_mark(a.tile(x, y).marked), ..a.tile(x, y) }),
        c.data@ == b.data@.update(index_of(a.width as int, x, y), Tile { marked: next_mark(b.tile(x, y).marked), ..b.tile(x, y) }),
        d.data@ == c.data@.update(index_of(a.width as int, x, y), Tile { marked: next_mark(c.tile(x, y).marked), ..c.tile(x, y) }),
    ensures
        d.data@ == a.data@,
{
    lemma_index(a.width as int, a.height as int, x, y);
    crate::tile::lemma_mark_cycle(a.tile(x, y).marked);
    assert(d.data@ =~= a.data@);
}

} // verus!
