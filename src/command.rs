//! The player's commands and how the board answers each of them.
use vstd::prelude::*;
use crate::tile::{Tile, MarkType, GameState, next_mark};
use crate::board::{TileArray, win_checked};
use crate::grid::index_of;

verus! {

/// One action of the player, applied at the cursor.
#[derive(Clone, Copy, Debug, PartialEq, Eq, Structural)]
pub enum Command {
    Quit,
    Restart,
    Left,
    Right,
    Up,
    Down,
    Reveal,
    Mark,
}

/// The command bound to a key: `q` quits, `r` restarts, `h`, `l`, `k`, `j`
/// move left, right, up and down, space or `f` reveals, `d` marks.
pub open spec fn key_command(c: char) -> Option<Command> {
    if c == 'q' {
        Some(Command::Quit)
    } else if c == 'r' {
        Some(Command::Restart)
    } else if c == 'h' {
        Some(Command::Left)
    } else if c == 'l' {
        Some(Command::Right)
    } else if c == 'k' {
        Some(Command::Up)
    } else if c == 'j' {
        Some(Command::Down)
    } else if c == ' ' || c == 'f' {
        Some(Command::Reveal)
    } else if c == 'd' {
        Some(Command::Mark)
    } else {
        None
    }
}

impl Command {
    /// The command bound to key `c`, if any.
    pub fn from_key(c: char) -> (r: Option<Command>)
        ensures
            r == key_command(c),
    {
        if c == 'q' {
            Some(Command::Quit)
        } else if c == 'r' {
            Some(Command::Restart)
        } else if c == 'h' {
            Some(Command::Left)
        } else if c == 'l' {
            Some(Command::Right)
        } else if c == 'k' {
            Some(Command::Up)
        } else if c == 'j' {
            Some(Command::Down)
        } else if c == ' ' || c == 'f' {
            Some(Command::Reveal)
        } else if c == 'd' {
            Some(Command::Mark)
        } else {
            None
        }
    }
}

impl TileArray {
    /// Applies one command and returns whether the game goes on. A finished
    /// game answers only to quit and restart; a game in play ignores
    /// restart, moves the cursor within the board, reveals or marks the cell
    /// under the cursor, and then checks for a win.
    pub fn handle_command(&mut self, cmd: Command) -> (r: bool)
        requires
            old(self).wf(),
        ensures
            final(self).wf(),
            final(self).width == old(self).width,
            final(self).height == old(self).height,
            final(self).num_mines == old(self).num_mines,
            r == (cmd != Command::Quit),
            cmd != Command::Restart ==> old(self).keeps_uncovered(final(self)),
            cmd == Command::Quit || (old(self).game_state != GameState::Play && cmd != Command::Restart) ==> {
                &&& final(self).data@ == old(self).data@
                &&& final(self).game_state == old(self).game_state
                &&& final(self).same_frame(old(self))
            },
            old(self).game_state != GameState::Play && cmd == Command::Restart ==> {
                &&& final(self).same_frame(old(self))
                &&& final(self).fresh_game()
            },
            old(self).game_state == GameState::Play && cmd != Command::Quit ==> final(self).game_state == win_checked(
                if cmd == Command::Reveal && old(self).tile(old(self).cursor_x as int, old(self).cursor_y as int).marked
                    == MarkType::No && old(self).cascade_hits_mine(old(self).cursor_x as int, old(self).cursor_y as int) {
                    GameState::Lose
                } else {
                    GameState::Play
                },
                final(self).data@,
                final(self).num_mines,
            ),
            old(self).game_state == GameState::Play && cmd != Command::Reveal && cmd != Command::Mark
                ==> final(self).data@ == old(self).data@,
            old(self).game_state == GameState::Play && cmd != Command::Quit ==> final(self).cursor_x == match cmd {
                Command::Left => if old(self).cursor_x > 0 { (old(self).cursor_x - 1) as usize } else { old(self).cursor_x },
                Command::Right => if old(self).cursor_x + 1 < old(self).width {
                    (old(self).cursor_x + 1) as usize
                } else {
                    old(self).cursor_x
                },
                _ => old(self).cursor_x,
            },
            old(self).game_state == GameState::Play && cmd != Command::Quit ==> final(self).cursor_y == match cmd {
                Command::Up => if old(self).cursor_y > 0 { (old(self).cursor_y - 1) as usize } else { old(self).cursor_y },
                Command::Down => if old(self).cursor_y + 1 < old(self).height {
                    (old(self).cursor_y + 1) as usize
                } else {
                    old(self).cursor_y
                },
                _ => old(self).cursor_y,
            },
            old(self).game_state == GameState::Play && cmd == Command::Mark ==> final(self).data@ == old(self).data@.update(
                index_of(old(self).width as int, old(self).cursor_x as int, old(self).cursor_y as int),
                Tile {
                    marked: next_mark(old(self).tile(old(self).cursor_x as int, old(self).cursor_y as int).marked),
                    ..old(self).tile(old(self).cursor_x as int, old(self).cursor_y as int)
                },
            ),
            old(self).game_state == GameState::Play && cmd == Command::Reveal ==> old(self).same_layout(final(self)),
            old(self).game_state == GameState::Play && cmd == Command::Reveal
                && old(self).tile(old(self).cursor_x as int, old(self).cursor_y as int).marked != MarkType::No
                ==> final(self).data@ == old(self).data@,
            old(self).game_state == GameState::Play && cmd == Command::Reveal
                && old(self).tile(old(self).cursor_x as int, old(self).cursor_y as int).marked == MarkType::No
                ==> forall|i: int, j: int| old(self).in_bounds(i, j) ==>
                    #[trigger] final(self).tile(i, j).uncovered == (old(self).tile(i, j).uncovered
                        || old(self).cascade(old(self).cursor_x as int, old(self).cursor_y as int).contains((i, j))),
    {
        let cursor_x = self.cursor_x;
        let cursor_y = self.cursor_y;
        match self.game_state {
            GameState::Lose | GameState::Win => {
                match cmd {
                    Command::Quit => {
                        return false;
                    },
                    Command::Restart => {
                        self.setup();
                    },
                    _ => {},
                }
                return true;
            },
            GameState::Play => {
                match cmd {
                    Command::Quit => {
                        return false;
                    },
                    Command::Left => {
                        if cursor_x > 0 {
                            self.move_cursor_x(cursor_x - 1);
                        }
                    },
                    Command::Right => self.move_cursor_x(cursor_x + 1),
                    Command::Up => {
                        if cursor_y > 0 {
                            self.move_cursor_y(cursor_y - 1);
                        }
                    },
                    Command::Down => self.move_cursor_y(cursor_y + 1),
                    Command::Reveal => self.uncover_tile(cursor_x, cursor_y, true),
                    Command::Mark => self.mark_tile(cursor_x, cursor_y),
                    Command::Restart => {},
                }
            },
        }
        let ghost mid = *self;
        self.check_win_condition();
        proof {
            assert forall|i: int, j: int| self.in_bounds(i, j) implies #[trigger] self.tile(i, j) == mid.tile(i, j) by {}
        }
        true
    }
}

} // verus!
