use minesweeper::{Command, ConfigError, Difficulty, GameConfig, GameState, Glyph, MarkType, Tile, TileArray, TileType};

fn board_with(width: usize, height: usize, mines: &[(usize, usize)]) -> TileArray {
    let config = GameConfig::new(width, height, mines.len()).unwrap();
    let mut board = TileArray::new(config);
    board.setup_with_mines(&mines.to_vec());
    board
}

fn mine_count(board: &TileArray) -> usize {
    board.data.iter().filter(|t| t.kind == TileType::Mine).count()
}

fn neighbour_mines(board: &TileArray, x: usize, y: usize) -> u8 {
    let mut n = 0;
    for dx in -1i64..=1 {
        for dy in -1i64..=1 {
            if dx == 0 && dy == 0 {
                continue;
            }
            let nx = x as i64 + dx;
            let ny = y as i64 + dy;
            if nx >= 0 && ny >= 0 && (nx as usize) < board.width && (ny as usize) < board.height {
                if board.get_tile_type(nx as usize, ny as usize) == TileType::Mine {
                    n += 1;
                }
            }
        }
    }
    n
}

fn assert_adjacency(board: &TileArray) {
    for y in 0..board.height {
        for x in 0..board.width {
            if let TileType::Safe(n) = board.get_tile_type(x, y) {
                assert_eq!(n, neighbour_mines(board, x, y), "cell ({}, {})", x, y);
            }
        }
    }
}

#[test]
fn cascade_reveals_all_but_the_mine() {
    let mut board = board_with(3, 3, &[(2, 2)]);
    assert_eq!(board.get_tile_type(0, 0), TileType::Safe(0));
    board.uncover_tile(0, 0, true);
    for y in 0..3 {
        for x in 0..3 {
            assert_eq!(board.is_tile_uncovered(x, y), (x, y) != (2, 2));
        }
    }
    assert_eq!(board.game_state, GameState::Play);
}

#[test]
fn cascade_stops_at_numbered_cells() {
    let mut board = board_with(3, 3, &[(2, 2)]);
    board.uncover_tile(1, 1, true);
    assert!(board.is_tile_uncovered(1, 1));
    let uncovered = board.data.iter().filter(|t| t.uncovered).count();
    assert_eq!(uncovered, 1);
}

#[test]
fn cascade_spreads_from_a_satisfied_number() {
    let mut board = board_with(3, 3, &[(2, 2)]);
    board.uncover_tile(1, 1, true);
    board.mark_tile(2, 2);
    board.uncover_tile(1, 1, true);
    for y in 0..3 {
        for x in 0..3 {
            assert_eq!(board.is_tile_uncovered(x, y), (x, y) != (2, 2));
        }
    }
    assert_eq!(board.game_state, GameState::Play);
}

#[test]
fn cascade_does_not_enter_uncertain_cells() {
    let mut board = board_with(3, 3, &[(2, 2)]);
    board.mark_tile(1, 0);
    board.mark_tile(1, 0);
    assert_eq!(board.get_tile_mark(1, 0), MarkType::Uncertain);
    board.uncover_tile(0, 0, true);
    assert!(!board.is_tile_uncovered(1, 0));
    assert!(board.is_tile_uncovered(0, 1));
    assert!(board.is_tile_uncovered(1, 1));
    assert!(board.is_tile_uncovered(0, 2));
    assert!(!board.is_tile_uncovered(2, 0));
}

#[test]
fn wrong_flag_spreads_into_a_mine() {
    let mut board = board_with(3, 1, &[(2, 0)]);
    board.mark_tile(0, 0);
    board.uncover_tile(1, 0, true);
    assert!(board.is_tile_uncovered(2, 0));
    assert_eq!(board.game_state, GameState::Lose);
}

#[test]
fn revealing_a_mine_loses_and_reveals_nothing_else() {
    let mut board = board_with(3, 3, &[(2, 2), (0, 0)]);
    board.uncover_tile(2, 2, true);
    assert_eq!(board.game_state, GameState::Lose);
    assert!(board.is_tile_uncovered(2, 2));
    let uncovered = board.data.iter().filter(|t| t.uncovered).count();
    assert_eq!(uncovered, 1);
}

#[test]
fn marked_cells_are_protected() {
    let mut board = board_with(3, 3, &[(2, 2)]);
    board.mark_tile(2, 2);
    board.uncover_tile(2, 2, true);
    assert!(!board.is_tile_uncovered(2, 2));
    assert_eq!(board.game_state, GameState::Play);
    board.mark_tile(2, 2);
    assert_eq!(board.get_tile_mark(2, 2), MarkType::Uncertain);
    board.uncover_tile(2, 2, true);
    assert!(!board.is_tile_uncovered(2, 2));
    assert_eq!(board.game_state, GameState::Play);
}

#[test]
fn cascade_does_not_reenter_uncovered_cells() {
    let mut board = board_with(3, 1, &[(2, 0)]);
    board.uncover_tile(0, 0, true);
    board.uncover_tile(0, 0, false);
    assert_eq!(board.data.iter().filter(|t| t.uncovered).count(), 2);
    assert_eq!(board.game_state, GameState::Play);
}

#[test]
fn win_by_counts_even_with_a_wrong_flag() {
    let mut board = board_with(2, 2, &[(0, 0)]);
    board.uncover_tile(1, 1, true);
    board.uncover_tile(1, 0, true);
    board.uncover_tile(0, 1, true);
    board.mark_tile(1, 1);
    assert_eq!(board.game_state, GameState::Play);
    board.check_win_condition();
    assert_eq!(board.game_state, GameState::Win);
    assert!(!board.is_tile_uncovered(0, 0));
    assert_eq!(board.get_tile_mark(0, 0), MarkType::No);
}

#[test]
fn no_win_while_counts_differ() {
    let mut board = board_with(2, 2, &[(0, 0)]);
    board.uncover_tile(1, 1, true);
    board.uncover_tile(1, 0, true);
    board.uncover_tile(0, 1, true);
    board.check_win_condition();
    assert_eq!(board.game_state, GameState::Play);
}

#[test]
fn a_lost_game_is_not_won() {
    let mut board = board_with(2, 1, &[(0, 0)]);
    board.mark_tile(1, 0);
    board.uncover_tile(0, 0, true);
    assert_eq!(board.game_state, GameState::Lose);
    board.check_win_condition();
    assert_eq!(board.game_state, GameState::Lose);
}

#[test]
fn setup_places_the_configured_number_of_mines() {
    for d in [Difficulty::Easy, Difficulty::Medium, Difficulty::Hard] {
        let config = d.config();
        let mut board = TileArray::new(config);
        board.setup();
        assert_eq!(mine_count(&board), config.mines);
        assert_adjacency(&board);
        assert_eq!(board.game_state, GameState::Play);
    }
}

#[test]
fn setup_fills_a_full_board() {
    let mut board = TileArray::new(GameConfig::new(3, 2, 6).unwrap());
    board.setup();
    assert_eq!(mine_count(&board), 6);
}

#[test]
fn setup_with_no_mines() {
    let mut board = TileArray::new(GameConfig::new(4, 3, 0).unwrap());
    board.setup();
    assert_eq!(mine_count(&board), 0);
    assert!(board.data.iter().all(|t| t.kind == TileType::Safe(0)));
}

#[test]
fn neighbour_counts_on_a_fixed_layout() {
    let board = board_with(3, 3, &[(0, 0), (2, 0)]);
    assert_eq!(board.get_tile_type(1, 0), TileType::Safe(2));
    assert_eq!(board.get_tile_type(1, 1), TileType::Safe(2));
    assert_eq!(board.get_tile_type(0, 1), TileType::Safe(1));
    assert_eq!(board.get_tile_type(1, 2), TileType::Safe(0));
    assert_eq!(mine_count(&board), 2);
    assert_adjacency(&board);
}

#[test]
fn eight_neighbouring_mines() {
    let mines = [(0, 0), (1, 0), (2, 0), (0, 1), (2, 1), (0, 2), (1, 2), (2, 2)];
    let board = board_with(3, 3, &mines);
    assert_eq!(board.get_tile_type(1, 1), TileType::Safe(8));
}

#[test]
fn restart_after_loss_resets_everything() {
    let mut board = board_with(4, 4, &[(0, 0), (3, 3)]);
    board.mark_tile(1, 1);
    board.uncover_tile(3, 3, true);
    assert_eq!(board.game_state, GameState::Lose);
    assert!(board.handle_command(Command::Restart));
    assert_eq!(board.game_state, GameState::Play);
    assert!(board.data.iter().all(|t| !t.uncovered && t.marked == MarkType::No));
    assert_eq!(mine_count(&board), 2);
    assert_adjacency(&board);
}

#[test]
fn restart_after_win_resets_everything() {
    let mut board = board_with(2, 1, &[(0, 0)]);
    board.uncover_tile(1, 0, true);
    board.mark_tile(0, 0);
    board.check_win_condition();
    assert_eq!(board.game_state, GameState::Win);
    board.handle_command(Command::Restart);
    assert_eq!(board.game_state, GameState::Play);
    assert!(board.data.iter().all(|t| !t.uncovered && t.marked == MarkType::No));
    assert_eq!(mine_count(&board), 1);
}

#[test]
fn uncovered_cells_stay_uncovered() {
    let mut board = board_with(3, 3, &[(2, 2)]);
    board.uncover_tile(1, 1, true);
    for cmd in [Command::Mark, Command::Reveal, Command::Mark, Command::Right, Command::Down, Command::Reveal, Command::Mark] {
        board.handle_command(cmd);
        assert!(board.is_tile_uncovered(1, 1));
    }
}

#[test]
fn mark_cycle_returns_after_three_steps() {
    let mut board = board_with(2, 2, &[(0, 0)]);
    assert_eq!(board.get_tile_mark(1, 0), MarkType::No);
    board.mark_tile(1, 0);
    assert_eq!(board.get_tile_mark(1, 0), MarkType::Yes);
    board.mark_tile(1, 0);
    assert_eq!(board.get_tile_mark(1, 0), MarkType::Uncertain);
    board.mark_tile(1, 0);
    assert_eq!(board.get_tile_mark(1, 0), MarkType::No);
    assert_eq!(MarkType::Uncertain.next().next().next(), MarkType::Uncertain);
}

#[test]
fn cursor_moves_only_within_the_board() {
    let mut board = board_with(2, 3, &[]);
    board.move_cursor(1, 2);
    assert_eq!((board.cursor_x, board.cursor_y), (1, 2));
    board.move_cursor(2, 0);
    assert_eq!((board.cursor_x, board.cursor_y), (1, 2));
    board.move_cursor_x(0);
    assert_eq!((board.cursor_x, board.cursor_y), (0, 2));
    board.move_cursor_y(3);
    assert_eq!((board.cursor_x, board.cursor_y), (0, 2));
    board.move_cursor_y(1);
    assert_eq!((board.cursor_x, board.cursor_y), (0, 1));
}

#[test]
fn commands_drive_the_game() {
    let mut board = board_with(2, 2, &[(1, 1)]);
    assert!(board.handle_command(Command::Left));
    assert_eq!((board.cursor_x, board.cursor_y), (0, 0));
    board.handle_command(Command::Right);
    board.handle_command(Command::Right);
    assert_eq!((board.cursor_x, board.cursor_y), (1, 0));
    board.handle_command(Command::Down);
    board.handle_command(Command::Mark);
    assert_eq!(board.get_tile_mark(1, 1), MarkType::Yes);
    board.handle_command(Command::Up);
    board.handle_command(Command::Reveal);
    board.handle_command(Command::Left);
    board.handle_command(Command::Reveal);
    board.handle_command(Command::Down);
    board.handle_command(Command::Reveal);
    assert_eq!(board.game_state, GameState::Win);
    board.handle_command(Command::Mark);
    assert_eq!(board.get_tile_mark(0, 1), MarkType::No);
    assert!(!board.handle_command(Command::Quit));
}

#[test]
fn restart_is_ignored_during_play() {
    let mut board = board_with(3, 3, &[(2, 2)]);
    board.uncover_tile(0, 0, true);
    board.handle_command(Command::Restart);
    assert!(board.is_tile_uncovered(0, 0));
    assert_eq!(board.game_state, GameState::Play);
}

#[test]
fn keys_map_to_commands() {
    assert_eq!(Command::from_key('q'), Some(Command::Quit));
    assert_eq!(Command::from_key('r'), Some(Command::Restart));
    assert_eq!(Command::from_key('h'), Some(Command::Left));
    assert_eq!(Command::from_key('l'), Some(Command::Right));
    assert_eq!(Command::from_key('k'), Some(Command::Up));
    assert_eq!(Command::from_key('j'), Some(Command::Down));
    assert_eq!(Command::from_key(' '), Some(Command::Reveal));
    assert_eq!(Command::from_key('f'), Some(Command::Reveal));
    assert_eq!(Command::from_key('d'), Some(Command::Mark));
    assert_eq!(Command::from_key('x'), None);
}

#[test]
fn config_errors() {
    assert_eq!(GameConfig::new(0, 5, 0), Err(ConfigError::EmptyBoard));
    assert_eq!(GameConfig::new(5, 0, 0), Err(ConfigError::EmptyBoard));
    assert_eq!(GameConfig::new(usize::MAX, 2, 1), Err(ConfigError::TooLarge));
    assert_eq!(GameConfig::new(3, 3, 10), Err(ConfigError::TooManyMines));
    assert_eq!(GameConfig::new(3, 3, 9), Ok(GameConfig { width: 3, height: 3, mines: 9 }));
}

#[test]
fn difficulty_presets() {
    assert_eq!(Difficulty::Easy.config(), GameConfig { width: 8, height: 8, mines: 10 });
    assert_eq!(Difficulty::Medium.config(), GameConfig { width: 16, height: 16, mines: 40 });
    assert_eq!(Difficulty::Hard.config(), GameConfig { width: 30, height: 16, mines: 99 });
}

#[test]
fn new_board_is_covered_and_safe() {
    let board = TileArray::new(GameConfig::new(4, 2, 3).unwrap());
    assert_eq!(board.data.len(), 8);
    assert_eq!(board.num_mines, 3);
    assert_eq!(board.game_state, GameState::Play);
    assert!(board.data.iter().all(|t| *t == Tile::new(TileType::Safe(0))));
}

#[test]
fn setters_touch_one_cell() {
    let mut board = board_with(2, 2, &[]);
    board.set_tile_type(1, 0, TileType::Mine);
    board.set_tile_uncovered(0, 1, true);
    board.set_tile_mark(1, 1, MarkType::Uncertain);
    assert_eq!(board.data[1].kind, TileType::Mine);
    assert!(board.data[2].uncovered);
    assert_eq!(board.data[3].marked, MarkType::Uncertain);
    assert_eq!(board.data[0], Tile::new(TileType::Safe(0)));
}

#[test]
fn glyphs() {
    let mut t = Tile::new(TileType::Safe(3));
    assert_eq!(t.glyph(), Glyph::Hidden);
    t.marked = MarkType::Yes;
    assert_eq!(t.glyph(), Glyph::Flag);
    t.marked = MarkType::Uncertain;
    assert_eq!(t.glyph(), Glyph::Question);
    t.uncovered = true;
    assert_eq!(t.glyph(), Glyph::Number(3));
    assert_eq!(Tile { kind: TileType::Safe(0), uncovered: true, marked: MarkType::No }.glyph(), Glyph::Blank);
    assert_eq!(Tile { kind: TileType::Mine, uncovered: true, marked: MarkType::No }.glyph(), Glyph::Mine);
}
