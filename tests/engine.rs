use colorful::{Color, Colorful};
use rustsweeper::{difficulty_lookup, random, Board, Cell, Coord, Difficulty, Game};

fn mine_count(game: &Game) -> usize {
    let mut n = 0;
    for y in 0..game.board.height {
        for x in 0..game.board.width {
            if *game.board.get(x, y) == Cell::Bomb {
                n += 1;
            }
        }
    }
    n
}

/// A game of the given size with mines exactly at `mines`.
fn game_with_mines(width: usize, height: usize, mines: &[(usize, usize)]) -> Game {
    let mut game = Game::new(width, height, Difficulty::Easy);
    game.board = Board::new(width, height);
    for &(x, y) in mines {
        game.board.set(x, y, Cell::Bomb);
    }
    game.num_bombs = mines.len();
    game
}

fn painted(text: &str, color: Color) -> String {
    format!("{}", text.color(color))
}

fn all_uncovered(game: &Game) -> bool {
    (0..game.board.height).all(|y| (0..game.board.width).all(|x| game.check_uncovered(x, y)))
}

#[test]
fn difficulty_lookup_values() {
    assert_eq!(difficulty_lookup(10, 10, Difficulty::Easy), 10);
    assert_eq!(difficulty_lookup(20, 10, Difficulty::Medium), 40);
    assert_eq!(difficulty_lookup(20, 20, Difficulty::Hard), 160);
    assert_eq!(difficulty_lookup(40, 20, Difficulty::Hard), 320);
    assert_eq!(difficulty_lookup(3, 3, Difficulty::Easy), 0);
    assert_eq!(difficulty_lookup(3, 3, Difficulty::Hard), 3);
    assert_eq!(difficulty_lookup(7, 3, Difficulty::Medium), 4);
}

#[test]
fn new_game_places_exact_mine_count() {
    let sizes = [(10, 10), (20, 10), (20, 20), (40, 20)];
    let levels = [Difficulty::Easy, Difficulty::Medium, Difficulty::Hard];
    for &(w, h) in &sizes {
        for &d in &levels {
            let game = Game::new(w, h, d);
            assert_eq!(game.num_bombs, difficulty_lookup(w, h, d));
            assert_eq!(mine_count(&game), game.num_bombs);
            assert!(game.is_running());
            assert!(game.flags.is_empty());
            assert_eq!(game.uncovered.len(), h);
            assert!(game.uncovered.iter().all(|row| row.len() == w && row.iter().all(|u| !u)));
        }
    }
}

#[test]
fn easy_ten_by_ten_has_ten_mines() {
    let game = Game::new(10, 10, Difficulty::Easy);
    assert_eq!(game.num_bombs, 10);
    assert_eq!(mine_count(&game), 10);
}

#[test]
fn random_stays_below_bound() {
    for max in 1..50 {
        for _ in 0..20 {
            assert!(random(max) < max);
        }
    }
    assert_eq!(random(1), 0);
}

#[test]
fn injected_mines_give_exact_counts() {
    let game = game_with_mines(10, 10, &[(0, 0), (1, 1)]);
    assert_eq!(game.get_bomb_count(0, 1), 2);
    assert_eq!(game.get_bomb_count(1, 0), 2);
    assert_eq!(game.get_bomb_count(2, 2), 1);
    assert_eq!(game.get_bomb_count(3, 3), 0);
    assert_eq!(game.get_bomb_count(2, 0), 1);
}

#[test]
fn bomb_count_matches_moore_neighbourhood() {
    let mines = [(0, 0), (2, 0), (1, 2), (4, 4), (3, 3), (0, 4)];
    let game = game_with_mines(5, 5, &mines);
    for y in 0..5isize {
        for x in 0..5isize {
            if *game.board.get(x as usize, y as usize) == Cell::Empty {
                let mut expected = 0;
                for dy in -1..=1isize {
                    for dx in -1..=1isize {
                        if (dx, dy) == (0, 0) {
                            continue;
                        }
                        let (nx, ny) = (x + dx, y + dy);
                        if nx >= 0 && ny >= 0 && nx < 5 && ny < 5 && mines.contains(&(nx as usize, ny as usize)) {
                            expected += 1;
                        }
                    }
                }
                assert_eq!(game.get_bomb_count(x as usize, y as usize), expected);
            }
        }
    }
}

#[test]
fn neighbors_are_clipped_and_ordered() {
    let game = game_with_mines(3, 3, &[]);
    assert_eq!(
        game.get_valid_neighbors(0, 0),
        vec![Coord::new(0, 0), Coord::new(1, 0), Coord::new(0, 1), Coord::new(1, 1)]
    );
    assert_eq!(game.get_valid_neighbors(1, 1).len(), 9);
    assert_eq!(game.get_valid_neighbors(1, 1)[0], Coord::new(0, 0));
    assert_eq!(game.get_valid_neighbors(1, 1)[8], Coord::new(2, 2));
    assert_eq!(
        game.get_valid_neighbors(2, 1),
        vec![
            Coord::new(1, 0),
            Coord::new(2, 0),
            Coord::new(1, 1),
            Coord::new(2, 1),
            Coord::new(1, 2),
            Coord::new(2, 2)
        ]
    );
}

#[test]
fn uncover_two_by_two_empty_board() {
    let mut game = Game::new(2, 2, Difficulty::Easy);
    assert_eq!(game.num_bombs, 0);
    game.uncover(0, 0);
    assert!(all_uncovered(&game));
    assert!(game.is_running());
}

#[test]
fn flood_fill_stops_at_border() {
    // Mine in the right column: the zero region is the left three columns,
    // and its border column (x = 3) is shown too; x = 4 stays covered.
    let mut game = game_with_mines(5, 3, &[(4, 1)]);
    game.uncover(0, 0);
    for y in 0..3 {
        for x in 0..4 {
            assert!(game.check_uncovered(x, y), "({}, {})", x, y);
        }
        assert!(!game.check_uncovered(4, y));
    }
    assert!(game.is_running());
    // Uncovering again changes nothing.
    let before = game.uncovered.clone();
    game.uncover(0, 0);
    assert_eq!(game.uncovered, before);
}

#[test]
fn uncover_numbered_cell_does_not_spread() {
    let mut game = game_with_mines(4, 4, &[(0, 0)]);
    game.uncover(1, 1);
    assert!(game.check_uncovered(1, 1));
    assert!(!game.check_uncovered(2, 2));
    assert!(!game.check_uncovered(1, 0));
}

#[test]
fn flood_fill_does_not_cross_uncovered_cells() {
    let mut game = game_with_mines(5, 1, &[]);
    game.uncovered[0][2] = true;
    game.uncover(0, 0);
    assert!(game.check_uncovered(0, 0));
    assert!(game.check_uncovered(1, 0));
    assert!(game.check_uncovered(2, 0));
    assert!(!game.check_uncovered(3, 0));
    assert!(!game.check_uncovered(4, 0));
}

#[test]
fn uncovering_mine_ends_game_and_shows_all() {
    let mut game = game_with_mines(4, 4, &[(2, 2), (0, 3)]);
    game.flag(1, 1);
    game.uncover(2, 2);
    assert!(!game.is_running());
    assert!(all_uncovered(&game));
    let text = game.get_board();
    assert!(!text.contains('_'));
    assert!(!text.contains('F'));
    assert_eq!(text.matches('@').count(), 2);
}

#[test]
fn flagged_covered_cell_can_be_uncovered() {
    let mut game = game_with_mines(3, 3, &[(2, 2)]);
    game.flag(0, 0);
    game.uncover(0, 0);
    assert!(game.check_uncovered(0, 0));
    assert!(game.check_flagged(0, 0));
}

#[test]
fn uncovered_and_flagged_cell_is_skipped() {
    // Only a cell both uncovered and flagged is left alone; an uncovered,
    // unflagged one is processed again.
    let mut game = game_with_mines(3, 3, &[(2, 2)]);
    game.uncovered[0][0] = true;
    game.flag(0, 0);
    game.uncover(0, 0);
    assert!(!game.check_uncovered(1, 0));
    game.flag(0, 0);
    game.uncover(0, 0);
    assert!(game.check_uncovered(1, 0));
    assert!(game.check_uncovered(0, 1));
}

#[test]
fn flag_twice_unflags() {
    let mut game = Game::new(10, 10, Difficulty::Easy);
    game.flag(3, 4);
    assert!(game.check_flagged(3, 4));
    game.flag(3, 4);
    assert!(!game.check_flagged(3, 4));
    assert!(!game.flags.contains(&Coord::new(3, 4)));
    assert!(game.flags.is_empty());
}

#[test]
fn flag_distinct_cells_counts_each() {
    let mut game = Game::new(10, 10, Difficulty::Easy);
    let cells = [(0, 0), (9, 9), (3, 4), (4, 3), (5, 5)];
    for (n, &(x, y)) in cells.iter().enumerate() {
        game.flag(x, y);
        assert_eq!(game.flags.len(), n + 1);
    }
    game.flag(3, 4);
    assert_eq!(game.flags.len(), 4);
    assert!(!game.check_flagged(3, 4));
    assert!(game.check_flagged(5, 5));
    assert_eq!(game.flags[2], Coord::new(4, 3));
}

#[test]
fn flag_leaves_uncovered_alone() {
    let mut game = game_with_mines(3, 3, &[]);
    game.flag(1, 1);
    assert!(!game.check_uncovered(1, 1));
}

#[test]
fn check_win_exact_flags() {
    let mut game = game_with_mines(4, 4, &[(0, 0), (3, 3)]);
    game.flag(0, 0);
    game.flag(3, 3);
    assert!(game.check_win());
    assert!(!game.is_running());
    assert!(all_uncovered(&game));
}

#[test]
fn check_win_subset_superset_misplaced() {
    let mut game = game_with_mines(4, 4, &[(0, 0), (3, 3)]);
    game.flag(0, 0);
    assert!(!game.check_win());
    assert!(game.is_running());
    game.flag(1, 1);
    assert!(!game.check_win());
    game.flag(3, 3);
    assert!(!game.check_win());
    game.flag(1, 1);
    assert!(game.check_win());
}

#[test]
fn uncover_all_ends_game() {
    let mut game = game_with_mines(3, 2, &[(1, 1)]);
    game.uncover_all();
    assert!(!game.is_running());
    assert!(all_uncovered(&game));
}

#[test]
fn render_small_board() {
    let mut game = game_with_mines(3, 2, &[(2, 1)]);
    assert_eq!(game.get_board(), "  0  1  2  \n +---------\n0|_  _  _  \n1|_  _  _  ");
    game.uncover(0, 0);
    game.flag(2, 1);
    let dot = painted(".", Color::White);
    let one = painted("1", Color::Blue);
    let expected = format!(
        "  0  1  2  \n +---------\n0|{}  {}  _  \n1|{}  {}  {}  ",
        dot,
        one,
        dot,
        one,
        painted("F", Color::Yellow)
    );
    assert_eq!(game.get_board(), expected);
    game.uncover(2, 1);
    let expected = format!(
        "  0  1  2  \n +---------\n0|{}  {}  {}  \n1|{}  {}  {}  ",
        dot,
        one,
        one,
        dot,
        one,
        painted("@", Color::Red)
    );
    assert_eq!(game.get_board(), expected);
}

#[test]
fn render_count_colors() {
    let mines = [(0, 0), (1, 0), (2, 0), (0, 1), (2, 1), (0, 2), (1, 2), (2, 2)];
    let mut game = game_with_mines(3, 3, &mines);
    game.uncover(1, 1);
    let text = game.get_board();
    let lines: Vec<&str> = text.split('\n').collect();
    assert_eq!(lines[3], format!("1|_  {}  _  ", painted("8", Color::White)));
    assert_ne!(painted("8", Color::White), "8");

    let mut game = game_with_mines(3, 1, &[(0, 0), (2, 0)]);
    game.uncover(1, 0);
    let text = game.get_board();
    let lines: Vec<&str> = text.split('\n').collect();
    assert_eq!(lines[2], format!("0|_  {}  _  ", painted("2", Color::Green)));
}

#[test]
fn render_wide_and_tall_labels() {
    let game = game_with_mines(12, 11, &[]);
    let text = game.get_board();
    let lines: Vec<&str> = text.split('\n').collect();
    assert_eq!(lines.len(), 13);
    assert_eq!(lines[0], "   0  1  2  3  4  5  6  7  8  9  10 11 ");
    assert_eq!(lines[1], "  +------------------------------------");
    assert_eq!(lines[2], "0 |_  _  _  _  _  _  _  _  _  _  _  _  ");
    assert_eq!(lines[12], "10|_  _  _  _  _  _  _  _  _  _  _  _  ");
}

#[test]
fn board_get_and_set() {
    let mut board = Board::new(4, 2);
    assert_eq!(board.values.len(), 2);
    assert_eq!(board.values[0].len(), 4);
    assert_eq!(*board.get(3, 1), Cell::Empty);
    board.set(3, 1, Cell::Bomb);
    assert_eq!(*board.get(3, 1), Cell::Bomb);
    assert_eq!(*board.get(2, 1), Cell::Empty);
}

#[test]
fn coord_new_is_valid() {
    let c = Coord::new(-1, 7);
    assert_eq!(c.x, -1);
    assert_eq!(c.y, 7);
    assert!(c.valid);
}

#[test]
fn place_bombs_follows_draws() {
    let mut board = Board::new(3, 2);
    board.place_bombs(&vec![0, 0, 3]);
    let mut mines = Vec::new();
    for y in 0..2 {
        for x in 0..3 {
            if *board.get(x, y) == Cell::Bomb {
                mines.push((x, y));
            }
        }
    }
    assert_eq!(mines, vec![(0, 0), (1, 0), (2, 1)]);

    let mut board = Board::new(2, 2);
    board.place_bombs(&vec![3, 2, 1, 0]);
    assert!((0..2).all(|y| (0..2).all(|x| *board.get(x, y) == Cell::Bomb)));

    let mut board = Board::new(4, 1);
    board.place_bombs(&vec![]);
    assert!((0..4).all(|x| *board.get(x, 0) == Cell::Empty));
}

#[test]
fn colored_text_is_escape_wrapped() {
    let game = game_with_mines(1, 1, &[]);
    let mut game = game;
    game.uncover(0, 0);
    assert_eq!(game.get_board(), "  0  \n +---\n0|\u{1b}[38;5;15m.\u{1b}[0m  ");
    assert_eq!(painted("F", Color::Yellow), "\u{1b}[38;5;3mF\u{1b}[0m");
    assert_eq!(painted("5", Color::DarkRed1), "\u{1b}[38;5;52m5\u{1b}[0m");
}
