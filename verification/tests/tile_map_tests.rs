use minesweeper::board_options::{build_map, BoardOptions, ConfigError};
use minesweeper::coordinates::Coordinates;
use minesweeper::tile::Tile;
use minesweeper::tile_map::TileMap;

fn count_bombs_in(rows: &Vec<Vec<Tile>>) -> usize {
    let mut n = 0;
    for row in rows {
        for t in row {
            if *t == Tile::Bomb {
                n += 1;
            }
        }
    }
    n
}

fn brute_adjacent_bombs(rows: &Vec<Vec<Tile>>, x: i64, y: i64) -> u8 {
    let h = rows.len() as i64;
    let w = rows[0].len() as i64;
    let mut n: u8 = 0;
    for dy in -1i64..=1 {
        for dx in -1i64..=1 {
            if dx == 0 && dy == 0 {
                continue;
            }
            let nx = x + dx;
            let ny = y + dy;
            if 0 <= nx && nx < w && 0 <= ny && ny < h {
                if rows[ny as usize][nx as usize] == Tile::Bomb {
                    n += 1;
                }
            }
        }
    }
    n
}

#[test]
fn generated_map_has_requested_bomb_count() {
    let tm = TileMap::generate(8, 8, 10, 0xfeed_beef);
    assert_eq!(tm.width(), 8);
    assert_eq!(tm.height(), 8);
    assert_eq!(tm.bomb_count(), 10);
    let rows = tm.rows();
    assert_eq!(count_bombs_in(&rows), 10);
}

#[test]
fn generated_map_grades_every_cell_by_brute_force_count() {
    let tm = TileMap::generate(9, 7, 12, 42);
    let rows = tm.rows();
    assert_eq!(rows.len(), 7);
    for y in 0..7i64 {
        assert_eq!(rows[y as usize].len(), 9);
        for x in 0..9i64 {
            let n = brute_adjacent_bombs(&rows, x, y);
            match rows[y as usize][x as usize] {
                Tile::Bomb => {}
                Tile::Empty => assert_eq!(n, 0),
                Tile::BombNeighbor(k) => {
                    assert!(1 <= k && k <= 8);
                    assert_eq!(k, n);
                }
            }
        }
    }
}

#[test]
fn no_empty_tile_touches_a_bomb() {
    let tm = TileMap::generate(10, 10, 20, 7);
    let rows = tm.rows();
    for y in 0..10i64 {
        for x in 0..10i64 {
            if rows[y as usize][x as usize] == Tile::Empty {
                assert_eq!(brute_adjacent_bombs(&rows, x, y), 0);
            }
        }
    }
}

#[test]
fn equal_seeds_generate_equal_maps() {
    let a = TileMap::generate(12, 9, 25, 987654321).rows();
    let b = TileMap::generate(12, 9, 25, 987654321).rows();
    assert_eq!(a, b);
}

#[test]
fn bomb_count_is_clamped_to_the_cell_count() {
    let tm = TileMap::generate(4, 4, 200, 5);
    let rows = tm.rows();
    assert_eq!(count_bombs_in(&rows), 16);
    for row in &rows {
        for t in row {
            assert_eq!(*t, Tile::Bomb);
        }
    }
    assert_eq!(tm.safe_start_coordinate(), None);
}

#[test]
fn single_bomb_in_the_middle_grades_all_eight_neighbors() {
    let bombs = vec![Coordinates { x: 1, y: 1 }];
    let tm = TileMap::from_bomb_cells(3, 3, &bombs);
    let rows = tm.rows();
    for y in 0..3usize {
        for x in 0..3usize {
            if x == 1 && y == 1 {
                assert_eq!(rows[y][x], Tile::Bomb);
            } else {
                assert_eq!(rows[y][x], Tile::BombNeighbor(1));
            }
        }
    }
}

#[test]
fn safe_start_selects_the_first_empty_in_row_major_order() {
    let bombs = vec![Coordinates { x: 0, y: 0 }];
    let tm = TileMap::from_bomb_cells(4, 4, &bombs);
    let c = tm.safe_start_coordinate().expect("an empty tile exists");
    assert_eq!(c, Coordinates { x: 2, y: 0 });
    assert_eq!(tm.tile_at(c), Some(Tile::Empty));
}

#[test]
fn one_by_one_grid_without_bombs_is_a_single_empty_tile() {
    let tm = TileMap::generate(1, 1, 0, 3);
    assert_eq!(tm.tile_at(Coordinates { x: 0, y: 0 }), Some(Tile::Empty));
    assert_eq!(tm.safe_start_coordinate(), Some(Coordinates { x: 0, y: 0 }));
}

#[test]
fn tile_at_reports_nothing_off_the_grid() {
    let tm = TileMap::generate(3, 3, 2, 11);
    assert_eq!(tm.tile_at(Coordinates { x: 3, y: 0 }), None);
    assert_eq!(tm.tile_at(Coordinates { x: 0, y: 3 }), None);
    assert_eq!(tm.tile_at(Coordinates { x: 700, y: 700 }), None);
}

#[test]
fn build_map_rejects_zero_dimensions() {
    let mut options = BoardOptions::default();
    options.map_size = (0, 5);
    match build_map(&options, 1) {
        Err(e) => assert_eq!(e, ConfigError::InvalidDimensions),
        Ok(_) => panic!("a zero width must be rejected"),
    }
    options.map_size = (5, 0);
    match build_map(&options, 1) {
        Err(e) => assert_eq!(e, ConfigError::InvalidDimensions),
        Ok(_) => panic!("a zero height must be rejected"),
    }
}

#[test]
fn build_map_follows_the_options() {
    let options = BoardOptions { map_size: (6, 5), bomb_count: 4, safe_start: true };
    let tm = build_map(&options, 99).expect("valid dimensions");
    assert_eq!(tm.width(), 6);
    assert_eq!(tm.height(), 5);
    assert_eq!(tm.bomb_count(), 4);
    assert_eq!(count_bombs_in(&tm.rows()), 4);
}

#[test]
fn default_options_are_a_beginner_board() {
    let options = BoardOptions::default();
    assert_eq!(options.map_size, (15, 15));
    assert_eq!(options.bomb_count, 30);
    assert!(!options.safe_start);
}
