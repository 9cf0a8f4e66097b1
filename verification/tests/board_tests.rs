use minesweeper::board::Board;
use minesweeper::coordinates::Coordinates;
use minesweeper::tile::Tile;
use minesweeper::tile_map::TileMap;
use minesweeper::uncover::{enqueue_trigger, process_tick, process_until_settled};

fn handles_for(tm: &TileMap) -> Vec<u64> {
    let n = (tm.width() as u64) * (tm.height() as u64);
    (0..n).map(|i| 1000 + i).collect()
}

fn empty_board(width: u16, height: u16) -> Board {
    let tm = TileMap::generate(width, height, 0, 1);
    let handles = handles_for(&tm);
    Board::new(tm, &handles)
}

#[test]
fn uncover_returns_the_handle_then_nothing() {
    let mut board = empty_board(3, 3);
    let c = Coordinates { x: 1, y: 2 };
    assert_eq!(board.num_covered(), 9);
    let first = board.try_uncover_tile(&c);
    assert_eq!(first, Some(1000 + 2 * 3 + 1));
    assert_eq!(board.num_covered(), 8);
    let second = board.try_uncover_tile(&c);
    assert_eq!(second, None);
    assert_eq!(board.num_covered(), 8);
}

#[test]
fn uncover_outside_the_grid_is_a_no_op() {
    let mut board = empty_board(2, 2);
    assert_eq!(board.try_uncover_tile(&Coordinates { x: 2, y: 0 }), None);
    assert_eq!(board.try_uncover_tile(&Coordinates { x: 0, y: 2 }), None);
    assert_eq!(board.try_uncover_tile(&Coordinates { x: 60000, y: 60000 }), None);
    assert_eq!(board.num_covered(), 4);
    // the registry is intact: every in-range coordinate still resolves
    for y in 0..2 {
        for x in 0..2 {
            assert!(board.tile_to_uncover(&Coordinates { x, y }).is_some());
        }
    }
}

#[test]
fn resolve_reports_covered_entries_without_removing_them() {
    let mut board = empty_board(2, 2);
    let c = Coordinates { x: 0, y: 1 };
    assert_eq!(board.tile_to_uncover(&c), Some(1000 + 2));
    assert_eq!(board.num_covered(), 4);
    board.try_uncover_tile(&c);
    assert_eq!(board.tile_to_uncover(&c), None);
}

#[test]
fn adjacent_covered_excludes_revealed_neighbors() {
    let mut board = empty_board(3, 3);
    let corner = Coordinates { x: 0, y: 0 };
    let mut around = board.adjacent_covered_tiles(corner);
    around.sort_by_key(|c| (c.y, c.x));
    assert_eq!(
        around,
        vec![
            Coordinates { x: 1, y: 0 },
            Coordinates { x: 0, y: 1 },
            Coordinates { x: 1, y: 1 },
        ]
    );
    board.try_uncover_tile(&Coordinates { x: 1, y: 1 });
    let mut later = board.adjacent_covered_tiles(corner);
    later.sort_by_key(|c| (c.y, c.x));
    assert_eq!(later, vec![Coordinates { x: 1, y: 0 }, Coordinates { x: 0, y: 1 }]);
}

#[test]
fn enqueue_trigger_drops_stale_and_out_of_range_requests() {
    let mut board = empty_board(2, 2);
    let mut pending: Vec<Coordinates> = Vec::new();
    enqueue_trigger(&board, &mut pending, Coordinates { x: 5, y: 5 });
    assert!(pending.is_empty());
    let c = Coordinates { x: 1, y: 0 };
    enqueue_trigger(&board, &mut pending, c);
    assert_eq!(pending, vec![c]);
    board.try_uncover_tile(&c);
    enqueue_trigger(&board, &mut pending, c);
    assert_eq!(pending, vec![c]);
}

#[test]
fn one_tick_reveals_a_one_by_one_board_from_its_safe_start() {
    let tm = TileMap::generate(1, 1, 0, 9);
    let start = tm.safe_start_coordinate().expect("the single tile is empty");
    let handles = vec![77];
    let mut board = Board::new(tm, &handles);
    let out = process_tick(&mut board, &vec![start]);
    assert_eq!(out.freed, vec![(Coordinates { x: 0, y: 0 }, 77)]);
    assert!(!out.bomb_revealed);
    assert!(out.next_pending.is_empty());
    assert_eq!(board.num_covered(), 0);
}

#[test]
fn propagation_advances_one_ring_per_tick() {
    let mut board = empty_board(5, 5);
    let center = Coordinates { x: 2, y: 2 };
    let first = process_tick(&mut board, &vec![center]);
    assert_eq!(board.num_covered(), 24);
    assert_eq!(first.next_pending.len(), 8);
    let second = process_tick(&mut board, &first.next_pending);
    assert_eq!(board.num_covered(), 16);
    let third = process_tick(&mut board, &second.next_pending);
    assert_eq!(board.num_covered(), 0);
    // requests scheduled during the last ring are stale by now: one more
    // tick reveals nothing and the cascade is quiet
    let fourth = process_tick(&mut board, &third.next_pending);
    assert!(fourth.freed.is_empty());
    assert!(fourth.next_pending.is_empty());
}

#[test]
fn duplicate_requests_in_one_tick_are_processed_once() {
    let mut board = empty_board(2, 1);
    let c = Coordinates { x: 0, y: 0 };
    let out = process_tick(&mut board, &vec![c, c, c]);
    assert_eq!(out.freed.len(), 1);
    // the neighbor is scheduled once and still covered until the next tick
    assert_eq!(out.next_pending, vec![Coordinates { x: 1, y: 0 }]);
    assert_eq!(board.num_covered(), 1);
}

#[test]
fn revealing_a_bomb_raises_the_loss_signal_without_propagation() {
    let bombs = vec![Coordinates { x: 1, y: 1 }];
    let tm = TileMap::from_bomb_cells(3, 3, &bombs);
    let handles = handles_for(&tm);
    let mut board = Board::new(tm, &handles);
    let out = process_tick(&mut board, &vec![Coordinates { x: 1, y: 1 }]);
    assert!(out.bomb_revealed);
    assert!(out.next_pending.is_empty());
    assert_eq!(board.num_covered(), 8);
}

#[test]
fn run_to_quiescence_empties_an_all_empty_grid() {
    let mut board = empty_board(5, 5);
    let out = process_until_settled(&mut board, vec![Coordinates { x: 2, y: 2 }]);
    assert_eq!(board.num_covered(), 0);
    assert!(!out.bomb_revealed);
    assert_eq!(out.freed.len(), 25);
}

#[test]
fn run_to_quiescence_stops_at_bomb_neighbors() {
    // One bomb in the corner: the graded ring around it stays in place and
    // stops the flood, the bomb itself is never revealed.
    let bombs = vec![Coordinates { x: 0, y: 0 }];
    let tm = TileMap::from_bomb_cells(3, 3, &bombs);
    let handles = handles_for(&tm);
    let mut board = Board::new(tm, &handles);
    let out = process_until_settled(&mut board, vec![Coordinates { x: 2, y: 2 }]);
    assert!(!out.bomb_revealed);
    // everything but the bomb is revealed: the empties plus the graded ring
    assert_eq!(board.num_covered(), 1);
    assert!(board.tile_to_uncover(&Coordinates { x: 0, y: 0 }).is_some());
    assert_eq!(board.tile_at(Coordinates { x: 0, y: 0 }), Some(Tile::Bomb));
    assert_eq!(out.freed.len(), 8);
}
