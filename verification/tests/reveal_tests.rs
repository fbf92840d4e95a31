use minesweeper::{uncover_tiles, Board, Bounds2, Coordinate, IVec2, TileMap};

fn c(x: u16, y: u16) -> Coordinate {
    Coordinate { x, y }
}

fn make_board(width: u16, height: u16, bombs: Vec<Coordinate>) -> Board {
    let mut map = TileMap::create(width, height);
    map.set_bombs_at(&bombs);
    let tile_size: i64 = 10;
    let bounds = Bounds2 {
        position: IVec2 { x: 0, y: 0 },
        size: IVec2 { x: width as i64 * tile_size, y: height as i64 * tile_size },
    };
    let n = width as u64 * height as u64;
    let handles: Vec<u64> = (1..=n).collect();
    Board::new(map, bounds, tile_size, &handles, 999)
}

fn coords_of(uncovered: &[(Coordinate, u64)]) -> Vec<(u16, u16)> {
    let mut v: Vec<(u16, u16)> = uncovered.iter().map(|(p, _)| (p.x, p.y)).collect();
    v.sort();
    v
}

#[test]
fn single_safe_cell_wins_in_one_reveal() {
    let mut board = make_board(1, 1, vec![]);
    let report = uncover_tiles(&mut board, c(0, 0));
    assert!(!report.exploded);
    assert!(report.completed);
    assert_eq!(report.uncovered, vec![(c(0, 0), 1)]);
}

#[test]
fn bomb_reveal_uncovers_only_the_bomb() {
    let mut board = make_board(3, 3, vec![c(0, 0)]);
    let report = uncover_tiles(&mut board, c(0, 0));
    assert!(report.exploded);
    assert!(!report.completed);
    assert_eq!(report.uncovered, vec![(c(0, 0), 1)]);
    // no expansion to any neighbor
    assert_eq!(board.tile_to_uncover(&c(1, 0)), Some(2));
    assert_eq!(board.tile_to_uncover(&c(0, 1)), Some(4));
    assert_eq!(board.tile_to_uncover(&c(1, 1)), Some(5));
}

#[test]
fn cascade_uncovers_the_whole_safe_region() {
    let mut board = make_board(3, 3, vec![c(0, 0)]);
    let report = uncover_tiles(&mut board, c(2, 2));
    assert!(!report.exploded);
    assert!(report.completed);
    assert_eq!(
        coords_of(&report.uncovered),
        vec![(0, 1), (0, 2), (1, 0), (1, 1), (1, 2), (2, 0), (2, 1), (2, 2)]
    );
    // the bomb stays covered
    assert_eq!(board.tile_to_uncover(&c(0, 0)), Some(1));
}

#[test]
fn numbered_cell_does_not_expand() {
    let mut board = make_board(3, 3, vec![c(0, 0)]);
    let report = uncover_tiles(&mut board, c(1, 0));
    assert!(!report.exploded);
    assert!(!report.completed);
    assert_eq!(report.uncovered, vec![(c(1, 0), 2)]);
    assert_eq!(board.tile_to_uncover(&c(2, 0)), Some(3));

    let mut board2 = make_board(3, 3, vec![c(0, 0)]);
    let report2 = uncover_tiles(&mut board2, c(0, 1));
    assert_eq!(report2.uncovered, vec![(c(0, 1), 4)]);
}

#[test]
fn cascade_stops_at_numbered_border() {
    // one row: bomb, then a numbered cell, then empties
    let mut board = make_board(5, 1, vec![c(0, 0)]);
    let report = uncover_tiles(&mut board, c(4, 0));
    assert!(!report.exploded);
    assert!(report.completed);
    assert_eq!(coords_of(&report.uncovered), vec![(1, 0), (2, 0), (3, 0), (4, 0)]);
    assert_eq!(board.tile_to_uncover(&c(0, 0)), Some(1));
}

#[test]
fn reveal_ignores_marked_and_missing_cells() {
    let mut board = make_board(2, 2, vec![c(0, 0)]);
    board.try_toggle_mark(&c(1, 1));
    let report = uncover_tiles(&mut board, c(1, 1));
    assert!(report.uncovered.is_empty());
    assert!(!report.exploded);
    let outside = uncover_tiles(&mut board, c(9, 9));
    assert!(outside.uncovered.is_empty());

    let mut done = make_board(2, 2, vec![c(0, 0)]);
    done.try_uncover_tile(&c(1, 1));
    let again = uncover_tiles(&mut done, c(1, 1));
    assert!(again.uncovered.is_empty());
}

#[test]
fn cascade_sweeps_marked_cells() {
    let mut board = make_board(3, 3, vec![c(0, 0)]);
    board.try_toggle_mark(&c(1, 1));
    let report = uncover_tiles(&mut board, c(2, 2));
    assert!(report.completed);
    assert_eq!(report.uncovered.len(), 8);
    assert!(coords_of(&report.uncovered).contains(&(1, 1)));
    assert_eq!(board.try_toggle_mark(&c(1, 1)), None);
}

#[test]
fn each_cell_reveals_exactly_once() {
    let mut board = make_board(3, 3, vec![c(0, 0)]);
    let report = uncover_tiles(&mut board, c(2, 2));
    let mut seen = coords_of(&report.uncovered);
    seen.dedup();
    assert_eq!(seen.len(), report.uncovered.len());
    // a second trigger anywhere in the revealed region does nothing
    let again = uncover_tiles(&mut board, c(2, 2));
    assert!(again.uncovered.is_empty());
    assert!(again.completed);
}
