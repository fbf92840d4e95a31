use minesweeper::{
    create_board, AppState, Board, BoardOptions, BoardPosition, Bounds2, Coordinate,
    GameCompletedEvent, IVec2, TileMap, TileMarkEvent, TileSize, TileTriggerEvent,
};

fn c(x: u16, y: u16) -> Coordinate {
    Coordinate { x, y }
}

fn make_board(width: u16, height: u16, bombs: Vec<Coordinate>) -> Board {
    let mut map = TileMap::create(width, height);
    map.set_bombs_at(&bombs);
    let tile_size: i64 = 10;
    let bounds = Bounds2 {
        position: IVec2 { x: 0, y: 0 },
        size: IVec2 { x: width as i64 * tile_size, y: height as i64 * tile_size },
    };
    let n = width as u64 * height as u64;
    let handles: Vec<u64> = (1..=n).collect();
    Board::new(map, bounds, tile_size, &handles, 999)
}

#[test]
fn new_board_covers_every_cell() {
    let board = make_board(2, 2, vec![c(0, 0)]);
    assert_eq!(board.tile_to_uncover(&c(0, 0)), Some(1));
    assert_eq!(board.tile_to_uncover(&c(1, 0)), Some(2));
    assert_eq!(board.tile_to_uncover(&c(0, 1)), Some(3));
    assert_eq!(board.tile_to_uncover(&c(1, 1)), Some(4));
    assert_eq!(board.tile_to_uncover(&c(2, 2)), None);
    assert!(!board.is_completed());
}

#[test]
fn toggle_mark_round_trip_restores_state() {
    let mut board = make_board(2, 2, vec![c(0, 0)]);
    let first = board.try_toggle_mark(&c(1, 1));
    assert_eq!(first, Some((4, true)));
    let second = board.try_toggle_mark(&c(1, 1));
    assert_eq!(second, Some((4, false)));
    assert_eq!(board.tile_to_uncover(&c(1, 1)), Some(4));
}

#[test]
fn toggle_mark_needs_a_covered_cell() {
    let mut board = make_board(2, 2, vec![c(0, 0)]);
    assert_eq!(board.try_uncover_tile(&c(1, 1)), Some(4));
    assert_eq!(board.try_toggle_mark(&c(1, 1)), None);
    assert_eq!(board.try_toggle_mark(&c(5, 5)), None);
}

#[test]
fn marked_cell_is_protected_from_reveal_query() {
    let mut board = make_board(2, 2, vec![c(0, 0)]);
    board.try_toggle_mark(&c(1, 0));
    assert_eq!(board.tile_to_uncover(&c(1, 0)), None);
    board.try_toggle_mark(&c(1, 0));
    assert_eq!(board.tile_to_uncover(&c(1, 0)), Some(2));
}

#[test]
fn try_uncover_removes_the_entry_once() {
    let mut board = make_board(2, 2, vec![c(0, 0)]);
    assert_eq!(board.try_uncover_tile(&c(1, 0)), Some(2));
    assert_eq!(board.try_uncover_tile(&c(1, 0)), None);
    assert_eq!(board.tile_to_uncover(&c(1, 0)), None);
}

#[test]
fn try_uncover_unmarks_first() {
    let mut board = make_board(2, 2, vec![c(0, 0)]);
    board.try_toggle_mark(&c(1, 0));
    assert_eq!(board.try_uncover_tile(&c(1, 0)), Some(2));
    assert_eq!(board.try_toggle_mark(&c(1, 0)), None);
}

#[test]
fn adjacent_covered_tiles_lists_covered_neighbors() {
    let mut board = make_board(3, 3, vec![]);
    let all = board.adjacent_covered_tiles(c(1, 1));
    assert_eq!(all, vec![1, 2, 3, 4, 6, 7, 8, 9]);
    board.try_uncover_tile(&c(0, 0));
    let rest = board.adjacent_covered_tiles(c(1, 1));
    assert_eq!(rest, vec![2, 3, 4, 6, 7, 8, 9]);
    let corner = board.adjacent_covered_tiles(c(0, 0));
    assert_eq!(corner, vec![2, 4, 5]);
}

#[test]
fn is_completed_tracks_covered_count() {
    let mut board = make_board(1, 2, vec![c(0, 0)]);
    assert!(!board.is_completed());
    board.try_uncover_tile(&c(0, 1));
    assert!(board.is_completed());
}

#[test]
fn mouse_position_maps_inclusive_edges() {
    // 2 by 2 board at origin with 10-unit cells: board space [0, 20] square;
    // a 100 by 100 viewport puts its center at raw (50, 50).
    let mut options = BoardOptions::default();
    options.map_size = (2, 2);
    options.bomb_count = 0;
    options.position = BoardPosition::Custom(IVec2 { x: 0, y: 0 });
    options.tile_size = TileSize::Fixed(10);
    let handles: Vec<u64> = (1..=4).collect();
    let board = create_board(&options, 100, 100, &handles, 7);

    // center of cell (0, 0)
    assert_eq!(
        board.mouse_position(100, 100, IVec2 { x: 55, y: 45 }),
        Some(c(0, 0))
    );
    // exactly on the far corner: inclusive, clamped to the edge cell
    assert_eq!(
        board.mouse_position(100, 100, IVec2 { x: 70, y: 30 }),
        Some(c(1, 1))
    );
    // exactly on the origin corner
    assert_eq!(
        board.mouse_position(100, 100, IVec2 { x: 50, y: 50 }),
        Some(c(0, 0))
    );
    // one unit beyond the far edge
    assert_eq!(board.mouse_position(100, 100, IVec2 { x: 71, y: 30 }), None);
    assert_eq!(board.mouse_position(100, 100, IVec2 { x: 70, y: 29 }), None);
    // well outside
    assert_eq!(board.mouse_position(100, 100, IVec2 { x: 0, y: 0 }), None);
}

#[test]
fn create_board_sizes_and_centers() {
    let mut options = BoardOptions::default();
    options.map_size = (20, 20);
    options.bomb_count = 40;
    options.tile_size = TileSize::Adaptive { min: 10, max: 50 };
    options.position = BoardPosition::Centered { offset: IVec2 { x: 0, y: 0 } };
    let handles: Vec<u64> = (1..=400).collect();
    let board = create_board(&options, 700, 800, &handles, 1);
    assert_eq!(board.tile_size, 35);
    assert_eq!(board.bounds.size, IVec2 { x: 700, y: 700 });
    assert_eq!(board.bounds.position, IVec2 { x: -350, y: -350 });
    assert_eq!(board.tile_map.bomb_count(), 40);
}

#[test]
fn fixed_tile_size_is_kept() {
    let mut options = BoardOptions::default();
    options.map_size = (3, 2);
    options.bomb_count = 1;
    options.tile_size = TileSize::Fixed(16);
    options.position = BoardPosition::Custom(IVec2 { x: 5, y: -7 });
    let handles: Vec<u64> = (1..=6).collect();
    let board = create_board(&options, 640, 480, &handles, 2);
    assert_eq!(board.tile_size, 16);
    assert_eq!(board.bounds.size, IVec2 { x: 48, y: 32 });
    assert_eq!(board.bounds.position, IVec2 { x: 5, y: -7 });
}

#[test]
fn events_carry_their_payloads() {
    let reveal_evt = TileTriggerEvent(c(2, 3));
    assert_eq!(reveal_evt.0, c(2, 3));
    let mark_evt = TileMarkEvent(c(1, 0));
    assert_eq!(mark_evt.0, c(1, 0));
    let won = GameCompletedEvent(true);
    let lost = GameCompletedEvent(false);
    assert!(won.0 && !lost.0);
    assert_ne!(AppState::InGame, AppState::Out);
}
