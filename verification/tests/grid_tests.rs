use minesweeper::{Coordinate, TileMap};

fn c(x: u16, y: u16) -> Coordinate {
    Coordinate { x, y }
}

fn count_bombs(map: &TileMap) -> u32 {
    let mut n: u32 = 0;
    for y in 0..map.height() {
        for x in 0..map.width() {
            if map.isbomb_at(c(x, y)) {
                n += 1;
            }
        }
    }
    n
}

#[test]
fn create_all_empty() {
    let map = TileMap::create(3, 2);
    assert_eq!(map.width(), 3);
    assert_eq!(map.height(), 2);
    assert_eq!(map.bomb_count(), 0);
    assert_eq!(count_bombs(&map), 0);
    for y in 0..2 {
        for x in 0..3 {
            assert_eq!(map.bomb_count_at(c(x, y)), 0);
        }
    }
}

#[test]
fn set_bombs_places_exact_count() {
    let mut map = TileMap::create(5, 4);
    map.set_bombs(7);
    assert_eq!(map.bomb_count(), 7);
    assert_eq!(count_bombs(&map), 7);
}

#[test]
fn set_bombs_can_fill_the_board() {
    let mut map = TileMap::create(3, 3);
    map.set_bombs(9);
    assert_eq!(count_bombs(&map), 9);
}

#[test]
fn set_bombs_zero_leaves_board_safe() {
    let mut map = TileMap::create(4, 4);
    map.set_bombs(0);
    assert_eq!(count_bombs(&map), 0);
    for y in 0..4 {
        for x in 0..4 {
            assert_eq!(map.bomb_count_at(c(x, y)), 0);
        }
    }
}

#[test]
fn single_cell_bomb_is_forced() {
    let mut map = TileMap::create(1, 1);
    map.set_bombs(1);
    assert!(map.isbomb_at(c(0, 0)));
    assert_eq!(map.bomb_count_at(c(0, 0)), 0);
}

#[test]
fn neighbor_counts_around_center_bomb() {
    let mut map = TileMap::create(3, 3);
    map.set_bombs_at(&vec![c(1, 1)]);
    assert_eq!(map.bomb_count(), 1);
    assert!(map.isbomb_at(c(1, 1)));
    assert_eq!(map.bomb_count_at(c(1, 1)), 0);
    for y in 0..3 {
        for x in 0..3 {
            if (x, y) != (1, 1) {
                assert!(!map.isbomb_at(c(x, y)));
                assert_eq!(map.bomb_count_at(c(x, y)), 1);
            }
        }
    }
}

#[test]
fn neighbor_counts_with_two_bombs() {
    let mut map = TileMap::create(2, 2);
    map.set_bombs_at(&vec![c(0, 0), c(1, 1)]);
    assert_eq!(map.bomb_count(), 2);
    assert_eq!(map.bomb_count_at(c(1, 0)), 2);
    assert_eq!(map.bomb_count_at(c(0, 1)), 2);
    assert_eq!(map.bomb_count_at(c(0, 0)), 0);
    assert_eq!(map.bomb_count_at(c(1, 1)), 0);
}

#[test]
fn out_of_range_queries_are_safe() {
    let mut map = TileMap::create(2, 2);
    map.set_bombs_at(&vec![c(0, 0)]);
    assert!(!map.isbomb_at(c(5, 5)));
    assert!(!map.isbomb_at(c(2, 0)));
    assert!(!map.isbomb_at(c(0, 2)));
    assert_eq!(map.bomb_count_at(c(5, 5)), 0);
    assert_eq!(map.bomb_count_at(c(2, 0)), 0);
}

#[test]
fn console_output_renders_exactly() {
    let mut map = TileMap::create(2, 2);
    map.set_bombs_at(&vec![c(0, 0)]);
    let expected = "Map (2, 2) with 1 bombs:\n----\n|11|\n|*1|\n----";
    assert_eq!(map.console_output(), expected);
}

#[test]
fn console_output_renders_empty_board() {
    let map = TileMap::create(3, 1);
    let expected = "Map (3, 1) with 0 bombs:\n-----\n|   |\n-----";
    assert_eq!(map.console_output(), expected);
}

#[test]
fn coordinate_add_and_saturating_sub() {
    let a = c(3, 4).add(c(2, 1));
    assert_eq!(a, c(5, 5));
    let b = c(1, 4).sub(c(3, 1));
    assert_eq!(b, c(0, 3));
}

#[test]
fn coordinate_offset_discards_wraparound() {
    assert_eq!(c(0, 0).offset(-1, -1), None);
    assert_eq!(c(0, 1).offset(-1, 0), None);
    assert_eq!(c(0, 1).offset(0, -1), Some(c(0, 0)));
    assert_eq!(c(2, 3).offset(1, 1), Some(c(3, 4)));
    assert_eq!(c(u16::MAX, 0).offset(1, 0), None);
}

#[test]
fn safe_square_at_lists_neighbors_in_offset_order() {
    let map = TileMap::create(3, 3);
    let center = map.safe_square_at(c(1, 1));
    assert_eq!(
        center,
        vec![c(0, 0), c(1, 0), c(2, 0), c(0, 1), c(2, 1), c(0, 2), c(1, 2), c(2, 2)]
    );
    let corner = map.safe_square_at(c(0, 0));
    assert_eq!(corner, vec![c(1, 0), c(0, 1), c(1, 1)]);
}

#[test]
fn console_output_renders_multi_digit_dimensions() {
    let map = TileMap::create(12, 1);
    let expected = "Map (12, 1) with 0 bombs:\n--------------\n|            |\n--------------";
    assert_eq!(map.console_output(), expected);
}
