use std::cmp::Ordering;
use tiles2048::{
    check_tiles, command_for, empty_cells, is_occupied, is_valid_value, place_tile, resolve_move,
    spawn_tile, ConfigError, Game, Grid, InputError, Key, MoveTiles, Position, Tile, MAX_VALUE,
};

fn tile(id: u64, value: u32, x: u8, y: u8) -> Tile {
    Tile { id, value, pos: Position { x, y } }
}

fn at(tiles: &[Tile], x: u8, y: u8) -> Option<u32> {
    tiles.iter().find(|t| t.pos == Position { x, y }).map(|t| t.value)
}

fn grid4() -> Grid {
    Grid::create_grid(4).unwrap()
}

fn sum(tiles: &[Tile]) -> u64 {
    tiles.iter().map(|t| t.value as u64).sum()
}

fn assert_wf(size: u8, tiles: &[Tile]) {
    for (i, a) in tiles.iter().enumerate() {
        assert!(a.pos.x < size && a.pos.y < size);
        for b in tiles.iter().skip(i + 1) {
            assert_ne!(a.pos, b.pos);
        }
    }
}

/// A full 4x4 board whose neighbours in every lane differ.
fn checkerboard() -> Vec<Tile> {
    let mut tiles = Vec::new();
    let mut id = 0;
    for x in 0..4u8 {
        for y in 0..4u8 {
            let value = if (x + y) % 2 == 0 { 2 } else { 4 };
            tiles.push(tile(id, value, x, y));
            id += 1;
        }
    }
    tiles
}

#[test]
fn scenario_a_two_tiles_merge_left() {
    let tiles = vec![tile(0, 2, 0, 0), tile(1, 2, 1, 0)];
    let mut game = Game::from_tiles(4, tiles, 2).unwrap();
    assert!(game.play(MoveTiles::Left));
    let after = game.tiles().clone();
    assert_eq!(after.len(), 2);
    assert_eq!(at(&after, 0, 0), Some(4));
    let spawned: Vec<&Tile> = after.iter().filter(|t| t.pos != Position { x: 0, y: 0 }).collect();
    assert_eq!(spawned.len(), 1);
    assert_eq!(spawned[0].value, 2);
    assert_eq!(spawned[0].id, 2);
    assert_wf(4, &after);
}

#[test]
fn scenario_a_resolver_result() {
    let tiles = vec![tile(0, 2, 0, 0), tile(1, 2, 1, 0)];
    let (out, changed) = resolve_move(&grid4(), &tiles, MoveTiles::Left);
    assert!(changed);
    assert_eq!(out, vec![tile(0, 4, 0, 0)]);
    assert_eq!(at(&out, 1, 0), None);
}

#[test]
fn scenario_b_no_chain_merge() {
    let tiles = vec![tile(0, 2, 0, 0), tile(1, 2, 1, 0), tile(2, 2, 2, 0)];
    let (out, changed) = resolve_move(&grid4(), &tiles, MoveTiles::Left);
    assert!(changed);
    assert_eq!(out, vec![tile(0, 4, 0, 0), tile(2, 2, 1, 0)]);
}

#[test]
fn scenario_b_through_a_turn() {
    let tiles = vec![tile(0, 2, 0, 0), tile(1, 2, 1, 0), tile(2, 2, 2, 0)];
    let mut game = Game::from_tiles(4, tiles, 3).unwrap();
    assert_eq!(game.turn(&vec![Key::ArrowLeft]), Some(true));
    let after = game.tiles().clone();
    assert_eq!(after.len(), 3);
    assert_eq!(at(&after, 0, 0), Some(4));
    assert_eq!(at(&after, 1, 0), Some(2));
    assert_wf(4, &after);
}

#[test]
fn scenario_c_initial_setup() {
    for _ in 0..50 {
        let game = Game::new(4).unwrap();
        let tiles = game.tiles();
        assert_eq!(tiles.len(), 2);
        assert!(tiles.iter().all(|t| t.value == 2));
        assert_ne!(tiles[0].pos, tiles[1].pos);
        assert_wf(4, tiles);
    }
}

#[test]
fn scenario_d_full_board_without_merges() {
    for dir in [MoveTiles::Left, MoveTiles::Right, MoveTiles::Up, MoveTiles::Down] {
        let mut game = Game::from_tiles(4, checkerboard(), 16).unwrap();
        assert!(!game.play(dir));
        assert_eq!(game.tiles().len(), 16);
        for t in checkerboard() {
            assert_eq!(at(game.tiles(), t.pos.x, t.pos.y), Some(t.value));
        }
        assert_eq!(game.next_id, 16);
    }
}

#[test]
fn resolver_left_compacts_and_resets_column_per_lane() {
    let tiles = vec![tile(0, 2, 3, 0), tile(1, 4, 2, 1), tile(2, 8, 3, 1)];
    let (out, changed) = resolve_move(&grid4(), &tiles, MoveTiles::Left);
    assert!(changed);
    assert_eq!(out, vec![tile(0, 2, 0, 0), tile(1, 4, 0, 1), tile(2, 8, 1, 1)]);
}

#[test]
fn resolver_right() {
    let tiles = vec![tile(0, 2, 0, 2), tile(1, 2, 1, 2), tile(2, 4, 2, 2)];
    let (out, changed) = resolve_move(&grid4(), &tiles, MoveTiles::Right);
    assert!(changed);
    assert_eq!(out, vec![tile(2, 4, 3, 2), tile(1, 4, 2, 2)]);
}

#[test]
fn resolver_up_moves_toward_the_last_row() {
    let tiles = vec![tile(0, 2, 1, 0), tile(1, 2, 1, 3)];
    let (out, changed) = resolve_move(&grid4(), &tiles, MoveTiles::Up);
    assert!(changed);
    assert_eq!(out, vec![tile(1, 4, 1, 3)]);
}

#[test]
fn resolver_down_moves_toward_row_zero() {
    let tiles = vec![tile(0, 8, 2, 3), tile(1, 2, 0, 1)];
    let (out, changed) = resolve_move(&grid4(), &tiles, MoveTiles::Down);
    assert!(changed);
    assert_eq!(out, vec![tile(1, 2, 0, 0), tile(0, 8, 2, 0)]);
}

#[test]
fn resolver_four_equal_tiles_make_two_merges() {
    let tiles = vec![tile(0, 2, 0, 0), tile(1, 2, 1, 0), tile(2, 2, 2, 0), tile(3, 2, 3, 0)];
    let (out, _) = resolve_move(&grid4(), &tiles, MoveTiles::Left);
    assert_eq!(out, vec![tile(0, 4, 0, 0), tile(2, 4, 1, 0)]);
}

#[test]
fn resolver_merged_tile_is_not_merged_again() {
    let tiles = vec![tile(0, 2, 0, 0), tile(1, 2, 1, 0), tile(2, 4, 2, 0)];
    let (out, _) = resolve_move(&grid4(), &tiles, MoveTiles::Left);
    assert_eq!(out, vec![tile(0, 4, 0, 0), tile(2, 4, 1, 0)]);
}

#[test]
fn resolver_keeps_the_value_sum() {
    let tiles = vec![
        tile(0, 2, 0, 0),
        tile(1, 2, 3, 0),
        tile(2, 4, 1, 1),
        tile(3, 4, 2, 1),
        tile(4, 8, 0, 3),
        tile(5, 16, 3, 3),
    ];
    for dir in [MoveTiles::Left, MoveTiles::Right, MoveTiles::Up, MoveTiles::Down] {
        let (out, _) = resolve_move(&grid4(), &tiles, dir);
        assert_eq!(sum(&out), sum(&tiles));
        assert_wf(4, &out);
    }
}

#[test]
fn resolver_no_op_move_is_idempotent() {
    let tiles = vec![tile(0, 2, 0, 0), tile(1, 4, 1, 0), tile(2, 2, 0, 2)];
    let (out, changed) = resolve_move(&grid4(), &tiles, MoveTiles::Left);
    assert!(!changed);
    let (again, changed_again) = resolve_move(&grid4(), &out, MoveTiles::Left);
    assert!(!changed_again);
    assert_eq!(again, out);
}

#[test]
fn resolver_empty_board_is_unchanged() {
    let (out, changed) = resolve_move(&grid4(), &Vec::new(), MoveTiles::Up);
    assert!(out.is_empty());
    assert!(!changed);
}

#[test]
fn resolver_largest_grid() {
    let grid = Grid::create_grid(255).unwrap();
    let tiles = vec![tile(0, 2, 0, 254), tile(1, 2, 254, 254)];
    let (out, changed) = resolve_move(&grid, &tiles, MoveTiles::Right);
    assert!(changed);
    assert_eq!(out, vec![tile(1, 4, 254, 254)]);
}

#[test]
fn sort_orders_by_lane_then_distance() {
    let a = Position { x: 3, y: 0 };
    let b = Position { x: 0, y: 1 };
    assert_eq!(MoveTiles::Left.sort(&a, &b), Ordering::Less);
    assert_eq!(MoveTiles::Right.sort(&a, &b), Ordering::Greater);
    assert_eq!(MoveTiles::Up.sort(&a, &b), Ordering::Less);
    assert_eq!(MoveTiles::Down.sort(&a, &b), Ordering::Greater);
    assert_eq!(MoveTiles::Down.sort(&a, &a), Ordering::Equal);
}

#[test]
fn set_column_and_get_row() {
    let mut p = Position { x: 1, y: 2 };
    MoveTiles::Right.set_column(4, &mut p, 0);
    assert_eq!(p, Position { x: 3, y: 2 });
    MoveTiles::Up.set_column(4, &mut p, 1);
    assert_eq!(p, Position { x: 3, y: 2 });
    MoveTiles::Down.set_column(4, &mut p, 1);
    assert_eq!(p, Position { x: 3, y: 1 });
    assert_eq!(MoveTiles::Left.get_row(&p), 1);
    assert_eq!(MoveTiles::Up.get_row(&p), 3);
}

#[test]
fn grid_of_side_one_is_refused() {
    assert_eq!(Grid::create_grid(1), Err(ConfigError::InvalidConfiguration));
    assert_eq!(Grid::create_grid(0), Err(ConfigError::InvalidConfiguration));
    assert!(Game::new(1).is_err());
    assert_eq!(Grid::create_grid(2).unwrap().size, 2);
}

#[test]
fn grid_helpers() {
    let g = grid4();
    assert!(g.is_in_bounds(3, 3));
    assert!(!g.is_in_bounds(4, 0));
    assert_eq!(g.cell_index(Position { x: 1, y: 2 }), 6);
    assert_eq!(g.cell_index(Position { x: 3, y: 3 }), 15);
}

#[test]
fn malformed_tiles_are_refused() {
    let dup = vec![tile(0, 2, 1, 1), tile(1, 4, 1, 1)];
    assert_eq!(Game::from_tiles(4, dup, 2).err(), Some(ConfigError::InvalidTiles));
    let outside = vec![tile(0, 2, 4, 0)];
    assert_eq!(Game::from_tiles(4, outside, 1).err(), Some(ConfigError::InvalidTiles));
    let odd = vec![tile(0, 3, 0, 0)];
    assert_eq!(Game::from_tiles(4, odd, 1).err(), Some(ConfigError::InvalidTiles));
    assert_eq!(Game::from_tiles(1, vec![], 0).err(), Some(ConfigError::InvalidConfiguration));
    assert!(check_tiles(&grid4(), &vec![tile(0, 2, 0, 0), tile(1, 2, 3, 3)]));
}

#[test]
fn valid_values() {
    assert!(is_valid_value(2));
    assert!(is_valid_value(1024));
    assert!(is_valid_value(MAX_VALUE));
    assert!(!is_valid_value(1));
    assert!(!is_valid_value(6));
    assert!(!is_valid_value(0));
}

#[test]
fn keys_select_one_move() {
    assert_eq!(MoveTiles::try_from_key(&Key::ArrowUp), Ok(MoveTiles::Up));
    assert_eq!(MoveTiles::try_from_key(&Key::Other), Err(InputError::NotAnArrowKey));
    assert_eq!(command_for(&vec![Key::ArrowDown, Key::ArrowRight, Key::ArrowLeft]), Some(MoveTiles::Left));
    assert_eq!(command_for(&vec![Key::ArrowDown, Key::ArrowUp]), Some(MoveTiles::Up));
    assert_eq!(command_for(&vec![Key::Other, Key::ArrowRight]), Some(MoveTiles::Right));
    assert_eq!(command_for(&vec![Key::Other]), None);
    assert_eq!(command_for(&vec![]), None);
}

#[test]
fn unrecognised_input_leaves_the_game_alone() {
    let tiles = vec![tile(0, 2, 2, 2)];
    let mut game = Game::from_tiles(4, tiles.clone(), 1).unwrap();
    assert_eq!(game.turn(&vec![Key::Other]), None);
    assert_eq!(game.tiles(), &tiles);
}

#[test]
fn empty_cells_lists_each_free_cell_once() {
    let tiles = vec![tile(0, 2, 0, 0), tile(1, 2, 3, 2)];
    let cells = empty_cells(&grid4(), &tiles);
    assert_eq!(cells.len(), 14);
    for x in 0..4u8 {
        for y in 0..4u8 {
            let p = Position { x, y };
            let n = cells.iter().filter(|c| **c == p).count();
            assert_eq!(n, if is_occupied(&tiles, p) { 0 } else { 1 });
        }
    }
}

#[test]
fn spawn_puts_a_two_on_an_empty_cell() {
    for _ in 0..50 {
        let mut tiles = vec![tile(0, 2, 0, 0), tile(1, 4, 1, 0), tile(2, 8, 2, 0)];
        let before = tiles.clone();
        let pos = spawn_tile(&grid4(), &mut tiles, 7).unwrap();
        assert!(!is_occupied(&before, pos));
        assert_eq!(tiles.len(), before.len() + 1);
        assert_eq!(tiles[3], Tile { id: 7, value: 2, pos });
        assert_eq!(sum(&tiles), sum(&before) + 2);
    }
}

#[test]
fn spawn_on_the_one_free_cell() {
    let mut tiles = checkerboard();
    tiles.retain(|t| t.pos != Position { x: 2, y: 1 });
    let pos = spawn_tile(&grid4(), &mut tiles, 40);
    assert_eq!(pos, Some(Position { x: 2, y: 1 }));
}

#[test]
fn spawn_on_a_full_board_does_nothing() {
    let mut tiles = checkerboard();
    assert_eq!(spawn_tile(&grid4(), &mut tiles, 16), None);
    assert_eq!(tiles, checkerboard());
}

#[test]
fn place_tile_appends() {
    let mut tiles = vec![tile(0, 2, 0, 0)];
    place_tile(&grid4(), &mut tiles, Position { x: 1, y: 1 }, 5);
    assert_eq!(tiles, vec![tile(0, 2, 0, 0), tile(5, 2, 1, 1)]);
}

#[test]
fn no_move_on_a_board_at_the_value_limit() {
    let tiles = vec![tile(0, MAX_VALUE, 0, 0), tile(1, 2, 3, 0)];
    let mut game = Game::from_tiles(4, tiles.clone(), 2).unwrap();
    assert!(!game.play(MoveTiles::Left));
    assert_eq!(game.tiles(), &tiles);
}

#[test]
fn turns_keep_the_board_well_formed() {
    let mut game = Game::new(4).unwrap();
    let keys = [Key::ArrowLeft, Key::ArrowUp, Key::ArrowRight, Key::ArrowDown];
    for i in 0..200 {
        let before = sum(game.tiles());
        let n = game.tiles().len();
        let changed = game.turn(&vec![keys[i % 4]]).unwrap();
        assert_wf(4, game.tiles());
        if changed {
            assert_eq!(sum(game.tiles()), before + 2);
        } else {
            assert_eq!(sum(game.tiles()), before);
            assert_eq!(game.tiles().len(), n);
        }
    }
}
