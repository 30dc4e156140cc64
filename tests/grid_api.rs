use hexgrid::grid::{GridError, GridState};
use hexgrid::types::{HexTile, MineData, TurretData};

#[test]
fn it_initializes_empty_arrays() {
    let start_tile = HexTile::Slime;

    let grid_state = GridState::new(5, 5, start_tile);

    assert_eq!(grid_state.width, 5);
    assert_eq!(grid_state.height, 5);
    // Every cell holds slime, so the slime list names all of them.
    assert_eq!(grid_state.slime_tiles.len(), 25);
    assert_eq!(grid_state.mine_tiles.len(), 0);
    assert_eq!(grid_state.turret_tiles.len(), 0);
}

#[test]
fn new_wild_grid_has_empty_lists() {
    let grid_state = GridState::new(4, 3, HexTile::Wild);
    assert_eq!(grid_state.tiles.len(), 12);
    assert!(grid_state.tiles.iter().all(|t| *t == HexTile::Wild));
    assert!(grid_state.slime_tiles.is_empty());
    assert!(grid_state.mine_tiles.is_empty());
    assert!(grid_state.turret_tiles.is_empty());
}

#[test]
fn new_mine_grid_lists_every_cell() {
    let mine = HexTile::Mine(MineData { level: 2, count: 0, capacity: 5, state: "x".to_string(), trade_value: 3 });
    let grid_state = GridState::new(3, 2, mine.clone());
    let mut listed = grid_state.mine_tiles.clone();
    listed.sort();
    assert_eq!(listed, vec![0, 1, 2, 3, 4, 5]);
    assert!(grid_state.tiles.iter().all(|t| *t == mine));
    assert!(grid_state.slime_tiles.is_empty());
}

#[test]
fn empty_grid_has_no_cells() {
    let grid_state = GridState::new(0, 7, HexTile::Slime);
    assert_eq!(grid_state.tiles.len(), 0);
    assert!(grid_state.slime_tiles.is_empty());
    assert!(grid_state.get_tile(0, 0).is_none());
}

#[test]
fn it_gets_correct_index() {
    let start_tile = HexTile::Slime;

    let grid_state = GridState::new(72, 30, start_tile);

    assert_eq!(grid_state.width, 72);
    assert_eq!(grid_state.height, 30);

    assert_eq!(grid_state.get_index(1, 0), 1);
    assert_eq!(grid_state.get_index(0, 1), grid_state.width);
    assert_eq!(grid_state.get_index(13, 18), 18 * grid_state.width + 13);
}

#[test]
fn coords_invert_index() {
    let grid_state = GridState::new(72, 30, HexTile::Wild);
    assert_eq!(grid_state.get_coords(1309), (13, 18));
    assert_eq!(grid_state.get_coords(0), (0, 0));
    assert_eq!(grid_state.get_coords(2159), (71, 29));
}

#[test]
fn it_sets_the_default_tile() {
    let start_tile = HexTile::Slime;

    let grid_state = GridState::new(72, 30, start_tile.clone());

    assert_eq!(grid_state.width, 72);
    assert_eq!(grid_state.height, 30);

    let tile = grid_state.get_tile(1, 0);

    assert!(tile.is_some());
    assert_eq!(tile.unwrap().clone(), start_tile);
}

#[test]
fn it_can_set_slime_tile() {
    let start_tile = HexTile::Slime;

    let mut grid_state = GridState::new(72, 30, start_tile.clone());

    assert_eq!(grid_state.width, 72);
    assert_eq!(grid_state.height, 30);

    let tile = grid_state.get_tile(1, 0);

    assert!(tile.is_some());
    assert_eq!(tile.unwrap().clone(), start_tile);

    assert!(grid_state.set_tile(1, 0, HexTile::Slime).is_ok());

    assert_eq!(grid_state.get_tile(1, 0).unwrap().clone(), HexTile::Slime);

    assert!(grid_state.slime_tiles.contains(&grid_state.get_index(1, 0)));

    assert!(grid_state.set_tile(1, 0, HexTile::Wild).is_ok());

    assert!(!grid_state.slime_tiles.contains(&grid_state.get_index(1, 0)));
}

#[test]
fn it_can_set_mine_tile() {
    let start_tile = HexTile::Slime;

    let mut grid_state = GridState::new(72, 30, start_tile.clone());

    assert_eq!(grid_state.width, 72);
    assert_eq!(grid_state.height, 30);

    let tile = grid_state.get_tile(1, 0);

    assert!(tile.is_some());
    assert_eq!(tile.unwrap().clone(), start_tile);

    let new_tile = HexTile::Mine(MineData {
        level: 1,
        count: 1,
        capacity: 3,
        state: "state".to_string(),
        trade_value: 0,
    });

    assert!(grid_state.set_tile(1, 0, new_tile.clone()).is_ok());

    assert_eq!(grid_state.get_tile(1, 0).unwrap().clone(), new_tile);

    assert!(grid_state.mine_tiles.contains(&grid_state.get_index(1, 0)));

    assert!(grid_state.set_tile(1, 0, HexTile::Wild).is_ok());

    assert!(!grid_state.mine_tiles.contains(&grid_state.get_index(1, 0)));
}

fn assert_lists_exact(g: &GridState) {
    let mut slime = Vec::new();
    let mut mine = Vec::new();
    let mut turret = Vec::new();
    for (i, t) in g.tiles.iter().enumerate() {
        match t {
            HexTile::Slime => slime.push(i),
            HexTile::Mine(_) => mine.push(i),
            HexTile::Turret(_) => turret.push(i),
            HexTile::Wild => {}
        }
    }
    let mut s = g.slime_tiles.clone();
    let mut m = g.mine_tiles.clone();
    let mut t = g.turret_tiles.clone();
    s.sort();
    m.sort();
    t.sort();
    assert_eq!(s, slime);
    assert_eq!(m, mine);
    assert_eq!(t, turret);
}

#[test]
fn set_moves_cell_between_lists() {
    let mut g = GridState::new(6, 4, HexTile::Slime);
    let turret = HexTile::Turret(TurretData { level: 3, state: "t".to_string() });
    assert!(g.set_tile(2, 1, turret.clone()).is_ok());
    assert_eq!(g.get_tile(2, 1), Some(&turret));
    assert!(g.turret_tiles.contains(&8));
    assert!(!g.slime_tiles.contains(&8));
    assert_eq!(g.slime_tiles.len(), 23);
    assert_lists_exact(&g);

    // Removing cells from the middle and the end of the list keeps it exact.
    assert!(g.set_tile(0, 0, HexTile::Wild).is_ok());
    assert!(g.set_tile(5, 3, HexTile::Wild).is_ok());
    assert!(g.set_tile(3, 2, HexTile::Wild).is_ok());
    assert_lists_exact(&g);
    assert!(g.set_tile(3, 2, HexTile::Slime).is_ok());
    assert!(g.set_tile(3, 2, HexTile::Slime).is_ok());
    assert_eq!(g.slime_tiles.iter().filter(|i| **i == 15).count(), 1);
    assert_lists_exact(&g);
}

#[test]
fn set_out_of_bounds_is_rejected() {
    let mut g = GridState::new(10, 10, HexTile::Wild);
    assert_eq!(g.set_tile(10, 0, HexTile::Slime), Err(GridError::OutOfBounds));
    assert_eq!(g.set_tile(0, 10, HexTile::Slime), Err(GridError::OutOfBounds));
    assert!(g.slime_tiles.is_empty());
    assert!(g.tiles.iter().all(|t| *t == HexTile::Wild));
}

#[test]
fn get_out_of_bounds_is_none() {
    let g = GridState::new(10, 5, HexTile::Wild);
    assert!(g.get_tile(10, 0).is_none());
    assert!(g.get_tile(0, 5).is_none());
    assert!(g.get_tile(9, 4).is_some());
}

fn sorted(mut v: Vec<(u32, u32)>) -> Vec<(u32, u32)> {
    v.sort();
    v
}

#[test]
fn neighbors_on_even_row() {
    let g = GridState::new(10, 10, HexTile::Wild);
    assert_eq!(
        sorted(g.get_neighbors(4, 4)),
        vec![(3, 3), (3, 4), (3, 5), (4, 3), (4, 5), (5, 4)]
    );
}

#[test]
fn neighbors_on_odd_row() {
    let g = GridState::new(10, 10, HexTile::Wild);
    assert_eq!(
        sorted(g.get_neighbors(4, 3)),
        vec![(3, 3), (4, 2), (4, 4), (5, 2), (5, 3), (5, 4)]
    );
}

#[test]
fn neighbors_are_clipped_at_the_edges() {
    let g = GridState::new(10, 10, HexTile::Wild);
    assert_eq!(sorted(g.get_neighbors(0, 0)), vec![(0, 1), (1, 0)]);
    assert_eq!(sorted(g.get_neighbors(9, 9)), vec![(8, 9), (9, 8)]);
    assert_eq!(sorted(g.get_neighbors(9, 1)), vec![(8, 1), (9, 0), (9, 2)]);
    let single = GridState::new(1, 1, HexTile::Wild);
    assert!(single.get_neighbors(0, 0).is_empty());
}

#[test]
fn variant_names() {
    assert_eq!(HexTile::Wild.variant_name(), "Wild");
    assert_eq!(HexTile::Slime.variant_name(), "Slime");
    assert_eq!(HexTile::Turret(TurretData { level: 1, state: String::new() }).variant_name(), "Turret");
    assert_eq!(hexgrid::types::fresh_mine().variant_name(), "Mine");
}
