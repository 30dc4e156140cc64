use hexgrid::grid::GridState;
use hexgrid::types::{fresh_mine, HexTile, MineData};

fn fresh() -> HexTile {
    HexTile::Mine(MineData { level: 1, count: 1, capacity: 1, state: String::new(), trade_value: 0 })
}

#[test]
fn fresh_mine_values() {
    assert_eq!(fresh_mine(), fresh());
}

#[test]
fn slime_spreads_to_wild_neighbors() {
    let mut g = GridState::new(10, 10, HexTile::Wild);
    assert!(g.set_tile(4, 4, HexTile::Slime).is_ok());
    let changes = g.tick();

    let spread = [(3, 3), (3, 4), (3, 5), (4, 3), (4, 5), (5, 4)];
    assert_eq!(changes.len(), 6);
    for (x, y) in spread {
        assert_eq!(g.get_tile(x, y), Some(&fresh()));
        assert!(g.mine_tiles.contains(&g.get_index(x, y)));
        assert!(changes.iter().any(|c| c.col == x as i32 && c.row == y as i32 && c.data == fresh()));
    }
    assert_eq!(g.get_tile(4, 4), Some(&HexTile::Slime));
    assert_eq!(g.slime_tiles, vec![44]);
    assert_eq!(g.mine_tiles.len(), 6);
    assert_eq!(g.tiles.iter().filter(|t| **t == HexTile::Wild).count(), 93);
}

#[test]
fn tick_leaves_existing_mines_alone() {
    let mut g = GridState::new(10, 10, HexTile::Wild);
    let old_mine = HexTile::Mine(MineData { level: 5, count: 2, capacity: 9, state: "kept".to_string(), trade_value: 4 });
    assert!(g.set_tile(4, 4, HexTile::Slime).is_ok());
    assert!(g.set_tile(5, 4, old_mine.clone()).is_ok());
    let changes = g.tick();
    assert_eq!(changes.len(), 5);
    assert_eq!(g.get_tile(5, 4), Some(&old_mine));
    assert!(!changes.iter().any(|c| c.col == 5 && c.row == 4));

    // A second step converts nothing new and lists each mine once.
    let again = g.tick();
    assert!(again.is_empty());
    assert_eq!(g.mine_tiles.len(), 6);
    let mut m = g.mine_tiles.clone();
    m.sort();
    m.dedup();
    assert_eq!(m.len(), 6);
}

#[test]
fn shared_neighbors_convert_once() {
    let mut g = GridState::new(10, 10, HexTile::Wild);
    assert!(g.set_tile(2, 2, HexTile::Slime).is_ok());
    assert!(g.set_tile(4, 2, HexTile::Slime).is_ok());
    let changes = g.tick();
    // Cell (3, 2) borders both slimes.
    let mut seen: Vec<(i32, i32)> = changes.iter().map(|c| (c.col, c.row)).collect();
    seen.sort();
    let n = seen.len();
    seen.dedup();
    assert_eq!(seen.len(), n);
    assert_eq!(n, 11);
    assert_eq!(g.mine_tiles.len(), 11);
}

#[test]
fn bordering_slimes_turn_each_other_into_mines() {
    let mut g = GridState::new(10, 10, HexTile::Wild);
    assert!(g.set_tile(4, 4, HexTile::Slime).is_ok());
    assert!(g.set_tile(5, 4, HexTile::Slime).is_ok());
    g.tick();
    assert_eq!(g.get_tile(4, 4), Some(&fresh()));
    assert_eq!(g.get_tile(5, 4), Some(&fresh()));
    assert!(g.slime_tiles.is_empty());
}

#[test]
fn tick_without_slime_changes_nothing() {
    let mut g = GridState::new(5, 5, HexTile::Wild);
    assert!(g.tick().is_empty());
    assert!(g.tiles.iter().all(|t| *t == HexTile::Wild));
}
