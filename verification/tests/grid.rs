use wave_function_collapse::{Cell, ContradictionError, Direction, SocketMap, TileData, TileGrid};

fn tile(up: &str, right: &str, down: &str, left: &str, weight: u64) -> TileData {
    TileData {
        sockets: SocketMap {
            up: up.to_string(),
            right: right.to_string(),
            down: down.to_string(),
            left: left.to_string(),
        },
        weight,
    }
}

/// A catalog of `k` tiles whose every socket is the palindrome "s", so every
/// tile sits beside every tile.
fn uniform_catalog(k: usize) -> Vec<TileData> {
    let mut v = Vec::new();
    for _ in 0..k {
        v.push(tile("s", "s", "s", "s", 1));
    }
    v
}

#[test]
fn build_gives_every_cell_full_entropy() {
    let g = TileGrid::new(uniform_catalog(3), 4, 2).unwrap();
    assert_eq!(g.width(), 4);
    assert_eq!(g.height(), 2);
    assert_eq!(g.cells.len(), 8);
    for c in &g.cells {
        assert_eq!(c.entropy(), 3);
        assert_eq!(c.options, vec![0, 1, 2]);
    }
}

#[test]
fn build_rejects_degenerate_inputs() {
    assert!(TileGrid::new(uniform_catalog(2), 0, 5).is_none());
    assert!(TileGrid::new(uniform_catalog(2), 5, 0).is_none());
    assert!(TileGrid::new(Vec::new(), 3, 3).is_none());
}

#[test]
fn neighbor_wiring_is_symmetric() {
    let g = TileGrid::new(uniform_catalog(2), 3, 2).unwrap();
    for (i, c) in g.cells.iter().enumerate() {
        if let Some(j) = c.neighbor(Direction::Up) {
            assert_eq!(g.cells[j].neighbor(Direction::Down), Some(i));
        }
        if let Some(j) = c.neighbor(Direction::Down) {
            assert_eq!(g.cells[j].neighbor(Direction::Up), Some(i));
        }
        if let Some(j) = c.neighbor(Direction::Left) {
            assert_eq!(g.cells[j].neighbor(Direction::Right), Some(i));
        }
        if let Some(j) = c.neighbor(Direction::Right) {
            assert_eq!(g.cells[j].neighbor(Direction::Left), Some(i));
        }
    }
}

#[test]
fn corner_cells_have_no_outward_neighbors() {
    let g = TileGrid::new(uniform_catalog(2), 3, 2).unwrap();
    assert_eq!(g.cells[0].neighbor(Direction::Up), None);
    assert_eq!(g.cells[0].neighbor(Direction::Left), None);
    assert_eq!(g.cells[0].neighbor(Direction::Right), Some(1));
    assert_eq!(g.cells[0].neighbor(Direction::Down), Some(3));
    assert_eq!(g.cells[5].neighbor(Direction::Down), None);
    assert_eq!(g.cells[5].neighbor(Direction::Right), None);
    assert_eq!(g.cells[5].neighbor(Direction::Up), Some(2));
    assert_eq!(g.cells[5].neighbor(Direction::Left), Some(4));
}

#[test]
fn cell_getters_report_superposition_state() {
    let unresolved = Cell::new(vec![1, 2]);
    assert_eq!(unresolved.entropy(), 2);
    assert!(!unresolved.collapsed());
    assert_eq!(unresolved.collapsed_result(), None);
    let done = Cell::new(vec![2]);
    assert_eq!(done.entropy(), 1);
    assert!(done.collapsed());
    assert_eq!(done.collapsed_result(), Some(2));
}

#[test]
fn set_neigh_wires_one_side() {
    let mut c = Cell::new(vec![0]);
    c.set_neigh(Direction::Right, 7);
    assert_eq!(c.neighbor(Direction::Right), Some(7));
    assert_eq!(c.neighbor(Direction::Up), None);
    assert_eq!(c.neighbor(Direction::Down), None);
    assert_eq!(c.neighbor(Direction::Left), None);
}

#[test]
fn collapse_random_keeps_one_prior_candidate() {
    let tiles = uniform_catalog(4);
    let mut c = Cell::new(vec![1, 2, 3]);
    assert!(c.collapse_random(&tiles).is_ok());
    assert_eq!(c.options.len(), 1);
    assert!(vec![1usize, 2, 3].contains(&c.options[0]));
}

#[test]
fn collapse_random_on_empty_cell_is_a_contradiction() {
    let tiles = uniform_catalog(2);
    let mut c = Cell::new(Vec::new());
    assert_eq!(c.collapse_random(&tiles), Err(ContradictionError));
    assert_eq!(c.entropy(), 0);
}

#[test]
fn weighted_draw_respects_candidate_set() {
    let tiles = uniform_catalog(5);
    for _ in 0..50 {
        let mut c = Cell::new(vec![0, 2, 4]);
        assert!(c.collapse_random(&tiles).is_ok());
        assert_eq!(c.options.len(), 1);
        assert!(c.options[0] == 0 || c.options[0] == 2 || c.options[0] == 4);
    }
}

#[test]
fn single_candidate_draw_is_deterministic() {
    let tiles = uniform_catalog(6);
    let mut c = Cell::new(vec![5]);
    assert!(c.collapse_random(&tiles).is_ok());
    assert_eq!(c.options, vec![5]);
}

#[test]
fn collapse_lowest_entropy_collapses_a_minimum_entropy_cell() {
    let mut g = TileGrid::new(uniform_catalog(3), 2, 2).unwrap();
    assert!(g.collapse_to(0, 1));
    assert_eq!(g.cells[0].options, vec![1]);
    // The uniform catalog propagates no restriction: the rest stay full.
    for i in 1..4 {
        assert_eq!(g.cells[i].entropy(), 3);
    }
    assert!(g.collapse_lowest_entropy().is_ok());
    let collapsed = g.cells.iter().filter(|c| c.collapsed()).count();
    assert_eq!(collapsed, 2);
}

#[test]
fn collapse_lowest_entropy_on_fully_collapsed_grid_is_a_noop() {
    let mut g = TileGrid::new(uniform_catalog(1), 2, 2).unwrap();
    for c in &g.cells {
        assert_eq!(c.entropy(), 1);
    }
    assert!(g.collapse_lowest_entropy().is_ok());
    for c in &g.cells {
        assert_eq!(c.options, vec![0]);
    }
}

#[test]
fn grid_collapses_to_completion() {
    let mut g = TileGrid::new(uniform_catalog(4), 3, 3).unwrap();
    for _ in 0..9 {
        assert!(g.collapse_lowest_entropy().is_ok());
    }
    for c in &g.cells {
        assert!(c.collapsed());
        assert!(c.collapsed_result().unwrap() < 4);
    }
}

#[test]
fn reset_restores_full_entropy() {
    let mut g = TileGrid::new(uniform_catalog(3), 2, 2).unwrap();
    assert!(g.collapse_to(2, 0));
    assert!(g.collapse_lowest_entropy().is_ok());
    g.reset();
    for c in &g.cells {
        assert_eq!(c.entropy(), 3);
        assert_eq!(c.options, vec![0, 1, 2]);
    }
}

#[test]
fn reset_recovers_from_a_contradiction() {
    let c = tile("ab", "ab", "ab", "ab", 1);
    let d = tile("cd", "cd", "cd", "cd", 1);
    let mut g = TileGrid::new(vec![c, d], 2, 1).unwrap();
    assert!(g.collapse_to(0, 0));
    assert_eq!(g.collapse_lowest_entropy(), Err(ContradictionError));
    g.reset();
    for c in &g.cells {
        assert_eq!(c.options, vec![0, 1]);
    }
}

#[test]
fn snapshot_is_independent_of_the_original() {
    let mut g = TileGrid::new(uniform_catalog(3), 2, 2).unwrap();
    let snap = g.snapshot();
    assert!(g.collapse_to(0, 2));
    assert_eq!(g.cells[0].options, vec![2]);
    assert_eq!(snap.cells[0].options, vec![0, 1, 2]);
    assert_eq!(snap.width(), 2);
    assert_eq!(snap.height(), 2);
    for (a, b) in snap.tiles.iter().zip(g.tiles.iter()) {
        assert_eq!(a.weight, b.weight);
        assert_eq!(a.sockets.up, b.sockets.up);
    }
}

#[test]
fn two_cell_line_forces_partner() {
    // Tiles A and B are mutually compatible only with each other on the
    // horizontal axis: A's right socket "ab" mirrors B's left socket "ba".
    let a = tile("u", "ab", "d", "l", 1);
    let b = tile("v", "r", "w", "ba", 1);
    let mut g = TileGrid::new(vec![a, b], 2, 1).unwrap();
    assert!(g.collapse_to(0, 0));
    assert_eq!(g.cells[0].options, vec![0]);
    assert_eq!(g.cells[1].options, vec![1]);
}

#[test]
fn incompatible_tile_forces_contradiction() {
    // No socket in the catalog mirrors any socket of tile 0, so committing
    // to it empties the neighbor.
    let c = tile("ab", "ab", "ab", "ab", 1);
    let d = tile("cd", "cd", "cd", "cd", 1);
    let mut g = TileGrid::new(vec![c, d], 2, 1).unwrap();
    assert!(g.collapse_to(0, 0));
    assert_eq!(g.cells[1].entropy(), 0);
    assert_eq!(g.collapse_lowest_entropy(), Err(ContradictionError));
}

#[test]
fn propagation_keeps_catalog_order() {
    // The right cell loses its middle candidate and keeps the survivors in
    // catalog order.
    let t0 = tile("u0", "r0", "d0", "ba", 1);
    let t1 = tile("u1", "ab", "d1", "zz", 1);
    let t2 = tile("u2", "r2", "d2", "ba", 1);
    let mut g = TileGrid::new(vec![t0, t1, t2], 2, 1).unwrap();
    assert!(g.collapse_to(0, 1));
    assert_eq!(g.cells[0].options, vec![1]);
    assert_eq!(g.cells[1].options, vec![0, 2]);
}

#[test]
fn collapse_to_rejects_a_missing_candidate() {
    let mut g = TileGrid::new(uniform_catalog(2), 2, 1).unwrap();
    assert!(g.collapse_to(0, 0));
    assert!(!g.collapse_to(0, 1));
    assert_eq!(g.cells[0].options, vec![0]);
}
