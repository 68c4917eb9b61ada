use wfc::catalog::TileCatalog;
use wfc::direction::Direction;
use wfc::grid::Grid;
use wfc::solver::{make_compatible, propagate, Solver, SolverState};
use wfc::tile::Tile;
use wfc::WfcError;

fn tile(id: usize, sockets: Vec<usize>, rotation: usize) -> Tile {
    Tile::new(id, String::new(), sockets, rotation)
}

/// Tile 0's Right socket matches tile 1's Left socket (both 5), and
/// no other pairing fits in any direction.
fn one_way_catalog() -> TileCatalog {
    TileCatalog::new(vec![
        tile(0, vec![1, 5, 1, 2], 0),
        tile(1, vec![3, 4, 3, 5], 0),
    ])
    .unwrap()
}

/// Two tiles with disjoint socket label sets: nothing fits anything.
fn incompatible_catalog() -> TileCatalog {
    TileCatalog::new(vec![
        tile(0, vec![1, 2, 3, 4], 0),
        tile(1, vec![5, 6, 7, 8], 0),
    ])
    .unwrap()
}

/// Two tiles whose sockets are all the same label: everything fits.
fn free_catalog() -> TileCatalog {
    TileCatalog::new(vec![
        tile(0, vec![0, 0, 0, 0], 0),
        tile(1, vec![0, 0, 0, 0], 0),
    ])
    .unwrap()
}

fn entropies(s: &Solver) -> Vec<Vec<usize>> {
    let g = s.grid();
    let mut rows = Vec::new();
    for x in 0..g.height() {
        let mut row = Vec::new();
        for y in 0..g.width() {
            row.push(g.entropy(x, y).unwrap());
        }
        rows.push(row);
    }
    rows
}

#[test]
fn single_tile_on_a_single_cell_solves_at_once() {
    let cat = TileCatalog::new(vec![tile(0, vec![1, 2, 3, 4], 0)]).unwrap();
    let mut s = Solver::new(cat, 1, 1, 0);
    assert_eq!(s.state(), SolverState::Running);
    assert_eq!(s.run(), SolverState::Solved);
    assert_eq!(s.state(), SolverState::Solved);
    // The one cell still holds the untouched full domain: no
    // propagation ever ran.
    assert_eq!(s.grid().candidates(0, 0), Ok(vec![0]));
}

#[test]
fn two_cells_one_compatible_pairing() {
    // On a 2-wide, 1-tall grid the only consistent outcome places
    // tile 0 left of tile 1. Runs that collapse against the grain end
    // in a contradiction; every solved run is edge-compatible.
    let mut solved = 0;
    for seed in 0..16 {
        let mut s = Solver::new(one_way_catalog(), 2, 1, seed);
        match s.run() {
            SolverState::Solved => {
                solved += 1;
                assert_eq!(s.grid().candidates(0, 0), Ok(vec![0]));
                assert_eq!(s.grid().candidates(0, 1), Ok(vec![1]));
                let cat = one_way_catalog();
                let left = s.grid().candidates(0, 0).unwrap()[0];
                let right = s.grid().candidates(0, 1).unwrap()[0];
                assert_eq!(
                    cat.get_socket(left, Direction::Right),
                    cat.get_socket(right, Direction::Left)
                );
            },
            SolverState::Contradiction => {},
            SolverState::Running => panic!("the run did not finish"),
        }
    }
    assert!(solved > 0);
}

#[test]
fn incompatible_tiles_always_contradict_on_a_square() {
    for seed in 0..8 {
        let mut s = Solver::new(incompatible_catalog(), 2, 2, seed);
        assert_eq!(s.run(), SolverState::Contradiction);
        assert_eq!(s.state(), SolverState::Contradiction);
    }
}

#[test]
fn fully_compatible_tiles_always_solve() {
    for seed in 0..8 {
        let mut s = Solver::new(free_catalog(), 3, 2, seed);
        assert_eq!(s.run(), SolverState::Solved);
    }
}

#[test]
fn fixed_seed_runs_are_identical() {
    let mut a = Solver::new(free_catalog(), 3, 3, 42);
    let mut b = Solver::new(free_catalog(), 3, 3, 42);
    assert_eq!(a.run(), SolverState::Solved);
    assert_eq!(b.run(), SolverState::Solved);
    for x in 0..3 {
        for y in 0..3 {
            assert_eq!(a.grid().candidates(x, y), b.grid().candidates(x, y));
        }
    }
}

#[test]
fn entropy_never_increases_during_a_run() {
    let mut s = Solver::new(free_catalog(), 3, 3, 9);
    let mut before = entropies(&s);
    let mut steps = 0;
    while s.state() == SolverState::Running && steps < 100 {
        s.step();
        let after = entropies(&s);
        for x in 0..3 {
            for y in 0..3 {
                assert!(after[x][y] <= before[x][y]);
            }
        }
        before = after;
        steps += 1;
    }
    assert_eq!(s.state(), SolverState::Solved);
}

#[test]
fn solved_runs_leave_every_cell_collapsed() {
    let mut s = Solver::new(free_catalog(), 4, 2, 3);
    assert_eq!(s.run(), SolverState::Solved);
    for x in 0..2 {
        for y in 0..4 {
            assert_eq!(s.grid().entropy(x, y), Ok(1));
        }
    }
}

#[test]
fn stepping_a_finished_run_changes_nothing() {
    let mut s = Solver::new(free_catalog(), 2, 1, 5);
    assert_eq!(s.run(), SolverState::Solved);
    let before = entropies(&s);
    s.step();
    assert_eq!(s.state(), SolverState::Solved);
    assert_eq!(entropies(&s), before);
}

#[test]
fn propagation_narrows_the_neighbor_to_the_compatible_tiles() {
    let cat = one_way_catalog();
    let mut g = Grid::new(2, 1, cat.size());
    // Pin the left cell to tile 0 by hand; propagation must narrow
    // the right cell to tile 1.
    assert_eq!(g.remove(0, 0, 1), Ok(true));
    assert_eq!(propagate(&mut g, &cat, 0, 0), Ok(()));
    assert_eq!(g.candidates(0, 0), Ok(vec![0]));
    assert_eq!(g.candidates(0, 1), Ok(vec![1]));
}

#[test]
fn propagation_reports_a_contradiction_and_stops() {
    let cat = one_way_catalog();
    let mut g = Grid::new(2, 1, cat.size());
    // Pinning the left cell to tile 1 leaves nothing for the right
    // cell: tile 1's Right socket matches no Left socket.
    assert_eq!(g.remove(0, 0, 0), Ok(true));
    assert_eq!(propagate(&mut g, &cat, 0, 0), Err(WfcError::Contradiction));
    // The contradictory state is left in place for diagnostics.
    assert_eq!(g.candidates(0, 0), Ok(vec![1]));
    assert_eq!(g.candidates(0, 1), Ok(vec![0, 1]));
}

#[test]
fn one_arc_step_filters_by_socket_match() {
    let cat = one_way_catalog();
    let mut g = Grid::new(2, 1, cat.size());
    assert_eq!(g.remove(0, 0, 1), Ok(true));
    assert_eq!(make_compatible(&mut g, &cat, 0, 0, Direction::Right), Ok(true));
    assert_eq!(g.candidates(0, 1), Ok(vec![1]));
    // Re-running the already-consistent arc is a harmless no-op.
    assert_eq!(make_compatible(&mut g, &cat, 0, 0, Direction::Right), Ok(false));
    assert_eq!(g.candidates(0, 1), Ok(vec![1]));
    // An off-grid neighbor changes nothing.
    assert_eq!(make_compatible(&mut g, &cat, 0, 0, Direction::Up), Ok(false));
    assert_eq!(make_compatible(&mut g, &cat, 0, 0, Direction::Left), Ok(false));
}
