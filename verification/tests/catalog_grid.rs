use wfc::catalog::{expand_rotations, TileCatalog};
use wfc::direction::Direction;
use wfc::grid::Grid;
use wfc::tile::Tile;
use wfc::WfcError;

fn tile(id: usize, sockets: Vec<usize>, rotation: usize) -> Tile {
    Tile::new(id, String::new(), sockets, rotation)
}

#[test]
fn catalog_accepts_well_formed_records() {
    let cat = TileCatalog::new(vec![
        tile(0, vec![1, 2, 3, 4], 0),
        tile(1, vec![5, 6, 7, 8], 3),
    ])
    .unwrap();
    assert_eq!(cat.size(), 2);
}

#[test]
fn catalog_rejects_wrong_socket_arity() {
    let r = TileCatalog::new(vec![tile(0, vec![1, 2, 3], 0)]);
    assert_eq!(r.err(), Some(WfcError::MalformedCatalog));
}

#[test]
fn catalog_rejects_rotation_of_four_or_more() {
    let r = TileCatalog::new(vec![tile(0, vec![1, 2, 3, 4], 4)]);
    assert_eq!(r.err(), Some(WfcError::MalformedCatalog));
}

#[test]
fn catalog_rejects_ids_that_disagree_with_positions() {
    let r = TileCatalog::new(vec![tile(1, vec![1, 2, 3, 4], 0)]);
    assert_eq!(r.err(), Some(WfcError::MalformedCatalog));
}

#[test]
fn catalog_socket_lookup_applies_the_rotation() {
    let cat = TileCatalog::new(vec![
        tile(0, vec![10, 20, 30, 40], 0),
        tile(1, vec![10, 20, 30, 40], 1),
    ])
    .unwrap();
    assert_eq!(cat.get_socket(0, Direction::Up), Ok(10));
    assert_eq!(cat.get_socket(0, Direction::Right), Ok(20));
    assert_eq!(cat.get_socket(0, Direction::Down), Ok(30));
    assert_eq!(cat.get_socket(0, Direction::Left), Ok(40));
    assert_eq!(cat.get_socket(1, Direction::Up), Ok(20));
    assert_eq!(cat.get_socket(1, Direction::Right), Ok(30));
    assert_eq!(cat.get_socket(1, Direction::Down), Ok(40));
    assert_eq!(cat.get_socket(1, Direction::Left), Ok(10));
}

#[test]
fn catalog_reports_unknown_tiles() {
    let cat = TileCatalog::new(vec![tile(0, vec![1, 2, 3, 4], 0)]).unwrap();
    assert_eq!(cat.get_socket(1, Direction::Up), Err(WfcError::UnknownTile));
    assert_eq!(cat.get_socket(99, Direction::Down), Err(WfcError::UnknownTile));
}

#[test]
fn expand_rotations_numbers_the_quarter_turns() {
    let bases = vec![
        tile(0, vec![1, 2, 3, 4], 0),
        tile(1, vec![5, 6, 7, 8], 0),
    ];
    let all = expand_rotations(bases);
    assert_eq!(all.len(), 8);
    for (j, t) in all.iter().enumerate() {
        assert_eq!(t.get_id(), j);
        assert_eq!(t.get_rotation(), j % 4);
        if j < 4 {
            assert_eq!(t.get_sockets(), vec![1, 2, 3, 4]);
        } else {
            assert_eq!(t.get_sockets(), vec![5, 6, 7, 8]);
        }
    }
    // The expansion is a valid catalog input.
    let cat = TileCatalog::new(all).unwrap();
    assert_eq!(cat.size(), 8);
}

#[test]
fn fresh_grid_holds_the_full_id_range_everywhere() {
    let g = Grid::new(3, 2, 4);
    assert_eq!(g.width(), 3);
    assert_eq!(g.height(), 2);
    assert_eq!(g.num_tiles(), 4);
    for x in 0..2 {
        for y in 0..3 {
            assert_eq!(g.entropy(x, y), Ok(4));
            assert_eq!(g.candidates(x, y), Ok(vec![0, 1, 2, 3]));
        }
    }
}

#[test]
fn grid_reports_out_of_bounds_coordinates() {
    let mut g = Grid::new(2, 2, 3);
    assert_eq!(g.entropy(2, 0), Err(WfcError::OutOfBounds));
    assert_eq!(g.entropy(0, 2), Err(WfcError::OutOfBounds));
    assert_eq!(g.candidates(5, 5).err(), Some(WfcError::OutOfBounds));
    assert_eq!(g.remove(2, 0, 1), Err(WfcError::OutOfBounds));
    let mut rng = <rand::rngs::StdRng as rand::SeedableRng>::seed_from_u64(0);
    assert_eq!(g.collapse(0, 9, &mut rng), Err(WfcError::OutOfBounds));
    assert!(g.in_bounds(1, 1));
    assert!(!g.in_bounds(2, 1));
}

#[test]
fn remove_reports_whether_the_set_changed() {
    let mut g = Grid::new(1, 1, 3);
    assert_eq!(g.remove(0, 0, 1), Ok(true));
    assert_eq!(g.candidates(0, 0), Ok(vec![0, 2]));
    assert_eq!(g.entropy(0, 0), Ok(2));
    // Removing an absent candidate is a no-op.
    assert_eq!(g.remove(0, 0, 1), Ok(false));
    assert_eq!(g.candidates(0, 0), Ok(vec![0, 2]));
}

#[test]
fn collapse_is_a_no_op_at_entropy_one() {
    let mut g = Grid::new(1, 1, 2);
    let mut rng = <rand::rngs::StdRng as rand::SeedableRng>::seed_from_u64(1);
    assert_eq!(g.remove(0, 0, 0), Ok(true));
    assert_eq!(g.candidates(0, 0), Ok(vec![1]));
    assert_eq!(g.collapse(0, 0, &mut rng), Ok(()));
    assert_eq!(g.candidates(0, 0), Ok(vec![1]));
}

#[test]
fn collapse_picks_one_of_the_candidates() {
    let mut g = Grid::new(1, 1, 5);
    let mut rng = <rand::rngs::StdRng as rand::SeedableRng>::seed_from_u64(2);
    assert_eq!(g.collapse(0, 0, &mut rng), Ok(()));
    let c = g.candidates(0, 0).unwrap();
    assert_eq!(c.len(), 1);
    assert!(c[0] < 5);
}

#[test]
fn max_entropy_scans_the_whole_grid() {
    let mut g = Grid::new(2, 2, 3);
    assert_eq!(g.max_entropy(), 3);
    for x in 0..2 {
        for y in 0..2 {
            assert_eq!(g.remove(x, y, 0), Ok(true));
        }
    }
    assert_eq!(g.max_entropy(), 2);
    let empty = Grid::new(0, 0, 3);
    assert_eq!(empty.max_entropy(), 0);
}

#[test]
fn min_entropy_cell_is_the_first_least_uncertain_one() {
    let mut g = Grid::new(2, 2, 3);
    assert_eq!(g.remove(1, 1, 0), Ok(true));
    assert_eq!(g.min_entropy_uncollapsed_cell(), Some((1, 1)));
    // A tie appearing earlier in row-major order wins.
    assert_eq!(g.remove(0, 1, 2), Ok(true));
    assert_eq!(g.min_entropy_uncollapsed_cell(), Some((0, 1)));
}

#[test]
fn min_entropy_cell_ignores_collapsed_cells() {
    let mut g = Grid::new(2, 1, 2);
    assert_eq!(g.remove(0, 0, 0), Ok(true));
    // Cell (0,0) is collapsed; the other still has two candidates.
    assert_eq!(g.min_entropy_uncollapsed_cell(), Some((0, 1)));
    assert_eq!(g.remove(0, 1, 1), Ok(true));
    assert_eq!(g.min_entropy_uncollapsed_cell(), None);
}
