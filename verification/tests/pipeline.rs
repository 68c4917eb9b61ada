//! The whole path from edge pixels to a solved grid.

use wfc::catalog::TileCatalog;
use wfc::direction::Direction;
use wfc::sockets::{edge_key, SocketInterner};
use wfc::solver::{Solver, SolverState};
use wfc::tile::Tile;
use wfc::WfcError;

/// A synthetic 2x2 tile image as four edges of channel rows, from
/// which the four socket labels are derived as the loader would.
fn sockets_of(edges: [[(u8, u8, u8); 2]; 4], interner: &mut SocketInterner) -> Vec<usize> {
    let mut sockets = Vec::new();
    for edge in edges.iter() {
        let reds: Vec<u8> = edge.iter().map(|p| p.0).collect();
        let greens: Vec<u8> = edge.iter().map(|p| p.1).collect();
        let blues: Vec<u8> = edge.iter().map(|p| p.2).collect();
        sockets.push(interner.intern(edge_key(&reds, &greens, &blues)));
    }
    sockets
}

#[test]
fn equal_edges_get_equal_sockets_and_the_grid_solves() {
    let mut interner = SocketInterner::new();
    let grass = [(0, 200, 0), (0, 200, 0)];
    let road = [(90, 90, 90), (90, 90, 90)];
    // One all-grass tile and one tile with a road on its left and
    // right edges: grass edges all get the same label, road edges
    // another.
    let grass_tile = sockets_of([grass, grass, grass, grass], &mut interner);
    let road_tile = sockets_of([grass, road, grass, road], &mut interner);
    assert_eq!(grass_tile, vec![0, 0, 0, 0]);
    assert_eq!(road_tile, vec![0, 1, 0, 1]);

    let cat = TileCatalog::new(vec![
        Tile::new(0, String::from("grass"), grass_tile, 0),
        Tile::new(1, String::from("road"), road_tile, 0),
    ])
    .unwrap();
    assert_eq!(cat.get_tile(0).unwrap().get_src(), String::from("grass"));
    assert_eq!(cat.get_tile(2).err(), Some(WfcError::UnknownTile));

    let mut s = Solver::new(cat, 4, 3, 11);
    assert_eq!(s.run(), SolverState::Solved);
    // Every horizontally adjacent pair presents matching sockets.
    let grid = s.grid();
    let catalog = TileCatalog::new(vec![
        Tile::new(0, String::from("grass"), vec![0, 0, 0, 0], 0),
        Tile::new(1, String::from("road"), vec![0, 1, 0, 1], 0),
    ])
    .unwrap();
    for x in 0..3 {
        for y in 0..3 {
            let left = grid.candidates(x, y).unwrap()[0];
            let right = grid.candidates(x, y + 1).unwrap()[0];
            assert_eq!(
                catalog.get_socket(left, Direction::Right),
                catalog.get_socket(right, Direction::Left)
            );
        }
    }
}
