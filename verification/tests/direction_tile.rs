use wfc::direction::Direction;
use wfc::sockets::{edge_key, pixel_key, SocketInterner};
use wfc::tile::Tile;

#[test]
fn direction_indices_are_canonical() {
    assert_eq!(Direction::Up.to_num(), 0);
    assert_eq!(Direction::Right.to_num(), 1);
    assert_eq!(Direction::Down.to_num(), 2);
    assert_eq!(Direction::Left.to_num(), 3);
    assert_eq!(Direction::Up.get_value(), 0);
    assert_eq!(Direction::Right.get_value(), 1);
    assert_eq!(Direction::Down.get_value(), 2);
    assert_eq!(Direction::Left.get_value(), 3);
}

#[test]
fn from_num_inverts_to_num() {
    for n in 0..4 {
        assert_eq!(Direction::from_num(n).to_num(), n);
    }
}

#[test]
fn opposites_pair_up_and_down_left_and_right() {
    assert_eq!(Direction::Up.get_opposite().to_num(), Direction::Down.to_num());
    assert_eq!(Direction::Down.get_opposite().to_num(), Direction::Up.to_num());
    assert_eq!(Direction::Left.get_opposite().to_num(), Direction::Right.to_num());
    assert_eq!(Direction::Right.get_opposite().to_num(), Direction::Left.to_num());
}

#[test]
fn adjust_coordinate_moves_one_cell() {
    assert_eq!(Direction::Up.adjust_coordinate(2, 5), Some((1, 5)));
    assert_eq!(Direction::Down.adjust_coordinate(2, 5), Some((3, 5)));
    assert_eq!(Direction::Left.adjust_coordinate(2, 5), Some((2, 4)));
    assert_eq!(Direction::Right.adjust_coordinate(2, 5), Some((2, 6)));
}

#[test]
fn adjust_coordinate_refuses_to_leave_the_matrix() {
    assert_eq!(Direction::Up.adjust_coordinate(0, 3), None);
    assert_eq!(Direction::Left.adjust_coordinate(3, 0), None);
    assert_eq!(Direction::Down.adjust_coordinate(0, 3), Some((1, 3)));
    assert_eq!(Direction::Right.adjust_coordinate(3, 0), Some((3, 1)));
}

#[test]
fn unit_coordinates_match_the_moves() {
    assert_eq!(Direction::Up.get_index_unit_coordinate(), (-1, 0));
    assert_eq!(Direction::Right.get_index_unit_coordinate(), (0, 1));
    assert_eq!(Direction::Down.get_index_unit_coordinate(), (1, 0));
    assert_eq!(Direction::Left.get_index_unit_coordinate(), (0, -1));
}

#[test]
fn tile_accessors_return_what_was_given() {
    let t = Tile::new(7, String::from("assets/a.png"), vec![10, 20, 30, 40], 2);
    assert_eq!(t.get_id(), 7);
    assert_eq!(t.get_src(), String::from("assets/a.png"));
    assert_eq!(t.get_sockets(), vec![10, 20, 30, 40]);
    assert_eq!(t.get_rotation(), 2);
    assert_eq!(t.socket_count(), 4);
}

#[test]
fn rotation_shifts_the_read_index_cyclically() {
    // Base sockets [a, b, c, d]; rotating by one quarter turn makes
    // each direction read the next array entry.
    let mut t = Tile::new(0, String::new(), vec![10, 20, 30, 40], 0);
    assert_eq!(t.get_socket(0), 10);
    assert_eq!(t.get_socket(1), 20);
    assert_eq!(t.get_socket(2), 30);
    assert_eq!(t.get_socket(3), 40);
    t.set_current_rotation(1);
    assert_eq!(t.get_socket(0), 20);
    assert_eq!(t.get_socket(1), 30);
    assert_eq!(t.get_socket(2), 40);
    assert_eq!(t.get_socket(3), 10);
}

#[test]
fn rotating_four_times_returns_to_the_original_sequence() {
    let mut t = Tile::new(0, String::new(), vec![10, 20, 30, 40], 0);
    let before: Vec<usize> = (0..4).map(|d| t.get_socket(d)).collect();
    t.set_current_rotation(4);
    let after: Vec<usize> = (0..4).map(|d| t.get_socket(d)).collect();
    assert_eq!(before, after);
}

#[test]
fn pixel_key_packs_channels_in_base_1000() {
    assert_eq!(pixel_key(0, 0, 0), 0);
    assert_eq!(pixel_key(255, 0, 0), 255);
    assert_eq!(pixel_key(0, 255, 0), 255_000);
    assert_eq!(pixel_key(0, 0, 255), 255_000_000);
    assert_eq!(pixel_key(255, 255, 255), 255_255_255);
    assert_eq!(pixel_key(1, 2, 3), 3_002_001);
}

#[test]
fn edge_key_maps_each_pixel() {
    let reds = vec![1, 0, 255];
    let greens = vec![2, 0, 255];
    let blues = vec![3, 0, 255];
    assert_eq!(edge_key(&reds, &greens, &blues), vec![3_002_001, 0, 255_255_255]);
}

#[test]
fn interner_hands_out_fresh_ids_in_order() {
    let mut it = SocketInterner::new();
    assert_eq!(it.len(), 0);
    assert_eq!(it.intern(vec![1, 2, 3]), 0);
    assert_eq!(it.intern(vec![4, 5]), 1);
    assert_eq!(it.intern(vec![]), 2);
    assert_eq!(it.len(), 3);
}

#[test]
fn interner_reuses_the_id_of_an_equal_edge() {
    let mut it = SocketInterner::new();
    let a = it.intern(vec![9, 9, 9]);
    let b = it.intern(vec![8, 9, 9]);
    assert_eq!(it.intern(vec![9, 9, 9]), a);
    assert_eq!(it.intern(vec![8, 9, 9]), b);
    assert_ne!(a, b);
    assert_eq!(it.len(), 2);
}
