use tile_net::TileNet;

fn numbered(cols: usize, rows: usize) -> TileNet<usize> {
    TileNet::from_iter(cols, (1..cols * rows + 1).collect())
}

#[test]
fn get_boundaries_of_rectangular_grid() {
    let map = numbered(7, 4);
    assert_eq!(map.get((0, 0)), Some(&1));
    assert_eq!(map.get((6, 0)), Some(&7));
    assert_eq!(map.get((0, 3)), Some(&22));
    assert_eq!(map.get((6, 3)), Some(&28));
    assert_eq!(map.get((7, 0)), None);
    assert_eq!(map.get((0, 4)), None);
    assert_eq!(map.get((7, 4)), None);
}

#[test]
fn get_mut_boundaries() {
    let mut map = numbered(7, 4);
    assert!(map.get_mut((6, 3)).is_some());
    assert!(map.get_mut((7, 3)).is_none());
    assert!(map.get_mut((6, 4)).is_none());
    *map.get_mut((0, 3)).unwrap() = 99;
    assert_eq!(map.get((0, 3)), Some(&99));
    assert_eq!(map.get((1, 3)), Some(&23));
}

#[test]
fn negative_coordinates_are_absent_from_a_sample() {
    let map = numbered(3, 3);
    let mut set = map.collide_set(vec![(-1, 0), (0, -1), (3, 0), (0, 3), (2, 2)]);
    assert_eq!(set.next(), Some(&9));
    assert_eq!(set.next(), None);
}

#[test]
fn resize_round_trip_keeps_overlap() {
    let mut map = numbered(6, 5);
    map.resize((4, 7));
    assert_eq!(map.get_size(), (4, 7));
    assert_eq!(map.get((3, 4)), Some(&28));
    assert_eq!(map.get((3, 6)), Some(&0));
    map.resize((6, 5));
    assert_eq!(map.get_size(), (6, 5));
    for row in 0..5 {
        for col in 0..6 {
            let expected = if col < 4 { row * 6 + col + 1 } else { 0 };
            assert_eq!(map.get((col, row)), Some(&expected));
        }
    }
}

#[test]
fn resize_to_empty_and_back() {
    let mut map = numbered(3, 3);
    map.resize((0, 0));
    assert_eq!(map.get_size(), (0, 0));
    assert_eq!(map.get((0, 0)), None);
    map.resize((2, 2));
    assert_eq!(map.get((1, 1)), Some(&0));
}

#[test]
fn set_writes_one_cell_and_clips() {
    let mut map: TileNet<usize> = TileNet::new(4, 4);
    map.set(&7, (2, 1));
    map.set(&8, (4, 1));
    map.set(&8, (1, 4));
    assert_eq!(map.get((2, 1)), Some(&7));
    let total: usize = (0..4).flat_map(|r| (0..4).map(move |c| (c, r))).map(|p| *map.get(p).unwrap()).sum();
    assert_eq!(total, 7);
}

#[test]
fn set_row_col_and_box() {
    let mut map: TileNet<usize> = TileNet::new(5, 4);
    map.set_row(&1, 0);
    map.set_col(&2, 4);
    map.set_box(&3, (1, 1), (3, 3));
    map.set_row(&9, 4);
    map.set_col(&9, 5);
    let rows: Vec<Vec<usize>> =
        (0..4).map(|r| (0..5).map(|c| *map.get((c, r)).unwrap()).collect()).collect();
    assert_eq!(rows[0], vec![1, 1, 1, 1, 2]);
    assert_eq!(rows[1], vec![0, 3, 3, 0, 2]);
    assert_eq!(rows[2], vec![0, 3, 3, 0, 2]);
    assert_eq!(rows[3], vec![0, 0, 0, 0, 2]);
}

#[test]
fn set_box_clips_to_grid() {
    let mut map: TileNet<usize> = TileNet::new(3, 3);
    map.set_box(&5, (1, 2), (10, 10));
    map.set_box(&6, (2, 0), (1, 3));
    let rows: Vec<Vec<usize>> =
        (0..3).map(|r| (0..3).map(|c| *map.get((c, r)).unwrap()).collect()).collect();
    assert_eq!(rows, vec![vec![0, 0, 0], vec![0, 0, 0], vec![0, 5, 5]]);
}

#[test]
fn from_iter_partial_last_row() {
    let map: TileNet<usize> = TileNet::from_iter(4, vec![5, 6, 7, 8, 9]);
    assert_eq!(map.get_size(), (4, 2));
    assert_eq!(map.get((0, 1)), Some(&9));
    assert_eq!(map.get((1, 1)), Some(&0));
    assert_eq!(map.get((3, 1)), Some(&0));
}

#[test]
fn sample_grid_frame() {
    let map = TileNet::sample();
    assert_eq!(map.get_size(), (10, 10));
    assert_eq!(map.get((5, 0)), Some(&1));
    assert_eq!(map.get((5, 9)), Some(&2));
    assert_eq!(map.get((0, 5)), Some(&3));
    assert_eq!(map.get((9, 5)), Some(&4));
    assert_eq!(map.get((3, 3)), Some(&5));
    assert_eq!(map.get((4, 6)), Some(&5));
    assert_eq!(map.get((5, 6)), Some(&0));
    assert_eq!(map.get((3, 7)), Some(&0));
}
