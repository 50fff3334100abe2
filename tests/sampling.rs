use tile_net::TileNet;

fn numbered(cols: usize, rows: usize) -> TileNet<usize> {
    TileNet::from_iter(cols, (1..cols * rows + 1).collect())
}

#[test]
fn sampler_yields_inside_values_in_order() {
    let map = numbered(4, 3);
    let pts = vec![(0, 0), (-1, 2), (3, 2), (4, 0), (1, 1), (0, 3), (2, 0)];
    let mut set = map.collide_set(pts);
    let mut got = Vec::new();
    while let Some(v) = set.next() {
        got.push(*v);
    }
    assert_eq!(got, vec![1, 12, 6, 3]);
}

#[test]
fn sampler_last_coord_follows_skipped_points() {
    let map = numbered(4, 3);
    let mut set = map.collide_set(vec![(1, 0), (9, 9), (-3, 1)]);
    assert_eq!(set.next(), Some(&2));
    assert_eq!(set.get_last_coord(), (1, 0));
    assert_eq!(set.next(), None);
    assert_eq!(set.get_last_coord(), (-3, 1));
}

#[test]
fn sampler_of_nothing() {
    let map = numbered(2, 2);
    let mut set = map.collide_set(Vec::new());
    assert_eq!(set.next(), None);
    assert_eq!(set.get_last_coord(), (0, 0));
}

#[test]
fn sampler_clone_is_independent() {
    let map = numbered(3, 1);
    let mut set = map.collide_set(vec![(0, 0), (1, 0), (2, 0)]);
    set.next();
    let mut copy = set.clone();
    assert_eq!(copy.next(), Some(&2));
    assert_eq!(copy.next(), Some(&3));
    assert_eq!(set.next(), Some(&2));
    assert_eq!(set.get_coords(), (1, 0));
}
