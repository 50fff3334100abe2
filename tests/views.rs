use tile_net::TileNet;

fn numbered(cols: usize, rows: usize) -> TileNet<usize> {
    TileNet::from_iter(cols, (1..cols * rows + 1).collect())
}

fn drain(mut view: tile_net::TileView<'_, usize>) -> Vec<(usize, usize, usize)> {
    let mut out = Vec::new();
    while let Some((v, c, r)) = view.next() {
        out.push((*v, c, r));
    }
    out
}

#[test]
fn view_box_ten_by_ten_rectangle() {
    let map = numbered(10, 10);
    let values: Vec<usize> = drain(map.view_box((3, 8, 1, 4))).into_iter().map(|t| t.0).collect();
    let expected: Vec<usize> = (14..19).chain(24..29).chain(34..39).collect();
    assert_eq!(values, expected);
}

#[test]
fn view_box_reports_coordinates_and_clips() {
    let map = numbered(3, 2);
    let cells = drain(map.view_box((1, 9, 1, 9)));
    assert_eq!(cells, vec![(5, 1, 1), (6, 2, 1)]);
}

#[test]
fn view_box_empty_rectangles() {
    let map = numbered(3, 3);
    assert!(drain(map.view_box((2, 2, 0, 3))).is_empty());
    assert!(drain(map.view_box((0, 3, 2, 1))).is_empty());
    assert!(drain(map.view_box((5, 9, 0, 3))).is_empty());
}

#[test]
fn view_all_walks_every_tile_row_major() {
    let map = numbered(3, 2);
    let values: Vec<usize> = drain(map.view_all()).into_iter().map(|t| t.0).collect();
    assert_eq!(values, vec![1, 2, 3, 4, 5, 6]);
}

#[test]
fn view_center_clamps_negative_start() {
    let map = numbered(10, 10);
    let cells = drain(map.view_center((1, 3), (2, 1)));
    let coords: Vec<(usize, usize)> = cells.iter().map(|t| (t.1, t.2)).collect();
    assert_eq!(coords, vec![(0, 2), (1, 2), (2, 2), (0, 3), (1, 3), (2, 3)]);
}

#[test]
fn view_center_clips_at_far_edge() {
    let map = numbered(4, 4);
    let cells = drain(map.view_center((3, 3), (2, 2)));
    let coords: Vec<(usize, usize)> = cells.iter().map(|t| (t.1, t.2)).collect();
    assert_eq!(coords, vec![(1, 1), (2, 1), (3, 1), (1, 2), (2, 2), (3, 2), (1, 3), (2, 3), (3, 3)]);
}

#[test]
fn view_clone_is_independent() {
    let map = numbered(2, 2);
    let mut view = map.view_all();
    view.next();
    let copy = view.clone();
    assert_eq!(drain(copy).len(), 3);
    assert_eq!(view.next().map(|t| *t.0), Some(2));
}
