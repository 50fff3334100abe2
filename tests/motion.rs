use tile_net::geometry::SCALE;
use tile_net::merge::merge_covers;
use tile_net::{Collable, Line, SolveState, TileNet, TileSet, Vector, MAX_ITERATIONS};

fn at(x: i64, y: i64) -> Vector {
    Vector(x, y)
}

#[test]
fn supercover_single_cell() {
    let line = Line(at(SCALE / 2, SCALE / 2), at(SCALE / 2 + 100, SCALE / 2 - 100));
    assert_eq!(line.supercover(), vec![(0, 0)]);
}

#[test]
fn supercover_horizontal() {
    let line = Line(at(SCALE / 2, 3 * SCALE + 5), at(3 * SCALE + 1, 3 * SCALE + 5));
    assert_eq!(line.supercover(), vec![(0, 3), (1, 3), (2, 3), (3, 3)]);
}

#[test]
fn supercover_through_a_corner() {
    let line = Line(at(SCALE / 2, SCALE / 2), at(3 * SCALE / 2, 3 * SCALE / 2));
    assert_eq!(line.supercover(), vec![(0, 0), (1, 0), (0, 1), (1, 1)]);
}

#[test]
fn supercover_shallow_slope() {
    // From (0.5, 0.5) to (3.5, 1.5): crosses x = 1 at y = 0.667, x = 2 at
    // y = 1.0 (a corner), x = 3 at y = 1.333.
    let line = Line(at(SCALE / 2, SCALE / 2), at(7 * SCALE / 2, 3 * SCALE / 2));
    assert_eq!(line.supercover(), vec![(0, 0), (1, 0), (2, 0), (1, 1), (2, 1), (3, 1)]);
}

#[test]
fn supercover_negative_direction() {
    let line = Line(at(SCALE / 4, SCALE / 4), at(-SCALE - SCALE / 2, SCALE / 4));
    assert_eq!(line.supercover(), vec![(0, 0), (-1, 0), (-2, 0)]);
}

#[test]
fn supercover_ends_in_endpoint_cells() {
    let o = at(123_456_789, -987_654);
    let d = at(-55_555_555, 77_777_777);
    let cells = Line(o, d).supercover();
    let cell = |v: i64| v.div_euclid(SCALE) as i32;
    assert_eq!(cells[0], (cell(o.0), cell(o.1)));
    assert_eq!(*cells.last().unwrap(), (cell(d.0), cell(d.1)));
    for w in cells.windows(2) {
        assert!((w[0].0 - w[1].0).abs() <= 1 && (w[0].1 - w[1].1).abs() <= 1);
    }
}

#[test]
fn vector_arithmetic() {
    let v = at(3, -4).add(at(10, 20));
    assert_eq!(v, at(13, 16));
    assert_eq!(at(3, -4).norm2sq(), 25);
    let mut w = at(100, -100);
    w.scale(9, 10);
    assert_eq!(w, at(90, -90));
    let mut u = at(-7, 7);
    u.scale(1, 2);
    assert_eq!(u, at(-4, 3));
}

#[test]
fn merge_covers_round_robin() {
    let merged = merge_covers(vec![
        vec![(0, 0), (0, 1), (0, 2)],
        vec![(5, 5)],
        vec![(9, 0), (9, 1)],
    ]);
    assert_eq!(merged, vec![(0, 0), (5, 5), (9, 0), (0, 1), (9, 1), (0, 2)]);
}

#[test]
fn solve_state_always_rejected() {
    let mut s = SolveState::start();
    let mut n = 0;
    while !s.finished() {
        s.record(false);
        n += 1;
    }
    assert_eq!(n, MAX_ITERATIONS);
    assert_eq!(s.attempts, 30);
    assert!(!s.resolved);
    assert!(s.collided_once);
}

#[test]
fn solve_state_accepted_on_third() {
    let mut s = SolveState::new(5);
    s.record(false);
    s.record(false);
    assert!(!s.finished());
    s.record(true);
    assert!(s.finished());
    assert_eq!(s, SolveState { bound: 5, attempts: 3, collided_once: true, resolved: true });
}

#[test]
fn solve_state_accepted_on_first() {
    let mut s = SolveState::new(5);
    s.record(true);
    assert!(s.finished());
    assert!(!s.collided_once);
}

/// An object of one or more vertices that accepts a move only over zero
/// tiles, and otherwise shrinks it to nine tenths.
struct Mover {
    shape: Vec<Vector>,
    pos: Vector,
    mov: Vector,
    answers: Vec<bool>,
    hooks: (usize, Option<(bool, bool)>),
}

impl Mover {
    fn new(shape: Vec<Vector>, pos: Vector, mov: Vector) -> Mover {
        Mover { shape, pos, mov, answers: Vec::new(), hooks: (0, None) }
    }
}

impl Collable<usize> for Mover {
    // Specification-only: what `points` returns, for the verifier. Never run.
    fn spec_points(&self) -> vstd::seq::Seq<Vector> {
        unreachable!()
    }

    // Specification-only: what `queued` returns. Never run.
    fn spec_queued(&self) -> Vector {
        unreachable!()
    }

    fn points(&self) -> Vec<Vector> {
        self.shape.iter().map(|p| p.add(self.pos)).collect()
    }

    fn queued(&self) -> Vector {
        self.mov
    }

    fn resolve(&mut self, mut set: TileSet<'_, usize>) -> bool {
        let mut clear = true;
        while let Some(t) = set.next() {
            if *t != 0 {
                clear = false;
                break;
            }
        }
        let accepted = if clear {
            self.pos = self.pos.add(self.mov);
            self.mov = Vector(0, 0);
            true
        } else if self.mov.norm2sq() > 0 {
            self.mov.scale(9, 10);
            false
        } else {
            true
        };
        self.answers.push(accepted);
        accepted
    }

    fn presolve(&mut self) {
        self.hooks.0 += 1;
    }

    fn postsolve(&mut self, collided_once: bool, resolved: bool) {
        self.hooks.1 = Some((collided_once, resolved));
    }
}

/// Rejects every move without shrinking it.
struct Stubborn {
    calls: usize,
}

impl Collable<usize> for Stubborn {
    // Specification-only: what `points` returns, for the verifier. Never run.
    fn spec_points(&self) -> vstd::seq::Seq<Vector> {
        unreachable!()
    }

    // Specification-only: what `queued` returns. Never run.
    fn spec_queued(&self) -> Vector {
        unreachable!()
    }

    fn points(&self) -> Vec<Vector> {
        vec![at(SCALE, SCALE)]
    }

    fn queued(&self) -> Vector {
        at(SCALE, 0)
    }

    fn resolve(&mut self, _set: TileSet<'_, usize>) -> bool {
        self.calls += 1;
        false
    }
}

fn cell_of(p: Vector) -> (usize, usize) {
    (p.0.div_euclid(SCALE) as usize, p.1.div_euclid(SCALE) as usize)
}

#[test]
fn solve_stops_at_the_bound() {
    let net: TileNet<usize> = TileNet::new(10, 10);
    let mut obj = Stubborn { calls: 0 };
    let end = obj.solve(&net);
    assert_eq!(obj.calls, 30);
    assert_eq!(end.attempts, 30);
    assert!(!end.resolved);
    assert!(end.collided_once);
}

#[test]
fn solve_on_a_free_grid_accepts_at_once() {
    let net: TileNet<usize> = TileNet::new(10, 10);
    let mut obj = Mover::new(vec![at(0, 0)], at(SCALE, SCALE), at(2 * SCALE, 0));
    let end = obj.solve(&net);
    assert_eq!(end.attempts, 1);
    assert!(end.resolved && !end.collided_once);
    assert_eq!(obj.pos, at(3 * SCALE, SCALE));
    assert_eq!(obj.hooks, (1, Some((false, true))));
}

#[test]
fn solve_reports_retries_before_acceptance() {
    let mut net: TileNet<usize> = TileNet::new(10, 10);
    net.set(&1, (5, 1));
    let mut obj = Mover::new(vec![at(0, 0)], at(SCALE + SCALE / 2, SCALE + SCALE / 2), at(4 * SCALE, 0));
    let end = obj.solve(&net);
    assert!(end.resolved);
    assert!(end.attempts > 1);
    assert!(end.collided_once);
    assert_eq!(obj.answers.len(), end.attempts);
    assert_eq!(obj.hooks, (1, Some((true, true))));
    assert!(cell_of(obj.pos).0 < 5);
}

#[test]
fn single_row_grid_move_is_accepted() {
    let mut net: TileNet<usize> = TileNet::new(10, 10);
    net.set_row(&1, 0);
    let start = at(72_090, 72_090);
    let mut obj = Mover::new(vec![at(0, 0)], start, at(100 * SCALE, 100 * SCALE));
    let mut rounds = 0;
    loop {
        let cells = obj.tiles(obj.queued());
        let mut seen = net.collide_set(cells.clone());
        let mut any = false;
        while let Some(t) = seen.next() {
            any |= *t != 0;
        }
        let set = net.collide_set(cells);
        rounds += 1;
        if obj.resolve(set) {
            assert!(!any);
            break;
        }
        assert!(rounds < 1000);
    }
    assert_eq!(rounds, 1);
    assert_eq!(obj.pos, at(72_090 + 100 * SCALE, 72_090 + 100 * SCALE));
}

#[test]
fn framed_grid_move_shrinks_until_inside() {
    let net = TileNet::sample();
    let start = at(72_090, 72_090);
    let mut obj = Mover::new(vec![at(0, 0)], start, at(100 * SCALE, 100 * SCALE));
    let mut rounds = 0;
    loop {
        let set = net.collide_set(obj.tiles(obj.queued()));
        rounds += 1;
        if obj.resolve(set) {
            break;
        }
        assert!(rounds < 1000);
    }
    assert!(rounds > 1);
    let (c, r) = cell_of(obj.pos);
    assert!(obj.pos.0 > 0 && obj.pos.1 > 0 && c < 10 && r < 10);
    assert_eq!(net.get((c, r)), Some(&0));
}

#[test]
fn tiles_merges_vertex_covers_nearest_first() {
    let obj = Mover::new(vec![at(0, 0), at(0, 2 * SCALE)], at(SCALE / 2, SCALE / 2), at(0, 0));
    let cells = obj.tiles(at(2 * SCALE, 0));
    assert_eq!(cells, vec![(0, 0), (0, 2), (1, 0), (1, 2), (2, 0), (2, 2)]);
}

#[test]
fn tiles_leaves_out_vertices_beyond_range() {
    let far = 1i64 << 41;
    let obj = Mover::new(vec![at(0, 0), at(far, 0)], at(SCALE / 2, SCALE / 2), at(0, 0));
    let cells = obj.tiles(at(SCALE, 0));
    assert_eq!(cells, vec![(0, 0), (1, 0)]);
}

#[test]
fn vector_scale_up() {
    let mut v = at(-3, 5);
    v.scale(5, 2);
    assert_eq!(v, at(-8, 12));
}

#[test]
fn sample_grid_block_edges() {
    let net = TileNet::sample();
    assert_eq!(net.get((0, 0)), Some(&3));
    assert_eq!(net.get((9, 9)), Some(&4));
    assert_eq!(net.get((4, 3)), Some(&5));
    assert_eq!(net.get((5, 3)), Some(&0));
}

#[test]
fn zero_move_gives_one_cell_per_vertex() {
    let obj = Mover::new(vec![at(0, 0), at(3 * SCALE, 0), at(0, -2 * SCALE)], at(SCALE / 2, SCALE / 2), at(0, 0));
    assert_eq!(obj.tiles(at(0, 0)), vec![(0, 0), (3, 0), (0, -2)]);
}
