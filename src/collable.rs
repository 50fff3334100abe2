use vstd::prelude::*;
use crate::geometry::{cell_ints, in_limit, Line, Vector, LIMIT};
use crate::grid::TileNet;
use crate::merge::{interleaved, merge_covers, cover_views};
use crate::sampler::TileSet;
use crate::solve::{lemma_run_push, run, SolveState, MAX_ITERATIONS};

verus! {

/// `p` moved by `q`.
pub open spec fn moved(p: Vector, q: Vector) -> Vector {
    Vector((p.0 + q.0) as i64, (p.1 + q.1) as i64)
}

/// Whether `p` and `p` moved by `q` both lie within the supported range.
pub open spec fn sweepable(p: Vector, q: Vector) -> bool {
    &&& in_limit(p)
    &&& -LIMIT <= p.0 + q.0 <= LIMIT
    &&& -LIMIT <= p.1 + q.1 <= LIMIT
}

/// The vertices of `points` whose line along `queued` stays within the
/// supported range, in their order.
pub open spec fn in_range(points: Seq<Vector>, queued: Vector) -> Seq<Vector> {
    points.filter(|p: Vector| sweepable(p, queued))
}

/// Whether `cells` is what the vertices `points` sweep moving by `queued`:
/// the supercover of each vertex's line from its position to its position
/// moved by `queued`, merged nearest first (all first cells in vertex
/// order, then all second cells, and so on).
pub open spec fn is_sweep(points: Seq<Vector>, queued: Vector, cells: Seq<(i32, i32)>) -> bool {
    exists|cs: Seq<Seq<(i32, i32)>>| {
        &&& cs.len() == points.len()
        &&& forall|i: int| 0 <= i < cs.len() ==> {
            let line = Line(points[i], moved(points[i], queued));
            &&& line.is_cover(#[trigger] cs[i])
            &&& cell_ints(cs[i]) == line.cover()
        }
        &&& cells == interleaved(cs)
    }
}

/// The cells swept by the vertices `points` moving by `queued`, merged
/// nearest first.
pub fn sweep(points: &Vec<Vector>, queued: Vector) -> (r: Vec<(i32, i32)>)
    requires
        forall|i: int| 0 <= i < points@.len() ==> sweepable(#[trigger] points@[i], queued),
    ensures
        is_sweep(points@, queued, r@),
{
    let mut covers: Vec<Vec<(i32, i32)>> = Vec::new();
    let mut i: usize = 0;
    while i < points.len()
        invariant
            i <= points@.len(),
            forall|j: int| 0 <= j < points@.len() ==> sweepable(#[trigger] points@[j], queued),
            covers@.len() == i,
            forall|j: int| 0 <= j < i ==> {
                let line = Line(points@[j], moved(points@[j], queued));
                &&& line.is_cover(#[trigger] covers@[j]@)
                &&& cell_ints(covers@[j]@) == line.cover()
            },
        decreases points@.len() - i,
    {
        let p = points[i];
        let line = Line(p, p.add(queued));
        covers.push(line.supercover());
        i = i + 1;
    }
    let ghost cs = cover_views(covers@);
    assert(forall|j: int| 0 <= j < cs.len() ==> cs[j] == covers@[j]@);
    let r = merge_covers(covers);
    assert(cs.len() == points@.len());
    assert(forall|j: int| 0 <= j < cs.len() ==> {
        let line = Line(points@[j], moved(points@[j], queued));
        &&& line.is_cover(#[trigger] cs[j])
        &&& cell_ints(cs[j]) == line.cover()
    });
    r
}

/// The vertices of `points` whose line along `queued` stays within the
/// supported range; the others are left out.
pub fn keep_in_range(points: &Vec<Vector>, queued: Vector) -> (r: Vec<Vector>)
    ensures
        r@ == in_range(points@, queued),
{
    let mut kept: Vec<Vector> = Vec::new();
    let mut i: usize = 0;
    while i < points.len()
        invariant
            i <= points@.len(),
            kept@ == in_range(points@.subrange(0, i as int), queued),
        decreases points@.len() - i,
    {
        let p = points[i];
        proof {
            let pred = |p: Vector| sweepable(p, queued);
            points@.subrange(0, i as int).lemma_filter_push(p, pred);
            assert(points@.subrange(0, i as int).push(p) =~= points@.subrange(0, i + 1));
        }
        if -LIMIT <= p.0 && p.0 <= LIMIT && -LIMIT <= p.1 && p.1 <= LIMIT
            && -LIMIT - p.0 <= queued.0 && queued.0 <= LIMIT - p.0
            && -LIMIT - p.1 <= queued.1 && queued.1 <= LIMIT - p.1 {
            kept.push(p);
        }
        i = i + 1;
    }
    proof {
        assert(points@.subrange(0, points@.len() as int) =~= points@);
    }
    kept
}

/// What the vertices of `points` that stay within range sweep moving by
/// `queued`. A vertex whose line would leave the supported coordinate
/// range (beyond 2^24 cells) sweeps nothing, since its cells could not be
/// told apart.
pub fn sweep_in_range(points: &Vec<Vector>, queued: Vector) -> (r: Vec<(i32, i32)>)
    ensures
        is_sweep(in_range(points@, queued), queued, r@),
{
    let kept = keep_in_range(points, queued);
    proof {
        assert forall|i: int| 0 <= i < kept@.len() implies sweepable(#[trigger] kept@[i], queued) by {
            points@.lemma_filter_pred(|p: Vector| sweepable(p, queued), i);
        }
    }
    sweep(&kept, queued)
}

/// A dynamic object that moves over a [`TileNet`] and decides for itself
/// how to react to the tiles in its way.
pub trait Collable<T> {
    /// The object's vertices, at its current position.
    spec fn spec_points(&self) -> Seq<Vector>;

    /// The move the object wants to make.
    spec fn spec_queued(&self) -> Vector;

    /// The object's vertices, at its current position. A line is drawn
    /// from each of them along the queued move.
    fn points(&self) -> (r: Vec<Vector>)
        ensures
            r@ == self.spec_points(),
    ;

    /// The move the object wants to make.
    fn queued(&self) -> (r: Vector)
        ensures
            r == self.spec_queued(),
    ;

    /// Decides on the tiles in the way of the queued move, nearest first:
    /// `set` walks the grid under what the object's vertices sweep along
    /// its queued move. Returns `true` to accept, having moved the object
    /// itself; `false` to try again, having shrunk the queued move.
    fn resolve(&mut self, set: TileSet<'_, T>) -> bool
        requires
            set.wf(),
            set.position() == 0,
            is_sweep(
                in_range(old(self).spec_points(), old(self).spec_queued()),
                old(self).spec_queued(),
                set.points(),
            ),
    ;

    /// Called once at the start of [`Collable::solve`].
    fn presolve(&mut self) {
    }

    /// Called once at the end of [`Collable::solve`], with whether some
    /// attempt was rejected and whether the last one was accepted.
    fn postsolve(&mut self, collided_once: bool, resolved: bool) {
    }

    /// The cells swept by the vertices moving by `queued`, nearest first.
    /// A vertex whose line leaves the supported coordinate range adds no
    /// cells.
    fn tiles(&self, queued: Vector) -> (r: Vec<(i32, i32)>)
        ensures
            is_sweep(in_range(self.spec_points(), queued), queued, r@),
    {
        let all = self.points();
        sweep_in_range(&all, queued)
    }

    /// Runs attempts until the object accepts its move, at most
    /// [`MAX_ITERATIONS`] of them, between one call of `presolve` and one
    /// of `postsolve`. Each attempt hands `resolve` the grid under what the
    /// object's current vertices sweep along its current queued move.
    /// Returns how the solve ended: the state that the answers of `resolve`,
    /// in turn, lead to (see [`crate::solve::run`]).
    fn solve(&mut self, net: &TileNet<T>) -> (r: SolveState)
        requires
            net.wf(),
        ensures
            r.bound == MAX_ITERATIONS,
            1 <= r.attempts <= MAX_ITERATIONS,
            r.resolved || r.attempts == MAX_ITERATIONS,
            r.collided_once == (r.attempts > 1 || !r.resolved),
            exists|answers: Seq<bool>| {
                &&& answers.len() == r.attempts
                &&& #[trigger] run(SolveState::spec_new(MAX_ITERATIONS), answers) == r
            },
    {
        self.presolve();
        let mut state = SolveState::start();
        let ghost mut answers: Seq<bool> = Seq::empty();
        while !state.finished()
            invariant
                answers.len() == state.attempts,
                run(SolveState::spec_new(MAX_ITERATIONS), answers) == state,
                net.wf(),
                state.bound == MAX_ITERATIONS,
                state.attempts <= MAX_ITERATIONS,
                state.attempts == 0 ==> !state.resolved && !state.collided_once,
                state.attempts > 0 ==> state.collided_once == (state.attempts > 1 || !state.resolved),
            decreases MAX_ITERATIONS - state.attempts,
        {
            let cells = self.tiles(self.queued());
            let set = net.collide_set(cells);
            let accepted = self.resolve(set);
            proof {
                lemma_run_push(SolveState::spec_new(MAX_ITERATIONS), answers, accepted);
                answers = answers.push(accepted);
            }
            state.record(accepted);
        }
        self.postsolve(state.collided_once, state.resolved);
        state
    }
}

} // verus!
