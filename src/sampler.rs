use vstd::prelude::*;
use crate::grid::TileNet;

verus! {

/// Whether the cell coordinate `p` = (column, row) lies inside `net`.
pub open spec fn covers<T>(net: TileNet<T>, p: (i32, i32)) -> bool {
    net.contains(p.0 as int, p.1 as int)
}

/// The tiles of `net` under the coordinates of `pts` that lie inside it,
/// in the order of `pts`.
pub open spec fn sampled<T>(net: TileNet<T>, pts: Seq<(i32, i32)>) -> Seq<T>
    decreases pts.len(),
{
    if pts.len() == 0 {
        Seq::empty()
    } else {
        let rest = sampled(net, pts.drop_first());
        if covers(net, pts[0]) {
            seq![net.tile(pts[0].0 as int, pts[0].1 as int)] + rest
        } else {
            rest
        }
    }
}

/// `covers(net, _)` as a predicate.
pub open spec fn inside<T>(net: TileNet<T>) -> spec_fn((i32, i32)) -> bool {
    |p: (i32, i32)| covers(net, p)
}

/// The tile of `net` under a coordinate.
pub open spec fn tile_under<T>(net: TileNet<T>) -> spec_fn((i32, i32)) -> T {
    |p: (i32, i32)| net.tile(p.0 as int, p.1 as int)
}

/// Sampling a grid under a sequence of coordinates yields exactly the tiles
/// under the coordinates that lie inside the grid, in the order of the
/// sequence; a coordinate outside the grid leaves nothing in its place.
pub proof fn lemma_sampled_skips_outside<T>(net: TileNet<T>, pts: Seq<(i32, i32)>)
    ensures
        sampled(net, pts) == pts.filter(inside(net)).map_values(tile_under(net)),
    decreases pts.len(),
{
    if pts.len() > 0 {
        let rest = pts.drop_first();
        lemma_sampled_skips_outside(net, rest);
        assert(pts == seq![pts[0]] + rest);
        rest.lemma_filter_prepend(pts[0], inside(net));
        let head: Seq<(i32, i32)> = if covers(net, pts[0]) { seq![pts[0]] } else { Seq::empty() };
        assert((head + rest.filter(inside(net))).map_values(tile_under(net)) =~= head.map_values(
            tile_under(net),
        ) + rest.filter(inside(net)).map_values(tile_under(net)));
        assert(head.map_values(tile_under(net)) =~= if covers(net, pts[0]) {
            seq![net.tile(pts[0].0 as int, pts[0].1 as int)]
        } else {
            Seq::empty()
        });
        if !covers(net, pts[0]) {
            assert(Seq::<T>::empty() + rest.filter(inside(net)).map_values(tile_under(net))
                =~= rest.filter(inside(net)).map_values(tile_under(net)));
        }
    } else {
        assert(pts.filter(inside(net)) =~= Seq::empty()) by {
            reveal(Seq::filter);
        }
    }
}

/// A copy of `pts`.
fn copy_points(pts: &Vec<(i32, i32)>) -> (r: Vec<(i32, i32)>)
    ensures
        r@ == pts@,
{
    let mut r: Vec<(i32, i32)> = Vec::new();
    let mut i: usize = 0;
    while i < pts.len()
        invariant
            i <= pts@.len(),
            r@ == pts@.subrange(0, i as int),
        decreases pts@.len() - i,
    {
        r.push(pts[i]);
        i = i + 1;
        proof {
            assert(r@ =~= pts@.subrange(0, i as int));
        }
    }
    proof {
        assert(r@ =~= pts@);
    }
    r
}

/// Walks the tiles of a [`TileNet`] under a sequence of cell coordinates,
/// skipping the coordinates that lie outside the grid.
pub struct TileSet<'a, T> {
    tilenet: &'a TileNet<T>,
    points: Vec<(i32, i32)>,
    index: usize,
    last_coord: (i32, i32),
}

impl<'a, T> Clone for TileSet<'a, T> {
    /// An independent walk from the same position.
    fn clone(&self) -> (r: Self)
        ensures
            r.grid() == self.grid(),
            r.points() == self.points(),
            r.position() == self.position(),
            r.last() == self.last(),
    {
        TileSet {
            tilenet: self.tilenet,
            points: copy_points(&self.points),
            index: self.index,
            last_coord: self.last_coord,
        }
    }
}

impl<'a, T> TileSet<'a, T> {
    /// The grid sampled.
    pub closed spec fn grid(&self) -> TileNet<T> {
        *self.tilenet
    }

    /// All the coordinates, walked or not.
    pub closed spec fn points(&self) -> Seq<(i32, i32)> {
        self.points@
    }

    /// How many coordinates have been walked.
    pub closed spec fn position(&self) -> nat {
        self.index as nat
    }

    /// The coordinate walked last.
    pub closed spec fn last(&self) -> (i32, i32) {
        self.last_coord
    }

    /// The coordinates not walked yet.
    pub open spec fn pending(&self) -> Seq<(i32, i32)> {
        self.points().subrange(self.position() as int, self.points().len() as int)
    }

    /// The grid is well formed and the position lies within the coordinates.
    pub open spec fn wf(&self) -> bool {
        &&& self.grid().wf()
        &&& self.position() <= self.points().len()
    }

    /// A walk of `tilenet` under `points`, at its start. Before any step
    /// the last coordinate reads `(0, 0)`.
    pub fn new(tilenet: &'a TileNet<T>, points: Vec<(i32, i32)>) -> (r: Self)
        requires
            tilenet.wf(),
        ensures
            r.wf(),
            r.grid() == *tilenet,
            r.points() == points@,
            r.position() == 0,
            r.last() == (0i32, 0i32),
    {
        TileSet { tilenet, points, index: 0, last_coord: (0, 0) }
    }

    /// The coordinate walked last: the one under the tile that `next`
    /// returned, or the last one skipped.
    pub fn get_last_coord(&self) -> (r: (i32, i32))
        ensures
            r == self.last(),
    {
        self.last_coord
    }

    /// The same as [`TileSet::get_last_coord`].
    pub fn get_coords(&self) -> (r: (i32, i32))
        ensures
            r == self.last(),
    {
        self.last_coord
    }

    /// The tile under the next coordinate that lies inside the grid; the
    /// coordinates before it are skipped. `None` once no such coordinate
    /// is left.
    pub fn next(&mut self) -> (r: Option<&'a T>)
        requires
            old(self).wf(),
        ensures
            final(self).wf(),
            final(self).grid() == old(self).grid(),
            final(self).points() == old(self).points(),
            old(self).position() <= final(self).position(),
            sampled(old(self).grid(), old(self).pending()) == match r {
                Some(t) => seq![*t] + sampled(final(self).grid(), final(self).pending()),
                None => Seq::<T>::empty(),
            },
            r is None ==> final(self).pending().len() == 0,
            r is Some ==> covers(final(self).grid(), final(self).last()),
            final(self).last() == if final(self).position() == old(self).position() {
                old(self).last()
            } else {
                final(self).points()[final(self).position() - 1]
            },
    {
        let (cols, rows) = self.tilenet.get_size();
        while self.index < self.points.len()
            invariant
                self.wf(),
                self.grid() == old(self).grid(),
                self.points() == old(self).points(),
                old(self).position() <= self.position(),
                cols == self.grid().width(),
                rows == self.grid().height(),
                sampled(old(self).grid(), old(self).pending()) == sampled(self.grid(), self.pending()),
                self.last() == if self.position() == old(self).position() {
                    old(self).last()
                } else {
                    self.points()[self.position() - 1]
                },
            decreases self.points().len() - self.position(),
        {
            let p = self.points[self.index];
            let ghost before = self.pending();
            self.index = self.index + 1;
            self.last_coord = p;
            proof {
                assert(before.drop_first() =~= self.pending());
            }
            if p.0 >= 0 && p.1 >= 0 && (p.0 as usize) < cols && (p.1 as usize) < rows {
                return self.tilenet.get((p.0 as usize, p.1 as usize));
            }
        }
        None
    }
}

impl<T> TileNet<T> {
    /// A walk of the tiles under `points`, skipping those outside the grid.
    pub fn collide_set(&self, points: Vec<(i32, i32)>) -> (r: TileSet<'_, T>)
        requires
            self.wf(),
        ensures
            r.wf(),
            r.grid() == *self,
            r.points() == points@,
            r.position() == 0,
            r.last() == (0i32, 0i32),
    {
        TileSet::new(self, points)
    }
}

} // verus!
