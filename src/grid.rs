use vstd::prelude::*;

verus! {

/// A dense grid of tiles, stored row-major: the tile at column `c` and row
/// `r` sits at index `r * columns + c`.
#[derive(Clone, Debug)]
pub struct TileNet<T> {
    map: Vec<T>,
    cols: usize,
    rows: usize,
}

/// Index of column `c`, row `r` in a row-major grid with `cols` columns.
pub open spec fn flat_index(cols: int, c: int, r: int) -> int {
    r * cols + c
}

/// The flat index of a cell inside the grid lies inside the storage.
pub proof fn lemma_flat_index_bounds(cols: int, rows: int, c: int, r: int)
    requires
        0 <= c < cols,
        0 <= r < rows,
    ensures
        0 <= flat_index(cols, c, r) < cols * rows,
{
    assert(r * cols + c < cols * rows) by (nonlinear_arith)
        requires
            0 <= c < cols,
            0 <= r < rows,
    ;
    assert(0 <= r * cols) by (nonlinear_arith)
        requires
            0 <= r,
            0 <= cols,
    ;
}

/// Distinct cells of a grid have distinct flat indices.
pub proof fn lemma_flat_index_injective(cols: int, c1: int, r1: int, c2: int, r2: int)
    requires
        0 <= c1 < cols,
        0 <= c2 < cols,
        0 <= r1,
        0 <= r2,
        flat_index(cols, c1, r1) == flat_index(cols, c2, r2),
    ensures
        c1 == c2,
        r1 == r2,
{
    if r1 < r2 {
        assert(r1 * cols + c1 < r2 * cols + c2) by (nonlinear_arith)
            requires
                0 <= c1 < cols,
                0 <= c2,
                0 <= r1 < r2,
        ;
    } else if r2 < r1 {
        assert(r2 * cols + c2 < r1 * cols + c1) by (nonlinear_arith)
            requires
                0 <= c2 < cols,
                0 <= c1,
                0 <= r2 < r1,
        ;
    }
}

/// A value that `T::default()` may return.
pub open spec fn is_default<T: Default>(v: T) -> bool {
    call_ensures(T::default, (), v)
}

impl<T> TileNet<T> {
    /// Number of columns.
    pub closed spec fn width(&self) -> nat {
        self.cols as nat
    }

    /// Number of rows.
    pub closed spec fn height(&self) -> nat {
        self.rows as nat
    }

    /// The tiles, row-major.
    pub closed spec fn tiles(&self) -> Seq<T> {
        self.map@
    }

    /// The storage holds exactly one tile per cell.
    pub open spec fn wf(&self) -> bool {
        &&& self.tiles().len() == self.width() * self.height()
        &&& self.width() * self.height() <= usize::MAX
        &&& self.width() <= usize::MAX
        &&& self.height() <= usize::MAX
    }

    /// Whether column `c`, row `r` lies inside the grid.
    pub open spec fn contains(&self, c: int, r: int) -> bool {
        0 <= c < self.width() && 0 <= r < self.height()
    }

    /// The tile at column `c`, row `r`.
    pub open spec fn tile(&self, c: int, r: int) -> T {
        self.tiles()[flat_index(self.width() as int, c, r)]
    }

    /// The size of the grid as (columns, rows).
    pub fn get_size(&self) -> (r: (usize, usize))
        ensures
            r.0 == self.width(),
            r.1 == self.height(),
    {
        (self.cols, self.rows)
    }

    /// The tile at `(column, row)`, or `None` where the coordinate lies
    /// outside the grid.
    pub fn get(&self, coord: (usize, usize)) -> (r: Option<&T>)
        requires
            self.wf(),
        ensures
            r is Some <==> self.contains(coord.0 as int, coord.1 as int),
            r is Some ==> *r.unwrap() == self.tile(coord.0 as int, coord.1 as int),
    {
        if coord.0 < self.cols && coord.1 < self.rows {
            proof {
                lemma_flat_index_bounds(self.cols as int, self.rows as int, coord.0 as int, coord.1 as int);
            }
            Some(&self.map[coord.1 * self.cols + coord.0])
        } else {
            None
        }
    }

    /// A mutable handle on the tile at `(column, row)`, or `None` where the
    /// coordinate lies outside the grid. What is written through the handle
    /// is the tile's new value.
    pub fn get_mut(&mut self, coord: (usize, usize)) -> (r: Option<&mut T>)
        requires
            old(self).wf(),
        ensures
            r is Some <==> old(self).contains(coord.0 as int, coord.1 as int),
            match r {
                Some(h) => {
                    &&& *h == old(self).tile(coord.0 as int, coord.1 as int)
                    &&& final(self).width() == old(self).width()
                    &&& final(self).height() == old(self).height()
                    &&& final(self).tiles() == old(self).tiles().update(
                        flat_index(old(self).width() as int, coord.0 as int, coord.1 as int),
                        *final(h),
                    )
                },
                None => *final(self) == *old(self),
            },
    {
        if coord.0 < self.cols && coord.1 < self.rows {
            proof {
                lemma_flat_index_bounds(self.cols as int, self.rows as int, coord.0 as int, coord.1 as int);
            }
            let i = coord.1 * self.cols + coord.0;
            Some(&mut self.map[i])
        } else {
            None
        }
    }
}

impl<T: Clone> TileNet<T> {
    /// Writes a clone of `value` at `(column, row)`; a coordinate outside
    /// the grid leaves it unchanged.
    pub fn set(&mut self, value: &T, coord: (usize, usize))
        requires
            old(self).wf(),
        ensures
            final(self).wf(),
            final(self).width() == old(self).width(),
            final(self).height() == old(self).height(),
            forall|c: int, r: int| #![trigger final(self).tile(c, r)]
                final(self).contains(c, r) ==> if c == coord.0 && r == coord.1 {
                    cloned(*value, final(self).tile(c, r))
                } else {
                    final(self).tile(c, r) == old(self).tile(c, r)
                },
    {
        if coord.0 < self.cols && coord.1 < self.rows {
            proof {
                lemma_flat_index_bounds(self.cols as int, self.rows as int, coord.0 as int, coord.1 as int);
            }
            let i = coord.1 * self.cols + coord.0;
            let v = value.clone();
            self.map.set(i, v);
            proof {
                assert forall|c: int, r: int| #[trigger] self.contains(c, r) implies
                    (c == coord.0 && r == coord.1) || self.tile(c, r) == old(self).tile(c, r) by {
                    lemma_flat_index_bounds(self.cols as int, self.rows as int, c, r);
                    if flat_index(self.cols as int, c, r) == i as int {
                        lemma_flat_index_injective(self.cols as int, c, r, coord.0 as int, coord.1 as int);
                    }
                }
            }
        }
    }
}

impl<T: Clone> TileNet<T> {
    /// `new` is `old` with a clone of `value` written into each cell of the
    /// grid that lies in columns `c0 .. c1` and rows `r0 .. r1`.
    pub open spec fn box_filled(old: Self, new: Self, value: T, c0: int, c1: int, r0: int, r1: int) -> bool {
        &&& new.wf()
        &&& new.width() == old.width()
        &&& new.height() == old.height()
        &&& forall|c: int, r: int| #![trigger new.tile(c, r)]
            new.contains(c, r) ==> if c0 <= c < c1 && r0 <= r < r1 {
                cloned(value, new.tile(c, r))
            } else {
                new.tile(c, r) == old.tile(c, r)
            }
    }

    /// Writes a clone of `value` into every cell with a column in
    /// `top_left.0 .. bottom_right.0` and a row in `top_left.1 ..
    /// bottom_right.1`; the part of the box outside the grid is ignored.
    pub fn set_box(&mut self, value: &T, top_left: (usize, usize), bottom_right: (usize, usize))
        requires
            old(self).wf(),
        ensures
            Self::box_filled(*old(self), *final(self), *value, top_left.0 as int,
                bottom_right.0 as int, top_left.1 as int, bottom_right.1 as int),
    {
        let c1 = if bottom_right.0 < self.cols { bottom_right.0 } else { self.cols };
        let r1 = if bottom_right.1 < self.rows { bottom_right.1 } else { self.rows };
        let c0 = top_left.0;
        let mut r = top_left.1;
        while r < r1
            invariant
                top_left.1 <= r,
                r1 <= self.height(),
                c1 <= self.width(),
                r1 == bottom_right.1 || r1 == self.height(),
                c1 == bottom_right.0 || c1 == self.width(),
                Self::box_filled(*old(self), *self, *value, c0 as int, c1 as int,
                    top_left.1 as int, if r < r1 { r as int } else { r1 as int }),
            decreases r1 - r,
        {
            let mut c = c0;
            while c < c1
                invariant
                    top_left.1 <= r < r1,
                    r1 <= self.height(),
                    c1 <= self.width(),
                    c0 <= c,
                    c == c0 || c <= c1,
                    self.wf(),
                    self.width() == old(self).width(),
                    self.height() == old(self).height(),
                    forall|cc: int, rr: int| #![trigger self.tile(cc, rr)]
                        self.contains(cc, rr) ==> if (c0 <= cc < c1 && top_left.1 <= rr < r) || (
                        c0 <= cc < c && rr == r) {
                            cloned(*value, self.tile(cc, rr))
                        } else {
                            self.tile(cc, rr) == old(self).tile(cc, rr)
                        },
                decreases c1 - c,
            {
                self.set(value, (c, r));
                c = c + 1;
            }
            r = r + 1;
        }
    }
}

impl<T: Clone> TileNet<T> {
    /// Writes a clone of `value` into every cell of row `row`; a row outside
    /// the grid leaves it unchanged.
    pub fn set_row(&mut self, value: &T, row: usize)
        requires
            old(self).wf(),
        ensures
            Self::box_filled(*old(self), *final(self), *value, 0, old(self).width() as int,
                row as int, row + 1),
    {
        if row < self.rows {
            self.set_box(value, (0, row), (self.cols, row + 1));
        }
    }

    /// Writes a clone of `value` into every cell of column `col`; a column
    /// outside the grid leaves it unchanged.
    pub fn set_col(&mut self, value: &T, col: usize)
        requires
            old(self).wf(),
        ensures
            Self::box_filled(*old(self), *final(self), *value, col as int, col + 1, 0,
                old(self).height() as int),
    {
        if col < self.cols {
            self.set_box(value, (col, 0), (col + 1, self.rows));
        }
    }
}

impl<T: Default> TileNet<T> {
    /// A grid of `cols` columns and `rows` rows, every tile a default value.
    pub fn new(cols: usize, rows: usize) -> (r: Self)
        requires
            cols * rows <= usize::MAX,
        ensures
            r.wf(),
            r.width() == cols,
            r.height() == rows,
            forall|i: int| 0 <= i < r.tiles().len() ==> is_default(#[trigger] r.tiles()[i]),
    {
        let n: usize = cols * rows;
        let mut map: Vec<T> = Vec::new();
        let mut i: usize = 0;
        while i < n
            invariant
                i <= n,
                map@.len() == i,
                forall|j: int| 0 <= j < i ==> #[trigger] is_default(map@[j]),
            decreases n - i,
        {
            map.push(T::default());
            i = i + 1;
        }
        TileNet { map, cols, rows }
    }
}

impl<T: Default> TileNet<T> {
    /// A grid `cols` columns wide, filled row-major from `values`. It has as
    /// many rows as `values` needs; the cells past the last value hold
    /// default values.
    pub fn from_iter(cols: usize, values: Vec<T>) -> (r: Self)
        requires
            cols > 0,
            values@.len() + cols <= usize::MAX,
        ensures
            r.wf(),
            r.width() == cols,
            r.height() == (values@.len() + cols - 1) / cols as int,
            forall|i: int| #![trigger r.tiles()[i]] 0 <= i < r.tiles().len() ==> if i < values@.len() {
                r.tiles()[i] == values@[i]
            } else {
                is_default(r.tiles()[i])
            },
    {
        let n = values.len();
        let rows: usize = if n % cols == 0 { n / cols } else { n / cols + 1 };
        proof {
            assert(rows == (n + cols - 1) / cols as int && rows * cols >= n && rows * cols < n + cols)
                by (nonlinear_arith)
                requires
                    cols > 0,
                    rows == (if n % cols == 0 { n as int / cols as int } else { n as int / cols as int + 1 }),
            ;
        }
        let total: usize = rows * cols;
        let mut map = values;
        while map.len() < total
            invariant
                n <= map@.len() <= total,
                forall|i: int| 0 <= i < n ==> map@[i] == values@[i],
                forall|i: int| n <= i < map@.len() ==> #[trigger] is_default(map@[i]),
            decreases total - map@.len(),
        {
            map.push(T::default());
        }
        proof {
            assert(cols * rows == rows * cols) by (nonlinear_arith);
        }
        TileNet { map, cols, rows }
    }
}

impl<T: Default> TileNet<T> {
    /// `self` is `old` resized to `size` = (columns, rows): the cells inside
    /// both bounds keep their tiles, the others hold default values.
    pub open spec fn resized_from(self, old: Self, size: (usize, usize)) -> bool {
        &&& self.wf()
        &&& self.width() == size.0
        &&& self.height() == size.1
        &&& forall|c: int, r: int| #![trigger self.tile(c, r)]
            self.contains(c, r) ==> if old.contains(c, r) {
                self.tile(c, r) == old.tile(c, r)
            } else {
                is_default(self.tile(c, r))
            }
    }

    /// Resizing a grid and then resizing it back to its own size restores
    /// its size and every tile whose cell lies inside both sizes.
    pub proof fn lemma_resize_round_trip(a: Self, b: Self, c: Self, size: (usize, usize))
        requires
            a.wf(),
            b.resized_from(a, size),
            c.resized_from(b, (a.width() as usize, a.height() as usize)),
        ensures
            c.width() == a.width(),
            c.height() == a.height(),
            forall|x: int, y: int| #![trigger c.tile(x, y)]
                a.contains(x, y) && b.contains(x, y) ==> c.tile(x, y) == a.tile(x, y),
    {
        assert forall|x: int, y: int| #![trigger c.tile(x, y)]
            a.contains(x, y) && b.contains(x, y) implies c.tile(x, y) == a.tile(x, y) by {
            assert(b.tile(x, y) == a.tile(x, y));
        }
    }

    /// Changes the size to `size` = (columns, rows). A cell inside both the
    /// old and the new bounds keeps its tile; a cell that only the new
    /// bounds hold gets a default value.
    pub fn resize(&mut self, size: (usize, usize))
        requires
            old(self).wf(),
            size.0 * size.1 <= usize::MAX,
        ensures
            final(self).resized_from(*old(self), size),
    {
        let (nc, nr) = size;
        let oc = self.cols;
        let or = self.rows;
        let ghost before = *self;
        let mut fresh: Vec<T> = Vec::new();
        let mut r: usize = 0;
        while r < nr
            invariant
                r <= nr,
                nc * nr <= usize::MAX,
                oc == before.width(),
                or == before.height(),
                before.wf(),
                self.map@.len() == before.tiles().len(),
                fresh@.len() == r * nc,
                forall|c2: int, r2: int| #![trigger before.tile(c2, r2)]
                    before.contains(c2, r2) && r2 >= r ==>
                    self.map@[flat_index(oc as int, c2, r2)] == before.tile(c2, r2),
                forall|c2: int, r2: int| #![trigger fresh@[flat_index(nc as int, c2, r2)]]
                    0 <= c2 < nc && 0 <= r2 < r ==> if before.contains(c2, r2) {
                        fresh@[flat_index(nc as int, c2, r2)] == before.tile(c2, r2)
                    } else {
                        is_default(fresh@[flat_index(nc as int, c2, r2)])
                    },
            decreases nr - r,
        {
            let mut c: usize = 0;
            while c < nc
                invariant
                    r < nr,
                    c <= nc,
                    nc * nr <= usize::MAX,
                    oc == before.width(),
                    or == before.height(),
                    before.wf(),
                    self.map@.len() == before.tiles().len(),
                    fresh@.len() == r * nc + c,
                    forall|c2: int, r2: int| #![trigger before.tile(c2, r2)]
                        before.contains(c2, r2) && (r2 > r || (r2 == r && c2 >= c)) ==>
                        self.map@[flat_index(oc as int, c2, r2)] == before.tile(c2, r2),
                    forall|c2: int, r2: int| #![trigger fresh@[flat_index(nc as int, c2, r2)]]
                        0 <= c2 < nc && 0 <= r2 <= r && (r2 < r || c2 < c) ==> if before.contains(c2, r2) {
                            fresh@[flat_index(nc as int, c2, r2)] == before.tile(c2, r2)
                        } else {
                            is_default(fresh@[flat_index(nc as int, c2, r2)])
                        },
                decreases nc - c,
            {
                proof {
                    lemma_flat_index_bounds(nc as int, nr as int, c as int, r as int);
                }
                if c < oc && r < or {
                    proof {
                        lemma_flat_index_bounds(oc as int, or as int, c as int, r as int);
                    }
                    let i = r * oc + c;
                    let mut d = T::default();
                    self.map.set_and_swap(i, &mut d);
                    proof {
                        assert forall|c2: int, r2: int| #![trigger before.tile(c2, r2)]
                            before.contains(c2, r2) && (r2 > r || (r2 == r && c2 >= c + 1)) implies
                            self.map@[flat_index(oc as int, c2, r2)] == before.tile(c2, r2) by {
                            lemma_flat_index_bounds(oc as int, or as int, c2, r2);
                            if flat_index(oc as int, c2, r2) == i as int {
                                lemma_flat_index_injective(oc as int, c2, r2, c as int, r as int);
                            }
                        }
                    }
                    fresh.push(d);
                } else {
                    fresh.push(T::default());
                }
                proof {
                    assert forall|c2: int, r2: int|
                        0 <= c2 < nc && 0 <= r2 <= r && (r2 < r || c2 < c + 1) implies
                        if before.contains(c2, r2) {
                            #[trigger] fresh@[flat_index(nc as int, c2, r2)] == before.tile(c2, r2)
                        } else {
                            is_default(fresh@[flat_index(nc as int, c2, r2)])
                        } by {
                        if r2 < r {
                            lemma_flat_index_bounds(nc as int, r as int, c2, r2);
                        } else if c2 < c {
                        } else {
                            assert(flat_index(nc as int, c2, r2) == r * nc + c);
                        }
                    }
                }
                c = c + 1;
            }
            proof {
                assert(fresh@.len() == (r + 1) * nc) by (nonlinear_arith)
                    requires
                        fresh@.len() == r * nc + nc,
                ;
            }
            r = r + 1;
        }
        proof {
            assert(nc * nr == nr * nc) by (nonlinear_arith);
        }
        self.map = fresh;
        self.cols = nc;
        self.rows = nr;
    }
}

impl TileNet<usize> {
    /// A small demonstration grid of 10 by 10: a frame of non-zero tiles
    /// (1 along the top row, 2 along the bottom row, 3 and 4 down the left
    /// and right columns) and a block of 5s in columns 3 .. 5, rows 3 .. 7.
    pub fn sample() -> (r: Self)
        ensures
            r.wf(),
            r.width() == 10,
            r.height() == 10,
            forall|c: int, row: int| #![trigger r.tile(c, row)]
                r.contains(c, row) ==> r.tile(c, row) == if c == 0 {
                    3
                } else if c == 9 {
                    4
                } else if row == 0 {
                    1
                } else if row == 9 {
                    2
                } else if 3 <= c < 5 && 3 <= row < 7 {
                    5usize
                } else {
                    0
                },
    {
        let mut net: TileNet<usize> = TileNet::new(10, 10);
        proof {
            assert forall|c: int, row: int| #[trigger] net.contains(c, row) implies net.tile(c, row) == 0 by {
                lemma_flat_index_bounds(10, 10, c, row);
            }
        }
        net.set_row(&1, 0);
        net.set_row(&2, 9);
        net.set_col(&3, 0);
        net.set_col(&4, 9);
        net.set_box(&5, (3, 3), (5, 7));
        net
    }
}

} // verus!
