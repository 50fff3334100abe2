use vstd::prelude::*;
use vstd::arithmetic::div_mod::lemma_div_is_ordered;
use vstd::arithmetic::mul::{lemma_mul_inequality, lemma_mul_is_commutative};

verus! {

/// Sub-units per cell side: a coordinate counts 1/65536 of a cell.
pub const SCALE: i64 = 65536;

/// The largest magnitude of a coordinate, in sub-units: 2^40, which is
/// 2^24 cells.
pub const LIMIT: i64 = 1099511627776;

/// A point or displacement in the continuous plane, each coordinate a
/// fixed-point count of [`SCALE`]ths of a cell.
#[derive(Clone, Copy, Debug, PartialEq, Eq, Structural)]
pub struct Vector(pub i64, pub i64);

/// A segment from an origin to a destination.
#[derive(Clone, Copy, Debug, PartialEq, Eq, Structural)]
pub struct Line(pub Vector, pub Vector);

/// The cell, along one axis, holding the coordinate `v`: `v / SCALE`
/// rounded down.
pub open spec fn cell_of(v: int) -> int {
    v / (SCALE as int)
}

/// The cell (column, row) holding the point `p`.
pub open spec fn cell_at(p: Vector) -> (int, int) {
    (cell_of(p.0 as int), cell_of(p.1 as int))
}

/// Whether both coordinates of `p` lie within [`LIMIT`].
pub open spec fn in_limit(p: Vector) -> bool {
    -LIMIT <= p.0 <= LIMIT && -LIMIT <= p.1 <= LIMIT
}

/// The cell `c` as a pair of integers.
pub open spec fn cell_int(c: (i32, i32)) -> (int, int) {
    (c.0 as int, c.1 as int)
}

/// Whether the cells `a` and `b` touch at an edge or a corner, or are the
/// same cell.
pub open spec fn touching(a: (i32, i32), b: (i32, i32)) -> bool {
    -1 <= a.0 - b.0 <= 1 && -1 <= a.1 - b.1 <= 1
}

/// Whether `x` lies between `a` and `b`, either way round.
pub open spec fn between(a: int, x: int, b: int) -> bool {
    (a <= x <= b) || (b <= x <= a)
}

/// The cell holding the coordinate `v`.
fn cell_coord(v: i64) -> (r: i32)
    requires
        -LIMIT <= v <= LIMIT,
    ensures
        r == cell_of(v as int),
{
    if v >= 0 {
        let q = (v as u64) / (SCALE as u64);
        assert(q as int == cell_of(v as int));
        proof {
            lemma_div_is_ordered(v as int, 1099511627776int, 65536);
            assert(1099511627776int / 65536 == 16777216);
        }
        q as i32
    } else {
        let a = (-v) as u64;
        let q = (a + (SCALE as u64) - 1) / (SCALE as u64);
        assert(-(q as int) == cell_of(v as int)) by (nonlinear_arith)
            requires
                a == -v,
                v < 0,
                q == (a + 65535) / 65536,
        {
            let qq = v as int / 65536;
            assert(qq * 65536 <= v < qq * 65536 + 65536);
        }
        proof {
            lemma_div_is_ordered(a as int + 65535, 1099511627776int + 65535, 65536);
            assert((1099511627776int + 65535) / 65536 == 16777216);
        }
        -(q as i32)
    }
}

impl Vector {
    /// The sum of two vectors.
    pub fn add(self, o: Vector) -> (r: Vector)
        requires
            i64::MIN <= self.0 + o.0 <= i64::MAX,
            i64::MIN <= self.1 + o.1 <= i64::MAX,
        ensures
            r.0 == self.0 + o.0,
            r.1 == self.1 + o.1,
    {
        Vector(self.0 + o.0, self.1 + o.1)
    }

    /// The squared length, in squared sub-units.
    pub fn norm2sq(self) -> (r: u128)
        ensures
            r == self.0 * self.0 + self.1 * self.1,
    {
        let x = magnitude(self.0);
        let y = magnitude(self.1);
        proof {
            let m = 9223372036854775808int;
            lemma_mul_inequality(x as int, m, x as int);
            lemma_mul_inequality(x as int, m, m);
            lemma_mul_is_commutative(x as int, m);
            lemma_mul_inequality(y as int, m, y as int);
            lemma_mul_inequality(y as int, m, m);
            lemma_mul_is_commutative(y as int, m);
            assert(m * m == 85070591730234615865843651857942052864);
            assert(self.0 * self.0 == (x as int) * (x as int) && self.1 * self.1 == (y as int) * (y as int))
                by (nonlinear_arith)
                requires
                    x == self.0 || x == -self.0,
                    y == self.1 || y == -self.1,
            ;
        }
        x * x + y * y
    }

    /// Scales the vector by `num / den`, each coordinate rounded down.
    pub fn scale(&mut self, num: u32, den: u32)
        requires
            0 < den,
            i64::MIN <= (old(self).0 as int * num as int) / (den as int) <= i64::MAX,
            i64::MIN <= (old(self).1 as int * num as int) / (den as int) <= i64::MAX,
        ensures
            final(self).0 == (old(self).0 as int * num as int) / (den as int),
            final(self).1 == (old(self).1 as int * num as int) / (den as int),
    {
        let x = scale_coord(self.0, num, den);
        let y = scale_coord(self.1, num, den);
        *self = Vector(x, y);
    }
}

/// The absolute value of `v`.
fn magnitude(v: i64) -> (r: u128)
    ensures
        r == v || r == -v,
        r <= 9223372036854775808,
{
    if v < 0 {
        (-(v as i128)) as u128
    } else {
        v as u128
    }
}

/// `v * num / den`, rounded down.
fn scale_coord(v: i64, num: u32, den: u32) -> (r: i64)
    requires
        0 < den,
        i64::MIN <= (v as int * num as int) / (den as int) <= i64::MAX,
    ensures
        r == (v as int * num as int) / (den as int),
{
    let ghost (vi, n, d) = (v as int, num as int, den as int);
    proof {
        lemma_mul_inequality(vi, i64::MAX as int, n);
        lemma_mul_inequality(i64::MIN as int, vi, n);
        lemma_mul_inequality(n, u32::MAX as int, i64::MAX as int);
        lemma_mul_inequality(n, u32::MAX as int, -(i64::MIN as int));
        lemma_mul_is_commutative(i64::MAX as int, n);
        lemma_mul_is_commutative(i64::MIN as int, n);
        lemma_mul_is_commutative(-(i64::MIN as int), n);
        assert((i64::MIN as int) * n == -((-(i64::MIN as int)) * n)) by (nonlinear_arith);
    }
    let p = (v as i128) * (num as i128);
    let q: i128 = if p >= 0 {
        ((p as u128) / (den as u128)) as i128
    } else {
        let a = (-p) as u128;
        let c = (a + (den as u128) - 1) / (den as u128);
        assert(-(c as int) == p as int / d) by (nonlinear_arith)
            requires
                d > 0,
                p < 0,
                c == (-p as int + d - 1) / d,
        {
            let qq = p as int / d;
            assert(qq * d <= p < qq * d + d);
        }
        -(c as i128)
    };
    q as i64
}

/// The distance between `a` and `b`.
pub open spec fn gap(a: int, b: int) -> int {
    if a <= b { b - a } else { a - b }
}

/// The sign of `v`: -1, 0 or 1.
fn sign(v: i64) -> (r: i32)
    ensures
        v > 0 ==> r == 1,
        v < 0 ==> r == -1,
        v == 0 ==> r == 0,
{
    if v > 0 {
        1
    } else if v < 0 {
        -1
    } else {
        0
    }
}

/// A bound on a product of two bounded factors.
proof fn lemma_product_bound(a: int, b: int)
    requires
        -4398046511104 <= a <= 4398046511104,
        0 <= b <= 4398046511104,
    ensures
        -19342813113834066795298816 <= a * b <= 19342813113834066795298816,
{
    lemma_mul_inequality(a, 4398046511104, b);
    lemma_mul_inequality(-4398046511104, a, b);
    lemma_mul_inequality(b, 4398046511104, 4398046511104);
    lemma_mul_is_commutative(4398046511104, b);
    lemma_mul_is_commutative(-4398046511104, b);
    assert((-4398046511104) * b == -(4398046511104 * b)) by (nonlinear_arith);
}

/// How far, in sub-units, the coordinate `o` lies from the edge of cell
/// `c` that a walk in direction `step` crosses next.
fn to_edge(o: i64, c: i32, step: i32) -> (r: i128)
    requires
        -LIMIT <= o <= LIMIT,
        -16777216 <= c <= 16777216,
        step == 1 || step == -1,
    ensures
        step == 1 ==> r == (c + 1) * SCALE - o,
        step == -1 ==> r == o - c * SCALE,
        -4398046511104 <= r <= 4398046511104,
{
    if step > 0 {
        (c as i128 + 1) * 65536i128 - o as i128
    } else {
        o as i128 - (c as i128) * 65536i128
    }
}

/// The direction from `a` towards `b`: -1, 0 or 1.
pub open spec fn dir(a: int, b: int) -> int {
    if a < b { 1 } else if a > b { -1 } else { 0 }
}

/// How far, in sub-units, the coordinate `o` lies from the edge of cell `c`
/// that a walk in direction `s` crosses next.
pub open spec fn edge_gap(o: int, c: int, s: int) -> int {
    if s > 0 { (c + 1) * SCALE - o } else { o - c * SCALE }
}

/// The cells `cs` as pairs of integers.
pub open spec fn cell_ints(cs: Seq<(i32, i32)>) -> Seq<(int, int)> {
    cs.map_values(|c: (i32, i32)| cell_int(c))
}

impl Line {
    /// The direction of travel along each axis.
    pub open spec fn heading(self) -> (int, int) {
        (dir(self.0.0 as int, self.1.0 as int), dir(self.0.1 as int, self.1.1 as int))
    }

    /// Whether the cell `(cx, cy)` lies between the end cells on each axis,
    /// as seen in the direction of travel.
    pub open spec fn on_course(self, cx: int, cy: int) -> bool {
        let (sx, sy) = self.heading();
        let (ex, ey) = self.spec_end();
        &&& (sx > 0 ==> cx <= ex) && (sx < 0 ==> cx >= ex) && (sx == 0 ==> cx == ex)
        &&& (sy > 0 ==> cy <= ey) && (sy < 0 ==> cy >= ey) && (sy == 0 ==> cy == ey)
    }

    /// Which cell edges the segment leaving cell `(cx, cy)` meets first:
    /// the vertical one, the horizontal one, or both at once (a corner).
    /// The crossing of the vertical edge lies `edge_gap / |dx|` along the
    /// segment, that of the horizontal edge `edge_gap / |dy|`; they are
    /// compared cross-multiplied. An axis on which the end cell is reached
    /// is not crossed again.
    pub open spec fn crossing(self, cx: int, cy: int) -> (bool, bool) {
        let (sx, sy) = self.heading();
        let (ex, ey) = self.spec_end();
        let adx = gap(self.0.0 as int, self.1.0 as int);
        let ady = gap(self.0.1 as int, self.1.1 as int);
        if cx != ex && cy != ey {
            let lx = edge_gap(self.0.0 as int, cx, sx) * ady;
            let ly = edge_gap(self.0.1 as int, cy, sy) * adx;
            (lx <= ly, ly <= lx)
        } else {
            (cx != ex, cy != ey)
        }
    }

    /// The cells the segment passes through from cell `(cx, cy)` on, up to
    /// the destination's cell. At a corner the cell across the vertical
    /// edge and the cell across the horizontal edge both come before the
    /// cell across the corner.
    pub open spec fn cover_from(self, cx: int, cy: int) -> Seq<(int, int)>
        decreases gap(cx, self.spec_end().0) + gap(cy, self.spec_end().1),
    {
        let (sx, sy) = self.heading();
        let (gx, gy) = self.crossing(cx, cy);
        if (cx, cy) == self.spec_end() || !self.on_course(cx, cy) {
            seq![(cx, cy)]
        } else if gx && gy {
            seq![(cx, cy), (cx + sx, cy), (cx, cy + sy)] + self.cover_from(cx + sx, cy + sy)
        } else if gx {
            seq![(cx, cy)] + self.cover_from(cx + sx, cy)
        } else {
            seq![(cx, cy)] + self.cover_from(cx, cy + sy)
        }
    }

    /// The supercover of the segment: the cells it passes through, from the
    /// origin's cell to the destination's cell.
    pub open spec fn cover(self) -> Seq<(int, int)> {
        self.cover_from(self.spec_start().0, self.spec_start().1)
    }

    proof fn lemma_cover_from_first(self, cx: int, cy: int)
        ensures
            self.cover_from(cx, cy).len() >= 1,
            self.cover_from(cx, cy)[0] == (cx, cy),
    {
    }

    /// Whether `cells` is a walk of touching cells from the cell holding the
    /// origin to the cell holding the destination, every cell within the
    /// box that those two cells span, a single cell where they are the
    /// same, and at most two cells per unit of distance between them.
    pub open spec fn is_cover(self, cells: Seq<(i32, i32)>) -> bool {
        &&& cells.len() >= 1
        &&& cell_int(cells[0]) == self.spec_start()
        &&& cell_int(cells.last()) == self.spec_end()
        &&& forall|i: int| 0 <= i < cells.len() - 1 ==> #[trigger] touching(cells[i], cells[i + 1])
        &&& forall|i: int| 0 <= i < cells.len() ==> {
            &&& between(self.spec_start().0, #[trigger] cells[i].0 as int, self.spec_end().0)
            &&& between(self.spec_start().1, cells[i].1 as int, self.spec_end().1)
        }
        &&& self.spec_start() == self.spec_end() ==> cells.len() == 1
        &&& cells.len() <= 2 * (gap(self.spec_start().0, self.spec_end().0) + gap(
            self.spec_start().1,
            self.spec_end().1,
        )) + 1
    }

    /// The cell holding the origin.
    pub open spec fn spec_start(self) -> (int, int) {
        cell_at(self.0)
    }

    /// The cell holding the destination.
    pub open spec fn spec_end(self) -> (int, int) {
        cell_at(self.1)
    }

    /// The cells that the segment passes through, from the cell holding
    /// its origin to the cell holding its destination.
    ///
    /// Each step crosses the cell edge that the segment meets first; where
    /// it meets a corner exactly, both cells beside the corner come before
    /// the cell across it. Both end cells are taken from the end points
    /// themselves, so the walk ends exactly in the destination's cell.
    pub fn supercover(&self) -> (r: Vec<(i32, i32)>)
        requires
            in_limit(self.0),
            in_limit(self.1),
        ensures
            self.is_cover(r@),
            cell_ints(r@) == self.cover(),
    {
        let Line(o, d) = *self;
        let sx = cell_coord(o.0);
        let sy = cell_coord(o.1);
        let ex = cell_coord(d.0);
        let ey = cell_coord(d.1);
        let stx = sign(d.0 - o.0);
        let sty = sign(d.1 - o.1);
        let adx = magnitude(d.0 - o.0) as i128;
        let ady = magnitude(d.1 - o.1) as i128;
        proof {
            if o.0 <= d.0 {
                lemma_div_is_ordered(o.0 as int, d.0 as int, SCALE as int);
            } else {
                lemma_div_is_ordered(d.0 as int, o.0 as int, SCALE as int);
            }
            if o.1 <= d.1 {
                lemma_div_is_ordered(o.1 as int, d.1 as int, SCALE as int);
            } else {
                lemma_div_is_ordered(d.1 as int, o.1 as int, SCALE as int);
            }
        }
        let mut cx = sx;
        let mut cy = sy;
        let mut out: Vec<(i32, i32)> = Vec::new();
        out.push((cx, cy));
        proof {
            self.lemma_cover_from_first(cx as int, cy as int);
            assert(cell_ints(out@) + self.cover().drop_first() =~= self.cover());
        }
        while cx != ex || cy != ey
            invariant
                in_limit(o),
                in_limit(d),
                (sx as int, sy as int) == cell_at(o),
                (ex as int, ey as int) == cell_at(d),
                -16777216 <= sx <= 16777216,
                -16777216 <= sy <= 16777216,
                -16777216 <= ex <= 16777216,
                -16777216 <= ey <= 16777216,
                stx > 0 ==> sx <= ex,
                stx < 0 ==> sx >= ex,
                sty > 0 ==> sy <= ey,
                sty < 0 ==> sy >= ey,
                (sx, sy) == (ex, ey) ==> out@.len() == 1,
                out@.len() + 2 * (gap(cx as int, ex as int) + gap(cy as int, ey as int)) <= 2 * (gap(
                    sx as int,
                    ex as int,
                ) + gap(sy as int, ey as int)) + 1,
                stx > 0 ==> cx <= ex,
                stx < 0 ==> cx >= ex,
                stx == 0 ==> cx == ex,
                sty > 0 ==> cy <= ey,
                sty < 0 ==> cy >= ey,
                sty == 0 ==> cy == ey,
                -1 <= stx <= 1,
                -1 <= sty <= 1,
                (stx as int, sty as int) == self.heading(),
                adx == gap(o.0 as int, d.0 as int),
                ady == gap(o.1 as int, d.1 as int),
                *self == Line(o, d),
                cell_ints(out@) + self.cover_from(cx as int, cy as int).drop_first() == self.cover(),
                stx != 0 ==> adx > 0,
                sty != 0 ==> ady > 0,
                0 <= adx <= 2199023255552,
                0 <= ady <= 2199023255552,
                between(sx as int, cx as int, ex as int),
                between(sy as int, cy as int, ey as int),
                out@.len() >= 1,
                out@[0] == (sx, sy),
                out@.last() == (cx, cy),
                forall|i: int| 0 <= i < out@.len() - 1 ==> #[trigger] touching(out@[i], out@[i + 1]),
                forall|i: int| 0 <= i < out@.len() ==> {
                    &&& between(sx as int, #[trigger] out@[i].0 as int, ex as int)
                    &&& between(sy as int, out@[i].1 as int, ey as int)
                },
            decreases gap(cx as int, ex as int) + gap(cy as int, ey as int),
        {
            let can_x = cx != ex;
            let can_y = cy != ey;
            let (go_x, go_y) = if can_x && can_y {
                let nx = to_edge(o.0, cx, stx);
                let ny = to_edge(o.1, cy, sty);
                proof {
                    lemma_product_bound(nx as int, ady as int);
                    lemma_product_bound(ny as int, adx as int);
                }
                let lx = nx * ady;
                let ly = ny * adx;
                (lx <= ly, ly <= lx)
            } else {
                (can_x, can_y)
            };
            let ghost before = out@;
            let ghost (gcx, gcy) = (cx as int, cy as int);
            assert(between(sx as int, gcx, ex as int) && between(sy as int, gcy, ey as int));
            assert((go_x, go_y) == self.crossing(gcx, gcy));
            assert(go_x || go_y);
            assert(go_x ==> can_x && between(sx as int, cx + stx, ex as int));
            assert(go_y ==> can_y && between(sy as int, cy + sty, ey as int));
            if go_x && go_y {
                out.push((cx + stx, cy));
                out.push((cx, cy + sty));
                cx = cx + stx;
                cy = cy + sty;
                out.push((cx, cy));
            } else if go_x {
                cx = cx + stx;
                out.push((cx, cy));
            } else {
                cy = cy + sty;
                out.push((cx, cy));
            }
            proof {
                self.lemma_cover_from_first(cx as int, cy as int);
                let rest = self.cover_from(cx as int, cy as int);
                assert(self.cover_from(gcx, gcy).drop_first() =~= cell_ints(out@).subrange(
                    before.len() as int,
                    out@.len() as int,
                ) + rest.drop_first());
                assert(cell_ints(out@) =~= cell_ints(before) + cell_ints(out@).subrange(
                    before.len() as int,
                    out@.len() as int,
                ));
                assert forall|i: int| 0 <= i < out@.len() - 1 implies #[trigger] touching(out@[i], out@[i + 1]) by {
                    if i < before.len() - 1 {
                        assert(out@[i] == before[i] && out@[i + 1] == before[i + 1]);
                    }
                }
                assert forall|i: int| 0 <= i < out@.len() implies {
                    &&& between(sx as int, #[trigger] out@[i].0 as int, ex as int)
                    &&& between(sy as int, out@[i].1 as int, ey as int)
                } by {
                    if i < before.len() {
                        assert(out@[i] == before[i]);
                        assert(between(sx as int, before[i].0 as int, ex as int));
                        assert(between(sy as int, before[i].1 as int, ey as int));
                    } else if go_x && go_y && i == before.len() {
                        assert(out@[i] == ((gcx + stx) as i32, gcy as i32));
                    } else if go_x && go_y && i == before.len() + 1 {
                        assert(out@[i] == (gcx as i32, (gcy + sty) as i32));
                    } else {
                        assert(out@[i] == (cx, cy));
                    }
                }
            }
        }
        proof {
            assert(self.cover_from(cx as int, cy as int) == seq![(cx as int, cy as int)]);
            assert(cell_ints(out@) =~= cell_ints(out@) + self.cover_from(cx as int, cy as int).drop_first());
        }
        out
    }
}

} // verus!
