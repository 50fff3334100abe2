use vstd::prelude::*;
use crate::grid::TileNet;

verus! {

/// Walks the tiles of a rectangle of a [`TileNet`] row by row.
///
/// The rectangle is `(c0, c1, r0, r1)`: columns `c0 .. c1` and rows
/// `r0 .. r1`, ends excluded, already clipped to the grid.
pub struct TileView<'a, T> {
    tilenet: &'a TileNet<T>,
    rectangle: (usize, usize, usize, usize),
    current: (usize, usize),
}

impl<'a, T> Clone for TileView<'a, T> {
    /// An independent walk from the same position.
    fn clone(&self) -> (r: Self)
        ensures
            r == *self,
    {
        TileView { tilenet: self.tilenet, rectangle: self.rectangle, current: self.current }
    }
}

impl<'a, T> TileView<'a, T> {
    /// The grid walked.
    pub closed spec fn grid(&self) -> TileNet<T> {
        *self.tilenet
    }

    /// The clipped rectangle `(c0, c1, r0, r1)`.
    pub closed spec fn rect(&self) -> (usize, usize, usize, usize) {
        self.rectangle
    }

    /// The cell that the next step yields, unless the walk is over.
    pub closed spec fn cursor(&self) -> (usize, usize) {
        self.current
    }

    /// Whether the walk is over.
    pub open spec fn done(&self) -> bool {
        self.cursor().1 >= self.rect().3 || self.rect().0 >= self.rect().1
    }

    /// The rectangle lies inside the grid and the cursor inside the
    /// rectangle's columns.
    pub open spec fn wf(&self) -> bool {
        &&& self.grid().wf()
        &&& self.rect().1 <= self.grid().width()
        &&& self.rect().3 <= self.grid().height()
        &&& self.rect().2 <= self.cursor().1
        &&& self.rect().0 <= self.cursor().0
        &&& self.rect().0 < self.rect().1 ==> self.cursor().0 < self.rect().1
    }

    /// A view of `rectangle` = `(c0, c1, r0, r1)` of `tilenet`, with the
    /// column and row ends cut down to the grid's width and height.
    pub fn new(tilenet: &'a TileNet<T>, rectangle: (usize, usize, usize, usize)) -> (r: Self)
        requires
            tilenet.wf(),
        ensures
            r.wf(),
            r.grid() == *tilenet,
            r.rect() == (
                rectangle.0,
                if rectangle.1 < tilenet.width() { rectangle.1 } else { tilenet.width() as usize },
                rectangle.2,
                if rectangle.3 < tilenet.height() { rectangle.3 } else { tilenet.height() as usize },
            ),
            r.cursor() == (rectangle.0, rectangle.2),
    {
        let (cols, rows) = tilenet.get_size();
        let c1 = if rectangle.1 < cols { rectangle.1 } else { cols };
        let r1 = if rectangle.3 < rows { rectangle.3 } else { rows };
        TileView {
            tilenet,
            rectangle: (rectangle.0, c1, rectangle.2, r1),
            current: (rectangle.0, rectangle.2),
        }
    }

    /// The tile under the cursor with its column and row, then moves the
    /// cursor one cell right, or to the start of the next row at the
    /// rectangle's right edge. `None` once every row has been walked.
    pub fn next(&mut self) -> (r: Option<(&'a T, usize, usize)>)
        requires
            old(self).wf(),
        ensures
            final(self).wf(),
            final(self).grid() == old(self).grid(),
            final(self).rect() == old(self).rect(),
            old(self).done() ==> r is None && *final(self) == *old(self),
            !old(self).done() ==> {
                let (c, row) = old(self).cursor();
                &&& r == Some((&old(self).grid().tile(c as int, row as int), c, row))
                &&& final(self).cursor() == if c + 1 < old(self).rect().1 {
                    ((c + 1) as usize, row)
                } else {
                    (old(self).rect().0, (row + 1) as usize)
                }
            },
    {
        if self.current.1 >= self.rectangle.3 || self.rectangle.0 >= self.rectangle.1 {
            return None;
        }
        let (c, row) = self.current;
        let tile = self.tilenet.get((c, row));
        if c + 1 < self.rectangle.1 {
            self.current = (c + 1, row);
        } else {
            self.current = (self.rectangle.0, row + 1);
        }
        match tile {
            Some(t) => Some((t, c, row)),
            None => None,
        }
    }
}

impl<T> TileNet<T> {
    /// A view of columns `rectangle.0 .. rectangle.1` and rows
    /// `rectangle.2 .. rectangle.3`, clipped to the grid.
    pub fn view_box(&self, rectangle: (usize, usize, usize, usize)) -> (r: TileView<'_, T>)
        requires
            self.wf(),
        ensures
            r.wf(),
            r.grid() == *self,
            r.rect() == (
                rectangle.0,
                if rectangle.1 < self.width() { rectangle.1 } else { self.width() as usize },
                rectangle.2,
                if rectangle.3 < self.height() { rectangle.3 } else { self.height() as usize },
            ),
            r.cursor() == (rectangle.0, rectangle.2),
    {
        TileView::new(self, rectangle)
    }

    /// A view of the whole grid.
    pub fn view_all(&self) -> (r: TileView<'_, T>)
        requires
            self.wf(),
        ensures
            r.wf(),
            r.grid() == *self,
            r.rect() == (0usize, self.width() as usize, 0usize, self.height() as usize),
            r.cursor() == (0usize, 0usize),
    {
        let (cols, rows) = self.get_size();
        TileView::new(self, (0, cols, 0, rows))
    }

    /// A view of the cells less than `span` away from `center` on each
    /// axis: columns `center.0 - span.0 .. center.0 + span.0` and rows
    /// `center.1 - span.1 .. center.1 + span.1`. A start below zero is
    /// taken as zero, and the rectangle is clipped to the grid.
    pub fn view_center(&self, center: (usize, usize), span: (usize, usize)) -> (r: TileView<'_, T>)
        requires
            self.wf(),
        ensures
            r.wf(),
            r.grid() == *self,
            r.rect().0 == clamp_low(center.0 - span.0),
            r.rect().1 == clamp_high(center.0 + span.0, self.width()),
            r.rect().2 == clamp_low(center.1 - span.1),
            r.rect().3 == clamp_high(center.1 + span.1, self.height()),
            r.cursor() == (r.rect().0, r.rect().2),
    {
        let c0 = if center.0 >= span.0 { center.0 - span.0 } else { 0 };
        let c1 = if center.0 <= usize::MAX - span.0 { center.0 + span.0 } else { usize::MAX };
        let r0 = if center.1 >= span.1 { center.1 - span.1 } else { 0 };
        let r1 = if center.1 <= usize::MAX - span.1 { center.1 + span.1 } else { usize::MAX };
        TileView::new(self, (c0, c1, r0, r1))
    }
}

/// A rectangle's start: `x`, or zero where `x` is negative.
pub open spec fn clamp_low(x: int) -> usize {
    if x < 0 { 0 } else { x as usize }
}

/// A rectangle's end: `x`, but no more than `limit`.
pub open spec fn clamp_high(x: int, limit: nat) -> usize {
    if x < limit { x as usize } else { limit as usize }
}

} // verus!
