//! Placing blocks: one cell at a time, or a whole brush stroke.
//!
//! A request never overwrites a block and never fails: a cell that is off the
//! grid, in the top row, in the left column, or occupied is passed over in
//! silence.
use crate::grid::{Grid, GridView};
use crate::kind::{Block, BlockKind};
use vstd::prelude::*;

verus! {

/// Whether the cell `(x, y)` lies in the filled disk around `(cx, cy)`; the
/// rim belongs to the disk.
pub open spec fn in_disk(cx: int, cy: int, radius: int, x: int, y: int) -> bool {
    (x - cx) * (x - cx) + (y - cy) * (y - cy) <= radius * radius
}

impl GridView {
    /// A block may be placed here: the cell is on the grid, outside the top
    /// row and the left column, and empty.
    pub open spec fn placeable(self, x: int, y: int) -> bool {
        self.position_is_empty(x, y) && x > 0 && y > 0
    }

    /// The grid after a request to place a fresh block of `kind` at `(x, y)`.
    pub open spec fn place(self, kind: BlockKind, x: int, y: int) -> GridView {
        if self.placeable(x, y) {
            self.set_cell(x, y, Some(Block::spec_new(kind)))
        } else {
            self
        }
    }

    /// The grid after a brush stroke: a fresh block of `kind` in every
    /// placeable cell of the disk, everything else as before.
    pub open spec fn place_area(self, kind: BlockKind, cx: int, cy: int, radius: int) -> GridView {
        GridView {
            rows: Seq::new(
                self.height,
                |y: int|
                    Seq::new(
                        self.width,
                        |x: int|
                            if in_disk(cx, cy, radius, x, y) && self.placeable(x, y) {
                                Some(Block::spec_new(kind))
                            } else {
                                self.at(x, y)
                            },
                    ),
            ),
            ..self
        }
    }
}

/// A cell that is farther than the radius from the centre along one axis lies
/// outside the disk.
proof fn lemma_outside_box(cx: int, cy: int, radius: int, x: int, y: int)
    requires
        0 <= radius,
        x - cx > radius || cx - x > radius || y - cy > radius || cy - y > radius,
    ensures
        !in_disk(cx, cy, radius, x, y),
{
    assert((x - cx) * (x - cx) + (y - cy) * (y - cy) > radius * radius) by (nonlinear_arith)
        requires
            0 <= radius,
            x - cx > radius || cx - x > radius || y - cy > radius || cy - y > radius,
    ;
}

/// The distance between two indices.
fn distance(a: usize, b: usize) -> (d: usize)
    ensures
        d == (if a >= b {
            a - b
        } else {
            b - a
        }),
{
    if a >= b {
        a - b
    } else {
        b - a
    }
}

/// Computes [`in_disk`].
fn is_in_disk(cx: usize, cy: usize, radius: usize, x: usize, y: usize) -> (inside: bool)
    ensures
        inside == in_disk(cx as int, cy as int, radius as int, x as int, y as int),
{
    let dx = distance(x, cx) as u128;
    let dy = distance(y, cy) as u128;
    let limit = radius as u128;
    if dx > limit || dy > limit {
        proof {
            lemma_outside_box(cx as int, cy as int, radius as int, x as int, y as int);
        }
        return false;
    }
    assert(dx * dx <= limit * limit && dy * dy <= limit * limit && limit * limit <= u128::MAX)
        by (nonlinear_arith)
        requires
            dx <= limit,
            dy <= limit,
            limit <= 0xffff_ffff_ffff_ffff,
    ;
    assert(dx * dx == (x - cx) * (x - cx) && dy * dy == (y - cy) * (y - cy)) by (nonlinear_arith)
        requires
            dx == x - cx || dx == cx - x,
            dy == y - cy || dy == cy - y,
    ;
    let square = limit * limit;
    let across = dx * dx;
    across <= square && dy * dy <= square - across
}

/// One more than the last index within `radius` of `centre`, or `bound` if
/// that comes first.
fn upper_end(centre: usize, radius: usize, bound: usize) -> (end: usize)
    ensures
        end <= bound,
        end == bound || end == centre + radius + 1,
{
    match centre.checked_add(radius) {
        Some(last) => if last < bound {
            last + 1
        } else {
            bound
        },
        None => bound,
    }
}

impl Grid {
    /// Places a fresh block of `kind` at `(x, y)`, if that cell is on the
    /// grid, outside the top row and the left column, and empty. Anything
    /// else is passed over in silence.
    pub fn place(&mut self, kind: BlockKind, x: usize, y: usize)
        ensures
            final(self)@ == old(self)@.place(kind, x as int, y as int),
    {
        if x > 0 && y > 0 && self.position_is_empty((x, y)) {
            self.set_cell(x, y, Some(Block::new(kind)));
        }
    }

    /// Places a fresh block of `kind` in every cell of the filled disk of the
    /// given radius around `(center_x, center_y)` that [`Grid::place`] would
    /// fill.
    pub fn place_area(&mut self, kind: BlockKind, center_x: usize, center_y: usize, radius: usize)
        ensures
            final(self)@ == old(self)@.place_area(
                kind,
                center_x as int,
                center_y as int,
                radius as int,
            ),
    {
        let ghost start = self@;
        let ghost cx = center_x as int;
        let ghost cy = center_y as int;
        let ghost r = radius as int;
        proof {
            self.lemma_view_wf();
        }
        let width = self.width();
        let height = self.height();
        let x_first = if center_x >= radius {
            center_x - radius
        } else {
            0
        };
        let y_first = if center_y >= radius {
            center_y - radius
        } else {
            0
        };
        let x_end = upper_end(center_x, radius, width);
        let y_end = upper_end(center_y, radius, height);
        let mut y: usize = y_first;
        assert forall|i: int, j: int| start.in_bounds(i, j) && j < y_first implies !in_disk(
            cx,
            cy,
            r,
            i,
            j,
        ) by {
            lemma_outside_box(cx, cy, r, i, j);
        }
        while y < y_end
            invariant
                start.wf(),
                start.width == width,
                start.height == height,
                cx == center_x,
                cy == center_y,
                r == radius,
                x_first == (if center_x >= radius {
                    center_x - radius
                } else {
                    0
                }),
                x_end <= width,
                x_end == width || x_end == center_x + radius + 1,
                y_end <= height,
                y_first <= y,
                self@.wf(),
                self@.width == width,
                self@.height == height,
                forall|i: int, j: int|
                    start.in_bounds(i, j) ==> #[trigger] self@.at(i, j) == (if j < y && in_disk(
                        cx,
                        cy,
                        r,
                        i,
                        j,
                    ) && start.placeable(i, j) {
                        Some(Block::spec_new(kind))
                    } else {
                        start.at(i, j)
                    }),
            decreases y_end - y,
        {
            let mut x: usize = x_first;
            assert forall|i: int| 0 <= i < width && i < x_first implies !in_disk(
                cx,
                cy,
                r,
                i,
                y as int,
            ) by {
                lemma_outside_box(cx, cy, r, i, y as int);
            }
            while x < x_end
                invariant
                    start.wf(),
                    start.width == width,
                    start.height == height,
                    cx == center_x,
                    cy == center_y,
                    r == radius,
                    y < y_end <= height,
                    x_end <= width,
                    x_first <= x,
                    self@.wf(),
                    self@.width == width,
                    self@.height == height,
                    forall|i: int, j: int|
                        start.in_bounds(i, j) ==> #[trigger] self@.at(i, j) == (if (j < y || (j
                            == y && i < x)) && in_disk(cx, cy, r, i, j) && start.placeable(i, j) {
                            Some(Block::spec_new(kind))
                        } else {
                            start.at(i, j)
                        }),
                decreases x_end - x,
            {
                let ghost before = self@;
                if is_in_disk(center_x, center_y, radius, x, y) {
                    self.place(kind, x, y);
                }
                proof {
                    assert(before.at(x as int, y as int) == start.at(x as int, y as int));
                    assert forall|i: int, j: int| start.in_bounds(i, j) implies #[trigger] self@.at(
                        i,
                        j,
                    ) == (if (j < y || (j == y && i < x + 1)) && in_disk(cx, cy, r, i, j)
                        && start.placeable(i, j) {
                        Some(Block::spec_new(kind))
                    } else {
                        start.at(i, j)
                    }) by {
                        assert(before.at(i, j) == before.rows[j][i]);
                    }
                }
                x += 1;
            }
            assert forall|i: int| 0 <= i < width && i >= x_end implies !in_disk(
                cx,
                cy,
                r,
                i,
                y as int,
            ) by {
                lemma_outside_box(cx, cy, r, i, y as int);
            }
            y += 1;
        }
        proof {
            let goal = start.place_area(kind, cx, cy, r);
            assert forall|i: int, j: int| start.in_bounds(i, j) implies #[trigger] self@.rows[j][i]
                == goal.rows[j][i] by {
                assert(self@.at(i, j) == self@.rows[j][i]);
                if j >= y_end {
                    lemma_outside_box(cx, cy, r, i, j);
                }
            }
            assert(self@.rows =~~= goal.rows);
        }
    }
}

} // verus!
