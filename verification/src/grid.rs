//! The grid of cells and its mathematical model.
use crate::kind::{Block, BlockKind};
use vstd::multiset::Multiset;
use vstd::prelude::*;

verus! {

/// A position on (or off) the grid, as `(x, y)`: column, then row.
pub type Position = (int, int);

/// What a grid is, mathematically: `height` rows of `width` cells each, row 0
/// on top. A cell is either empty or holds exactly one block.
pub struct GridView {
    pub width: nat,
    pub height: nat,
    pub rows: Seq<Seq<Option<Block>>>,
}

/// The kinds found in one cell: one kind, or none.
pub open spec fn cell_kinds(cell: Option<Block>) -> Multiset<BlockKind> {
    match cell {
        Some(block) => Multiset::singleton(block.block_kind),
        None => Multiset::empty(),
    }
}

/// The kinds of the blocks in the first `n` cells of a row.
pub open spec fn row_kinds(row: Seq<Option<Block>>, n: nat) -> Multiset<BlockKind>
    decreases n,
{
    if n == 0 {
        Multiset::empty()
    } else {
        row_kinds(row, (n - 1) as nat).add(cell_kinds(row[n - 1]))
    }
}

/// The kinds of the blocks in the first `n` rows.
pub open spec fn rows_kinds(rows: Seq<Seq<Option<Block>>>, n: nat) -> Multiset<BlockKind>
    decreases n,
{
    if n == 0 {
        Multiset::empty()
    } else {
        rows_kinds(rows, (n - 1) as nat).add(row_kinds(rows[n - 1], rows[n - 1].len()))
    }
}

/// The occupied cells among the first `n` of row `y`, left to right, each as
/// `(x, y, kind)`.
pub open spec fn row_snapshot(row: Seq<Option<Block>>, y: int, n: nat) -> Seq<(int, int, BlockKind)>
    decreases n,
{
    if n == 0 {
        Seq::empty()
    } else {
        let before = row_snapshot(row, y, (n - 1) as nat);
        match row[n - 1] {
            Some(block) => before.push((n - 1, y, block.block_kind)),
            None => before,
        }
    }
}

/// The occupied cells of the first `n` rows, top row first.
pub open spec fn rows_snapshot(rows: Seq<Seq<Option<Block>>>, n: nat) -> Seq<(int, int, BlockKind)>
    decreases n,
{
    if n == 0 {
        Seq::empty()
    } else {
        rows_snapshot(rows, (n - 1) as nat) + row_snapshot(rows[n - 1], n - 1, rows[n - 1].len())
    }
}

impl GridView {
    /// Every row is there and has the full width.
    pub open spec fn wf(self) -> bool {
        &&& self.rows.len() == self.height
        &&& forall|y: int| 0 <= y < self.height ==> (#[trigger] self.rows[y]).len() == self.width
    }

    /// The grid of the given size with no block on it.
    pub open spec fn empty(width: nat, height: nat) -> GridView {
        GridView {
            width,
            height,
            rows: Seq::new(height, |y: int| Seq::new(width, |x: int| None::<Block>)),
        }
    }

    pub open spec fn in_bounds(self, x: int, y: int) -> bool {
        0 <= x < self.width && 0 <= y < self.height
    }

    /// The content of cell `(x, y)`; meaningful for positions on the grid.
    pub open spec fn at(self, x: int, y: int) -> Option<Block> {
        self.rows[y][x]
    }

    /// The three-valued lookup: `None` off the grid, `Some(None)` for an empty
    /// cell, `Some(Some(block))` for an occupied one.
    pub open spec fn get_cell(self, x: int, y: int) -> Option<Option<Block>> {
        if self.in_bounds(x, y) {
            Some(self.at(x, y))
        } else {
            None
        }
    }

    /// The position is on the grid and holds a block.
    pub open spec fn occupied(self, x: int, y: int) -> bool {
        self.in_bounds(x, y) && self.at(x, y) is Some
    }

    /// The position is on the grid and holds no block.
    pub open spec fn position_is_empty(self, x: int, y: int) -> bool {
        self.in_bounds(x, y) && self.at(x, y) is None
    }

    /// The grid with cell `(x, y)` overwritten; a position off the grid
    /// changes nothing.
    pub open spec fn set_cell(self, x: int, y: int, cell: Option<Block>) -> GridView {
        if self.in_bounds(x, y) {
            GridView { rows: self.rows.update(y, self.rows[y].update(x, cell)), ..self }
        } else {
            self
        }
    }

    /// The grid with the contents of two cells exchanged.
    pub open spec fn swap_cells(self, a: Position, b: Position) -> GridView {
        self.set_cell(a.0, a.1, self.at(b.0, b.1)).set_cell(b.0, b.1, self.at(a.0, a.1))
    }

    /// The kinds of all blocks on the grid, each as often as it occurs.
    pub open spec fn kinds(self) -> Multiset<BlockKind> {
        rows_kinds(self.rows, self.height)
    }

    /// The occupied cells in row-major order, each as `(x, y, kind)`.
    pub open spec fn snapshot(self) -> Seq<(int, int, BlockKind)> {
        rows_snapshot(self.rows, self.height)
    }
}

/// The snapshot entries that a vector of machine values stands for.
pub open spec fn snapshot_view(entries: Seq<(usize, usize, BlockKind)>) -> Seq<(int, int, BlockKind)> {
    Seq::new(entries.len(), |i: int| (entries[i].0 as int, entries[i].1 as int, entries[i].2))
}

/// The grid: `height` rows of `width` cells, stored row after row. It owns
/// every cell and is the only thing that writes them.
pub struct Grid {
    width: usize,
    height: usize,
    cells: Vec<Option<Block>>,
}

/// A cell of the grid has its own slot in the row-major storage.
proof fn lemma_slot_in_range(x: int, y: int, width: int, height: int)
    requires
        0 <= x < width,
        0 <= y < height,
    ensures
        0 <= y * width <= y * width + x < width * height,
{
    assert(0 <= y * width && y * width + x < width * height) by (nonlinear_arith)
        requires
            0 <= x < width,
            0 <= y < height,
    ;
}

/// Two cells that share a slot are the same cell.
proof fn lemma_slot_injective(x1: int, y1: int, x2: int, y2: int, width: int)
    requires
        0 <= x1 < width,
        0 <= x2 < width,
        0 <= y1,
        0 <= y2,
        y1 * width + x1 == y2 * width + x2,
    ensures
        x1 == x2,
        y1 == y2,
{
    assert(y1 == y2) by (nonlinear_arith)
        requires
            0 <= x1 < width,
            0 <= x2 < width,
            0 <= y1,
            0 <= y2,
            y1 * width + x1 == y2 * width + x2,
    ;
}

impl View for Grid {
    type V = GridView;

    closed spec fn view(&self) -> GridView {
        GridView {
            width: self.width as nat,
            height: self.height as nat,
            rows: Seq::new(
                self.height as nat,
                |y: int| Seq::new(self.width as nat, |x: int| self.cells@[y * self.width + x]),
            ),
        }
    }
}

impl Grid {
    #[verifier::type_invariant]
    spec fn well_formed(self) -> bool {
        self.cells.len() == self.width * self.height
    }

    /// The model of a grid is always well-formed, and its sides fit the
    /// machine.
    pub proof fn lemma_view_wf(&self)
        ensures
            self@.wf(),
            self@.width <= usize::MAX,
            self@.height <= usize::MAX,
    {
    }

    /// An empty grid of the given size.
    pub fn new(width: usize, height: usize) -> (grid: Grid)
        requires
            width * height <= usize::MAX,
        ensures
            grid@ == GridView::empty(width as nat, height as nat),
    {
        let count: usize = width * height;
        let mut cells: Vec<Option<Block>> = Vec::new();
        let mut i: usize = 0;
        while i < count
            invariant
                i <= count,
                cells@.len() == i,
                forall|j: int| 0 <= j < i ==> (#[trigger] cells@[j]) is None,
            decreases count - i,
        {
            cells.push(None);
            i += 1;
        }
        let grid = Grid { width, height, cells };
        assert forall|x: int, y: int| 0 <= x < width && 0 <= y < height implies (#[trigger] grid@.rows[y][x]) is None by {
            lemma_slot_in_range(x, y, width as int, height as int);
        }
        assert(grid@.rows =~~= GridView::empty(width as nat, height as nat).rows);
        grid
    }

    pub fn width(&self) -> (w: usize)
        ensures
            w == self@.width,
    {
        self.width
    }

    pub fn height(&self) -> (h: usize)
        ensures
            h == self@.height,
    {
        self.height
    }

    /// The content of a cell, or `None` for a position off the grid.
    pub fn get_cell(&self, x: usize, y: usize) -> (cell: Option<Option<Block>>)
        ensures
            cell == self@.get_cell(x as int, y as int),
    {
        if y < self.height && x < self.width {
            proof {
                use_type_invariant(self);
                lemma_slot_in_range(x as int, y as int, self.width as int, self.height as int);
            }
            Some(self.cells[y * self.width + x])
        } else {
            None
        }
    }

    /// Whether the position is on the grid and holds no block.
    pub fn position_is_empty(&self, position: (usize, usize)) -> (empty: bool)
        ensures
            empty == self@.position_is_empty(position.0 as int, position.1 as int),
    {
        match self.get_cell(position.0, position.1) {
            Some(None) => true,
            _ => false,
        }
    }

    /// Overwrites one cell of the grid.
    pub fn set_cell(&mut self, x: usize, y: usize, cell: Option<Block>)
        requires
            old(self)@.in_bounds(x as int, y as int),
        ensures
            final(self)@ == old(self)@.set_cell(x as int, y as int, cell),
    {
        proof {
            use_type_invariant(&*self);
            lemma_slot_in_range(x as int, y as int, self.width as int, self.height as int);
        }
        let slot: usize = y * self.width + x;
        self.cells[slot] = cell;
        proof {
            let after = old(self)@.set_cell(x as int, y as int, cell);
            assert forall|i: int, j: int| 0 <= i < self.width && 0 <= j < self.height implies (
            #[trigger] self@.rows[j][i]) == after.rows[j][i] by {
                lemma_slot_in_range(i, j, self.width as int, self.height as int);
                if j * self.width + i == slot {
                    lemma_slot_injective(i, j, x as int, y as int, self.width as int);
                }
            }
            assert(self@.rows =~~= after.rows);
        }
    }

    /// Every occupied cell as `(x, y, kind)`, in row-major order. The grid
    /// stays as it is.
    pub fn snapshot(&self) -> (entries: Vec<(usize, usize, BlockKind)>)
        ensures
            snapshot_view(entries@) == self@.snapshot(),
    {
        let mut entries: Vec<(usize, usize, BlockKind)> = Vec::new();
        let mut y: usize = 0;
        while y < self.height
            invariant
                0 <= y <= self.height,
                snapshot_view(entries@) == rows_snapshot(self@.rows, y as nat),
            decreases self.height - y,
        {
            let ghost done = snapshot_view(entries@);
            let mut x: usize = 0;
            while x < self.width
                invariant
                    0 <= y < self.height,
                    0 <= x <= self.width,
                    snapshot_view(entries@) == done + row_snapshot(self@.rows[y as int], y as int, x as nat),
                decreases self.width - x,
            {
                let ghost so_far = snapshot_view(entries@);
                match self.get_cell(x, y) {
                    Some(Some(block)) => {
                        entries.push((x, y, block.block_kind));
                        assert(snapshot_view(entries@) =~= so_far.push(
                            (x as int, y as int, block.block_kind),
                        ));
                    },
                    _ => {},
                }
                x += 1;
                assert(snapshot_view(entries@) =~= done + row_snapshot(
                    self@.rows[y as int],
                    y as int,
                    x as nat,
                ));
            }
            y += 1;
        }
        entries
    }

    /// Exchanges the contents of two cells of the grid.
    pub fn swap_cells(&mut self, a: (usize, usize), b: (usize, usize))
        requires
            old(self)@.in_bounds(a.0 as int, a.1 as int),
            old(self)@.in_bounds(b.0 as int, b.1 as int),
        ensures
            final(self)@ == old(self)@.swap_cells(
                (a.0 as int, a.1 as int),
                (b.0 as int, b.1 as int),
            ),
    {
        let first = self.get_cell(a.0, a.1);
        let second = self.get_cell(b.0, b.1);
        match (first, second) {
            (Some(first), Some(second)) => {
                self.set_cell(a.0, a.1, second);
                self.set_cell(b.0, b.1, first);
            },
            _ => {},
        }
    }
}

} // verus!
