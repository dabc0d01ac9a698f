use vstd::prelude::*;

verus! {

/// The extent of a grid of cells stored row by row: cell `(x, y)` lives at
/// position `y * width + x` of a flat buffer of `width * height` cells.
#[derive(Clone, Copy, Debug, PartialEq, Eq, Structural)]
pub struct GridShape {
    pub width: usize,
    pub height: usize,
}

impl GridShape {
    /// Number of cells of the grid.
    pub open spec fn cell_count_spec(self) -> int {
        self.width * self.height
    }

    /// Whether a coordinate pair names a cell of the grid.
    pub open spec fn holds(self, x: int, y: int) -> bool {
        0 <= x < self.width && 0 <= y < self.height
    }

    /// Row-major position of cell `(x, y)`.
    pub open spec fn index_spec(self, x: int, y: int) -> int {
        y * self.width + x
    }

    /// The column of the cell stored at position `i`.
    pub open spec fn column_of(self, i: int) -> int {
        i % (self.width as int)
    }

    /// The row of the cell stored at position `i`.
    pub open spec fn row_of(self, i: int) -> int {
        i / (self.width as int)
    }

    /// A shape whose cell count fits in a buffer index.
    pub open spec fn wf(self) -> bool {
        self.width * self.height <= usize::MAX
    }

    /// The value of cell `(x, y)` in a flat buffer of this shape, or `None`
    /// outside the grid.
    pub open spec fn cell<T>(self, cells: Seq<T>, x: int, y: int) -> Option<T> {
        if self.holds(x, y) {
            Some(cells[self.index_spec(x, y)])
        } else {
            None
        }
    }

    /// A shape of `width` columns and `height` rows; the cell count must fit
    /// in a buffer index, as a buffer of that many cells is allocated for it.
    pub fn new(width: usize, height: usize) -> (s: GridShape)
        requires
            width * height <= usize::MAX,
        ensures
            s.width == width,
            s.height == height,
            s.wf(),
    {
        GridShape { width, height }
    }

    /// Number of cells, `width * height`.
    pub fn cell_count(&self) -> (n: usize)
        requires
            self.wf(),
        ensures
            n == self.cell_count_spec(),
    {
        self.width * self.height
    }

    /// Whether `(x, y)` lies inside the grid.
    pub fn contains(&self, x: usize, y: usize) -> (b: bool)
        ensures
            b == self.holds(x as int, y as int),
    {
        x < self.width && y < self.height
    }

    /// Position of cell `(x, y)` in the flat buffer, or `None` when the cell
    /// lies outside the grid.
    pub fn index_of(&self, x: usize, y: usize) -> (r: Option<usize>)
        requires
            self.wf(),
        ensures
            r is Some <==> self.holds(x as int, y as int),
            r matches Some(i) ==> i == self.index_spec(x as int, y as int) && i
                < self.cell_count_spec(),
    {
        if x < self.width && y < self.height {
            proof {
                lemma_index_in_range(*self, x as int, y as int);
            }
            Some(y * self.width + x)
        } else {
            None
        }
    }

    /// The value of cell `(x, y)`, or `None` outside the grid.
    pub fn read<T: Copy>(&self, cells: &Vec<T>, x: usize, y: usize) -> (r: Option<T>)
        requires
            self.wf(),
            cells@.len() == self.cell_count_spec(),
        ensures
            r == self.cell(cells@, x as int, y as int),
            r is Some <==> x < self.width && y < self.height,
            r matches Some(v) ==> v == cells@[y * self.width + x],
    {
        match self.index_of(x, y) {
            Some(i) => Some(cells[i]),
            None => None,
        }
    }

    /// Stores `value` in cell `(x, y)` and hands back the value it replaced;
    /// outside the grid nothing changes and `None` comes back.
    pub fn write<T: Copy>(&self, cells: &mut Vec<T>, x: usize, y: usize, value: T) -> (r: Option<
        T,
    >)
        requires
            self.wf(),
            old(cells)@.len() == self.cell_count_spec(),
        ensures
            r == self.cell(old(cells)@, x as int, y as int),
            final(cells)@ == (if self.holds(x as int, y as int) {
                old(cells)@.update(self.index_spec(x as int, y as int), value)
            } else {
                old(cells)@
            }),
            r is Some <==> x < self.width && y < self.height,
            r matches Some(v) ==> v == old(cells)@[y * self.width + x],
            final(cells)@.len() == old(cells)@.len(),
            x < self.width && y < self.height ==> final(cells)@[y * self.width + x] == value,
            forall|i: int|
                0 <= i < old(cells)@.len() && i != y * self.width + x ==> #[trigger] final(cells)@[i]
                    == old(cells)@[i],
    {
        match self.index_of(x, y) {
            Some(i) => {
                let previous = cells[i];
                cells.set(i, value);
                Some(previous)
            },
            None => None,
        }
    }
}

/// Every cell of the grid is stored at a position of the buffer.
pub proof fn lemma_index_in_range(shape: GridShape, x: int, y: int)
    requires
        shape.holds(x, y),
    ensures
        0 <= shape.index_spec(x, y) < shape.cell_count_spec(),
{
    assert(0 <= y * shape.width) by (nonlinear_arith)
        requires
            0 <= y,
    ;
    assert(y * shape.width + x < shape.width * shape.height) by (nonlinear_arith)
        requires
            0 <= x < shape.width,
            0 <= y < shape.height,
    ;
}

/// Distinct cells are stored at distinct positions, and each position is
/// decoded back into the cell stored there: the row-major layout is a
/// bijection between the cells and the positions `0 .. width * height`.
pub proof fn lemma_index_roundtrip(shape: GridShape, x: int, y: int)
    requires
        shape.holds(x, y),
    ensures
        shape.column_of(shape.index_spec(x, y)) == x,
        shape.row_of(shape.index_spec(x, y)) == y,
{
    let w = shape.width as int;
    assert((y * w + x) % w == x && (y * w + x) / w == y) by {
        vstd::arithmetic::div_mod::lemma_fundamental_div_mod_converse(y * w + x, w, y, x);
    }
}

/// Each position of the buffer holds a cell of the grid.
pub proof fn lemma_position_is_cell(shape: GridShape, i: int)
    requires
        0 <= i < shape.cell_count_spec(),
    ensures
        shape.holds(shape.column_of(i), shape.row_of(i)),
        shape.index_spec(shape.column_of(i), shape.row_of(i)) == i,
{
    let w = shape.width as int;
    let h = shape.height as int;
    assert(w > 0) by (nonlinear_arith)
        requires
            0 <= i < w * h,
            h >= 0,
            w >= 0,
    ;
    vstd::arithmetic::div_mod::lemma_fundamental_div_mod(i, w);
    vstd::arithmetic::div_mod::lemma_mod_pos_bound(i, w);
    assert(0 <= i / w < h) by (nonlinear_arith)
        requires
            0 <= i < w * h,
            w > 0,
            i == w * (i / w) + i % w,
            0 <= i % w < w,
    ;
}

/// Distinct cells never share a position.
pub proof fn lemma_index_injective(shape: GridShape, x1: int, y1: int, x2: int, y2: int)
    requires
        shape.holds(x1, y1),
        shape.holds(x2, y2),
        shape.index_spec(x1, y1) == shape.index_spec(x2, y2),
    ensures
        x1 == x2,
        y1 == y2,
{
    lemma_index_roundtrip(shape, x1, y1);
    lemma_index_roundtrip(shape, x2, y2);
}

/// Reading a cell after writing `value` into cell `(x, y)` gives `value`
/// back for that cell and the old value for every other cell; writing
/// outside the grid changes no cell.
pub proof fn lemma_write_then_read<T>(shape: GridShape, cells: Seq<T>, x: int, y: int, value: T, qx: int, qy: int)
    requires
        cells.len() == shape.cell_count_spec(),
    ensures
        shape.cell(
            if shape.holds(x, y) {
                cells.update(shape.index_spec(x, y), value)
            } else {
                cells
            },
            qx,
            qy,
        ) == (if shape.holds(x, y) && qx == x && qy == y {
            Some(value)
        } else {
            shape.cell(cells, qx, qy)
        }),
{
    if shape.holds(x, y) {
        lemma_index_in_range(shape, x, y);
        if shape.holds(qx, qy) {
            lemma_index_in_range(shape, qx, qy);
            if qx != x || qy != y {
                if shape.index_spec(qx, qy) == shape.index_spec(x, y) {
                    lemma_index_injective(shape, qx, qy, x, y);
                }
            }
        }
    }
}

} // verus!
