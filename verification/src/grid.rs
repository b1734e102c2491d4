//! A dense table with a fixed number of columns and rows.

use vstd::prelude::*;

verus! {

/// A dense table of `width * height` cells stored row by row.
pub struct Grid<T: Clone> {
    width: usize,
    height: usize,
    buf: Vec<T>,
}

/// Offset of the cell `(col, row)` in a row-major buffer of rows `width` wide.
pub open spec fn offset(width: int, col: int, row: int) -> int {
    row * width + col
}

/// Every coordinate inside a `width * height` table has its offset inside the buffer.
pub proof fn lemma_offset_in_bounds(width: int, height: int, col: int, row: int)
    requires
        0 <= col < width,
        0 <= row < height,
    ensures
        0 <= row * width,
        0 <= offset(width, col, row) < width * height,
{
    assert(row * width >= 0) by (nonlinear_arith)
        requires row >= 0, width >= 0;
    assert(row * width + width <= height * width) by (nonlinear_arith)
        requires row + 1 <= height, width >= 0;
    assert(height * width == width * height) by (nonlinear_arith);
}

/// Two distinct coordinates of a table never share an offset.
pub proof fn lemma_offset_injective(width: int, c1: int, r1: int, c2: int, r2: int)
    requires
        0 <= c1 < width,
        0 <= c2 < width,
        0 <= r1,
        0 <= r2,
        offset(width, c1, r1) == offset(width, c2, r2),
    ensures
        c1 == c2,
        r1 == r2,
{
    if r1 < r2 {
        assert(r1 * width + width <= r2 * width) by (nonlinear_arith)
            requires r1 + 1 <= r2, width >= 0;
    } else if r2 < r1 {
        assert(r2 * width + width <= r1 * width) by (nonlinear_arith)
            requires r2 + 1 <= r1, width >= 0;
    }
}

impl<T: Clone> View for Grid<T> {
    type V = Seq<Seq<T>>;

    /// The table as a sequence of rows, each a sequence of cells by column.
    closed spec fn view(&self) -> Seq<Seq<T>> {
        Seq::new(
            self.height as nat,
            |row: int| Seq::new(self.width as nat, |col: int| self.buf@[offset(self.width as int, col, row)]),
        )
    }
}

impl<T: Clone> Grid<T> {
    #[verifier::type_invariant]
    spec fn well_formed(&self) -> bool {
        &&& self.width <= u32::MAX
        &&& self.height <= u32::MAX
        &&& self.buf.len() == self.width * self.height
    }

    /// Number of columns.
    pub closed spec fn cols(&self) -> nat {
        self.width as nat
    }

    /// Number of rows.
    pub closed spec fn rows(&self) -> nat {
        self.height as nat
    }

    /// The view has `rows()` rows of `cols()` cells each.
    pub proof fn lemma_view_shape(&self)
        ensures
            self@.len() == self.rows(),
            forall|row: int| 0 <= row < self.rows() ==> (#[trigger] self@[row]).len() == self.cols(),
    {
    }

    /// Allocates a table of `width` columns and `height` rows in which every cell is a clone
    /// of `default`. The number of cells has to fit in `usize`.
    pub fn new(width: u32, height: u32, default: T) -> (grid: Grid<T>)
        requires
            width * height <= usize::MAX,
        ensures
            grid.cols() == width,
            grid.rows() == height,
            grid@.len() == height,
            forall|row: int| 0 <= row < height ==> (#[trigger] grid@[row]).len() == width,
            forall|col: int, row: int|
                0 <= col < width && 0 <= row < height ==> cloned(default, #[trigger] grid@[row][col]),
    {
        let w: usize = width as usize;
        let h: usize = height as usize;
        assert(w * h == width * height) by (nonlinear_arith)
            requires
                w == width,
                h == height,
        ;
        let buf = vec![default; w * h];
        let grid = Grid { width: w, height: h, buf };
        assert forall|col: int, row: int| 0 <= col < width && 0 <= row < height implies cloned(
            default,
            #[trigger] grid@[row][col],
        ) by {
            lemma_offset_in_bounds(w as int, h as int, col, row);
        }
        grid
    }

    /// Number of columns.
    pub fn width(&self) -> (width: u32)
        ensures
            width == self.cols(),
    {
        proof {
            use_type_invariant(self);
        }
        self.width as u32
    }

    /// Number of rows.
    pub fn height(&self) -> (height: u32)
        ensures
            height == self.rows(),
    {
        proof {
            use_type_invariant(self);
        }
        self.height as u32
    }

    /// Reads the cell at column `col` of row `row`.
    pub fn get(&self, col: u32, row: u32) -> (cell: &T)
        requires
            col < self.cols(),
            row < self.rows(),
        ensures
            *cell == self@[row as int][col as int],
    {
        let c: usize = col as usize;
        let r: usize = row as usize;
        proof {
            use_type_invariant(self);
            lemma_offset_in_bounds(self.width as int, self.height as int, c as int, r as int);
        }
        &self.buf[r * self.width + c]
    }

    /// Overwrites the cell at column `col` of row `row` and leaves every other cell as it was.
    pub fn set(&mut self, col: u32, row: u32, value: T)
        requires
            col < old(self).cols(),
            row < old(self).rows(),
        ensures
            final(self).cols() == old(self).cols(),
            final(self).rows() == old(self).rows(),
            final(self)@ == old(self)@.update(row as int, old(self)@[row as int].update(col as int, value)),
    {
        let c: usize = col as usize;
        let r: usize = row as usize;
        proof {
            use_type_invariant(&*self);
            lemma_offset_in_bounds(self.width as int, self.height as int, c as int, r as int);
        }
        let at: usize = r * self.width + c;
        self.buf[at] = value;
        proof {
            let w = self.width as int;
            let after = self@;
            let expected = old(self)@.update(row as int, old(self)@[row as int].update(col as int, value));
            assert(after.len() == expected.len());
            assert forall|r: int| 0 <= r < after.len() implies after[r] =~= expected[r] by {
                assert(after[r].len() == w && expected[r].len() == w);
                assert forall|c: int| 0 <= c < w implies after[r][c] == expected[r][c] by {
                    lemma_offset_in_bounds(w, self.height as int, c, r);
                    if c != col || r != row {
                        if offset(w, c, r) == offset(w, col as int, row as int) {
                            lemma_offset_injective(w, c, r, col as int, row as int);
                        }
                    }
                }
            }
            assert(after =~= expected);
        }
    }
}

impl<T: Clone> vstd::std_specs::core::IndexSpecImpl<(u32, u32)> for Grid<T> {
    /// An index is a column and a row inside the table, in this order.
    open spec fn index_req(&self, index: &(u32, u32)) -> bool {
        index.0 < self.cols() && index.1 < self.rows()
    }
}

impl<T: Clone> core::ops::Index<(u32, u32)> for Grid<T> {
    type Output = T;

    /// Reads the cell at column `index.0` of row `index.1`.
    fn index(&self, index: (u32, u32)) -> (cell: &T)
        ensures
            *cell == self@[index.1 as int][index.0 as int],
    {
        self.get(index.0, index.1)
    }
}

} // verus!
