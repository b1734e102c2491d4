//! The table of longest-common-subsequence scores of two sequences, and how it is filled.

use crate::grid::Grid;
use crate::subsequence::is_subsequence;
use vstd::prelude::*;

verus! {

/// Where the best score of a cell came from.
#[derive(Clone, Copy, Debug, PartialEq, Eq, Structural)]
pub enum Arrow {
    /// No step: the cell is the origin, where nothing was consumed yet.
    Origin,
    /// One unit of the first sequence was consumed: a deletion.
    Left,
    /// One unit of the second sequence was consumed: an insertion.
    Up,
    /// The two units matched and both were consumed.
    Diagonal,
}

/// The two characters that stand for `arrow` when a table is written out.
pub open spec fn symbol_of(arrow: Arrow) -> Seq<char> {
    match arrow {
        Arrow::Origin => seq![' ', ' '],
        Arrow::Left => seq!['<', '-'],
        Arrow::Up => seq!['^', '^'],
        Arrow::Diagonal => seq!['<', '^'],
    }
}

impl Arrow {
    /// The two characters that stand for the arrow when a table is written out.
    pub fn symbol(&self) -> (symbol: &'static str)
        ensures
            symbol@ == symbol_of(*self),
    {
        proof {
            reveal_strlit("  ");
            reveal_strlit("<-");
            reveal_strlit("^^");
            reveal_strlit("<^");
        }
        let symbol = match self {
            Arrow::Origin => "  ",
            Arrow::Left => "<-",
            Arrow::Up => "^^",
            Arrow::Diagonal => "<^",
        };
        assert(symbol@ =~= symbol_of(*self));
        symbol
    }
}

/// One cell of the table: the length of the longest common subsequence of the two prefixes
/// that end at the cell, and the step that reached it.
#[derive(Clone, Copy, Debug, PartialEq, Eq, Structural)]
pub struct Cell {
    pub score: usize,
    pub arrow: Arrow,
}

/// Score of the cell `(i, j)`, which compares the first `i` units of `first` with the first
/// `j` units of `second`: one more than the score before both last units where they are
/// equal, else the better of the scores without the one and without the other.
pub open spec fn score(first: Seq<char>, second: Seq<char>, i: int, j: int) -> nat
    decreases i + j,
{
    if i <= 0 || j <= 0 {
        0
    } else if first[i - 1] == second[j - 1] {
        score(first, second, i - 1, j - 1) + 1
    } else if score(first, second, i, j - 1) >= score(first, second, i - 1, j) {
        score(first, second, i, j - 1)
    } else {
        score(first, second, i - 1, j)
    }
}

/// The score of the last cell of the table of `first` and `second`: the length of their
/// longest common subsequence.
pub open spec fn lcs_len(first: Seq<char>, second: Seq<char>) -> nat {
    score(first, second, first.len() as int, second.len() as int)
}

/// Arrow of the cell `(i, j)`. Where neither neighbour is better the arrow points up.
pub open spec fn arrow(first: Seq<char>, second: Seq<char>, i: int, j: int) -> Arrow {
    if i <= 0 && j <= 0 {
        Arrow::Origin
    } else if j <= 0 {
        Arrow::Left
    } else if i <= 0 {
        Arrow::Up
    } else if first[i - 1] == second[j - 1] {
        Arrow::Diagonal
    } else if score(first, second, i, j - 1) >= score(first, second, i - 1, j) {
        Arrow::Up
    } else {
        Arrow::Left
    }
}

/// Whether the cell of `grid` at `(i, j)` is the one that belongs there in the table of `first`
/// and `second`.
pub open spec fn cell_of(grid: Seq<Seq<Cell>>, first: Seq<char>, second: Seq<char>, i: int, j: int) -> bool {
    &&& grid[j][i].score == score(first, second, i, j)
    &&& grid[j][i].arrow == arrow(first, second, i, j)
}

/// `grid` is the complete table of `first` and `second`: one column for each prefix of
/// `first`, one row for each prefix of `second`, every cell as `score` and `arrow` say.
pub open spec fn is_lcs_table(grid: &Grid<Cell>, first: Seq<char>, second: Seq<char>) -> bool {
    &&& grid.cols() == first.len() + 1
    &&& grid.rows() == second.len() + 1
    &&& forall|i: int, j: int|
        0 <= i <= first.len() && 0 <= j <= second.len() ==> #[trigger] cell_of(grid@, first, second, i, j)
}

/// Two complete tables of the same two sequences are the same: the table follows from the
/// sequences alone.
pub proof fn theorem_table_is_determined(one: &Grid<Cell>, other: &Grid<Cell>, first: Seq<char>, second: Seq<char>)
    requires
        is_lcs_table(one, first, second),
        is_lcs_table(other, first, second),
    ensures
        one@ == other@,
{
    one.lemma_view_shape();
    other.lemma_view_shape();
    assert forall|j: int| 0 <= j < one@.len() implies one@[j] =~= other@[j] by {
        assert forall|i: int| 0 <= i < one@[j].len() implies one@[j][i] == other@[j][i] by {
            assert(cell_of(one@, first, second, i, j));
            assert(cell_of(other@, first, second, i, j));
        }
    }
    assert(one@ =~= other@);
}

/// A score never exceeds the length of either prefix.
pub proof fn lemma_score_bounded(first: Seq<char>, second: Seq<char>, i: int, j: int)
    requires
        0 <= i,
        0 <= j,
    ensures
        score(first, second, i, j) <= i,
        score(first, second, i, j) <= j,
    decreases i + j,
{
    if i > 0 && j > 0 {
        lemma_score_bounded(first, second, i - 1, j - 1);
        lemma_score_bounded(first, second, i, j - 1);
        lemma_score_bounded(first, second, i - 1, j);
    }
}

/// Where the two units differ and neither neighbour has the better score, the
/// arrow points up.
pub proof fn theorem_tie_points_up(first: Seq<char>, second: Seq<char>, i: int, j: int)
    requires
        0 < i,
        0 < j,
        first[i - 1] != second[j - 1],
        score(first, second, i, j - 1) == score(first, second, i - 1, j),
    ensures
        arrow(first, second, i, j) == Arrow::Up,
        score(first, second, i, j) == score(first, second, i, j - 1),
{
}

/// One more unit in either prefix never lowers the score and raises it by one at most.
pub proof fn lemma_score_steps(first: Seq<char>, second: Seq<char>, i: int, j: int)
    requires
        0 <= i,
        0 <= j,
    ensures
        score(first, second, i, j) <= score(first, second, i + 1, j) <= score(first, second, i, j) + 1,
        score(first, second, i, j) <= score(first, second, i, j + 1) <= score(first, second, i, j) + 1,
    decreases i + j,
{
    if j > 0 {
        lemma_score_steps(first, second, i, j - 1);
    }
    if i > 0 {
        lemma_score_steps(first, second, i - 1, j);
    }
}

/// No common subsequence of the two prefixes that end at the cell `(i, j)` is longer than
/// the score of the cell.
pub proof fn lemma_score_bounds_common(first: Seq<char>, second: Seq<char>, i: int, j: int, sub: Seq<char>)
    requires
        0 <= i <= first.len(),
        0 <= j <= second.len(),
        is_subsequence(sub, first.take(i)),
        is_subsequence(sub, second.take(j)),
    ensures
        sub.len() <= score(first, second, i, j),
    decreases i + j,
{
    if sub.len() > 0 {
        assert(first.take(i).drop_last() =~= first.take(i - 1));
        assert(second.take(j).drop_last() =~= second.take(j - 1));
        if is_subsequence(sub, first.take(i - 1)) {
            lemma_score_bounds_common(first, second, i - 1, j, sub);
            lemma_score_steps(first, second, i - 1, j);
        } else if is_subsequence(sub, second.take(j - 1)) {
            lemma_score_bounds_common(first, second, i, j - 1, sub);
            lemma_score_steps(first, second, i, j - 1);
        } else {
            lemma_score_bounds_common(first, second, i - 1, j - 1, sub.drop_last());
        }
    }
}

/// The score of the last cell of the table bounds the length of every common subsequence of
/// the two sequences.
pub proof fn theorem_score_bounds_common(first: Seq<char>, second: Seq<char>, sub: Seq<char>)
    requires
        is_subsequence(sub, first),
        is_subsequence(sub, second),
    ensures
        sub.len() <= lcs_len(first, second),
{
    assert(first.take(first.len() as int) =~= first);
    assert(second.take(second.len() as int) =~= second);
    lemma_score_bounds_common(first, second, first.len() as int, second.len() as int, sub);
}

/// Sequences of `m` and `n` units are short enough for a table: its coordinates fit in `u32`
/// and the number of its cells fits in `usize`.
pub open spec fn sizes_fit(m: int, n: int) -> bool {
    &&& 0 <= m < u32::MAX
    &&& 0 <= n < u32::MAX
    &&& (m + 1) * (n + 1) <= usize::MAX
}

/// The two sequences are short enough for a table.
pub open spec fn table_fits(first: Seq<char>, second: Seq<char>) -> bool {
    sizes_fit(first.len() as int, second.len() as int)
}

/// Whether sequences of `m` and `n` units are short enough for a table.
pub fn check_sizes(m: usize, n: usize) -> (fit: bool)
    ensures
        fit == sizes_fit(m as int, n as int),
{
    if m >= u32::MAX as usize || n >= u32::MAX as usize {
        false
    } else {
        (m + 1).checked_mul(n + 1).is_some()
    }
}

/// Writing the right cell at `(i, j)` keeps every cell that was right before.
proof fn lemma_set_keeps(
    before: Seq<Seq<Cell>>,
    after: Seq<Seq<Cell>>,
    first: Seq<char>,
    second: Seq<char>,
    i: int,
    j: int,
    cell: Cell,
)
    requires
        0 <= j < before.len(),
        0 <= i < before[j].len(),
        after == before.update(j, before[j].update(i, cell)),
        cell.score == score(first, second, i, j),
        cell.arrow == arrow(first, second, i, j),
    ensures
        cell_of(after, first, second, i, j),
        forall|c: int, r: int|
            0 <= r < before.len() && 0 <= c < before[r].len() && cell_of(before, first, second, c, r)
                ==> #[trigger] cell_of(after, first, second, c, r),
{
}

/// Builds the table of `first` and `second` by dynamic programming: the borders first, then
/// column by column.
pub fn create_lcs(first: &Vec<char>, second: &Vec<char>) -> (grid: Grid<Cell>)
    requires
        table_fits(first@, second@),
    ensures
        is_lcs_table(&grid, first@, second@),
{
    let m: u32 = first.len() as u32;
    let n: u32 = second.len() as u32;
    let mut grid = Grid::new(m + 1, n + 1, Cell { score: 0, arrow: Arrow::Origin });

    let mut i: u32 = 1;
    while i <= m
        invariant
            1 <= i <= m + 1,
            m == first@.len(),
            n == second@.len(),
            m < u32::MAX,
            grid.cols() == m + 1,
            grid.rows() == n + 1,
            forall|c: int| 1 <= c < i ==> #[trigger] cell_of(grid@, first@, second@, c, 0),
        decreases m + 1 - i,
    {
        let ghost before = grid@;
        proof {
            grid.lemma_view_shape();
        }
        grid.set(i, 0, Cell { score: 0, arrow: Arrow::Left });
        proof {
            lemma_set_keeps(before, grid@, first@, second@, i as int, 0, Cell { score: 0, arrow: Arrow::Left });
        }
        i += 1;
    }

    let mut j: u32 = 1;
    while j <= n
        invariant
            1 <= j <= n + 1,
            m == first@.len(),
            n == second@.len(),
            n < u32::MAX,
            grid.cols() == m + 1,
            grid.rows() == n + 1,
            forall|c: int| 1 <= c <= m ==> #[trigger] cell_of(grid@, first@, second@, c, 0),
            forall|r: int| 1 <= r < j ==> #[trigger] cell_of(grid@, first@, second@, 0, r),
        decreases n + 1 - j,
    {
        let ghost before = grid@;
        proof {
            grid.lemma_view_shape();
        }
        grid.set(0, j, Cell { score: 0, arrow: Arrow::Up });
        proof {
            lemma_set_keeps(before, grid@, first@, second@, 0, j as int, Cell { score: 0, arrow: Arrow::Up });
        }
        j += 1;
    }

    let ghost before = grid@;
    proof {
        grid.lemma_view_shape();
    }
    grid.set(0, 0, Cell { score: 0, arrow: Arrow::Origin });
    proof {
        lemma_set_keeps(before, grid@, first@, second@, 0, 0, Cell { score: 0, arrow: Arrow::Origin });
    }

    i = 1;
    while i <= m
        invariant
            1 <= i <= m + 1,
            m == first@.len(),
            n == second@.len(),
            m < u32::MAX,
            n < u32::MAX,
            grid.cols() == m + 1,
            grid.rows() == n + 1,
            forall|c: int, r: int|
                0 <= c <= m && 0 <= r <= n && (c < i || r == 0) ==> #[trigger] cell_of(
                    grid@,
                    first@,
                    second@,
                    c,
                    r,
                ),
        decreases m + 1 - i,
    {
        let x: char = first[(i - 1) as usize];
        j = 1;
        while j <= n
            invariant
                1 <= i <= m,
                1 <= j <= n + 1,
                m == first@.len(),
                n == second@.len(),
                m < u32::MAX,
                n < u32::MAX,
                x == first@[i - 1],
                grid.cols() == m + 1,
                grid.rows() == n + 1,
                forall|c: int, r: int|
                    0 <= c <= m && 0 <= r <= n && (c < i || r == 0 || (c == i && r < j))
                        ==> #[trigger] cell_of(grid@, first@, second@, c, r),
            decreases n + 1 - j,
        {
            let y: char = second[(j - 1) as usize];
            proof {
                lemma_score_bounded(first@, second@, i - 1, j - 1);
                assert(cell_of(grid@, first@, second@, i - 1, j - 1));
                assert(cell_of(grid@, first@, second@, i - 1, j as int));
                assert(cell_of(grid@, first@, second@, i as int, j - 1));
            }
            let cell = if x == y {
                Cell { score: grid.get(i - 1, j - 1).score + 1, arrow: Arrow::Diagonal }
            } else {
                let left: usize = grid.get(i - 1, j).score;
                let up: usize = grid.get(i, j - 1).score;
                if up >= left {
                    Cell { score: up, arrow: Arrow::Up }
                } else {
                    Cell { score: left, arrow: Arrow::Left }
                }
            };
            let ghost before = grid@;
            proof {
                grid.lemma_view_shape();
            }
            grid.set(i, j, cell);
            proof {
                lemma_set_keeps(before, grid@, first@, second@, i as int, j as int, cell);
            }
            j += 1;
        }
        i += 1;
    }
    grid
}

} // verus!
