//! The edit script: the actions that the walk back through the table emits.

use crate::grid::Grid;
use crate::lcs::{arrow, cell_of, is_lcs_table, lcs_len, score, Arrow, Cell};
use vstd::prelude::*;

verus! {

/// One edit of the first sequence. Positions count units of the first sequence.
#[derive(Clone, Copy, Debug, PartialEq, Eq, Structural)]
pub enum Action {
    /// Insert the unit so that it stands at index `position`, counted from 0.
    Insert(u32, char),
    /// Remove the unit at `position`, counted from 1.
    Delete(u32),
}

/// The position that `action` refers to.
pub open spec fn position_of(action: Action) -> int {
    match action {
        Action::Insert(position, _) => position as int,
        Action::Delete(position) => position as int,
    }
}

/// The unit of `text` at index `k`.
pub open spec fn unit_at(text: Seq<char>, k: int) -> char {
    text[k]
}

/// The actions that the walk from the cell `(i, j)` back to the origin emits, in the order
/// in which it emits them.
pub open spec fn backtrace(first: Seq<char>, second: Seq<char>, i: int, j: int) -> Seq<Action>
    decreases i + j,
{
    if i < 0 || j < 0 || (i == 0 && j == 0) {
        Seq::empty()
    } else {
        match arrow(first, second, i, j) {
            Arrow::Diagonal => backtrace(first, second, i - 1, j - 1),
            Arrow::Up => seq![Action::Insert(i as u32, unit_at(second, j - 1))] + backtrace(
                first,
                second,
                i,
                j - 1,
            ),
            Arrow::Left => seq![Action::Delete(i as u32)] + backtrace(first, second, i - 1, j),
            Arrow::Origin => Seq::empty(),
        }
    }
}

/// The edit script that turns `first` into `second`: the walk from the last cell of the table.
pub open spec fn edit_script(first: Seq<char>, second: Seq<char>) -> Seq<Action> {
    backtrace(first, second, first.len() as int, second.len() as int)
}

/// The walk along the diagonal of the table of a sequence with itself emits nothing.
pub proof fn lemma_backtrace_of_equal_prefixes(text: Seq<char>, i: int)
    requires
        0 <= i <= text.len(),
    ensures
        backtrace(text, text, i, i) == Seq::<Action>::empty(),
    decreases i,
{
    if i > 0 {
        lemma_backtrace_of_equal_prefixes(text, i - 1);
    }
}

/// The edit script of a sequence and itself is empty.
pub proof fn theorem_equal_inputs_need_no_action(text: Seq<char>)
    ensures
        edit_script(text, text) == Seq::<Action>::empty(),
{
    lemma_backtrace_of_equal_prefixes(text, text.len() as int);
}

/// The walk along the first column of the table inserts the first `j` units of `second`, the
/// last of them first, each at the front.
pub proof fn lemma_backtrace_of_first_column(first: Seq<char>, second: Seq<char>, j: int)
    requires
        0 <= j <= second.len(),
    ensures
        backtrace(first, second, 0, j).len() == j,
        forall|k: int|
            0 <= k < j ==> #[trigger] backtrace(first, second, 0, j)[k] == Action::Insert(
                0,
                unit_at(second, j - 1 - k),
            ),
    decreases j,
{
    if j > 0 {
        lemma_backtrace_of_first_column(first, second, j - 1);
    }
}

/// Where `first` is empty, the edit script has one action for each unit of `second`, and each
/// is an insertion at the front; the units come last to first.
pub proof fn theorem_empty_first_inserts_all(first: Seq<char>, second: Seq<char>)
    requires
        first.len() == 0,
    ensures
        edit_script(first, second).len() == second.len(),
        forall|k: int|
            0 <= k < second.len() ==> #[trigger] edit_script(first, second)[k] == Action::Insert(
                0,
                unit_at(second, second.len() - 1 - k),
            ),
{
    lemma_backtrace_of_first_column(first, second, second.len() as int);
}

/// The walk along the first row of the table deletes the first `i` units of `first`, the
/// last of them first.
pub proof fn lemma_backtrace_of_first_row(first: Seq<char>, second: Seq<char>, i: int)
    requires
        0 <= i <= first.len(),
    ensures
        backtrace(first, second, i, 0).len() == i,
        forall|k: int|
            0 <= k < i ==> #[trigger] backtrace(first, second, i, 0)[k] == Action::Delete((i - k) as u32),
    decreases i,
{
    if i > 0 {
        lemma_backtrace_of_first_row(first, second, i - 1);
    }
}

/// Where `second` is empty, the edit script has one action for each unit of `first`, and each
/// is a deletion; the positions come last to first.
pub proof fn theorem_empty_second_deletes_all(first: Seq<char>, second: Seq<char>)
    requires
        second.len() == 0,
    ensures
        edit_script(first, second).len() == first.len(),
        forall|k: int|
            0 <= k < first.len() ==> #[trigger] edit_script(first, second)[k] == Action::Delete(
                (first.len() - k) as u32,
            ),
{
    lemma_backtrace_of_first_row(first, second, first.len() as int);
}

/// Where the two units differ and neither neighbour has the better score, the
/// walk back from the cell emits an insertion first.
pub proof fn theorem_tie_inserts_first(first: Seq<char>, second: Seq<char>, i: int, j: int)
    requires
        0 < i,
        0 < j,
        first[i - 1] != second[j - 1],
        score(first, second, i, j - 1) == score(first, second, i - 1, j),
    ensures
        backtrace(first, second, i, j).len() > 0,
        backtrace(first, second, i, j)[0] == Action::Insert(i as u32, unit_at(second, j - 1)),
{
}

/// No action that the walk back from the cell `(i, j)` emits refers to a position beyond
/// `i`, and no action refers to a higher position than an action before it.
pub proof fn lemma_backtrace_positions(first: Seq<char>, second: Seq<char>, i: int, j: int)
    requires
        0 <= i <= u32::MAX,
        0 <= j,
    ensures
        forall|k: int|
            0 <= k < backtrace(first, second, i, j).len() ==> position_of(
                #[trigger] backtrace(first, second, i, j)[k],
            ) <= i,
        forall|k: int, l: int|
            0 <= k <= l < backtrace(first, second, i, j).len() ==> position_of(
                #[trigger] backtrace(first, second, i, j)[l],
            ) <= position_of(#[trigger] backtrace(first, second, i, j)[k]),
    decreases i + j,
{
    let here = backtrace(first, second, i, j);
    if i == 0 && j == 0 {
    } else {
        match arrow(first, second, i, j) {
            Arrow::Diagonal => {
                lemma_backtrace_positions(first, second, i - 1, j - 1);
                assert(here == backtrace(first, second, i - 1, j - 1));
            },
            Arrow::Up => {
                lemma_backtrace_positions(first, second, i, j - 1);
                lemma_positions_after_head(here, backtrace(first, second, i, j - 1), i);
            },
            Arrow::Left => {
                lemma_backtrace_positions(first, second, i - 1, j);
                lemma_positions_after_head(here, backtrace(first, second, i - 1, j), i);
            },
            Arrow::Origin => {},
        }
    }
}

/// A script whose first action refers to `limit` and whose other actions are in order and
/// refer to no position beyond `limit` is in order as a whole.
proof fn lemma_positions_after_head(script: Seq<Action>, rest: Seq<Action>, limit: int)
    requires
        script.len() > 0,
        script == seq![script[0]] + rest,
        position_of(script[0]) == limit,
        forall|k: int| 0 <= k < rest.len() ==> position_of(#[trigger] rest[k]) <= limit,
        forall|k: int, l: int|
            0 <= k <= l < rest.len() ==> position_of(#[trigger] rest[l]) <= position_of(#[trigger] rest[k]),
    ensures
        forall|k: int| 0 <= k < script.len() ==> position_of(#[trigger] script[k]) <= limit,
        forall|k: int, l: int|
            0 <= k <= l < script.len() ==> position_of(#[trigger] script[l]) <= position_of(#[trigger] script[k]),
{
    assert forall|k: int| 0 <= k < script.len() implies position_of(#[trigger] script[k]) <= limit by {
        if k > 0 {
            assert(script[k] == rest[k - 1]);
        }
    }
    assert forall|k: int, l: int| 0 <= k <= l < script.len() implies position_of(#[trigger] script[l])
        <= position_of(#[trigger] script[k]) by {
        if k > 0 {
            assert(script[k] == rest[k - 1]);
            assert(script[l] == rest[l - 1]);
        } else if l > 0 {
            assert(script[l] == rest[l - 1]);
        }
    }
}

/// An action of the edit script never refers to a higher position than an action before
/// it, and none refers to a position beyond the end of `first`.
pub proof fn theorem_positions_never_grow(first: Seq<char>, second: Seq<char>)
    requires
        first.len() <= u32::MAX,
    ensures
        forall|k: int|
            0 <= k < edit_script(first, second).len() ==> position_of(#[trigger] edit_script(first, second)[k])
                <= first.len(),
        forall|k: int, l: int|
            0 <= k <= l < edit_script(first, second).len() ==> position_of(
                #[trigger] edit_script(first, second)[l],
            ) <= position_of(#[trigger] edit_script(first, second)[k]),
{
    lemma_backtrace_positions(first, second, first.len() as int, second.len() as int);
}

/// The walk back from the cell `(i, j)` emits one action for each unit of the two prefixes
/// that is not matched: `i + j` less twice the score of the cell.
pub proof fn lemma_backtrace_len(first: Seq<char>, second: Seq<char>, i: int, j: int)
    requires
        0 <= i,
        0 <= j,
    ensures
        backtrace(first, second, i, j).len() == i + j - 2 * score(first, second, i, j),
    decreases i + j,
{
    if i == 0 && j == 0 {
    } else {
        match arrow(first, second, i, j) {
            Arrow::Diagonal => lemma_backtrace_len(first, second, i - 1, j - 1),
            Arrow::Up => lemma_backtrace_len(first, second, i, j - 1),
            Arrow::Left => lemma_backtrace_len(first, second, i - 1, j),
            Arrow::Origin => {},
        }
    }
}

/// The edit script has as many actions as the two sequences have units together, less twice
/// the length of their longest common subsequence.
pub proof fn theorem_script_len(first: Seq<char>, second: Seq<char>)
    ensures
        edit_script(first, second).len() == first.len() + second.len() - 2 * lcs_len(first, second),
{
    lemma_backtrace_len(first, second, first.len() as int, second.len() as int);
}

/// Walks the table from its last cell to the origin and collects the actions on the way.
pub fn trace_back(grid: &Grid<Cell>, first: &Vec<char>, second: &Vec<char>) -> (actions: Vec<Action>)
    requires
        first@.len() < u32::MAX,
        second@.len() < u32::MAX,
        is_lcs_table(grid, first@, second@),
    ensures
        actions@ == edit_script(first@, second@),
{
    let mut actions: Vec<Action> = Vec::new();
    let mut i: u32 = first.len() as u32;
    let mut j: u32 = second.len() as u32;
    while i != 0 || j != 0
        invariant
            i <= first@.len() < u32::MAX,
            j <= second@.len() < u32::MAX,
            is_lcs_table(grid, first@, second@),
            actions@ + backtrace(first@, second@, i as int, j as int) == edit_script(first@, second@),
        ensures
            actions@ == edit_script(first@, second@),
        decreases i + j,
    {
        assert(cell_of(grid@, first@, second@, i as int, j as int));
        let ghost done = actions@;
        let ghost rest = backtrace(first@, second@, i as int, j as int);
        match grid.get(i, j).arrow {
            Arrow::Diagonal => {
                i -= 1;
                j -= 1;
            },
            Arrow::Up => {
                let unit: char = second[(j - 1) as usize];
                actions.push(Action::Insert(i, unit));
                j -= 1;
                assert(actions@ + backtrace(first@, second@, i as int, j as int) =~= done + rest);
            },
            Arrow::Left => {
                actions.push(Action::Delete(i));
                i -= 1;
                assert(actions@ + backtrace(first@, second@, i as int, j as int) =~= done + rest);
            },
            Arrow::Origin => {
                assert(actions@ =~= done + rest);
                break ;
            },
        }
    }
    assert(actions@ + Seq::<Action>::empty() =~= actions@);
    actions
}

} // verus!
