//! The unified annotation: the first text with the edit script marked in place.

use crate::lcs::{arrow, lcs_len, score, theorem_score_bounds_common, Arrow};
use crate::subsequence::is_subsequence;
use crate::script::{backtrace, edit_script, unit_at, Action};
use vstd::prelude::*;

verus! {

/// What became of a unit.
#[derive(Clone, Copy, Debug, PartialEq, Eq, Structural)]
pub enum Tag {
    /// The unit stands in both sequences.
    Unchanged,
    /// The unit stands in the second sequence only.
    Inserted,
    /// The unit stands in the first sequence only.
    Deleted,
}

/// A unit with its tag.
#[derive(Clone, Copy, Debug, PartialEq, Eq, Structural)]
pub struct Tagged {
    pub unit: char,
    pub tag: Tag,
}

/// Every unit of `text`, tagged unchanged.
pub open spec fn plain(text: Seq<char>) -> Seq<Tagged> {
    Seq::new(text.len(), |k: int| Tagged { unit: unit_at(text, k), tag: Tag::Unchanged })
}

/// Whether the position of `action` lies inside `units`, so that the action can be marked.
pub open spec fn markable(units: Seq<Tagged>, action: Action) -> bool {
    match action {
        Action::Insert(position, _) => position <= units.len(),
        Action::Delete(position) => 1 <= position <= units.len(),
    }
}

/// The annotation after one action: an inserted unit is added with its tag, a deleted unit
/// stays where it is and is tagged deleted.
pub open spec fn mark(units: Seq<Tagged>, action: Action) -> Seq<Tagged> {
    match action {
        Action::Insert(position, unit) => units.insert(position as int, Tagged { unit, tag: Tag::Inserted }),
        Action::Delete(position) => units.update(
            position - 1,
            Tagged { unit: units[position - 1].unit, tag: Tag::Deleted },
        ),
    }
}

/// The annotation after every action of `script` was marked in it, the first action first.
pub open spec fn annotate(units: Seq<Tagged>, script: Seq<Action>) -> Seq<Tagged>
    decreases script.len(),
{
    if script.len() == 0 {
        units
    } else {
        mark(annotate(units, script.drop_last()), script.last())
    }
}

/// The annotation after the first `k` actions of `script`.
pub open spec fn annotation(units: Seq<Tagged>, script: Seq<Action>, k: int) -> Seq<Tagged> {
    annotate(units, script.take(k))
}

/// Every action of `script` is markable in the annotation that the actions before it left.
pub open spec fn annotatable(units: Seq<Tagged>, script: Seq<Action>) -> bool {
    forall|k: int| 0 <= k < script.len() ==> markable(#[trigger] annotation(units, script, k), script[k])
}

/// The unified annotation of `first` and `second`: the units of `first`, with the edit script
/// of the two marked in them.
pub open spec fn unified(first: Seq<char>, second: Seq<char>) -> Seq<Tagged> {
    annotate(plain(first), edit_script(first, second))
}

/// The units of `units` that are not tagged `skipped`, in order and without their tags.
pub open spec fn without(units: Seq<Tagged>, skipped: Tag) -> Seq<char>
    decreases units.len(),
{
    if units.len() == 0 {
        Seq::empty()
    } else if units.last().tag == skipped {
        without(units.drop_last(), skipped)
    } else {
        without(units.drop_last(), skipped).push(units.last().unit)
    }
}

/// The units of `units` that are tagged unchanged, in order and without their tags.
pub open spec fn unchanged(units: Seq<Tagged>) -> Seq<char>
    decreases units.len(),
{
    if units.len() == 0 {
        Seq::empty()
    } else if units.last().tag == Tag::Unchanged {
        unchanged(units.drop_last()).push(units.last().unit)
    } else {
        unchanged(units.drop_last())
    }
}

/// The two prefixes that end at the cell `(i, j)`, laid over each other from the front: the
/// units that the walk back from the cell passes, in the order of the sequences, each with
/// the tag of the step that passes it.
pub open spec fn alignment(first: Seq<char>, second: Seq<char>, i: int, j: int) -> Seq<Tagged>
    decreases i + j,
{
    if i < 0 || j < 0 || (i == 0 && j == 0) {
        Seq::empty()
    } else {
        match arrow(first, second, i, j) {
            Arrow::Diagonal => alignment(first, second, i - 1, j - 1).push(
                Tagged { unit: unit_at(first, i - 1), tag: Tag::Unchanged },
            ),
            Arrow::Up => alignment(first, second, i, j - 1).push(
                Tagged { unit: unit_at(second, j - 1), tag: Tag::Inserted },
            ),
            Arrow::Left => alignment(first, second, i - 1, j).push(
                Tagged { unit: unit_at(first, i - 1), tag: Tag::Deleted },
            ),
            Arrow::Origin => Seq::empty(),
        }
    }
}

/// Marks one action in `units` in place.
pub fn mark_action(units: &mut Vec<Tagged>, action: Action)
    requires
        markable(old(units)@, action),
    ensures
        final(units)@ == mark(old(units)@, action),
{
    match action {
        Action::Insert(position, unit) => {
            units.insert(position as usize, Tagged { unit, tag: Tag::Inserted });
        },
        Action::Delete(position) => {
            let at: usize = (position - 1) as usize;
            let unit: char = units[at].unit;
            units[at] = Tagged { unit, tag: Tag::Deleted };
        },
    }
}

/// Each annotation follows from the one before it by one action.
pub proof fn lemma_annotation_step(units: Seq<Tagged>, script: Seq<Action>, k: int)
    requires
        0 <= k < script.len(),
    ensures
        annotation(units, script, k + 1) == mark(annotation(units, script, k), script[k]),
        annotation(units, script, 0) == units,
{
    assert(script.take(k + 1).drop_last() =~= script.take(k));
    assert(script.take(0) =~= Seq::<Action>::empty());
}

/// Annotating with a script is marking its first action and then annotating with the rest.
pub proof fn lemma_annotate_head(units: Seq<Tagged>, action: Action, rest: Seq<Action>)
    ensures
        annotate(units, seq![action] + rest) == annotate(mark(units, action), rest),
    decreases rest.len(),
{
    let whole = seq![action] + rest;
    if rest.len() == 0 {
        assert(whole.drop_last() =~= Seq::<Action>::empty());
        assert(annotate(units, whole.drop_last()) == units);
    } else {
        assert(whole.drop_last() =~= seq![action] + rest.drop_last());
        lemma_annotate_head(units, action, rest.drop_last());
    }
}

/// A script is annotatable when its first action is markable and the rest is annotatable
/// in what the first action left.
pub proof fn lemma_annotatable_head(units: Seq<Tagged>, action: Action, rest: Seq<Action>)
    requires
        markable(units, action),
        annotatable(mark(units, action), rest),
    ensures
        annotatable(units, seq![action] + rest),
{
    let whole = seq![action] + rest;
    assert forall|k: int| 0 <= k < whole.len() implies markable(
        #[trigger] annotation(units, whole, k),
        whole[k],
    ) by {
        if k == 0 {
            assert(whole.take(0) =~= Seq::<Action>::empty());
        } else {
            assert(whole.take(k) =~= seq![action] + rest.take(k - 1));
            lemma_annotate_head(units, action, rest.take(k - 1));
            assert(markable(annotation(mark(units, action), rest, k - 1), rest[k - 1]));
        }
    }
}

/// Marking the walk back from the cell `(i, j)` in the first `i` units of `first` gives the
/// alignment of the cell and leaves whatever follows those units untouched.
pub proof fn lemma_backtrace_marks_alignment(
    first: Seq<char>,
    second: Seq<char>,
    i: int,
    j: int,
    tail: Seq<Tagged>,
)
    requires
        0 <= i <= first.len() <= u32::MAX,
        0 <= j <= second.len(),
    ensures
        annotatable(plain(first.take(i)) + tail, backtrace(first, second, i, j)),
        annotate(plain(first.take(i)) + tail, backtrace(first, second, i, j)) == alignment(first, second, i, j)
            + tail,
    decreases i + j,
{
    let units = plain(first.take(i)) + tail;
    if i == 0 && j == 0 {
        assert(units =~= alignment(first, second, i, j) + tail);
    } else {
        match arrow(first, second, i, j) {
            Arrow::Diagonal => {
                let unit = Tagged { unit: unit_at(first, i - 1), tag: Tag::Unchanged };
                lemma_backtrace_marks_alignment(first, second, i - 1, j - 1, seq![unit] + tail);
                assert(units =~= plain(first.take(i - 1)) + (seq![unit] + tail));
                assert(alignment(first, second, i, j) + tail =~= alignment(first, second, i - 1, j - 1) + (
                seq![unit] + tail));
            },
            Arrow::Up => {
                let action = Action::Insert(i as u32, unit_at(second, j - 1));
                let rest = backtrace(first, second, i, j - 1);
                let unit = Tagged { unit: unit_at(second, j - 1), tag: Tag::Inserted };
                lemma_backtrace_marks_alignment(first, second, i, j - 1, seq![unit] + tail);
                assert(mark(units, action) =~= plain(first.take(i)) + (seq![unit] + tail));
                assert(alignment(first, second, i, j) + tail =~= alignment(first, second, i, j - 1) + (seq![
                    unit,
                ] + tail));
                lemma_annotate_head(units, action, rest);
                lemma_annotatable_head(units, action, rest);
            },
            Arrow::Left => {
                let action = Action::Delete(i as u32);
                let rest = backtrace(first, second, i - 1, j);
                let unit = Tagged { unit: unit_at(first, i - 1), tag: Tag::Deleted };
                lemma_backtrace_marks_alignment(first, second, i - 1, j, seq![unit] + tail);
                assert(mark(units, action) =~= plain(first.take(i - 1)) + (seq![unit] + tail));
                assert(alignment(first, second, i, j) + tail =~= alignment(first, second, i - 1, j) + (seq![
                    unit,
                ] + tail));
                lemma_annotate_head(units, action, rest);
                lemma_annotatable_head(units, action, rest);
            },
            Arrow::Origin => {},
        }
    }
}

/// In the alignment of the cell `(i, j)` the units that were not inserted are the first `i`
/// units of `first`, and the units that were not deleted are the first `j` units of `second`.
pub proof fn lemma_alignment_covers_prefixes(first: Seq<char>, second: Seq<char>, i: int, j: int)
    requires
        0 <= i <= first.len(),
        0 <= j <= second.len(),
    ensures
        without(alignment(first, second, i, j), Tag::Inserted) == first.take(i),
        without(alignment(first, second, i, j), Tag::Deleted) == second.take(j),
    decreases i + j,
{
    let here = alignment(first, second, i, j);
    if i == 0 && j == 0 {
        assert(first.take(0) =~= Seq::<char>::empty());
        assert(second.take(0) =~= Seq::<char>::empty());
    } else {
        match arrow(first, second, i, j) {
            Arrow::Diagonal => {
                lemma_alignment_covers_prefixes(first, second, i - 1, j - 1);
                assert(here.drop_last() =~= alignment(first, second, i - 1, j - 1));
                assert(first.take(i) =~= first.take(i - 1).push(first[i - 1]));
                assert(second.take(j) =~= second.take(j - 1).push(second[j - 1]));
            },
            Arrow::Up => {
                lemma_alignment_covers_prefixes(first, second, i, j - 1);
                assert(here.drop_last() =~= alignment(first, second, i, j - 1));
                assert(second.take(j) =~= second.take(j - 1).push(second[j - 1]));
            },
            Arrow::Left => {
                lemma_alignment_covers_prefixes(first, second, i - 1, j);
                assert(here.drop_last() =~= alignment(first, second, i - 1, j));
                assert(first.take(i) =~= first.take(i - 1).push(first[i - 1]));
            },
            Arrow::Origin => {},
        }
    }
}

/// In the alignment of the cell `(i, j)` the unchanged units are a common subsequence of the
/// two prefixes, and there are as many of them as the score of the cell says.
pub proof fn lemma_alignment_keeps_common(first: Seq<char>, second: Seq<char>, i: int, j: int)
    requires
        0 <= i <= first.len(),
        0 <= j <= second.len(),
    ensures
        is_subsequence(unchanged(alignment(first, second, i, j)), first.take(i)),
        is_subsequence(unchanged(alignment(first, second, i, j)), second.take(j)),
        unchanged(alignment(first, second, i, j)).len() == score(first, second, i, j),
    decreases i + j,
{
    let here = alignment(first, second, i, j);
    if i == 0 && j == 0 {
    } else {
        match arrow(first, second, i, j) {
            Arrow::Diagonal => {
                lemma_alignment_keeps_common(first, second, i - 1, j - 1);
                assert(first.take(i).drop_last() =~= first.take(i - 1));
                assert(second.take(j).drop_last() =~= second.take(j - 1));
                assert(here.drop_last() =~= alignment(first, second, i - 1, j - 1));
                assert(unchanged(here).drop_last() =~= unchanged(here.drop_last()));
            },
            Arrow::Up => {
                lemma_alignment_keeps_common(first, second, i, j - 1);
                assert(second.take(j).drop_last() =~= second.take(j - 1));
                assert(here.drop_last() =~= alignment(first, second, i, j - 1));
            },
            Arrow::Left => {
                lemma_alignment_keeps_common(first, second, i - 1, j);
                assert(first.take(i).drop_last() =~= first.take(i - 1));
                assert(here.drop_last() =~= alignment(first, second, i - 1, j));
            },
            Arrow::Origin => {},
        }
    }
}

/// The unified annotation is the alignment of the last cell of the table, and every action
/// of the edit script is markable in its turn.
pub proof fn theorem_unified_is_alignment(first: Seq<char>, second: Seq<char>)
    requires
        first.len() <= u32::MAX,
    ensures
        annotatable(plain(first), edit_script(first, second)),
        unified(first, second) == alignment(first, second, first.len() as int, second.len() as int),
{
    let empty = Seq::<Tagged>::empty();
    let m = first.len() as int;
    let n = second.len() as int;
    lemma_backtrace_marks_alignment(first, second, m, n, empty);
    assert(first.take(m) =~= first);
    assert(plain(first) + empty =~= plain(first));
    assert(alignment(first, second, m, n) + empty =~= alignment(first, second, m, n));
}

/// In the unified annotation the units that are not tagged inserted are exactly
/// the units of `first`, in order, and the units that are not tagged deleted are exactly the
/// units of `second`, in order.
pub proof fn theorem_unified_covers_both(first: Seq<char>, second: Seq<char>)
    requires
        first.len() <= u32::MAX,
    ensures
        without(unified(first, second), Tag::Inserted) == first,
        without(unified(first, second), Tag::Deleted) == second,
{
    let m = first.len() as int;
    let n = second.len() as int;
    theorem_unified_is_alignment(first, second);
    lemma_alignment_covers_prefixes(first, second, m, n);
    assert(first.take(m) =~= first);
    assert(second.take(n) =~= second);
}

/// The unchanged units of the unified annotation are a longest common subsequence of the
/// two sequences: they are a subsequence of each, there are as many of them as the score of
/// the last cell says, and no common subsequence is longer.
pub proof fn theorem_unchanged_units_are_longest_common(first: Seq<char>, second: Seq<char>)
    requires
        first.len() <= u32::MAX,
    ensures
        is_subsequence(unchanged(unified(first, second)), first),
        is_subsequence(unchanged(unified(first, second)), second),
        unchanged(unified(first, second)).len() == lcs_len(first, second),
        forall|sub: Seq<char>|
            is_subsequence(sub, first) && #[trigger] is_subsequence(sub, second) ==> sub.len() <= unchanged(
                unified(first, second),
            ).len(),
{
    let m = first.len() as int;
    let n = second.len() as int;
    theorem_unified_is_alignment(first, second);
    lemma_alignment_keeps_common(first, second, m, n);
    assert(first.take(m) =~= first);
    assert(second.take(n) =~= second);
    assert forall|sub: Seq<char>| is_subsequence(sub, first) && #[trigger] is_subsequence(sub, second) implies sub.len()
        <= unchanged(unified(first, second)).len() by {
        theorem_score_bounds_common(first, second, sub);
    }
}

} // verus!
