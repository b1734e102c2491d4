//! The edit script is as short as a script of insertions and deletions can be.

use crate::lcs::{lcs_len, score, theorem_score_bounds_common};
use crate::replay::{applicable, replay, replayable, snapshot};
use crate::script::{edit_script, theorem_script_len, Action};
use crate::subsequence::{
    is_subsequence, lemma_remove_gives_subsequence, lemma_subsequence_after_remove, lemma_subsequence_of_subsequence,
};
use crate::unified::{alignment, lemma_alignment_keeps_common, unchanged};
use vstd::prelude::*;

verus! {

/// The result is a common subsequence of the two sequences that is as long as the score of
/// the last cell says.
pub proof fn lemma_longest_common(first: Seq<char>, second: Seq<char>) -> (common: Seq<char>)
    ensures
        is_subsequence(common, first),
        is_subsequence(common, second),
        common.len() == lcs_len(first, second),
{
    let m = first.len() as int;
    let n = second.len() as int;
    lemma_alignment_keeps_common(first, second, m, n);
    assert(first.take(m) =~= first);
    assert(second.take(n) =~= second);
    unchanged(alignment(first, second, m, n))
}

/// On the diagonal of the table of a sequence with itself every unit counts.
pub proof fn lemma_score_of_equal_prefixes(text: Seq<char>, i: int)
    requires
        0 <= i <= text.len(),
    ensures
        score(text, text, i, i) == i,
    decreases i,
{
    if i > 0 {
        lemma_score_of_equal_prefixes(text, i - 1);
    }
}

/// One more unit in the second sequence loses no common subsequence.
pub proof fn lemma_insert_keeps_common(first: Seq<char>, second: Seq<char>, position: int, unit: char)
    requires
        0 <= position <= second.len(),
    ensures
        lcs_len(first, second) <= lcs_len(first, second.insert(position, unit)),
{
    let common = lemma_longest_common(first, second);
    let more = second.insert(position, unit);
    assert(more.remove(position) =~= second);
    lemma_remove_gives_subsequence(more, position);
    lemma_subsequence_of_subsequence(common, second, more);
    theorem_score_bounds_common(first, more, common);
}

/// One unit less in the second sequence shortens the longest common subsequence by one
/// unit at most.
pub proof fn lemma_remove_loses_one_common(first: Seq<char>, second: Seq<char>, k: int)
    requires
        0 <= k < second.len(),
    ensures
        lcs_len(first, second) <= lcs_len(first, second.remove(k)) + 1,
{
    let common = lemma_longest_common(first, second);
    let q = lemma_subsequence_after_remove(common, second, k);
    if q == -1 {
        theorem_score_bounds_common(first, second.remove(k), common);
    } else {
        lemma_remove_gives_subsequence(common, q);
        lemma_subsequence_of_subsequence(common.remove(q), common, first);
        theorem_score_bounds_common(first, second.remove(k), common.remove(q));
    }
}

/// A script that can be replayed on `text` has at least one action for each unit of `text`
/// and of what it makes of `text` that is not in their longest common subsequence.
pub proof fn lemma_script_len_bounded(text: Seq<char>, script: Seq<Action>)
    requires
        replayable(text, script),
    ensures
        script.len() >= text.len() + replay(text, script).len() - 2 * lcs_len(text, replay(text, script)),
    decreases script.len(),
{
    if script.len() == 0 {
        lemma_score_of_equal_prefixes(text, text.len() as int);
    } else {
        let before = script.drop_last();
        let action = script.last();
        assert forall|k: int| 0 <= k < before.len() implies applicable(
            #[trigger] snapshot(text, before, k),
            before[k],
        ) by {
            assert(before.take(k) =~= script.take(k));
            assert(applicable(snapshot(text, script, k), script[k]));
        }
        lemma_script_len_bounded(text, before);
        let reached = replay(text, before);
        assert(script.take(script.len() - 1) =~= before);
        assert(applicable(snapshot(text, script, script.len() - 1), script[script.len() - 1]));
        match action {
            Action::Insert(position, unit) => {
                lemma_insert_keeps_common(text, reached, position as int, unit);
            },
            Action::Delete(position) => {
                lemma_remove_loses_one_common(text, reached, position - 1);
            },
        }
    }
}

/// No script of insertions and deletions that turns `first` into `second` has
/// fewer actions than the edit script of the two.
pub proof fn theorem_no_script_is_shorter(first: Seq<char>, second: Seq<char>, other: Seq<Action>)
    requires
        replayable(first, other),
        replay(first, other) == second,
    ensures
        edit_script(first, second).len() <= other.len(),
{
    lemma_script_len_bounded(first, other);
    theorem_script_len(first, second);
}

} // verus!
