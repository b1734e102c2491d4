//! Replaying an edit script on a text, one snapshot after each action.

use crate::lcs::{arrow, Arrow};
use crate::script::{backtrace, edit_script, theorem_equal_inputs_need_no_action, unit_at, Action};
use vstd::prelude::*;

verus! {

/// Whether the position of `action` lies inside `text`, so that the action can be applied.
pub open spec fn applicable(text: Seq<char>, action: Action) -> bool {
    match action {
        Action::Insert(position, _) => position <= text.len(),
        Action::Delete(position) => 1 <= position <= text.len(),
    }
}

/// The text after one action.
pub open spec fn apply(text: Seq<char>, action: Action) -> Seq<char> {
    match action {
        Action::Insert(position, unit) => text.insert(position as int, unit),
        Action::Delete(position) => text.remove(position - 1),
    }
}

/// The text after every action of `script` was applied to it, the first action first.
pub open spec fn replay(text: Seq<char>, script: Seq<Action>) -> Seq<char>
    decreases script.len(),
{
    if script.len() == 0 {
        text
    } else {
        apply(replay(text, script.drop_last()), script.last())
    }
}

/// The text after the first `k` actions of `script`.
pub open spec fn snapshot(text: Seq<char>, script: Seq<Action>, k: int) -> Seq<char> {
    replay(text, script.take(k))
}

/// The text before any action and after each action of `script`, in order.
pub open spec fn snapshots(text: Seq<char>, script: Seq<Action>) -> Seq<Seq<char>> {
    Seq::new(script.len() + 1, |k: int| snapshot(text, script, k))
}

/// The progression from `first` to `second`: the snapshots of `first` under the edit script
/// of the two.
pub open spec fn progression(first: Seq<char>, second: Seq<char>) -> Seq<Seq<char>> {
    snapshots(first, edit_script(first, second))
}

/// Every action of `script` is applicable to the text that the actions before it left.
pub open spec fn replayable(text: Seq<char>, script: Seq<Action>) -> bool {
    forall|k: int| 0 <= k < script.len() ==> applicable(#[trigger] snapshot(text, script, k), script[k])
}

/// Applies one action to `text` in place.
pub fn apply_action(text: &mut Vec<char>, action: Action)
    requires
        applicable(old(text)@, action),
    ensures
        final(text)@ == apply(old(text)@, action),
{
    match action {
        Action::Insert(position, unit) => {
            text.insert(position as usize, unit);
        },
        Action::Delete(position) => {
            text.remove((position - 1) as usize);
        },
    }
}

/// Each snapshot follows from the one before it by one action.
pub proof fn lemma_snapshot_step(text: Seq<char>, script: Seq<Action>, k: int)
    requires
        0 <= k < script.len(),
    ensures
        snapshot(text, script, k + 1) == apply(snapshot(text, script, k), script[k]),
        snapshot(text, script, 0) == text,
{
    assert(script.take(k + 1).drop_last() =~= script.take(k));
    assert(script.take(0) =~= Seq::<Action>::empty());
}

/// Replaying a script is replaying its first action and then the rest.
pub proof fn lemma_replay_head(text: Seq<char>, action: Action, rest: Seq<Action>)
    ensures
        replay(text, seq![action] + rest) == replay(apply(text, action), rest),
    decreases rest.len(),
{
    let whole = seq![action] + rest;
    if rest.len() == 0 {
        assert(whole.drop_last() =~= Seq::<Action>::empty());
        assert(replay(text, whole.drop_last()) == text);
    } else {
        assert(whole.drop_last() =~= seq![action] + rest.drop_last());
        lemma_replay_head(text, action, rest.drop_last());
    }
}

/// A script is replayable when its first action is applicable and the rest is replayable
/// on what the first action left.
pub proof fn lemma_replayable_head(text: Seq<char>, action: Action, rest: Seq<Action>)
    requires
        applicable(text, action),
        replayable(apply(text, action), rest),
    ensures
        replayable(text, seq![action] + rest),
{
    let whole = seq![action] + rest;
    assert forall|k: int| 0 <= k < whole.len() implies applicable(#[trigger] snapshot(text, whole, k), whole[k]) by {
        if k == 0 {
            assert(whole.take(0) =~= Seq::<Action>::empty());
        } else {
            assert(whole.take(k) =~= seq![action] + rest.take(k - 1));
            lemma_replay_head(text, action, rest.take(k - 1));
            assert(applicable(snapshot(apply(text, action), rest, k - 1), rest[k - 1]));
        }
    }
}

/// The walk back from the cell `(i, j)` rewrites the first `i` units of `first` into the
/// first `j` units of `second` and leaves whatever follows them untouched.
pub proof fn lemma_backtrace_rewrites_prefix(
    first: Seq<char>,
    second: Seq<char>,
    i: int,
    j: int,
    tail: Seq<char>,
)
    requires
        0 <= i <= first.len() <= u32::MAX,
        0 <= j <= second.len(),
    ensures
        replayable(first.take(i) + tail, backtrace(first, second, i, j)),
        replay(first.take(i) + tail, backtrace(first, second, i, j)) == second.take(j) + tail,
    decreases i + j,
{
    let text = first.take(i) + tail;
    if i == 0 && j == 0 {
        assert(text =~= second.take(j) + tail);
    } else {
        match arrow(first, second, i, j) {
            Arrow::Diagonal => {
                let kept = seq![unit_at(first, i - 1)] + tail;
                lemma_backtrace_rewrites_prefix(first, second, i - 1, j - 1, kept);
                assert(text =~= first.take(i - 1) + kept);
                assert(second.take(j) + tail =~= second.take(j - 1) + kept);
            },
            Arrow::Up => {
                let action = Action::Insert(i as u32, unit_at(second, j - 1));
                let rest = backtrace(first, second, i, j - 1);
                let grown = seq![unit_at(second, j - 1)] + tail;
                lemma_backtrace_rewrites_prefix(first, second, i, j - 1, grown);
                assert(apply(text, action) =~= first.take(i) + grown);
                assert(second.take(j) + tail =~= second.take(j - 1) + grown);
                lemma_replay_head(text, action, rest);
                lemma_replayable_head(text, action, rest);
            },
            Arrow::Left => {
                let action = Action::Delete(i as u32);
                let rest = backtrace(first, second, i - 1, j);
                lemma_backtrace_rewrites_prefix(first, second, i - 1, j, tail);
                assert(apply(text, action) =~= first.take(i - 1) + tail);
                lemma_replay_head(text, action, rest);
                lemma_replayable_head(text, action, rest);
            },
            Arrow::Origin => {},
        }
    }
}

/// Every action of the edit script of `first` and `second` is applicable in its
/// turn, and replaying the whole script on `first` gives `second`.
pub proof fn theorem_replay_gives_second(first: Seq<char>, second: Seq<char>)
    requires
        first.len() <= u32::MAX,
    ensures
        replayable(first, edit_script(first, second)),
        replay(first, edit_script(first, second)) == second,
{
    let empty = Seq::<char>::empty();
    lemma_backtrace_rewrites_prefix(first, second, first.len() as int, second.len() as int, empty);
    assert(first.take(first.len() as int) + empty =~= first);
    assert(second.take(second.len() as int) + empty =~= second);
}

/// The progression starts with `first`, has one snapshot more than
/// the edit script has actions, and ends with `second`.
pub proof fn theorem_progression_ends_in_second(first: Seq<char>, second: Seq<char>)
    requires
        first.len() <= u32::MAX,
    ensures
        progression(first, second).len() == edit_script(first, second).len() + 1,
        progression(first, second).first() == first,
        progression(first, second).last() == second,
{
    let script = edit_script(first, second);
    theorem_replay_gives_second(first, second);
    assert(script.take(0) =~= Seq::<Action>::empty());
    assert(script.take(script.len() as int) =~= script);
}

/// The progression from a sequence to itself is that sequence alone.
pub proof fn theorem_equal_inputs_make_one_snapshot(text: Seq<char>)
    ensures
        progression(text, text) == seq![text],
{
    theorem_equal_inputs_need_no_action(text);
    let script = edit_script(text, text);
    assert(script.take(0) =~= script);
    assert(progression(text, text) =~= seq![text]);
}

} // verus!
