//! A comparison of two texts, ready to be shown.

use crate::lcs::{check_sizes, create_lcs, table_fits};
use crate::replay::{
    apply_action, lemma_snapshot_step, progression, replayable, snapshot, theorem_progression_ends_in_second,
    theorem_replay_gives_second,
};
use crate::script::{edit_script, trace_back, Action};
use crate::text::{text_of, units_of};
use crate::unified::{
    annotatable, annotation, lemma_annotation_step, mark_action, plain, theorem_unified_covers_both,
    theorem_unified_is_alignment, unified, without, Tag, Tagged,
};
use vstd::prelude::*;

verus! {

/// Two texts and the edit script that turns the first into the second.
#[derive(Debug)]
pub struct Diff {
    first: String,
    second: String,
    actions: Vec<Action>,
}

/// What a `Diff` stands for: its two texts and its list of actions.
pub struct DiffView {
    pub first: Seq<char>,
    pub second: Seq<char>,
    pub actions: Seq<Action>,
}

/// What `Diff::new` answers for texts that are too long.
pub open spec fn too_long_message() -> Seq<char> {
    "the texts are too long to compare"@
}

impl View for Diff {
    type V = DiffView;

    closed spec fn view(&self) -> DiffView {
        DiffView { first: self.first@, second: self.second@, actions: self.actions@ }
    }
}

impl Diff {
    /// What holds of every `Diff`: its texts fit a table, and its actions are the edit script
    /// of its texts.
    #[verifier::type_invariant]
    pub closed spec fn well_formed(&self) -> bool {
        &&& table_fits(self.first@, self.second@)
        &&& self.actions@ == edit_script(self.first@, self.second@)
    }

    /// A well-formed `Diff` holds the edit script of its texts, and they fit a table.
    pub proof fn lemma_well_formed(&self)
        requires
            self.well_formed(),
        ensures
            table_fits(self@.first, self@.second),
            self@.actions == edit_script(self@.first, self@.second),
    {
    }

    /// Two well-formed diffs of the same two texts are the same.
    pub proof fn theorem_same_texts_same_diff(&self, other: &Diff)
        requires
            self.well_formed(),
            other.well_formed(),
            self@.first == other@.first,
            self@.second == other@.second,
        ensures
            self@ == other@,
    {
    }

    /// Compares the texts `first` and `second` unit by unit: builds their table and walks it
    /// back into the edit script. Texts too long for a table are refused with a message.
    pub fn new(first: String, second: String) -> (result: Result<Diff, String>)
        ensures
            result is Ok <==> table_fits(first@, second@),
            result matches Ok(diff) ==> diff.well_formed() && diff@ == (DiffView {
                first: first@,
                second: second@,
                actions: edit_script(first@, second@),
            }),
            result matches Err(message) ==> message@ == too_long_message(),
    {
        let first_units = units_of(first.as_str());
        let second_units = units_of(second.as_str());
        if !check_sizes(first_units.len(), second_units.len()) {
            return Err("the texts are too long to compare".to_owned());
        }
        let grid = create_lcs(&first_units, &second_units);
        let actions = trace_back(&grid, &first_units, &second_units);
        Ok(Diff { first, second, actions })
    }

    /// The two texts, as they were given.
    pub fn get_input(&self) -> (input: (&String, &String))
        ensures
            input.0@ == self@.first,
            input.1@ == self@.second,
    {
        (&self.first, &self.second)
    }

    /// The edit script, in the order in which its actions are to be applied.
    pub fn actions(&self) -> (actions: &Vec<Action>)
        ensures
            actions@ == self@.actions,
            actions@ == edit_script(self@.first, self@.second),
    {
        proof {
            use_type_invariant(self);
        }
        &self.actions
    }

    /// The first text, then the text after each action of the edit script: the last one is
    /// the second text.
    pub fn step_by_step(&self) -> (steps: Vec<String>)
        ensures
            steps@.len() == progression(self@.first, self@.second).len(),
            forall|k: int|
                0 <= k < steps@.len() ==> (#[trigger] steps@[k])@ == progression(self@.first, self@.second)[k],
            steps@.len() == edit_script(self@.first, self@.second).len() + 1,
            steps@[0]@ == self@.first,
            steps@[steps@.len() - 1]@ == self@.second,
    {
        proof {
            use_type_invariant(self);
            theorem_replay_gives_second(self.first@, self.second@);
            theorem_progression_ends_in_second(self.first@, self.second@);
        }
        let mut text = units_of(self.first.as_str());
        let mut steps: Vec<String> = Vec::new();
        steps.push(self.first.clone());
        let mut k: usize = 0;
        proof {
            assert(self.actions@.take(0) =~= Seq::<Action>::empty());
        }
        while k < self.actions.len()
            invariant
                k <= self.actions@.len(),
                replayable(self.first@, self.actions@),
                text@ == snapshot(self.first@, self.actions@, k as int),
                steps@.len() == k + 1,
                forall|at: int| 0 <= at <= k ==> (#[trigger] steps@[at])@ == snapshot(self.first@, self.actions@, at),
            decreases self.actions@.len() - k,
        {
            proof {
                lemma_snapshot_step(self.first@, self.actions@, k as int);
            }
            apply_action(&mut text, self.actions[k]);
            steps.push(text_of(&text));
            k += 1;
        }
        steps
    }

    /// The unified annotation: every unit of the first text, tagged unchanged or deleted, and
    /// between them every unit that the edit script inserts, tagged inserted.
    pub fn unified(&self) -> (units: Vec<Tagged>)
        ensures
            units@ == unified(self@.first, self@.second),
            without(units@, Tag::Inserted) == self@.first,
            without(units@, Tag::Deleted) == self@.second,
    {
        proof {
            use_type_invariant(self);
            theorem_unified_is_alignment(self.first@, self.second@);
            theorem_unified_covers_both(self.first@, self.second@);
        }
        let text = units_of(self.first.as_str());
        let mut units: Vec<Tagged> = Vec::new();
        let mut k: usize = 0;
        while k < text.len()
            invariant
                k <= text@.len(),
                text@ == self.first@,
                units@ == plain(text@).take(k as int),
            decreases text@.len() - k,
        {
            units.push(Tagged { unit: text[k], tag: Tag::Unchanged });
            k += 1;
            assert(plain(text@)[k - 1].unit == text@[k - 1]);
            assert(units@ =~= plain(text@).take(k as int));
        }
        proof {
            assert(plain(text@).take(k as int) =~= plain(text@));
            assert(self.actions@.take(0) =~= Seq::<Action>::empty());
        }
        k = 0;
        while k < self.actions.len()
            invariant
                k <= self.actions@.len(),
                annotatable(plain(self.first@), self.actions@),
                units@ == annotation(plain(self.first@), self.actions@, k as int),
            decreases self.actions@.len() - k,
        {
            proof {
                lemma_annotation_step(plain(self.first@), self.actions@, k as int);
            }
            mark_action(&mut units, self.actions[k]);
            k += 1;
        }
        proof {
            assert(self.actions@.take(k as int) =~= self.actions@);
        }
        units
    }
}

} // verus!
