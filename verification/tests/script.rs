use lcsdiff::lcs::create_lcs;
use lcsdiff::replay::apply_action;
use lcsdiff::script::{trace_back, Action};
use lcsdiff::text::{text_of, units_of};

fn script_of(first: &str, second: &str) -> Vec<Action> {
    let first = units_of(first);
    let second = units_of(second);
    let grid = create_lcs(&first, &second);
    trace_back(&grid, &first, &second)
}

#[test]
fn tie_between_insert_and_delete_goes_to_insert() {
    assert_eq!(script_of("ab", "ba"), vec![Action::Insert(2, 'a'), Action::Delete(1)]);
    assert_eq!(script_of("a", "b"), vec![Action::Insert(1, 'b'), Action::Delete(1)]);
}

#[test]
fn script_of_kitten_and_sitting() {
    assert_eq!(
        script_of("kitten", "sitting"),
        vec![
            Action::Insert(6, 'g'),
            Action::Insert(5, 'i'),
            Action::Delete(5),
            Action::Insert(1, 's'),
            Action::Delete(1),
        ]
    );
}

#[test]
fn script_of_equal_texts_is_empty() {
    assert_eq!(script_of("abc", "abc"), vec![]);
    assert_eq!(script_of("", ""), vec![]);
}

#[test]
fn script_from_nothing_inserts_every_unit_at_the_front() {
    assert_eq!(
        script_of("", "abc"),
        vec![Action::Insert(0, 'c'), Action::Insert(0, 'b'), Action::Insert(0, 'a')]
    );
}

#[test]
fn script_to_nothing_deletes_every_unit_from_the_end() {
    assert_eq!(script_of("abc", ""), vec![Action::Delete(3), Action::Delete(2), Action::Delete(1)]);
}

#[test]
fn script_without_common_units_inserts_then_deletes() {
    assert_eq!(
        script_of("abcde", "xyz"),
        vec![
            Action::Insert(5, 'z'),
            Action::Insert(5, 'y'),
            Action::Insert(5, 'x'),
            Action::Delete(5),
            Action::Delete(4),
            Action::Delete(3),
            Action::Delete(2),
            Action::Delete(1),
        ]
    );
}

#[test]
fn script_length_is_both_lengths_less_twice_the_score() {
    let pairs = [("kitten", "sitting", 4usize), ("ABCBDAB", "BDCABA", 4), ("ab", "ba", 1), ("abc", "", 0)];
    for (first, second, score) in pairs {
        let expected = first.chars().count() + second.chars().count() - 2 * score;
        assert_eq!(script_of(first, second).len(), expected);
    }
}

#[test]
fn positions_never_grow_along_the_script() {
    for (first, second) in [("kitten", "sitting"), ("ABCBDAB", "BDCABA"), ("abcde", "xyz")] {
        let script = script_of(first, second);
        let mut last = u32::MAX;
        for action in script {
            let position = match action {
                Action::Insert(position, _) => position,
                Action::Delete(position) => position,
            };
            assert!(position <= last);
            last = position;
        }
    }
}

#[test]
fn actions_apply_in_stored_order_without_adjusting_positions() {
    for (first, second) in [
        ("kitten", "sitting"),
        ("ABCBDAB", "BDCABA"),
        ("abcde", "xyz"),
        ("ab", "ba"),
        ("", "abc"),
        ("abc", ""),
        ("the quick brown fox", "a quick brown dog jumps"),
    ] {
        let mut text = units_of(first);
        for action in script_of(first, second) {
            match action {
                Action::Insert(position, _) => assert!(position as usize <= text.len()),
                Action::Delete(position) => assert!(1 <= position && position as usize <= text.len()),
            }
            apply_action(&mut text, action);
        }
        assert_eq!(text_of(&text), second);
    }
}

#[test]
fn script_is_the_same_each_time() {
    assert_eq!(script_of("ABCBDAB", "BDCABA"), script_of("ABCBDAB", "BDCABA"));
}

fn longest_common(first: &[char], second: &[char]) -> usize {
    match (first.split_last(), second.split_last()) {
        (Some((a, first_rest)), Some((b, second_rest))) => {
            if a == b {
                longest_common(first_rest, second_rest) + 1
            } else {
                longest_common(first_rest, second).max(longest_common(first, second_rest))
            }
        }
        _ => 0,
    }
}

#[test]
fn script_leaves_a_longest_common_subsequence_alone() {
    for (first, second) in [
        ("kitten", "sitting"),
        ("ABCBDAB", "BDCABA"),
        ("abcde", "xyz"),
        ("ab", "ba"),
        ("banana", "ananas"),
        ("", "abc"),
        ("abc", ""),
    ] {
        let first_units = units_of(first);
        let second_units = units_of(second);
        let common = longest_common(&first_units, &second_units);
        let grid = create_lcs(&first_units, &second_units);
        assert_eq!(grid.get(first_units.len() as u32, second_units.len() as u32).score, common);
        assert_eq!(script_of(first, second).len(), first_units.len() + second_units.len() - 2 * common);
    }
}
