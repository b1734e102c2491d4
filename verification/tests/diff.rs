use lcsdiff::script::Action;
use lcsdiff::Diff;

fn diff_of(first: &str, second: &str) -> Diff {
    Diff::new(first.to_string(), second.to_string()).unwrap()
}

#[test]
fn get_input_gives_both_texts_back() {
    let diff = diff_of("kitten", "sitting");
    let (first, second) = diff.get_input();
    assert_eq!(first, "kitten");
    assert_eq!(second, "sitting");
}

#[test]
fn kitten_to_sitting_takes_five_actions() {
    let diff = diff_of("kitten", "sitting");
    assert_eq!(diff.actions().len(), 5);
    let steps = diff.step_by_step();
    assert_eq!(steps, vec!["kitten", "kitteng", "kitteing", "kitting", "ksitting", "sitting"]);
    assert_eq!(steps.last().unwrap(), "sitting");
}

#[test]
fn ab_to_ba_inserts_before_it_deletes() {
    let diff = diff_of("ab", "ba");
    assert_eq!(diff.actions(), &vec![Action::Insert(2, 'a'), Action::Delete(1)]);
    assert_eq!(diff.step_by_step(), vec!["ab", "aba", "ba"]);
}

#[test]
fn equal_texts_give_no_action_and_one_snapshot() {
    for text in ["", "a", "kitten", "\u{65e5}\u{672c}\u{8a9e}"] {
        let diff = diff_of(text, text);
        assert!(diff.actions().is_empty());
        assert_eq!(diff.step_by_step(), vec![text]);
    }
}

#[test]
fn empty_first_text_gives_one_insert_for_each_unit() {
    let diff = diff_of("", "sitting");
    assert_eq!(diff.actions().len(), 7);
    assert!(diff.actions().iter().all(|action| matches!(action, Action::Insert(0, _))));
    assert_eq!(
        diff.step_by_step(),
        vec!["", "g", "ng", "ing", "ting", "tting", "itting", "sitting"]
    );
}

#[test]
fn empty_second_text_gives_one_delete_for_each_unit() {
    let diff = diff_of("kitten", "");
    assert_eq!(diff.actions().len(), 6);
    assert!(diff.actions().iter().all(|action| matches!(action, Action::Delete(_))));
    assert_eq!(diff.step_by_step(), vec!["kitten", "kitte", "kitt", "kit", "ki", "k", ""]);
}

#[test]
fn progression_starts_with_the_first_and_ends_with_the_second() {
    for (first, second) in [
        ("kitten", "sitting"),
        ("ABCBDAB", "BDCABA"),
        ("abcde", "xyz"),
        ("ab", "ba"),
        ("", "abc"),
        ("abc", ""),
        ("", ""),
        ("h\u{e9}llo", "hello"),
        ("\u{65e5}\u{672c}\u{8a9e}", "\u{65e5}\u{672c}"),
        ("the quick brown fox", "a quick brown dog jumps"),
    ] {
        let diff = diff_of(first, second);
        let steps = diff.step_by_step();
        assert_eq!(steps.len(), diff.actions().len() + 1);
        assert_eq!(steps.first().unwrap(), first);
        assert_eq!(steps.last().unwrap(), second);
    }
}

#[test]
fn each_snapshot_differs_from_the_one_before_by_one_unit() {
    let diff = diff_of("ABCBDAB", "BDCABA");
    let steps = diff.step_by_step();
    assert_eq!(steps, vec!["ABCBDAB", "ABCBDABA", "ABCBDCABA", "ABBDCABA", "ABDCABA", "BDCABA"]);
    for (k, action) in diff.actions().iter().enumerate() {
        let before = steps[k].chars().count();
        let after = steps[k + 1].chars().count();
        match action {
            Action::Insert(_, _) => assert_eq!(after, before + 1),
            Action::Delete(_) => assert_eq!(after + 1, before),
        }
    }
}

#[test]
fn texts_beyond_ascii_are_compared_by_character() {
    let diff = diff_of("h\u{e9}llo", "hello");
    assert_eq!(diff.actions(), &vec![Action::Insert(2, 'e'), Action::Delete(2)]);
    assert_eq!(diff.step_by_step(), vec!["h\u{e9}llo", "h\u{e9}ello", "hello"]);
    let shorter = diff_of("\u{65e5}\u{672c}\u{8a9e}", "\u{65e5}\u{672c}");
    assert_eq!(shorter.actions(), &vec![Action::Delete(3)]);
}

#[test]
fn same_texts_give_the_same_diff() {
    let one = diff_of("ABCBDAB", "BDCABA");
    let two = diff_of("ABCBDAB", "BDCABA");
    assert_eq!(one.actions(), two.actions());
    assert_eq!(one.step_by_step(), two.step_by_step());
    assert_eq!(one.unified(), two.unified());
    assert_eq!(one.get_input(), two.get_input());
}
