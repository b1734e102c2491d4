use lcsdiff::script::Action;
use lcsdiff::unified::{mark_action, Tag, Tagged};
use lcsdiff::Diff;

fn tagged(unit: char, tag: Tag) -> Tagged {
    Tagged { unit, tag }
}

fn unified_of(first: &str, second: &str) -> Vec<Tagged> {
    Diff::new(first.to_string(), second.to_string()).unwrap().unified()
}

#[test]
fn marking_an_insert_adds_a_unit() {
    let mut units = vec![tagged('a', Tag::Unchanged), tagged('b', Tag::Unchanged)];
    mark_action(&mut units, Action::Insert(1, 'x'));
    assert_eq!(
        units,
        vec![tagged('a', Tag::Unchanged), tagged('x', Tag::Inserted), tagged('b', Tag::Unchanged)]
    );
}

#[test]
fn marking_a_delete_keeps_the_unit() {
    let mut units = vec![tagged('a', Tag::Unchanged), tagged('b', Tag::Unchanged)];
    mark_action(&mut units, Action::Delete(2));
    assert_eq!(units, vec![tagged('a', Tag::Unchanged), tagged('b', Tag::Deleted)]);
    mark_action(&mut units, Action::Delete(1));
    assert_eq!(units, vec![tagged('a', Tag::Deleted), tagged('b', Tag::Deleted)]);
}

#[test]
fn unified_of_kitten_and_sitting() {
    assert_eq!(
        unified_of("kitten", "sitting"),
        vec![
            tagged('k', Tag::Deleted),
            tagged('s', Tag::Inserted),
            tagged('i', Tag::Unchanged),
            tagged('t', Tag::Unchanged),
            tagged('t', Tag::Unchanged),
            tagged('e', Tag::Deleted),
            tagged('i', Tag::Inserted),
            tagged('n', Tag::Unchanged),
            tagged('g', Tag::Inserted),
        ]
    );
}

#[test]
fn unified_of_ab_and_ba() {
    assert_eq!(
        unified_of("ab", "ba"),
        vec![tagged('a', Tag::Deleted), tagged('b', Tag::Unchanged), tagged('a', Tag::Inserted)]
    );
}

#[test]
fn unified_of_equal_texts_is_all_unchanged() {
    assert_eq!(
        unified_of("abc", "abc"),
        vec![tagged('a', Tag::Unchanged), tagged('b', Tag::Unchanged), tagged('c', Tag::Unchanged)]
    );
    assert_eq!(unified_of("", ""), vec![]);
}

#[test]
fn unified_from_nothing_is_all_inserted() {
    assert_eq!(
        unified_of("", "abc"),
        vec![tagged('a', Tag::Inserted), tagged('b', Tag::Inserted), tagged('c', Tag::Inserted)]
    );
}

#[test]
fn unified_to_nothing_is_all_deleted() {
    assert_eq!(
        unified_of("abc", ""),
        vec![tagged('a', Tag::Deleted), tagged('b', Tag::Deleted), tagged('c', Tag::Deleted)]
    );
}

#[test]
fn unified_holds_each_unit_of_both_texts_once() {
    for (first, second) in [
        ("kitten", "sitting"),
        ("ABCBDAB", "BDCABA"),
        ("abcde", "xyz"),
        ("ab", "ba"),
        ("h\u{e9}llo", "hello"),
        ("the quick brown fox", "a quick brown dog jumps"),
    ] {
        let units = unified_of(first, second);
        let of_first: String = units.iter().filter(|u| u.tag != Tag::Inserted).map(|u| u.unit).collect();
        let of_second: String = units.iter().filter(|u| u.tag != Tag::Deleted).map(|u| u.unit).collect();
        assert_eq!(of_first, first);
        assert_eq!(of_second, second);
        let diff = Diff::new(first.to_string(), second.to_string()).unwrap();
        let inserts = diff.actions().iter().filter(|a| matches!(a, Action::Insert(_, _))).count();
        let deletes = diff.actions().len() - inserts;
        assert_eq!(units.iter().filter(|u| u.tag == Tag::Inserted).count(), inserts);
        assert_eq!(units.iter().filter(|u| u.tag == Tag::Deleted).count(), deletes);
        assert_eq!(units.len(), first.chars().count() + inserts);
    }
}
