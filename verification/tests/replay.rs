use lcsdiff::replay::apply_action;
use lcsdiff::script::Action;
use lcsdiff::text::{text_of, units_of};

#[test]
fn insert_puts_the_unit_at_the_index() {
    let mut text = units_of("abc");
    apply_action(&mut text, Action::Insert(0, 'x'));
    assert_eq!(text, vec!['x', 'a', 'b', 'c']);
    apply_action(&mut text, Action::Insert(4, 'y'));
    assert_eq!(text, vec!['x', 'a', 'b', 'c', 'y']);
    apply_action(&mut text, Action::Insert(2, 'z'));
    assert_eq!(text, vec!['x', 'a', 'z', 'b', 'c', 'y']);
}

#[test]
fn delete_counts_positions_from_one() {
    let mut text = units_of("abc");
    apply_action(&mut text, Action::Delete(3));
    assert_eq!(text, vec!['a', 'b']);
    apply_action(&mut text, Action::Delete(1));
    assert_eq!(text, vec!['b']);
    apply_action(&mut text, Action::Delete(1));
    assert_eq!(text, Vec::<char>::new());
}

#[test]
fn units_are_characters_not_bytes() {
    let units = units_of("h\u{e9}llo \u{65e5}\u{672c}");
    assert_eq!(units, vec!['h', '\u{e9}', 'l', 'l', 'o', ' ', '\u{65e5}', '\u{672c}']);
    assert_eq!(units_of(""), Vec::<char>::new());
}

#[test]
fn text_is_made_of_every_unit_in_order() {
    assert_eq!(text_of(&vec!['s', 'i', 't']), "sit");
    assert_eq!(text_of(&vec!['\u{65e5}', '\u{672c}', '\u{8a9e}']), "\u{65e5}\u{672c}\u{8a9e}");
    assert_eq!(text_of(&Vec::new()), "");
}

#[test]
fn units_and_text_undo_each_other() {
    for text in ["", "a", "kitten", "na\u{ef}ve caf\u{e9}", "\u{1f600} ok"] {
        assert_eq!(text_of(&units_of(text)), text);
    }
}
