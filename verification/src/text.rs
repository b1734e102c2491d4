//! Strings as sequences of characters, and back.

use vstd::prelude::*;

verus! {

/// `String::push` appends one character to the end of the string and changes nothing else.
pub assume_specification[ String::push ](text: &mut String, unit: char)
    ensures
        final(text)@ == old(text)@.push(unit),
;

/// The characters of `text`, in order.
pub fn units_of(text: &str) -> (units: Vec<char>)
    ensures
        units@ == text@,
{
    let mut units: Vec<char> = Vec::new();
    for unit in it: text.chars()
        invariant
            units@ == it.seq().take(it.index()),
            it.seq() == text@,
    {
        units.push(unit);
    }
    units
}

/// The string made of `units`, in order.
pub fn text_of(units: &Vec<char>) -> (text: String)
    ensures
        text@ == units@,
{
    let mut text = String::new();
    let mut k: usize = 0;
    while k < units.len()
        invariant
            k <= units.len(),
            text@ == units@.take(k as int),
        decreases units.len() - k,
    {
        text.push(units[k]);
        k += 1;
        assert(units@.take(k as int) =~= units@.take(k - 1).push(units@[k - 1]));
    }
    assert(units@.take(units.len() as int) =~= units@);
    text
}

} // verus!
