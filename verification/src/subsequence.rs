//! Subsequences of a text.

use vstd::prelude::*;

verus! {

/// Whether `sub` is a subsequence of `text`: what is left of `text` when some of its units
/// are taken out. Either `sub` is already a subsequence of `text` without its last unit, or
/// the two end in the same unit and the rest of `sub` is a subsequence of the rest of `text`.
pub open spec fn is_subsequence(sub: Seq<char>, text: Seq<char>) -> bool
    decreases text.len(),
{
    sub.len() == 0 || (text.len() > 0 && (is_subsequence(sub, text.drop_last()) || (sub.last() == text.last()
        && is_subsequence(sub.drop_last(), text.drop_last()))))
}

/// Every text is a subsequence of itself.
pub proof fn lemma_subsequence_of_itself(text: Seq<char>)
    ensures
        is_subsequence(text, text),
    decreases text.len(),
{
    if text.len() > 0 {
        lemma_subsequence_of_itself(text.drop_last());
    }
}

/// A subsequence of a subsequence of a text is a subsequence of the text.
pub proof fn lemma_subsequence_of_subsequence(sub: Seq<char>, mid: Seq<char>, text: Seq<char>)
    requires
        is_subsequence(sub, mid),
        is_subsequence(mid, text),
    ensures
        is_subsequence(sub, text),
    decreases text.len(),
{
    if sub.len() > 0 {
        if is_subsequence(mid, text.drop_last()) {
            lemma_subsequence_of_subsequence(sub, mid, text.drop_last());
        } else if is_subsequence(sub, mid.drop_last()) {
            lemma_subsequence_of_subsequence(sub, mid.drop_last(), text.drop_last());
        } else {
            lemma_subsequence_of_subsequence(sub.drop_last(), mid.drop_last(), text.drop_last());
        }
    }
}

/// A text without one of its units is a subsequence of the text.
pub proof fn lemma_remove_gives_subsequence(text: Seq<char>, k: int)
    requires
        0 <= k < text.len(),
    ensures
        is_subsequence(text.remove(k), text),
    decreases text.len(),
{
    let less = text.remove(k);
    if k == text.len() - 1 {
        assert(less =~= text.drop_last());
        lemma_subsequence_of_itself(text.drop_last());
    } else {
        assert(less.drop_last() =~= text.drop_last().remove(k));
        lemma_remove_gives_subsequence(text.drop_last(), k);
    }
}

/// Where `sub` is a subsequence of `text` and one unit is taken out of `text`, either `sub`
/// is still a subsequence of what is left, or it is one after one of its own units is taken
/// out. The result is the index of that unit, or -1 if none has to go.
pub proof fn lemma_subsequence_after_remove(sub: Seq<char>, text: Seq<char>, k: int) -> (q: int)
    requires
        is_subsequence(sub, text),
        0 <= k < text.len(),
    ensures
        -1 <= q < sub.len(),
        q == -1 ==> is_subsequence(sub, text.remove(k)),
        q >= 0 ==> is_subsequence(sub.remove(q), text.remove(k)),
    decreases text.len(),
{
    let less = text.remove(k);
    if sub.len() == 0 {
        -1
    } else if k == text.len() - 1 {
        assert(less =~= text.drop_last());
        if is_subsequence(sub, text.drop_last()) {
            -1
        } else {
            assert(sub.remove(sub.len() - 1) =~= sub.drop_last());
            sub.len() - 1
        }
    } else {
        assert(less.drop_last() =~= text.drop_last().remove(k));
        assert(less.last() == text.last());
        if is_subsequence(sub, text.drop_last()) {
            lemma_subsequence_after_remove(sub, text.drop_last(), k)
        } else {
            let q = lemma_subsequence_after_remove(sub.drop_last(), text.drop_last(), k);
            if q >= 0 {
                assert(sub.remove(q).drop_last() =~= sub.drop_last().remove(q));
                assert(sub.remove(q).last() == sub.last());
            }
            q
        }
    }
}

} // verus!
