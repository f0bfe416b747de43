//! The text form of a list: the text of each value, front to back, with a
//! separator between neighbours.

use vstd::prelude::*;

verus! {

/// What stands between the texts of two neighbouring values.
pub const SEPARATOR: &'static str = "->";

/// The separator is a hyphen followed by a greater-than sign.
pub proof fn lemma_separator()
    ensures
        SEPARATOR@ == seq!['-', '>'],
{
    reveal_strlit("->");
    assert(SEPARATOR@ =~= seq!['-', '>']);
}

/// The texts of `parts` in a row with `sep` between each two neighbours:
/// nothing before the first and nothing behind the last.
pub open spec fn joined(parts: Seq<Seq<char>>, sep: Seq<char>) -> Seq<char>
    decreases parts.len(),
{
    if parts.len() == 0 {
        Seq::empty()
    } else if parts.len() == 1 {
        parts[0]
    } else {
        joined(parts.drop_last(), sep) + sep + parts.last()
    }
}

/// The characters of each string of `parts`.
pub open spec fn texts(parts: Seq<String>) -> Seq<Seq<char>> {
    Seq::new(parts.len(), |i: int| parts[i]@)
}

/// Joins `parts` with the separator.
pub fn render(parts: &Vec<String>) -> (text: String)
    ensures
        text@ == joined(texts(parts@), SEPARATOR@),
{
    let mut text = String::new();
    let mut i: usize = 0;
    while i < parts.len()
        invariant
            i <= parts.len(),
            text@ == joined(texts(parts@).take(i as int), SEPARATOR@),
        decreases parts.len() - i,
    {
        let ghost done = texts(parts@).take(i as int);
        let ghost next = texts(parts@).take(i + 1);
        assert(next.drop_last() =~= done);
        assert(next.last() == parts@[i as int]@);
        if i > 0 {
            text.append(SEPARATOR);
        }
        text.append(parts[i].as_str());
        assert(text@ =~= joined(next, SEPARATOR@));
        i += 1;
    }
    assert(texts(parts@).take(i as int) =~= texts(parts@));
    text
}

} // verus!
