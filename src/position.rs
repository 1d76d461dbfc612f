//! Line and column of a position in the text, as functions of the characters
//! that precede it.
use vstd::prelude::*;

verus! {

/// The line of position `p`: one more than the line feeds before it.
pub open spec fn line_at(s: Seq<char>, p: int) -> int
    decreases p,
{
    if p <= 0 {
        1
    } else if s[p - 1] == '\n' {
        line_at(s, p - 1) + 1
    } else {
        line_at(s, p - 1)
    }
}

/// The column of position `p`: how many characters of its line precede it.
pub open spec fn column_at(s: Seq<char>, p: int) -> int
    decreases p,
{
    if p <= 0 {
        0
    } else if s[p - 1] == '\n' {
        0
    } else {
        column_at(s, p - 1) + 1
    }
}

pub proof fn lemma_position_bounds(s: Seq<char>, p: int)
    requires
        0 <= p,
    ensures
        1 <= line_at(s, p) <= p + 1,
        0 <= column_at(s, p) <= p,
    decreases p,
{
    if p > 0 {
        lemma_position_bounds(s, p - 1);
    }
}

} // verus!
