//! Texts and their scalar values: from a string to the sequence of its
//! scalars, and back.

use vstd::prelude::*;

verus! {

/// The scalar values of `text`, in order.
pub fn scalars(text: &str) -> (out: Vec<char>)
    ensures
        out@ == text@,
{
    let mut out: Vec<char> = Vec::new();
    for c in it: text.chars()
        invariant
            it.seq() == text@,
            out@ == text@.take(it.index() as int),
    {
        out.push(c);
    }
    out
}

/// `String::push` appends one scalar value to the end of the string.
pub assume_specification[ String::push ](text: &mut String, scalar: char)
    ensures
        final(text)@ == old(text)@.push(scalar),
;

/// The text that holds exactly the scalar values `scalars`, in order.
pub fn text_of(scalars: &[char]) -> (text: String)
    ensures
        text@ == scalars@,
{
    let mut text = String::new();
    let mut i: usize = 0;
    while i < scalars.len()
        invariant
            i <= scalars.len(),
            text@ == scalars@.take(i as int),
        decreases scalars.len() - i,
    {
        text.push(scalars[i]);
        i += 1;
    }
    text
}

} // verus!
