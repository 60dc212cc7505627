//! Moving between strings and their characters.

use vstd::prelude::*;

verus! {

/// Appends one character to a string.
///
/// Trusted: the body is `String::push`, documented to append the given
/// `char` to the end of the string.
#[verifier::external_body]
pub(crate) fn push_char(text: &mut String, c: char)
    ensures
        final(text)@ == old(text)@.push(c),
{
    text.push(c)
}

/// The characters of `text`, in order.
pub fn chars_of(text: &str) -> (letters: Vec<char>)
    ensures
        letters@ == text@,
{
    broadcast use vstd::string::group_string_axioms;

    let mut letters: Vec<char> = Vec::new();
    for c in it: text.chars()
        invariant
            it.seq() == text@,
            letters@ == text@.take(it.index()),
    {
        letters.push(c);
    }
    letters
}

/// The string made of `letters`, in order.
pub fn string_of(letters: &Vec<char>) -> (text: String)
    ensures
        text@ == letters@,
{
    let mut text = String::new();
    let mut i: usize = 0;
    while i < letters.len()
        invariant
            i <= letters.len(),
            text@ == letters@.take(i as int),
        decreases letters.len() - i,
    {
        push_char(&mut text, letters[i]);
        i += 1;
    }
    text
}

} // verus!
