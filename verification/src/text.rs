//! Moving between strings and character sequences.
use vstd::prelude::*;

verus! {

/// `String::push` of std: the string afterwards is the string before with `c`
/// appended as its last character.
pub assume_specification[ std::string::String::push ](s: &mut std::string::String, c: char)
    ensures
        final(s)@ == old(s)@.push(c),
;

/// Collects the characters of `source` in order.
pub fn characters(source: &str) -> (out: Vec<char>)
    ensures
        out@ == source@,
{
    let mut out: Vec<char> = Vec::new();
    for c in it: source.chars()
        invariant
            it.seq() == source@,
            out@ == it.seq().take(it.index()),
    {
        out.push(c);
    }
    out
}

/// Builds the string that holds exactly the characters of `chars`.
pub fn string_of(chars: &Vec<char>) -> (out: String)
    ensures
        out@ == chars@,
{
    let mut out = String::new();
    let mut i: usize = 0;
    while i < chars.len()
        invariant
            i <= chars.len(),
            out@ == chars@.take(i as int),
        decreases chars.len() - i,
    {
        out.push(chars[i]);
        i += 1;
    }
    out
}

} // verus!
