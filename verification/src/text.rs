//! Strings as sequences of characters.
use vstd::prelude::*;

verus! {

/// The characters of `s`, in order.
pub(crate) fn chars_of(s: &str) -> (v: Vec<char>)
    ensures
        v@ == s@,
{
    proof {
        broadcast use vstd::string::group_string_axioms;
    }
    let mut v: Vec<char> = Vec::new();
    for ch in it: s.chars()
        invariant
            it.seq() == s@,
            v@ == s@.take(it.index() as int),
    {
        assert(s@.take(it.index() + 1) == s@.take(it.index() as int).push(ch));
        v.push(ch);
    }
    assert(s@.take(s@.len() as int) == s@);
    v
}

/// Appends one character to a string. Calls `String::push`; the contract
/// claims that the string afterwards holds its former characters followed by `c`.
#[verifier::external_body]
pub(crate) fn push_char(s: &mut String, c: char)
    ensures
        final(s)@ == old(s)@.push(c),
{
    s.push(c);
}

} // verus!
