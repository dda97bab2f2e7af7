//! Conversions between strings and character vectors, and the few string
//! operations the rest of the crate is built on.

use crate::chars::{char_is_whitespace, has_whitespace, is_whitespace};
use vstd::prelude::*;

verus! {

/// `String::push` appends the given character to the end of the string.
pub assume_specification[ String::push ](s: &mut String, ch: char)
    ensures
        final(s)@ == old(s)@.push(ch),
;

/// The characters of `s`, in order.
pub fn chars_of(s: &str) -> (v: Vec<char>)
    ensures
        v@ == s@,
{
    let mut v: Vec<char> = Vec::new();
    for c in it: s.chars()
        invariant
            it.seq() == s@,
            v@ == it.seq().take(it.index()),
    {
        v.push(c);
    }
    v
}

/// The string made of the characters `v[from..to]`, in order.
pub(crate) fn string_of_range(v: &Vec<char>, from: usize, to: usize) -> (s: String)
    requires
        from <= to <= v.len(),
    ensures
        s@ == v@.subrange(from as int, to as int),
{
    let mut s = String::new();
    let mut i: usize = from;
    while i < to
        invariant
            from <= i <= to <= v.len(),
            s@ == v@.subrange(from as int, i as int),
        decreases to - i,
    {
        s.push(v[i]);
        i += 1;
    }
    s
}

/// Decides whether `s` holds a whitespace character.
pub fn contains_whitespace(s: &str) -> (r: bool)
    ensures
        r == has_whitespace(s@),
{
    let mut found = false;
    for c in it: s.chars()
        invariant
            it.seq() == s@,
            found == has_whitespace(s@.take(it.index())),
    {
        let ghost before = s@.take(it.index());
        let ghost after = s@.take(it.index() + 1);
        proof {
            assert(after == before.push(c));
            if has_whitespace(before) {
                let i = choose|i: int| 0 <= i < before.len() && is_whitespace(#[trigger] before[i]);
                assert(is_whitespace(after[i]));
            }
            if is_whitespace(c) {
                assert(is_whitespace(after[after.len() - 1]));
            }
            if has_whitespace(after) {
                let i = choose|i: int| 0 <= i < after.len() && is_whitespace(#[trigger] after[i]);
                if i < before.len() {
                    assert(is_whitespace(before[i]));
                }
            }
        }
        if char_is_whitespace(c) {
            found = true;
        }
    }
    proof {
        assert(s@.take(s@.len() as int) == s@);
    }
    found
}

} // verus!
