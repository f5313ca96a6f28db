//! Moving between strings and codepoint sequences.
use vstd::prelude::*;

verus! {

/// The codepoints of `s`, in order.
pub fn chars_of(s: &str) -> (r: Vec<char>)
    ensures
        r@ == s@,
{
    let mut r: Vec<char> = Vec::new();
    for c in it: s.chars()
        invariant
            it.seq() == s@,
            r@ == s@.subrange(0, it.index() as int),
    {
        r.push(c);
    }
    assert(r@ =~= s@);
    r
}

/// Relies on String::push: appends one codepoint.
#[verifier::external_body]
pub(crate) fn push_char(s: &mut String, c: char)
    ensures
        final(s)@ == old(s)@.push(c),
{
    s.push(c);
}

/// The string made of `cps[start..end]`.
pub fn string_of(cps: &[char], start: usize, end: usize) -> (r: String)
    requires
        start <= end <= cps@.len(),
    ensures
        r@ == cps@.subrange(start as int, end as int),
{
    let mut r = String::new();
    let mut i: usize = start;
    while i < end
        invariant
            start <= i <= end <= cps@.len(),
            r@ == cps@.subrange(start as int, i as int),
        decreases end - i,
    {
        push_char(&mut r, cps[i]);
        assert(cps@.subrange(start as int, i + 1) =~= cps@.subrange(start as int, i as int).push(cps@[i as int]));
        i = i + 1;
    }
    r
}

/// Whether `c` occurs in `s`.
pub fn contains_char(s: &str, c: char) -> (r: bool)
    ensures
        r == s@.contains(c),
{
    let cps = chars_of(s);
    let mut i: usize = 0;
    while i < cps.len()
        invariant
            cps@ == s@,
            i <= cps@.len(),
            forall|k: int| 0 <= k < i ==> cps@[k] != c,
        decreases cps@.len() - i,
    {
        if cps[i] == c {
            return true;
        }
        i = i + 1;
    }
    false
}

} // verus!
