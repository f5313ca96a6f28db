//! The repair passes over a token list: merging combining-sign fragments and
//! coalescing runs of unknown tokens.
use std::borrow::Cow;
use vstd::prelude::*;
use crate::constants::{consonant, digit, is_digit, is_separator, is_valid_single_word, separator, valid_single_word};
use crate::codepoints::contains_char;
use crate::dictionary::{strings_view, Dictionary};

verus! {

/// The first codepoint of `s`, or a space where `s` is empty.
pub open spec fn first_or_space(s: Seq<char>) -> char {
    if s.len() > 0 {
        s[0]
    } else {
        ' '
    }
}

/// The codepoint at `i` of `s`, or a space past its end.
pub open spec fn char_or_space(s: Seq<char>, i: int) -> char {
    if 0 <= i < s.len() {
        s[i]
    } else {
        ' '
    }
}

/// The first codepoint of `s`, or a space where `s` is empty.
pub fn first_char(s: &str) -> (r: char)
    ensures
        r == first_or_space(s@),
{
    if s.unicode_len() > 0 {
        s.get_char(0)
    } else {
        ' '
    }
}

/// The number of codepoints of `s`.
pub fn char_count(s: &str) -> (r: usize)
    ensures
        r == s@.len(),
{
    s.unicode_len()
}

/// The first two codepoints of `s` (a space for each that is missing) and its length.
pub fn get_chars_2(s: &str) -> (r: (char, char, usize))
    ensures
        r.0 == char_or_space(s@, 0),
        r.1 == char_or_space(s@, 1),
        r.2 == s@.len(),
{
    let n = s.unicode_len();
    let c0 = if n > 0 { s.get_char(0) } else { ' ' };
    let c1 = if n > 1 { s.get_char(1) } else { ' ' };
    (c0, c1, n)
}

/// The first three codepoints of `s` (a space for each that is missing) and its length.
pub fn get_chars_3(s: &str) -> (r: (char, char, char, usize))
    ensures
        r.0 == char_or_space(s@, 0),
        r.1 == char_or_space(s@, 1),
        r.2 == char_or_space(s@, 2),
        r.3 == s@.len(),
{
    let n = s.unicode_len();
    let c0 = if n > 0 { s.get_char(0) } else { ' ' };
    let c1 = if n > 1 { s.get_char(1) } else { ' ' };
    let c2 = if n > 2 { s.get_char(2) } else { ' ' };
    (c0, c1, c2, n)
}

/// A consonant followed by a sign that belongs to the token before it.
pub open spec fn merges_with_previous(s: Seq<char>) -> bool {
    ||| (s.len() == 2 && consonant(s[0]) && (s[1] == '\u{17CB}' || s[1] == '\u{17CE}' || s[1]
        == '\u{17CF}'))
    ||| (s.len() == 3 && consonant(s[0]) && s[1] == '\u{17B7}' && s[2] == '\u{17CD}')
}

/// A consonant followed by the sign that binds it to the token after it.
pub open spec fn merges_with_next(s: Seq<char>) -> bool {
    s.len() == 2 && consonant(s[0]) && s[1] == '\u{17D0}'
}

/// The combining-sign pass, from token `i` on, with `out` already produced.
pub open spec fn heuristics_from(
    words: Map<Seq<char>, u64>,
    segs: Seq<Seq<char>>,
    i: int,
    out: Seq<Seq<char>>,
) -> Seq<Seq<char>>
    decreases segs.len() - i,
{
    if i < 0 || i >= segs.len() {
        out
    } else if words.contains_key(segs[i]) {
        heuristics_from(words, segs, i + 1, out.push(segs[i]))
    } else if out.len() > 0 && merges_with_previous(segs[i]) {
        heuristics_from(words, segs, i + 1, out.drop_last().push(out.last() + segs[i]))
    } else if i + 1 < segs.len() && merges_with_next(segs[i]) {
        heuristics_from(words, segs, i + 2, out.push(segs[i] + segs[i + 1]))
    } else {
        heuristics_from(words, segs, i + 1, out.push(segs[i]))
    }
}

/// The combining-sign pass over `segs`.
pub open spec fn heuristics(words: Map<Seq<char>, u64>, segs: Seq<Seq<char>>) -> Seq<Seq<char>> {
    heuristics_from(words, segs, 0, Seq::empty())
}

/// Whether a token stands on its own in the unknown-run pass.
pub open spec fn known_token(words: Map<Seq<char>, u64>, s: Seq<char>) -> bool {
    ||| digit(first_or_space(s))
    ||| words.contains_key(s)
    ||| (s.len() == 1 && valid_single_word(s[0]))
    ||| (s.len() == 1 && separator(s[0]))
    ||| (s.contains('.') && s.len() >= 2)
}

/// `out` with the buffered unknown tokens appended as one token, if there are any.
pub open spec fn flush(out: Seq<Seq<char>>, buf: Seq<Seq<char>>) -> Seq<Seq<char>> {
    if buf.len() > 0 {
        out.push(buf.flatten())
    } else {
        out
    }
}

/// The unknown-run pass, from token `i` on, with `out` produced and `buf` buffered.
pub open spec fn unknowns_from(
    words: Map<Seq<char>, u64>,
    segs: Seq<Seq<char>>,
    i: int,
    out: Seq<Seq<char>>,
    buf: Seq<Seq<char>>,
) -> Seq<Seq<char>>
    decreases segs.len() - i,
{
    if i < 0 || i >= segs.len() {
        flush(out, buf)
    } else if known_token(words, segs[i]) {
        unknowns_from(words, segs, i + 1, flush(out, buf).push(segs[i]), Seq::empty())
    } else {
        unknowns_from(words, segs, i + 1, out, buf.push(segs[i]))
    }
}

/// The unknown-run pass over `segs`.
pub open spec fn unknowns(words: Map<Seq<char>, u64>, segs: Seq<Seq<char>>) -> Seq<Seq<char>> {
    unknowns_from(words, segs, 0, Seq::empty(), Seq::empty())
}

/// Merges combining-sign fragments: a consonant with a sign that belongs to
/// the token before it joins that token, and a consonant with the sign that
/// binds forward joins the token after it. Known words are left alone.
pub fn apply_heuristics_string(segments: Vec<String>, dictionary: &Dictionary) -> (r: Vec<String>)
    ensures
        strings_view(r@) == heuristics(dictionary@, strings_view(segments@)),
{
    let ghost segs = strings_view(segments@);
    let mut merged: Vec<String> = Vec::new();
    assert(strings_view(merged@) =~= Seq::<Seq<char>>::empty());
    let n = segments.len();
    let mut i: usize = 0;
    while i < n
        invariant
            n == segments@.len(),
            segs == strings_view(segments@),
            i <= n,
            heuristics(dictionary@, segs) == heuristics_from(dictionary@, segs, i as int, strings_view(merged@)),
        decreases n - i,
    {
        let curr = &segments[i];
        if dictionary.contains(curr.as_str()) {
            let t = curr.clone();
            assert(strings_view(merged@.push(t)) =~= strings_view(merged@).push(curr@));
            merged.push(t);
            i = i + 1;
            continue;
        }
        if merged.len() > 0 {
            let (c0, c1, c2, len) = get_chars_3(curr.as_str());
            let is_cons = (c0 as u32) >= 0x1780 && (c0 as u32) <= 0x17A2;
            if (len == 2 && is_cons && (c1 == '\u{17CB}' || c1 == '\u{17CE}' || c1 == '\u{17CF}'))
                || (len == 3 && is_cons && c1 == '\u{17B7}' && c2 == '\u{17CD}') {
                let ghost old_merged = merged@;
                let prev = merged.pop().unwrap();
                let joined = prev.concat(curr.as_str());
                proof {
                    assert(strings_view(merged@.push(joined)) =~= strings_view(old_merged).drop_last().push(
                        strings_view(old_merged).last() + curr@));
                }
                merged.push(joined);
                i = i + 1;
                continue;
            }
        }
        if i + 1 < n {
            let (c0, c1, len) = get_chars_2(curr.as_str());
            let is_cons = (c0 as u32) >= 0x1780 && (c0 as u32) <= 0x17A2;
            if len == 2 && is_cons && c1 == '\u{17D0}' {
                let joined = curr.clone().concat(segments[i + 1].as_str());
                assert(strings_view(merged@.push(joined)) =~= strings_view(merged@).push(curr@ + segs[i + 1]));
                merged.push(joined);
                i = i + 2;
                continue;
            }
        }
        let t = curr.clone();
        assert(strings_view(merged@.push(t)) =~= strings_view(merged@).push(curr@));
        merged.push(t);
        i = i + 1;
    }
    merged
}

/// Coalesces each run of unknown tokens into one token. A token is known
/// where it starts with a digit, is a known word, is a single codepoint that
/// is a word by itself or a separator, or holds a dot and two or more codepoints.
pub fn post_process_unknowns_string(pass2_segments: Vec<String>, dictionary: &Dictionary) -> (r: Vec<String>)
    ensures
        strings_view(r@) == unknowns(dictionary@, strings_view(pass2_segments@)),
{
    let ghost segs = strings_view(pass2_segments@);
    let mut final_segments: Vec<String> = Vec::new();
    let mut unknown_buffer = String::new();
    let mut buffered = false;
    let ghost mut buf: Seq<Seq<char>> = Seq::empty();
    assert(strings_view(final_segments@) =~= Seq::<Seq<char>>::empty());
    let n = pass2_segments.len();
    let mut i: usize = 0;
    while i < n
        invariant
            n == pass2_segments@.len(),
            segs == strings_view(pass2_segments@),
            i <= n,
            unknown_buffer@ == buf.flatten(),
            buffered == (buf.len() > 0),
            unknowns(dictionary@, segs) == unknowns_from(
                dictionary@,
                segs,
                i as int,
                strings_view(final_segments@),
                buf,
            ),
        decreases n - i,
    {
        let seg = pass2_segments[i].clone();
        let first = first_char(seg.as_str());
        let count = char_count(seg.as_str());
        let is_known = if is_digit(first) {
            true
        } else if dictionary.contains(seg.as_str()) {
            true
        } else if count == 1 && is_valid_single_word(first) {
            true
        } else if count == 1 && is_separator(first) {
            true
        } else {
            count >= 2 && contains_char(seg.as_str(), '.')
        };
        if is_known {
            if buffered {
                let flushed = unknown_buffer;
                assert(strings_view(final_segments@.push(flushed)) =~= strings_view(final_segments@).push(buf.flatten()));
                final_segments.push(flushed);
                unknown_buffer = String::new();
                buffered = false;
            }
            let ghost before = strings_view(final_segments@);
            assert(strings_view(final_segments@.push(seg)) =~= before.push(seg@));
            final_segments.push(seg);
            proof {
                buf = Seq::empty();
            }
        } else {
            proof {
                buf.lemma_flatten_push(seg@);
                buf = buf.push(seg@);
            }
            unknown_buffer.append(seg.as_str());
            buffered = true;
        }
        i = i + 1;
    }
    if buffered {
        let flushed = unknown_buffer;
        assert(strings_view(final_segments@.push(flushed)) =~= strings_view(final_segments@).push(buf.flatten()));
        final_segments.push(flushed);
    }
    final_segments
}

/// The views of a list of string tokens, borrowed or owned.
pub open spec fn cows_view<'a>(s: Seq<Cow<'a, str>>) -> Seq<Seq<char>> {
    s.map_values(|x: Cow<'a, str>| x@)
}

fn cow_as_str<'a, 'b>(c: &'b Cow<'a, str>) -> (r: &'b str)
    ensures
        r@ == c@,
{
    match c {
        Cow::Borrowed(b) => *b,
        Cow::Owned(o) => o.as_str(),
    }
}

fn cow_copy<'a>(c: &Cow<'a, str>) -> (r: Cow<'a, str>)
    ensures
        r@ == c@,
{
    match c {
        Cow::Borrowed(b) => Cow::Borrowed(*b),
        Cow::Owned(o) => Cow::Owned(o.clone()),
    }
}

fn cow_join<'a>(a: &Cow<'a, str>, b: &Cow<'a, str>) -> (r: Cow<'a, str>)
    ensures
        r@ == a@ + b@,
{
    let joined = String::from_str(cow_as_str(a)).concat(cow_as_str(b));
    Cow::Owned(joined)
}

/// `apply_heuristics_string` over tokens that may borrow from the input.
/// Tokens that are not merged are handed back as they came.
pub fn apply_heuristics<'a>(segments: Vec<Cow<'a, str>>, dictionary: &Dictionary) -> (r: Vec<Cow<'a, str>>)
    ensures
        cows_view(r@) == heuristics(dictionary@, cows_view(segments@)),
{
    let ghost segs = cows_view(segments@);
    let mut merged: Vec<Cow<'a, str>> = Vec::new();
    assert(cows_view(merged@) =~= Seq::<Seq<char>>::empty());
    let n = segments.len();
    let mut i: usize = 0;
    while i < n
        invariant
            n == segments@.len(),
            segs == cows_view(segments@),
            i <= n,
            heuristics(dictionary@, segs) == heuristics_from(dictionary@, segs, i as int, cows_view(merged@)),
        decreases n - i,
    {
        let curr = &segments[i];
        let curr_str = cow_as_str(curr);
        if dictionary.contains(curr_str) {
            let t = cow_copy(curr);
            assert(cows_view(merged@.push(t)) =~= cows_view(merged@).push(curr@));
            merged.push(t);
            i = i + 1;
            continue;
        }
        if merged.len() > 0 {
            let (c0, c1, c2, len) = get_chars_3(curr_str);
            let is_cons = (c0 as u32) >= 0x1780 && (c0 as u32) <= 0x17A2;
            if (len == 2 && is_cons && (c1 == '\u{17CB}' || c1 == '\u{17CE}' || c1 == '\u{17CF}'))
                || (len == 3 && is_cons && c1 == '\u{17B7}' && c2 == '\u{17CD}') {
                let ghost old_merged = merged@;
                let prev = merged.pop().unwrap();
                let joined = cow_join(&prev, curr);
                proof {
                    assert(cows_view(merged@.push(joined)) =~= cows_view(old_merged).drop_last().push(
                        cows_view(old_merged).last() + curr@));
                }
                merged.push(joined);
                i = i + 1;
                continue;
            }
        }
        if i + 1 < n {
            let (c0, c1, len) = get_chars_2(curr_str);
            let is_cons = (c0 as u32) >= 0x1780 && (c0 as u32) <= 0x17A2;
            if len == 2 && is_cons && c1 == '\u{17D0}' {
                let joined = cow_join(curr, &segments[i + 1]);
                assert(cows_view(merged@.push(joined)) =~= cows_view(merged@).push(curr@ + segs[i + 1]));
                merged.push(joined);
                i = i + 2;
                continue;
            }
        }
        let t = cow_copy(curr);
        assert(cows_view(merged@.push(t)) =~= cows_view(merged@).push(curr@));
        merged.push(t);
        i = i + 1;
    }
    merged
}

/// `post_process_unknowns_string` over tokens that may borrow from the
/// input. Known tokens are handed back as they came.
pub fn post_process_unknowns<'a>(pass2_segments: Vec<Cow<'a, str>>, dictionary: &Dictionary) -> (r: Vec<Cow<'a, str>>)
    ensures
        cows_view(r@) == unknowns(dictionary@, cows_view(pass2_segments@)),
{
    let ghost segs = cows_view(pass2_segments@);
    let mut final_segments: Vec<Cow<'a, str>> = Vec::new();
    let mut unknown_buffer = String::new();
    let mut buffered = false;
    let ghost mut buf: Seq<Seq<char>> = Seq::empty();
    assert(cows_view(final_segments@) =~= Seq::<Seq<char>>::empty());
    let n = pass2_segments.len();
    let mut i: usize = 0;
    while i < n
        invariant
            n == pass2_segments@.len(),
            segs == cows_view(pass2_segments@),
            i <= n,
            unknown_buffer@ == buf.flatten(),
            buffered == (buf.len() > 0),
            unknowns(dictionary@, segs) == unknowns_from(
                dictionary@,
                segs,
                i as int,
                cows_view(final_segments@),
                buf,
            ),
        decreases n - i,
    {
        let seg = &pass2_segments[i];
        let seg_str = cow_as_str(seg);
        let first = first_char(seg_str);
        let count = char_count(seg_str);
        let is_known = if is_digit(first) {
            true
        } else if dictionary.contains(seg_str) {
            true
        } else if count == 1 && is_valid_single_word(first) {
            true
        } else if count == 1 && is_separator(first) {
            true
        } else {
            count >= 2 && contains_char(seg_str, '.')
        };
        if is_known {
            if buffered {
                let flushed: Cow<'a, str> = Cow::Owned(unknown_buffer);
                assert(cows_view(final_segments@.push(flushed)) =~= cows_view(final_segments@).push(buf.flatten()));
                final_segments.push(flushed);
                unknown_buffer = String::new();
                buffered = false;
            }
            let t = cow_copy(seg);
            let ghost before = cows_view(final_segments@);
            assert(cows_view(final_segments@.push(t)) =~= before.push(seg@));
            final_segments.push(t);
            proof {
                buf = Seq::empty();
            }
        } else {
            proof {
                buf.lemma_flatten_push(seg@);
                buf = buf.push(seg@);
            }
            unknown_buffer.append(seg_str);
            buffered = true;
        }
        i = i + 1;
    }
    if buffered {
        let flushed: Cow<'a, str> = Cow::Owned(unknown_buffer);
        assert(cows_view(final_segments@.push(flushed)) =~= cows_view(final_segments@).push(buf.flatten()));
        final_segments.push(flushed);
    }
    final_segments
}

} // verus!
