//! The word list: which lines become words, the spelling variants they bring,
//! and the compounds that are filtered out again.
use vstd::prelude::*;
use crate::codepoints::{chars_of, string_of};
use crate::constants::{is_valid_single_word, valid_single_word, COENG};
use crate::dictionary::strings_view;
use crate::trie::Trie;
use crate::variants::{generate_variants, lemma_variant_length, spelling_variants, vecs_view};

verus! {

/// The independent vowel RYY, which joins two words into a compound.
pub const RYY: char = '\u{17AC}';

/// The reduplication sign.
pub const REDUPLICATION: char = '\u{17D7}';

/// Whether `c` has the Unicode White_Space property, as `char::is_whitespace` tests.
pub open spec fn white_space(c: char) -> bool {
    ||| (0x9 <= c as u32 <= 0xD)
    ||| c == ' '
    ||| c == '\u{85}'
    ||| c == '\u{A0}'
    ||| c == '\u{1680}'
    ||| (0x2000 <= c as u32 <= 0x200A)
    ||| c == '\u{2028}'
    ||| c == '\u{2029}'
    ||| c == '\u{202F}'
    ||| c == '\u{205F}'
    ||| c == '\u{3000}'
}

/// The number of white space codepoints that `s` starts with.
pub open spec fn leading_white(s: Seq<char>) -> nat
    decreases s.len(),
{
    if s.len() > 0 && white_space(s[0]) {
        1 + leading_white(s.drop_first())
    } else {
        0
    }
}

/// The number of white space codepoints that `s` ends with.
pub open spec fn trailing_white(s: Seq<char>) -> nat
    decreases s.len(),
{
    if s.len() > 0 && white_space(s.last()) {
        1 + trailing_white(s.drop_last())
    } else {
        0
    }
}

/// `s` without its leading and trailing white space.
pub open spec fn trimmed(s: Seq<char>) -> Seq<char> {
    let rest = s.subrange(leading_white(s) as int, s.len() as int);
    rest.subrange(0, rest.len() - trailing_white(rest))
}

fn is_white_space(c: char) -> (r: bool)
    ensures
        r == white_space(c),
{
    let code = c as u32;
    (code >= 0x9 && code <= 0xD) || c == ' ' || c == '\u{85}' || c == '\u{A0}' || c == '\u{1680}'
        || (code >= 0x2000 && code <= 0x200A) || c == '\u{2028}' || c == '\u{2029}' || c
        == '\u{202F}' || c == '\u{205F}' || c == '\u{3000}'
}

/// The codepoints of `s` without its leading and trailing white space.
pub fn trim(s: &str) -> (r: Vec<char>)
    ensures
        r@ == trimmed(s@),
{
    let cps = chars_of(s);
    let n = cps.len();
    let mut a: usize = 0;
    assert(s@.subrange(0, n as int) =~= s@);
    while a < n && is_white_space(cps[a])
        invariant
            cps@ == s@,
            n == cps@.len(),
            a <= n,
            leading_white(s@) == a + leading_white(s@.subrange(a as int, n as int)),
        decreases n - a,
    {
        assert(s@.subrange(a as int, n as int).drop_first() =~= s@.subrange(a + 1, n as int));
        a = a + 1;
    }
    assert(leading_white(s@.subrange(a as int, n as int)) == 0);
    let ghost rest = s@.subrange(a as int, n as int);
    let mut b: usize = n;
    while b > a && is_white_space(cps[b - 1])
        invariant
            cps@ == s@,
            n == cps@.len(),
            a <= b <= n,
            rest == s@.subrange(a as int, n as int),
            trailing_white(rest) == (n - b) + trailing_white(s@.subrange(a as int, b as int)),
        decreases b - a,
    {
        assert(s@.subrange(a as int, b as int).drop_last() =~= s@.subrange(a as int, b - 1));
        b = b - 1;
    }
    assert(trailing_white(s@.subrange(a as int, b as int)) == 0);
    assert(rest.subrange(0, rest.len() - trailing_white(rest)) =~= s@.subrange(a as int, b as int));
    let mut r: Vec<char> = Vec::new();
    let mut k: usize = a;
    while k < b
        invariant
            cps@ == s@,
            a <= k <= b <= n,
            n == cps@.len(),
            r@ == s@.subrange(a as int, k as int),
        decreases b - k,
    {
        r.push(cps[k]);
        assert(s@.subrange(a as int, k + 1) =~= s@.subrange(a as int, k as int).push(s@[k as int]));
        k = k + 1;
    }
    r
}

/// Whether a trimmed line is taken as a word: it is not empty, and a single
/// codepoint is taken only where it is a word by itself.
pub open spec fn candidate(w: Seq<char>) -> bool {
    w.len() > 0 && (w.len() != 1 || valid_single_word(w[0]))
}

/// The words that line `line` brings: the trimmed line and its spelling
/// variants, where the trimmed line is a candidate.
pub open spec fn line_words(line: Seq<char>) -> Set<Seq<char>> {
    let w = trimmed(line);
    if candidate(w) {
        spelling_variants(w).insert(w)
    } else {
        Set::empty()
    }
}

/// The words that the first `i` lines bring.
pub open spec fn expanded_upto(lines: Seq<Seq<char>>, i: int) -> Set<Seq<char>> {
    Set::new(|v: Seq<char>| exists|k: int| 0 <= k < i && #[trigger] line_words(lines[k]).contains(v))
}

/// Whether `w[a..b]` is a maximal run of `w` without RYY.
pub open spec fn ryy_part(w: Seq<char>, a: int, b: int) -> bool {
    &&& 0 <= a <= b <= w.len()
    &&& (a == 0 || w[a - 1] == RYY)
    &&& (b == w.len() || w[b] == RYY)
    &&& forall|k: int| a <= k < b ==> w[k] != RYY
}

/// Whether every non-empty run of `w` between RYYs is in `e`.
pub open spec fn splits_into_known(e: Set<Seq<char>>, w: Seq<char>) -> bool {
    forall|a: int, b: int| #[trigger] ryy_part(w, a, b) && a < b ==> e.contains(w.subrange(a, b))
}

/// Whether `w` is a compound around RYY of words in `e`.
pub open spec fn ryy_compound(e: Set<Seq<char>>, w: Seq<char>) -> bool {
    &&& w.contains(RYY)
    &&& w.len() > 1
    &&& {
        ||| (w[0] == RYY && e.contains(w.drop_first()))
        ||| (w.last() == RYY && e.contains(w.drop_last()))
        ||| splits_into_known(e, w)
    }
}

/// Whether `w` is removed from the expanded words `e`.
pub open spec fn filtered_out(e: Set<Seq<char>>, w: Seq<char>) -> bool {
    ||| ryy_compound(e, w)
    ||| w.contains(REDUPLICATION)
    ||| (w.len() > 0 && w[0] == COENG)
}

/// The word set of a word list.
pub open spec fn word_set(lines: Seq<Seq<char>>) -> Set<Seq<char>> {
    let e = expanded_upto(lines, lines.len() as int);
    e.filter(|w: Seq<char>| !filtered_out(e, w))
}

/// No word of a word list is empty.
pub proof fn lemma_word_nonempty(lines: Seq<Seq<char>>, v: Seq<char>)
    requires
        word_set(lines).contains(v),
    ensures
        v.len() > 0,
{
    let k = choose|k: int| 0 <= k < lines.len() && #[trigger] line_words(lines[k]).contains(v);
    let t = trimmed(lines[k]);
    if v != t {
        lemma_variant_length(t, v);
    }
}

/// Adds `x` to the set held as the keys of `all` and as the list `list`.
fn add_word(all: &mut Trie, list: &mut Vec<Vec<char>>, x: Vec<char>)
    requires
        old(all).wf(),
        forall|v: Seq<char>| old(all)@.contains_key(v) <==> vecs_view(old(list)@).contains(v),
        vecs_view(old(list)@).no_duplicates(),
    ensures
        final(all).wf(),
        final(all)@.dom() == old(all)@.dom().insert(x@),
        forall|v: Seq<char>| final(all)@.contains_key(v) <==> vecs_view(final(list)@).contains(v),
        vecs_view(final(list)@).no_duplicates(),
{
    assert(x@.subrange(0, x@.len() as int) =~= x@);
    if all.lookup(x.as_slice(), 0, x.len()).is_none() {
        all.insert(x.as_slice(), 0);
        let ghost before = vecs_view(list@);
        list.push(x);
        assert(vecs_view(list@) =~= before.push(x@));
        assert forall|v: Seq<char>| all@.contains_key(v) <==> vecs_view(list@).contains(v) by {
            if v == x@ {
                assert(vecs_view(list@)[before.len() as int] == x@);
            }
            if v != x@ && vecs_view(list@).contains(v) {
                let k = choose|k: int| 0 <= k < vecs_view(list@).len() && vecs_view(list@)[k] == v;
                assert(before[k] == v);
            }
            if v != x@ && all@.contains_key(v) {
                let k = choose|k: int| 0 <= k < before.len() && before[k] == v;
                assert(vecs_view(list@)[k] == v);
            }
        }
    }
    assert(all@.dom() =~= old(all)@.dom().insert(x@));
}

/// Whether `w` holds `c`.
fn has_char(w: &Vec<char>, c: char) -> (r: bool)
    ensures
        r == w@.contains(c),
{
    let mut i: usize = 0;
    while i < w.len()
        invariant
            i <= w@.len(),
            forall|k: int| 0 <= k < i ==> w@[k] != c,
        decreases w@.len() - i,
    {
        if w[i] == c {
            return true;
        }
        i = i + 1;
    }
    false
}

/// Whether every non-empty run of `w` between RYYs is a key of `e`.
fn splits_known(e: &Trie, w: &Vec<char>) -> (r: bool)
    requires
        e.wf(),
    ensures
        r == splits_into_known(e@.dom(), w@),
{
    let n = w.len();
    let mut a: usize = 0;
    let mut i: usize = 0;
    while i < n
        invariant
            n == w@.len(),
            e.wf(),
            a <= i <= n,
            a == 0 || w@[a - 1] == RYY,
            forall|k: int| a <= k < i ==> w@[k] != RYY,
            forall|a1: int, b1: int|
                #[trigger] ryy_part(w@, a1, b1) && a1 < b1 && b1 < i ==> e@.contains_key(
                    w@.subrange(a1, b1),
                ),
        decreases n - i,
    {
        if w[i] == RYY {
            if a < i && e.lookup(w.as_slice(), a, i).is_none() {
                assert(ryy_part(w@, a as int, i as int));
                return false;
            }
            assert forall|a1: int, b1: int|
                #[trigger] ryy_part(w@, a1, b1) && a1 < b1 && b1 < i + 1 implies e@.contains_key(
                w@.subrange(a1, b1),
            ) by {
                if b1 == i {
                    if a1 < a {
                        assert(w@[a - 1] == RYY);
                    }
                    if a1 > a {
                        assert(w@[a1 - 1] == RYY);
                    }
                    assert(ryy_part(w@, a as int, i as int));
                }
            }
            a = i + 1;
        }
        i = i + 1;
    }
    if a < n && e.lookup(w.as_slice(), a, n).is_none() {
        assert(ryy_part(w@, a as int, n as int));
        return false;
    }
    assert forall|a1: int, b1: int| #[trigger] ryy_part(w@, a1, b1) && a1 < b1 implies e@.dom().contains(
        w@.subrange(a1, b1),
    ) by {
        if b1 == n {
            if a1 < a {
                assert(w@[a - 1] == RYY);
            }
            if a1 > a {
                assert(w@[a1 - 1] == RYY);
            }
        }
    }
    true
}

/// Whether `w` is removed from the expanded words held as the keys of `e`.
fn is_filtered_out(e: &Trie, w: &Vec<char>) -> (r: bool)
    requires
        e.wf(),
    ensures
        r == filtered_out(e@.dom(), w@),
{
    let n = w.len();
    if n > 1 && has_char(w, RYY) {
        assert(w@.subrange(1, n as int) =~= w@.drop_first());
        assert(w@.subrange(0, n - 1) =~= w@.drop_last());
        let leading = w[0] == RYY && e.lookup(w.as_slice(), 1, n).is_some();
        let trailing = w[n - 1] == RYY && e.lookup(w.as_slice(), 0, n - 1).is_some();
        if leading || trailing || splits_known(e, w) {
            return true;
        }
    }
    if has_char(w, REDUPLICATION) {
        return true;
    }
    n > 0 && w[0] == COENG
}

/// The word set of the lines of a word list: each trimmed line that is a
/// candidate, with its spelling variants, less the words that the filter
/// removes. Each word is listed once.
pub fn load_words(lines: &Vec<String>) -> (r: Vec<String>)
    ensures
        strings_view(r@).to_set() == word_set(strings_view(lines@)),
        strings_view(r@).no_duplicates(),
        forall|k: int| 0 <= k < r@.len() ==> (#[trigger] r@[k])@.len() > 0,
{
    let ghost ls = strings_view(lines@);
    let mut all = Trie::new();
    let mut list: Vec<Vec<char>> = Vec::new();
    assert(vecs_view(list@) =~= Seq::<Seq<char>>::empty());
    assert(all@.dom() =~= expanded_upto(ls, 0));
    let mut i: usize = 0;
    while i < lines.len()
        invariant
            ls == strings_view(lines@),
            i <= lines@.len(),
            all.wf(),
            forall|v: Seq<char>| all@.contains_key(v) <==> vecs_view(list@).contains(v),
            vecs_view(list@).no_duplicates(),
            all@.dom() == expanded_upto(ls, i as int),
        decreases lines@.len() - i,
    {
        let cps = trim(lines[i].as_str());
        let ghost before = all@.dom();
        if cps.len() > 0 && (cps.len() != 1 || is_valid_single_word(cps[0])) {
            let vars = generate_variants(&cps);
            let first = cps.clone();
            assert(first@ =~= cps@);
            add_word(&mut all, &mut list, first);
            let mut k: usize = 0;
            while k < vars.len()
                invariant
                    all.wf(),
                    forall|v: Seq<char>| all@.contains_key(v) <==> vecs_view(list@).contains(v),
                    vecs_view(list@).no_duplicates(),
                    k <= vars@.len(),
                    all@.dom() == before.insert(cps@) + vecs_view(vars@).subrange(0, k as int).to_set(),
                decreases vars@.len() - k,
            {
                let v = vars[k].clone();
                assert(v@ =~= vars@[k as int]@);
                add_word(&mut all, &mut list, v);
                assert(vecs_view(vars@).subrange(0, k + 1) =~= vecs_view(vars@).subrange(0, k as int).push(v@));
                proof {
                    vecs_view(vars@).subrange(0, k as int).lemma_push_to_set_commute(v@);
                }
                assert(all@.dom() =~= before.insert(cps@) + vecs_view(vars@).subrange(0, k + 1).to_set());
                k = k + 1;
            }
            proof {
                assert(vecs_view(vars@).subrange(0, k as int) =~= vecs_view(vars@));
                assert forall|v: Seq<char>| vecs_view(vars@).to_set().contains(v) <==> spelling_variants(cps@).contains(v) by {
                    assert(vecs_view(vars@).to_set().contains(v) <==> vecs_view(vars@).contains(v));
                }
                assert(line_words(ls[i as int]) =~= spelling_variants(cps@).insert(cps@));
            }
        } else {
            assert(line_words(ls[i as int]) =~= Set::<Seq<char>>::empty());
        }
        proof {
            assert forall|v: Seq<char>| #[trigger] expanded_upto(ls, i + 1).contains(v) <==> (before.contains(v)
                || line_words(ls[i as int]).contains(v)) by {
                if expanded_upto(ls, i + 1).contains(v) {
                    let k = choose|k: int| 0 <= k < i + 1 && #[trigger] line_words(ls[k]).contains(v);
                    if k < i {
                        assert(expanded_upto(ls, i as int).contains(v));
                    }
                }
                if before.contains(v) {
                    let k = choose|k: int| 0 <= k < i && #[trigger] line_words(ls[k]).contains(v);
                    assert(0 <= k < i + 1 && line_words(ls[k]).contains(v));
                }
                if line_words(ls[i as int]).contains(v) {
                    assert(0 <= i < i + 1 && line_words(ls[i as int]).contains(v));
                }
            }
            assert(all@.dom() =~= expanded_upto(ls, i + 1));
        }
        i = i + 1;
    }
    let ghost e = all@.dom();
    let ghost lv = vecs_view(list@);
    let mut out: Vec<String> = Vec::new();
    let mut j: usize = 0;
    while j < list.len()
        invariant
            all.wf(),
            e == all@.dom(),
            lv == vecs_view(list@),
            lv.no_duplicates(),
            j <= list@.len(),
            forall|v: Seq<char>| strings_view(out@).contains(v) <==> (exists|k: int| 0 <= k < j && #[trigger] lv[k] == v && !filtered_out(e, v)),
            strings_view(out@).no_duplicates(),
        decreases list@.len() - j,
    {
        if !is_filtered_out(&all, &list[j]) {
            let word = string_of(list[j].as_slice(), 0, list[j].len());
            assert(list@[j as int]@.subrange(0, list@[j as int]@.len() as int) =~= list@[j as int]@);
            let ghost before = strings_view(out@);
            out.push(word);
            assert(strings_view(out@) =~= before.push(lv[j as int]));
            assert forall|v: Seq<char>| strings_view(out@).contains(v) <==> (exists|k: int| 0 <= k < j + 1 && #[trigger] lv[k] == v && !filtered_out(e, v)) by {
                if strings_view(out@).contains(v) {
                    let m = choose|m: int| 0 <= m < strings_view(out@).len() && strings_view(out@)[m] == v;
                    if m < before.len() {
                        assert(before.contains(v));
                    }
                }
                if exists|k: int| 0 <= k < j + 1 && #[trigger] lv[k] == v && !filtered_out(e, v) {
                    let k = choose|k: int| 0 <= k < j + 1 && #[trigger] lv[k] == v && !filtered_out(e, v);
                    if k < j {
                        assert(before.contains(v));
                        let m = choose|m: int| 0 <= m < before.len() && before[m] == v;
                        assert(strings_view(out@)[m] == v);
                    } else {
                        assert(strings_view(out@)[before.len() as int] == v);
                    }
                }
            }
            assert(strings_view(out@).no_duplicates()) by {
                assert(!before.contains(lv[j as int])) by {
                    if before.contains(lv[j as int]) {
                        let k = choose|k: int| 0 <= k < j && #[trigger] lv[k] == lv[j as int] && !filtered_out(e, lv[j as int]);
                        assert(lv[k] == lv[j as int]);
                    }
                }
            }
        } else {
            assert forall|v: Seq<char>| strings_view(out@).contains(v) <==> (exists|k: int| 0 <= k < j + 1 && #[trigger] lv[k] == v && !filtered_out(e, v)) by {
                if exists|k: int| 0 <= k < j + 1 && #[trigger] lv[k] == v && !filtered_out(e, v) {
                    let k = choose|k: int| 0 <= k < j + 1 && #[trigger] lv[k] == v && !filtered_out(e, v);
                    assert(k < j);
                }
            }
        }
        j = j + 1;
    }
    proof {
        assert forall|v: Seq<char>| strings_view(out@).to_set().contains(v) <==> word_set(ls).contains(v) by {
            assert(strings_view(out@).to_set().contains(v) <==> strings_view(out@).contains(v));
            if e.contains(v) {
                assert(lv.contains(v));
                let k = choose|k: int| 0 <= k < lv.len() && lv[k] == v;
                assert(lv[k] == v);
            }
        }
        assert(strings_view(out@).to_set() =~= word_set(ls));
        assert forall|k: int| 0 <= k < out@.len() implies (#[trigger] out@[k])@.len() > 0 by {
            let v = out@[k]@;
            assert(strings_view(out@)[k] == v);
            assert(strings_view(out@).to_set().contains(v));
            lemma_word_nonempty(ls, v);
        }
    }
    out
}

} // verus!
