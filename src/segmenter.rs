//! The segmenter: a minimum-cost dynamic program over codepoints, followed by
//! the repair passes.
use vstd::prelude::*;
use crate::clusters::{
    acronym_length, acronym_start, cluster_length, get_acronym_length_cps,
    get_khmer_cluster_length_cps, get_number_length_cps, is_acronym_start_cps,
    lemma_cluster_length_bound, number_length,
};
use crate::codepoints::{chars_of, string_of};
use crate::constants::{
    currency_symbol, dependent_vowel, digit, is_currency_symbol, is_dependent_vowel, is_digit,
    is_khmer_char, is_separator, is_valid_single_word, khmer_char, separator, valid_single_word,
    COENG, ZERO_WIDTH_SPACE,
};
use crate::dictionary::{strings_view, Dictionary};
use crate::proofs::lemma_segmentation;
use crate::heuristics::{
    apply_heuristics_string, char_count, first_char, first_or_space, heuristics,
    post_process_unknowns_string, unknowns,
};

verus! {

/// Extra cost of the one-codepoint step forced where a token may not start.
pub const REPAIR_PENALTY: u64 = 50_000_000;

/// Cost of a number token.
pub const NUMBER_COST: u64 = 1_000_000;

/// Cost of a separator token.
pub const SEPARATOR_COST: u64 = 100_000;

/// Cost of an acronym token.
pub const ACRONYM_COST: u64 = 1_000_000;

/// Extra cost of an unknown one-codepoint cluster that is no word by itself.
pub const SINGLE_PENALTY: u64 = 10_000_000;

/// The state of the dynamic program: for each boundary `k` (after the first
/// `k` codepoints), the best cost found for reaching it and the boundary
/// that the last token starts at.
pub struct Table {
    pub cost: Seq<Option<u64>>,
    pub parent: Seq<Option<usize>>,
}

/// Offers the token `from..to` at `step` more than the cost of reaching
/// `from`; it is taken where it is strictly cheaper than the best so far.
pub open spec fn relax(t: Table, from: int, to: int, step: u64) -> Table {
    match t.cost[from] {
        None => t,
        Some(base) => {
            let c = base.saturating_add(step);
            let better = match t.cost[to] {
                None => true,
                Some(old_cost) => c < old_cost,
            };
            if better {
                Table {
                    cost: t.cost.update(to, Some(c)),
                    parent: t.parent.update(to, Some(from as usize)),
                }
            } else {
                t
            }
        },
    }
}

/// Where no token may start: after the subscript former, or at a dependent vowel.
pub open spec fn repair_gate(cps: Seq<char>, i: int) -> bool {
    (i > 0 && cps[i - 1] == COENG) || dependent_vowel(cps[i])
}

/// Where a number may start: a digit, or a currency sign before a digit.
pub open spec fn number_start(cps: Seq<char>, i: int) -> bool {
    digit(cps[i]) || (currency_symbol(cps[i]) && i + 1 < cps.len() && digit(cps[i + 1]))
}

/// Offers every known word `cps[i..j']` with `i < j' <= j`, in increasing `j'`.
pub open spec fn relax_words(words: Map<Seq<char>, u64>, cps: Seq<char>, t: Table, i: int, j: int) -> Table
    decreases j - i,
{
    if j <= i {
        t
    } else {
        let t1 = relax_words(words, cps, t, i, j - 1);
        if words.contains_key(cps.subrange(i, j)) {
            relax(t1, i, j, words[cps.subrange(i, j)])
        } else {
            t1
        }
    }
}

/// The end of the scan for known words from `i`.
pub open spec fn word_scan_end(cps: Seq<char>, i: int, max_len: nat) -> int {
    if i + max_len < cps.len() {
        i + max_len
    } else {
        cps.len() as int
    }
}

/// Length of the fallback token at `i`: the cluster there, or one codepoint
/// outside the Khmer blocks.
pub open spec fn fallback_length(cps: Seq<char>, i: int) -> int {
    if khmer_char(cps[i]) {
        cluster_length(cps, i) as int
    } else {
        1
    }
}

/// Cost of the fallback token at `i`.
pub open spec fn fallback_cost(cps: Seq<char>, i: int, unknown: u64) -> u64 {
    if khmer_char(cps[i]) && cluster_length(cps, i) == 1 && !valid_single_word(cps[i]) {
        unknown.saturating_add(SINGLE_PENALTY)
    } else {
        unknown
    }
}

/// The transitions out of boundary `i`, in the order they are offered.
pub open spec fn step(d: Dictionary, cps: Seq<char>, t: Table, i: int) -> Table {
    if t.cost[i] is None {
        t
    } else if repair_gate(cps, i) {
        relax(t, i, i + 1, d.spec_unknown_cost().saturating_add(REPAIR_PENALTY))
    } else {
        let t1 = if number_start(cps, i) && number_length(cps, i) > 0 {
            relax(t, i, i + number_length(cps, i), NUMBER_COST)
        } else {
            t
        };
        let t2 = if separator(cps[i]) {
            relax(t1, i, i + 1, SEPARATOR_COST)
        } else {
            t1
        };
        let t3 = if acronym_start(cps, i) {
            relax(t2, i, i + acronym_length(cps, i), ACRONYM_COST)
        } else {
            t2
        };
        let t4 = relax_words(d@, cps, t3, i, word_scan_end(cps, i, d.spec_max_word_length()));
        relax(t4, i, i + fallback_length(cps, i), fallback_cost(cps, i, d.spec_unknown_cost()))
    }
}

/// Boundary 0 costs nothing; no other is reached yet.
pub open spec fn initial_table(n: nat) -> Table {
    Table {
        cost: Seq::new(n + 1, |k: int| if k == 0 { Some(0u64) } else { None }),
        parent: Seq::new(n + 1, |k: int| None),
    }
}

/// The table once the boundaries before `k` have been processed.
pub open spec fn table_after(d: Dictionary, cps: Seq<char>, k: int) -> Table
    decreases k,
{
    if k <= 0 {
        initial_table(cps.len())
    } else {
        step(d, cps, table_after(d, cps, k - 1), k - 1)
    }
}

/// The tokens on the path of parents that ends at boundary `k`.
pub open spec fn backtrack(cps: Seq<char>, parent: Seq<Option<usize>>, k: int) -> Seq<Seq<char>>
    decreases k,
{
    if k <= 0 || k >= parent.len() {
        Seq::empty()
    } else {
        match parent[k] {
            Some(p) => if (p as int) < k {
                backtrack(cps, parent, p as int).push(cps.subrange(p as int, k))
            } else {
                Seq::empty()
            },
            None => Seq::empty(),
        }
    }
}

/// The tokens of the cheapest segmentation of `cps`.
pub open spec fn best_tokens(d: Dictionary, cps: Seq<char>) -> Seq<Seq<char>> {
    backtrack(cps, table_after(d, cps, cps.len() as int).parent, cps.len() as int)
}

fn relax_exec(cost: &mut Vec<Option<u64>>, parent: &mut Vec<Option<usize>>, from: usize, to: usize, step: u64)
    requires
        old(cost)@.len() == old(parent)@.len(),
        from < old(cost)@.len(),
        to < old(cost)@.len(),
    ensures
        final(cost)@.len() == old(cost)@.len(),
        final(parent)@.len() == old(parent)@.len(),
        (Table { cost: final(cost)@, parent: final(parent)@ }) == relax(
            Table { cost: old(cost)@, parent: old(parent)@ },
            from as int,
            to as int,
            step,
        ),
{
    if let Some(base) = cost[from] {
        let c = base.saturating_add(step);
        let better = match cost[to] {
            None => true,
            Some(old_cost) => c < old_cost,
        };
        if better {
            cost.set(to, Some(c));
            parent.set(to, Some(from));
        }
    }
}

/// The cheapest segmentation of `cps` under `d`, before the repair passes.
pub fn best_segmentation(d: &Dictionary, cps: &[char]) -> (r: Vec<String>)
    requires
        cps@.len() < usize::MAX,
    ensures
        strings_view(r@) == best_tokens(*d, cps@),
{
    let n = cps.len();
    let ghost s = cps@;
    let mut cost: Vec<Option<u64>> = Vec::new();
    let mut parent: Vec<Option<usize>> = Vec::new();
    let mut k: usize = 0;
    while k <= n
        invariant
            n == cps@.len(),
            n < usize::MAX,
            k <= n + 1,
            cost@.len() == k,
            parent@.len() == k,
            forall|m: int| 0 <= m < k ==> cost@[m] == initial_table(n as nat).cost[m],
            forall|m: int| 0 <= m < k ==> parent@[m] == initial_table(n as nat).parent[m],
        decreases n + 1 - k,
    {
        if k == 0 {
            cost.push(Some(0));
        } else {
            cost.push(None);
        }
        parent.push(None);
        k = k + 1;
    }
    assert(cost@ =~= initial_table(n as nat).cost);
    assert(parent@ =~= initial_table(n as nat).parent);
    let max_word_len = d.max_word_length();
    let unknown_cost = d.unknown_cost();
    let mut i: usize = 0;
    while i < n
        invariant
            n == cps@.len(),
            n < usize::MAX,
            s == cps@,
            i <= n,
            max_word_len == d.spec_max_word_length(),
            unknown_cost == d.spec_unknown_cost(),
            cost@.len() == n + 1,
            parent@.len() == n + 1,
            (Table { cost: cost@, parent: parent@ }) == table_after(*d, s, i as int),
        decreases n - i,
    {
        let ghost t0 = Table { cost: cost@, parent: parent@ };
        if cost[i].is_none() {
            i = i + 1;
            continue;
        }
        let c = cps[i];
        if (i > 0 && cps[i - 1] == COENG) || is_dependent_vowel(c) {
            relax_exec(&mut cost, &mut parent, i, i + 1, unknown_cost.saturating_add(REPAIR_PENALTY));
            i = i + 1;
            continue;
        }
        if is_digit(c) || (is_currency_symbol(c) && i + 1 < n && is_digit(cps[i + 1])) {
            let len = get_number_length_cps(cps, i);
            if len > 0 {
                relax_exec(&mut cost, &mut parent, i, i + len, NUMBER_COST);
            }
        }
        if is_separator(c) {
            relax_exec(&mut cost, &mut parent, i, i + 1, SEPARATOR_COST);
        }
        if is_acronym_start_cps(cps, i) {
            let len = get_acronym_length_cps(cps, i);
            proof {
                lemma_cluster_length_bound(s, i as int);
            }
            relax_exec(&mut cost, &mut parent, i, i + len, ACRONYM_COST);
        }
        let ghost t3 = Table { cost: cost@, parent: parent@ };
        let end_limit: usize = if max_word_len < n - i {
            i + max_word_len
        } else {
            n
        };
        let mut j: usize = i + 1;
        while j <= end_limit
            invariant
                n == cps@.len(),
                n < usize::MAX,
                s == cps@,
                i < n,
                i < j <= end_limit + 1,
                end_limit == word_scan_end(s, i as int, d.spec_max_word_length()),
                end_limit <= n,
                cost@.len() == n + 1,
                parent@.len() == n + 1,
                (Table { cost: cost@, parent: parent@ }) == relax_words(d@, s, t3, i as int, j - 1),
            decreases end_limit + 1 - j,
        {
            if let Some(word_cost) = d.lookup_codepoints(cps, i, j) {
                relax_exec(&mut cost, &mut parent, i, j, word_cost);
            }
            j = j + 1;
        }
        let len = if is_khmer_char(c) {
            get_khmer_cluster_length_cps(cps, i)
        } else {
            1
        };
        let step_cost = if is_khmer_char(c) && len == 1 && !is_valid_single_word(c) {
            unknown_cost.saturating_add(SINGLE_PENALTY)
        } else {
            unknown_cost
        };
        relax_exec(&mut cost, &mut parent, i, i + len, step_cost);
        i = i + 1;
    }
    let ghost par = parent@;
    let mut rev: Vec<String> = Vec::new();
    let mut curr: usize = n;
    loop
        invariant
            n == cps@.len(),
            s == cps@,
            par == parent@,
            parent@.len() == n + 1,
            curr <= n,
            backtrack(s, par, n as int) == backtrack(s, par, curr as int) + strings_view(
                rev@,
            ).reverse(),
        ensures
            backtrack(s, par, n as int) == strings_view(rev@).reverse(),
        decreases curr,
    {
        if curr == 0 {
            break;
        }
        match parent[curr] {
            None => {
                break;
            },
            Some(p) => {
                if p >= curr {
                    break;
                }
                let token = string_of(cps, p, curr);
                proof {
                    assert(strings_view(rev@.push(token)).reverse() =~= seq![token@] + strings_view(rev@).reverse());
                }
                rev.push(token);
                curr = p;
            },
        }
    }
    let mut out: Vec<String> = Vec::new();
    let mut m: usize = rev.len();
    while m > 0
        invariant
            m <= rev@.len(),
            strings_view(out@) == strings_view(rev@).reverse().subrange(0, rev@.len() - m),
        decreases m,
    {
        m = m - 1;
        let token = rev[m].clone();
        proof {
            assert(strings_view(out@.push(token)) =~= strings_view(out@).push(token@));
            assert(strings_view(rev@).reverse().subrange(0, rev@.len() - m) =~= strings_view(
                rev@,
            ).reverse().subrange(0, rev@.len() - m - 1).push(rev@[m as int]@));
        }
        out.push(token);
    }
    assert(strings_view(rev@).reverse().subrange(0, rev@.len() as int) =~= strings_view(rev@).reverse());
    out
}

/// A token after which, or before which, a stray codepoint stands on its own:
/// one that starts with a separator, or a lone space or zero-width space.
pub open spec fn separator_like(s: Seq<char>) -> bool {
    separator(first_or_space(s)) || s == seq![' '] || s == seq![ZERO_WIDTH_SPACE]
}

/// A one-codepoint token that is no word by itself, no digit and no separator.
pub open spec fn invalid_single(words: Map<Seq<char>, u64>, s: Seq<char>) -> bool {
    s.len() == 1 && !valid_single_word(s[0]) && !words.contains_key(s) && !digit(s[0])
        && !separator(s[0])
}

/// One step of the snapping pass: token `j` of `segs` joins `out`.
pub open spec fn snap_step(
    words: Map<Seq<char>, u64>,
    segs: Seq<Seq<char>>,
    j: int,
    out: Seq<Seq<char>>,
) -> Seq<Seq<char>> {
    let s = segs[j];
    if !invalid_single(words, s) {
        out.push(s)
    } else {
        let prev_is_sep = if out.len() > 0 {
            separator_like(out.last())
        } else {
            j == 0
        };
        let next_is_sep = if j + 1 < segs.len() {
            separator_like(segs[j + 1])
        } else {
            true
        };
        if prev_is_sep && next_is_sep {
            out.push(s)
        } else if out.len() > 0 && !separator(first_or_space(out.last())) {
            out.drop_last().push(out.last() + s)
        } else {
            out.push(s)
        }
    }
}

/// The snapping pass over the first `j` tokens of `segs`.
pub open spec fn snap_upto(words: Map<Seq<char>, u64>, segs: Seq<Seq<char>>, j: int) -> Seq<Seq<char>>
    decreases j,
{
    if j <= 0 {
        Seq::empty()
    } else {
        snap_step(words, segs, j - 1, snap_upto(words, segs, j - 1))
    }
}

/// The snapping pass: a stray single codepoint joins the token before it,
/// unless separators stand on both sides of it.
pub open spec fn snap(words: Map<Seq<char>, u64>, segs: Seq<Seq<char>>) -> Seq<Seq<char>> {
    snap_upto(words, segs, segs.len() as int)
}

/// `s` with every zero-width space removed.
pub open spec fn without_zero_width(s: Seq<char>) -> Seq<char>
    decreases s.len(),
{
    if s.len() == 0 {
        s
    } else if s.last() == ZERO_WIDTH_SPACE {
        without_zero_width(s.drop_last())
    } else {
        without_zero_width(s.drop_last()).push(s.last())
    }
}

/// The tokens that `segment` returns for `text`.
pub open spec fn segmentation(d: Dictionary, text: Seq<char>) -> Seq<Seq<char>> {
    let cps = without_zero_width(text);
    if cps.len() == 0 {
        Seq::empty()
    } else {
        unknowns(d@, heuristics(d@, snap(d@, best_tokens(d, cps))))
    }
}

/// The first codepoint of `s` (a space where it is empty) and its length.
pub fn get_first_char_and_len(s: &str) -> (r: (char, usize))
    ensures
        r.0 == first_or_space(s@),
        r.1 == s@.len(),
{
    (first_char(s), char_count(s))
}

fn is_separator_like(s: &str) -> (r: bool)
    ensures
        r == separator_like(s@),
{
    let first = first_char(s);
    let count = char_count(s);
    let r = is_separator(first) || (count == 1 && (first == ' ' || first == ZERO_WIDTH_SPACE));
    proof {
        if count == 1 {
            if first == ' ' {
                assert(s@ =~= seq![' ']);
            }
            if first == ZERO_WIDTH_SPACE {
                assert(s@ =~= seq![ZERO_WIDTH_SPACE]);
            }
        }
    }
    r
}

/// The codepoints of `text` without its zero-width spaces.
fn strip_zero_width(text: &str) -> (r: Vec<char>)
    ensures
        r@ == without_zero_width(text@),
        r@.len() <= text@.len(),
{
    let cps = chars_of(text);
    let mut r: Vec<char> = Vec::new();
    let mut i: usize = 0;
    while i < cps.len()
        invariant
            cps@ == text@,
            i <= cps@.len(),
            r@ == without_zero_width(cps@.subrange(0, i as int)),
            r@.len() <= i,
        decreases cps@.len() - i,
    {
        assert(cps@.subrange(0, i + 1).drop_last() =~= cps@.subrange(0, i as int));
        if cps[i] != ZERO_WIDTH_SPACE {
            r.push(cps[i]);
        }
        i = i + 1;
    }
    assert(cps@.subrange(0, i as int) =~= cps@);
    r
}

/// Segments Khmer text into words with a fixed dictionary.
pub struct KhmerSegmenter {
    dictionary: Dictionary,
}

impl KhmerSegmenter {
    /// The dictionary that this segmenter reads.
    pub closed spec fn dictionary(&self) -> Dictionary {
        self.dictionary
    }

    pub fn new(dictionary: Dictionary) -> (r: KhmerSegmenter)
        ensures
            r.dictionary() == dictionary,
    {
        KhmerSegmenter { dictionary }
    }

    /// The word tokens of `text`. Zero-width spaces are dropped; the tokens,
    /// joined, give back the rest of `text`, and none is empty.
    pub fn segment(&self, text: &str) -> (r: Vec<String>)
        requires
            text@.len() < usize::MAX,
        ensures
            strings_view(r@) == segmentation(self.dictionary(), text@),
            strings_view(r@).flatten() == without_zero_width(text@),
            forall|k: int| 0 <= k < r@.len() ==> (#[trigger] r@[k])@.len() > 0,
    {
        let cps = strip_zero_width(text);
        let r = self.segment_raw(&cps);
        proof {
            lemma_segmentation(self.dictionary, text@);
            assert forall|k: int| 0 <= k < r@.len() implies (#[trigger] r@[k])@.len() > 0 by {
                assert(strings_view(r@)[k] == r@[k]@);
            }
        }
        r
    }

    fn segment_raw(&self, cps: &Vec<char>) -> (r: Vec<String>)
        requires
            cps@.len() < usize::MAX,
        ensures
            strings_view(r@) == (if cps@.len() == 0 {
                Seq::empty()
            } else {
                unknowns(
                    self.dictionary@,
                    heuristics(
                        self.dictionary@,
                        snap(self.dictionary@, best_tokens(self.dictionary, cps@)),
                    ),
                )
            }),
    {
        if cps.len() == 0 {
            let r: Vec<String> = Vec::new();
            assert(strings_view(r@) =~= Seq::<Seq<char>>::empty());
            return r;
        }
        let segments = best_segmentation(&self.dictionary, cps.as_slice());
        let pass1_segments = self.snap_invalid_single_consonants_fast(&segments);
        let pass2_segments = apply_heuristics_string(pass1_segments, &self.dictionary);
        post_process_unknowns_string(pass2_segments, &self.dictionary)
    }

    /// The snapping pass over `segments`.
    fn snap_invalid_single_consonants_fast(&self, segments: &Vec<String>) -> (r: Vec<String>)
        ensures
            strings_view(r@) == snap(self.dictionary@, strings_view(segments@)),
    {
        let ghost segs = strings_view(segments@);
        let mut out: Vec<String> = Vec::new();
        assert(strings_view(out@) =~= Seq::<Seq<char>>::empty());
        let n = segments.len();
        let mut j: usize = 0;
        while j < n
            invariant
                n == segments@.len(),
                segs == strings_view(segments@),
                j <= n,
                strings_view(out@) == snap_upto(self.dictionary@, segs, j as int),
            decreases n - j,
        {
            let seg = &segments[j];
            let (first, seg_len) = get_first_char_and_len(seg.as_str());
            let is_invalid_single = seg_len == 1 && !is_valid_single_word(first)
                && !self.dictionary.contains(seg.as_str()) && !is_digit(first) && !is_separator(
                first,
            );
            let ghost before = strings_view(out@);
            if is_invalid_single {
                let prev_is_sep = if out.len() > 0 {
                    is_separator_like(out[out.len() - 1].as_str())
                } else {
                    j == 0
                };
                let next_is_sep = if j + 1 < n {
                    is_separator_like(segments[j + 1].as_str())
                } else {
                    true
                };
                if prev_is_sep && next_is_sep {
                    let t = seg.clone();
                    assert(strings_view(out@.push(t)) =~= before.push(seg@));
                    out.push(t);
                } else if out.len() > 0 && !is_separator(first_char(out[out.len() - 1].as_str())) {
                    let prev = out.pop().unwrap();
                    let joined = prev.concat(seg.as_str());
                    assert(strings_view(out@.push(joined)) =~= before.drop_last().push(
                        before.last() + seg@,
                    ));
                    out.push(joined);
                } else {
                    let t = seg.clone();
                    assert(strings_view(out@.push(t)) =~= before.push(seg@));
                    out.push(t);
                }
            } else {
                let t = seg.clone();
                assert(strings_view(out@.push(t)) =~= before.push(seg@));
                out.push(t);
            }
            j = j + 1;
        }
        out
    }
}

} // verus!
