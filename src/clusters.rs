//! Lengths of the units that the segmenter never splits: orthographic
//! clusters, numbers and dotted acronyms.
use vstd::prelude::*;
use crate::constants::{
    consonant, dependent_vowel, digit, is_coeng, is_consonant, is_dependent_vowel, is_digit,
    is_sign, sign, COENG,
};

verus! {

/// Codepoints swallowed into a cluster from position `i` on: subscript pairs
/// (the subscript former and a consonant), dependent vowels and signs.
pub open spec fn cluster_tail(cps: Seq<char>, i: int) -> nat
    decreases cps.len() - i,
{
    if i < 0 || i >= cps.len() {
        0
    } else if cps[i] == COENG {
        if i + 1 < cps.len() && consonant(cps[i + 1]) {
            2 + cluster_tail(cps, i + 2)
        } else {
            0
        }
    } else if dependent_vowel(cps[i]) || sign(cps[i]) {
        1 + cluster_tail(cps, i + 1)
    } else {
        0
    }
}

/// Whether `c` can start a cluster: a base consonant or an independent vowel.
pub open spec fn cluster_base(c: char) -> bool {
    0x1780 <= c as u32 <= 0x17B3
}

/// The length of the cluster at `start`: one codepoint unless it starts with a
/// cluster base, which takes its tail along.
pub open spec fn cluster_length(cps: Seq<char>, start: int) -> nat {
    if start < 0 || start >= cps.len() {
        0
    } else if !cluster_base(cps[start]) {
        1
    } else {
        1 + cluster_tail(cps, start + 1)
    }
}

/// Codepoints that a number takes on from position `i`: digits, and a comma,
/// dot or space where a digit follows it.
pub open spec fn number_tail(cps: Seq<char>, i: int) -> nat
    decreases cps.len() - i,
{
    if i < 0 || i >= cps.len() {
        0
    } else if digit(cps[i]) {
        1 + number_tail(cps, i + 1)
    } else if (cps[i] == ',' || cps[i] == '.' || cps[i] == ' ') && i + 1 < cps.len() && digit(
        cps[i + 1],
    ) {
        2 + number_tail(cps, i + 2)
    } else {
        0
    }
}

/// The length of the number at `start`, or 0 where no digit stands there.
pub open spec fn number_length(cps: Seq<char>, start: int) -> nat {
    if start < 0 || start >= cps.len() || !digit(cps[start]) {
        0
    } else {
        1 + number_tail(cps, start + 1)
    }
}

/// Whether a cluster followed by a dot starts at `start`.
pub open spec fn acronym_start(cps: Seq<char>, start: int) -> bool {
    0 <= start < cps.len() && start + cluster_length(cps, start) < cps.len() && cps[start
        + cluster_length(cps, start)] == '.'
}

/// The length of the run of (cluster, dot) groups from `start`.
pub open spec fn acronym_length(cps: Seq<char>, start: int) -> nat
    decreases cps.len() - start,
{
    if acronym_start(cps, start) {
        cluster_length(cps, start) + 1 + acronym_length(
            cps,
            start + cluster_length(cps, start) + 1,
        )
    } else {
        0
    }
}

pub proof fn lemma_cluster_tail_bound(cps: Seq<char>, i: int)
    requires
        0 <= i,
    ensures
        i + cluster_tail(cps, i) <= cps.len() || cluster_tail(cps, i) == 0,
    decreases cps.len() - i,
{
    if 0 <= i < cps.len() {
        if cps[i] == COENG {
            if i + 1 < cps.len() && consonant(cps[i + 1]) {
                lemma_cluster_tail_bound(cps, i + 2);
            }
        } else if dependent_vowel(cps[i]) || sign(cps[i]) {
            lemma_cluster_tail_bound(cps, i + 1);
        }
    }
}

/// A cluster starting inside the text ends inside it, and is not empty.
pub proof fn lemma_cluster_length_bound(cps: Seq<char>, start: int)
    requires
        0 <= start < cps.len(),
    ensures
        1 <= cluster_length(cps, start),
        start + cluster_length(cps, start) <= cps.len(),
{
    lemma_cluster_tail_bound(cps, start + 1);
}

proof fn lemma_number_tail_bound(cps: Seq<char>, i: int)
    requires
        0 <= i,
    ensures
        i + number_tail(cps, i) <= cps.len() || number_tail(cps, i) == 0,
    decreases cps.len() - i,
{
    if 0 <= i < cps.len() {
        if digit(cps[i]) {
            lemma_number_tail_bound(cps, i + 1);
        } else if (cps[i] == ',' || cps[i] == '.' || cps[i] == ' ') && i + 1 < cps.len()
            && digit(cps[i + 1]) {
            lemma_number_tail_bound(cps, i + 2);
        }
    }
}

/// A number starting inside the text ends inside it.
pub proof fn lemma_number_length_bound(cps: Seq<char>, start: int)
    requires
        0 <= start < cps.len(),
    ensures
        start + number_length(cps, start) <= cps.len(),
{
    lemma_number_tail_bound(cps, start + 1);
}

/// An acronym starting inside the text ends inside it.
pub proof fn lemma_acronym_length_bound(cps: Seq<char>, start: int)
    requires
        0 <= start,
    ensures
        start + acronym_length(cps, start) <= cps.len() || acronym_length(cps, start) == 0,
    decreases cps.len() - start,
{
    if acronym_start(cps, start) {
        lemma_cluster_length_bound(cps, start);
        lemma_acronym_length_bound(cps, start + cluster_length(cps, start) + 1);
    }
}

/// The length of the cluster at `start`, 0 where `start` is past the end.
pub fn get_khmer_cluster_length_cps(cps: &[char], start: usize) -> (r: usize)
    ensures
        r == cluster_length(cps@, start as int),
        start < cps@.len() ==> 1 <= r && start + r <= cps@.len(),
{
    if start >= cps.len() {
        return 0;
    }
    let code = cps[start] as u32;
    if !(code >= 0x1780 && code <= 0x17B3) {
        return 1;
    }
    let mut i: usize = start + 1;
    while i < cps.len()
        invariant
            start < i <= cps@.len(),
            cluster_tail(cps@, start + 1) == (i - start - 1) + cluster_tail(cps@, i as int),
        ensures
            start < i <= cps@.len(),
            cluster_tail(cps@, start + 1) == (i - start - 1) + cluster_tail(cps@, i as int),
            cluster_tail(cps@, i as int) == 0,
        decreases cps@.len() - i,
    {
        let c = cps[i];
        if is_coeng(c) {
            if i + 1 < cps.len() && is_consonant(cps[i + 1]) {
                i = i + 2;
                continue;
            }
            assert(cluster_tail(cps@, i as int) == 0);
            break;
        }
        if is_dependent_vowel(c) || is_sign(c) {
            i = i + 1;
            continue;
        }
        assert(cluster_tail(cps@, i as int) == 0);
        break;
    }
    i - start
}

/// The length of the number at `start`: digits, each comma, dot or space
/// between two digits, up to the last digit. 0 where no digit stands at `start`.
pub fn get_number_length_cps(cps: &[char], start: usize) -> (r: usize)
    ensures
        r == number_length(cps@, start as int),
        start < cps@.len() ==> start + r <= cps@.len(),
{
    if start >= cps.len() {
        return 0;
    }
    if !is_digit(cps[start]) {
        return 0;
    }
    let mut i: usize = start + 1;
    while i < cps.len()
        invariant
            start < i <= cps@.len(),
            number_tail(cps@, start + 1) == (i - start - 1) + number_tail(cps@, i as int),
        ensures
            start < i <= cps@.len(),
            number_tail(cps@, start + 1) == (i - start - 1) + number_tail(cps@, i as int),
            number_tail(cps@, i as int) == 0,
        decreases cps@.len() - i,
    {
        let c = cps[i];
        if is_digit(c) {
            i = i + 1;
            continue;
        }
        if c == ',' || c == '.' || c == ' ' {
            if i + 1 < cps.len() && is_digit(cps[i + 1]) {
                i = i + 2;
                continue;
            }
        }
        assert(number_tail(cps@, i as int) == 0);
        break;
    }
    i - start
}

/// Whether a cluster followed by a dot starts at `start`.
pub fn is_acronym_start_cps(cps: &[char], start: usize) -> (r: bool)
    ensures
        r == acronym_start(cps@, start as int),
{
    if start >= cps.len() {
        return false;
    }
    let cluster_len = get_khmer_cluster_length_cps(cps, start);
    let dot_index = start + cluster_len;
    if dot_index >= cps.len() {
        return false;
    }
    cps[dot_index] == '.'
}

/// The length of the run of (cluster, dot) groups from `start`.
pub fn get_acronym_length_cps(cps: &[char], start: usize) -> (r: usize)
    ensures
        r == acronym_length(cps@, start as int),
        r == 0 || start + r <= cps@.len(),
{
    let n = cps.len();
    let mut current: usize = start;
    proof {
        lemma_acronym_length_bound(cps@, start as int);
    }
    loop
        invariant
            start <= current,
            n == cps@.len(),
            current <= cps@.len() || current == start,
            acronym_length(cps@, start as int) == (current - start) + acronym_length(
                cps@,
                current as int,
            ),
        ensures
            start <= current,
            current <= cps@.len() || current == start,
            acronym_length(cps@, start as int) == (current - start),
        decreases cps@.len() - current,
    {
        if !is_acronym_start_cps(cps, current) {
            break;
        }
        let cluster_len = get_khmer_cluster_length_cps(cps, current);
        current = current + cluster_len + 1;
    }
    current - start
}

} // verus!
