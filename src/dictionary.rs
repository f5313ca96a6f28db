//! The lexicon: the known words, each with its unigram cost, and the costs
//! charged for words that are not in it.
use vstd::prelude::*;
use crate::codepoints::chars_of;
use crate::trie::Trie;
use crate::wordlist::{load_words, word_set};

verus! {

/// Cost of a known word that has no frequency entry, where no frequencies are given.
pub const DEFAULT_COST: u64 = 10_000_000;

/// Cost of an unknown cluster, where no frequencies are given.
pub const UNKNOWN_COST: u64 = 20_000_000;

/// The views of `(word, cost)` pairs.
pub open spec fn pairs_view(s: Seq<(String, u64)>) -> Seq<(Seq<char>, u64)> {
    s.map_values(|p: (String, u64)| (p.0@, p.1))
}

/// The views of a list of strings.
pub open spec fn strings_view(s: Seq<String>) -> Seq<Seq<char>> {
    s.map_values(|x: String| x@)
}

/// The costs of the first `k` pairs of `s`; a word listed twice keeps its first cost.
pub open spec fn first_costs(s: Seq<(Seq<char>, u64)>, k: int) -> Map<Seq<char>, u64>
    decreases k,
{
    if k <= 0 {
        Map::empty()
    } else {
        let m = first_costs(s, k - 1);
        if m.contains_key(s[k - 1].0) {
            m
        } else {
            m.insert(s[k - 1].0, s[k - 1].1)
        }
    }
}

/// The lexicon that `Dictionary::new` builds: every listed word, with its
/// cost where one is given and `default_cost` otherwise.
pub open spec fn lexicon(
    words: Seq<Seq<char>>,
    costs: Seq<(Seq<char>, u64)>,
    default_cost: u64,
) -> Map<Seq<char>, u64> {
    let given = first_costs(costs, costs.len() as int);
    Map::new(
        |w: Seq<char>| words.contains(w),
        |w: Seq<char>|
            if given.contains_key(w) {
                given[w]
            } else {
                default_cost
            },
    )
}

/// An immutable lexicon with codepoint-keyed lookup. Costs are fixed-point
/// numbers: one unit is a millionth of the negative base-ten logarithm of a
/// word's probability.
pub struct Dictionary {
    trie: Trie,
    max_word_length: usize,
    default_cost: u64,
    unknown_cost: u64,
}

impl Dictionary {
    #[verifier::type_invariant]
    spec fn inv(&self) -> bool {
        &&& self.trie.wf()
        &&& forall|w: Seq<char>| #[trigger]
            self.trie@.contains_key(w) ==> 0 < w.len() <= self.max_word_length && self.trie@[w]
                <= self.default_cost
        &&& self.default_cost < self.unknown_cost
    }

    /// The known words, each with its cost.
    pub closed spec fn view(&self) -> Map<Seq<char>, u64> {
        self.trie@
    }

    /// The bound on the codepoint length of a known word.
    pub closed spec fn spec_max_word_length(&self) -> nat {
        self.max_word_length as nat
    }

    /// The cost of an unknown cluster.
    pub closed spec fn spec_unknown_cost(&self) -> u64 {
        self.unknown_cost
    }

    /// The cost that a known word without its own cost takes.
    pub closed spec fn spec_default_cost(&self) -> u64 {
        self.default_cost
    }

    /// Builds the lexicon of `words`. A word takes its cost from the first pair
    /// of `costs` that names it, or `default_cost` where none does. Pairs that
    /// name no listed word are ignored. No word is empty, no given cost exceeds
    /// the default cost, and an unknown cluster costs more than any word.
    pub fn new(words: &Vec<String>, costs: &Vec<(String, u64)>, default_cost: u64, unknown_cost: u64) -> (r: Dictionary)
        requires
            forall|k: int| 0 <= k < words@.len() ==> (#[trigger] words@[k])@.len() > 0,
            forall|k: int| 0 <= k < costs@.len() ==> (#[trigger] costs@[k]).1 <= default_cost,
            default_cost < unknown_cost,
        ensures
            r@ == lexicon(strings_view(words@), pairs_view(costs@), default_cost),
            forall|w: Seq<char>| #[trigger] r@.contains_key(w) ==> w.len() <= r.spec_max_word_length(),
            r.spec_max_word_length() == 0 || exists|w: Seq<char>|
                #[trigger] r@.contains_key(w) && w.len() == r.spec_max_word_length(),
            r.spec_default_cost() == default_cost,
            r.spec_unknown_cost() == unknown_cost,
    {
        let mut given = Trie::new();
        let ghost cs = pairs_view(costs@);
        let mut i: usize = 0;
        while i < costs.len()
            invariant
                given.wf(),
                i <= costs@.len(),
                cs == pairs_view(costs@),
                given@ == first_costs(cs, i as int),
                forall|k: int| 0 <= k < costs@.len() ==> (#[trigger] costs@[k]).1 <= default_cost,
                forall|w: Seq<char>| #[trigger] given@.contains_key(w) ==> given@[w] <= default_cost,
            decreases costs@.len() - i,
        {
            let cps = chars_of(costs[i].0.as_str());
            if given.lookup(cps.as_slice(), 0, cps.len()).is_none() {
                assert(cps@.subrange(0, cps@.len() as int) =~= cps@);
                given.insert(cps.as_slice(), costs[i].1);
            } else {
                assert(cps@.subrange(0, cps@.len() as int) =~= cps@);
            }
            i = i + 1;
        }
        let ghost ws = strings_view(words@);
        let ghost lex = lexicon(ws, cs, default_cost);
        let mut trie = Trie::new();
        let mut max_len: usize = 0;
        let mut j: usize = 0;
        while j < words.len()
            invariant
                trie.wf(),
                given.wf(),
                j <= words@.len(),
                ws == strings_view(words@),
                lex == lexicon(ws, cs, default_cost),
                given@ == first_costs(cs, cs.len() as int),
                trie@ == lex.restrict(ws.subrange(0, j as int).to_set()),
                forall|w: Seq<char>| #[trigger] trie@.contains_key(w) ==> w.len() <= max_len,
                forall|k: int| 0 <= k < words@.len() ==> (#[trigger] words@[k])@.len() > 0,
                forall|w: Seq<char>| #[trigger] given@.contains_key(w) ==> given@[w] <= default_cost,
                forall|w: Seq<char>| #[trigger] trie@.contains_key(w) ==> w.len() > 0 && trie@[w]
                    <= default_cost,
                max_len == 0 || exists|w: Seq<char>|
                    #[trigger] trie@.contains_key(w) && w.len() == max_len,
            decreases words@.len() - j,
        {
            let cps = chars_of(words[j].as_str());
            assert(cps@.subrange(0, cps@.len() as int) =~= cps@);
            assert(words@[j as int]@.len() > 0);
            let cost = match given.lookup(cps.as_slice(), 0, cps.len()) {
                Some(c) => c,
                None => default_cost,
            };
            let ghost before = trie@;
            let ghost old_max = max_len;
            trie.insert(cps.as_slice(), cost);
            if cps.len() > max_len {
                max_len = cps.len();
            }
            proof {
                if max_len == cps@.len() {
                    assert(trie@.contains_key(cps@));
                } else if old_max > 0 {
                    let v = choose|v: Seq<char>| #[trigger] before.contains_key(v) && v.len() == old_max;
                    assert(trie@.contains_key(v));
                }
                assert(ws[j as int] == cps@);
                assert(ws.contains(cps@));
                assert(ws.subrange(0, j + 1).to_set() =~= ws.subrange(0, j as int).to_set().insert(cps@)) by {
                    assert(ws.subrange(0, j + 1) =~= ws.subrange(0, j as int).push(cps@));
                    ws.subrange(0, j as int).lemma_push_to_set_commute(cps@);
                }
                assert(trie@ =~= lex.restrict(ws.subrange(0, j + 1).to_set()));
            }
            j = j + 1;
        }
        proof {
            assert(ws.subrange(0, j as int) =~= ws);
            assert forall|w: Seq<char>| ws.contains(w) <==> ws.to_set().contains(w) by {}
            assert(trie@ =~= lex);
        }
        let r = Dictionary { trie, max_word_length: max_len, default_cost, unknown_cost };
        proof {
            if max_len > 0 {
                let v = choose|v: Seq<char>| #[trigger] r.trie@.contains_key(v) && v.len() == max_len;
                assert(r@.contains_key(v));
            }
        }
        r
    }

    /// The lexicon of a word list read without frequencies: every word of
    /// `load_words(lines)` at `DEFAULT_COST`, and `UNKNOWN_COST` for unknown clusters.
    pub fn from_word_list(lines: &Vec<String>) -> (r: Dictionary)
        ensures
            r@.dom() == word_set(strings_view(lines@)),
            forall|w: Seq<char>| #[trigger] r@.contains_key(w) ==> r@[w] == DEFAULT_COST,
            forall|w: Seq<char>| #[trigger] r@.contains_key(w) ==> w.len() <= r.spec_max_word_length(),
            r.spec_max_word_length() == 0 || exists|w: Seq<char>|
                #[trigger] r@.contains_key(w) && w.len() == r.spec_max_word_length(),
            r.spec_default_cost() == DEFAULT_COST,
            r.spec_unknown_cost() == UNKNOWN_COST,
    {
        let words = load_words(lines);
        let costs: Vec<(String, u64)> = Vec::new();
        let r = Dictionary::new(&words, &costs, DEFAULT_COST, UNKNOWN_COST);
        proof {
            let ws = strings_view(words@);
            assert(pairs_view(costs@) =~= Seq::<(Seq<char>, u64)>::empty());
            assert forall|w: Seq<char>| r@.dom().contains(w) <==> word_set(strings_view(lines@)).contains(w) by {
                assert(ws.to_set().contains(w) <==> ws.contains(w));
            }
            assert(r@.dom() =~= word_set(strings_view(lines@)));
        }
        r
    }

    /// The cost of `cps[start..end]` where it is a known word, else `None`.
    pub fn lookup_codepoints(&self, cps: &[char], start: usize, end: usize) -> (r: Option<u64>)
        requires
            start <= end <= cps@.len(),
        ensures
            start == end ==> r is None,
            r matches Some(c) ==> c <= self.spec_default_cost(),
            r == (if self@.contains_key(cps@.subrange(start as int, end as int)) {
                Some(self@[cps@.subrange(start as int, end as int)])
            } else {
                None
            }),
    {
        proof {
            use_type_invariant(self);
        }
        self.trie.lookup(cps, start, end)
    }

    /// Whether `word` is a known word.
    pub fn contains(&self, word: &str) -> (r: bool)
        ensures
            r == self@.contains_key(word@),
    {
        let cps = chars_of(word);
        assert(cps@.subrange(0, cps@.len() as int) =~= cps@);
        self.lookup_codepoints(cps.as_slice(), 0, cps.len()).is_some()
    }

    /// The cost of `word`: its own where it is known, else the unknown cost.
    pub fn get_word_cost(&self, word: &str) -> (r: u64)
        ensures
            r == (if self@.contains_key(word@) {
                self@[word@]
            } else {
                self.spec_unknown_cost()
            }),
            self@.contains_key(word@) ==> r <= self.spec_default_cost(),
            self.spec_default_cost() < self.spec_unknown_cost(),
    {
        proof {
            use_type_invariant(self);
        }
        let cps = chars_of(word);
        assert(cps@.subrange(0, cps@.len() as int) =~= cps@);
        match self.lookup_codepoints(cps.as_slice(), 0, cps.len()) {
            Some(c) => c,
            None => self.unknown_cost,
        }
    }

    /// The longest known word, in codepoints.
    pub fn max_word_length(&self) -> (r: usize)
        ensures
            r == self.spec_max_word_length(),
    {
        self.max_word_length
    }

    /// The cost that a known word without its own cost takes.
    pub fn default_cost(&self) -> (r: u64)
        ensures
            r == self.spec_default_cost(),
    {
        self.default_cost
    }

    /// The cost of an unknown cluster.
    pub fn unknown_cost(&self) -> (r: u64)
        ensures
            r == self.spec_unknown_cost(),
    {
        self.unknown_cost
    }
}

} // verus!
