//! Frequency counts: the floor, the spread of a count to the spelling
//! variants of its word, and the total that costs are taken against.
use vstd::prelude::*;
use crate::codepoints::{chars_of, string_of};
use crate::dictionary::{pairs_view, DEFAULT_COST, UNKNOWN_COST};
use crate::trie::Trie;
use crate::variants::{generate_variants, spelling_variants, vecs_view};

verus! {

/// The least count a word is taken to have.
pub const MIN_FREQUENCY: u64 = 5;

/// How much more an unknown cluster costs than the rarest word.
pub const UNKNOWN_MARGIN: u64 = 5_000_000;

/// A raw count with the floor applied.
pub open spec fn floored(c: u64) -> u64 {
    if c < MIN_FREQUENCY {
        MIN_FREQUENCY
    } else {
        c
    }
}

/// The effective counts after the first `k` entries: an entry sets the count
/// of its word and gives the same count to each spelling variant of it that
/// has none yet.
pub open spec fn counts_upto(s: Seq<(Seq<char>, u64)>, k: int) -> Map<Seq<char>, u64>
    decreases k,
{
    if k <= 0 {
        Map::empty()
    } else {
        let m = counts_upto(s, k - 1).insert(s[k - 1].0, floored(s[k - 1].1));
        let eff = floored(s[k - 1].1);
        Map::new(
            |v: Seq<char>| m.contains_key(v) || spelling_variants(s[k - 1].0).contains(v),
            |v: Seq<char>|
                if m.contains_key(v) {
                    m[v]
                } else {
                    eff
                },
        )
    }
}

/// The sum of the first `k` floored counts.
pub open spec fn total_upto(s: Seq<(Seq<char>, u64)>, k: int) -> int
    decreases k,
{
    if k <= 0 {
        0
    } else {
        total_upto(s, k - 1) + floored(s[k - 1].1)
    }
}

/// Stores `count` for `x` where it has none yet, or in any case where
/// `overwrite` holds, keeping `list` the list of keys.
fn set_count(counts: &mut Trie, list: &mut Vec<Vec<char>>, x: &Vec<char>, count: u64, overwrite: bool)
    requires
        old(counts).wf(),
        forall|v: Seq<char>| old(counts)@.contains_key(v) <==> vecs_view(old(list)@).contains(v),
        vecs_view(old(list)@).no_duplicates(),
    ensures
        final(counts).wf(),
        final(counts)@ == (if overwrite || !old(counts)@.contains_key(x@) {
            old(counts)@.insert(x@, count)
        } else {
            old(counts)@
        }),
        forall|v: Seq<char>| final(counts)@.contains_key(v) <==> vecs_view(final(list)@).contains(v),
        vecs_view(final(list)@).no_duplicates(),
{
    assert(x@.subrange(0, x@.len() as int) =~= x@);
    let present = counts.lookup(x.as_slice(), 0, x.len()).is_some();
    if !present {
        counts.insert(x.as_slice(), count);
        let ghost before = vecs_view(list@);
        let key = x.clone();
        assert(key@ =~= x@);
        list.push(key);
        assert(vecs_view(list@) =~= before.push(x@));
        assert forall|v: Seq<char>| counts@.contains_key(v) <==> vecs_view(list@).contains(v) by {
            if v == x@ {
                assert(vecs_view(list@)[before.len() as int] == x@);
            } else {
                if vecs_view(list@).contains(v) {
                    let k = choose|k: int| 0 <= k < vecs_view(list@).len() && vecs_view(list@)[k] == v;
                    assert(before[k] == v);
                }
                if counts@.contains_key(v) {
                    let k = choose|k: int| 0 <= k < before.len() && before[k] == v;
                    assert(vecs_view(list@)[k] == v);
                }
            }
        }
    } else if overwrite {
        counts.insert(x.as_slice(), count);
        assert forall|v: Seq<char>| counts@.contains_key(v) <==> vecs_view(list@).contains(v) by {
            assert(counts@.contains_key(v) <==> old(counts)@.contains_key(v));
        }
    }
}

/// The effective count of every word that the frequency entries name or
/// reach through spelling variants, each listed once, and the sum of the
/// floored counts of the entries.
pub fn effective_counts(frequencies: &Vec<(String, u64)>) -> (r: (Vec<(String, u64)>, u128))
    ensures
        r.1 == total_upto(pairs_view(frequencies@), frequencies@.len() as int),
        forall|k: int|
            0 <= k < r.0@.len() ==> counts_upto(pairs_view(frequencies@), frequencies@.len() as int).contains_key(
                #[trigger] r.0@[k].0@,
            ) && r.0@[k].1 == counts_upto(pairs_view(frequencies@), frequencies@.len() as int)[r.0@[k].0@],
        forall|w: Seq<char>|
            #[trigger] counts_upto(pairs_view(frequencies@), frequencies@.len() as int).contains_key(w)
                ==> exists|k: int| 0 <= k < r.0@.len() && r.0@[k].0@ == w,
        forall|a: int, b: int| 0 <= a < b < r.0@.len() ==> r.0@[a].0@ != r.0@[b].0@,
{
    let ghost s = pairs_view(frequencies@);
    let mut counts = Trie::new();
    let mut list: Vec<Vec<char>> = Vec::new();
    let mut total: u128 = 0;
    assert(vecs_view(list@) =~= Seq::<Seq<char>>::empty());
    let mut i: usize = 0;
    while i < frequencies.len()
        invariant
            s == pairs_view(frequencies@),
            i <= frequencies@.len(),
            counts.wf(),
            forall|v: Seq<char>| counts@.contains_key(v) <==> vecs_view(list@).contains(v),
            vecs_view(list@).no_duplicates(),
            counts@ == counts_upto(s, i as int),
            total == total_upto(s, i as int),
            total <= i * 18446744073709551615,
        decreases frequencies@.len() - i,
    {
        let word = chars_of(frequencies[i].0.as_str());
        let raw = frequencies[i].1;
        let eff = if raw < MIN_FREQUENCY {
            MIN_FREQUENCY
        } else {
            raw
        };
        set_count(&mut counts, &mut list, &word, eff, true);
        let ghost m = counts@;
        let vars = generate_variants(&word);
        let mut k: usize = 0;
        while k < vars.len()
            invariant
                counts.wf(),
                forall|v: Seq<char>| counts@.contains_key(v) <==> vecs_view(list@).contains(v),
                vecs_view(list@).no_duplicates(),
                k <= vars@.len(),
                forall|v: Seq<char>| #[trigger] counts@.contains_key(v) <==> (m.contains_key(v)
                    || vecs_view(vars@).subrange(0, k as int).contains(v)),
                forall|v: Seq<char>| #[trigger] counts@.contains_key(v) ==> counts@[v] == (if m.contains_key(v) { m[v] } else { eff }),
            decreases vars@.len() - k,
        {
            set_count(&mut counts, &mut list, &vars[k], eff, false);
            proof {
                let sub = vecs_view(vars@).subrange(0, k as int);
                assert(vecs_view(vars@).subrange(0, k + 1) =~= sub.push(vars@[k as int]@));
                assert forall|v: Seq<char>| #[trigger] counts@.contains_key(v) <==> (m.contains_key(v)
                    || vecs_view(vars@).subrange(0, k + 1).contains(v)) by {
                    if sub.contains(v) {
                        let j = choose|j: int| 0 <= j < sub.len() && sub[j] == v;
                        assert(vecs_view(vars@).subrange(0, k + 1)[j] == v);
                    }
                    let sub1 = vecs_view(vars@).subrange(0, k + 1);
                    if sub1.contains(v) && v != vars@[k as int]@ {
                        let j = choose|j: int| 0 <= j < sub1.len() && sub1[j] == v;
                        assert(sub[j] == v);
                    }
                    if v == vars@[k as int]@ {
                        assert(vecs_view(vars@).subrange(0, k + 1)[k as int] == v);
                    }
                }
            }
            k = k + 1;
        }
        proof {
            assert(vecs_view(vars@).subrange(0, k as int) =~= vecs_view(vars@));
            assert(counts@ =~= counts_upto(s, i + 1));
        }
        total = total + eff as u128;
        i = i + 1;
    }
    let ghost m = counts@;
    let ghost lv = vecs_view(list@);
    let mut out: Vec<(String, u64)> = Vec::new();
    let mut j: usize = 0;
    while j < list.len()
        invariant
            counts.wf(),
            m == counts@,
            s == pairs_view(frequencies@),
            m == counts_upto(s, frequencies@.len() as int),
            total == total_upto(s, frequencies@.len() as int),
            lv == vecs_view(list@),
            forall|v: Seq<char>| m.contains_key(v) <==> lv.contains(v),
            lv.no_duplicates(),
            j <= list@.len(),
            out@.len() == j,
            forall|k: int| 0 <= k < j ==> (#[trigger] out@[k]).0@ == lv[k] && out@[k].1 == m[lv[k]],
        decreases list@.len() - j,
    {
        let key = &list[j];
        assert(key@.subrange(0, key@.len() as int) =~= key@);
        assert(lv[j as int] == key@);
        assert(lv.contains(key@));
        let count = match counts.lookup(key.as_slice(), 0, key.len()) {
            Some(c) => c,
            None => 0,
        };
        out.push((string_of(key.as_slice(), 0, key.len()), count));
        j = j + 1;
    }
    proof {
        assert forall|w: Seq<char>|
            #[trigger] counts_upto(pairs_view(frequencies@), frequencies@.len() as int).contains_key(w)
            implies exists|k: int| 0 <= k < out@.len() && out@[k].0@ == w by {
            assert(m.contains_key(w));
            assert(lv.contains(w));
            let k = choose|k: int| 0 <= k < lv.len() && lv[k] == w;
            assert(lv.len() == out@.len());
            assert(out@[k].0@ == w);
        }
        assert forall|k: int| 0 <= k < out@.len() implies m.contains_key(#[trigger] out@[k].0@) by {
            assert(lv.contains(lv[k]));
        }
    }
    let r = (out, total);
    assert(r.0@ == out@);
    r
}

/// The default cost and the unknown cost. With no counts at all they are
/// fixed; otherwise the default cost is `floor_cost`, the cost of a word seen
/// `MIN_FREQUENCY` times, and an unknown cluster costs `UNKNOWN_MARGIN` more.
pub fn base_costs(total: u128, floor_cost: u64) -> (r: (u64, u64))
    ensures
        total == 0 ==> r == (DEFAULT_COST, UNKNOWN_COST),
        total > 0 ==> r == (floor_cost, floor_cost.saturating_add(UNKNOWN_MARGIN)),
{
    if total == 0 {
        (DEFAULT_COST, UNKNOWN_COST)
    } else {
        (floor_cost, floor_cost.saturating_add(UNKNOWN_MARGIN))
    }
}

} // verus!
