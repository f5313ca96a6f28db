//! What holds of every segmentation: the tokens cover the text, none is
//! empty, and the result depends on the text and the dictionary alone.
use vstd::prelude::*;
use crate::clusters::{
    acronym_length, acronym_start, lemma_acronym_length_bound,
    lemma_cluster_length_bound, lemma_number_length_bound, number_length,
};
use crate::constants::{separator, ZERO_WIDTH_SPACE};
use crate::dictionary::Dictionary;
use crate::heuristics::{
    flush, heuristics, heuristics_from, known_token, merges_with_next, merges_with_previous,
    unknowns, unknowns_from,
};
use crate::segmenter::{
    backtrack, best_tokens, fallback_cost, fallback_length, number_start, relax, relax_words,
    repair_gate, segmentation, snap, snap_step, snap_upto, step, table_after, without_zero_width,
    word_scan_end, Table, ACRONYM_COST, NUMBER_COST, REPAIR_PENALTY, SEPARATOR_COST,
};

verus! {

/// A table for `n` codepoints in which every reached boundary but the first
/// has a parent, an earlier reached boundary.
pub open spec fn table_inv(t: Table, n: int) -> bool {
    &&& t.cost.len() == n + 1
    &&& t.parent.len() == n + 1
    &&& t.cost[0] is Some
    &&& forall|k: int| 1 <= k <= n ==> (#[trigger] t.cost[k] is Some <==> t.parent[k] is Some)
    &&& forall|k: int|
        1 <= k <= n && (#[trigger] t.parent[k]) is Some ==> (t.parent[k]->0 as int) < k
            && t.cost[t.parent[k]->0 as int] is Some
}

/// `u` keeps every boundary that `t` reached.
pub open spec fn keeps_reached(t: Table, u: Table) -> bool {
    forall|k: int| 0 <= k < t.cost.len() && (#[trigger] t.cost[k]) is Some ==> u.cost[k] is Some
}

proof fn lemma_relax(t: Table, n: int, from: int, to: int, c: u64)
    requires
        table_inv(t, n),
        0 <= from < to <= n,
        n <= usize::MAX,
    ensures
        table_inv(relax(t, from, to, c), n),
        keeps_reached(t, relax(t, from, to, c)),
        t.cost[from] is Some ==> relax(t, from, to, c).cost[to] is Some,
{
    let u = relax(t, from, to, c);
    if let Some(base) = t.cost[from] {
        let c2 = base.saturating_add(c);
        let better = match t.cost[to] {
            None => true,
            Some(old_cost) => c2 < old_cost,
        };
        if better {
            assert(u.cost == t.cost.update(to, Some(c2)));
            assert(u.parent == t.parent.update(to, Some(from as usize)));
            assert forall|k: int|
                1 <= k <= n && (#[trigger] u.parent[k]) is Some implies (u.parent[k]->0 as int)
                < k && u.cost[u.parent[k]->0 as int] is Some by {
                if k != to {
                    assert(t.parent[k] is Some);
                    let p = t.parent[k]->0 as int;
                    assert(t.cost[p] is Some);
                    if p != to {
                        assert(u.cost[p] == t.cost[p]);
                    }
                }
            }
        }
    }
}

proof fn lemma_relax_words(words: Map<Seq<char>, u64>, cps: Seq<char>, t: Table, i: int, j: int)
    requires
        table_inv(t, cps.len() as int),
        0 <= i,
        j <= cps.len(),
        cps.len() <= usize::MAX,
    ensures
        table_inv(relax_words(words, cps, t, i, j), cps.len() as int),
        keeps_reached(t, relax_words(words, cps, t, i, j)),
    decreases j - i,
{
    if j > i {
        let t1 = relax_words(words, cps, t, i, j - 1);
        lemma_relax_words(words, cps, t, i, j - 1);
        if words.contains_key(cps.subrange(i, j)) {
            lemma_relax(t1, cps.len() as int, i, j, words[cps.subrange(i, j)]);
        }
    }
}

proof fn lemma_step(d: Dictionary, cps: Seq<char>, t: Table, i: int)
    requires
        table_inv(t, cps.len() as int),
        0 <= i < cps.len(),
        cps.len() <= usize::MAX,
    ensures
        table_inv(step(d, cps, t, i), cps.len() as int),
        keeps_reached(t, step(d, cps, t, i)),
        t.cost[i] is Some ==> exists|m: int|
            i < m <= cps.len() && (#[trigger] step(d, cps, t, i).cost[m]) is Some,
{
    let n = cps.len() as int;
    if t.cost[i] is Some {
        if repair_gate(cps, i) {
            let u = step(d, cps, t, i);
            lemma_relax(t, n, i, i + 1, d.spec_unknown_cost().saturating_add(
                REPAIR_PENALTY,
            ));
            assert(u.cost[i + 1] is Some);
        } else {
            let t1 = if number_start(cps, i) && number_length(cps, i) > 0 {
                relax(t, i, i + number_length(cps, i), NUMBER_COST)
            } else {
                t
            };
            if number_start(cps, i) && number_length(cps, i) > 0 {
                lemma_number_length_bound(cps, i);
                lemma_relax(t, n, i, i + number_length(cps, i), NUMBER_COST);
            }
            let t2 = if separator(cps[i]) {
                relax(t1, i, i + 1, SEPARATOR_COST)
            } else {
                t1
            };
            if separator(cps[i]) {
                lemma_relax(t1, n, i, i + 1, SEPARATOR_COST);
            }
            let t3 = if acronym_start(cps, i) {
                relax(t2, i, i + acronym_length(cps, i), ACRONYM_COST)
            } else {
                t2
            };
            if acronym_start(cps, i) {
                lemma_cluster_length_bound(cps, i);
                lemma_acronym_length_bound(cps, i);
                lemma_relax(t2, n, i, i + acronym_length(cps, i), ACRONYM_COST);
            }
            let e = word_scan_end(cps, i, d.spec_max_word_length());
            let t4 = relax_words(d@, cps, t3, i, e);
            lemma_relax_words(d@, cps, t3, i, e);
            lemma_cluster_length_bound(cps, i);
            let len = fallback_length(cps, i);
            lemma_relax(t4, n, i, i + len, fallback_cost(cps, i, d.spec_unknown_cost()));
            assert(step(d, cps, t, i).cost[i + len] is Some);
        }
    }
}

proof fn lemma_table_after(d: Dictionary, cps: Seq<char>, k: int)
    requires
        0 <= k <= cps.len(),
        cps.len() <= usize::MAX,
    ensures
        table_inv(table_after(d, cps, k), cps.len() as int),
        exists|f: int| k <= f <= cps.len() && (#[trigger] table_after(d, cps, k).cost[f]) is Some,
    decreases k,
{
    let n = cps.len() as int;
    if k == 0 {
        assert(table_after(d, cps, 0).cost[0] is Some);
    } else {
        lemma_table_after(d, cps, k - 1);
        let t = table_after(d, cps, k - 1);
        lemma_step(d, cps, t, k - 1);
        let f = choose|f: int| k - 1 <= f <= n && (#[trigger] t.cost[f]) is Some;
        if f >= k {
            assert(table_after(d, cps, k).cost[f] is Some);
        } else {
            let m = choose|m: int|
                k - 1 < m <= n && (#[trigger] step(d, cps, t, k - 1).cost[m]) is Some;
            assert(table_after(d, cps, k).cost[m] is Some);
        }
    }
}

proof fn lemma_backtrack(cps: Seq<char>, t: Table, k: int)
    requires
        table_inv(t, cps.len() as int),
        0 <= k <= cps.len(),
        t.cost[k] is Some,
    ensures
        backtrack(cps, t.parent, k).flatten() == cps.subrange(0, k),
        forall|m: int|
            0 <= m < backtrack(cps, t.parent, k).len() ==> #[trigger] backtrack(
                cps,
                t.parent,
                k,
            )[m].len() > 0,
    decreases k,
{
    if k == 0 {
        assert(cps.subrange(0, 0) =~= Seq::<char>::empty());
    } else {
        let p = t.parent[k]->0 as int;
        lemma_backtrack(cps, t, p);
        let b = backtrack(cps, t.parent, p);
        b.lemma_flatten_push(cps.subrange(p, k));
        assert(cps.subrange(0, p) + cps.subrange(p, k) =~= cps.subrange(0, k));
    }
}

/// The tokens of the cheapest segmentation cover `cps` exactly, and none is empty.
pub proof fn lemma_best_tokens(d: Dictionary, cps: Seq<char>)
    requires
        cps.len() <= usize::MAX,
    ensures
        best_tokens(d, cps).flatten() == cps,
        forall|m: int|
            0 <= m < best_tokens(d, cps).len() ==> #[trigger] best_tokens(d, cps)[m].len() > 0,
{
    let n = cps.len() as int;
    lemma_table_after(d, cps, n);
    let t = table_after(d, cps, n);
    lemma_backtrack(cps, t, n);
    assert(cps.subrange(0, n) =~= cps);
}

/// No token of `s` is empty.
pub open spec fn all_nonempty(s: Seq<Seq<char>>) -> bool {
    forall|m: int| 0 <= m < s.len() ==> #[trigger] s[m].len() > 0
}

proof fn lemma_flatten_merge_last(out: Seq<Seq<char>>, s: Seq<char>)
    requires
        out.len() > 0,
    ensures
        out.drop_last().push(out.last() + s).flatten() == out.flatten() + s,
{
    let init = out.drop_last();
    init.lemma_flatten_push(out.last() + s);
    init.lemma_flatten_push(out.last());
    assert(init.push(out.last()) =~= out);
    assert(init.flatten() + (out.last() + s) =~= (init.flatten() + out.last()) + s);
}

proof fn lemma_flatten_from(segs: Seq<Seq<char>>, i: int)
    requires
        0 <= i < segs.len(),
    ensures
        segs.subrange(i, segs.len() as int).flatten() == segs[i] + segs.subrange(
            i + 1,
            segs.len() as int,
        ).flatten(),
{
    let r = segs.subrange(i, segs.len() as int);
    assert(r.drop_first() =~= segs.subrange(i + 1, segs.len() as int));
}

proof fn lemma_snap_upto(words: Map<Seq<char>, u64>, segs: Seq<Seq<char>>, j: int)
    requires
        0 <= j <= segs.len(),
    ensures
        snap_upto(words, segs, j).flatten() == segs.subrange(0, j).flatten(),
        all_nonempty(segs) ==> all_nonempty(snap_upto(words, segs, j)),
    decreases j,
{
    if j == 0 {
        assert(segs.subrange(0, 0) =~= Seq::<Seq<char>>::empty());
    } else {
        lemma_snap_upto(words, segs, j - 1);
        let out = snap_upto(words, segs, j - 1);
        let s = segs[j - 1];
        assert(segs.subrange(0, j) =~= segs.subrange(0, j - 1).push(s));
        segs.subrange(0, j - 1).lemma_flatten_push(s);
        out.lemma_flatten_push(s);
        if out.len() > 0 {
            lemma_flatten_merge_last(out, s);
        }
        let r = snap_step(words, segs, j - 1, out);
        if all_nonempty(segs) {
            assert(s.len() > 0);
            assert forall|m: int| 0 <= m < r.len() implies #[trigger] r[m].len() > 0 by {
                if m < out.len() {
                    assert(out[m].len() > 0);
                }
            }
        }
    }
}

proof fn lemma_heuristics_from(
    words: Map<Seq<char>, u64>,
    segs: Seq<Seq<char>>,
    i: int,
    out: Seq<Seq<char>>,
)
    requires
        0 <= i <= segs.len(),
    ensures
        heuristics_from(words, segs, i, out).flatten() == out.flatten() + segs.subrange(
            i,
            segs.len() as int,
        ).flatten(),
        all_nonempty(segs) && all_nonempty(out) ==> all_nonempty(
            heuristics_from(words, segs, i, out),
        ),
    decreases segs.len() - i,
{
    let n = segs.len() as int;
    if i == n {
        assert(segs.subrange(n, n) =~= Seq::<Seq<char>>::empty());
        assert(out.flatten() + Seq::<char>::empty() =~= out.flatten());
    } else {
        let s = segs[i];
        lemma_flatten_from(segs, i);
        let rest = segs.subrange(i + 1, n).flatten();
        let next = if words.contains_key(s) {
            out.push(s)
        } else if out.len() > 0 && merges_with_previous(s) {
            out.drop_last().push(out.last() + s)
        } else if i + 1 < n && merges_with_next(s) {
            out.push(s + segs[i + 1])
        } else {
            out.push(s)
        };
        let ni = if !words.contains_key(s) && !(out.len() > 0
            && merges_with_previous(s)) && i + 1 < n
            && merges_with_next(s) {
            i + 2
        } else {
            i + 1
        };
        assert(heuristics_from(words, segs, i, out) == heuristics_from(words, segs, ni, next));
        lemma_heuristics_from(words, segs, ni, next);
        out.lemma_flatten_push(s);
        if out.len() > 0 {
            lemma_flatten_merge_last(out, s);
        }
        if ni == i + 2 {
            lemma_flatten_from(segs, i + 1);
            out.lemma_flatten_push(s + segs[i + 1]);
            assert(out.flatten() + (s + segs[i + 1]) + segs.subrange(i + 2, n).flatten()
                =~= out.flatten() + (s + (segs[i + 1] + segs.subrange(i + 2, n).flatten())));
        } else {
            assert(next.flatten() + rest =~= out.flatten() + (s + rest));
        }
        if all_nonempty(segs) && all_nonempty(out) {
            assert(s.len() > 0);
            assert forall|m: int| 0 <= m < next.len() implies #[trigger] next[m].len() > 0 by {
                if m < out.len() {
                    assert(out[m].len() > 0);
                }
            }
        }
    }
}

proof fn lemma_unknowns_from(
    words: Map<Seq<char>, u64>,
    segs: Seq<Seq<char>>,
    i: int,
    out: Seq<Seq<char>>,
    buf: Seq<Seq<char>>,
)
    requires
        0 <= i <= segs.len(),
    ensures
        unknowns_from(words, segs, i, out, buf).flatten() == out.flatten() + buf.flatten()
            + segs.subrange(i, segs.len() as int).flatten(),
        all_nonempty(segs) && all_nonempty(out) && all_nonempty(buf) ==> all_nonempty(
            unknowns_from(words, segs, i, out, buf),
        ),
    decreases segs.len() - i,
{
    let n = segs.len() as int;
    let f = flush(out, buf);
    out.lemma_flatten_push(buf.flatten());
    assert(f.flatten() =~= out.flatten() + buf.flatten()) by {
        if buf.len() == 0 {
            assert(buf.flatten() =~= Seq::<char>::empty());
        }
    }
    if all_nonempty(out) && all_nonempty(buf) {
        assert forall|m: int| 0 <= m < f.len() implies #[trigger] f[m].len() > 0 by {
            if m < out.len() {
                assert(out[m].len() > 0);
            } else {
                assert(buf[0].len() > 0);
                assert(buf.flatten() == buf[0] + buf.drop_first().flatten());
            }
        }
    }
    if i == n {
        assert(segs.subrange(n, n) =~= Seq::<Seq<char>>::empty());
        assert(f.flatten() + Seq::<char>::empty() =~= f.flatten());
    } else {
        let s = segs[i];
        lemma_flatten_from(segs, i);
        let rest = segs.subrange(i + 1, n).flatten();
        if known_token(words, s) {
            lemma_unknowns_from(words, segs, i + 1, f.push(s), Seq::empty());
            f.lemma_flatten_push(s);
            assert(Seq::<Seq<char>>::empty().flatten() =~= Seq::<char>::empty());
            assert(f.push(s).flatten() + Seq::<char>::empty() + rest =~= out.flatten()
                + buf.flatten() + (s + rest));
            if all_nonempty(segs) && all_nonempty(out) && all_nonempty(buf) {
                assert(s.len() > 0);
                assert forall|m: int| 0 <= m < f.push(s).len() implies #[trigger] f.push(s)[m].len()
                    > 0 by {
                    if m < f.len() {
                        assert(f[m].len() > 0);
                    }
                }
            }
        } else {
            lemma_unknowns_from(words, segs, i + 1, out, buf.push(s));
            buf.lemma_flatten_push(s);
            assert(out.flatten() + buf.push(s).flatten() + rest =~= out.flatten() + buf.flatten()
                + (s + rest));
            if all_nonempty(segs) && all_nonempty(buf) {
                assert(s.len() > 0);
                assert forall|m: int| 0 <= m < buf.push(s).len() implies #[trigger] buf.push(
                    s,
                )[m].len() > 0 by {
                    if m < buf.len() {
                        assert(buf[m].len() > 0);
                    }
                }
            }
        }
    }
}

/// The repair passes keep the text of a token list and keep its tokens non-empty.
pub proof fn lemma_passes(words: Map<Seq<char>, u64>, segs: Seq<Seq<char>>)
    ensures
        unknowns(words, heuristics(words, snap(words, segs))).flatten() == segs.flatten(),
        all_nonempty(segs) ==> all_nonempty(unknowns(words, heuristics(words, snap(words, segs)))),
{
    let n = segs.len() as int;
    lemma_snap_upto(words, segs, n);
    assert(segs.subrange(0, n) =~= segs);
    let a = snap(words, segs);
    lemma_heuristics_from(words, a, 0, Seq::empty());
    assert(a.subrange(0, a.len() as int) =~= a);
    assert(Seq::<Seq<char>>::empty().flatten() =~= Seq::<char>::empty());
    assert(Seq::<char>::empty() + a.flatten() =~= a.flatten());
    let b = heuristics(words, a);
    lemma_unknowns_from(words, b, 0, Seq::empty(), Seq::empty());
    assert(b.subrange(0, b.len() as int) =~= b);
    assert(Seq::<char>::empty() + Seq::<char>::empty() + b.flatten() =~= b.flatten());
}

/// The tokens of a segmentation, joined, give back the text without its
/// zero-width spaces, and none of them is empty.
pub proof fn lemma_segmentation(d: Dictionary, text: Seq<char>)
    requires
        text.len() < usize::MAX,
    ensures
        segmentation(d, text).flatten() == without_zero_width(text),
        all_nonempty(segmentation(d, text)),
{
    let cps = without_zero_width(text);
    lemma_without_zero_width(text);
    if cps.len() == 0 {
        assert(Seq::<Seq<char>>::empty().flatten() =~= cps);
    } else {
        lemma_best_tokens(d, cps);
        lemma_passes(d@, best_tokens(d, cps));
    }
}

/// Removing zero-width spaces leaves none, and never lengthens the text.
pub proof fn lemma_without_zero_width(s: Seq<char>)
    ensures
        !without_zero_width(s).contains(ZERO_WIDTH_SPACE),
        without_zero_width(s).len() <= s.len(),
        without_zero_width(without_zero_width(s)) == without_zero_width(s),
    decreases s.len(),
{
    if s.len() > 0 {
        let w = without_zero_width(s.drop_last());
        lemma_without_zero_width(s.drop_last());
        if s.last() != ZERO_WIDTH_SPACE {
            let x = w.push(s.last());
            assert(x.drop_last() =~= w);
            assert forall|k: int| 0 <= k < x.len() implies x[k] != ZERO_WIDTH_SPACE by {
                if k < w.len() {
                    assert(x[k] == w[k]);
                }
            }
        }
    }
}

/// Segmenting a text gives what segmenting it with its zero-width spaces
/// already removed gives.
pub proof fn lemma_zero_width_stripping(d: Dictionary, text: Seq<char>)
    ensures
        segmentation(d, text) == segmentation(d, without_zero_width(text)),
{
    lemma_without_zero_width(text);
}

proof fn lemma_same_table(d1: Dictionary, d2: Dictionary, cps: Seq<char>, k: int)
    requires
        d1@ == d2@,
        d1.spec_max_word_length() == d2.spec_max_word_length(),
        d1.spec_unknown_cost() == d2.spec_unknown_cost(),
    ensures
        table_after(d1, cps, k) == table_after(d2, cps, k),
    decreases k,
{
    if k > 0 {
        lemma_same_table(d1, d2, cps, k - 1);
    }
}

/// The segmentation of a text is fixed by the text and by what the dictionary
/// holds: its words and their costs, the word-length bound and the unknown cost.
pub proof fn lemma_segmentation_deterministic(d1: Dictionary, d2: Dictionary, text: Seq<char>)
    requires
        d1@ == d2@,
        d1.spec_max_word_length() == d2.spec_max_word_length(),
        d1.spec_unknown_cost() == d2.spec_unknown_cost(),
    ensures
        segmentation(d1, text) == segmentation(d2, text),
{
    let cps = without_zero_width(text);
    lemma_same_table(d1, d2, cps, cps.len() as int);
}

/// Every token that starts where no token may start is one codepoint long.
pub open spec fn repair_steps_short(t: Table, cps: Seq<char>) -> bool {
    forall|k: int|
        1 <= k < t.parent.len() && (#[trigger] t.parent[k]) is Some && repair_gate(
            cps,
            t.parent[k]->0 as int,
        ) ==> k == t.parent[k]->0 + 1
}

proof fn lemma_relax_short(t: Table, cps: Seq<char>, from: int, to: int, c: u64)
    requires
        table_inv(t, cps.len() as int),
        repair_steps_short(t, cps),
        0 <= from < to <= cps.len(),
        cps.len() <= usize::MAX,
        repair_gate(cps, from) ==> to == from + 1,
    ensures
        repair_steps_short(relax(t, from, to, c), cps),
{
    let u = relax(t, from, to, c);
    if let Some(base) = t.cost[from] {
        let c2 = base.saturating_add(c);
        let better = match t.cost[to] {
            None => true,
            Some(old_cost) => c2 < old_cost,
        };
        if better {
            assert(u.parent == t.parent.update(to, Some(from as usize)));
            assert forall|k: int|
                1 <= k < u.parent.len() && (#[trigger] u.parent[k]) is Some && repair_gate(
                    cps,
                    u.parent[k]->0 as int,
                ) implies k == u.parent[k]->0 + 1 by {
                if k != to {
                    assert(u.parent[k] == t.parent[k]);
                }
            }
        }
    }
}

proof fn lemma_relax_words_short(d: Dictionary, cps: Seq<char>, t: Table, i: int, j: int)
    requires
        table_inv(t, cps.len() as int),
        repair_steps_short(t, cps),
        0 <= i,
        !repair_gate(cps, i),
        j <= cps.len(),
        cps.len() <= usize::MAX,
    ensures
        repair_steps_short(relax_words(d@, cps, t, i, j), cps),
    decreases j - i,
{
    if j > i {
        let t1 = relax_words(d@, cps, t, i, j - 1);
        lemma_relax_words_short(d, cps, t, i, j - 1);
        lemma_relax_words(d@, cps, t, i, j - 1);
        if d@.contains_key(cps.subrange(i, j)) {
            lemma_relax_short(t1, cps, i, j, d@[cps.subrange(i, j)]);
        }
    }
}

proof fn lemma_step_short(d: Dictionary, cps: Seq<char>, t: Table, i: int)
    requires
        table_inv(t, cps.len() as int),
        repair_steps_short(t, cps),
        0 <= i < cps.len(),
        cps.len() <= usize::MAX,
    ensures
        repair_steps_short(step(d, cps, t, i), cps),
{
    let n = cps.len() as int;
    if t.cost[i] is Some {
        if repair_gate(cps, i) {
            lemma_relax_short(t, cps, i, i + 1, d.spec_unknown_cost().saturating_add(
                REPAIR_PENALTY,
            ));
        } else {
            let t1 = if number_start(cps, i) && number_length(cps, i) > 0 {
                relax(t, i, i + number_length(cps, i), NUMBER_COST)
            } else {
                t
            };
            if number_start(cps, i) && number_length(cps, i) > 0 {
                lemma_number_length_bound(cps, i);
                lemma_relax(t, n, i, i + number_length(cps, i), NUMBER_COST);
                lemma_relax_short(t, cps, i, i + number_length(cps, i), NUMBER_COST);
            }
            let t2 = if separator(cps[i]) {
                relax(t1, i, i + 1, SEPARATOR_COST)
            } else {
                t1
            };
            if separator(cps[i]) {
                lemma_relax(t1, n, i, i + 1, SEPARATOR_COST);
                lemma_relax_short(t1, cps, i, i + 1, SEPARATOR_COST);
            }
            let t3 = if acronym_start(cps, i) {
                relax(t2, i, i + acronym_length(cps, i), ACRONYM_COST)
            } else {
                t2
            };
            if acronym_start(cps, i) {
                lemma_cluster_length_bound(cps, i);
                lemma_acronym_length_bound(cps, i);
                lemma_relax(t2, n, i, i + acronym_length(cps, i), ACRONYM_COST);
                lemma_relax_short(t2, cps, i, i + acronym_length(cps, i), ACRONYM_COST);
            }
            let e = word_scan_end(cps, i, d.spec_max_word_length());
            let t4 = relax_words(d@, cps, t3, i, e);
            lemma_relax_words(d@, cps, t3, i, e);
            lemma_relax_words_short(d, cps, t3, i, e);
            lemma_cluster_length_bound(cps, i);
            let len = fallback_length(cps, i);
            lemma_relax_short(t4, cps, i, i + len, fallback_cost(cps, i, d.spec_unknown_cost()));
        }
    }
}

/// In the table of the cheapest segmentation, a token that starts where no
/// token may start (right after the subscript former, or at a dependent
/// vowel) is exactly one codepoint long.
pub proof fn lemma_repair_tokens_are_single(d: Dictionary, cps: Seq<char>, k: int)
    requires
        0 <= k <= cps.len(),
        cps.len() <= usize::MAX,
    ensures
        repair_steps_short(table_after(d, cps, k), cps),
    decreases k,
{
    if k > 0 {
        lemma_repair_tokens_are_single(d, cps, k - 1);
        lemma_table_after(d, cps, k - 1);
        lemma_step_short(d, cps, table_after(d, cps, k - 1), k - 1);
    }
}

} // verus!
