//! Orthographic spelling variants of a word: the subscript TA / DA swap and
//! the two orders of a subscript RO next to another subscript.
use vstd::prelude::*;
use crate::constants::COENG;

verus! {

/// The consonant TA, which the subscript former turns into subscript TA.
pub const TA: char = '\u{178F}';

/// The consonant DA.
pub const DA: char = '\u{178D}';

/// The consonant RO.
pub const RO: char = '\u{179A}';

/// Whether `w` holds the subscript pair (the subscript former, `c`).
pub open spec fn has_subscript(w: Seq<char>, c: char) -> bool {
    exists|i: int| #[trigger] subscript_at(w, i, c)
}

/// Whether the subscript pair (the subscript former, `c`) starts at `i` in `w`.
pub open spec fn subscript_at(w: Seq<char>, i: int, c: char) -> bool {
    0 <= i && i + 1 < w.len() && w[i] == COENG && w[i + 1] == c
}

/// `w` from `i` on, with every subscript `from` written as subscript `to`.
pub open spec fn swap_subscript_from(w: Seq<char>, i: int, from: char, to: char) -> Seq<char>
    decreases w.len() - i,
{
    if i < 0 || i >= w.len() {
        Seq::empty()
    } else if i + 1 < w.len() && w[i] == COENG && w[i + 1] == from {
        seq![COENG, to] + swap_subscript_from(w, i + 2, from, to)
    } else {
        seq![w[i]] + swap_subscript_from(w, i + 1, from, to)
    }
}

/// `w` with every subscript `from` written as subscript `to`.
pub open spec fn swap_subscript(w: Seq<char>, from: char, to: char) -> Seq<char> {
    swap_subscript_from(w, 0, from, to)
}

/// Whether the four codepoints of `w` from `i` are a subscript RO followed by
/// another subscript (`ro_first`), or another subscript followed by a
/// subscript RO (`!ro_first`).
pub open spec fn ro_pattern(w: Seq<char>, i: int, ro_first: bool) -> bool {
    &&& 0 <= i
    &&& i + 3 < w.len()
    &&& w[i] == COENG
    &&& w[i + 2] == COENG
    &&& if ro_first {
        w[i + 1] == RO && w[i + 3] != RO
    } else {
        w[i + 1] != RO && w[i + 3] == RO
    }
}

/// `w` from `i` on, with each pattern found scanning left to right swapped in
/// its two halves; the scan resumes after a swapped pattern.
pub open spec fn reorder_ro_from(w: Seq<char>, i: int, ro_first: bool) -> Seq<char>
    decreases w.len() - i,
{
    if i < 0 || i >= w.len() {
        Seq::empty()
    } else if ro_pattern(w, i, ro_first) {
        seq![w[i + 2], w[i + 3], w[i], w[i + 1]] + reorder_ro_from(w, i + 4, ro_first)
    } else {
        seq![w[i]] + reorder_ro_from(w, i + 1, ro_first)
    }
}

/// Whether the scan of `reorder_ro_from` swaps anything.
pub open spec fn reorders_ro_from(w: Seq<char>, i: int, ro_first: bool) -> bool
    decreases w.len() - i,
{
    if i < 0 || i >= w.len() {
        false
    } else if ro_pattern(w, i, ro_first) {
        true
    } else {
        reorders_ro_from(w, i + 1, ro_first)
    }
}

/// The subscript TA / DA variants of `w`.
pub open spec fn ta_da_variants(w: Seq<char>) -> Set<Seq<char>> {
    let a = if has_subscript(w, TA) {
        set![swap_subscript(w, TA, DA)]
    } else {
        Set::empty()
    };
    let b = if has_subscript(w, DA) {
        set![swap_subscript(w, DA, TA)]
    } else {
        Set::empty()
    };
    a + b
}

/// The subscript RO reorderings of `b` in one direction, if it has any.
pub open spec fn ro_variants(b: Seq<char>, ro_first: bool) -> Set<Seq<char>> {
    if reorders_ro_from(b, 0, ro_first) {
        set![reorder_ro_from(b, 0, ro_first)]
    } else {
        Set::empty()
    }
}

/// The spelling variants of `w`: its TA / DA variants, and the RO reorderings
/// of `w` and of each TA / DA variant.
pub open spec fn spelling_variants(w: Seq<char>) -> Set<Seq<char>> {
    let t = ta_da_variants(w);
    let base = t.insert(w);
    t + Set::new(
        |v: Seq<char>|
            exists|b: Seq<char>| #[trigger]
                base.contains(b) && (ro_variants(b, true).contains(v) || ro_variants(
                    b,
                    false,
                ).contains(v)),
    )
}

proof fn lemma_swap_subscript_len(w: Seq<char>, i: int, from: char, to: char)
    requires
        0 <= i <= w.len(),
    ensures
        swap_subscript_from(w, i, from, to).len() == w.len() - i,
    decreases w.len() - i,
{
    if i < w.len() {
        if i + 1 < w.len() && w[i] == COENG && w[i + 1] == from {
            lemma_swap_subscript_len(w, i + 2, from, to);
        } else {
            lemma_swap_subscript_len(w, i + 1, from, to);
        }
    }
}

proof fn lemma_reorder_ro_len(w: Seq<char>, i: int, ro_first: bool)
    requires
        0 <= i <= w.len(),
    ensures
        reorder_ro_from(w, i, ro_first).len() == w.len() - i,
    decreases w.len() - i,
{
    if i < w.len() {
        if ro_pattern(w, i, ro_first) {
            lemma_reorder_ro_len(w, i + 4, ro_first);
        } else {
            lemma_reorder_ro_len(w, i + 1, ro_first);
        }
    }
}

/// A spelling variant is as long as the word it comes from.
pub proof fn lemma_variant_length(w: Seq<char>, v: Seq<char>)
    requires
        spelling_variants(w).contains(v),
    ensures
        v.len() == w.len(),
{
    let a = swap_subscript(w, TA, DA);
    let b = swap_subscript(w, DA, TA);
    lemma_swap_subscript_len(w, 0, TA, DA);
    lemma_swap_subscript_len(w, 0, DA, TA);
    let t = ta_da_variants(w);
    let base = t.insert(w);
    if !t.contains(v) {
        let bb = choose|bb: Seq<char>| #[trigger]
            base.contains(bb) && (ro_variants(bb, true).contains(v) || ro_variants(
                bb,
                false,
            ).contains(v));
        assert(bb.len() == w.len());
        lemma_reorder_ro_len(bb, 0, true);
        lemma_reorder_ro_len(bb, 0, false);
    }
}

/// The views of a list of codepoint vectors.
pub open spec fn vecs_view(s: Seq<Vec<char>>) -> Seq<Seq<char>> {
    s.map_values(|x: Vec<char>| x@)
}

/// `w` with every subscript `from` written as subscript `to`, and whether
/// there was any.
fn swap_subscripts(w: &Vec<char>, from: char, to: char) -> (r: (Vec<char>, bool))
    ensures
        r.0@ == swap_subscript(w@, from, to),
        r.1 == has_subscript(w@, from),
{
    let n = w.len();
    let mut out: Vec<char> = Vec::new();
    let mut found = false;
    let mut i: usize = 0;
    while i < n
        invariant
            n == w@.len(),
            i <= n,
            swap_subscript(w@, from, to) == out@ + swap_subscript_from(w@, i as int, from, to),
            found ==> has_subscript(w@, from),
            !found ==> forall|k: int| 0 <= k < i ==> !subscript_at(w@, k, from),
        decreases n - i,
    {
        if n - i > 1 && w[i] == COENG && w[i + 1] == from {
            assert(subscript_at(w@, i as int, from));
            out.push(COENG);
            out.push(to);
            found = true;
            i = i + 2;
            assert(out@ =~= out@.subrange(0, out@.len() - 2) + seq![COENG, to]);
        } else {
            out.push(w[i]);
            i = i + 1;
        }
        assert(swap_subscript(w@, from, to) =~= out@ + swap_subscript_from(w@, i as int, from, to));
    }
    (out, found)
}

/// The scan of `reorder_ro_from` over the whole of `w`, and whether it swapped anything.
fn reorder_ro(w: &Vec<char>, ro_first: bool) -> (r: (Vec<char>, bool))
    ensures
        r.0@ == reorder_ro_from(w@, 0, ro_first),
        r.1 == reorders_ro_from(w@, 0, ro_first),
{
    let n = w.len();
    let mut out: Vec<char> = Vec::new();
    let mut modified = false;
    let mut i: usize = 0;
    while i < n
        invariant
            n == w@.len(),
            i <= n,
            reorder_ro_from(w@, 0, ro_first) == out@ + reorder_ro_from(w@, i as int, ro_first),
            reorders_ro_from(w@, 0, ro_first) == (modified || reorders_ro_from(w@, i as int, ro_first)),
        decreases n - i,
    {
        let hit = n - i > 3 && w[i] == COENG && w[i + 2] == COENG && if ro_first {
            w[i + 1] == RO && w[i + 3] != RO
        } else {
            w[i + 1] != RO && w[i + 3] == RO
        };
        if hit {
            let ghost before = out@;
            out.push(w[i + 2]);
            out.push(w[i + 3]);
            out.push(w[i]);
            out.push(w[i + 1]);
            modified = true;
            assert(out@ =~= before + seq![w@[i + 2], w@[i + 3], w@[i as int], w@[i + 1]]);
            i = i + 4;
        } else {
            out.push(w[i]);
            i = i + 1;
        }
        assert(reorder_ro_from(w@, 0, ro_first) =~= out@ + reorder_ro_from(w@, i as int, ro_first));
    }
    (out, modified)
}

/// The RO reorderings of `b`, in both directions, as a list.
pub open spec fn ro_list(b: Seq<char>) -> Seq<Seq<char>> {
    let x = if reorders_ro_from(b, 0, true) {
        seq![reorder_ro_from(b, 0, true)]
    } else {
        Seq::empty()
    };
    let y = if reorders_ro_from(b, 0, false) {
        seq![reorder_ro_from(b, 0, false)]
    } else {
        Seq::empty()
    };
    x + y
}

fn push_ro_variants(out: &mut Vec<Vec<char>>, b: &Vec<char>)
    ensures
        vecs_view(final(out)@) == vecs_view(old(out)@) + ro_list(b@),
{
    let ghost start = vecs_view(out@);
    let (r1, m1) = reorder_ro(b, true);
    let (r2, m2) = reorder_ro(b, false);
    if m1 {
        out.push(r1);
    }
    if m2 {
        out.push(r2);
    }
    assert(vecs_view(out@) =~= start + ro_list(b@));
}

#[verifier::rlimit(40)]
proof fn lemma_variant_list(w: Seq<char>, tlist: Seq<Seq<char>>, a: Seq<char>, b: Seq<char>, has_ta: bool, has_da: bool)
    requires
        forall|v: Seq<char>| tlist.contains(v) <==> ta_da_variants(w).contains(v),
        has_ta == has_subscript(w, TA),
        has_da == has_subscript(w, DA),
        a == swap_subscript(w, TA, DA),
        b == swap_subscript(w, DA, TA),
    ensures
        forall|v: Seq<char>| ({
            let ra = if has_ta { ro_list(a) } else { Seq::empty() };
            let rb = if has_da { ro_list(b) } else { Seq::empty() };
            (tlist + ra + rb + ro_list(w)).contains(v)
        }) <==> #[trigger] spelling_variants(w).contains(v),
{
    let ra = if has_ta { ro_list(a) } else { Seq::empty() };
    let rb = if has_da { ro_list(b) } else { Seq::empty() };
    let t = ta_da_variants(w);
    let base = t.insert(w);
    assert forall|v: Seq<char>| (tlist + ra + rb + ro_list(w)).contains(v) <==> #[trigger] spelling_variants(w).contains(v) by {
        let r = (tlist + ra + rb + ro_list(w));
        let ros = Set::new(
            |v: Seq<char>|
                exists|bb: Seq<char>| #[trigger]
                    base.contains(bb) && (ro_variants(bb, true).contains(v) || ro_variants(
                        bb,
                        false,
                    ).contains(v)),
        );
        assert(spelling_variants(w) == t + ros);
        if r.contains(v) {
            let k = choose|k: int| 0 <= k < r.len() && r[k] == v;
            if k < tlist.len() {
                assert(tlist.contains(v));
            } else if k < tlist.len() + ra.len() {
                assert(ra.contains(v));
                assert(base.contains(a));
                assert(ros.contains(v));
            } else if k < tlist.len() + ra.len() + rb.len() {
                assert(rb[k - tlist.len() - ra.len()] == v);
                assert(base.contains(b));
                assert(ros.contains(v));
            } else {
                assert(ro_list(w)[k - tlist.len() - ra.len() - rb.len()] == v);
                assert(base.contains(w));
                assert(ros.contains(v));
            }
        }
        if spelling_variants(w).contains(v) {
            if t.contains(v) {
                assert(tlist.contains(v));
                let k = choose|k: int| 0 <= k < tlist.len() && tlist[k] == v;
                assert(r[k] == v);
            } else {
                assert(ros.contains(v));
                let bb = choose|bb: Seq<char>| #[trigger]
                    base.contains(bb) && (ro_variants(bb, true).contains(v) || ro_variants(
                        bb,
                        false,
                    ).contains(v));
                assert(ro_list(bb).contains(v)) by {
                    if ro_variants(bb, true).contains(v) {
                        assert(ro_list(bb)[0] == v);
                    } else {
                        assert(ro_list(bb)[ro_list(bb).len() - 1] == v);
                    }
                }
                let j = choose|j: int| 0 <= j < ro_list(bb).len() && ro_list(bb)[j] == v;
                if bb == w {
                    assert(r[tlist.len() + ra.len() + rb.len() + j] == v);
                } else if has_ta && bb == a {
                    assert(r[tlist.len() + j] == v);
                } else {
                    assert(has_da && bb == b);
                    assert(r[tlist.len() + ra.len() + j] == v);
                }
            }
        }
    }
}

/// The spelling variants of `word`, possibly with repeats.
pub fn generate_variants(word: &Vec<char>) -> (r: Vec<Vec<char>>)
    ensures
        forall|v: Seq<char>| vecs_view(r@).contains(v) <==> #[trigger] spelling_variants(word@).contains(v),
{
    let ghost w = word@;
    let mut out: Vec<Vec<char>> = Vec::new();
    let (a, has_ta) = swap_subscripts(word, TA, DA);
    let (b, has_da) = swap_subscripts(word, DA, TA);
    if has_ta {
        out.push(a.clone());
    }
    if has_da {
        out.push(b.clone());
    }
    let ghost tlist = vecs_view(out@);
    assert(forall|v: Seq<char>| tlist.contains(v) <==> ta_da_variants(w).contains(v)) by {
        assert forall|v: Seq<char>| tlist.contains(v) <==> ta_da_variants(w).contains(v) by {
            if has_ta && v == a@ {
                assert(tlist[0] == v);
            }
            if has_da && v == b@ {
                assert(tlist[tlist.len() - 1] == v);
            }
        }
    }
    if has_ta {
        push_ro_variants(&mut out, &a);
    }
    if has_da {
        push_ro_variants(&mut out, &b);
    }
    push_ro_variants(&mut out, word);
    let ghost ra = if has_ta { ro_list(a@) } else { Seq::empty() };
    let ghost rb = if has_da { ro_list(b@) } else { Seq::empty() };
    assert(vecs_view(out@) =~= tlist + ra + rb + ro_list(w));
    proof {
        lemma_variant_list(w, tlist, a@, b@, has_ta, has_da);
    }
    out
}

} // verus!
