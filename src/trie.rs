//! A trie over codepoint sequences that maps each stored word to its cost.
use vstd::prelude::*;
use fxhash::FxHashMap;

verus! {

/// The hasher behind `FxHashMap`.
#[verifier::external_type_specification]
#[verifier::external_body]
pub struct ExFxHasher(fxhash::FxHasher);

/// The hasher builder that `FxHashMap` is made with.
#[verifier::external_type_specification]
#[verifier::external_body]
#[verifier::reject_recursive_types(H)]
pub struct ExBuildHasherDefault<H>(core::hash::BuildHasherDefault<H>);

/// The edges of a trie: from a node and a codepoint to the child node.
pub type TrieEdges = FxHashMap<(usize, char), usize>;

/// Relies on `HashMap::get` (an `FxHashMap` is a std `HashMap` with the Fx
/// hasher): the value stored under the key, if any.
#[verifier::external_body]
fn edge_get(m: &TrieEdges, node: usize, c: char) -> (r: Option<usize>)
    ensures
        r == (if m@.contains_key((node, c)) {
            Some(m@[(node, c)])
        } else {
            None
        }),
{
    m.get(&(node, c)).copied()
}

/// Relies on `HashMap::insert`: stores `child` under the key, replacing what
/// was there.
#[verifier::external_body]
fn edge_insert(m: &mut TrieEdges, node: usize, c: char, child: usize)
    ensures
        final(m)@ == old(m)@.insert((node, c), child),
{
    m.insert((node, c), child);
}

/// A trie whose nodes are numbered from the root, 0. Each node stands for the
/// codepoint sequence on the path from the root to it, its label, and holds a
/// cost where that sequence is a word.
pub struct Trie {
    edges: TrieEdges,
    costs: Vec<Option<u64>>,
    labels: Ghost<Seq<Seq<char>>>,
    parents: Ghost<Seq<int>>,
    words: Ghost<Map<Seq<char>, u64>>,
}

impl Trie {
    /// The words stored, each with its cost.
    pub closed spec fn view(&self) -> Map<Seq<char>, u64> {
        self.words@
    }

    /// The labels form a tree that the edges follow, and the costs at the
    /// nodes are exactly the words stored.
    pub closed spec fn wf(&self) -> bool {
        let n = self.costs@.len() as int;
        &&& n >= 1
        &&& self.labels@.len() == n
        &&& self.parents@.len() == n
        &&& self.labels@[0] == Seq::<char>::empty()
        // an edge leads to the node labelled one codepoint further
        &&& forall|k: usize, c: char|
            #[trigger] self.edges@.contains_key((k, c)) ==> (k as int) < n && (
            self.edges@[(k, c)] as int) < n && self.labels@[self.edges@[(
            k,
            c,
        )] as int] == self.labels@[k as int].push(c)
        // labels are unique
        &&& forall|a: int, b: int|
            0 <= a < n && 0 <= b < n && #[trigger] self.labels@[a] == #[trigger] self.labels@[b]
                ==> a == b
        // every node but the root has a parent, labelled one codepoint shorter
        &&& forall|j: int|
            1 <= j < n ==> 0 <= #[trigger] self.parents@[j] < n && self.labels@[j].len() > 0
                && self.labels@[self.parents@[j]] == self.labels@[j].drop_last()
        // a node labelled one codepoint further than another hangs under it
        &&& forall|k: int, j: int|
            0 <= k < n && 0 <= j < n && #[trigger] self.labels@[j].len() == self.labels@[k].len()
                + 1 && self.labels@[j].drop_last() == #[trigger] self.labels@[k] ==> self.edges@.contains_key((k as usize, self.labels@[j].last()))
        // the cost at a node is that of its label
        &&& forall|j: int|
            0 <= j < n && (#[trigger] self.costs@[j]) is Some ==> self.words@.contains_key(
                self.labels@[j],
            ) && self.words@[self.labels@[j]] == self.costs@[j]->0
        &&& forall|j: int|
            0 <= j < n && self.words@.contains_key(#[trigger] self.labels@[j])
                ==> self.costs@[j] is Some
        // the path of every word is present
        &&& forall|k: int, w: Seq<char>|
            0 <= k < n && #[trigger] self.words@.contains_key(w) && self.labels@[k].len() < w.len()
                && w.subrange(0, #[trigger] self.labels@[k].len() as int) == self.labels@[k]
                ==> self.edges@.contains_key((k as usize, w[self.labels@[k].len() as int]))
    }

    /// A trie with no words.
    pub fn new() -> (r: Trie)
        ensures
            r.wf(),
            r@ == Map::<Seq<char>, u64>::empty(),
    {
        let mut costs: Vec<Option<u64>> = Vec::new();
        costs.push(None);
        let ghost labels = seq![Seq::<char>::empty()];
        let ghost parents = seq![0int];
        let r = Trie {
            edges: FxHashMap::default(),
            costs,
            labels: Ghost(labels),
            parents: Ghost(parents),
            words: Ghost(Map::empty()),
        };
        r
    }

    /// The cost of the word `cps[start..end]`, or `None` where it is not stored.
    pub fn lookup(&self, cps: &[char], start: usize, end: usize) -> (r: Option<u64>)
        requires
            self.wf(),
            start <= end <= cps@.len(),
        ensures
            r == (if self@.contains_key(cps@.subrange(start as int, end as int)) {
                Some(self@[cps@.subrange(start as int, end as int)])
            } else {
                None
            }),
    {
        let ghost w = cps@.subrange(start as int, end as int);
        let mut node: usize = 0;
        let mut i: usize = start;
        while i < end
            invariant
                self.wf(),
                start <= i <= end <= cps@.len(),
                w == cps@.subrange(start as int, end as int),
                (node as int) < self.costs@.len(),
                self.labels@[node as int] == cps@.subrange(start as int, i as int),
            decreases end - i,
        {
            match edge_get(&self.edges, node, cps[i]) {
                Some(child) => {
                    assert(cps@.subrange(start as int, i + 1) =~= cps@.subrange(
                        start as int,
                        i as int,
                    ).push(cps@[i as int]));
                    node = child;
                },
                None => {
                    proof {
                        if self.words@.contains_key(w) {
                            assert(w.subrange(0, self.labels@[node as int].len() as int)
                                =~= self.labels@[node as int]);
                            assert(w[self.labels@[node as int].len() as int] == cps@[i as int]);
                        }
                    }
                    return None;
                },
            }
            i = i + 1;
        }
        assert(self.labels@[node as int] =~= w);
        self.costs[node]
    }

    /// Stores the word `w` with cost `cost`, replacing an earlier cost of it.
    pub fn insert(&mut self, w: &[char], cost: u64)
        requires
            old(self).wf(),
        ensures
            final(self).wf(),
            final(self)@ == old(self)@.insert(w@, cost),
    {
        let mut node: usize = 0;
        let mut i: usize = 0;
        while i < w.len()
            invariant
                self.wf(),
                self.words@ == old(self).words@,
                0 <= i <= w@.len(),
                (node as int) < self.costs@.len(),
                self.labels@[node as int] == w@.subrange(0, i as int),
                forall|k: int|
                    0 <= k < self.costs@.len() && #[trigger] self.labels@[k].len() < i
                        && self.labels@[k] == w@.subrange(0, self.labels@[k].len() as int)
                        ==> self.edges@.contains_key(
                        (k as usize, w@[self.labels@[k].len() as int]),
                    ),
            decreases w@.len() - i,
        {
            let c = w[i];
            let ghost lab = self.labels@[node as int];
            assert(w@.subrange(0, i + 1) =~= w@.subrange(0, i as int).push(c));
            match edge_get(&self.edges, node, c) {
                Some(child) => {
                    node = child;
                },
                None => {
                    let ghost l = lab.push(c);
                    let ghost n0 = self.costs@.len() as int;
                    let ghost lab0 = self.labels@;
                    let ghost e0 = self.edges@;
                    assert(l.drop_last() =~= lab);
                    assert(l.subrange(0, lab.len() as int) =~= lab);
                    assert forall|j: int| 0 <= j < n0 implies lab0[j] != l by {
                        if lab0[j] == l {
                            assert(lab0[j].drop_last() == lab0[node as int]);
                        }
                    }
                    assert forall|v: Seq<char>|
                        #[trigger] self.words@.contains_key(v) && l.len() <= v.len()
                            implies v.subrange(0, l.len() as int) != l by {
                        if v.subrange(0, l.len() as int) == l {
                            assert(v.subrange(0, lab.len() as int) =~= v.subrange(
                                0,
                                l.len() as int,
                            ).subrange(0, lab.len() as int));
                            assert(v[lab.len() as int] == v.subrange(0, l.len() as int)[lab.len() as int]);
                        }
                    }
                    let nn = self.costs.len();
                    edge_insert(&mut self.edges, node, c, nn);
                    self.costs.push(None);
                    let ghost labels = self.labels@.push(l);
                    let ghost parents = self.parents@.push(node as int);
                    self.labels = Ghost(labels);
                    self.parents = Ghost(parents);
                    assert(self.wf()) by {
                        assert(self.labels@[nn as int] == l);
                        assert forall|k: int, j: int|
                            0 <= k < self.costs@.len() && 0 <= j < self.costs@.len()
                                && #[trigger] self.labels@[j].len() == self.labels@[k].len() + 1
                                && self.labels@[j].drop_last() == #[trigger] self.labels@[k]
                                implies self.edges@.contains_key((k as usize, self.labels@[j].last())) by {
                            if j == nn as int {
                                assert(lab0[k] == lab);
                            } else if k == nn as int {
                                let p = self.parents@[j];
                                assert(lab0[p] == l);
                            } else {
                                assert(e0.contains_key((k as usize, lab0[j].last())));
                            }
                        }
                        assert forall|k: int, v: Seq<char>|
                            0 <= k < self.costs@.len() && #[trigger] self.words@.contains_key(v)
                                && self.labels@[k].len() < v.len() && v.subrange(
                                0,
                                #[trigger] self.labels@[k].len() as int,
                            ) == self.labels@[k] implies self.edges@.contains_key(
                            (k as usize, v[self.labels@[k].len() as int]),
                        ) by {
                            if k == nn as int {
                                assert(v.subrange(0, l.len() as int) == l);
                            } else {
                                assert(e0.contains_key((k as usize, v[lab0[k].len() as int])));
                            }
                        }
                    }
                    node = nn;
                },
            }
            i = i + 1;
        }
        assert(w@.subrange(0, i as int) =~= w@);
        let ghost n0 = self.costs@.len() as int;
        let ghost lab0 = self.labels@;
        self.costs.set(node, Some(cost));
        let ghost words = self.words@.insert(w@, cost);
        self.words = Ghost(words);
        assert(self.wf()) by {
            assert forall|k: int, v: Seq<char>|
                0 <= k < self.costs@.len() && #[trigger] self.words@.contains_key(v)
                    && self.labels@[k].len() < v.len() && v.subrange(
                    0,
                    #[trigger] self.labels@[k].len() as int,
                ) == self.labels@[k] implies self.edges@.contains_key(
                (k as usize, v[self.labels@[k].len() as int]),
            ) by {
                if v != w@ {
                    assert(old(self).words@.contains_key(v));
                }
            }
        }
        assert(self@ =~= old(self)@.insert(w@, cost));
    }
}

} // verus!
