//! Deduplication of unordered vertex-index pairs.
//!
//! Subdividing a mesh and building a wireframe both walk triangle edges and
//! must treat the edge `{a, b}` and the edge `{b, a}` as the same thing,
//! seen once. An edge is canonicalized as the pair `(min, max)`; the spec
//! functions here describe a growing list of first-seen canonical pairs, and
//! [`EdgeCache`] implements it with a hash lookup from a collision-free
//! integer key.

use std::collections::HashMap;
use vstd::prelude::*;

verus! {

broadcast use vstd::std_specs::hash::group_hash_axioms;

/// The canonical form of the unordered pair `{a, b}`: smaller endpoint first.
pub open spec fn upair(a: u32, b: u32) -> (u32, u32) {
    if a <= b {
        (a, b)
    } else {
        (b, a)
    }
}

/// The position of the first occurrence of `p` in `s`; meaningful only when
/// `s` contains `p`.
pub open spec fn first_index(s: Seq<(u32, u32)>, p: (u32, u32)) -> int
    decreases s.len(),
{
    if s.len() == 0 {
        0
    } else if s[0] == p {
        0
    } else {
        1 + first_index(s.skip(1), p)
    }
}

/// The pair list after one more edge is seen: a new pair is appended, a pair
/// already present leaves the list unchanged.
pub open spec fn record_edge(s: Seq<(u32, u32)>, p: (u32, u32)) -> Seq<(u32, u32)> {
    if s.contains(p) {
        s
    } else {
        s.push(p)
    }
}

/// The slot that the edge `p` occupies once recorded: its first occurrence
/// if already present, else the slot it is appended at.
pub open spec fn edge_slot(s: Seq<(u32, u32)>, p: (u32, u32)) -> int {
    if s.contains(p) {
        first_index(s, p)
    } else {
        s.len() as int
    }
}

/// No pair occurs twice.
pub open spec fn nodup(s: Seq<(u32, u32)>) -> bool {
    forall|i: int, j: int| 0 <= i < j < s.len() ==> s[i] != s[j]
}

/// The collision-free integer key of a canonical pair: the two 32-bit
/// endpoints packed into one 64-bit value.
pub open spec fn pair_key(p: (u32, u32)) -> u64 {
    (p.0 as int * 0x1_0000_0000 + p.1 as int) as u64
}

pub proof fn lemma_pair_key_injective(p: (u32, u32), q: (u32, u32))
    requires
        pair_key(p) == pair_key(q),
    ensures
        p == q,
{
    assert(pair_key(p) == p.0 as int * 0x1_0000_0000 + p.1 as int);
    assert(pair_key(q) == q.0 as int * 0x1_0000_0000 + q.1 as int);
    assert(p.0 == q.0 && p.1 == q.1);
}

pub proof fn lemma_first_index_in_range(s: Seq<(u32, u32)>, p: (u32, u32))
    requires
        s.contains(p),
    ensures
        0 <= first_index(s, p) < s.len(),
        s[first_index(s, p)] == p,
    decreases s.len(),
{
    if s[0] == p {
    } else {
        assert(s.skip(1).contains(p)) by {
            let i = choose|i: int| 0 <= i < s.len() && s[i] == p;
            assert(s.skip(1)[i - 1] == p);
        };
        lemma_first_index_in_range(s.skip(1), p);
    }
}

/// In a duplicate-free list the first occurrence is the only one.
pub proof fn lemma_first_index_unique(s: Seq<(u32, u32)>, j: int)
    requires
        nodup(s),
        0 <= j < s.len(),
    ensures
        first_index(s, s[j]) == j,
    decreases s.len(),
{
    let p = s[j];
    if j == 0 {
    } else {
        assert(s[0] != p);
        assert(forall|i1: int, i2: int|
            0 <= i1 < i2 < s.skip(1).len() ==> s.skip(1)[i1] != s.skip(1)[i2]) by {
            assert(forall|i: int| 0 <= i < s.skip(1).len() ==> s.skip(1)[i] == s[i + 1]);
        };
        assert(s.skip(1)[j - 1] == p);
        lemma_first_index_unique(s.skip(1), j - 1);
    }
}

/// Appending a pair that is not yet present puts its first occurrence at
/// the old end of the list.
pub proof fn lemma_first_index_push_new(s: Seq<(u32, u32)>, p: (u32, u32))
    requires
        !s.contains(p),
    ensures
        first_index(s.push(p), p) == s.len(),
    decreases s.len(),
{
    let r = s.push(p);
    if s.len() == 0 {
        assert(r[0] == p);
    } else {
        assert(r[0] == s[0]);
        assert(s[0] != p);
        assert(!s.skip(1).contains(p)) by {
            if s.skip(1).contains(p) {
                let i = choose|i: int| 0 <= i < s.skip(1).len() && s.skip(1)[i] == p;
                assert(s[i + 1] == p);
            }
        };
        lemma_first_index_push_new(s.skip(1), p);
        assert(r.skip(1) =~= s.skip(1).push(p));
    }
}

/// A pair already present in a prefix keeps its first occurrence in any
/// extension of that prefix.
pub proof fn lemma_first_index_prefix(d: Seq<(u32, u32)>, e: Seq<(u32, u32)>, p: (u32, u32))
    requires
        d.len() <= e.len(),
        d == e.take(d.len() as int),
        d.contains(p),
    ensures
        e.contains(p),
        first_index(e, p) == first_index(d, p),
    decreases d.len(),
{
    let i = choose|i: int| 0 <= i < d.len() && d[i] == p;
    assert(e[i] == d[i]);
    assert(d[0] == e[0]);
    if e[0] == p {
    } else {
        assert(d.skip(1) =~= e.skip(1).take(d.len() - 1));
        assert(d.skip(1)[i - 1] == p);
        lemma_first_index_prefix(d.skip(1), e.skip(1), p);
    }
}

/// Recording keeps the list duplicate-free.
pub proof fn lemma_record_edge_nodup(s: Seq<(u32, u32)>, p: (u32, u32))
    requires
        nodup(s),
    ensures
        nodup(record_edge(s, p)),
{
    if !s.contains(p) {
        let r = s.push(p);
        assert forall|i: int, j: int| 0 <= i < j < r.len() implies r[i] != r[j] by {
            if j == s.len() as int {
                assert(r[i] == s[i]);
            }
        };
    }
}

/// Whatever the list already contains stays, and the recorded pair is there.
pub proof fn lemma_record_edge_contains(s: Seq<(u32, u32)>, p: (u32, u32), q: (u32, u32))
    ensures
        record_edge(s, p).contains(p),
        s.contains(q) ==> record_edge(s, p).contains(q),
        record_edge(s, p).contains(q) ==> s.contains(q) || q == p,
        s.len() <= record_edge(s, p).len() <= s.len() + 1,
        record_edge(s, p).take(s.len() as int) == s,
{
    if s.contains(p) {
        assert(record_edge(s, p).take(s.len() as int) =~= s);
    } else {
        let r = s.push(p);
        assert(r[s.len() as int] == p);
        assert(r.contains(p));
        if s.contains(q) {
            let i = choose|i: int| 0 <= i < s.len() && s[i] == q;
            assert(r[i] == q);
        }
        if r.contains(q) && q != p {
            let i = choose|i: int| 0 <= i < r.len() && r[i] == q;
            assert(s[i] == q);
        }
        assert(r.take(s.len() as int) =~= s);
    }
}

/// A growing first-seen list of canonical edge pairs, with a hash index
/// from the packed pair key to the slot each pair was given.
pub struct EdgeCache {
    pairs: Vec<(u32, u32)>,
    slots: HashMap<u64, u32>,
}

impl View for EdgeCache {
    type V = Seq<(u32, u32)>;

    closed spec fn view(&self) -> Seq<(u32, u32)> {
        self.pairs@
    }
}

impl EdgeCache {
    /// All invariants tying the hash index to the pair list. Callers receive
    /// this abstractly from `new` and `record`.
    pub closed spec fn wf(self) -> bool {
        &&& nodup(self.pairs@)
        &&& forall|j: int|
            0 <= j < self.pairs@.len() ==> (#[trigger] self.pairs@[j]).0 <= self.pairs@[j].1
        &&& forall|j: int|
            0 <= j < self.pairs@.len() ==> #[trigger] self.slots@.contains_key(
                pair_key(self.pairs@[j]),
            ) && self.slots@[pair_key(self.pairs@[j])] == j as u32
        &&& forall|k: u64| #[trigger]
            self.slots@.contains_key(k) ==> exists|j: int|
                0 <= j < self.pairs@.len() && pair_key(#[trigger] self.pairs@[j]) == k
    }

    pub fn new() -> (r: EdgeCache)
        ensures
            r.wf(),
            r@ == Seq::<(u32, u32)>::empty(),
    {
        let r = EdgeCache { pairs: Vec::new(), slots: HashMap::new() };
        proof {
            assert(r.pairs@ =~= Seq::<(u32, u32)>::empty());
        }
        r
    }

    /// Gives up the cache and keeps only the recorded pair list.
    pub fn into_pairs(self) -> (r: Vec<(u32, u32)>)
        ensures
            r@ == self@,
    {
        self.pairs
    }

    /// Sees the unordered pair `{a, b}`: appends its canonical form if it is
    /// new, and returns the slot it occupies either way.
    pub fn record(&mut self, a: u32, b: u32) -> (slot: usize)
        requires
            old(self).wf(),
            old(self)@.len() < u32::MAX,
        ensures
            final(self).wf(),
            final(self)@ == record_edge(old(self)@, upair(a, b)),
            slot == edge_slot(old(self)@, upair(a, b)),
            slot < final(self)@.len(),
            final(self)@[slot as int] == upair(a, b),
    {
        let p: (u32, u32) = if a <= b {
            (a, b)
        } else {
            (b, a)
        };
        let key: u64 = p.0 as u64 * 0x1_0000_0000 + p.1 as u64;
        let ghost s0 = self.pairs@;
        match self.slots.get(&key) {
            Some(found) => {
                let slot = *found;
                proof {
                    let j = choose|j: int| 0 <= j < s0.len() && pair_key(#[trigger] s0[j]) == key;
                    lemma_pair_key_injective(s0[j], p);
                    assert(s0.contains(p));
                    lemma_first_index_unique(s0, j);
                    assert(slot == j as u32);
                    lemma_record_edge_contains(s0, p, p);
                }
                slot as usize
            },
            None => {
                proof {
                    if s0.contains(p) {
                        let j = choose|j: int| 0 <= j < s0.len() && s0[j] == p;
                        assert(self.slots@.contains_key(pair_key(s0[j])));
                    }
                    assert(!s0.contains(p));
                }
                let slot = self.pairs.len();
                self.pairs.push(p);
                self.slots.insert(key, slot as u32);
                proof {
                    let s1 = self.pairs@;
                    assert(s1 == s0.push(p));
                    lemma_record_edge_nodup(s0, p);
                    assert forall|j: int|
                        0 <= j < s1.len() implies #[trigger] self.slots@.contains_key(
                        pair_key(s1[j]),
                    ) && self.slots@[pair_key(s1[j])] == j as u32 by {
                        if j < s0.len() {
                            assert(s1[j] == s0[j]);
                            if pair_key(s0[j]) == key {
                                lemma_pair_key_injective(s0[j], p);
                                assert(s0.contains(p));
                            }
                        }
                    };
                    assert forall|k: u64| #[trigger]
                        self.slots@.contains_key(k) implies exists|j: int|
                        0 <= j < s1.len() && pair_key(#[trigger] s1[j]) == k by {
                        if k == key {
                            assert(pair_key(s1[s0.len() as int]) == k);
                        } else {
                            let j = choose|j: int|
                                0 <= j < s0.len() && pair_key(#[trigger] s0[j]) == k;
                            assert(pair_key(s1[j]) == k);
                        }
                    };
                }
                slot
            },
        }
    }
}

} // verus!
