//! A mapping from digests to vertex ids with logarithmic lookup,
//! kept as a vector of (key, value) pairs sorted by digest order.

use crate::digest::{lemma_lex_trans, lemma_lex_trichotomy, lex_lt, Digest, DigestOrder};
use vstd::prelude::*;

verus! {

broadcast use crate::digest::lemma_digest_len;

/// Digest-keyed map of vertex ids.  Keys are unique; insertion order is
/// irrelevant; lookup is by binary search over the sorted key vector.
pub struct DigestMap {
    keys: Vec<Digest>,
    vals: Vec<usize>,
}

impl DigestMap {
    /// The keys are strictly sorted and each key has a value.
    pub closed spec fn wf(self) -> bool {
        &&& self.keys@.len() == self.vals@.len()
        &&& forall|i: int, j: int|
            0 <= i < j < self.keys@.len() ==> lex_lt(self.keys@[i]@, self.keys@[j]@)
    }

    /// Whether byte string `d` is a key.
    pub closed spec fn contains_key(self, d: Seq<u8>) -> bool {
        exists|i: int| 0 <= i < self.keys@.len() && self.keys@[i]@ == d
    }

    /// The position of key `d` in the sorted key vector.
    closed spec fn index_of(self, d: Seq<u8>) -> int {
        choose|i: int| 0 <= i < self.keys@.len() && self.keys@[i]@ == d
    }

    /// The value stored under key `d`.
    pub closed spec fn at(self, d: Seq<u8>) -> usize {
        self.vals@[self.index_of(d)]
    }

    /// In a sorted key vector every key sits at one position only.
    proof fn lemma_index_unique(self, d: Seq<u8>, i: int)
        requires
            self.wf(),
            0 <= i < self.keys@.len(),
            self.keys@[i]@ == d,
        ensures
            self.index_of(d) == i,
    {
        let j = self.index_of(d);
        assert(0 <= j < self.keys@.len() && self.keys@[j]@ == d);
        if i < j {
            assert(lex_lt(self.keys@[i]@, self.keys@[j]@));
            lemma_lex_trichotomy(self.keys@[i]@, self.keys@[j]@);
        } else if j < i {
            assert(lex_lt(self.keys@[j]@, self.keys@[i]@));
            lemma_lex_trichotomy(self.keys@[j]@, self.keys@[i]@);
        }
    }

    /// An empty map.
    pub fn new() -> (m: DigestMap)
        ensures
            m.wf(),
            forall|d: Seq<u8>| !m.contains_key(d),
    {
        DigestMap { keys: Vec::new(), vals: Vec::new() }
    }

    /// The least position whose key is not below `d`.
    fn lower_bound(&self, d: &Digest) -> (pos: usize)
        requires
            self.wf(),
        ensures
            pos <= self.keys@.len(),
            forall|i: int| 0 <= i < pos ==> lex_lt(self.keys@[i]@, d@),
            forall|i: int| pos <= i < self.keys@.len() ==> !lex_lt(self.keys@[i]@, d@),
    {
        let mut lo: usize = 0;
        let mut hi: usize = self.keys.len();
        while lo < hi
            invariant
                0 <= lo <= hi <= self.keys@.len(),
                self.wf(),
                forall|i: int| 0 <= i < lo ==> lex_lt(self.keys@[i]@, d@),
                forall|i: int| hi <= i < self.keys@.len() ==> !lex_lt(self.keys@[i]@, d@),
            decreases hi - lo,
        {
            let mid = lo + (hi - lo) / 2;
            match self.keys[mid].cmp_digest(d) {
                DigestOrder::Below => {
                    proof {
                        assert forall|i: int| 0 <= i < mid + 1 implies lex_lt(
                            self.keys@[i]@,
                            d@,
                        ) by {
                            if i < mid {
                                assert(lex_lt(self.keys@[i]@, self.keys@[mid as int]@));
                                lemma_lex_trans(self.keys@[i]@, self.keys@[mid as int]@, d@);
                            }
                        }
                    }
                    lo = mid + 1;
                },
                _ => {
                    proof {
                        assert forall|i: int| mid <= i < self.keys@.len() implies !lex_lt(
                            self.keys@[i]@,
                            d@,
                        ) by {
                            if i > mid && lex_lt(self.keys@[i]@, d@) {
                                assert(lex_lt(self.keys@[mid as int]@, self.keys@[i]@));
                                lemma_lex_trans(self.keys@[mid as int]@, self.keys@[i]@, d@);
                            }
                        }
                    }
                    hi = mid;
                },
            }
        }
        lo
    }

    /// Looks up the value stored under `d`, if any.
    pub fn get(&self, d: &Digest) -> (r: Option<usize>)
        requires
            self.wf(),
        ensures
            r is Some <==> self.contains_key(d@),
            r is Some ==> r.unwrap() == self.at(d@),
    {
        let pos = self.lower_bound(d);
        if pos < self.keys.len() {
            match self.keys[pos].cmp_digest(d) {
                DigestOrder::Same => {
                    proof {
                        self.lemma_index_unique(d@, pos as int);
                    }
                    return Some(self.vals[pos]);
                },
                _ => {},
            }
        }
        proof {
            assert forall|i: int| 0 <= i < self.keys@.len() implies self.keys@[i]@ != d@ by {
                if i < pos {
                    lemma_lex_trichotomy(self.keys@[i]@, d@);
                } else {
                    lemma_lex_trichotomy(self.keys@[i]@, d@);
                }
            }
        }
        None
    }

    /// Inserts a new key.  All existing keys and values are preserved.
    pub fn insert(&mut self, d: Digest, v: usize)
        requires
            old(self).wf(),
            !old(self).contains_key(d@),
        ensures
            final(self).wf(),
            final(self).contains_key(d@),
            final(self).at(d@) == v,
            forall|x: Seq<u8>|
                x != d@ ==> (final(self).contains_key(x) <==> old(self).contains_key(x)),
            forall|x: Seq<u8>|
                x != d@ && old(self).contains_key(x) ==> final(self).at(x) == old(self).at(x),
    {
        let ghost prior = *self;
        let pos = self.lower_bound(&d);
        proof {
            assert forall|i: int| pos <= i < self.keys@.len() implies lex_lt(
                d@,
                self.keys@[i]@,
            ) by {
                lemma_lex_trichotomy(self.keys@[i]@, d@);
                assert(self.keys@[i]@ != d@);
            }
        }
        self.keys.insert(pos, d);
        self.vals.insert(pos, v);
        proof {
            let p = pos as int;
            let ks = self.keys@;
            assert forall|i: int, j: int| 0 <= i < j < ks.len() implies lex_lt(
                ks[i]@,
                ks[j]@,
            ) by {
                if i < p && j == p {
                    assert(ks[i]@ == prior.keys@[i]@);
                    assert(lex_lt(prior.keys@[i]@, d@));
                } else if i == p && j > p {
                    assert(ks[j]@ == prior.keys@[j - 1]@);
                    assert(lex_lt(d@, prior.keys@[j - 1]@));
                } else if i < p && j > p {
                    assert(ks[i]@ == prior.keys@[i]@);
                    assert(ks[j]@ == prior.keys@[j - 1]@);
                    if p <= j - 1 {
                        assert(lex_lt(prior.keys@[i]@, d@));
                        assert(lex_lt(d@, prior.keys@[j - 1]@));
                        lemma_lex_trans(prior.keys@[i]@, d@, prior.keys@[j - 1]@);
                    }
                } else if i < p && j < p {
                    assert(lex_lt(prior.keys@[i]@, prior.keys@[j]@));
                } else {
                    assert(i > p && j > p);
                    assert(lex_lt(prior.keys@[i - 1]@, prior.keys@[j - 1]@));
                }
            }
            assert(self.keys@[p]@ == d@);
            self.lemma_index_unique(d@, p);
            assert(self.at(d@) == v);
            assert forall|x: Seq<u8>|
                x != d@ implies (self.contains_key(x) <==> prior.contains_key(x)) by {
                if self.contains_key(x) {
                    let i = choose|i: int| 0 <= i < ks.len() && ks[i]@ == x;
                    if i < p {
                        assert(prior.keys@[i]@ == x);
                    } else {
                        assert(i != p);
                        assert(prior.keys@[i - 1]@ == x);
                    }
                }
                if prior.contains_key(x) {
                    let i = choose|i: int| 0 <= i < prior.keys@.len() && prior.keys@[i]@ == x;
                    if i < p {
                        assert(ks[i]@ == x);
                    } else {
                        assert(ks[i + 1]@ == x);
                    }
                }
            }
            assert forall|x: Seq<u8>|
                x != d@ && prior.contains_key(x) implies self.at(x) == prior.at(x) by {
                let i = choose|i: int| 0 <= i < prior.keys@.len() && prior.keys@[i]@ == x;
                prior.lemma_index_unique(x, i);
                if i < p {
                    assert(ks[i]@ == x);
                    self.lemma_index_unique(x, i);
                    assert(self.vals@[i] == prior.vals@[i]);
                } else {
                    assert(ks[i + 1]@ == x);
                    self.lemma_index_unique(x, i + 1);
                    assert(self.vals@[i + 1] == prior.vals@[i]);
                }
            }
        }
    }
}

} // verus!
