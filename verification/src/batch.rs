//! Batch-query aggregation: one bitset per commit vertex records which
//! of the queried blobs that commit contains.

use crate::digest::Digest;
use crate::graph::{ReverseGraph, Stack};
use fixedbitset::FixedBitSet;
use vstd::prelude::*;

verus! {

broadcast use crate::digest::lemma_digest_len;

#[verifier::external_type_specification]
#[verifier::external_body]
pub struct ExFixedBitSet(FixedBitSet);

/// The set of bit positions currently set in `b`.
pub uninterp spec fn bits_of(b: FixedBitSet) -> Set<int>;

/// The number of bits `b` is sized for.
pub uninterp spec fn bit_len_of(b: FixedBitSet) -> nat;

/// Relies on `FixedBitSet::with_capacity`: `bits` bits, all zero.
#[verifier::external_body]
fn bitset_with_capacity(bits: usize) -> (r: FixedBitSet)
    ensures
        bit_len_of(r) == bits,
        bits_of(r) == Set::<int>::empty(),
{
    FixedBitSet::with_capacity(bits)
}

/// Relies on `FixedBitSet::grow`: grows to `bits` bits (new bits
/// zero), keeping every set bit; an already-large set is unchanged.
#[verifier::external_body]
fn bitset_grow(b: &mut FixedBitSet, bits: usize)
    ensures
        bit_len_of(*final(b)) == if bits > bit_len_of(*old(b)) {
            bits as nat
        } else {
            bit_len_of(*old(b))
        },
        bits_of(*final(b)) == bits_of(*old(b)),
{
    b.grow(bits);
}

/// Relies on `FixedBitSet::put`: sets bit `i`, which must be within
/// the size (out of range the call does not return), and reports
/// whether it was set before.
#[verifier::external_body]
fn bitset_put(b: &mut FixedBitSet, i: usize) -> (r: bool)
    requires
        i < bit_len_of(*old(b)),
    ensures
        bits_of(*final(b)) == bits_of(*old(b)).insert(i as int),
        bit_len_of(*final(b)) == bit_len_of(*old(b)),
        r == bits_of(*old(b)).contains(i as int),
{
    b.put(i)
}

/// Relies on `FixedBitSet::contains`: whether bit `i` is set; an
/// out-of-range position reads as unset.
#[verifier::external_body]
fn bitset_contains(b: &FixedBitSet, i: usize) -> (r: bool)
    ensures
        r == bits_of(*b).contains(i as int),
{
    b.contains(i)
}

/// The commit-to-blobs bitmap the batch query fills: entry `c` tells
/// which queried blob indexes commit vertex `c` contains.  Bitsets are
/// allocated lazily, on the first blob a commit covers.
pub struct CoverageTable {
    bits: Vec<FixedBitSet>,
    nblobs: usize,
}

impl CoverageTable {
    /// Number of commit rows.
    pub closed spec fn commit_count(self) -> nat {
        self.bits@.len()
    }

    /// Number of queried blobs (the bit width of allocated rows).
    pub closed spec fn blob_count(self) -> nat {
        self.nblobs as nat
    }

    /// Commit row `c` has blob bit `b` set.
    pub closed spec fn covered(self, c: int, b: int) -> bool {
        0 <= c < self.bits@.len() && bits_of(self.bits@[c]).contains(b)
    }

    /// Every row is either unallocated or sized for all blobs.
    pub closed spec fn wf(self) -> bool {
        forall|c: int|
            0 <= c < self.bits@.len() ==> bit_len_of(#[trigger] self.bits@[c]) == 0 || bit_len_of(
                self.bits@[c],
            ) == self.nblobs
    }

    /// A table of `ncommits` unallocated rows for `nblobs` blobs.
    pub fn new(ncommits: usize, nblobs: usize) -> (r: CoverageTable)
        ensures
            r.wf(),
            r.commit_count() == ncommits,
            r.blob_count() == nblobs,
            forall|c: int, b: int| !r.covered(c, b),
    {
        let mut bits: Vec<FixedBitSet> = Vec::new();
        while bits.len() < ncommits
            invariant
                bits@.len() <= ncommits,
                forall|c: int|
                    0 <= c < bits@.len() ==> bit_len_of(#[trigger] bits@[c]) == 0 && bits_of(
                        bits@[c],
                    ) == Set::<int>::empty(),
            decreases ncommits - bits@.len(),
        {
            bits.push(bitset_with_capacity(0));
        }
        let r = CoverageTable { bits, nblobs };
        proof {
            assert forall|c: int, b: int| !r.covered(c, b) by {
                if 0 <= c < r.bits@.len() {
                    assert(!bits_of(r.bits@[c]).contains(b));
                }
            }
        }
        r
    }

    /// Whether commit row `c` has blob bit `b` set.
    pub fn covers(&self, c: usize, b: usize) -> (r: bool)
        requires
            c < self.commit_count(),
        ensures
            r == self.covered(c as int, b as int),
    {
        bitset_contains(&self.bits[c], b)
    }

    /// Sets bit `blob_idx` in commit row `commit_id`, allocating the
    /// row on first use.
    pub fn record(&mut self, commit_id: usize, blob_idx: usize)
        requires
            old(self).wf(),
            commit_id < old(self).commit_count(),
            blob_idx < old(self).blob_count(),
        ensures
            final(self).wf(),
            final(self).commit_count() == old(self).commit_count(),
            final(self).blob_count() == old(self).blob_count(),
            forall|c: int, b: int|
                final(self).covered(c, b) <==> (old(self).covered(c, b) || (c == commit_id && b
                    == blob_idx)),
    {
        let nblobs = self.nblobs;
        let row = vstd::std_specs::vec::vec_index_mut(&mut self.bits, commit_id);
        bitset_grow(row, nblobs);
        bitset_put(row, blob_idx);
        proof {
            assert(self.bits@ == old(self).bits@.update(commit_id as int, *final(row)));
            assert forall|c: int, b: int|
                final(self).covered(c, b) <==> (old(self).covered(c, b) || (c == commit_id && b
                    == blob_idx)) by {
                if c != commit_id && 0 <= c < self.bits@.len() {
                    assert(self.bits@[c] == old(self).bits@[c]);
                }
            }
        }
    }
}

/// Resolves every blob against the index and aggregates the answers:
/// bit `b` of row `c` says that commit vertex `c` reaches blob `b`.
/// This is the sequential form of the bounded-channel pipeline: the
/// per-blob work is independent, so any interleaving fills the same
/// table.
pub fn batch_query(graph: &ReverseGraph, blobs: &Vec<Digest>, stack: &mut Stack) -> (r:
    CoverageTable)
    requires
        graph.wf(),
    ensures
        r.wf(),
        r.commit_count() == graph.vert_count(),
        r.blob_count() == blobs@.len(),
        forall|c: usize, b: int|
            r.covered(c as int, b) <==> (0 <= b < blobs@.len() && (c as int) < graph.vert_count()
                && graph.answers(blobs@[b]@, c)),
{
    let n = graph.len();
    let mut table = CoverageTable::new(n, blobs.len());
    let mut ids: Vec<usize> = Vec::new();
    let mut b: usize = 0;
    while b < blobs.len()
        invariant
            0 <= b <= blobs@.len(),
            graph.wf(),
            table.wf(),
            table.commit_count() == graph.vert_count(),
            table.blob_count() == blobs@.len(),
            forall|c2: usize, b2: int|
                table.covered(c2 as int, b2) <==> (0 <= b2 < b && (c2 as int)
                    < graph.vert_count() && graph.answers(blobs@[b2]@, c2)),
        decreases blobs@.len() - b,
    {
        graph.lookup_idx(&blobs[b], stack, &mut ids);
        let ghost pre_table = table;
        let m = ids.len();
        let mut k: usize = 0;
        while k < m
            invariant
                0 <= k <= m,
                0 <= b < blobs@.len(),
                graph.wf(),
                m == ids@.len(),
                forall|t: int|
                    0 <= t < ids@.len() ==> (#[trigger] ids@[t]) < graph.vert_count()
                        && graph.answers(blobs@[b as int]@, ids@[t]),
                forall|j: usize| #[trigger]
                    graph.answers(blobs@[b as int]@, j) ==> ids@.contains(j),
                table.wf(),
                table.commit_count() == graph.vert_count(),
                table.blob_count() == blobs@.len(),
                forall|c2: usize, b2: int|
                    table.covered(c2 as int, b2) <==> (pre_table.covered(c2 as int, b2) || (b2
                        == b && exists|t: int| 0 <= t < k && (#[trigger] ids@[t]) == c2)),
                forall|c2: usize, b2: int|
                    pre_table.covered(c2 as int, b2) <==> (0 <= b2 < b && (c2 as int)
                        < graph.vert_count() && graph.answers(blobs@[b2]@, c2)),
            decreases m - k,
        {
            let id = ids[k];
            table.record(id, b);
            proof {
                assert forall|c2: usize, b2: int|
                    table.covered(c2 as int, b2) <==> (pre_table.covered(c2 as int, b2) || (b2
                        == b && exists|t: int| 0 <= t < k + 1 && (#[trigger] ids@[t]) == c2)) by {
                    if table.covered(c2 as int, b2) && !pre_table.covered(c2 as int, b2) {
                        if c2 == id && b2 == b {
                            assert(0 <= k < k + 1 && ids@[k as int] == c2);
                        }
                    }
                    if b2 == b && (exists|t: int| 0 <= t < k + 1 && (#[trigger] ids@[t]) == c2) {
                        let t = choose|t: int| 0 <= t < k + 1 && (#[trigger] ids@[t]) == c2;
                        if t == k {
                            assert(table.covered(id as int, b as int));
                        }
                    }
                }
            }
            k = k + 1;
        }
        proof {
            assert forall|c2: usize, b2: int|
                table.covered(c2 as int, b2) <==> (0 <= b2 < b + 1 && (c2 as int)
                    < graph.vert_count() && graph.answers(blobs@[b2]@, c2)) by {
                if table.covered(c2 as int, b2) && !pre_table.covered(c2 as int, b2) {
                    let t = choose|t: int| 0 <= t < m && (#[trigger] ids@[t]) == c2;
                    assert(graph.answers(blobs@[b as int]@, ids@[t]));
                }
                if 0 <= b2 < b + 1 && (c2 as int) < graph.vert_count() && graph.answers(
                    blobs@[b2]@,
                    c2,
                ) {
                    if b2 == b {
                        assert(ids@.contains(c2));
                        let t = choose|t: int| 0 <= t < ids@.len() && ids@[t] == c2;
                        assert(0 <= t < m && ids@[t] == c2);
                    }
                }
            }
        }
        b = b + 1;
    }
    table
}

} // verus!
