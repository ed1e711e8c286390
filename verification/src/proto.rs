//! The streaming query protocol's answer lines: space-separated hex
//! commit digests, terminated by a newline; an empty line means no
//! matches.

use crate::digest::{push_hex_digest, spec_to_hex, Digest};
use vstd::prelude::*;

verus! {

broadcast use crate::digest::lemma_digest_len;

/// The space-joined hex spellings of the digests.
pub open spec fn spec_joined(ds: Seq<Seq<u8>>) -> Seq<u8>
    decreases ds.len(),
{
    if ds.len() == 0 {
        Seq::empty()
    } else if ds.len() == 1 {
        spec_to_hex(ds[0])
    } else {
        spec_joined(ds.drop_last()) + seq![32u8] + spec_to_hex(ds.last())
    }
}

/// One answer line: the joined digests and a newline.
pub open spec fn spec_answer_line(ds: Seq<Seq<u8>>) -> Seq<u8> {
    spec_joined(ds) + seq![10u8]
}

/// Renders one answer line for the found commit digests.
pub fn format_commits_line(commits: &Vec<Digest>) -> (r: Vec<u8>)
    ensures
        r@ == spec_answer_line(commits@.map_values(|d: Digest| d@)),
{
    let ghost vs = commits@.map_values(|d: Digest| d@);
    let mut out: Vec<u8> = Vec::new();
    let n = commits.len();
    let mut i: usize = 0;
    while i < n
        invariant
            0 <= i <= n,
            n == commits@.len(),
            vs == commits@.map_values(|d: Digest| d@),
            vs.len() == n,
            out@ == spec_joined(vs.take(i as int)),
        decreases n - i,
    {
        if i > 0 {
            out.push(32);
        }
        let d = commits[i];
        push_hex_digest(&d, &mut out);
        proof {
            assert(vs[i as int] == commits@[i as int]@);
            assert(vs.take(i + 1).drop_last() =~= vs.take(i as int));
            assert(vs.take(i + 1).last() == vs[i as int]);
            if i == 0 {
                assert(vs.take(1).len() == 1);
                assert(vs.take(1)[0] == vs[0]);
                assert(out@ =~= spec_joined(vs.take(1)));
            } else {
                assert(out@ =~= spec_joined(vs.take(i as int)) + seq![32u8] + spec_to_hex(
                    vs[i as int],
                ));
                assert(out@ =~= spec_joined(vs.take(i + 1)));
            }
        }
        i = i + 1;
    }
    out.push(10);
    proof {
        assert(vs.take(n as int) =~= vs);
        assert(out@ =~= spec_answer_line(vs));
    }
    out
}

} // verus!
