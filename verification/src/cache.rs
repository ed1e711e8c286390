//! The persistent index: the serialized graph wrapped in an LZ4 block,
//! written to and read back from a cache file by the caller.

use crate::codec::{decode_graph, distinct_digs, encode_graph, good_parts, spec_encode};
use crate::graph::ReverseGraph;
use vstd::prelude::*;

verus! {

/// Why a save or load failed: the compressor refused the input, or the
/// bytes are not a well-formed compressed index.
#[derive(Debug)]
pub enum PersistError {
    Compress,
    Corrupt,
}

/// The LZ4 block (with prepended size) that compression produces for a
/// given byte string.
pub uninterp spec fn lz4_block_of(s: Seq<u8>) -> Seq<u8>;

/// Relies on `lz4::block::compress` with the prepended-size convention:
/// the output is a function of the input bytes alone, and the call
/// fails only when the input is longer than LZ4's block limit.
#[verifier::external_body]
fn lz4_pack(data: &Vec<u8>) -> (r: Result<Vec<u8>, PersistError>)
    ensures
        r matches Ok(o) ==> o@ == lz4_block_of(data@),
        data@.len() <= 0x7E00_0000 ==> r is Ok,
{
    lz4::block::compress(data.as_slice(), None, true).map_err(|_| PersistError::Compress)
}

/// Relies on `lz4::block::decompress` with the prepended-size
/// convention: decompressing a block that compression wrote returns
/// exactly the bytes it was given.
#[verifier::external_body]
fn lz4_unpack(data: &Vec<u8>) -> (r: Result<Vec<u8>, PersistError>)
    ensures
        r matches Ok(o) ==> (forall|orig: Seq<u8>| data@ == lz4_block_of(orig) ==> o@ == orig),
        r is Err ==> (forall|orig: Seq<u8>| data@ != lz4_block_of(orig)),
{
    lz4::block::decompress(data.as_slice(), None).map_err(|_| PersistError::Corrupt)
}

/// Serializes and compresses a graph into the cache-file bytes.
pub fn save_graph(g: &ReverseGraph) -> (r: Result<Vec<u8>, PersistError>)
    requires
        g.wf(),
    ensures
        r matches Ok(b) ==> b@ == lz4_block_of(spec_encode(g.verts_view(), g.edges_view())),
        spec_encode(g.verts_view(), g.edges_view()).len() <= 0x7E00_0000 ==> r is Ok,
        good_parts(g.verts_view(), g.edges_view()),
        distinct_digs(g.verts_view()),
{
    let bytes = encode_graph(g);
    proof {
        assert forall|i: int, j: int|
            0 <= i < j < g.verts_view().len() implies g.verts_view()[i] != g.verts_view()[j] by {
            g.lemma_digests_distinct(i, j);
        }
    }
    lz4_pack(&bytes)
}

/// Decompresses and deserializes cache-file bytes back into a graph.
/// A corrupt file yields `None`.  When the bytes are the saved form of
/// some graph, the loaded graph serializes back to exactly that
/// graph's byte form, so by the injectivity of the format it answers
/// every lookup as the saved graph did.
pub fn load_graph(b: &Vec<u8>) -> (r: Option<ReverseGraph>)
    ensures
        r matches Some(g) ==> g.wf() && good_parts(g.verts_view(), g.edges_view()),
        r matches Some(g) ==> forall|orig: Seq<u8>|
            b@ == lz4_block_of(orig) ==> spec_encode(g.verts_view(), g.edges_view()) == orig,
        (exists|vs: Seq<Seq<u8>>, es: Seq<Seq<usize>>|
            good_parts(vs, es) && distinct_digs(vs) && b@ == lz4_block_of(
                #[trigger] spec_encode(vs, es),
            )) ==> r is Some,
{
    match lz4_unpack(b) {
        Err(_) => {
            proof {
                if exists|vs: Seq<Seq<u8>>, es: Seq<Seq<usize>>|
                    good_parts(vs, es) && distinct_digs(vs) && b@ == lz4_block_of(
                        #[trigger] spec_encode(vs, es),
                    ) {
                    let (vs, es): (Seq<Seq<u8>>, Seq<Seq<usize>>) = choose|
                        vs: Seq<Seq<u8>>,
                        es: Seq<Seq<usize>>,
                    |
                        good_parts(vs, es) && distinct_digs(vs) && b@ == lz4_block_of(
                            #[trigger] spec_encode(vs, es),
                        );
                    assert(b@ != lz4_block_of(spec_encode(vs, es)));
                }
            }
            None
        },
        Ok(raw) => {
            let r = decode_graph(&raw);
            proof {
                if r is None {
                    if exists|vs: Seq<Seq<u8>>, es: Seq<Seq<usize>>|
                        good_parts(vs, es) && distinct_digs(vs) && b@ == lz4_block_of(
                            #[trigger] spec_encode(vs, es),
                        ) {
                        let (vs, es): (Seq<Seq<u8>>, Seq<Seq<usize>>) = choose|
                            vs: Seq<Seq<u8>>,
                            es: Seq<Seq<usize>>,
                        |
                            good_parts(vs, es) && distinct_digs(vs) && b@ == lz4_block_of(
                                #[trigger] spec_encode(vs, es),
                            );
                        assert(raw@ == spec_encode(vs, es));
                        assert(!(good_parts(vs, es) && distinct_digs(vs) && spec_encode(vs, es)
                            == raw@));
                    }
                }
            }
            r
        },
    }
}

} // verus!
