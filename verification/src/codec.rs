//! The on-disk form of a reverse graph: a marker and version byte,
//! the vertex digests length-prefixed, then every parent list
//! length-prefixed, ids as 64-bit little-endian integers.  The digest
//! map is not stored; loading rebuilds it by scanning the vertices.

use crate::digest::Digest;
use crate::graph::ReverseGraph;
use vstd::prelude::*;

verus! {

broadcast use crate::digest::lemma_digest_len;

/// The five header bytes: a four-byte format marker and a version.
pub open spec fn spec_header() -> Seq<u8> {
    seq![82u8, 86u8, 71u8, 49u8, 1u8]
}

/// Byte `i` of the little-endian form of `x`.
pub open spec fn le_byte(x: u64, i: int) -> u8 {
    ((x >> ((8 * i) as u64)) & 0xff) as u8
}

/// The eight little-endian bytes of `x`.
pub open spec fn enc_u64(x: u64) -> Seq<u8> {
    Seq::new(8, |i: int| le_byte(x, i))
}

/// The integer spelled by the eight little-endian bytes at `pos`.
pub open spec fn le8(b: Seq<u8>, pos: int) -> u64
    recommends
        0 <= pos,
        pos + 8 <= b.len(),
{
    (b[pos] as u64) | ((b[pos + 1] as u64) << 8u64) | ((b[pos + 2] as u64) << 16u64) | ((b[pos
        + 3] as u64) << 24u64) | ((b[pos + 4] as u64) << 32u64) | ((b[pos + 5] as u64) << 40u64)
        | ((b[pos + 6] as u64) << 48u64) | ((b[pos + 7] as u64) << 56u64)
}

/// Reading back the eight little-endian bytes of `x` yields `x`.
proof fn lemma_le_roundtrip(x: u64)
    ensures
        le8(enc_u64(x), 0) == x,
{
    let b = enc_u64(x);
    assert(b[0] == le_byte(x, 0) && b[1] == le_byte(x, 1) && b[2] == le_byte(x, 2) && b[3]
        == le_byte(x, 3) && b[4] == le_byte(x, 4) && b[5] == le_byte(x, 5) && b[6] == le_byte(x, 6)
        && b[7] == le_byte(x, 7));
    assert(((((x >> 0u64) & 0xff) as u8) as u64) | (((((x >> 8u64) & 0xff) as u8) as u64) << 8u64)
        | (((((x >> 16u64) & 0xff) as u8) as u64) << 16u64) | (((((x >> 24u64) & 0xff) as u8)
        as u64) << 24u64) | (((((x >> 32u64) & 0xff) as u8) as u64) << 32u64) | (((((x >> 40u64)
        & 0xff) as u8) as u64) << 40u64) | (((((x >> 48u64) & 0xff) as u8) as u64) << 48u64) | ((((
    (x >> 56u64) & 0xff) as u8) as u64) << 56u64) == x) by (bit_vector);
}

/// The integer at `pos` depends only on the eight bytes there.
proof fn lemma_le8_at(b: Seq<u8>, pos: int, x: u64)
    requires
        0 <= pos,
        pos + 8 <= b.len(),
        b.subrange(pos, pos + 8) == enc_u64(x),
    ensures
        le8(b, pos) == x,
{
    let s = b.subrange(pos, pos + 8);
    assert(b[pos] == s[0] && b[pos + 1] == s[1] && b[pos + 2] == s[2] && b[pos + 3] == s[3] && b[pos
        + 4] == s[4] && b[pos + 5] == s[5] && b[pos + 6] == s[6] && b[pos + 7] == s[7]);
    lemma_le_roundtrip(x);
}

/// The eight bytes at `pos` are exactly the little-endian form of the
/// integer they spell.
proof fn lemma_le8_bytes(b: Seq<u8>, pos: int)
    requires
        0 <= pos,
        pos + 8 <= b.len(),
    ensures
        b.subrange(pos, pos + 8) == enc_u64(le8(b, pos)),
{
    let b0 = b[pos];
    let b1 = b[pos + 1];
    let b2 = b[pos + 2];
    let b3 = b[pos + 3];
    let b4 = b[pos + 4];
    let b5 = b[pos + 5];
    let b6 = b[pos + 6];
    let b7 = b[pos + 7];
    assert(((((b0 as u64) | ((b1 as u64) << 8u64) | ((b2 as u64) << 16u64) | ((b3 as u64) << 24u64)
        | ((b4 as u64) << 32u64) | ((b5 as u64) << 40u64) | ((b6 as u64) << 48u64) | ((b7 as u64)
        << 56u64)) >> 0u64) & 0xff) as u8 == b0 && ((((b0 as u64) | ((b1 as u64) << 8u64) | ((
    b2 as u64) << 16u64) | ((b3 as u64) << 24u64) | ((b4 as u64) << 32u64) | ((b5 as u64) << 40u64)
        | ((b6 as u64) << 48u64) | ((b7 as u64) << 56u64)) >> 8u64) & 0xff) as u8 == b1 && ((((
    b0 as u64) | ((b1 as u64) << 8u64) | ((b2 as u64) << 16u64) | ((b3 as u64) << 24u64) | ((
    b4 as u64) << 32u64) | ((b5 as u64) << 40u64) | ((b6 as u64) << 48u64) | ((b7 as u64) << 56u64))
        >> 16u64) & 0xff) as u8 == b2 && ((((b0 as u64) | ((b1 as u64) << 8u64) | ((b2 as u64)
        << 16u64) | ((b3 as u64) << 24u64) | ((b4 as u64) << 32u64) | ((b5 as u64) << 40u64) | ((
    b6 as u64) << 48u64) | ((b7 as u64) << 56u64)) >> 24u64) & 0xff) as u8 == b3 && ((((b0 as u64)
        | ((b1 as u64) << 8u64) | ((b2 as u64) << 16u64) | ((b3 as u64) << 24u64) | ((b4 as u64)
        << 32u64) | ((b5 as u64) << 40u64) | ((b6 as u64) << 48u64) | ((b7 as u64) << 56u64))
        >> 32u64) & 0xff) as u8 == b4 && ((((b0 as u64) | ((b1 as u64) << 8u64) | ((b2 as u64)
        << 16u64) | ((b3 as u64) << 24u64) | ((b4 as u64) << 32u64) | ((b5 as u64) << 40u64) | ((
    b6 as u64) << 48u64) | ((b7 as u64) << 56u64)) >> 40u64) & 0xff) as u8 == b5 && ((((b0 as u64)
        | ((b1 as u64) << 8u64) | ((b2 as u64) << 16u64) | ((b3 as u64) << 24u64) | ((b4 as u64)
        << 32u64) | ((b5 as u64) << 40u64) | ((b6 as u64) << 48u64) | ((b7 as u64) << 56u64))
        >> 48u64) & 0xff) as u8 == b6 && ((((b0 as u64) | ((b1 as u64) << 8u64) | ((b2 as u64)
        << 16u64) | ((b3 as u64) << 24u64) | ((b4 as u64) << 32u64) | ((b5 as u64) << 40u64) | ((
    b6 as u64) << 48u64) | ((b7 as u64) << 56u64)) >> 56u64) & 0xff) as u8 == b7) by (bit_vector);
    let x = le8(b, pos);
    assert(x == (b0 as u64) | ((b1 as u64) << 8u64) | ((b2 as u64) << 16u64) | ((b3 as u64)
        << 24u64) | ((b4 as u64) << 32u64) | ((b5 as u64) << 40u64) | ((b6 as u64) << 48u64) | ((
    b7 as u64) << 56u64));
    assert(le_byte(x, 0) == b0 && le_byte(x, 1) == b1 && le_byte(x, 2) == b2 && le_byte(x, 3) == b3
        && le_byte(x, 4) == b4 && le_byte(x, 5) == b5 && le_byte(x, 6) == b6 && le_byte(x, 7)
        == b7);
    assert(enc_u64(x)[0] == le_byte(x, 0) && enc_u64(x)[1] == le_byte(x, 1) && enc_u64(x)[2]
        == le_byte(x, 2) && enc_u64(x)[3] == le_byte(x, 3) && enc_u64(x)[4] == le_byte(x, 4)
        && enc_u64(x)[5] == le_byte(x, 5) && enc_u64(x)[6] == le_byte(x, 6) && enc_u64(x)[7]
        == le_byte(x, 7));
    assert(b.subrange(pos, pos + 8) =~= enc_u64(x));
}

/// The vertex digests, one after another.
pub open spec fn enc_digs(vs: Seq<Seq<u8>>) -> Seq<u8>
    decreases vs.len(),
{
    if vs.len() == 0 {
        Seq::empty()
    } else {
        vs.first() + enc_digs(vs.drop_first())
    }
}

/// The ids of one parent list, one after another.
pub open spec fn enc_ids(l: Seq<usize>) -> Seq<u8>
    decreases l.len(),
{
    if l.len() == 0 {
        Seq::empty()
    } else {
        enc_u64(l.first() as u64) + enc_ids(l.drop_first())
    }
}

/// One parent list: its length, then its ids.
pub open spec fn enc_list(l: Seq<usize>) -> Seq<u8> {
    enc_u64(l.len() as u64) + enc_ids(l)
}

/// All parent lists, one after another.
pub open spec fn enc_lists(es: Seq<Seq<usize>>) -> Seq<u8>
    decreases es.len(),
{
    if es.len() == 0 {
        Seq::empty()
    } else {
        enc_list(es.first()) + enc_lists(es.drop_first())
    }
}

/// The whole byte stream for vertex digests `vs` and parent lists `es`.
pub open spec fn spec_encode(vs: Seq<Seq<u8>>, es: Seq<Seq<usize>>) -> Seq<u8> {
    spec_header() + enc_u64(vs.len() as u64) + enc_digs(vs) + enc_u64(es.len() as u64) + enc_lists(
        es,
    )
}

/// Graph parts that the format can carry faithfully: as many digests
/// as lists, 20-byte digests, and every id a valid vertex index.
pub open spec fn good_parts(vs: Seq<Seq<u8>>, es: Seq<Seq<usize>>) -> bool {
    &&& vs.len() == es.len()
    &&& vs.len() < 0x1_0000_0000_0000_0000
    &&& forall|i: int| 0 <= i < vs.len() ==> (#[trigger] vs[i]).len() == 20
    &&& forall|i: int| 0 <= i < es.len() ==> (#[trigger] es[i]).len() < 0x1_0000_0000_0000_0000
    &&& forall|i: int, k: int|
        0 <= i < es.len() && 0 <= k < es[i].len() ==> (#[trigger] es[i][k]) < vs.len()
}

/// Appending a digest extends the digest region by its 20 bytes.
proof fn lemma_enc_digs_snoc(vs: Seq<Seq<u8>>, d: Seq<u8>)
    ensures
        enc_digs(vs.push(d)) == enc_digs(vs) + d,
    decreases vs.len(),
{
    if vs.len() == 0 {
        assert(vs.push(d).first() == d);
        assert(vs.push(d).drop_first() =~= Seq::<Seq<u8>>::empty());
        assert(enc_digs(vs.push(d)) == d + enc_digs(Seq::<Seq<u8>>::empty()));
        assert(enc_digs(Seq::<Seq<u8>>::empty()) == Seq::<u8>::empty());
        assert(d + Seq::<u8>::empty() =~= Seq::<u8>::empty() + d);
        assert(enc_digs(vs) == Seq::<u8>::empty());
    } else {
        assert(vs.push(d).first() == vs.first());
        assert(vs.push(d).drop_first() =~= vs.drop_first().push(d));
        assert(enc_digs(vs.push(d)) == vs.first() + enc_digs(vs.drop_first().push(d)));
        lemma_enc_digs_snoc(vs.drop_first(), d);
        assert(vs.first() + (enc_digs(vs.drop_first()) + d) =~= (vs.first() + enc_digs(
            vs.drop_first(),
        )) + d);
        assert(enc_digs(vs) == vs.first() + enc_digs(vs.drop_first()));
    }
}

/// Appending an id extends the id region by its eight bytes.
proof fn lemma_enc_ids_snoc(l: Seq<usize>, x: usize)
    ensures
        enc_ids(l.push(x)) == enc_ids(l) + enc_u64(x as u64),
    decreases l.len(),
{
    if l.len() == 0 {
        assert(l.push(x).first() == x);
        assert(l.push(x).drop_first() =~= Seq::<usize>::empty());
        assert(enc_ids(l.push(x)) == enc_u64(x as u64) + enc_ids(Seq::<usize>::empty()));
        assert(enc_ids(Seq::<usize>::empty()) == Seq::<u8>::empty());
        assert(enc_u64(x as u64) + Seq::<u8>::empty() =~= Seq::<u8>::empty() + enc_u64(x as u64));
        assert(enc_ids(l) == Seq::<u8>::empty());
    } else {
        assert(l.push(x).first() == l.first());
        assert(l.push(x).drop_first() =~= l.drop_first().push(x));
        assert(enc_ids(l.push(x)) == enc_u64(l.first() as u64) + enc_ids(l.drop_first().push(x)));
        lemma_enc_ids_snoc(l.drop_first(), x);
        assert(enc_u64(l.first() as u64) + (enc_ids(l.drop_first()) + enc_u64(x as u64)) =~= (
        enc_u64(l.first() as u64) + enc_ids(l.drop_first())) + enc_u64(x as u64));
        assert(enc_ids(l) == enc_u64(l.first() as u64) + enc_ids(l.drop_first()));
    }
}

/// Appending a list extends the list region by its encoding.
proof fn lemma_enc_lists_snoc(es: Seq<Seq<usize>>, l: Seq<usize>)
    ensures
        enc_lists(es.push(l)) == enc_lists(es) + enc_list(l),
    decreases es.len(),
{
    if es.len() == 0 {
        assert(es.push(l).first() == l);
        assert(es.push(l).drop_first() =~= Seq::<Seq<usize>>::empty());
        assert(enc_lists(es.push(l)) == enc_list(l) + enc_lists(Seq::<Seq<usize>>::empty()));
        assert(enc_lists(Seq::<Seq<usize>>::empty()) == Seq::<u8>::empty());
        assert(enc_list(l) + Seq::<u8>::empty() =~= Seq::<u8>::empty() + enc_list(l));
        assert(enc_lists(es) == Seq::<u8>::empty());
    } else {
        assert(es.push(l).first() == es.first());
        assert(es.push(l).drop_first() =~= es.drop_first().push(l));
        assert(enc_lists(es.push(l)) == enc_list(es.first()) + enc_lists(es.drop_first().push(l)));
        lemma_enc_lists_snoc(es.drop_first(), l);
        assert(enc_list(es.first()) + (enc_lists(es.drop_first()) + enc_list(l)) =~= (enc_list(
            es.first(),
        ) + enc_lists(es.drop_first())) + enc_list(l));
        assert(enc_lists(es) == enc_list(es.first()) + enc_lists(es.drop_first()));
    }
}

/// Writes the eight little-endian bytes of `x`.
fn push_u64(out: &mut Vec<u8>, x: u64)
    ensures
        final(out)@ == old(out)@ + enc_u64(x),
{
    out.push((x & 0xff) as u8);
    out.push(((x >> 8u64) & 0xff) as u8);
    out.push(((x >> 16u64) & 0xff) as u8);
    out.push(((x >> 24u64) & 0xff) as u8);
    out.push(((x >> 32u64) & 0xff) as u8);
    out.push(((x >> 40u64) & 0xff) as u8);
    out.push(((x >> 48u64) & 0xff) as u8);
    out.push(((x >> 56u64) & 0xff) as u8);
    proof {
        assert((x & 0xff) == (x >> 0u64) & 0xff) by (bit_vector);
        assert(out@ =~= old(out)@ + enc_u64(x));
    }
}

/// Reads the eight little-endian bytes at `pos`.
fn read_u64(b: &Vec<u8>, pos: usize) -> (r: u64)
    requires
        pos + 8 <= b@.len(),
    ensures
        r == le8(b@, pos as int),
{
    let blen = b.len();
    assert(pos + 8 <= blen);
    (b[pos] as u64) | ((b[pos + 1] as u64) << 8u64) | ((b[pos + 2] as u64) << 16u64) | ((b[pos
        + 3] as u64) << 24u64) | ((b[pos + 4] as u64) << 32u64) | ((b[pos + 5] as u64) << 40u64)
        | ((b[pos + 6] as u64) << 48u64) | ((b[pos + 7] as u64) << 56u64)
}

/// Serializes a graph into the on-disk byte form.
pub fn encode_graph(g: &ReverseGraph) -> (r: Vec<u8>)
    requires
        g.wf(),
    ensures
        r@ == spec_encode(g.verts_view(), g.edges_view()),
        good_parts(g.verts_view(), g.edges_view()),
{
    let ghost vs = g.verts_view();
    let ghost es = g.edges_view();
    let n = g.len();
    let mut out: Vec<u8> = Vec::new();
    out.push(82);
    out.push(86);
    out.push(71);
    out.push(49);
    out.push(1);
    proof {
        assert(out@ =~= spec_header());
    }
    push_u64(&mut out, n as u64);
    let ghost pre_digs = out@;
    let mut i: usize = 0;
    while i < n
        invariant
            0 <= i <= n,
            n == g.vert_count(),
            g.wf(),
            vs == g.verts_view(),
            out@ == pre_digs + enc_digs(vs.take(i as int)),
            forall|t: int| 0 <= t < i ==> (#[trigger] vs[t]).len() == 20,
        decreases n - i,
    {
        let d = g.digest_of(i);
        let ghost pre = out@;
        let mut k: usize = 0;
        while k < 20
            invariant
                0 <= k <= 20,
                d@.len() == 20,
                out@ == pre + d@.take(k as int),
            decreases 20 - k,
        {
            out.push(d.byte_at(k));
            proof {
                assert(d@.take(k + 1) =~= d@.take(k as int).push(d@[k as int]));
                assert(out@ =~= pre + d@.take(k + 1));
            }
            k = k + 1;
        }
        proof {
            assert(d@.take(20) =~= d@);
            assert(vs.take(i + 1) =~= vs.take(i as int).push(vs[i as int]));
            assert(vs[i as int] == d@);
            lemma_enc_digs_snoc(vs.take(i as int), d@);
            assert(out@ =~= pre_digs + enc_digs(vs.take(i + 1)));
        }
        i = i + 1;
    }
    proof {
        assert(vs.take(n as int) =~= vs);
    }
    push_u64(&mut out, n as u64);
    let ghost pre_lists = out@;
    let mut v: usize = 0;
    while v < n
        invariant
            0 <= v <= n,
            n == g.vert_count(),
            g.wf(),
            es == g.edges_view(),
            out@ == pre_lists + enc_lists(es.take(v as int)),
            forall|t: int| 0 <= t < n ==> (#[trigger] vs[t]).len() == 20,
            vs.len() == n && es.len() == n,
            forall|t: int| 0 <= t < v ==> (#[trigger] es[t]).len() < 0x1_0000_0000_0000_0000,
        decreases n - v,
    {
        let m = g.parent_count(v);
        push_u64(&mut out, m as u64);
        let ghost pre = out@;
        let ghost l = g.edges_at(v as int);
        let mut k: usize = 0;
        while k < m
            invariant
                0 <= k <= m,
                0 <= v < n,
                n == g.vert_count(),
                g.wf(),
                l == g.edges_at(v as int),
                m == l.len(),
                out@ == pre + enc_ids(l.take(k as int)),
            decreases m - k,
        {
            let id = g.parent_at(v, k);
            push_u64(&mut out, id as u64);
            proof {
                assert(l.take(k + 1) =~= l.take(k as int).push(l[k as int]));
                lemma_enc_ids_snoc(l.take(k as int), l[k as int]);
                assert(out@ =~= pre + enc_ids(l.take(k + 1)));
            }
            k = k + 1;
        }
        proof {
            assert(l.take(m as int) =~= l);
            assert(es.take(v + 1) =~= es.take(v as int).push(es[v as int]));
            assert(es[v as int] == l);
            lemma_enc_lists_snoc(es.take(v as int), l);
            assert(out@ =~= pre_lists + enc_lists(es.take(v + 1)));
        }
        v = v + 1;
    }
    proof {
        assert(es.take(n as int) =~= es);
        assert(out@ =~= spec_encode(vs, es));
        g.lemma_wf_edge_bounds();
        assert forall|t: int, k2: int|
            0 <= t < es.len() && 0 <= k2 < es[t].len() implies (#[trigger] es[t][k2])
            < vs.len() by {
            assert(es[t] == g.edges_at(t));
        }
        assert(good_parts(vs, es));
    }
    out
}

/// The digest region is 20 bytes per vertex.
proof fn lemma_enc_digs_len(vs: Seq<Seq<u8>>)
    requires
        forall|i: int| 0 <= i < vs.len() ==> (#[trigger] vs[i]).len() == 20,
    ensures
        enc_digs(vs).len() == 20 * vs.len(),
    decreases vs.len(),
{
    if vs.len() > 0 {
        assert(vs[0].len() == 20);
        assert forall|i: int|
            0 <= i < vs.drop_first().len() implies (#[trigger] vs.drop_first()[i]).len()
            == 20 by {
            assert(vs.drop_first()[i] == vs[i + 1]);
        }
        lemma_enc_digs_len(vs.drop_first());
    }
}

/// Vertex `i`'s digest sits at offset `20 * i` of the digest region.
proof fn lemma_enc_digs_index(vs: Seq<Seq<u8>>, i: int)
    requires
        forall|t: int| 0 <= t < vs.len() ==> (#[trigger] vs[t]).len() == 20,
        0 <= i < vs.len(),
    ensures
        enc_digs(vs).subrange(20 * i, 20 * i + 20) == vs[i],
    decreases i,
{
    lemma_enc_digs_len(vs);
    assert(vs[0].len() == 20);
    assert forall|t: int|
        0 <= t < vs.drop_first().len() implies (#[trigger] vs.drop_first()[t]).len() == 20 by {
        assert(vs.drop_first()[t] == vs[t + 1]);
    }
    if i == 0 {
        assert(enc_digs(vs).subrange(0, 20) =~= vs.first());
    } else {
        lemma_enc_digs_index(vs.drop_first(), i - 1);
        lemma_enc_digs_len(vs.drop_first());
        assert(vs.drop_first()[i - 1] == vs[i]);
        assert(enc_digs(vs).subrange(20 * i, 20 * i + 20) =~= enc_digs(vs.drop_first()).subrange(
            20 * (i - 1),
            20 * (i - 1) + 20,
        ));
    }
}

/// The id region is eight bytes per id.
proof fn lemma_enc_ids_len(l: Seq<usize>)
    ensures
        enc_ids(l).len() == 8 * l.len(),
    decreases l.len(),
{
    if l.len() > 0 {
        lemma_enc_ids_len(l.drop_first());
    }
}

/// Id `k` sits at offset `8 * k` of the id region.
proof fn lemma_enc_ids_index(l: Seq<usize>, k: int)
    requires
        0 <= k < l.len(),
    ensures
        enc_ids(l).subrange(8 * k, 8 * k + 8) == enc_u64(l[k] as u64),
    decreases k,
{
    lemma_enc_ids_len(l);
    if k == 0 {
        assert(enc_ids(l).subrange(0, 8) =~= enc_u64(l.first() as u64));
    } else {
        lemma_enc_ids_index(l.drop_first(), k - 1);
        lemma_enc_ids_len(l.drop_first());
        assert(l.drop_first()[k - 1] == l[k]);
        assert(enc_ids(l).subrange(8 * k, 8 * k + 8) =~= enc_ids(l.drop_first()).subrange(
            8 * (k - 1),
            8 * (k - 1) + 8,
        ));
    }
}

/// Equal list regions spell equal lists.
proof fn lemma_enc_lists_inj(e1: Seq<Seq<usize>>, e2: Seq<Seq<usize>>)
    requires
        e1.len() == e2.len(),
        forall|i: int| 0 <= i < e1.len() ==> (#[trigger] e1[i]).len() < 0x1_0000_0000_0000_0000,
        forall|i: int| 0 <= i < e2.len() ==> (#[trigger] e2[i]).len() < 0x1_0000_0000_0000_0000,
        enc_lists(e1) == enc_lists(e2),
    ensures
        e1 == e2,
    decreases e1.len(),
{
    if e1.len() == 0 {
        assert(e1 =~= e2);
    } else {
        let l1 = e1.first();
        let l2 = e2.first();
        let b = enc_lists(e1);
        lemma_enc_ids_len(l1);
        lemma_enc_ids_len(l2);
        assert(b == enc_list(l1) + enc_lists(e1.drop_first()));
        assert(enc_lists(e2) == enc_list(l2) + enc_lists(e2.drop_first()));
        assert(b.subrange(0, 8) =~= enc_u64(l1.len() as u64));
        assert(b.subrange(0, 8) =~= enc_u64(l2.len() as u64));
        lemma_le8_at(b, 0, l1.len() as u64);
        lemma_le8_at(b, 0, l2.len() as u64);
        assert(l1.len() as u64 == l2.len() as u64);
        assert(l1.len() == l2.len());
        let w = l1.len() as int;
        assert forall|k: int| 0 <= k < w implies l1[k] == l2[k] by {
            lemma_enc_ids_index(l1, k);
            lemma_enc_ids_index(l2, k);
            assert(b.subrange(8 + 8 * k, 8 + 8 * k + 8) =~= enc_ids(l1).subrange(
                8 * k,
                8 * k + 8,
            ));
            assert(b.subrange(8 + 8 * k, 8 + 8 * k + 8) =~= enc_ids(l2).subrange(
                8 * k,
                8 * k + 8,
            ));
            lemma_le8_at(b, 8 + 8 * k, l1[k] as u64);
            lemma_le8_at(b, 8 + 8 * k, l2[k] as u64);
            assert(l1[k] as u64 == l2[k] as u64);
        }
        assert(l1 =~= l2);
        assert(enc_lists(e1.drop_first()) =~= b.subrange(8 + 8 * w, b.len() as int));
        assert(enc_lists(e2.drop_first()) =~= b.subrange(8 + 8 * w, b.len() as int));
        assert forall|i: int|
            0 <= i < e1.drop_first().len() implies (#[trigger] e1.drop_first()[i]).len()
            < 0x1_0000_0000_0000_0000 by {
            assert(e1.drop_first()[i] == e1[i + 1]);
        }
        assert forall|i: int|
            0 <= i < e2.drop_first().len() implies (#[trigger] e2.drop_first()[i]).len()
            < 0x1_0000_0000_0000_0000 by {
            assert(e2.drop_first()[i] == e2[i + 1]);
        }
        lemma_enc_lists_inj(e1.drop_first(), e2.drop_first());
        assert forall|i: int| 0 <= i < e1.len() implies e1[i] == e2[i] by {
            if i > 0 {
                assert(e1.drop_first()[i - 1] == e2.drop_first()[i - 1]);
            }
        }
        assert(e1 =~= e2);
    }
}

/// Two well-formed part pairs with the same byte stream are the same
/// parts: the format is faithful.
pub proof fn lemma_encode_injective(
    v1: Seq<Seq<u8>>,
    e1: Seq<Seq<usize>>,
    v2: Seq<Seq<u8>>,
    e2: Seq<Seq<usize>>,
)
    requires
        good_parts(v1, e1),
        good_parts(v2, e2),
        spec_encode(v1, e1) == spec_encode(v2, e2),
    ensures
        v1 == v2,
        e1 == e2,
{
    let b = spec_encode(v1, e1);
    lemma_enc_digs_len(v1);
    lemma_enc_digs_len(v2);
    assert(b.subrange(5, 13) =~= enc_u64(v1.len() as u64));
    assert(b.subrange(5, 13) =~= enc_u64(v2.len() as u64));
    lemma_le8_at(b, 5, v1.len() as u64);
    lemma_le8_at(b, 5, v2.len() as u64);
    assert(v1.len() as u64 == v2.len() as u64);
    assert(v1.len() == v2.len());
    let n = v1.len() as int;
    assert(enc_digs(v1) =~= b.subrange(13, 13 + 20 * n));
    assert(enc_digs(v2) =~= b.subrange(13, 13 + 20 * n));
    assert forall|i: int| 0 <= i < n implies v1[i] == v2[i] by {
        lemma_enc_digs_index(v1, i);
        lemma_enc_digs_index(v2, i);
    }
    assert(v1 =~= v2);
    assert(enc_lists(e1) =~= b.subrange(21 + 20 * n, b.len() as int));
    assert(enc_lists(e2) =~= b.subrange(21 + 20 * n, b.len() as int));
    lemma_enc_lists_inj(e1, e2);
}

/// Digests that are pairwise distinct, as a well-formed graph's are.
pub open spec fn distinct_digs(vs: Seq<Seq<u8>>) -> bool {
    forall|i: int, j: int| 0 <= i < j < vs.len() ==> vs[i] != vs[j]
}

/// The list region spends at least eight bytes per list.
proof fn lemma_enc_lists_len_lb(es: Seq<Seq<usize>>)
    ensures
        enc_lists(es).len() >= 8 * es.len(),
    decreases es.len(),
{
    if es.len() > 0 {
        lemma_enc_lists_len_lb(es.drop_first());
        lemma_enc_ids_len(es.first());
    }
}

/// The list region splits after the first `v` lists.
proof fn lemma_enc_lists_split(es: Seq<Seq<usize>>, v: int)
    requires
        0 <= v <= es.len(),
    ensures
        enc_lists(es) == enc_lists(es.take(v)) + enc_lists(es.skip(v)),
    decreases v,
{
    if v == 0 {
        assert(es.take(0) =~= Seq::<Seq<usize>>::empty());
        assert(es.skip(0) =~= es);
        assert(enc_lists(es) =~= enc_lists(es.take(0)) + enc_lists(es.skip(0)));
    } else {
        lemma_enc_lists_split(es.drop_first(), v - 1);
        assert(es.take(v).first() == es.first());
        assert(es.take(v).drop_first() =~= es.drop_first().take(v - 1));
        assert(es.skip(v) =~= es.drop_first().skip(v - 1));
        assert(enc_lists(es.take(v)) == enc_list(es.first()) + enc_lists(
            es.drop_first().take(v - 1),
        ));
        assert(enc_lists(es) == enc_list(es.first()) + enc_lists(es.drop_first()));
        assert(enc_list(es.first()) + (enc_lists(es.drop_first().take(v - 1)) + enc_lists(
            es.drop_first().skip(v - 1),
        )) =~= (enc_list(es.first()) + enc_lists(es.drop_first().take(v - 1))) + enc_lists(
            es.drop_first().skip(v - 1),
        ));
    }
}

/// The first list of a nonempty suffix of the list region.
proof fn lemma_enc_lists_head(es: Seq<Seq<usize>>, v: int)
    requires
        0 <= v < es.len(),
    ensures
        enc_lists(es.skip(v)) == enc_list(es[v]) + enc_lists(es.skip(v + 1)),
{
    assert(es.skip(v).len() == es.len() - v);
    assert(es.skip(v).first() == es[v]);
    assert(es.skip(v).drop_first() =~= es.skip(v + 1));
}

/// A shorter list sequence whose region is a prefix of a longer one's
/// region spells out the longer one's first lists exactly.
proof fn lemma_enc_lists_prefix(e1: Seq<Seq<usize>>, e2: Seq<Seq<usize>>)
    requires
        e1.len() <= e2.len(),
        forall|i: int| 0 <= i < e1.len() ==> (#[trigger] e1[i]).len() < 0x1_0000_0000_0000_0000,
        forall|i: int| 0 <= i < e2.len() ==> (#[trigger] e2[i]).len() < 0x1_0000_0000_0000_0000,
        enc_lists(e1).len() <= enc_lists(e2).len(),
        enc_lists(e1) == enc_lists(e2).take(enc_lists(e1).len() as int),
    ensures
        e1 == e2.take(e1.len() as int),
    decreases e1.len(),
{
    if e1.len() == 0 {
        assert(e1 =~= e2.take(0));
    } else {
        let l1 = e1.first();
        let l2 = e2.first();
        lemma_enc_ids_len(l1);
        lemma_enc_ids_len(l2);
        let b1 = enc_lists(e1);
        let b2 = enc_lists(e2);
        assert(b1 == enc_list(l1) + enc_lists(e1.drop_first()));
        assert(b2 == enc_list(l2) + enc_lists(e2.drop_first()));
        assert(b1.subrange(0, 8) =~= enc_u64(l1.len() as u64));
        assert(b2.subrange(0, 8) =~= enc_u64(l2.len() as u64));
        assert(b1.subrange(0, 8) =~= b2.subrange(0, 8));
        lemma_le8_at(b1, 0, l1.len() as u64);
        lemma_le8_at(b1, 0, l2.len() as u64);
        assert(l1.len() == l2.len());
        let w = l1.len() as int;
        assert forall|k: int| 0 <= k < w implies l1[k] == l2[k] by {
            lemma_enc_ids_index(l1, k);
            lemma_enc_ids_index(l2, k);
            assert(b1.subrange(8 + 8 * k, 8 + 8 * k + 8) =~= enc_ids(l1).subrange(
                8 * k,
                8 * k + 8,
            ));
            assert(b2.subrange(8 + 8 * k, 8 + 8 * k + 8) =~= enc_ids(l2).subrange(
                8 * k,
                8 * k + 8,
            ));
            assert(b1.subrange(8 + 8 * k, 8 + 8 * k + 8) =~= b2.subrange(
                8 + 8 * k,
                8 + 8 * k + 8,
            ));
            lemma_le8_at(b1, 8 + 8 * k, l1[k] as u64);
            lemma_le8_at(b1, 8 + 8 * k, l2[k] as u64);
            assert(l1[k] as u64 == l2[k] as u64);
        }
        assert(l1 =~= l2);
        let t1 = e1.drop_first();
        let t2 = e2.drop_first();
        assert forall|i: int| 0 <= i < t1.len() implies (#[trigger] t1[i]).len()
            < 0x1_0000_0000_0000_0000 by {
            assert(t1[i] == e1[i + 1]);
        }
        assert forall|i: int| 0 <= i < t2.len() implies (#[trigger] t2[i]).len()
            < 0x1_0000_0000_0000_0000 by {
            assert(t2[i] == e2[i + 1]);
        }
        assert(enc_lists(t1) =~= enc_lists(t2).take(enc_lists(t1).len() as int)) by {
            assert forall|x: int| 0 <= x < enc_lists(t1).len() implies enc_lists(t1)[x]
                == enc_lists(t2)[x] by {
                assert(enc_lists(t1)[x] == b1[8 + 8 * w + x]);
                assert(b1[8 + 8 * w + x] == b2[8 + 8 * w + x]);
                assert(enc_lists(t2)[x] == b2[8 + 8 * w + x]);
            }
        }
        lemma_enc_lists_prefix(t1, t2);
        assert forall|i: int| 0 <= i < e1.len() implies e1[i] == e2.take(e1.len() as int)[i] by {
            if i > 0 {
                assert(t1[i - 1] == t2.take(t1.len() as int)[i - 1]);
                assert(t2.take(t1.len() as int)[i - 1] == e2[i]);
            }
        }
        assert(e1 =~= e2.take(e1.len() as int));
    }
}

/// What a parse in the middle of the list region knows about any
/// well-formed source of the bytes: the consumed prefix pins the whole
/// vertex region and the first parsed lists down.
#[verifier::rlimit(100)]
proof fn lemma_align_at_lists(
    b: Seq<u8>,
    dv: Seq<Seq<u8>>,
    lv: Seq<Seq<usize>>,
    pos: int,
    vs: Seq<Seq<u8>>,
    es: Seq<Seq<usize>>,
)
    requires
        good_parts(vs, es),
        b == spec_encode(vs, es),
        dv.len() < 0x1_0000_0000_0000_0000,
        forall|t: int| 0 <= t < dv.len() ==> (#[trigger] dv[t]).len() == 20,
        forall|t: int| 0 <= t < lv.len() ==> (#[trigger] lv[t]).len() < 0x1_0000_0000_0000_0000,
        lv.len() <= dv.len(),
        0 <= pos <= b.len(),
        b.subrange(0, pos) == spec_header() + enc_u64(dv.len() as u64) + enc_digs(dv) + enc_u64(
            dv.len() as u64,
        ) + enc_lists(lv),
    ensures
        vs == dv,
        es.len() == dv.len(),
        lv == es.take(lv.len() as int),
        pos == 21 + 20 * dv.len() + enc_lists(lv).len(),
        b.len() == 21 + 20 * dv.len() + enc_lists(es).len(),
        b.subrange(pos, b.len() as int) == enc_lists(es.skip(lv.len() as int)),
{
    lemma_enc_digs_len(vs);
    lemma_enc_digs_len(dv);
    let pre = b.subrange(0, pos);
    assert(pre.len() == pos);
    assert(pos == 21 + 20 * dv.len() + enc_lists(lv).len());
    assert(b.subrange(5, 13) =~= enc_u64(vs.len() as u64));
    lemma_le8_at(b, 5, vs.len() as u64);
    assert(b.subrange(5, 13) =~= enc_u64(dv.len() as u64)) by {
        assert forall|t: int| 0 <= t < 8 implies b.subrange(5, 13)[t] == enc_u64(
            dv.len() as u64,
        )[t] by {
            assert(b[5 + t] == pre[5 + t]);
            assert(pre[5 + t] == enc_u64(dv.len() as u64)[t]);
        }
    }
    lemma_le8_at(b, 5, dv.len() as u64);
    assert(vs.len() as u64 == dv.len() as u64);
    assert(vs.len() == dv.len());
    let n = dv.len() as int;
    assert forall|i: int| 0 <= i < n implies vs[i] == dv[i] by {
        lemma_enc_digs_index(vs, i);
        lemma_enc_digs_index(dv, i);
        assert(enc_digs(vs).subrange(20 * i, 20 * i + 20) =~= b.subrange(
            13 + 20 * i,
            13 + 20 * i + 20,
        ));
        assert forall|t: int|
            0 <= t < 20 implies (#[trigger] enc_digs(dv).subrange(20 * i, 20 * i + 20)[t])
            == b.subrange(13 + 20 * i, 13 + 20 * i + 20)[t] by {
            assert(enc_digs(dv)[20 * i + t] == pre[13 + 20 * i + t]);
            assert(pre[13 + 20 * i + t] == b[13 + 20 * i + t]);
        }
        assert(enc_digs(dv).subrange(20 * i, 20 * i + 20) =~= b.subrange(
            13 + 20 * i,
            13 + 20 * i + 20,
        ));
    }
    assert(vs =~= dv);
    assert(pos == 21 + 20 * n + enc_lists(lv).len());
    assert(b.len() == 21 + 20 * n + enc_lists(es).len());
    assert forall|x: int|
        0 <= x < enc_lists(lv).len() implies (#[trigger] enc_lists(lv)[x]) == b.subrange(
        21 + 20 * n,
        pos,
    )[x] by {
        assert(enc_lists(lv)[x] == pre[21 + 20 * n + x]);
        assert(pre[21 + 20 * n + x] == b[21 + 20 * n + x]);
    }
    assert(enc_lists(lv) =~= b.subrange(21 + 20 * n, pos));
    assert(enc_lists(es) =~= b.subrange(21 + 20 * n, b.len() as int));
    assert(enc_lists(lv).len() <= enc_lists(es).len());
    assert(enc_lists(lv) =~= enc_lists(es).take(enc_lists(lv).len() as int));
    lemma_enc_lists_prefix(lv, es);
    lemma_enc_lists_split(es, lv.len() as int);
    assert(enc_lists(es.take(lv.len() as int)) == enc_lists(lv));
    assert(b.subrange(pos, b.len() as int) =~= enc_lists(es.skip(lv.len() as int)));
}

/// No well-formed parts serialize to the byte string `b`.
pub open spec fn no_source(b: Seq<u8>) -> bool {
    forall|vs: Seq<Seq<u8>>, es: Seq<Seq<usize>>|
        !(good_parts(vs, es) && (#[trigger] spec_encode(vs, es)) == b)
}

/// The total length of the byte form of well-formed parts.
proof fn lemma_encode_len(vs: Seq<Seq<u8>>, es: Seq<Seq<usize>>)
    requires
        good_parts(vs, es),
    ensures
        spec_encode(vs, es).len() == 21 + 20 * vs.len() + enc_lists(es).len(),
        enc_lists(es).len() >= 8 * es.len(),
{
    lemma_enc_digs_len(vs);
    lemma_enc_lists_len_lb(es);
}

/// The digest views of parsed vertex digests.
pub open spec fn digs_view(ds: Seq<Digest>) -> Seq<Seq<u8>> {
    ds.map_values(|d: Digest| d@)
}

/// The list views of parsed parent lists.
pub open spec fn lists_view(ls: Seq<Vec<usize>>) -> Seq<Seq<usize>> {
    ls.map_values(|l: Vec<usize>| l@)
}

/// Parses the byte form back into vertex digests and parent lists.
/// On success the parts are faithful: re-encoding them yields exactly
/// the input bytes.
pub fn parse_parts(b: &Vec<u8>) -> (r: Option<(Vec<Digest>, Vec<Vec<usize>>)>)
    ensures
        r is Some ==> good_parts(digs_view(r.unwrap().0@), lists_view(r.unwrap().1@)),
        r is Some ==> spec_encode(digs_view(r.unwrap().0@), lists_view(r.unwrap().1@)) == b@,
        r is None ==> no_source(b@),
{
    let len = b.len();
    if len < 21 {
        proof {
            assert forall|vs: Seq<Seq<u8>>, es: Seq<Seq<usize>>|
                !(good_parts(vs, es) && (#[trigger] spec_encode(vs, es)) == b@) by {
                if good_parts(vs, es) && spec_encode(vs, es) == b@ {
                    lemma_encode_len(vs, es);
                }
            }
        }
        return None;
    }
    if !(b[0] == 82 && b[1] == 86 && b[2] == 71 && b[3] == 49 && b[4] == 1) {
        proof {
            assert forall|vs: Seq<Seq<u8>>, es: Seq<Seq<usize>>|
                !(good_parts(vs, es) && (#[trigger] spec_encode(vs, es)) == b@) by {
                if good_parts(vs, es) && spec_encode(vs, es) == b@ {
                    lemma_encode_len(vs, es);
                    assert(b@[0] == 82 && b@[1] == 86 && b@[2] == 71 && b@[3] == 49 && b@[4] == 1);
                }
            }
        }
        return None;
    }
    let n_u64 = read_u64(b, 5);
    if n_u64 > ((len - 21) / 20) as u64 {
        proof {
            assert forall|vs: Seq<Seq<u8>>, es: Seq<Seq<usize>>|
                !(good_parts(vs, es) && (#[trigger] spec_encode(vs, es)) == b@) by {
                if good_parts(vs, es) && spec_encode(vs, es) == b@ {
                    lemma_encode_len(vs, es);
                    assert(b@.subrange(5, 13) =~= enc_u64(vs.len() as u64));
                    lemma_le8_at(b@, 5, vs.len() as u64);
                    assert(n_u64 == vs.len() as u64);
                    assert(20 * vs.len() <= len - 21);
                    assert(vs.len() <= (len - 21) / 20) by (nonlinear_arith)
                        requires
                            20 * vs.len() <= len - 21,
                            len >= 21,
                    ;
                }
            }
        }
        return None;
    }
    let n = n_u64 as usize;
    proof {
        assert(n as u64 == n_u64);
    }
    let mut digs: Vec<Digest> = Vec::new();
    let mut pos: usize = 13;
    let mut i: usize = 0;
    proof {
        lemma_le8_bytes(b@, 5);
        assert(b@.subrange(5, 13) == enc_u64(n as u64));
        assert(digs_view(digs@) =~= Seq::<Seq<u8>>::empty());
        assert(enc_digs(digs_view(digs@)) == Seq::<u8>::empty());
        assert(b@.subrange(0, 13) =~= spec_header() + enc_u64(n as u64) + enc_digs(
            digs_view(digs@),
        ));
    }
    while i < n
        invariant
            0 <= i <= n,
            len == b@.len(),
            n <= (len - 21) / 20,
            pos == 13 + 20 * i,
            digs@.len() == i,
            b@.subrange(0, pos as int) =~= spec_header() + enc_u64(n as u64) + enc_digs(
                digs_view(digs@),
            ),
            forall|t: int| 0 <= t < i ==> (#[trigger] digs_view(digs@)[t]).len() == 20,
        decreases n - i,
    {
        let mut bytes: [u8; 20] = [0; 20];
        let mut k: usize = 0;
        while k < 20
            invariant
                0 <= k <= 20,
                pos == 13 + 20 * i,
                0 <= i < n,
                n <= (len - 21) / 20,
                len == b@.len(),
                forall|t: int| 0 <= t < k ==> bytes@[t] == b@[pos + t],
            decreases 20 - k,
        {
            bytes[k] = b[pos + k];
            k = k + 1;
        }
        let d = Digest::new(bytes);
        let ghost pre = digs_view(digs@);
        digs.push(d);
        proof {
            assert(d@ =~= b@.subrange(pos as int, pos + 20));
            assert(digs_view(digs@) =~= pre.push(d@));
            lemma_enc_digs_snoc(pre, d@);
            assert(b@.subrange(0, pos + 20) =~= b@.subrange(0, pos as int) + b@.subrange(
                pos as int,
                pos + 20,
            ));
            assert(b@.subrange(0, pos + 20) =~= spec_header() + enc_u64(n as u64) + enc_digs(
                digs_view(digs@),
            ));
        }
        pos = pos + 20;
        i = i + 1;
    }
    if len - pos < 8 {
        proof {
            assert forall|vs: Seq<Seq<u8>>, es: Seq<Seq<usize>>|
                !(good_parts(vs, es) && (#[trigger] spec_encode(vs, es)) == b@) by {
                if good_parts(vs, es) && spec_encode(vs, es) == b@ {
                    lemma_encode_len(vs, es);
                    assert(b@.subrange(5, 13) =~= enc_u64(vs.len() as u64));
                    lemma_le8_at(b@, 5, vs.len() as u64);
                    assert(n as u64 == vs.len() as u64);
                    assert(vs.len() == n);
                }
            }
        }
        return None;
    }
    let m_u64 = read_u64(b, pos);
    if m_u64 != n as u64 {
        proof {
            assert forall|vs: Seq<Seq<u8>>, es: Seq<Seq<usize>>|
                !(good_parts(vs, es) && (#[trigger] spec_encode(vs, es)) == b@) by {
                if good_parts(vs, es) && spec_encode(vs, es) == b@ {
                    lemma_encode_len(vs, es);
                    assert(b@.subrange(5, 13) =~= enc_u64(vs.len() as u64));
                    lemma_le8_at(b@, 5, vs.len() as u64);
                    assert(vs.len() == n);
                    assert(b@.subrange(pos as int, pos + 8) =~= enc_u64(es.len() as u64));
                    lemma_le8_at(b@, pos as int, es.len() as u64);
                    assert(m_u64 == es.len() as u64);
                }
            }
        }
        return None;
    }
    proof {
        lemma_le8_bytes(b@, pos as int);
        assert(b@.subrange(pos as int, pos + 8) == enc_u64(m_u64));
        assert(b@.subrange(0, pos + 8) =~= b@.subrange(0, pos as int) + b@.subrange(
            pos as int,
            pos + 8,
        ));
    }
    let ghost head = b@.subrange(0, pos + 8);
    pos = pos + 8;
    let mut lists: Vec<Vec<usize>> = Vec::new();
    let mut v: usize = 0;
    while v < n
        invariant
            0 <= v <= n,
            len == b@.len(),
            pos <= len,
            n < 0x1_0000_0000_0000_0000,
            le8(b@, 5) == n as u64,
            digs@.len() == n,
            lists@.len() == v,
            head == spec_header() + enc_u64(n as u64) + enc_digs(digs_view(digs@)) + enc_u64(
                n as u64,
            ),
            b@.subrange(0, pos as int) =~= head + enc_lists(lists_view(lists@)),
            forall|t: int, k: int|
                0 <= t < v && 0 <= k < lists_view(lists@)[t].len() ==> (#[trigger] lists_view(
                    lists@,
                )[t][k]) < n,
            forall|t: int|
                0 <= t < v ==> (#[trigger] lists_view(lists@)[t]).len()
                    < 0x1_0000_0000_0000_0000,
        decreases n - v,
    {
        if len - pos < 8 {
            proof {
                assert forall|vs: Seq<Seq<u8>>, es: Seq<Seq<usize>>|
                    !(good_parts(vs, es) && (#[trigger] spec_encode(vs, es)) == b@) by {
                    if good_parts(vs, es) && spec_encode(vs, es) == b@ {
                        let dv = digs_view(digs@);
                        let lv = lists_view(lists@);
                        assert forall|t: int|
                            0 <= t < dv.len() implies (#[trigger] dv[t]).len() == 20 by {
                            assert(dv[t] == digs@[t]@);
                        }
                        lemma_align_at_lists(b@, dv, lv, pos as int, vs, es);
                        lemma_enc_lists_head(es, v as int);
                        lemma_enc_ids_len(es[v as int]);
                        assert(b@.subrange(pos as int, len as int) == enc_lists(
                            es.skip(v as int),
                        ));
                    }
                }
            }
            return None;
        }
        let l_u64 = read_u64(b, pos);
        if l_u64 > ((len - pos - 8) / 8) as u64 {
            proof {
                assert forall|vs: Seq<Seq<u8>>, es: Seq<Seq<usize>>|
                    !(good_parts(vs, es) && (#[trigger] spec_encode(vs, es)) == b@) by {
                    if good_parts(vs, es) && spec_encode(vs, es) == b@ {
                        let dv = digs_view(digs@);
                        let lv = lists_view(lists@);
                        assert forall|t: int|
                            0 <= t < dv.len() implies (#[trigger] dv[t]).len() == 20 by {
                            assert(dv[t] == digs@[t]@);
                        }
                        lemma_align_at_lists(b@, dv, lv, pos as int, vs, es);
                        lemma_enc_lists_head(es, v as int);
                        lemma_enc_ids_len(es[v as int]);
                        let w = es[v as int].len();
                        assert(b@.subrange(pos as int, len as int) == enc_lists(
                            es.skip(v as int),
                        ));
                        assert(b@.subrange(pos as int, pos + 8) =~= enc_u64(w as u64)) by {
                            assert forall|t: int|
                                0 <= t < 8 implies (#[trigger] b@.subrange(pos as int, pos + 8)[t])
                                == enc_u64(w as u64)[t] by {
                                assert(b@[pos + t] == enc_lists(es.skip(v as int))[t]);
                                assert(enc_lists(es.skip(v as int))[t] == enc_list(
                                    es[v as int],
                                )[t]);
                            }
                        }
                        lemma_le8_at(b@, pos as int, w as u64);
                        assert(l_u64 == w as u64);
                        lemma_enc_lists_len_lb(es.skip(v + 1));
                        assert(8 * w <= len - pos - 8);
                        assert(w <= (len - pos - 8) / 8) by (nonlinear_arith)
                            requires
                                8 * w <= len - pos - 8,
                                len >= pos + 8,
                                w >= 0,
                        ;
                    }
                }
            }
            return None;
        }
        let l = l_u64 as usize;
        proof {
            assert(l as u64 == l_u64);
            lemma_le8_bytes(b@, pos as int);
            assert(b@.subrange(pos as int, pos + 8) == enc_u64(l as u64));
            assert forall|vs: Seq<Seq<u8>>, es: Seq<Seq<usize>>|
                good_parts(vs, es) && (#[trigger] spec_encode(vs, es)) == b@ implies ((v as int)
                < es.len() && n == es.len() && (l as int) == es[v as int].len() && (forall|k2: int|
                0 <= k2 < es[v as int].len() ==> (#[trigger] es[v as int][k2]) < n)
                && b@.subrange(pos + 8, pos + 8 + 8 * (l as int)) == enc_ids(es[v as int])) by {
                let dv = digs_view(digs@);
                let lv = lists_view(lists@);
                assert forall|t: int| 0 <= t < dv.len() implies (#[trigger] dv[t]).len() == 20 by {
                    assert(dv[t] == digs@[t]@);
                }
                lemma_align_at_lists(b@, dv, lv, pos as int, vs, es);
                lemma_enc_lists_head(es, v as int);
                lemma_enc_ids_len(es[v as int]);
                let w = es[v as int].len();
                assert(b@.subrange(pos as int, len as int) == enc_lists(es.skip(v as int)));
                assert(b@.subrange(pos as int, pos + 8) =~= enc_u64(w as u64)) by {
                    assert forall|t: int|
                        0 <= t < 8 implies (#[trigger] b@.subrange(pos as int, pos + 8)[t])
                        == enc_u64(w as u64)[t] by {
                        assert(b@[pos + t] == enc_lists(es.skip(v as int))[t]);
                        assert(enc_lists(es.skip(v as int))[t] == enc_list(es[v as int])[t]);
                    }
                }
                lemma_le8_at(b@, pos as int, w as u64);
                assert((l as int) == w);
                assert forall|x: int|
                    0 <= x < 8 * (l as int) implies (#[trigger] b@.subrange(
                        pos + 8,
                        pos + 8 + 8 * (l as int),
                    )[x]) == enc_ids(es[v as int])[x] by {
                    assert(b@[pos + 8 + x] == enc_lists(es.skip(v as int))[8 + x]);
                    assert(enc_lists(es.skip(v as int))[8 + x] == enc_list(es[v as int])[8 + x]);
                    assert(enc_list(es[v as int])[8 + x] == enc_ids(es[v as int])[x]);
                }
                assert(b@.subrange(pos + 8, pos + 8 + 8 * (l as int)) =~= enc_ids(es[v as int]));
            }
        }
        let ghost list_start = pos;
        pos = pos + 8;
        let mut ids: Vec<usize> = Vec::new();
        let mut k: usize = 0;
        while k < l
            invariant
                0 <= k <= l,
                len == b@.len(),
                pos == list_start + 8 + 8 * k,
                pos + 8 * (l - k) <= len,
                ids@.len() == k,
                b@.subrange(list_start + 8, pos as int) =~= enc_ids(ids@),
                forall|t: int| 0 <= t < k ==> (#[trigger] ids@[t]) < n,
                forall|vs: Seq<Seq<u8>>, es: Seq<Seq<usize>>|
                    good_parts(vs, es) && (#[trigger] spec_encode(vs, es)) == b@ ==> ((v as int)
                        < es.len() && n == es.len() && (l as int) == es[v as int].len() && (forall|
                        k2: int,
                    |
                        0 <= k2 < es[v as int].len() ==> (#[trigger] es[v as int][k2]) < n)
                        && b@.subrange(list_start + 8, list_start + 8 + 8 * (l as int)) == enc_ids(
                        es[v as int],
                    )),
            decreases l - k,
        {
            let id_u64 = read_u64(b, pos);
            if id_u64 >= n as u64 {
                proof {
                    assert forall|vs: Seq<Seq<u8>>, es: Seq<Seq<usize>>|
                        !(good_parts(vs, es) && (#[trigger] spec_encode(vs, es)) == b@) by {
                        if good_parts(vs, es) && spec_encode(vs, es) == b@ {
                            lemma_enc_ids_index(es[v as int], k as int);
                            let r = b@.subrange(list_start + 8, list_start + 8 + 8 * (l as int));
                            assert(b@.subrange(pos as int, pos + 8) =~= enc_u64(
                                es[v as int][k as int] as u64,
                            )) by {
                                assert forall|t: int|
                                    0 <= t < 8 implies (#[trigger] b@.subrange(
                                        pos as int,
                                        pos + 8,
                                    )[t]) == enc_u64(es[v as int][k as int] as u64)[t] by {
                                    assert(b@[pos + t] == r[8 * (k as int) + t]);
                                    assert(r[8 * (k as int) + t] == enc_ids(
                                        es[v as int],
                                    ).subrange(
                                        8 * (k as int),
                                        8 * (k as int) + 8,
                                    )[t]);
                                }
                            }
                            lemma_le8_at(b@, pos as int, es[v as int][k as int] as u64);
                            assert(id_u64 == es[v as int][k as int] as u64);
                            assert(es[v as int][k as int] < n);
                        }
                    }
                }
                return None;
            }
            let id = id_u64 as usize;
            proof {
                assert(id as u64 == id_u64);
                lemma_le8_bytes(b@, pos as int);
                assert(b@.subrange(pos as int, pos + 8) == enc_u64(id as u64));
            }
            let ghost pre_ids = ids@;
            ids.push(id);
            proof {
                lemma_enc_ids_snoc(pre_ids, id);
                assert(b@.subrange(list_start + 8, pos + 8) =~= b@.subrange(
                    list_start + 8,
                    pos as int,
                ) + b@.subrange(pos as int, pos + 8));
                assert(b@.subrange(list_start + 8, pos + 8) =~= enc_ids(ids@));
            }
            pos = pos + 8;
            k = k + 1;
        }
        let ghost pre_lists = lists_view(lists@);
        lists.push(ids);
        proof {
            assert(lists_view(lists@) =~= pre_lists.push(ids@));
            lemma_enc_lists_snoc(pre_lists, ids@);
            assert(b@.subrange(list_start as int, pos as int) =~= b@.subrange(
                list_start as int,
                list_start + 8,
            ) + b@.subrange(list_start + 8, pos as int));
            assert(b@.subrange(list_start as int, pos as int) =~= enc_list(ids@));
            assert(b@.subrange(0, pos as int) =~= b@.subrange(0, list_start as int) + b@.subrange(
                list_start as int,
                pos as int,
            ));
            assert(b@.subrange(0, pos as int) =~= head + enc_lists(lists_view(lists@)));
        }
        v = v + 1;
    }
    if pos != len {
        proof {
            assert forall|vs: Seq<Seq<u8>>, es: Seq<Seq<usize>>|
                !(good_parts(vs, es) && (#[trigger] spec_encode(vs, es)) == b@) by {
                if good_parts(vs, es) && spec_encode(vs, es) == b@ {
                    let dv = digs_view(digs@);
                    let lv = lists_view(lists@);
                    assert forall|t: int| 0 <= t < dv.len() implies (#[trigger] dv[t]).len()
                        == 20 by {
                        assert(dv[t] == digs@[t]@);
                    }
                    lemma_align_at_lists(b@, dv, lv, pos as int, vs, es);
                    assert(lv =~= es);
                    assert(pos == b@.len());
                }
            }
        }
        return None;
    }
    proof {
        assert(b@.subrange(0, len as int) =~= b@);
        assert(digs_view(digs@).len() == n);
        assert(lists_view(lists@).len() == n);
        assert(good_parts(digs_view(digs@), lists_view(lists@)));
        assert(spec_encode(digs_view(digs@), lists_view(lists@)) == b@);
    }
    Some((digs, lists))
}

/// Deserializes a graph from the byte form, rebuilding the digest map
/// by scanning the vertex digests in order.  On success the loaded
/// graph is well-formed and faithful: serializing it again yields
/// exactly the input bytes, so by the injectivity of the format it has
/// the vertices and edges the bytes were written from.
pub fn decode_graph(b: &Vec<u8>) -> (r: Option<ReverseGraph>)
    ensures
        r is Some ==> {
            &&& r.unwrap().wf()
            &&& good_parts(r.unwrap().verts_view(), r.unwrap().edges_view())
            &&& spec_encode(r.unwrap().verts_view(), r.unwrap().edges_view()) == b@
        },
        r is None ==> forall|vs: Seq<Seq<u8>>, es: Seq<Seq<usize>>|
            !(good_parts(vs, es) && distinct_digs(vs) && (#[trigger] spec_encode(vs, es)) == b@),
{
    match parse_parts(b) {
        None => {
            proof {
                assert forall|vs: Seq<Seq<u8>>, es: Seq<Seq<usize>>|
                    !(good_parts(vs, es) && distinct_digs(vs) && (#[trigger] spec_encode(vs, es))
                        == b@) by {
                    if good_parts(vs, es) && spec_encode(vs, es) == b@ {
                        assert(!(good_parts(vs, es) && spec_encode(vs, es) == b@));
                    }
                }
            }
            None
        },
        Some((digs, lists)) => {
            let ghost dv = digs_view(digs@);
            let ghost lv = lists_view(lists@);
            match ReverseGraph::from_parts(digs, lists) {
                None => {
                    proof {
                        assert forall|vs: Seq<Seq<u8>>, es: Seq<Seq<usize>>|
                            !(good_parts(vs, es) && distinct_digs(vs) && (#[trigger] spec_encode(
                                vs,
                                es,
                            )) == b@) by {
                            if good_parts(vs, es) && distinct_digs(vs) && spec_encode(vs, es)
                                == b@ {
                                lemma_encode_injective(dv, lv, vs, es);
                                assert(digs@.len() == lists@.len());
                                assert forall|i: int, j: int|
                                    0 <= i < j < digs@.len() implies digs@[i]@ != digs@[j]@ by {
                                    assert(dv[i] == vs[i] && dv[j] == vs[j]);
                                }
                                assert forall|i: int, k: int|
                                    0 <= i < lists@.len() && 0 <= k < lists@[i]@.len() implies (
                                #[trigger] lists@[i]@[k]) < digs@.len() by {
                                    assert(lv[i] == es[i]);
                                    assert(es[i][k] < vs.len());
                                }
                            }
                        }
                    }
                    None
                },
                Some(g) => {
                    proof {
                        assert(g.verts_view() =~= dv);
                        assert(g.edges_view() =~= lv);
                    }
                    Some(g)
                },
            }
        },
    }
}

/// Loading a saved graph yields a graph that answers every lookup
/// exactly as the saved one did: the byte stream written for `g` pins
/// down `g2` completely.
pub proof fn lemma_save_load_roundtrip(g: ReverseGraph, g2: ReverseGraph)
    requires
        g.wf(),
        g2.wf(),
        good_parts(g.verts_view(), g.edges_view()),
        good_parts(g2.verts_view(), g2.edges_view()),
        spec_encode(g2.verts_view(), g2.edges_view()) == spec_encode(
            g.verts_view(),
            g.edges_view(),
        ),
    ensures
        g2.verts_view() == g.verts_view(),
        g2.edges_view() == g.edges_view(),
        forall|b: Seq<u8>, j: usize| g2.answers(b, j) <==> g.answers(b, j),
{
    lemma_encode_injective(
        g2.verts_view(),
        g2.edges_view(),
        g.verts_view(),
        g.edges_view(),
    );
    ReverseGraph::lemma_same_views_same_answers(g2, g);
}

} // verus!
