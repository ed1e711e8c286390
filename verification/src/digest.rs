//! The 20-byte content digest that identifies every object, with its
//! total order (lexicographic byte comparison) and hex conversion.

use vstd::prelude::*;

verus! {

/// A 20-byte opaque content identifier.  Digests are compared by
/// lexicographic byte order and are never parsed for structure.
#[derive(Clone, Copy, Debug)]
pub struct Digest {
    bytes: [u8; 20],
}

impl View for Digest {
    type V = Seq<u8>;

    closed spec fn view(&self) -> Seq<u8> {
        self.bytes@
    }
}

/// Every digest views as exactly 20 bytes.
pub broadcast proof fn lemma_digest_len(d: Digest)
    ensures
        (#[trigger] d@).len() == 20,
{
}

/// Lexicographic "less than" on the byte suffixes starting at `k`.
pub open spec fn lex_lt_from(a: Seq<u8>, b: Seq<u8>, k: int) -> bool
    recommends
        a.len() == b.len(),
        0 <= k <= a.len(),
    decreases a.len() - k,
{
    if k < 0 || k >= a.len() || k >= b.len() {
        false
    } else if a[k] < b[k] {
        true
    } else if a[k] > b[k] {
        false
    } else {
        lex_lt_from(a, b, k + 1)
    }
}

/// Lexicographic "less than" on whole byte strings of equal length.
pub open spec fn lex_lt(a: Seq<u8>, b: Seq<u8>) -> bool {
    lex_lt_from(a, b, 0)
}

/// On equal-length strings, the suffix order at `k` is decided by the
/// first differing byte at or after `k`: exactly one of `<`, `>`, or
/// "suffixes equal" holds.
pub proof fn lemma_lex_trichotomy_from(a: Seq<u8>, b: Seq<u8>, k: int)
    requires
        a.len() == b.len(),
        0 <= k <= a.len(),
    ensures
        lex_lt_from(a, b, k) || lex_lt_from(b, a, k) || (forall|i: int|
            k <= i < a.len() ==> a[i] == b[i]),
        !(lex_lt_from(a, b, k) && lex_lt_from(b, a, k)),
        (forall|i: int| k <= i < a.len() ==> a[i] == b[i]) ==> !lex_lt_from(a, b, k)
            && !lex_lt_from(b, a, k),
    decreases a.len() - k,
{
    if k < a.len() {
        lemma_lex_trichotomy_from(a, b, k + 1);
    }
}

/// The whole-string order is total: exactly one of `a < b`, `b < a`,
/// `a == b` holds for equal-length strings.
pub proof fn lemma_lex_trichotomy(a: Seq<u8>, b: Seq<u8>)
    requires
        a.len() == b.len(),
    ensures
        lex_lt(a, b) || lex_lt(b, a) || a =~= b,
        !(lex_lt(a, b) && lex_lt(b, a)),
        a =~= b ==> !lex_lt(a, b) && !lex_lt(b, a),
{
    lemma_lex_trichotomy_from(a, b, 0);
}

/// The suffix order is transitive.
pub proof fn lemma_lex_trans_from(a: Seq<u8>, b: Seq<u8>, c: Seq<u8>, k: int)
    requires
        a.len() == b.len(),
        b.len() == c.len(),
        0 <= k <= a.len(),
        lex_lt_from(a, b, k),
        lex_lt_from(b, c, k),
    ensures
        lex_lt_from(a, c, k),
    decreases a.len() - k,
{
    if k < a.len() && a[k] == b[k] && b[k] == c[k] {
        lemma_lex_trans_from(a, b, c, k + 1);
    }
}

/// The whole-string order is transitive.
pub proof fn lemma_lex_trans(a: Seq<u8>, b: Seq<u8>, c: Seq<u8>)
    requires
        a.len() == b.len(),
        b.len() == c.len(),
        lex_lt(a, b),
        lex_lt(b, c),
    ensures
        lex_lt(a, c),
{
    lemma_lex_trans_from(a, b, c, 0);
}

/// A prefix of equal bytes followed by a smaller byte decides the order.
proof fn lemma_lex_lt_of_first_diff(a: Seq<u8>, b: Seq<u8>, k: int, d: int)
    requires
        a.len() == b.len(),
        0 <= k <= d < a.len(),
        forall|i: int| k <= i < d ==> a[i] == b[i],
        a[d] < b[d],
    ensures
        lex_lt_from(a, b, k),
    decreases d - k,
{
    if k < d {
        lemma_lex_lt_of_first_diff(a, b, k + 1, d);
    }
}

/// The relative order of `a` and `b` under lexicographic byte comparison.
pub enum DigestOrder {
    Below,
    Same,
    Above,
}

impl Digest {
    /// Builds a digest from its 20 raw bytes.
    pub fn new(bytes: [u8; 20]) -> (d: Digest)
        ensures
            d@ == bytes@,
    {
        Digest { bytes }
    }

    /// The byte at position `i`.
    pub fn byte_at(&self, i: usize) -> (b: u8)
        requires
            i < 20,
        ensures
            b == self@[i as int],
    {
        self.bytes[i]
    }

    /// Compares two digests by lexicographic byte order.
    pub fn cmp_digest(&self, other: &Digest) -> (r: DigestOrder)
        ensures
            r is Below <==> lex_lt(self@, other@),
            r is Above <==> lex_lt(other@, self@),
            r is Same <==> self@ == other@,
    {
        let a = &self.bytes;
        let b = &other.bytes;
        let mut i: usize = 0;
        while i < 20
            invariant
                0 <= i <= 20,
                a@ == self@,
                b@ == other@,
                forall|j: int| 0 <= j < i ==> a@[j] == b@[j],
            decreases 20 - i,
        {
            if a[i] < b[i] {
                proof {
                    lemma_lex_lt_of_first_diff(a@, b@, 0, i as int);
                    lemma_lex_trichotomy(a@, b@);
                }
                return DigestOrder::Below;
            }
            if a[i] > b[i] {
                proof {
                    lemma_lex_lt_of_first_diff(b@, a@, 0, i as int);
                    lemma_lex_trichotomy(a@, b@);
                }
                return DigestOrder::Above;
            }
            i = i + 1;
        }
        proof {
            assert(self@ =~= other@);
            lemma_lex_trichotomy(a@, b@);
        }
        DigestOrder::Same
    }

    /// Byte-for-byte equality of two digests.
    pub fn eq_digest(&self, other: &Digest) -> (r: bool)
        ensures
            r <==> self@ == other@,
    {
        match self.cmp_digest(other) {
            DigestOrder::Same => true,
            _ => false,
        }
    }
}

/// The numeric value of an ASCII hex character, if it is one.
pub open spec fn spec_hex_val(c: u8) -> Option<u8> {
    if 48 <= c <= 57 {
        Some((c - 48) as u8)
    } else if 97 <= c <= 102 {
        Some((c - 97 + 10) as u8)
    } else if 65 <= c <= 70 {
        Some((c - 65 + 10) as u8)
    } else {
        None
    }
}

/// Whether `s` is a 40-character ASCII hex spelling of a digest.
pub open spec fn spec_is_hex_digest(s: Seq<u8>) -> bool {
    s.len() == 40 && forall|i: int| 0 <= i < 40 ==> (#[trigger] spec_hex_val(s[i])) is Some
}

/// The digest bytes spelled by a valid 40-character hex string.
pub open spec fn spec_hex_bytes(s: Seq<u8>) -> Seq<u8> {
    Seq::new(20, |i: int| (spec_hex_val(s[2 * i]).unwrap() * 16 + spec_hex_val(
        s[2 * i + 1],
    ).unwrap()) as u8)
}

/// The lower-case ASCII hex character for a value below 16.
pub open spec fn spec_hex_char(v: u8) -> u8
    recommends
        v < 16,
{
    if v < 10 {
        (48 + v) as u8
    } else {
        (97 + v - 10) as u8
    }
}

/// The 40-character lower-case hex spelling of digest bytes `d`.
pub open spec fn spec_to_hex(d: Seq<u8>) -> Seq<u8>
    recommends
        d.len() == 20,
{
    Seq::new(40, |i: int| if i % 2 == 0 {
        spec_hex_char(d[i / 2] / 16)
    } else {
        spec_hex_char((d[i / 2] % 16) as u8)
    })
}

fn hex_val(c: u8) -> (r: Option<u8>)
    ensures
        r == spec_hex_val(c),
{
    if 48 <= c && c <= 57 {
        Some(c - 48)
    } else if 97 <= c && c <= 102 {
        Some(c - 97 + 10)
    } else if 65 <= c && c <= 70 {
        Some(c - 65 + 10)
    } else {
        None
    }
}

/// Parses a 40-character ASCII hex line into a digest.  Returns `None`
/// exactly when the input is not a valid hex digest.
pub fn parse_hex_digest(s: &[u8]) -> (r: Option<Digest>)
    ensures
        r is Some <==> spec_is_hex_digest(s@),
        r is Some ==> r.unwrap()@ == spec_hex_bytes(s@),
{
    if s.len() != 40 {
        assert(!spec_is_hex_digest(s@));
        return None;
    }
    let mut bytes: [u8; 20] = [0; 20];
    let mut i: usize = 0;
    while i < 20
        invariant
            0 <= i <= 20,
            s@.len() == 40,
            forall|j: int| 0 <= j < 2 * i ==> (#[trigger] spec_hex_val(s@[j])) is Some,
            forall|j: int|
                0 <= j < i ==> bytes@[j] == (spec_hex_val(s@[2 * j]).unwrap() * 16 + spec_hex_val(
                    s@[2 * j + 1],
                ).unwrap()) as u8,
        decreases 20 - i,
    {
        let hi = hex_val(s[2 * i]);
        let lo = hex_val(s[2 * i + 1]);
        match (hi, lo) {
            (Some(h), Some(l)) => {
                bytes[i] = h * 16 + l;
            },
            _ => {
                assert(!spec_is_hex_digest(s@));
                return None;
            },
        }
        i = i + 1;
    }
    proof {
        assert forall|j: int| 0 <= j < 40 implies (#[trigger] spec_hex_val(s@[j])) is Some by {
            assert(0 <= j < 2 * 20);
        }
        assert(bytes@ =~= spec_hex_bytes(s@));
    }
    Some(Digest::new(bytes))
}

fn hex_char(v: u8) -> (r: u8)
    requires
        v < 16,
    ensures
        r == spec_hex_char(v),
{
    if v < 10 {
        48 + v
    } else {
        97 + v - 10
    }
}

/// Writes the 40-character lower-case hex spelling of `d` onto the end
/// of `out`.
pub fn push_hex_digest(d: &Digest, out: &mut Vec<u8>)
    ensures
        final(out)@ == old(out)@ + spec_to_hex(d@),
{
    let ghost base = out@;
    let mut i: usize = 0;
    while i < 20
        invariant
            0 <= i <= 20,
            d@.len() == 20,
            out@.len() == base.len() + 2 * i,
            forall|j: int| 0 <= j < base.len() ==> out@[j] == base[j],
            forall|j: int|
                base.len() <= j < out@.len() ==> out@[j] == spec_to_hex(d@)[j - base.len()],
        decreases 20 - i,
    {
        let b = d.byte_at(i);
        out.push(hex_char(b / 16));
        out.push(hex_char(b % 16));
        i = i + 1;
    }
    assert(out@ =~= base + spec_to_hex(d@));
}

/// The 40-character lower-case hex spelling of `d` as fresh bytes.
pub fn to_hex(d: &Digest) -> (r: Vec<u8>)
    ensures
        r@ == spec_to_hex(d@),
{
    let mut out: Vec<u8> = Vec::new();
    push_hex_digest(d, &mut out);
    assert(out@ =~= spec_to_hex(d@));
    out
}

} // verus!
