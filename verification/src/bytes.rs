//! Fixed-width byte strings and the byte-level encodings used by the store.
//!
//! [`Bytes32`] carries coin ids, puzzle hashes, block hashes and Merkle digests. Its view is the
//! 32-byte sequence it holds. Equality and ordering are decided byte by byte: the ordering is the
//! lexicographic order of the bytes, which is the order in which an ordered key-value store walks
//! keys that start with a 32-byte identifier.
use vstd::prelude::*;

verus! {

/// A 32-byte value (coin id, puzzle hash, block hash, state root, ...).
#[derive(Clone, Copy, Debug, PartialEq, Eq, Hash)]
pub struct Bytes32 {
    pub bytes: [u8; 32],
}

impl View for Bytes32 {
    type V = Seq<u8>;

    open spec fn view(&self) -> Seq<u8> {
        self.bytes@
    }
}

/// Result of comparing two byte strings in lexicographic order.
#[derive(Clone, Copy, Debug, PartialEq, Eq, Structural)]
pub enum ByteOrder {
    Less,
    Equal,
    Greater,
}

/// Strict lexicographic order on byte sequences: `a` is below `b` when, at the first position
/// where they differ, `a` holds the smaller byte, or when `a` is a proper prefix of `b`.
pub open spec fn lex_lt(a: Seq<u8>, b: Seq<u8>) -> bool {
    ||| exists|i: int|
        #![trigger a[i], b[i]]
        0 <= i < a.len() && i < b.len() && a[i] < b[i] && a.take(i) == b.take(i)
    ||| (a.len() < b.len() && a == b.take(a.len() as int))
}

/// The all-zero 32-byte sequence.
pub open spec fn zero32() -> Seq<u8> {
    Seq::new(32, |i: int| 0u8)
}

/// `lex_lt` is transitive.
pub proof fn lemma_lex_lt_transitive(a: Seq<u8>, b: Seq<u8>, c: Seq<u8>)
    requires
        lex_lt(a, b),
        lex_lt(b, c),
    ensures
        lex_lt(a, c),
{
    if exists|i: int|
        #![trigger a[i], b[i]]
        0 <= i < a.len() && i < b.len() && a[i] < b[i] && a.take(i) == b.take(i) {
        let i = choose|i: int|
            #![trigger a[i], b[i]]
            0 <= i < a.len() && i < b.len() && a[i] < b[i] && a.take(i) == b.take(i);
        if exists|j: int|
            #![trigger b[j], c[j]]
            0 <= j < b.len() && j < c.len() && b[j] < c[j] && b.take(j) == c.take(j) {
            let j = choose|j: int|
                #![trigger b[j], c[j]]
                0 <= j < b.len() && j < c.len() && b[j] < c[j] && b.take(j) == c.take(j);
            if i < j {
                assert(a.take(i) =~= c.take(i)) by {
                    assert forall|k: int| 0 <= k < i implies a.take(i)[k] == c.take(i)[k] by {
                        assert(a.take(i)[k] == b.take(i)[k]);
                        assert(b.take(j)[k] == c.take(j)[k]);
                    }
                }
                assert(b.take(j)[i] == c.take(j)[i]);
                assert(a[i] < c[i]);
            } else if i == j {
                assert(a.take(i) =~= c.take(i)) by {
                    assert forall|k: int| 0 <= k < i implies a.take(i)[k] == c.take(i)[k] by {
                        assert(a.take(i)[k] == b.take(i)[k]);
                        assert(b.take(j)[k] == c.take(j)[k]);
                    }
                }
            } else {
                assert(a.take(j) =~= c.take(j)) by {
                    assert forall|k: int| 0 <= k < j implies a.take(j)[k] == c.take(j)[k] by {
                        assert(a.take(i)[k] == b.take(i)[k]);
                        assert(b.take(j)[k] == c.take(j)[k]);
                    }
                }
                assert(a.take(i)[j] == b.take(i)[j]);
                assert(a[j] < c[j]);
            }
        } else {
            // b is a proper prefix of c
            assert(b =~= c.take(b.len() as int));
            assert(c[i] == b[i]);
            assert(a.take(i) =~= c.take(i)) by {
                assert forall|k: int| 0 <= k < i implies a.take(i)[k] == c.take(i)[k] by {
                    assert(a.take(i)[k] == b.take(i)[k]);
                    assert(c[k] == b[k]);
                }
            }
            assert(a[i] < c[i]);
        }
    } else {
        // a is a proper prefix of b
        assert(a =~= b.take(a.len() as int));
        if exists|j: int|
            #![trigger b[j], c[j]]
            0 <= j < b.len() && j < c.len() && b[j] < c[j] && b.take(j) == c.take(j) {
            let j = choose|j: int|
                #![trigger b[j], c[j]]
                0 <= j < b.len() && j < c.len() && b[j] < c[j] && b.take(j) == c.take(j);
            if j < a.len() {
                assert(a[j] == b[j]);
                assert(a.take(j) =~= c.take(j)) by {
                    assert forall|k: int| 0 <= k < j implies a.take(j)[k] == c.take(j)[k] by {
                        assert(a[k] == b[k]);
                        assert(b.take(j)[k] == c.take(j)[k]);
                    }
                }
                assert(a[j] < c[j]);
            } else {
                assert(a =~= c.take(a.len() as int)) by {
                    assert forall|k: int| 0 <= k < a.len() implies a[k] == c.take(
                        a.len() as int,
                    )[k] by {
                        assert(a[k] == b[k]);
                        assert(b.take(j)[k] == c.take(j)[k]);
                    }
                }
            }
        } else {
            assert(b =~= c.take(b.len() as int));
            assert(a =~= c.take(a.len() as int)) by {
                assert forall|k: int| 0 <= k < a.len() implies a[k] == c.take(a.len() as int)[k] by {
                    assert(a[k] == b[k]);
                    assert(b[k] == c[k]);
                }
            }
        }
    }
}

/// `lex_lt` is irreflexive.
pub proof fn lemma_lex_lt_irreflexive(a: Seq<u8>)
    ensures
        !lex_lt(a, a),
{
}

/// `lex_lt` is asymmetric.
pub proof fn lemma_lex_lt_asymmetric(a: Seq<u8>, b: Seq<u8>)
    requires
        lex_lt(a, b),
    ensures
        !lex_lt(b, a),
{
    if lex_lt(b, a) {
        lemma_lex_lt_transitive(a, b, a);
    }
}

/// Compares two byte slices in lexicographic order.
pub fn compare_bytes(a: &[u8], b: &[u8]) -> (r: ByteOrder)
    ensures
        r == ByteOrder::Equal <==> a@ == b@,
        r == ByteOrder::Less <==> lex_lt(a@, b@),
        r == ByteOrder::Greater <==> lex_lt(b@, a@),
{
    let n = if a.len() < b.len() {
        a.len()
    } else {
        b.len()
    };
    let mut i: usize = 0;
    while i < n
        invariant
            n <= a.len(),
            n <= b.len(),
            n == a.len() || n == b.len(),
            i <= n,
            a@.take(i as int) =~= b@.take(i as int),
        decreases n - i,
    {
        if a[i] < b[i] {
            assert(lex_lt(a@, b@));
            proof {
                lemma_lex_lt_asymmetric(a@, b@);
            }
            return ByteOrder::Less;
        }
        if a[i] > b[i] {
            assert(lex_lt(b@, a@));
            proof {
                lemma_lex_lt_asymmetric(b@, a@);
            }
            return ByteOrder::Greater;
        }
        assert(a@.take(i + 1) =~= b@.take(i + 1)) by {
            assert(a@.take(i + 1) =~= a@.take(i as int).push(a@[i as int]));
            assert(b@.take(i + 1) =~= b@.take(i as int).push(b@[i as int]));
        }
        i = i + 1;
    }
    if a.len() < b.len() {
        assert(a@ =~= a@.take(n as int));
        assert(lex_lt(a@, b@));
        proof {
            lemma_lex_lt_asymmetric(a@, b@);
        }
        ByteOrder::Less
    } else if b.len() < a.len() {
        assert(b@ =~= b@.take(n as int));
        assert(lex_lt(b@, a@));
        proof {
            lemma_lex_lt_asymmetric(b@, a@);
        }
        ByteOrder::Greater
    } else {
        assert(a@ =~= a@.take(n as int));
        assert(b@ =~= b@.take(n as int));
        ByteOrder::Equal
    }
}

impl Bytes32 {
    /// Wraps 32 raw bytes.
    pub fn new(bytes: [u8; 32]) -> (r: Bytes32)
        ensures
            r@ == bytes@,
    {
        Bytes32 { bytes }
    }

    /// The all-zero value.
    pub fn zero() -> (r: Bytes32)
        ensures
            r@ == zero32(),
    {
        let r = Bytes32 { bytes: [0u8; 32] };
        assert(r@ =~= zero32());
        r
    }

    /// Byte-wise equality.
    pub fn equals(&self, other: &Bytes32) -> (r: bool)
        ensures
            r == (self@ == other@),
    {
        let mut i: usize = 0;
        while i < 32
            invariant
                i <= 32,
                forall|j: int| 0 <= j < i ==> self@[j] == other@[j],
            decreases 32 - i,
        {
            if self.bytes[i] != other.bytes[i] {
                return false;
            }
            i = i + 1;
        }
        assert(self@ =~= other@);
        true
    }

    /// Whether every byte is zero.
    pub fn is_zero(&self) -> (r: bool)
        ensures
            r == (self@ == zero32()),
    {
        let mut i: usize = 0;
        while i < 32
            invariant
                i <= 32,
                forall|j: int| 0 <= j < i ==> self@[j] == 0u8,
            decreases 32 - i,
        {
            if self.bytes[i] != 0 {
                return false;
            }
            i = i + 1;
        }
        assert(self@ =~= zero32());
        true
    }

    /// The bytes as a slice.
    pub fn as_slice(&self) -> (r: &[u8])
        ensures
            r@ == self@,
    {
        self.bytes.as_slice()
    }

    /// The bytes as an owned vector.
    pub fn to_vec(&self) -> (r: Vec<u8>)
        ensures
            r@ == self@,
    {
        let mut v: Vec<u8> = Vec::new();
        let mut i: usize = 0;
        while i < 32
            invariant
                i <= 32,
                v@ =~= self@.take(i as int),
            decreases 32 - i,
        {
            v.push(self.bytes[i]);
            i = i + 1;
        }
        assert(v@ =~= self@);
        v
    }

    /// Builds a value from the first 32 bytes of `data`.
    pub fn from_prefix(data: &[u8]) -> (r: Bytes32)
        requires
            data@.len() >= 32,
        ensures
            r@ == data@.take(32),
    {
        let mut bytes = [0u8; 32];
        let mut i: usize = 0;
        while i < 32
            invariant
                i <= 32,
                data@.len() >= 32,
                forall|j: int| 0 <= j < i ==> bytes@[j] == data@[j],
            decreases 32 - i,
        {
            bytes[i] = data[i];
            i = i + 1;
        }
        let r = Bytes32 { bytes };
        assert(r@ =~= data@.take(32));
        r
    }

    /// Builds a value from `data[start..start + 32]`.
    pub fn from_range(data: &[u8], start: usize) -> (r: Bytes32)
        requires
            start + 32 <= data@.len(),
        ensures
            r@ == data@.subrange(start as int, start + 32),
    {
        let mut bytes = [0u8; 32];
        let mut i: usize = 0;
        let n = data.len();
        while i < 32
            invariant
                i <= 32,
                n == data@.len(),
                start + 32 <= data@.len(),
                forall|j: int| 0 <= j < i ==> bytes@[j] == data@[start + j],
            decreases 32 - i,
        {
            bytes[i] = data[start + i];
            i = i + 1;
        }
        let r = Bytes32 { bytes };
        assert(r@ =~= data@.subrange(start as int, start + 32));
        r
    }
}

// ─────────────────────────────────────────────────────────────────────────────
// Fixed-width integer encodings
// ─────────────────────────────────────────────────────────────────────────────

/// Little-endian bytes of `x`.
pub open spec fn le_bytes(x: u64) -> Seq<u8> {
    seq![
        (x & 0xff) as u8,
        ((x >> 8u64) & 0xff) as u8,
        ((x >> 16u64) & 0xff) as u8,
        ((x >> 24u64) & 0xff) as u8,
        ((x >> 32u64) & 0xff) as u8,
        ((x >> 40u64) & 0xff) as u8,
        ((x >> 48u64) & 0xff) as u8,
        ((x >> 56u64) & 0xff) as u8,
    ]
}

/// Big-endian bytes of `x`.
pub open spec fn be_bytes(x: u64) -> Seq<u8> {
    seq![
        ((x >> 56u64) & 0xff) as u8,
        ((x >> 48u64) & 0xff) as u8,
        ((x >> 40u64) & 0xff) as u8,
        ((x >> 32u64) & 0xff) as u8,
        ((x >> 24u64) & 0xff) as u8,
        ((x >> 16u64) & 0xff) as u8,
        ((x >> 8u64) & 0xff) as u8,
        (x & 0xff) as u8,
    ]
}

/// The integer whose little-endian bytes are `b[0..8]`.
pub open spec fn from_le(b: Seq<u8>) -> u64 {
    (b[0] as u64) | ((b[1] as u64) << 8u64) | ((b[2] as u64) << 16u64) | ((b[3] as u64) << 24u64)
        | ((b[4] as u64) << 32u64) | ((b[5] as u64) << 40u64) | ((b[6] as u64) << 48u64) | ((
    b[7] as u64) << 56u64)
}

/// The integer whose big-endian bytes are `b[0..8]`.
pub open spec fn from_be(b: Seq<u8>) -> u64 {
    (b[7] as u64) | ((b[6] as u64) << 8u64) | ((b[5] as u64) << 16u64) | ((b[4] as u64) << 24u64)
        | ((b[3] as u64) << 32u64) | ((b[2] as u64) << 40u64) | ((b[1] as u64) << 48u64) | ((
    b[0] as u64) << 56u64)
}

proof fn lemma_le_roundtrip_bits(x: u64)
    ensures
        ((x & 0xff) as u8 as u64) | ((((x >> 8u64) & 0xff) as u8 as u64) << 8u64) | ((((x
            >> 16u64) & 0xff) as u8 as u64) << 16u64) | ((((x >> 24u64) & 0xff) as u8 as u64)
            << 24u64) | ((((x >> 32u64) & 0xff) as u8 as u64) << 32u64) | ((((x >> 40u64)
            & 0xff) as u8 as u64) << 40u64) | ((((x >> 48u64) & 0xff) as u8 as u64) << 48u64)
            | ((((x >> 56u64) & 0xff) as u8 as u64) << 56u64) == x,
{
    assert(((x & 0xff) as u8 as u64) | ((((x >> 8u64) & 0xff) as u8 as u64) << 8u64) | ((((x
        >> 16u64) & 0xff) as u8 as u64) << 16u64) | ((((x >> 24u64) & 0xff) as u8 as u64)
        << 24u64) | ((((x >> 32u64) & 0xff) as u8 as u64) << 32u64) | ((((x >> 40u64) & 0xff)
        as u8 as u64) << 40u64) | ((((x >> 48u64) & 0xff) as u8 as u64) << 48u64) | ((((x
        >> 56u64) & 0xff) as u8 as u64) << 56u64) == x) by (bit_vector);
}

/// Decoding the little-endian bytes of `x` gives `x` back.
pub proof fn lemma_le_roundtrip(x: u64)
    ensures
        from_le(le_bytes(x)) == x,
{
    lemma_le_roundtrip_bits(x);
}

/// Decoding the big-endian bytes of `x` gives `x` back.
pub proof fn lemma_be_roundtrip(x: u64)
    ensures
        from_be(be_bytes(x)) == x,
{
    lemma_le_roundtrip_bits(x);
}

/// Appends the little-endian bytes of `x` to `out`.
pub fn push_u64_le(out: &mut Vec<u8>, x: u64)
    ensures
        final(out)@ == old(out)@ + le_bytes(x),
{
    out.push((x & 0xff) as u8);
    out.push(((x >> 8) & 0xff) as u8);
    out.push(((x >> 16) & 0xff) as u8);
    out.push(((x >> 24) & 0xff) as u8);
    out.push(((x >> 32) & 0xff) as u8);
    out.push(((x >> 40) & 0xff) as u8);
    out.push(((x >> 48) & 0xff) as u8);
    out.push(((x >> 56) & 0xff) as u8);
    assert(out@ =~= old(out)@ + le_bytes(x));
}

/// Appends the big-endian bytes of `x` to `out`.
pub fn push_u64_be(out: &mut Vec<u8>, x: u64)
    ensures
        final(out)@ == old(out)@ + be_bytes(x),
{
    out.push(((x >> 56) & 0xff) as u8);
    out.push(((x >> 48) & 0xff) as u8);
    out.push(((x >> 40) & 0xff) as u8);
    out.push(((x >> 32) & 0xff) as u8);
    out.push(((x >> 24) & 0xff) as u8);
    out.push(((x >> 16) & 0xff) as u8);
    out.push(((x >> 8) & 0xff) as u8);
    out.push((x & 0xff) as u8);
    assert(out@ =~= old(out)@ + be_bytes(x));
}

/// Reads a little-endian `u64` from `data[start..start + 8]`.
pub fn read_u64_le(data: &[u8], start: usize) -> (r: u64)
    requires
        start + 8 <= data@.len(),
    ensures
        r == from_le(data@.subrange(start as int, start + 8)),
{
    let ghost s = data@.subrange(start as int, start + 8);
    assert(s[0] == data@[start as int] && s[7] == data@[start + 7]);
    (data[start] as u64) | ((data[start + 1] as u64) << 8) | ((data[start + 2] as u64) << 16) | ((
    data[start + 3] as u64) << 24) | ((data[start + 4] as u64) << 32) | ((data[start + 5] as u64)
        << 40) | ((data[start + 6] as u64) << 48) | ((data[start + 7] as u64) << 56)
}

/// Reads a big-endian `u64` from `data[start..start + 8]`.
pub fn read_u64_be(data: &[u8], start: usize) -> (r: u64)
    requires
        start + 8 <= data@.len(),
    ensures
        r == from_be(data@.subrange(start as int, start + 8)),
{
    let ghost s = data@.subrange(start as int, start + 8);
    let n = data.len();
    assert(s[0] == data@[start as int] && s[7] == data@[start + 7]);
    (data[start + 7] as u64) | ((data[start + 6] as u64) << 8) | ((data[start + 5] as u64) << 16)
        | ((data[start + 4] as u64) << 24) | ((data[start + 3] as u64) << 32) | ((data[start
        + 2] as u64) << 40) | ((data[start + 1] as u64) << 48) | ((data[start] as u64) << 56)
}

/// Appends all of `src` to `out`.
pub fn extend_from(out: &mut Vec<u8>, src: &[u8])
    ensures
        final(out)@ == old(out)@ + src@,
{
    let mut i: usize = 0;
    while i < src.len()
        invariant
            i <= src@.len(),
            out@ =~= old(out)@ + src@.take(i as int),
        decreases src.len() - i,
    {
        out.push(src[i]);
        i = i + 1;
    }
    assert(src@.take(src@.len() as int) =~= src@);
}

} // verus!
