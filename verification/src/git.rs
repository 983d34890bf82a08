//! Git object identifiers, held as plain integers so that the fork detection and the sampling
//! logic can compare, copy and hash them.
use vstd::prelude::*;

verus! {

/// Byte `k` (0 the most significant) of the eight bytes of `x`.
pub open spec fn byte_of_u64(x: u64, k: int) -> u8 {
    ((x >> ((7 - k) * 8) as u64) & 0xff) as u8
}

/// Byte `k` (0 the most significant) of the four bytes of `x`.
pub open spec fn byte_of_u32(x: u32, k: int) -> u8 {
    ((x >> ((3 - k) * 8) as u32) & 0xff) as u8
}

/// The big-endian value of eight bytes.
pub open spec fn u64_from_be(b0: u8, b1: u8, b2: u8, b3: u8, b4: u8, b5: u8, b6: u8, b7: u8) -> u64 {
    ((b0 as u64) << 56u64) | ((b1 as u64) << 48u64) | ((b2 as u64) << 40u64) | ((b3 as u64) << 32u64)
        | ((b4 as u64) << 24u64) | ((b5 as u64) << 16u64) | ((b6 as u64) << 8u64) | (b7 as u64)
}

/// The big-endian value of four bytes.
pub open spec fn u32_from_be(b0: u8, b1: u8, b2: u8, b3: u8) -> u32 {
    ((b0 as u32) << 24u32) | ((b1 as u32) << 16u32) | ((b2 as u32) << 8u32) | (b3 as u32)
}

proof fn lemma_u64_bytes(x: u64)
    ensures
        u64_from_be(
            byte_of_u64(x, 0),
            byte_of_u64(x, 1),
            byte_of_u64(x, 2),
            byte_of_u64(x, 3),
            byte_of_u64(x, 4),
            byte_of_u64(x, 5),
            byte_of_u64(x, 6),
            byte_of_u64(x, 7),
        ) == x,
{
    assert(((((x >> 56u64) & 0xff) as u8) as u64) << 56u64 | ((((x >> 48u64) & 0xff) as u8) as u64) << 48u64
        | ((((x >> 40u64) & 0xff) as u8) as u64) << 40u64 | ((((x >> 32u64) & 0xff) as u8) as u64) << 32u64
        | ((((x >> 24u64) & 0xff) as u8) as u64) << 24u64 | ((((x >> 16u64) & 0xff) as u8) as u64) << 16u64
        | ((((x >> 8u64) & 0xff) as u8) as u64) << 8u64 | ((((x >> 0u64) & 0xff) as u8) as u64) == x)
        by (bit_vector);
}

proof fn lemma_u32_bytes(x: u32)
    ensures
        u32_from_be(byte_of_u32(x, 0), byte_of_u32(x, 1), byte_of_u32(x, 2), byte_of_u32(x, 3)) == x,
{
    assert(((((x >> 24u32) & 0xff) as u8) as u32) << 24u32 | ((((x >> 16u32) & 0xff) as u8) as u32) << 16u32
        | ((((x >> 8u32) & 0xff) as u8) as u32) << 8u32 | ((((x >> 0u32) & 0xff) as u8) as u32) == x)
        by (bit_vector);
}

proof fn lemma_be_u64(b0: u8, b1: u8, b2: u8, b3: u8, b4: u8, b5: u8, b6: u8, b7: u8)
    ensures
        byte_of_u64(u64_from_be(b0, b1, b2, b3, b4, b5, b6, b7), 0) == b0,
        byte_of_u64(u64_from_be(b0, b1, b2, b3, b4, b5, b6, b7), 1) == b1,
        byte_of_u64(u64_from_be(b0, b1, b2, b3, b4, b5, b6, b7), 2) == b2,
        byte_of_u64(u64_from_be(b0, b1, b2, b3, b4, b5, b6, b7), 3) == b3,
        byte_of_u64(u64_from_be(b0, b1, b2, b3, b4, b5, b6, b7), 4) == b4,
        byte_of_u64(u64_from_be(b0, b1, b2, b3, b4, b5, b6, b7), 5) == b5,
        byte_of_u64(u64_from_be(b0, b1, b2, b3, b4, b5, b6, b7), 6) == b6,
        byte_of_u64(u64_from_be(b0, b1, b2, b3, b4, b5, b6, b7), 7) == b7,
{
    let x = u64_from_be(b0, b1, b2, b3, b4, b5, b6, b7);
    assert(
        ((((x >> 56u64) & 0xff) as u8) == b0 && (((x >> 48u64) & 0xff) as u8) == b1
        && (((x >> 40u64) & 0xff) as u8) == b2 && (((x >> 32u64) & 0xff) as u8) == b3
        && (((x >> 24u64) & 0xff) as u8) == b4 && (((x >> 16u64) & 0xff) as u8) == b5
        && (((x >> 8u64) & 0xff) as u8) == b6 && (((x >> 0u64) & 0xff) as u8) == b7)
    ) by (bit_vector)
        requires
            x == ((b0 as u64) << 56u64) | ((b1 as u64) << 48u64) | ((b2 as u64) << 40u64) | ((b3 as u64) << 32u64)
                | ((b4 as u64) << 24u64) | ((b5 as u64) << 16u64) | ((b6 as u64) << 8u64) | (b7 as u64),
    ;
}

proof fn lemma_be_u32(b0: u8, b1: u8, b2: u8, b3: u8)
    ensures
        byte_of_u32(u32_from_be(b0, b1, b2, b3), 0) == b0,
        byte_of_u32(u32_from_be(b0, b1, b2, b3), 1) == b1,
        byte_of_u32(u32_from_be(b0, b1, b2, b3), 2) == b2,
        byte_of_u32(u32_from_be(b0, b1, b2, b3), 3) == b3,
{
    let x = u32_from_be(b0, b1, b2, b3);
    assert(
        ((((x >> 24u32) & 0xff) as u8) == b0 && (((x >> 16u32) & 0xff) as u8) == b1
        && (((x >> 8u32) & 0xff) as u8) == b2 && (((x >> 0u32) & 0xff) as u8) == b3)
    ) by (bit_vector)
        requires
            x == ((b0 as u32) << 24u32) | ((b1 as u32) << 16u32) | ((b2 as u32) << 8u32) | (b3 as u32),
    ;
}

/// The identifier of a Git commit: the twenty bytes of its SHA-1 object id, held as integers
/// (bytes 0 to 7 in `high`, 8 to 15 in `mid`, 16 to 19 in `low`, most significant first).
#[derive(Clone, Copy, PartialEq, Eq, Structural, Hash, Debug)]
pub struct CommitId {
    pub high: u64,
    pub mid: u64,
    pub low: u32,
}

/// The identifier of a Git blob (file contents), in the same form as [`CommitId`].
#[derive(Clone, Copy, PartialEq, Eq, Structural, Hash, Debug)]
pub struct BlobId {
    pub high: u64,
    pub mid: u64,
    pub low: u32,
}

/// The twenty bytes of an object id held in three integers.
pub open spec fn id_bytes(high: u64, mid: u64, low: u32) -> Seq<u8> {
    Seq::new(20, |k: int| if k < 8 {
        byte_of_u64(high, k)
    } else if k < 16 {
        byte_of_u64(mid, k - 8)
    } else {
        byte_of_u32(low, k - 16)
    })
}

proof fn lemma_id_bytes_injective(h1: u64, m1: u64, l1: u32, h2: u64, m2: u64, l2: u32)
    requires
        id_bytes(h1, m1, l1) == id_bytes(h2, m2, l2),
    ensures
        h1 == h2 && m1 == m2 && l1 == l2,
{
    let a = id_bytes(h1, m1, l1);
    let b = id_bytes(h2, m2, l2);
    assert forall|k: int| 0 <= k < 8 implies byte_of_u64(h1, k) == byte_of_u64(h2, k) by {
        assert(a[k] == b[k]);
    }
    assert forall|k: int| 0 <= k < 8 implies byte_of_u64(m1, k) == byte_of_u64(m2, k) by {
        assert(a[k + 8] == b[k + 8]);
    }
    assert forall|k: int| 0 <= k < 4 implies byte_of_u32(l1, k) == byte_of_u32(l2, k) by {
        assert(a[k + 16] == b[k + 16]);
    }
    lemma_u64_bytes(h1);
    lemma_u64_bytes(h2);
    lemma_u64_bytes(m1);
    lemma_u64_bytes(m2);
    lemma_u32_bytes(l1);
    lemma_u32_bytes(l2);
}

/// Reads the three integers of an object id from its twenty bytes.
fn ints_from_bytes(b: &[u8]) -> (r: (u64, u64, u32))
    requires
        b@.len() == 20,
    ensures
        id_bytes(r.0, r.1, r.2) == b@,
{
    let high: u64 = ((b[0] as u64) << 56u64) | ((b[1] as u64) << 48u64) | ((b[2] as u64) << 40u64)
        | ((b[3] as u64) << 32u64) | ((b[4] as u64) << 24u64) | ((b[5] as u64) << 16u64)
        | ((b[6] as u64) << 8u64) | (b[7] as u64);
    let mid: u64 = ((b[8] as u64) << 56u64) | ((b[9] as u64) << 48u64) | ((b[10] as u64) << 40u64)
        | ((b[11] as u64) << 32u64) | ((b[12] as u64) << 24u64) | ((b[13] as u64) << 16u64)
        | ((b[14] as u64) << 8u64) | (b[15] as u64);
    let low: u32 = ((b[16] as u32) << 24u32) | ((b[17] as u32) << 16u32) | ((b[18] as u32) << 8u32)
        | (b[19] as u32);
    proof {
        lemma_be_u64(b@[0], b@[1], b@[2], b@[3], b@[4], b@[5], b@[6], b@[7]);
        lemma_be_u64(b@[8], b@[9], b@[10], b@[11], b@[12], b@[13], b@[14], b@[15]);
        lemma_be_u32(b@[16], b@[17], b@[18], b@[19]);
        assert(id_bytes(high, mid, low) =~= b@);
    }
    (high, mid, low)
}

/// Writes the twenty bytes of an object id.
fn ints_to_bytes(high: u64, mid: u64, low: u32) -> (r: Vec<u8>)
    ensures
        r@ == id_bytes(high, mid, low),
{
    let mut r: Vec<u8> = Vec::new();
    let mut k: u64 = 0;
    while k < 8
        invariant
            k <= 8,
            r@ == id_bytes(high, mid, low).take(k as int),
        decreases 8 - k,
    {
        r.push(((high >> ((7 - k) * 8)) & 0xff) as u8);
        k = k + 1;
        assert(r@ =~= id_bytes(high, mid, low).take(k as int));
    }
    let mut k: u64 = 0;
    while k < 8
        invariant
            k <= 8,
            r@ == id_bytes(high, mid, low).take(8 + k),
        decreases 8 - k,
    {
        r.push(((mid >> ((7 - k) * 8)) & 0xff) as u8);
        k = k + 1;
        assert(r@ =~= id_bytes(high, mid, low).take(8 + k));
    }
    let mut k: u32 = 0;
    while k < 4
        invariant
            k <= 4,
            r@ == id_bytes(high, mid, low).take(16 + k),
        decreases 4 - k,
    {
        r.push(((low >> ((3 - k) * 8)) & 0xff) as u8);
        k = k + 1;
        assert(r@ =~= id_bytes(high, mid, low).take(16 + k));
    }
    assert(id_bytes(high, mid, low).take(20) =~= id_bytes(high, mid, low));
    r
}

pub open spec fn is_hex_digit(c: char) -> bool {
    ('0' <= c <= '9') || ('a' <= c <= 'f') || ('A' <= c <= 'F')
}

/// The value of a hex digit.
pub open spec fn hex_value(c: char) -> int {
    if '0' <= c <= '9' {
        c as int - '0' as int
    } else if 'a' <= c <= 'f' {
        c as int - 'a' as int + 10
    } else {
        c as int - 'A' as int + 10
    }
}

/// The `i`-th hex digit of `s` as a number, 0 past its end.
pub open spec fn nibble(s: Seq<char>, i: int) -> int {
    if i < s.len() {
        hex_value(s[i])
    } else {
        0
    }
}

/// A hex object id that Git parses: 1 to 40 hex digits.
pub open spec fn valid_hex_id(s: Seq<char>) -> bool {
    0 < s.len() <= 40 && forall|i: int| 0 <= i < s.len() ==> is_hex_digit(#[trigger] s[i])
}

/// The twenty bytes that a hex object id stands for: two digits per byte, most significant
/// first, a shorter id padded with zero digits.
pub open spec fn hex_id_bytes(s: Seq<char>) -> Seq<u8> {
    Seq::new(20, |k: int| (nibble(s, 2 * k) * 16 + nibble(s, 2 * k + 1)) as u8)
}

/// Parses a hex object id with `git2::Oid::from_str` and views it as bytes (`Oid::as_bytes`).
/// Trusted: git2 documents an error for an empty string, one longer than 40 hex characters, or
/// one with a non-hex character; otherwise libgit2 (`git_oid_fromstrn`) zeroes the twenty bytes
/// and ors each digit into the high, then the low half of byte `p / 2`.
#[verifier::external_body]
fn parse_oid_hex(s: &str) -> (r: Option<Vec<u8>>)
    ensures
        r is Some <==> valid_hex_id(s@),
        r matches Some(v) ==> v@ == hex_id_bytes(s@),
{
    git2::Oid::from_str(s).ok().map(|oid| oid.as_bytes().to_vec())
}

impl CommitId {
    /// The twenty bytes of this id, most significant first.
    pub open spec fn bytes(self) -> Seq<u8> {
        id_bytes(self.high, self.mid, self.low)
    }

    /// The id whose bytes are `b`.
    pub fn from_bytes(b: &[u8]) -> (r: CommitId)
        requires
            b@.len() == 20,
        ensures
            r.bytes() == b@,
    {
        let (high, mid, low) = ints_from_bytes(b);
        CommitId { high, mid, low }
    }

    /// The twenty bytes of this id; `from_bytes` gives the id back.
    pub fn to_bytes(&self) -> (r: Vec<u8>)
        ensures
            r@ == self.bytes(),
            forall|c: CommitId| c.bytes() == r@ ==> c == *self,
    {
        proof {
            assert forall|c: CommitId| c.bytes() == self.bytes() implies c == *self by {
                lemma_id_bytes_injective(c.high, c.mid, c.low, self.high, self.mid, self.low);
            }
        }
        ints_to_bytes(self.high, self.mid, self.low)
    }

    /// Parses a hex-formatted commit id as Git does (`git2::Oid::from_str`): `None` for an empty
    /// string, one longer than 40 characters or one with a non-hex character; otherwise the id of
    /// the digits, two per byte, padded with zero digits.
    pub fn from_hex_string(hex_string: &str) -> (r: Option<CommitId>)
        ensures
            match r {
                Some(c) => valid_hex_id(hex_string@) && c.bytes() == hex_id_bytes(hex_string@),
                None => !valid_hex_id(hex_string@),
            },
    {
        match parse_oid_hex(hex_string) {
            Some(bytes) => Some(CommitId::from_bytes(bytes.as_slice())),
            None => None,
        }
    }
}

/// The three integers whose bytes are `b`.
pub open spec fn id_parts(b: Seq<u8>) -> (u64, u64, u32) {
    (
        u64_from_be(b[0], b[1], b[2], b[3], b[4], b[5], b[6], b[7]),
        u64_from_be(b[8], b[9], b[10], b[11], b[12], b[13], b[14], b[15]),
        u32_from_be(b[16], b[17], b[18], b[19]),
    )
}

proof fn lemma_id_parts(b: Seq<u8>, high: u64, mid: u64, low: u32)
    requires
        id_bytes(high, mid, low) == b,
    ensures
        id_parts(b) == (high, mid, low),
{
    let p = id_parts(b);
    lemma_be_u64(b[0], b[1], b[2], b[3], b[4], b[5], b[6], b[7]);
    lemma_be_u64(b[8], b[9], b[10], b[11], b[12], b[13], b[14], b[15]);
    lemma_be_u32(b[16], b[17], b[18], b[19]);
    assert(id_bytes(p.0, p.1, p.2) =~= b);
    lemma_id_bytes_injective(p.0, p.1, p.2, high, mid, low);
}

impl BlobId {
    /// The twenty bytes of this id, most significant first.
    pub open spec fn bytes(self) -> Seq<u8> {
        id_bytes(self.high, self.mid, self.low)
    }

    /// The id whose bytes are `b`.
    pub fn from_bytes(b: &[u8]) -> (r: BlobId)
        requires
            b@.len() == 20,
        ensures
            r.bytes() == b@,
    {
        let (high, mid, low) = ints_from_bytes(b);
        BlobId { high, mid, low }
    }

    /// The twenty bytes of this id; `from_bytes` gives the id back.
    pub fn to_bytes(&self) -> (r: Vec<u8>)
        ensures
            r@ == self.bytes(),
            forall|c: BlobId| c.bytes() == r@ ==> c == *self,
    {
        proof {
            assert forall|c: BlobId| c.bytes() == self.bytes() implies c == *self by {
                lemma_id_bytes_injective(c.high, c.mid, c.low, self.high, self.mid, self.low);
            }
        }
        ints_to_bytes(self.high, self.mid, self.low)
    }
}

/// Reading an id back from its bytes gives the same id.
pub proof fn lemma_commit_id_bytes_roundtrip(c: CommitId, b: Seq<u8>)
    ensures
        b == c.bytes() ==> id_parts(b) == (c.high, c.mid, c.low),
        b.len() == 20 ==> id_bytes(id_parts(b).0, id_parts(b).1, id_parts(b).2) == b,
{
    if b == c.bytes() {
        lemma_id_parts(b, c.high, c.mid, c.low);
    }
    if b.len() == 20 {
        let p = id_parts(b);
        lemma_be_u64(b[0], b[1], b[2], b[3], b[4], b[5], b[6], b[7]);
        lemma_be_u64(b[8], b[9], b[10], b[11], b[12], b[13], b[14], b[15]);
        lemma_be_u32(b[16], b[17], b[18], b[19]);
        assert(id_bytes(p.0, p.1, p.2) =~= b);
    }
}

} // verus!
