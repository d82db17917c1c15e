//! Big-endian encoding and decoding of the fixed-width integers that
//! appear inside a page, together with byte-range helpers over `Vec<u8>`.
use vstd::prelude::*;

verus! {

/// The eight big-endian bytes of `v`, most significant first.
pub open spec fn u64_to_be(v: u64) -> Seq<u8> {
    seq![
        ((v >> 56) & 0xFF) as u8,
        ((v >> 48) & 0xFF) as u8,
        ((v >> 40) & 0xFF) as u8,
        ((v >> 32) & 0xFF) as u8,
        ((v >> 24) & 0xFF) as u8,
        ((v >> 16) & 0xFF) as u8,
        ((v >> 8) & 0xFF) as u8,
        (v & 0xFF) as u8,
    ]
}

/// The value encoded by eight big-endian bytes.
pub open spec fn u64_from_be(s: Seq<u8>) -> u64
    recommends
        s.len() == 8,
{
    ((s[0] as u64) << 56) | ((s[1] as u64) << 48) | ((s[2] as u64) << 40)
        | ((s[3] as u64) << 32) | ((s[4] as u64) << 24) | ((s[5] as u64) << 16)
        | ((s[6] as u64) << 8) | (s[7] as u64)
}

/// Decoding the encoding of a value gives the value back.
pub proof fn lemma_u64_be_round_trip(v: u64)
    ensures
        u64_from_be(u64_to_be(v)) == v,
{
    let s = u64_to_be(v);
    assert(s[0] == ((v >> 56) & 0xFF) as u8);
    assert(s[1] == ((v >> 48) & 0xFF) as u8);
    assert(s[2] == ((v >> 40) & 0xFF) as u8);
    assert(s[3] == ((v >> 32) & 0xFF) as u8);
    assert(s[4] == ((v >> 24) & 0xFF) as u8);
    assert(s[5] == ((v >> 16) & 0xFF) as u8);
    assert(s[6] == ((v >> 8) & 0xFF) as u8);
    assert(s[7] == (v & 0xFF) as u8);
    assert(((((v >> 56) & 0xFF) as u8) as u64) << 56
        | ((((v >> 48) & 0xFF) as u8) as u64) << 48
        | ((((v >> 40) & 0xFF) as u8) as u64) << 40
        | ((((v >> 32) & 0xFF) as u8) as u64) << 32
        | ((((v >> 24) & 0xFF) as u8) as u64) << 24
        | ((((v >> 16) & 0xFF) as u8) as u64) << 16
        | ((((v >> 8) & 0xFF) as u8) as u64) << 8
        | (((v & 0xFF) as u8) as u64) == v) by (bit_vector);
}

/// Reads the big-endian `u64` stored at `start`.
pub fn read_u64_at(bytes: &Vec<u8>, start: usize) -> (r: u64)
    requires
        start + 8 <= bytes@.len(),
    ensures
        r == u64_from_be(bytes@.subrange(start as int, start as int + 8)),
{
    let blen = bytes.len();
    proof {
        assert(start + 8 <= blen);
    }
    let r = ((bytes[start] as u64) << 56) | ((bytes[start + 1] as u64) << 48)
        | ((bytes[start + 2] as u64) << 40) | ((bytes[start + 3] as u64) << 32)
        | ((bytes[start + 4] as u64) << 24) | ((bytes[start + 5] as u64) << 16)
        | ((bytes[start + 6] as u64) << 8) | (bytes[start + 7] as u64);
    proof {
        let s = bytes@.subrange(start as int, start as int + 8);
        assert(s[0] == bytes@[start as int]);
        assert(s[1] == bytes@[start as int + 1]);
        assert(s[2] == bytes@[start as int + 2]);
        assert(s[3] == bytes@[start as int + 3]);
        assert(s[4] == bytes@[start as int + 4]);
        assert(s[5] == bytes@[start as int + 5]);
        assert(s[6] == bytes@[start as int + 6]);
        assert(s[7] == bytes@[start as int + 7]);
    }
    r
}

/// Overwrites the eight bytes at `start` with the big-endian form of `v`.
pub fn write_u64_at(bytes: &mut Vec<u8>, start: usize, v: u64)
    requires
        start + 8 <= old(bytes)@.len(),
    ensures
        final(bytes)@.len() == old(bytes)@.len(),
        final(bytes)@.subrange(start as int, start as int + 8) == u64_to_be(v),
        forall|j: int|
            0 <= j < old(bytes)@.len() && !(start <= j < start + 8) ==> final(bytes)@[j] == old(
                bytes,
            )@[j],
{
    let blen = bytes.len();
    proof {
        assert((v >> 56) & 0xFF <= 0xFF && (v >> 48) & 0xFF <= 0xFF && (v >> 40) & 0xFF <= 0xFF
            && (v >> 32) & 0xFF <= 0xFF && (v >> 24) & 0xFF <= 0xFF && (v >> 16) & 0xFF <= 0xFF
            && (v >> 8) & 0xFF <= 0xFF && v & 0xFF <= 0xFF) by (bit_vector);
        assert(start + 8 <= blen);
    }
    bytes.set(start, ((v >> 56) & 0xFF) as u8);
    bytes.set(start + 1, ((v >> 48) & 0xFF) as u8);
    bytes.set(start + 2, ((v >> 40) & 0xFF) as u8);
    bytes.set(start + 3, ((v >> 32) & 0xFF) as u8);
    bytes.set(start + 4, ((v >> 24) & 0xFF) as u8);
    bytes.set(start + 5, ((v >> 16) & 0xFF) as u8);
    bytes.set(start + 6, ((v >> 8) & 0xFF) as u8);
    bytes.set(start + 7, (v & 0xFF) as u8);
    proof {
        assert(bytes@.subrange(start as int, start as int + 8) =~= u64_to_be(v));
    }
}

/// Copies the `len` bytes starting at `start` out into a fresh vector.
pub fn read_bytes_at(bytes: &Vec<u8>, start: usize, len: usize) -> (r: Vec<u8>)
    requires
        start + len <= bytes@.len(),
    ensures
        r@ == bytes@.subrange(start as int, start as int + len),
{
    let blen = bytes.len();
    let mut r: Vec<u8> = Vec::new();
    let mut i: usize = 0;
    while i < len
        invariant
            blen == bytes@.len(),
            start + len <= blen,
            i <= len,
            r@ == bytes@.subrange(start as int, start as int + i),
        decreases len - i,
    {
        r.push(bytes[start + i]);
        proof {
            assert(r@ =~= bytes@.subrange(start as int, start as int + i + 1));
        }
        i = i + 1;
    }
    r
}

/// Overwrites the bytes at `start` with the contents of `src`.
pub fn write_bytes_at(bytes: &mut Vec<u8>, start: usize, src: &Vec<u8>)
    requires
        start + src@.len() <= old(bytes)@.len(),
    ensures
        final(bytes)@.len() == old(bytes)@.len(),
        final(bytes)@.subrange(start as int, start as int + src@.len() as int) == src@,
        forall|j: int|
            0 <= j < old(bytes)@.len() && !(start <= j < start + src@.len()) ==> final(bytes)@[j]
                == old(bytes)@[j],
{
    let n = src.len();
    let blen = bytes.len();
    let mut i: usize = 0;
    while i < n
        invariant
            n == src@.len(),
            blen == bytes@.len(),
            start + n <= blen,
            bytes@.len() == old(bytes)@.len(),
            i <= n,
            forall|j: int| start <= j < start + i ==> bytes@[j] == src@[j - start],
            forall|j: int|
                0 <= j < old(bytes)@.len() && !(start <= j < start + n) ==> bytes@[j] == old(
                    bytes,
                )@[j],
        decreases n - i,
    {
        bytes.set(start + i, src[i]);
        i = i + 1;
    }
    proof {
        assert(bytes@.subrange(start as int, start as int + src@.len() as int) =~= src@);
    }
}

/// Writes the single byte `v` at `start`.
pub fn write_u8_at(bytes: &mut Vec<u8>, start: usize, v: u8)
    requires
        start < old(bytes)@.len(),
    ensures
        final(bytes)@ == old(bytes)@.update(start as int, v),
{
    bytes.set(start, v);
}

/// The eight big-endian bytes of `v` as a fixed-size array.
pub fn u64_to_be_array(v: u64) -> (r: [u8; 8])
    ensures
        r@ == u64_to_be(v),
{
    proof {
        assert((v >> 56) & 0xFF <= 0xFF && (v >> 48) & 0xFF <= 0xFF && (v >> 40) & 0xFF <= 0xFF
            && (v >> 32) & 0xFF <= 0xFF && (v >> 24) & 0xFF <= 0xFF && (v >> 16) & 0xFF <= 0xFF
            && (v >> 8) & 0xFF <= 0xFF && v & 0xFF <= 0xFF) by (bit_vector);
    }
    let r: [u8; 8] = [
        ((v >> 56) & 0xFF) as u8,
        ((v >> 48) & 0xFF) as u8,
        ((v >> 40) & 0xFF) as u8,
        ((v >> 32) & 0xFF) as u8,
        ((v >> 24) & 0xFF) as u8,
        ((v >> 16) & 0xFF) as u8,
        ((v >> 8) & 0xFF) as u8,
        (v & 0xFF) as u8,
    ];
    proof {
        assert(r@ =~= u64_to_be(v));
    }
    r
}

/// Reads the big-endian `u64` stored in an eight-byte array.
pub fn u64_from_be_array(a: &[u8; 8]) -> (r: u64)
    ensures
        r == u64_from_be(a@),
{
    ((a[0] as u64) << 56) | ((a[1] as u64) << 48) | ((a[2] as u64) << 40) | ((a[3] as u64) << 32)
        | ((a[4] as u64) << 24) | ((a[5] as u64) << 16) | ((a[6] as u64) << 8) | (a[7] as u64)
}

/// Eight zero bytes decode to zero.
pub proof fn lemma_u64_from_be_zeros(s: Seq<u8>)
    requires
        s.len() == 8,
        forall|i: int| 0 <= i < 8 ==> s[i] == 0,
    ensures
        u64_from_be(s) == 0,
{
    assert(((0u8 as u64) << 56) | ((0u8 as u64) << 48) | ((0u8 as u64) << 40) | ((0u8 as u64)
        << 32) | ((0u8 as u64) << 24) | ((0u8 as u64) << 16) | ((0u8 as u64) << 8) | (0u8 as u64)
        == 0) by (bit_vector);
}

/// Two sequences of equal length that agree on a range have equal
/// subranges there.
pub proof fn lemma_frame_subrange(a: Seq<u8>, b: Seq<u8>, s: int, e: int)
    requires
        a.len() == b.len(),
        0 <= s <= e <= a.len(),
        forall|j: int| s <= j < e ==> a[j] == b[j],
    ensures
        a.subrange(s, e) == b.subrange(s, e),
{
    assert(a.subrange(s, e) =~= b.subrange(s, e));
}

} // verus!
