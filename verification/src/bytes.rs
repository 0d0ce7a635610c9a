//! Little-endian integers in byte buffers.

use vstd::prelude::*;

verus! {

/// The 16-bit little-endian integer stored at `at`.
pub open spec fn le16(s: Seq<u8>, at: int) -> int {
    s[at] + 0x100 * s[at + 1]
}

/// The 32-bit little-endian integer stored at `at`.
pub open spec fn le32(s: Seq<u8>, at: int) -> int {
    s[at] + 0x100 * s[at + 1] + 0x1_0000 * s[at + 2] + 0x100_0000 * s[at + 3]
}

/// The 64-bit little-endian integer stored at `at`.
pub open spec fn le64(s: Seq<u8>, at: int) -> int {
    le32(s, at) + 0x1_0000_0000 * le32(s, at + 4)
}

/// The four little-endian bytes of `x`, taken modulo 2^32.
#[verifier::opaque]
pub open spec fn le32_bytes(x: int) -> Seq<u8> {
    seq![
        (x % 0x100) as u8,
        (x / 0x100 % 0x100) as u8,
        (x / 0x1_0000 % 0x100) as u8,
        (x / 0x100_0000 % 0x100) as u8,
    ]
}

/// The eight little-endian bytes of `x`, taken modulo 2^64.
#[verifier::opaque]
pub open spec fn le64_bytes(x: int) -> Seq<u8> {
    le32_bytes(x % 0x1_0000_0000) + le32_bytes(x / 0x1_0000_0000)
}

pub broadcast proof fn lemma_le32_bytes_len(x: int)
    ensures
        (#[trigger] le32_bytes(x)).len() == 4,
{
    reveal(le32_bytes);
}

pub broadcast proof fn lemma_le64_bytes_len(x: int)
    ensures
        (#[trigger] le64_bytes(x)).len() == 8,
{
    reveal(le32_bytes);
    reveal(le64_bytes);
}

/// Reading back the four bytes of a 32-bit integer gives the integer.
pub proof fn lemma_le32_round_trip(s: Seq<u8>, at: int, x: int)
    requires
        0 <= x < 0x1_0000_0000,
        0 <= at,
        at + 4 <= s.len(),
        s.subrange(at, at + 4) == le32_bytes(x),
    ensures
        le32(s, at) == x,
{
    reveal(le32_bytes);
    let b = s.subrange(at, at + 4);
    assert(b[0] == s[at] && b[1] == s[at + 1] && b[2] == s[at + 2] && b[3] == s[at + 3]);
}

/// Reading back the eight bytes of a 64-bit integer gives the integer.
pub proof fn lemma_le64_round_trip(s: Seq<u8>, at: int, x: int)
    requires
        0 <= x < 0x1_0000_0000_0000_0000,
        0 <= at,
        at + 8 <= s.len(),
        s.subrange(at, at + 8) == le64_bytes(x),
    ensures
        le64(s, at) == x,
{
    reveal(le64_bytes);
    broadcast use lemma_le32_bytes_len;

    let b = s.subrange(at, at + 8);
    assert(s.subrange(at, at + 4) =~= b.subrange(0, 4));
    assert(s.subrange(at + 4, at + 8) =~= b.subrange(4, 8));
    assert(b.subrange(0, 4) =~= le32_bytes(x % 0x1_0000_0000));
    assert(b.subrange(4, 8) =~= le32_bytes(x / 0x1_0000_0000));
    lemma_le32_round_trip(s, at, x % 0x1_0000_0000);
    lemma_le32_round_trip(s, at + 4, x / 0x1_0000_0000);
}

pub fn read_u16(src: &[u8], at: usize) -> (x: u16)
    requires
        at + 2 <= src@.len(),
    ensures
        x == le16(src@, at as int),
{
    src[at] as u16 + 0x100 * (src[at + 1] as u16)
}

pub fn read_u32(src: &[u8], at: usize) -> (x: u32)
    requires
        at + 4 <= src@.len(),
    ensures
        x == le32(src@, at as int),
{
    src[at] as u32 + 0x100 * (src[at + 1] as u32) + 0x1_0000 * (src[at + 2] as u32) + 0x100_0000 * (
    src[at + 3] as u32)
}

pub fn read_u64(src: &[u8], at: usize) -> (x: u64)
    requires
        at + 8 <= src@.len(),
    ensures
        x == le64(src@, at as int),
{
    let _n: usize = src.len();
    read_u32(src, at) as u64 + 0x1_0000_0000 * (read_u32(src, at + 4) as u64)
}

pub fn u32_bytes(x: u32) -> (r: Vec<u8>)
    ensures
        r@ == le32_bytes(x as int),
{
    proof {
        reveal(le32_bytes);
    }
    vec![
        (x % 0x100) as u8,
        (x / 0x100 % 0x100) as u8,
        (x / 0x1_0000 % 0x100) as u8,
        (x / 0x100_0000 % 0x100) as u8,
    ]
}

pub fn u64_bytes(x: u64) -> (r: Vec<u8>)
    ensures
        r@ == le64_bytes(x as int),
        r@.len() == 8,
{
    proof {
        reveal(le64_bytes);
        lemma_le64_bytes_len(x as int);
    }
    let mut out = u32_bytes((x % 0x1_0000_0000) as u32);
    let mut high = u32_bytes((x / 0x1_0000_0000) as u32);
    out.append(&mut high);
    out
}

/// `base` with `part` written over it from `at` on.
pub open spec fn splice(base: Seq<u8>, at: int, part: Seq<u8>) -> Seq<u8> {
    base.take(at) + part + base.skip(at + part.len())
}

/// Copies `part` over `dst` starting at `at`.
pub fn copy_into(dst: &mut [u8], at: usize, part: &[u8])
    requires
        at + part@.len() <= old(dst)@.len(),
    ensures
        final(dst)@ == splice(old(dst)@, at as int, part@),
        final(dst)@.len() == old(dst)@.len(),
{
    let n: usize = dst.len();
    let mut i: usize = 0;
    while i < part.len()
        invariant
            i <= part@.len(),
            at + part@.len() <= n,
            n == dst@.len(),
            dst@.len() == old(dst)@.len(),
            dst@ =~= splice(old(dst)@, at as int, part@.take(i as int)),
        decreases part@.len() - i,
    {
        dst[at + i] = part[i];
        i = i + 1;
        assert(part@.take(i as int) =~= part@.take(i - 1).push(part@[i - 1]));
    }
    assert(part@.take(i as int) =~= part@);
}

/// The eight little-endian bytes of `x` as an array.
pub fn u64_array(x: u64) -> (r: [u8; 8])
    ensures
        r@ == le64_bytes(x as int),
{
    let bytes = u64_bytes(x);
    let mut out: [u8; 8] = [0u8;8];
    let mut i: usize = 0;
    while i < 8
        invariant
            i <= 8,
            bytes@.len() == 8,
            forall|j: int| 0 <= j < i ==> out@[j] == bytes@[j],
        decreases 8 - i,
    {
        out[i] = bytes[i];
        i = i + 1;
    }
    assert(out@ =~= bytes@);
    out
}

/// Whether two buffers hold the same bytes.
pub fn same_bytes(a: &[u8], b: &[u8]) -> (r: bool)
    ensures
        r == (a@ == b@),
{
    if a.len() != b.len() {
        return false;
    }
    let mut i: usize = 0;
    while i < a.len()
        invariant
            i <= a@.len(),
            a@.len() == b@.len(),
            forall|j: int| 0 <= j < i ==> a@[j] == b@[j],
        decreases a@.len() - i,
    {
        if a[i] != b[i] {
            return false;
        }
        i = i + 1;
    }
    assert(a@ =~= b@);
    true
}

} // verus!
