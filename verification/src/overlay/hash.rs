//! Path hashes, by which WAD entries are named.

use crate::codecs::{xxh64_hash, xxh64_of};
use vstd::prelude::*;
use vstd::slice::slice_subrange;
use vstd::utf8::encode_utf8;

verus! {

/// A byte with ASCII capitals made small.
pub open spec fn lower_byte(b: u8) -> u8 {
    if 0x41 <= b <= 0x5A {
        (b + 0x20) as u8
    } else {
        b
    }
}

/// Bytes with ASCII capitals made small.
pub open spec fn lower_bytes(s: Seq<u8>) -> Seq<u8> {
    Seq::new(s.len(), |i: int| lower_byte(s[i]))
}

/// The name of a path: the XXH64 hash, seed zero, of its bytes with ASCII
/// capitals made small.
pub open spec fn lower_hash(s: Seq<u8>) -> u64 {
    xxh64_of(lower_bytes(s), 0)
}

fn hash_lower_bytes(s: &[u8]) -> (r: u64)
    ensures
        r == lower_hash(s@),
{
    let mut lower: Vec<u8> = Vec::new();
    let mut i: usize = 0;
    while i < s.len()
        invariant
            i <= s@.len(),
            lower@ =~= lower_bytes(s@.take(i as int)),
        decreases s@.len() - i,
    {
        let b: u8 = s[i];
        if b >= 0x41 && b <= 0x5A {
            lower.push(b + 0x20);
        } else {
            lower.push(b);
        }
        i = i + 1;
    }
    assert(s@.take(i as int) =~= s@);
    xxh64_hash(lower.as_slice(), 0)
}

/// Hashes the whole of `s`, with no prefix stripped.
pub fn xxh64_lower(s: &str) -> (r: u64)
    ensures
        r == lower_hash(encode_utf8(s@)),
{
    hash_lower_bytes(s.as_bytes())
}

/// A path without its leading dots and slashes.
pub open spec fn without_leading_dots(s: Seq<u8>) -> Seq<u8>
    decreases s.len(),
{
    if s.len() > 0 && (s[0] == 0x2E || s[0] == 0x2F) {
        without_leading_dots(s.skip(1))
    } else {
        s
    }
}

/// What stands before the first dot, or the whole where there is none.
pub open spec fn before_dot(s: Seq<u8>) -> Seq<u8>
    decreases s.len(),
{
    if s.len() == 0 || s[0] == 0x2E {
        Seq::empty()
    } else {
        seq![s[0]] + before_dot(s.skip(1))
    }
}

/// Whether `b` is an ASCII hex digit of either case.
pub open spec fn is_hex_digit(b: u8) -> bool {
    0x30 <= b <= 0x39 || 0x41 <= b <= 0x46 || 0x61 <= b <= 0x66
}

/// The value of a hex digit of either case.
pub open spec fn hex_digit_value(b: u8) -> int {
    if b <= 0x39 {
        b - 0x30
    } else if b <= 0x46 {
        b - 0x41 + 10
    } else {
        b - 0x61 + 10
    }
}

/// The number that hex digits stand for, most significant first.
pub open spec fn hex_value(s: Seq<u8>) -> int
    decreases s.len(),
{
    if s.len() == 0 {
        0
    } else {
        hex_value(s.drop_last()) * 16 + hex_digit_value(s.last())
    }
}

/// Whether a file is named by a hash: 16 hex digits stand before its first dot.
pub open spec fn is_hash_name(s: Seq<u8>) -> bool {
    &&& before_dot(s).len() == 16
    &&& forall|i: int| 0 <= i < 16 ==> is_hex_digit(#[trigger] before_dot(s)[i])
}

/// The name of the entry that a path stands for: the hash that it spells out
/// where it does, else the hash of the path without leading dots and slashes.
pub open spec fn path_hash(s: Seq<u8>) -> u64 {
    let rest = without_leading_dots(s);
    if is_hash_name(rest) {
        hex_value(before_dot(rest)) as u64
    } else {
        lower_hash(rest)
    }
}

pub proof fn lemma_before_dot(s: Seq<u8>, end: int)
    requires
        0 <= end <= s.len(),
        forall|j: int| 0 <= j < end ==> s[j] != 0x2E,
        end == s.len() || s[end] == 0x2E,
    ensures
        before_dot(s) == s.take(end),
    decreases s.len(),
{
    if end == 0 {
        assert(s.take(0) =~= Seq::empty());
    } else {
        lemma_before_dot(s.skip(1), end - 1);
        assert(s.take(end) =~= seq![s[0]] + s.skip(1).take(end - 1));
    }
}

/// Sixteen to the power of `n`.
spec fn power16(n: nat) -> int
    decreases n,
{
    if n == 0 {
        1
    } else {
        16 * power16((n - 1) as nat)
    }
}

/// Reads 16 hex digits.
fn parse_hash(s: &[u8]) -> (r: Option<u64>)
    requires
        s@.len() == 16,
    ensures
        r == if forall|i: int| 0 <= i < 16 ==> is_hex_digit(#[trigger] s@[i]) {
            Some(hex_value(s@) as u64)
        } else {
            None::<u64>
        },
{
    let mut value: u64 = 0;
    let mut i: usize = 0;
    assert(power16(16) == 0x1_0000_0000_0000_0000) by {
        reveal_with_fuel(power16, 17);
    }
    while i < 16
        invariant
            i <= 16,
            s@.len() == 16,
            forall|j: int| 0 <= j < i ==> is_hex_digit(#[trigger] s@[j]),
            value == hex_value(s@.take(i as int)),
            (value + 1) * power16((16 - i) as nat) <= 0x1_0000_0000_0000_0000,
        decreases 16 - i,
    {
        let b: u8 = s[i];
        let digit: u64 = if b >= 0x30 && b <= 0x39 {
            (b - 0x30) as u64
        } else if b >= 0x41 && b <= 0x46 {
            (b - 0x41 + 10) as u64
        } else if b >= 0x61 && b <= 0x66 {
            (b - 0x61 + 10) as u64
        } else {
            return None;
        };
        proof {
            let p = power16((15 - i) as nat);
            lemma_power16_positive((15 - i) as nat);
            assert(power16((16 - i) as nat) == 16 * p);
            assert((value + 1) * (16 * p) == (16 * value + 16) * p) by (nonlinear_arith);
            assert((16 * value + digit + 1) * p <= (16 * value + 16) * p) by (nonlinear_arith)
                requires
                    digit <= 15,
                    p >= 1,
            ;
            assert(16 * value + digit + 1 <= (16 * value + digit + 1) * p) by (nonlinear_arith)
                requires
                    p >= 1,
            ;
        }
        value = value * 16 + digit;
        i = i + 1;
        assert(s@.take(i as int).drop_last() =~= s@.take(i - 1));
    }
    assert(s@.take(16) =~= s@);
    Some(value)
}

proof fn lemma_power16_positive(n: nat)
    ensures
        power16(n) >= 1,
    decreases n,
{
    if n > 0 {
        lemma_power16_positive((n - 1) as nat);
    }
}

/// Hashes a path, taking over a hash that the file name spells out.
pub fn xxh64_from_path(s: &str) -> (r: u64)
    ensures
        r == path_hash(encode_utf8(s@)),
{
    let bytes = s.as_bytes();
    let n: usize = bytes.len();
    let mut start: usize = 0;
    assert(bytes@.skip(0) =~= bytes@);
    while start < n && (bytes[start] == 0x2E || bytes[start] == 0x2F)
        invariant
            start <= n,
            n == bytes@.len(),
            without_leading_dots(bytes@) == without_leading_dots(bytes@.skip(start as int)),
        decreases n - start,
    {
        start = start + 1;
        assert(bytes@.skip(start - 1).skip(1) =~= bytes@.skip(start as int));
    }
    let rest = slice_subrange(bytes, start, n);
    assert(rest@ =~= bytes@.skip(start as int));
    assert(without_leading_dots(bytes@) == rest@);
    let mut end: usize = 0;
    while end < rest.len() && rest[end] != 0x2E
        invariant
            end <= rest@.len(),
            forall|j: int| 0 <= j < end ==> rest@[j] != 0x2E,
        decreases rest@.len() - end,
    {
        end = end + 1;
    }
    proof {
        lemma_before_dot(rest@, end as int);
    }
    if end == 16 {
        if let Some(value) = parse_hash(slice_subrange(rest, 0, end)) {
            return value;
        }
    }
    hash_lower_bytes(rest)
}

} // verus!
