//! Little-endian integer fields inside byte buffers (boot sectors, MFT records,
//! FAT sectors, evidence-file section headers).

use vstd::prelude::*;

verus! {

/// Value of the little-endian 16-bit field at `i`.
pub open spec fn le16(s: Seq<u8>, i: int) -> int {
    s[i] + 256 * s[i + 1]
}

/// Value of the little-endian 32-bit field at `i`.
pub open spec fn le32(s: Seq<u8>, i: int) -> int {
    s[i] + 256 * s[i + 1] + 65536 * s[i + 2] + 16777216 * s[i + 3]
}

/// Value of the little-endian 64-bit field at `i`.
pub open spec fn le64(s: Seq<u8>, i: int) -> int {
    le32(s, i) + 4294967296 * le32(s, i + 4)
}

/// Value of the little-endian unsigned number held by all of `s`.
pub open spec fn le_value(s: Seq<u8>) -> nat
    decreases s.len(),
{
    if s.len() == 0 {
        0
    } else {
        (s[0] + 256 * le_value(s.drop_first())) as nat
    }
}

/// 256 raised to `n`.
pub open spec fn pow256(n: nat) -> nat
    decreases n,
{
    if n == 0 {
        1
    } else {
        256 * pow256((n - 1) as nat)
    }
}

/// A number of `s.len()` bytes is below `256^len`.
pub proof fn lemma_le_value_bound(s: Seq<u8>)
    ensures
        le_value(s) < pow256(s.len()),
    decreases s.len(),
{
    if s.len() > 0 {
        lemma_le_value_bound(s.drop_first());
    }
}

/// `pow256` grows with its exponent.
pub proof fn lemma_pow256_monotone(a: nat, b: nat)
    requires
        a <= b,
    ensures
        1 <= pow256(a) <= pow256(b),
    decreases b,
{
    if b > a {
        lemma_pow256_monotone(a, (b - 1) as nat);
    } else {
        lemma_pow256_positive(a);
    }
}

/// `pow256` is at least one.
pub proof fn lemma_pow256_positive(n: nat)
    ensures
        1 <= pow256(n),
    decreases n,
{
    if n > 0 {
        lemma_pow256_positive((n - 1) as nat);
    }
}

/// Reads the little-endian `u16` at `i`.
pub fn read_u16_le(s: &[u8], i: usize) -> (r: u16)
    requires
        i + 2 <= s@.len(),
    ensures
        r == le16(s@, i as int),
{
    s[i] as u16 + (s[i + 1] as u16) * 256
}

/// Reads the little-endian `u32` at `i`.
pub fn read_u32_le(s: &[u8], i: usize) -> (r: u32)
    requires
        i + 4 <= s@.len(),
    ensures
        r == le32(s@, i as int),
{
    s[i] as u32 + (s[i + 1] as u32) * 256 + (s[i + 2] as u32) * 65536 + (s[i + 3] as u32)
        * 16777216
}

/// Reads the little-endian `u64` at `i`.
pub fn read_u64_le(s: &[u8], i: usize) -> (r: u64)
    requires
        i + 8 <= s@.len(),
    ensures
        r == le64(s@, i as int),
{
    let _n = s.len();
    let lo = read_u32_le(s, i) as u64;
    let hi = read_u32_le(s, i + 4) as u64;
    lo + hi * 4294967296
}

/// Reads the little-endian number of `len` bytes (at most eight) at `i`.
pub fn read_uint_le(s: &[u8], i: usize, len: usize) -> (r: u64)
    requires
        len <= 8,
        i + len <= s@.len(),
    ensures
        r == le_value(s@.subrange(i as int, (i + len) as int)),
{
    let _n = s.len();
    let mut value: u64 = 0;
    let mut k: usize = len;
    while k > 0
        invariant
            len <= 8,
            i + len <= s@.len(),
            s@.len() <= usize::MAX,
            k <= len,
            value == le_value(s@.subrange((i + k) as int, (i + len) as int)),
        decreases k,
    {
        let ghost rest = s@.subrange((i + k) as int, (i + len) as int);
        let ghost whole = s@.subrange((i + k - 1) as int, (i + len) as int);
        proof {
            assert(whole.drop_first() =~= rest);
            lemma_le_value_bound(rest);
            lemma_pow256_monotone(rest.len(), 7);
            reveal_with_fuel(pow256, 8);
            assert(pow256(7) == 72057594037927936);
        }
        k = k - 1;
        value = s[i + k] as u64 + value * 256;
    }
    proof {
        assert(s@.subrange(i as int, (i + len) as int) =~= s@.subrange((i + 0) as int, (i + len) as int));
    }
    value
}

} // verus!
