//! Reading numbers and text out of byte sequences.

use vstd::prelude::*;
use vstd::utf8::{
    decode_first_codepoint, length_of_first_scalar, pop_first_scalar, valid_first_scalar,
    valid_utf8,
};

verus! {

/// Big-endian 32-bit number at offset `i`.
pub open spec fn be32_at(d: Seq<u8>, i: int) -> int {
    ((d[i] * 256 + d[i + 1]) * 256 + d[i + 2]) * 256 + d[i + 3]
}

/// Big-endian 64-bit number at offset `i`.
pub open spec fn be64_at(d: Seq<u8>, i: int) -> int {
    be32_at(d, i) * 0x1_0000_0000 + be32_at(d, i + 4)
}

/// Little-endian 16-bit number at offset `i`.
pub open spec fn le16_at(d: Seq<u8>, i: int) -> int {
    d[i] + d[i + 1] * 256
}

/// Little-endian 32-bit number at offset `i`.
pub open spec fn le32_at(d: Seq<u8>, i: int) -> int {
    le16_at(d, i) + le16_at(d, i + 2) * 0x1_0000
}

/// Little-endian 64-bit number at offset `i`.
pub open spec fn le64_at(d: Seq<u8>, i: int) -> int {
    le32_at(d, i) + le32_at(d, i + 4) * 0x1_0000_0000
}

/// `x` rounded down to a multiple of `n`.
pub open spec fn round_down(x: int, n: int) -> int {
    x - x % n
}

/// `x` rounded up to a multiple of `n`.
pub open spec fn round_up(x: int, n: int) -> int {
    round_down(x + n - 1, n)
}

/// Big-endian value of four bytes.
pub fn be32_val(b: [u8; 4]) -> (r: u32)
    ensures
        r == be32_at(b@, 0),
{
    ((b[0] as u32 * 256 + b[1] as u32) * 256 + b[2] as u32) * 256 + b[3] as u32
}

/// Big-endian 32-bit number at offset `i`.
pub fn be32(d: &[u8], i: usize) -> (r: u32)
    requires
        i + 4 <= d@.len(),
    ensures
        r == be32_at(d@, i as int),
{
    be32_val([d[i], d[i + 1], d[i + 2], d[i + 3]])
}

/// Big-endian 64-bit number at offset `i`.
pub fn be64(d: &[u8], i: usize) -> (r: u64)
    requires
        i + 8 <= d@.len(),
    ensures
        r == be64_at(d@, i as int),
{
    let n: usize = d.len();
    assert(i + 8 <= n);
    be32(d, i) as u64 * 0x1_0000_0000 + be32(d, i + 4) as u64
}

/// Little-endian 16-bit number at offset `i`.
pub fn le16(d: &[u8], i: usize) -> (r: u16)
    requires
        i + 2 <= d@.len(),
    ensures
        r == le16_at(d@, i as int),
{
    d[i] as u16 + d[i + 1] as u16 * 256
}

/// Little-endian 32-bit number at offset `i`.
pub fn le32(d: &[u8], i: usize) -> (r: u32)
    requires
        i + 4 <= d@.len(),
    ensures
        r == le32_at(d@, i as int),
{
    let n: usize = d.len();
    assert(i + 4 <= n);
    le16(d, i) as u32 + le16(d, i + 2) as u32 * 0x1_0000
}

/// Little-endian 64-bit number at offset `i`.
pub fn le64(d: &[u8], i: usize) -> (r: u64)
    requires
        i + 8 <= d@.len(),
    ensures
        r == le64_at(d@, i as int),
{
    let n: usize = d.len();
    assert(i + 8 <= n);
    le32(d, i) as u64 + le32(d, i + 4) as u64 * 0x1_0000_0000
}

/// Whether two byte strings are equal.
pub fn same(a: &[u8], b: &[u8]) -> (r: bool)
    ensures
        r == (a@ == b@),
{
    if a.len() != b.len() {
        return false;
    }
    let n: usize = a.len();
    let mut i: usize = 0;
    while i < n
        invariant
            n == a@.len(),
            n == b@.len(),
            i <= n,
            forall|k: int| 0 <= k < i ==> a@[k] == b@[k],
        decreases n - i,
    {
        if a[i] != b[i] {
            return false;
        }
        i += 1;
    }
    assert(a@ =~= b@);
    true
}

/// `needle` occurs in `hay` at offset `i`.
pub open spec fn occurs_at(hay: Seq<u8>, needle: Seq<u8>, i: int) -> bool {
    0 <= i <= hay.len() - needle.len() && hay.subrange(i, i + needle.len()) == needle
}

/// `needle` occurs in `hay`.
pub open spec fn occurs(hay: Seq<u8>, needle: Seq<u8>) -> bool {
    exists|i: int| occurs_at(hay, needle, i)
}

/// Whether `needle` occurs in `hay`.
pub fn find(hay: &[u8], needle: &[u8]) -> (r: bool)
    ensures
        r == occurs(hay@, needle@),
{
    if hay.len() < needle.len() {
        return false;
    }
    let m: usize = needle.len();
    let last: usize = hay.len() - m;
    let mut i: usize = 0;
    while i <= last
        invariant
            m == needle@.len(),
            last == hay@.len() - m,
            i <= last + 1,
            hay@.len() <= usize::MAX,
            forall|k: int| 0 <= k < i ==> !occurs_at(hay@, needle@, k),
        ensures
            forall|k: int| 0 <= k <= last ==> !occurs_at(hay@, needle@, k),
        decreases last + 1 - i,
    {
        let w: &[u8] = vstd::slice::slice_subrange(hay, i, i + m);
        if same(w, needle) {
            assert(occurs_at(hay@, needle@, i as int));
            return true;
        }
        if i == last {
            break;
        }
        i += 1;
    }
    false
}

/// Rounding up goes to the number itself or to the next multiple.
pub proof fn lemma_round_up(x: int, n: int)
    requires
        x >= 0,
        n > 0,
    ensures
        round_up(x, n) == if x % n == 0 {
            x
        } else {
            x - x % n + n
        },
        round_up(x, n) % n == 0,
        x <= round_up(x, n) < x + n,
{
    let q = x / n;
    let r = x % n;
    vstd::arithmetic::div_mod::lemma_fundamental_div_mod(x, n);
    assert(n * q == q * n) by (nonlinear_arith);
    assert(n * (q + 1) == (q + 1) * n) by (nonlinear_arith);
    assert((q + 1) * n == q * n + n) by (nonlinear_arith);
    if r == 0 {
        vstd::arithmetic::div_mod::lemma_fundamental_div_mod_converse(x + n - 1, n, q, n - 1);
        vstd::arithmetic::div_mod::lemma_mod_multiples_basic(q, n);
    } else {
        vstd::arithmetic::div_mod::lemma_fundamental_div_mod_converse(x + n - 1, n, q + 1, r - 1);
        vstd::arithmetic::div_mod::lemma_mod_multiples_basic(q + 1, n);
    }
}

/// Bytes that the character takes which the text from `i` on starts with; 0 where it starts with
/// none.
fn char_len(b: &[u8], i: usize) -> (r: usize)
    requires
        i < b@.len(),
    ensures
        r <= b@.len() - i,
        r > 0 <==> valid_first_scalar(b@.skip(i as int)),
        r > 0 ==> r == length_of_first_scalar(b@.skip(i as int)),
{
    let ghost t = b@.skip(i as int);
    let n: usize = b.len() - i;
    let b0: u8 = b[i];
    assert(b0 == t[0]);
    if b0 <= 0x7f {
        assert(b0 & 0x7f <= 0x7f) by (bit_vector);
        return 1;
    }
    if n < 2 || b0 < 0xc0 || b0 > 0xf7 {
        return 0;
    }
    let b1: u8 = b[i + 1];
    assert(b1 == t[1]);
    if b1 < 0x80 || b1 > 0xbf {
        return 0;
    }
    if b0 <= 0xdf {
        let c: u32 = (((b0 & 0x1f) as u32) << 6) | ((b1 & 0x3f) as u32);
        assert(c == decode_first_codepoint(t));
        assert((((b0 & 0x1f) as u32) << 6) | ((b1 & 0x3f) as u32) < 0x800) by (bit_vector);
        return if c >= 0x80 {
            2
        } else {
            0
        };
    }
    if n < 3 {
        return 0;
    }
    let b2: u8 = b[i + 2];
    assert(b2 == t[2]);
    if b2 < 0x80 || b2 > 0xbf {
        return 0;
    }
    if b0 <= 0xef {
        let c: u32 = (((b0 & 0x0f) as u32) << 12) | (((b1 & 0x3f) as u32) << 6) | ((b2
            & 0x3f) as u32);
        assert(c == decode_first_codepoint(t));
        return if c >= 0x800 && !(0xd800 <= c && c <= 0xdfff) {
            3
        } else {
            0
        };
    }
    if n < 4 {
        return 0;
    }
    let b3: u8 = b[i + 3];
    assert(b3 == t[3]);
    if b3 < 0x80 || b3 > 0xbf {
        return 0;
    }
    let c: u32 = (((b0 & 0x07) as u32) << 18) | (((b1 & 0x3f) as u32) << 12) | (((b2
        & 0x3f) as u32) << 6) | ((b3 & 0x3f) as u32);
    assert(c == decode_first_codepoint(t));
    if 0x1_0000 <= c && c <= 0x10_ffff {
        4
    } else {
        0
    }
}

/// Whether the bytes are text in UTF-8.
pub fn is_text(b: &[u8]) -> (r: bool)
    ensures
        r == valid_utf8(b@),
{
    let mut i: usize = 0;
    assert(b@.skip(0) =~= b@);
    while i < b.len()
        invariant
            i <= b@.len(),
            valid_utf8(b@) == valid_utf8(b@.skip(i as int)),
        decreases b@.len() - i,
    {
        let n: usize = char_len(b, i);
        if n == 0 {
            return false;
        }
        assert(pop_first_scalar(b@.skip(i as int)) =~= b@.skip(i + n));
        i += n;
    }
    assert(b@.skip(i as int).len() == 0);
    true
}

} // verus!
