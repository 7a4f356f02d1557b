//! Little-endian views of byte buffers as arrays of fixed-width numbers.
//!
//! A file of numbers is read as `ceil(len / width)` items; the bytes that
//! the last item lacks read as zero.

use vstd::prelude::*;

verus! {

/// Why a file cannot be opened.
#[derive(Debug, Clone, Copy, PartialEq, Eq, Structural)]
pub enum FormatError {
    /// The header cannot be read.
    BadHeader,
    /// The file does not open with a known magic number.
    BadMagic,
}

/// Byte `i` of a buffer; zero outside it.
pub open spec fn byte_or_zero(bytes: Seq<u8>, i: int) -> u8 {
    if 0 <= i < bytes.len() {
        bytes[i]
    } else {
        0
    }
}

/// Item `k` of a buffer read as 16-bit little-endian numbers.
pub open spec fn le_u16(bytes: Seq<u8>, k: int) -> u16 {
    (byte_or_zero(bytes, 2 * k) as u16) | ((byte_or_zero(bytes, 2 * k + 1) as u16) << 8)
}

/// Item `k` of a buffer read as 32-bit little-endian numbers.
pub open spec fn le_u32(bytes: Seq<u8>, k: int) -> u32 {
    (byte_or_zero(bytes, 4 * k) as u32) | ((byte_or_zero(bytes, 4 * k + 1) as u32) << 8) | ((
    byte_or_zero(bytes, 4 * k + 2) as u32) << 16) | ((byte_or_zero(bytes, 4 * k + 3) as u32) << 24)
}

/// Item `k` of a buffer read as 64-bit little-endian numbers.
pub open spec fn le_u64(bytes: Seq<u8>, k: int) -> u64 {
    (byte_or_zero(bytes, 8 * k) as u64) | ((byte_or_zero(bytes, 8 * k + 1) as u64) << 8) | ((
    byte_or_zero(bytes, 8 * k + 2) as u64) << 16) | ((byte_or_zero(bytes, 8 * k + 3) as u64) << 24)
        | ((byte_or_zero(bytes, 8 * k + 4) as u64) << 32) | ((byte_or_zero(bytes, 8 * k + 5) as u64)
        << 40) | ((byte_or_zero(bytes, 8 * k + 6) as u64) << 48) | ((byte_or_zero(bytes, 8 * k + 7)
        as u64) << 56)
}

/// A buffer read as 64-bit little-endian numbers.
pub open spec fn le_words(bytes: Seq<u8>) -> Seq<u64> {
    Seq::new(item_count(bytes.len() as int, 8) as nat, |k: int| le_u64(bytes, k))
}

/// A buffer read as 32-bit little-endian numbers.
pub open spec fn le_u32s(bytes: Seq<u8>) -> Seq<u32> {
    Seq::new(item_count(bytes.len() as int, 4) as nat, |k: int| le_u32(bytes, k))
}

/// A buffer read as 16-bit little-endian numbers.
pub open spec fn le_u16s(bytes: Seq<u8>) -> Seq<u16> {
    Seq::new(item_count(bytes.len() as int, 2) as nat, |k: int| le_u16(bytes, k))
}

/// Number of items of `width` bytes that a buffer of `len` bytes is read as.
pub open spec fn item_count(len: int, width: int) -> int {
    (len + width - 1) / width
}

/// Byte `i` of a number in little-endian order.
pub open spec fn le_byte_of(v: u64, i: int) -> u8 {
    (v >> ((8 * i) as u64)) as u8
}

/// The little-endian bytes of a sequence of 32-bit numbers.
pub open spec fn u32s_le(v: Seq<u32>) -> Seq<u8> {
    Seq::new(4 * v.len(), |i: int| le_byte_of(v[i / 4] as u64, i % 4))
}

/// The little-endian bytes of a sequence of 16-bit numbers.
pub open spec fn u16s_le(v: Seq<u16>) -> Seq<u8> {
    Seq::new(2 * v.len(), |i: int| le_byte_of(v[i / 2] as u64, i % 2))
}

/// The little-endian bytes of a sequence of 64-bit numbers.
pub open spec fn u64s_le(v: Seq<u64>) -> Seq<u8> {
    Seq::new(8 * v.len(), |i: int| le_byte_of(v[i / 8], i % 8))
}

fn byte_at(bytes: &[u8], i: usize) -> (b: u8)
    ensures
        b == byte_or_zero(bytes@, i as int),
{
    if i < bytes.len() {
        bytes[i]
    } else {
        0
    }
}

/// A buffer read as 64-bit little-endian numbers.
pub fn u64_words(bytes: &[u8]) -> (v: Vec<u64>)
    ensures
        v@ == le_words(bytes@),
{
    let n: usize = bytes.len() / 8 + (if bytes.len() % 8 == 0 { 0 } else { 1 });
    let mut v: Vec<u64> = Vec::new();
    let mut k: usize = 0;
    while k < n
        invariant
            k <= n,
            n == item_count(bytes.len() as int, 8),
            v.len() == k,
            forall|i: int| 0 <= i < k ==> #[trigger] v[i] == le_u64(bytes@, i),
        decreases n - k,
    {
        let o: usize = 8 * k;
        let w: u64 = (byte_at(bytes, o) as u64) | ((byte_at(bytes, o + 1) as u64) << 8) | ((byte_at(
            bytes,
            o + 2,
        ) as u64) << 16) | ((byte_at(bytes, o + 3) as u64) << 24) | ((byte_at(bytes, o + 4) as u64)
            << 32) | ((byte_at(bytes, o + 5) as u64) << 40) | ((byte_at(bytes, o + 6) as u64) << 48)
            | ((byte_at(bytes, o + 7) as u64) << 56);
        v.push(w);
        k += 1;
    }
    assert(v@ =~= le_words(bytes@));
    v
}

/// A buffer read as 32-bit little-endian numbers.
pub fn u32_words(bytes: &[u8]) -> (v: Vec<u32>)
    ensures
        v@ == le_u32s(bytes@),
{
    let n: usize = bytes.len() / 4 + (if bytes.len() % 4 == 0 { 0 } else { 1 });
    let mut v: Vec<u32> = Vec::new();
    let mut k: usize = 0;
    while k < n
        invariant
            k <= n,
            n == item_count(bytes.len() as int, 4),
            v.len() == k,
            forall|i: int| 0 <= i < k ==> #[trigger] v[i] == le_u32(bytes@, i),
        decreases n - k,
    {
        let o: usize = 4 * k;
        let w: u32 = (byte_at(bytes, o) as u32) | ((byte_at(bytes, o + 1) as u32) << 8) | ((byte_at(
            bytes,
            o + 2,
        ) as u32) << 16) | ((byte_at(bytes, o + 3) as u32) << 24);
        v.push(w);
        k += 1;
    }
    assert(v@ =~= le_u32s(bytes@));
    v
}

/// A buffer read as 16-bit little-endian numbers.
pub fn u16_words(bytes: &[u8]) -> (v: Vec<u16>)
    ensures
        v@ == le_u16s(bytes@),
{
    let n: usize = bytes.len() / 2 + (if bytes.len() % 2 == 0 { 0 } else { 1 });
    let mut v: Vec<u16> = Vec::new();
    let mut k: usize = 0;
    while k < n
        invariant
            k <= n,
            n == item_count(bytes.len() as int, 2),
            v.len() == k,
            forall|i: int| 0 <= i < k ==> #[trigger] v[i] == le_u16(bytes@, i),
        decreases n - k,
    {
        let o: usize = 2 * k;
        let w: u16 = (byte_at(bytes, o) as u16) | ((byte_at(bytes, o + 1) as u16) << 8);
        v.push(w);
        k += 1;
    }
    assert(v@ =~= le_u16s(bytes@));
    v
}

/// Appends the `width` low bytes of `v`, lowest first.
fn push_le(out: &mut Vec<u8>, v: u64, width: usize)
    requires
        width <= 8,
    ensures
        final(out)@ == old(out)@ + Seq::new(width as nat, |i: int| le_byte_of(v, i)),
{
    let mut i: usize = 0;
    while i < width
        invariant
            i <= width <= 8,
            out@ == old(out)@ + Seq::new(i as nat, |j: int| le_byte_of(v, j)),
        decreases width - i,
    {
        out.push(#[verifier::truncate] ((v >> ((8 * i) as u64)) as u8));
        i += 1;
        assert(out@ =~= old(out)@ + Seq::new(i as nat, |j: int| le_byte_of(v, j)));
    }
}

/// Appends a 16-bit number in little-endian order.
pub fn push_u16(out: &mut Vec<u8>, v: u16)
    ensures
        final(out)@ == old(out)@ + u16s_le(seq![v]),
{
    push_le(out, v as u64, 2);
    assert(out@ =~= old(out)@ + u16s_le(seq![v]));
}

/// Appends a 32-bit number in little-endian order.
pub fn push_u32(out: &mut Vec<u8>, v: u32)
    ensures
        final(out)@ == old(out)@ + u32s_le(seq![v]),
{
    push_le(out, v as u64, 4);
    assert(out@ =~= old(out)@ + u32s_le(seq![v]));
}

/// Appends a 64-bit number in little-endian order.
pub fn push_u64(out: &mut Vec<u8>, v: u64)
    ensures
        final(out)@ == old(out)@ + u64s_le(seq![v]),
{
    push_le(out, v, 8);
    assert(out@ =~= old(out)@ + u64s_le(seq![v]));
}

/// Little-endian bytes of one more number follow those of the others.
pub proof fn lemma_u32s_le_push(v: Seq<u32>, x: u32)
    ensures
        u32s_le(v.push(x)) == u32s_le(v) + u32s_le(seq![x]),
{
    assert(u32s_le(v.push(x)) =~= u32s_le(v) + u32s_le(seq![x]));
}

/// Little-endian bytes of one more number follow those of the others.
pub proof fn lemma_u16s_le_push(v: Seq<u16>, x: u16)
    ensures
        u16s_le(v.push(x)) == u16s_le(v) + u16s_le(seq![x]),
{
    assert(u16s_le(v.push(x)) =~= u16s_le(v) + u16s_le(seq![x]));
}

/// The little-endian bytes of an array of 32-bit numbers.
pub fn u32_bytes(v: &[u32]) -> (out: Vec<u8>)
    ensures
        out@ == u32s_le(v@),
{
    let mut out: Vec<u8> = Vec::new();
    let mut k: usize = 0;
    assert(out@ =~= u32s_le(v@.take(0)));
    while k < v.len()
        invariant
            k <= v.len(),
            out@ == u32s_le(v@.take(k as int)),
        decreases v.len() - k,
    {
        push_u32(&mut out, v[k]);
        proof {
            lemma_u32s_le_push(v@.take(k as int), v[k as int]);
            assert(v@.take(k as int).push(v[k as int]) =~= v@.take(k + 1));
        }
        k += 1;
    }
    assert(v@.take(k as int) =~= v@);
    out
}

/// The little-endian bytes of an array of 16-bit numbers.
pub fn u16_bytes(v: &[u16]) -> (out: Vec<u8>)
    ensures
        out@ == u16s_le(v@),
{
    let mut out: Vec<u8> = Vec::new();
    let mut k: usize = 0;
    assert(out@ =~= u16s_le(v@.take(0)));
    while k < v.len()
        invariant
            k <= v.len(),
            out@ == u16s_le(v@.take(k as int)),
        decreases v.len() - k,
    {
        push_u16(&mut out, v[k]);
        proof {
            lemma_u16s_le_push(v@.take(k as int), v[k as int]);
            assert(v@.take(k as int).push(v[k as int]) =~= v@.take(k + 1));
        }
        k += 1;
    }
    assert(v@.take(k as int) =~= v@);
    out
}

} // verus!
