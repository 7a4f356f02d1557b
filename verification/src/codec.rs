//! What is written is what is read: a code that the writer appends is
//! read back by the reader as the value that was written.

use vstd::prelude::*;
use vstd::std_specs::bits::{
    axiom_u64_leading_zeros,
    axiom_u64_trailing_zeros,
    u64_leading_zeros,
    u64_trailing_zeros,
};
use crate::bits::{
    bit_at,
    delta_at,
    delta_bits,
    delta_end,
    delta_of,
    delta_ok,
    delta_readable,
    gamma_at,
    gamma_bits,
    gamma_end,
    gamma_of,
    gamma_ok,
    gamma_readable,
    lemma_window_bit,
    low_mask,
    unary_len,
    window,
    word_at,
};
use crate::bits::{ids_end, ids_ok};
use crate::textwriter::ids_code;
use crate::util::{byte_or_zero, le_words};
use crate::wrbits::{
    bit_len,
    bit_val,
    bits_of,
    byte_bit,
    delta_code,
    gamma_code,
    packed,
    unary_code,
    word_bit,
    zeros,
};

verus! {

/// Whether a buffer holds the bits `code` from bit `pos` on.
pub open spec fn holds(mem: Seq<u64>, pos: int, code: Seq<bool>) -> bool {
    forall|j: int| 0 <= j < code.len() ==> bit_at(mem, pos + j) == #[trigger] code[j]
}

proof fn lemma_differing_bit(a: u64, b: u64, t: u64)
    by (bit_vector)
    requires
        t < 64,
        ((a ^ b) >> t) & 1 == 1,
    ensures
        ((a >> t) & 1 == 1) != ((b >> t) & 1 == 1),
{
}

proof fn lemma_xor_zero(a: u64, b: u64)
    by (bit_vector)
    requires
        a ^ b == 0,
    ensures
        a == b,
{
}

/// Two words with the same bits are the same.
pub proof fn lemma_same_bits(a: u64, b: u64)
    requires
        forall|j: int| 0 <= j < 64 ==> #[trigger] word_bit(a, j) == word_bit(b, j),
    ensures
        a == b,
{
    let x = a ^ b;
    axiom_u64_trailing_zeros(x);
    if x != 0 {
        let t = u64_trailing_zeros(x) as u64;
        lemma_differing_bit(a, b, t);
        assert(word_bit(a, t as int) == word_bit(b, t as int));
    } else {
        lemma_xor_zero(a, b);
    }
}

/// A word whose lowest set bit is bit `l` has `l` zero bits below it.
pub proof fn lemma_unary_len(w: u64, l: int)
    requires
        0 <= l < 64,
        word_bit(w, l),
        forall|j: int| 0 <= j < l ==> !#[trigger] word_bit(w, j),
    ensures
        unary_len(w) == l,
{
    axiom_u64_trailing_zeros(w);
    let t = u64_trailing_zeros(w);
    if w == 0 {
        lemma_zero_word(l as u64);
    } else {
        if t < l {
            assert(!word_bit(w, t as int));
        } else if t > l {
            assert((w >> (l as u64)) & 1u64 == 0u64);
        }
    }
}

proof fn lemma_zero_word(j: u64)
    by (bit_vector)
    ensures
        (0u64 >> j) & 1 == 0,
{
}

proof fn lemma_gamma_bits(w: u64, l: u64, j: u64, t: u64)
    by (bit_vector)
    requires
        l <= 31,
        j < 64,
        j < l ==> t == j + l + 1,
    ensures
        ((((w >> ((l + 1) as u64)) & (((1u64 << l) - 1) as u64)) | (1u64 << l)) >> j) & 1 == 1 <==> (
        if j < l {
            (w >> t) & 1 == 1
        } else {
            j == l
        }),
{
}

proof fn lemma_delta_bits(w: u64, l: u64, s: u64, j: u64, t: u64)
    by (bit_vector)
    requires
        l <= 6,
        s <= 63,
        j < 64,
        j < s && j + 2 * l + 1 < 64 ==> t == j + 2 * l + 1,
    ensures
        (((((w >> ((l + 1) as u64)) >> l) & (((1u64 << s) - 1) as u64)) | (1u64 << s)) >> j) & 1 == 1
            <==> (if j < s {
            j + 2 * l + 1 < 64 && (w >> t) & 1 == 1
        } else {
            j == s
        }),
{
}

proof fn lemma_top_bit(v: u64, n: u64, j: u64)
    by (bit_vector)
    requires
        1 <= n <= 64,
        j < 64,
        n < 64 ==> v >> n == 0,
        (v >> ((n - 1) as u64)) & 1 != 0,
    ensures
        j >= n ==> (v >> j) & 1 == 0,
        j == n - 1 ==> (v >> j) & 1 == 1,
{
}

/// The bits of a value from its length on are zero, and the one below
/// is set.
pub proof fn lemma_bits_above(v: u64)
    requires
        v > 0,
    ensures
        1 <= bit_len(v) <= 64,
        word_bit(v, bit_len(v) - 1),
        forall|j: int| bit_len(v) <= j < 64 ==> !#[trigger] word_bit(v, j),
{
    axiom_u64_leading_zeros(v);
    let n = bit_len(v) as u64;
    lemma_top_bit(v, n, (n - 1) as u64);
    assert forall|j: int| bit_len(v) <= j < 64 implies !#[trigger] word_bit(v, j) by {
        lemma_top_bit(v, n, j as u64);
    }
}

/// The length of a gamma code: twice the length of its value, less
/// one.
pub proof fn lemma_gamma_code_shape(v: u64)
    requires
        v > 0,
    ensures
        gamma_code(v).len() == 2 * bit_len(v) - 1,
        forall|j: int| 0 <= j < bit_len(v) - 1 ==> !#[trigger] gamma_code(v)[j],
        gamma_code(v)[bit_len(v) - 1],
        forall|j: int|
            0 <= j < bit_len(v) - 1 ==> #[trigger] gamma_code(v)[bit_len(v) + j] == word_bit(v, j),
{
    lemma_bits_above(v);
}

/// A buffer that holds the gamma code of a value of at most 32 bits
/// gives that value to the reader, which passes the code.
#[verifier::rlimit(50)]
pub proof fn lemma_gamma_read(mem: Seq<u64>, pos: int, v: u64)
    requires
        0 <= pos,
        0 < v < 0x1_0000_0000,
        holds(mem, pos, gamma_code(v)),
    ensures
        gamma_readable(window(mem, pos)),
        unary_len(window(mem, pos)) == bit_len(v) - 1,
        gamma_at(mem, pos) == v,
        gamma_end(mem, pos) == pos + gamma_code(v).len(),
        pos / 64 < mem.len(),
{
    lemma_gamma_code_shape(v);
    lemma_bits_above(v);
    lemma_small_len(v);
    let code = gamma_code(v);
    let w = window(mem, pos);
    let l = (bit_len(v) - 1) as int;
    assert forall|j: int| 0 <= j < code.len() implies word_bit(w, j) == #[trigger] code[j] by {
        lemma_window_bit(mem, pos, j);
    }
    assert(word_bit(w, l)) by {
        assert(code[l]);
    }
    assert forall|j: int| 0 <= j < l implies !#[trigger] word_bit(w, j) by {
        assert(!code[j]);
    }
    lemma_unary_len(w, l);
    assert forall|j: int| 0 <= j < 64 implies #[trigger] word_bit(gamma_of(w), j) == word_bit(v, j) by {
        lemma_gamma_bits(w, l as u64, j as u64, (j + l + 1) as u64);
        if j < l {
            assert(code[l + 1 + j] == word_bit(v, j));
        }
    }
    lemma_same_bits(gamma_of(w), v);
    assert(bit_at(mem, pos + l)) by {
        assert(code[l]);
    }
    lemma_in_buffer(mem, pos + l);
}

proof fn lemma_small_len(v: u64)
    requires
        0 < v < 0x1_0000_0000,
    ensures
        bit_len(v) <= 32,
{
    lemma_bits_above(v);
    let n = bit_len(v) as u64;
    lemma_bit_bound(v, (n - 1) as u64);
}

proof fn lemma_bit_bound(v: u64, t: u64)
    by (bit_vector)
    requires
        t < 64,
        (v >> t) & 1 == 1,
    ensures
        t >= 32 ==> v >= 0x1_0000_0000,
        t >= 54 ==> v >= 0x40_0000_0000_0000,
{
}

/// A bit that is set lies in the buffer.
pub proof fn lemma_in_buffer(mem: Seq<u64>, i: int)
    requires
        0 <= i,
        bit_at(mem, i),
    ensures
        i / 64 < mem.len(),
{
    if i / 64 >= mem.len() {
        lemma_zero_word((i % 64) as u64);
    }
}

/// A buffer that holds a run of bits holds its parts.
pub proof fn lemma_holds_parts(mem: Seq<u64>, pos: int, a: Seq<bool>, b: Seq<bool>)
    requires
        holds(mem, pos, a + b),
    ensures
        holds(mem, pos, a),
        holds(mem, pos + a.len(), b),
{
    let c = a + b;
    assert forall|j: int| 0 <= j < a.len() implies bit_at(mem, pos + j) == #[trigger] a[j] by {
        assert(c[j] == a[j]);
    }
    assert forall|j: int| 0 <= j < b.len() implies bit_at(mem, pos + a.len() + j) == #[trigger] b[j] by {
        assert(c[a.len() + j] == b[j]);
    }
}

/// The length of a delta code: that of the gamma code of the length of
/// its value, and the length of the value less one.
pub proof fn lemma_delta_code_shape(v: u64)
    requires
        v > 0,
    ensures
        delta_code(v).len() == 2 * bit_len(bit_len(v) as u64) - 1 + bit_len(v) - 1,
        1 <= bit_len(v) <= 64,
        1 <= bit_len(bit_len(v) as u64) <= 7,
        v < 0x40_0000_0000_0000 ==> delta_code(v).len() <= 64,
        v <= 0x1_0000_0000 ==> delta_code(v).len() <= 43,
{
    lemma_bits_above(v);
    let e = bit_len(v) as u64;
    lemma_gamma_code_shape(e);
    crate::wrbits::lemma_gamma_code_len(e);
    lemma_bit_bound(v, (e - 1) as u64);
    lemma_bits_above(e);
    let le = bit_len(e) as u64;
    lemma_len_of_len(e, (le - 1) as u64);
    if v <= 0x1_0000_0000 {
        lemma_bit_bound2(v, (e - 1) as u64);
    }
}

proof fn lemma_len_of_len(e: u64, t: u64)
    by (bit_vector)
    requires
        t < 64,
        (e >> t) & 1 == 1,
    ensures
        t >= 6 ==> e >= 64,
        t >= 5 ==> e >= 32,
{
}

proof fn lemma_bit_bound2(v: u64, t: u64)
    by (bit_vector)
    requires
        t < 64,
        (v >> t) & 1 == 1,
        v <= 0x1_0000_0000,
    ensures
        t <= 32,
{
}

/// A buffer that holds the delta code of a value, in no more than 64
/// bits, gives that value to the reader, which passes the code.
#[verifier::rlimit(50)]
pub proof fn lemma_delta_read(mem: Seq<u64>, pos: int, v: u64)
    requires
        0 <= pos,
        v > 0,
        delta_code(v).len() <= 64,
        holds(mem, pos, delta_code(v)),
    ensures
        delta_readable(window(mem, pos)),
        delta_at(mem, pos) == v,
        delta_end(mem, pos) == pos + delta_code(v).len(),
        pos / 64 < mem.len(),
{
    lemma_delta_code_shape(v);
    lemma_bits_above(v);
    let e = bit_len(v) as u64;
    let g = gamma_code(e);
    let rest = bits_of(v, (e - 1) as nat);
    lemma_holds_parts(mem, pos, g, rest);
    lemma_gamma_read(mem, pos, e);
    let w = window(mem, pos);
    let l = (bit_len(e) - 1) as int;
    let s = (e - 1) as int;
    let code = delta_code(v);
    assert forall|j: int| 0 <= j < code.len() implies word_bit(w, j) == #[trigger] code[j] by {
        lemma_window_bit(mem, pos, j);
    }
    assert forall|j: int| 0 <= j < 64 implies #[trigger] word_bit(delta_of(w), j) == word_bit(v, j) by {
        lemma_delta_bits(w, l as u64, s as u64, j as u64, (j + 2 * l + 1) as u64);
        if j < s {
            assert(code[g.len() + j] == rest[j]);
            assert(word_bit(w, g.len() + j) == code[g.len() + j]);
        }
    }
    lemma_same_bits(delta_of(w), v);
}

proof fn lemma_word_of_bytes(
    b0: u8,
    b1: u8,
    b2: u8,
    b3: u8,
    b4: u8,
    b5: u8,
    b6: u8,
    b7: u8,
    r: u64,
    j: u8,
    sel: u8,
)
    by (bit_vector)
    requires
        r < 64,
        j < 8,
        j as u64 == r % 8,
        r / 8 == 0 ==> sel == b0,
        r / 8 == 1 ==> sel == b1,
        r / 8 == 2 ==> sel == b2,
        r / 8 == 3 ==> sel == b3,
        r / 8 == 4 ==> sel == b4,
        r / 8 == 5 ==> sel == b5,
        r / 8 == 6 ==> sel == b6,
        r / 8 == 7 ==> sel == b7,
    ensures
        ((((b0 as u64) | ((b1 as u64) << 8) | ((b2 as u64) << 16) | ((b3 as u64) << 24) | ((b4 as u64)
            << 32) | ((b5 as u64) << 40) | ((b6 as u64) << 48) | ((b7 as u64) << 56)) >> r) & 1 == 1)
            <==> ((sel >> j) & 1 == 1),
{
}

proof fn lemma_byte_of_bits(
    c0: u8,
    c1: u8,
    c2: u8,
    c3: u8,
    c4: u8,
    c5: u8,
    c6: u8,
    c7: u8,
    j: u8,
    sel: u8,
)
    by (bit_vector)
    requires
        j < 8,
        c0 <= 1,
        c1 <= 1,
        c2 <= 1,
        c3 <= 1,
        c4 <= 1,
        c5 <= 1,
        c6 <= 1,
        c7 <= 1,
        j == 0 ==> sel == c0,
        j == 1 ==> sel == c1,
        j == 2 ==> sel == c2,
        j == 3 ==> sel == c3,
        j == 4 ==> sel == c4,
        j == 5 ==> sel == c5,
        j == 6 ==> sel == c6,
        j == 7 ==> sel == c7,
    ensures
        (((c0 | (c1 << 1) | (c2 << 2) | (c3 << 3) | (c4 << 4) | (c5 << 5) | (c6 << 6) | (c7 << 7))
            >> j) & 1 == 1) <==> sel == 1,
{
}

/// Bit `i` of a buffer of bytes read as words is bit `i % 8` of byte
/// `i / 8`, and no bit past the bytes is set.
#[verifier::rlimit(50)]
pub proof fn lemma_words_bit(bytes: Seq<u8>, i: int)
    requires
        0 <= i,
    ensures
        bit_at(le_words(bytes), i) == (i / 8 < bytes.len() && byte_bit(bytes[i / 8], i % 8)),
{
    let words = le_words(bytes);
    let k = i / 64;
    let r = i % 64;
    if k >= words.len() {
        lemma_zero_word(r as u64);
    } else {
        let m = r / 8;
        let j = r % 8;
        assert(i / 8 == 8 * k + m && i % 8 == j);
        let sel = byte_or_zero(bytes, 8 * k + m);
        lemma_word_of_bytes(
            byte_or_zero(bytes, 8 * k),
            byte_or_zero(bytes, 8 * k + 1),
            byte_or_zero(bytes, 8 * k + 2),
            byte_or_zero(bytes, 8 * k + 3),
            byte_or_zero(bytes, 8 * k + 4),
            byte_or_zero(bytes, 8 * k + 5),
            byte_or_zero(bytes, 8 * k + 6),
            byte_or_zero(bytes, 8 * k + 7),
            r as u64,
            j as u8,
            sel,
        );
        assert(words[k] == crate::util::le_u64(bytes, k));
        if i / 8 >= bytes.len() {
            lemma_zero_byte(j as u8);
        }
    }
}

proof fn lemma_zero_byte(j: u8)
    by (bit_vector)
    ensures
        (0u8 >> j) & 1 == 0,
{
}

/// Bit `i` of the bytes into which bits are packed is bit `i` of the
/// bits, and a zero past them.
pub proof fn lemma_packed_bit(bits: Seq<bool>, i: int)
    requires
        0 <= i < 8 * packed(bits).len(),
    ensures
        byte_bit(packed(bits)[i / 8], i % 8) == (i < bits.len() && bits[i]),
{
    let k = i / 8;
    let j = i % 8;
    let sel = bit_val(bits, 8 * k + j);
    lemma_byte_of_bits(
        bit_val(bits, 8 * k),
        bit_val(bits, 8 * k + 1),
        bit_val(bits, 8 * k + 2),
        bit_val(bits, 8 * k + 3),
        bit_val(bits, 8 * k + 4),
        bit_val(bits, 8 * k + 5),
        bit_val(bits, 8 * k + 6),
        bit_val(bits, 8 * k + 7),
        j as u8,
        sel,
    );
}

/// A file that holds packed bits from byte `k` on holds those bits,
/// read as words, from bit `8 * k` on.
pub proof fn lemma_file_holds(f: Seq<u8>, k: int, bits: Seq<bool>)
    requires
        0 <= k,
        k + packed(bits).len() <= f.len(),
        f.subrange(k, k + packed(bits).len()) == packed(bits),
    ensures
        holds(le_words(f), 8 * k, bits),
{
    assert forall|j: int| 0 <= j < bits.len() implies bit_at(le_words(f), 8 * k + j) == #[trigger] bits[j] by {
        let i = 8 * k + j;
        lemma_words_bit(f, i);
        lemma_packed_bit(bits, j);
        assert(i / 8 == k + j / 8 && i % 8 == j % 8);
        assert(f[i / 8] == f.subrange(k, k + packed(bits).len())[j / 8]);
    }
}

/// A value of no more than 32 bits is its own low 32 bits.
pub proof fn lemma_low_bits(v: u64)
    by (bit_vector)
    requires
        0 < v <= 0xffff_ffff,
    ensures
        v & 0xffff_ffff == v,
{
}

/// More ids take no fewer bits, and their codes open with the codes of
/// the fewer.
pub proof fn lemma_ids_code_opens(ids: Seq<u32>, a: nat, b: nat)
    requires
        a <= b,
    ensures
        ids_code(ids, a).len() <= ids_code(ids, b).len(),
        ids_code(ids, b).subrange(0, ids_code(ids, a).len() as int) == ids_code(ids, a),
    decreases b,
{
    if a < b {
        lemma_ids_code_opens(ids, a, (b - 1) as nat);
        let x = ids_code(ids, (b - 1) as nat);
        let y = ids_code(ids, b);
        assert(y.subrange(0, ids_code(ids, a).len() as int) =~= x.subrange(
            0,
            ids_code(ids, a).len() as int,
        ));
    } else {
        assert(ids_code(ids, b).subrange(0, ids_code(ids, a).len() as int) =~= ids_code(ids, a));
    }
}

/// A buffer that holds the codes of ids holds the codes of the first of
/// them.
pub proof fn lemma_holds_fewer(mem: Seq<u64>, pos: int, ids: Seq<u32>, a: nat, b: nat)
    requires
        a <= b,
        holds(mem, pos, ids_code(ids, b)),
    ensures
        holds(mem, pos, ids_code(ids, a)),
{
    lemma_ids_code_opens(ids, a, b);
    let x = ids_code(ids, a);
    let y = ids_code(ids, b);
    assert forall|j: int| 0 <= j < x.len() implies bit_at(mem, pos + j) == #[trigger] x[j] by {
        assert(y.subrange(0, x.len() as int)[j] == y[j]);
    }
}

/// A buffer that holds the codes of `n` ids, each less than 2^32 - 1,
/// gives those ids to the reader, which ends behind the codes.
pub proof fn lemma_ids_read(mem: Seq<u64>, pos: int, ids: Seq<u32>, n: nat)
    requires
        0 <= pos,
        n <= ids.len(),
        forall|k: int| 0 <= k < n ==> (#[trigger] ids[k]) < u32::MAX,
        holds(mem, pos, ids_code(ids, n)),
        pos + ids_code(ids, n).len() <= usize::MAX,
    ensures
        ids_ok(mem, pos, n),
        ids_end(mem, pos, n) == pos + ids_code(ids, n).len(),
        crate::bits::ids(mem, pos, n) == ids.take(n as int),
    decreases n,
{
    if n == 0 {
        assert(crate::bits::ids(mem, pos, 0) =~= ids.take(0));
    } else {
        let m = (n - 1) as nat;
        let v = (ids[m as int] + 1) as u64;
        let before = ids_code(ids, m);
        lemma_holds_parts(mem, pos, before, delta_code(v));
        lemma_ids_read(mem, pos, ids, m);
        let p = pos + before.len();
        lemma_delta_code_shape(v);
        lemma_delta_read(mem, p, v);
        lemma_low_bits(v);
        crate::bits::lemma_ids_split(mem, pos, m, 1);
        crate::bits::lemma_ids_one(mem, p);
        assert(crate::bits::id_at(mem, p) == ids[m as int]);
        assert(ids.take(m as int) + seq![ids[m as int]] =~= ids.take(n as int));
    }
}

} // verus!
