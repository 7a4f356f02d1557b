//! Bit-level reader over a buffer of 64-bit words.
//!
//! A buffer is addressed by bit position: bit `i` is bit `i % 64` of word
//! `i / 64`, and every word past the end of the buffer reads as zero. The
//! codes are Elias gamma and Elias delta, least significant bit first.

use vstd::prelude::*;
use vstd::std_specs::bits::{axiom_u64_trailing_zeros, u64_trailing_zeros};

verus! {

/// Word `i` of the buffer; zero outside it.
pub open spec fn word_at(mem: Seq<u64>, i: int) -> u64 {
    if 0 <= i < mem.len() {
        mem[i]
    } else {
        0
    }
}

/// Bit `i` of the buffer.
pub open spec fn bit_at(mem: Seq<u64>, i: int) -> bool {
    (word_at(mem, i / 64) >> ((i % 64) as u64)) & 1 == 1
}

/// The 64 bits that start at bit `pos`, bit `pos` lowest.
pub open spec fn window(mem: Seq<u64>, pos: int) -> u64 {
    let lo = word_at(mem, pos / 64) >> ((pos % 64) as u64);
    if pos % 64 == 0 {
        lo
    } else {
        lo | (word_at(mem, pos / 64 + 1) << ((64 - pos % 64) as u64))
    }
}

/// A word whose lowest `n` bits are set, for `n < 64`.
pub open spec fn low_mask(n: u64) -> u64 {
    ((1u64 << n) - 1) as u64
}

/// Number of zero bits below the lowest set bit of a window: the unary
/// prefix of the code that starts there.
pub open spec fn unary_len(w: u64) -> u64 {
    u64_trailing_zeros(w) as u64
}

/// Whether a window opens with a gamma code that can be read from it.
pub open spec fn gamma_readable(w: u64) -> bool {
    unary_len(w) <= 62
}

/// Value of the gamma code that opens a window: the `L` bits after the
/// unary prefix of `L` zeros and a one, under a leading one.
pub open spec fn gamma_of(w: u64) -> u64 {
    let l = unary_len(w);
    ((w >> ((l + 1) as u64)) & low_mask(l)) | (1u64 << l)
}

/// Number of bits of the gamma code that opens a window.
pub open spec fn gamma_bits(w: u64) -> int {
    2 * unary_len(w) + 1
}

/// Whether a window opens with a delta code that can be read from it: its
/// length field is a readable gamma code of at most 64.
pub open spec fn delta_readable(w: u64) -> bool {
    gamma_readable(w) && gamma_of(w) <= 64
}

/// Value of the delta code that opens a window: the `E - 1` bits after the
/// gamma code of `E`, under a leading one.
pub open spec fn delta_of(w: u64) -> u64 {
    let l = unary_len(w);
    let e = gamma_of(w);
    (((w >> ((l + 1) as u64)) >> l) & low_mask((e - 1) as u64)) | (1u64 << ((e - 1) as u64))
}

/// Number of bits of the delta code that opens a window.
pub open spec fn delta_bits(w: u64) -> int {
    2 * unary_len(w) + gamma_of(w)
}

/// Whether a gamma code can be read at bit `pos` of a buffer.
pub open spec fn gamma_ok(mem: Seq<u64>, pos: int) -> bool {
    &&& 0 <= pos
    &&& pos / 64 < mem.len()
    &&& gamma_readable(window(mem, pos))
    &&& pos + gamma_bits(window(mem, pos)) <= usize::MAX
}

/// Whether a delta code can be read at bit `pos` of a buffer.
pub open spec fn delta_ok(mem: Seq<u64>, pos: int) -> bool {
    &&& 0 <= pos
    &&& pos / 64 < mem.len()
    &&& delta_readable(window(mem, pos))
    &&& pos + delta_bits(window(mem, pos)) <= usize::MAX
}

/// Value of the gamma code at bit `pos`.
pub open spec fn gamma_at(mem: Seq<u64>, pos: int) -> u64 {
    gamma_of(window(mem, pos))
}

/// Bit position just after the gamma code at bit `pos`.
pub open spec fn gamma_end(mem: Seq<u64>, pos: int) -> int {
    pos + gamma_bits(window(mem, pos))
}

/// Value of the delta code at bit `pos`.
pub open spec fn delta_at(mem: Seq<u64>, pos: int) -> u64 {
    delta_of(window(mem, pos))
}

/// Bit position just after the delta code at bit `pos`.
pub open spec fn delta_end(mem: Seq<u64>, pos: int) -> int {
    pos + delta_bits(window(mem, pos))
}

/// A readable gamma code is at least 1 and, with a unary prefix of `L`
/// zeros, lies in `[2^L, 2^(L+1))`.
pub proof fn lemma_gamma_range(w: u64)
    requires
        gamma_readable(w),
    ensures
        gamma_of(w) >= 1,
        gamma_of(w) >= (1u64 << unary_len(w)),
        unary_len(w) <= 5 ==> gamma_of(w) < 64,
        unary_len(w) >= 7 ==> gamma_of(w) > 64,
{
    let l = unary_len(w);
    let x = w >> ((l + 1) as u64);
    assert(l <= 62 ==> ((x & (((1u64 << l) - 1) as u64)) | (1u64 << l)) >= (1u64 << l) && (1u64
        << l) >= 1) by (bit_vector);
    assert(l <= 5 ==> ((x & (((1u64 << l) - 1) as u64)) | (1u64 << l)) < 64) by (bit_vector);
    assert(7 <= l <= 62 ==> (1u64 << l) > 64) by (bit_vector);
}

/// A readable delta code is at least 1 and takes at most 76 bits.
pub proof fn lemma_delta_range(w: u64)
    requires
        delta_readable(w),
    ensures
        delta_of(w) >= 1,
        unary_len(w) <= 6,
        1 <= gamma_of(w) <= 64,
        1 <= delta_bits(w) <= 76,
{
    lemma_gamma_range(w);
    let l = unary_len(w);
    let e = gamma_of(w);
    let s = (e - 1) as u64;
    let x = (w >> ((l + 1) as u64)) >> l;
    assert(s <= 63 ==> ((x & (((1u64 << s) - 1) as u64)) | (1u64 << s)) >= 1) by (bit_vector);
}

/// A single bit shifted by less than the word size is not lost.
pub proof fn lemma_one_shl(n: u64)
    requires
        n < 64,
    ensures
        (1u64 << n) >= 1,
{
    assert(n < 64 ==> (1u64 << n) >= 1) by (bit_vector);
}

/// Sequential reader of bits and Elias codes from a word buffer.
#[derive(Debug)]
pub struct Reader<'a> {
    bitpos: usize,
    mem: &'a [u64],
}

impl<'a> Reader<'a> {
    /// The bit position of the reader.
    pub closed spec fn position(&self) -> int {
        self.bitpos as int
    }

    /// The buffer that the reader reads from.
    pub closed spec fn words(&self) -> Seq<u64> {
        self.mem@
    }

    /// The reader stands inside the buffer, so that a window can be taken.
    pub open spec fn in_bounds(&self) -> bool {
        self.position() / 64 < self.words().len()
    }

    /// A gamma code can be read at the reader's position.
    pub open spec fn gamma_ok(&self) -> bool {
        gamma_ok(self.words(), self.position())
    }

    /// A delta code can be read at the reader's position.
    pub open spec fn delta_ok(&self) -> bool {
        delta_ok(self.words(), self.position())
    }

    /// A reader on `mem` that stands at bit `offset_bits`.
    pub fn open(mem: &'a [u64], offset_bits: usize) -> (r: Reader<'a>)
        ensures
            r.position() == offset_bits,
            r.words() == mem@,
    {
        Reader { mem, bitpos: offset_bits }
    }

    /// Moves the reader `n` bits forward.
    pub fn skip_bits(&mut self, n: usize)
        requires
            old(self).position() + n <= usize::MAX,
        ensures
            final(self).position() == old(self).position() + n,
            final(self).words() == old(self).words(),
    {
        self.bitpos += n;
    }

    /// The buffer that the reader reads from.
    pub fn mem(&self) -> (m: &'a [u64])
        ensures
            m@ == self.words(),
    {
        self.mem
    }

    /// The bit position.
    pub fn bitpos(&self) -> (p: usize)
        ensures
            p == self.position(),
    {
        self.bitpos
    }

    /// The bit position as a signed number.
    pub fn tell(&self) -> (p: i64)
        ensures
            p == self.position() as i64,
    {
        #[verifier::truncate]
        (self.bitpos as i64)
    }

    /// The 64 bits at the reader's position.
    pub fn atom(&self) -> (w: u64)
        requires
            self.in_bounds(),
        ensures
            w == window(self.words(), self.position()),
    {
        let i: usize = self.bitpos / 64;
        let r: usize = self.bitpos % 64;
        let lo_word: u64 = self.mem[i];
        let hi_word: u64 = if i + 1 < self.mem.len() {
            self.mem[i + 1]
        } else {
            0
        };
        if r == 0 {
            lo_word >> 0u64
        } else {
            (lo_word >> (r as u64)) | (hi_word << ((64 - r) as u64))
        }
    }

    /// A bit can be read at the reader's position.
    pub open spec fn bit_ok(&self) -> bool {
        self.in_bounds() && self.position() + 1 <= usize::MAX
    }

    /// Whether a bit can be read here.
    pub fn can_bit(&self) -> (b: bool)
        ensures
            b == self.bit_ok(),
    {
        self.bitpos / 64 < self.mem.len() && self.bitpos < usize::MAX
    }

    /// Whether a gamma code can be read here.
    pub fn can_gamma(&self) -> (b: bool)
        ensures
            b == self.gamma_ok(),
    {
        if self.bitpos / 64 >= self.mem.len() {
            return false;
        }
        let l: u32 = self.atom().trailing_zeros();
        proof {
            axiom_u64_trailing_zeros(window(self.words(), self.position()));
        }
        l <= 62 && (2 * l + 1) as usize <= usize::MAX - self.bitpos
    }

    /// Whether a delta code can be read here.
    pub fn can_delta(&self) -> (b: bool)
        ensures
            b == self.delta_ok(),
    {
        if self.bitpos / 64 >= self.mem.len() {
            return false;
        }
        let atom: u64 = self.atom();
        let l: u32 = atom.trailing_zeros();
        proof {
            axiom_u64_trailing_zeros(atom);
        }
        if l > 62 {
            return false;
        }
        let unarylen: u64 = l as u64;
        proof {
            lemma_gamma_range(atom);
            lemma_one_shl(unarylen);
        }
        let exponent: u64 = ((atom >> (unarylen + 1)) & ((1u64 << unarylen) - 1)) | (1u64
            << unarylen);
        if exponent > 64 {
            return false;
        }
        proof {
            lemma_delta_range(atom);
        }
        (2 * unarylen + exponent) as usize <= usize::MAX - self.bitpos
    }

    /// Reads one delta code and moves past it.
    pub fn delta(&mut self) -> (v: u64)
        requires
            old(self).delta_ok(),
        ensures
            v == delta_at(old(self).words(), old(self).position()),
            v >= 1,
            final(self).position() == delta_end(old(self).words(), old(self).position()),
            final(self).words() == old(self).words(),
    {
        let mut atom: u64 = self.atom();
        let ghost w = atom;
        proof {
            axiom_u64_trailing_zeros(w);
            lemma_gamma_range(w);
            lemma_delta_range(w);
            lemma_one_shl(unary_len(w));
            lemma_one_shl((gamma_of(w) - 1) as u64);
        }
        let unarylen: u64 = atom.trailing_zeros() as u64;
        atom >>= unarylen + 1;
        let exponent: u64 = (atom & ((1u64 << unarylen) - 1)) | (1u64 << unarylen);
        atom >>= unarylen;
        self.skip_bits(((unarylen + 1) + unarylen + (exponent - 1)) as usize);
        (atom & ((1u64 << (exponent - 1)) - 1)) | (1u64 << (exponent - 1))
    }

    /// Reads one gamma code and moves past it.
    pub fn gamma(&mut self) -> (v: u64)
        requires
            old(self).gamma_ok(),
        ensures
            v == gamma_at(old(self).words(), old(self).position()),
            v >= 1,
            final(self).position() == gamma_end(old(self).words(), old(self).position()),
            final(self).words() == old(self).words(),
    {
        let mut atom: u64 = self.atom();
        let ghost w = atom;
        proof {
            axiom_u64_trailing_zeros(w);
            lemma_gamma_range(w);
            lemma_one_shl(unary_len(w));
        }
        let unarylen: u64 = atom.trailing_zeros() as u64;
        atom >>= unarylen + 1;
        self.skip_bits(((unarylen + 1) + unarylen) as usize);
        (atom & ((1u64 << unarylen) - 1)) | (1u64 << unarylen)
    }

    /// Reads one bit and moves past it.
    pub fn bit(&mut self) -> (v: bool)
        requires
            old(self).bit_ok(),
        ensures
            v == bit_at(old(self).words(), old(self).position()),
            final(self).position() == old(self).position() + 1,
            final(self).words() == old(self).words(),
    {
        let a: u64 = self.atom();
        proof {
            lemma_window_bit(self.words(), self.position(), 0);
            assert(a >> 0u64 == a) by (bit_vector);
        }
        let v = (a & 1) != 0;
        assert((a & 1) != 0 <==> (a & 1) == 1) by (bit_vector);
        self.skip_bits(1);
        v
    }
}

/// Bit `j` of the window at `pos` is bit `pos + j` of the buffer.
pub proof fn lemma_window_bit(mem: Seq<u64>, pos: int, j: int)
    requires
        0 <= pos,
        0 <= j < 64,
    ensures
        ((window(mem, pos) >> (j as u64)) & 1 == 1) == bit_at(mem, pos + j),
{
    let r = (pos % 64) as u64;
    let lo_word = word_at(mem, pos / 64);
    let hi_word = word_at(mem, pos / 64 + 1);
    let ju = j as u64;
    if r == 0 {
        assert((pos + j) / 64 == pos / 64 && (pos + j) % 64 == j);
        assert((lo_word >> 0u64) == lo_word) by (bit_vector);
    } else if j + r < 64 {
        assert((pos + j) / 64 == pos / 64 && (pos + j) % 64 == j + r);
        let s = (j + r) as u64;
        let t = (64 - r) as u64;
        assert(0 < r < 64 && s == ju + r && s < 64 && t == 64 - r ==> (((lo_word >> r) | (hi_word << t))
            >> ju) & 1 == (lo_word >> s) & 1) by (bit_vector);
    } else {
        assert((pos + j) / 64 == pos / 64 + 1 && (pos + j) % 64 == j + r - 64);
        let s = (j + r - 64) as u64;
        let t = (64 - r) as u64;
        assert(0 < r < 64 && ju < 64 && ju + r >= 64 && s == ju + r - 64 && t == 64 - r ==> (((lo_word
            >> r) | (hi_word << t)) >> ju) & 1 == (hi_word >> s) & 1) by (bit_vector);
    }
}


/// Whether the delta code at bit `pos` can be read and stands for an
/// id: its low 32 bits, less one.
pub open spec fn id_ok(mem: Seq<u64>, pos: int) -> bool {
    delta_ok(mem, pos) && delta_at(mem, pos) & 0xffff_ffff != 0
}

/// The id that the delta code at bit `pos` stands for.
pub open spec fn id_at(mem: Seq<u64>, pos: int) -> u32 {
    (((delta_at(mem, pos) & 0xffff_ffff) as u32) - 1) as u32
}

/// Whether `n` ids can be read one after another from bit `pos`.
pub open spec fn ids_ok(mem: Seq<u64>, pos: int, n: nat) -> bool
    decreases n,
{
    n == 0 || (id_ok(mem, pos) && ids_ok(mem, delta_end(mem, pos), (n - 1) as nat))
}

/// Bit position after the `n` delta codes from bit `pos`.
pub open spec fn ids_end(mem: Seq<u64>, pos: int, n: nat) -> int
    decreases n,
{
    if n == 0 {
        pos
    } else {
        ids_end(mem, delta_end(mem, pos), (n - 1) as nat)
    }
}

/// The `n` ids from bit `pos`.
pub open spec fn ids(mem: Seq<u64>, pos: int, n: nat) -> Seq<u32>
    decreases n,
{
    if n == 0 {
        Seq::empty()
    } else {
        seq![id_at(mem, pos)] + ids(mem, delta_end(mem, pos), (n - 1) as nat)
    }
}

/// A run of `a + b` ids is a run of `a` followed by a run of `b`.
pub proof fn lemma_ids_split(mem: Seq<u64>, pos: int, a: nat, b: nat)
    ensures
        ids_ok(mem, pos, a + b) == (ids_ok(mem, pos, a) && ids_ok(mem, ids_end(mem, pos, a), b)),
        ids_end(mem, pos, a + b) == ids_end(mem, ids_end(mem, pos, a), b),
        ids(mem, pos, a + b) == ids(mem, pos, a) + ids(mem, ids_end(mem, pos, a), b),
        ids(mem, pos, a).len() == a,
    decreases a,
{
    if a == 0 {
        assert(ids(mem, pos, a + b) =~= ids(mem, pos, a) + ids(mem, ids_end(mem, pos, a), b));
    } else {
        let next = delta_end(mem, pos);
        lemma_ids_split(mem, next, (a - 1) as nat, b);
        assert((a + b - 1) as nat == (a - 1) as nat + b);
        assert(ids(mem, pos, a + b) =~= ids(mem, pos, a) + ids(mem, ids_end(mem, pos, a), b));
    }
}

/// A run of one id is that id.
pub proof fn lemma_ids_one(mem: Seq<u64>, pos: int)
    ensures
        ids_ok(mem, pos, 1) == id_ok(mem, pos),
        ids_end(mem, pos, 1) == delta_end(mem, pos),
        ids(mem, pos, 1) == seq![id_at(mem, pos)],
{
    reveal_with_fuel(ids_ok, 2);
    reveal_with_fuel(ids_end, 2);
    reveal_with_fuel(ids, 2);
    assert(ids(mem, pos, 1) =~= seq![id_at(mem, pos)]);
}

/// A readable run of ids only moves forward, and stays within the
/// range of bit positions.
pub proof fn lemma_ids_end_bounds(mem: Seq<u64>, pos: int, n: nat)
    requires
        0 <= pos <= usize::MAX,
        ids_ok(mem, pos, n),
    ensures
        pos + n <= ids_end(mem, pos, n) <= usize::MAX,
    decreases n,
{
    if n > 0 {
        lemma_delta_range(window(mem, pos));
        lemma_ids_end_bounds(mem, delta_end(mem, pos), (n - 1) as nat);
    }
}


/// Whether `n` delta codes can be read one after another from bit `pos`.
pub open spec fn deltas_ok(mem: Seq<u64>, pos: int, n: nat) -> bool
    decreases n,
{
    n == 0 || (delta_ok(mem, pos) && deltas_ok(mem, delta_end(mem, pos), (n - 1) as nat))
}

/// Bit position after `n` delta codes from bit `pos`.
pub open spec fn deltas_end(mem: Seq<u64>, pos: int, n: nat) -> int
    decreases n,
{
    if n == 0 {
        pos
    } else {
        deltas_end(mem, delta_end(mem, pos), (n - 1) as nat)
    }
}

/// Number of bits of a buffer from bit `pos` on.
pub open spec fn bits_left(mem: Seq<u64>, pos: int) -> nat {
    if 0 <= pos < 64 * mem.len() {
        (64 * mem.len() - pos) as nat
    } else {
        0
    }
}

/// A delta code that can be read lies in the buffer, and fewer bits are
/// left behind it.
pub proof fn lemma_delta_advances(mem: Seq<u64>, pos: int)
    requires
        delta_ok(mem, pos),
    ensures
        pos < delta_end(mem, pos),
        bits_left(mem, delta_end(mem, pos)) < bits_left(mem, pos),
{
    lemma_delta_range(window(mem, pos));
}

} // verus!
