//! Bit-level writer into a byte buffer.
//!
//! The writer appends bits to a sink of bytes, eight to a byte and the
//! first bit lowest. Its view is the sequence of bits written since it was
//! made; the bytes that the sink held before are its prefix.

use vstd::prelude::*;
use vstd::std_specs::bits::{axiom_u64_leading_zeros, u64_leading_zeros};

verus! {

/// Bit `j` of a word.
pub open spec fn word_bit(w: u64, j: int) -> bool {
    (w >> (j as u64)) & 1 == 1
}

/// Bit `j` of a byte.
pub open spec fn byte_bit(b: u8, j: int) -> bool {
    (b >> (j as u8)) & 1 == 1
}

/// The lowest `n` bits of `v`, lowest first.
pub open spec fn bits_of(v: u64, n: nat) -> Seq<bool> {
    Seq::new(n, |j: int| word_bit(v, j))
}

/// `n` zero bits.
pub open spec fn zeros(n: nat) -> Seq<bool> {
    Seq::new(n, |j: int| false)
}

/// Number of bits of `v` up to its highest set bit.
pub open spec fn bit_len(v: u64) -> nat {
    (64 - u64_leading_zeros(v)) as nat
}

/// Unary code of `v >= 1`: `v - 1` zeros and a one.
pub open spec fn unary_code(v: u64) -> Seq<bool> {
    zeros((v - 1) as nat).push(true)
}

/// Elias gamma code of `v >= 1`: the length of `v` in unary, then `v`
/// without its highest bit.
pub open spec fn gamma_code(v: u64) -> Seq<bool> {
    unary_code(bit_len(v) as u64) + bits_of(v, (bit_len(v) - 1) as nat)
}

/// Elias delta code of `v >= 1`: the length of `v` in gamma, then `v`
/// without its highest bit.
pub open spec fn delta_code(v: u64) -> Seq<bool> {
    gamma_code(bit_len(v) as u64) + bits_of(v, (bit_len(v) - 1) as nat)
}

/// Bit `i` of a bit sequence as a number; zero past its end.
pub open spec fn bit_val(bits: Seq<bool>, i: int) -> u8 {
    if 0 <= i < bits.len() && bits[i] {
        1u8
    } else {
        0u8
    }
}

/// Byte `k` of a bit sequence packed eight to a byte, first bit lowest.
pub open spec fn packed_byte(bits: Seq<bool>, k: int) -> u8 {
    bit_val(bits, 8 * k) | (bit_val(bits, 8 * k + 1) << 1) | (bit_val(bits, 8 * k + 2) << 2) | (
    bit_val(bits, 8 * k + 3) << 3) | (bit_val(bits, 8 * k + 4) << 4) | (bit_val(bits, 8 * k + 5)
        << 5) | (bit_val(bits, 8 * k + 6) << 6) | (bit_val(bits, 8 * k + 7) << 7)
}

/// A bit sequence packed into bytes, the last byte filled up with zeros.
pub open spec fn packed(bits: Seq<bool>) -> Seq<u8> {
    Seq::new(((bits.len() + 7) / 8) as nat, |k: int| packed_byte(bits, k))
}

/// Byte `m` of a word in little-endian order.
pub open spec fn le_byte(w: u64, m: int) -> u8 {
    (w >> ((8 * m) as u64)) as u8
}

proof fn lemma_zero_bit(j: u64)
    by (bit_vector)
    ensures
        (0u64 >> j) & 1 == 0,
{
}

proof fn lemma_le_byte_bits(w: u64, s: u64, j: u8, t: u64)
    by (bit_vector)
    requires
        s <= 56,
        j < 8,
        t == s + j,
    ensures
        (((w >> s) as u8) >> j) & 1 == 1 <==> (w >> t) & 1 == 1,
{
}

proof fn lemma_byte_from_bits(b: u8, c0: u8, c1: u8, c2: u8, c3: u8, c4: u8, c5: u8, c6: u8, c7: u8)
    by (bit_vector)
    requires
        c0 == (if (b >> 0u8) & 1 == 1 { 1u8 } else { 0u8 }),
        c1 == (if (b >> 1u8) & 1 == 1 { 1u8 } else { 0u8 }),
        c2 == (if (b >> 2u8) & 1 == 1 { 1u8 } else { 0u8 }),
        c3 == (if (b >> 3u8) & 1 == 1 { 1u8 } else { 0u8 }),
        c4 == (if (b >> 4u8) & 1 == 1 { 1u8 } else { 0u8 }),
        c5 == (if (b >> 5u8) & 1 == 1 { 1u8 } else { 0u8 }),
        c6 == (if (b >> 6u8) & 1 == 1 { 1u8 } else { 0u8 }),
        c7 == (if (b >> 7u8) & 1 == 1 { 1u8 } else { 0u8 }),
    ensures
        b == c0 | (c1 << 1) | (c2 << 2) | (c3 << 3) | (c4 << 4) | (c5 << 5) | (c6 << 6) | (c7 << 7),
{
}

proof fn lemma_or_shl_bit(p: u64, r: u64, u: u64, j: u64, d: u64)
    by (bit_vector)
    requires
        u < 64,
        j < 64,
        j >= u ==> d == j - u,
    ensures
        ((p | (r << u)) >> j) & 1 == 1 <==> ((p >> j) & 1 == 1 || (j >= u && (r >> d) & 1 == 1)),
        (1u64 >> d) & 1 == 1 <==> d == 0,
{
}

proof fn lemma_shr_bit(r: u64, c: u64, i: u64, t: u64)
    by (bit_vector)
    requires
        c < 64,
        i < 64,
        i + c < 64 ==> t == i + c,
    ensures
        ((r >> c) >> i) & 1 == 1 <==> (i + c < 64 && (r >> t) & 1 == 1),
{
}

proof fn lemma_clear_bit(v: u64, t: u64, j: u64)
    by (bit_vector)
    requires
        t < 64,
        j < 64,
    ensures
        ((v & !(1u64 << t)) >> j) & 1 == 1 <==> (j != t && (v >> j) & 1 == 1),
{
}

proof fn lemma_high_zero(v: u64, n: u64, j: u64)
    by (bit_vector)
    requires
        n <= j < 64,
        v >> n == 0,
    ensures
        (v >> j) & 1 == 0,
{
}

proof fn lemma_bit_lower_bound(v: u64, t: u64)
    by (bit_vector)
    requires
        t < 64,
        (v >> t) & 1 != 0,
    ensures
        v >= (1u64 << t),
        t >= 7 ==> (1u64 << t) > 64,
{
}

/// A byte whose bits are those of a bit sequence from `8 * k` on is byte
/// `k` of the packed sequence.
pub proof fn lemma_packed_byte(bits: Seq<bool>, k: int, b: u8)
    requires
        forall|j: int|
            0 <= j < 8 ==> (#[trigger] byte_bit(b, j) == (0 <= 8 * k + j < bits.len() && bits[8 * k
                + j])),
    ensures
        packed_byte(bits, k) == b,
{
    assert(byte_bit(b, 0) == (0 <= 8 * k + 0 < bits.len() && bits[8 * k + 0]));
    assert(byte_bit(b, 1) == (0 <= 8 * k + 1 < bits.len() && bits[8 * k + 1]));
    assert(byte_bit(b, 2) == (0 <= 8 * k + 2 < bits.len() && bits[8 * k + 2]));
    assert(byte_bit(b, 3) == (0 <= 8 * k + 3 < bits.len() && bits[8 * k + 3]));
    assert(byte_bit(b, 4) == (0 <= 8 * k + 4 < bits.len() && bits[8 * k + 4]));
    assert(byte_bit(b, 5) == (0 <= 8 * k + 5 < bits.len() && bits[8 * k + 5]));
    assert(byte_bit(b, 6) == (0 <= 8 * k + 6 < bits.len() && bits[8 * k + 6]));
    assert(byte_bit(b, 7) == (0 <= 8 * k + 7 < bits.len() && bits[8 * k + 7]));
    lemma_byte_from_bits(
        b,
        bit_val(bits, 8 * k),
        bit_val(bits, 8 * k + 1),
        bit_val(bits, 8 * k + 2),
        bit_val(bits, 8 * k + 3),
        bit_val(bits, 8 * k + 4),
        bit_val(bits, 8 * k + 5),
        bit_val(bits, 8 * k + 6),
        bit_val(bits, 8 * k + 7),
    );
}

/// Writer of bits and Elias codes into a byte buffer.
pub struct BitsWriter {
    part: u64,
    freebits: usize,
    target: Vec<u8>,
    total_bits: u64,
}

impl View for BitsWriter {
    type V = Seq<bool>;

    /// The bits written so far.
    closed spec fn view(&self) -> Seq<bool> {
        Seq::new(
            (self.total_bits + (64 - self.freebits)) as nat,
            |i: int|
                if i < self.total_bits {
                    byte_bit(self.target@[self.base() + i / 8], i % 8)
                } else {
                    word_bit(self.part, i - self.total_bits)
                },
        )
    }
}

impl BitsWriter {
    /// Validity of a writer: its counters agree with its buffer.
    pub closed spec fn wf(&self) -> bool {
        &&& self.freebits <= 64
        &&& self.total_bits % 64 == 0
        &&& self.total_bits / 8 <= self.target.len()
        &&& self.total_bits + (64 - self.freebits) <= u64::MAX
        &&& forall|j: int| 64 - self.freebits <= j < 64 ==> !#[trigger] word_bit(self.part, j)
    }

    spec fn base(&self) -> int {
        self.target.len() - self.total_bits / 8
    }

    /// The bytes that the sink held when the writer was made.
    pub closed spec fn prefix(&self) -> Seq<u8> {
        self.target@.take(self.base())
    }

    /// The writer can take `n` more bits without its counter overflowing.
    pub open spec fn room(&self, n: int) -> bool {
        self@.len() + n <= u64::MAX
    }

    /// A writer that appends to `target`.
    pub fn new(target: Vec<u8>) -> (w: BitsWriter)
        ensures
            w.wf(),
            w@ == Seq::<bool>::empty(),
            w.prefix() == target@,
    {
        let w = BitsWriter { part: 0, freebits: 64, target, total_bits: 0 };
        proof {
            assert forall|j: int| 0 <= j < 64 implies !word_bit(0u64, j) by {
                lemma_zero_bit(j as u64);
            }
            assert(w@ =~= Seq::<bool>::empty());
            assert(w.prefix() =~= target@);
        }
        w
    }

    /// Number of bits that the pending word can still take: with the
    /// bits written they fill whole words.
    pub fn freebits(&self) -> (n: usize)
        requires
            self.wf(),
        ensures
            n == self.freebits_spec(),
            n <= 64,
            (self@.len() + n) % 64 == 0,
    {
        self.freebits
    }

    /// Number of bits that the pending word holds.
    pub fn usedbits(&self) -> (n: usize)
        requires
            self.wf(),
        ensures
            n + self.freebits_spec() == 64,
            n <= self@.len(),
            (self@.len() - n) % 64 == 0,
    {
        64 - self.freebits
    }

    /// The free bits of the pending word.
    pub closed spec fn freebits_spec(&self) -> int {
        self.freebits as int
    }

    /// Number of bits written so far.
    pub fn bits_written(&self) -> (n: u64)
        requires
            self.wf(),
        ensures
            n == self@.len(),
    {
        self.total_bits + self.usedbits() as u64
    }

    fn emit_bytes(&mut self, part: u64, n: usize)
        requires
            n <= 8,
        ensures
            final(self).target@ == old(self).target@ + Seq::new(n as nat, |m: int| le_byte(part, m)),
            final(self).part == old(self).part,
            final(self).freebits == old(self).freebits,
            final(self).total_bits == old(self).total_bits,
    {
        let mut k: usize = 0;
        while k < n
            invariant
                k <= n <= 8,
                self.target@ == old(self).target@ + Seq::new(k as nat, |m: int| le_byte(part, m)),
                self.part == old(self).part,
                self.freebits == old(self).freebits,
                self.total_bits == old(self).total_bits,
            decreases n - k,
        {
            self.target.push(#[verifier::truncate] ((part >> ((8 * k) as u64)) as u8));
            k += 1;
            assert(self.target@ =~= old(self).target@ + Seq::new(k as nat, |m: int| le_byte(part, m)));
        }
    }

    fn emit(&mut self, part: u64)
        requires
            old(self).total_bits + 64 <= u64::MAX,
        ensures
            final(self).target@ == old(self).target@ + Seq::new(8, |m: int| le_byte(part, m)),
            final(self).part == old(self).part,
            final(self).freebits == old(self).freebits,
            final(self).total_bits == old(self).total_bits + 64,
    {
        self.emit_bytes(part, 8);
        self.total_bits += 64;
    }

    #[verifier::rlimit(50)]
    fn reserve(&mut self)
        requires
            old(self).wf(),
        ensures
            final(self).wf(),
            final(self)@ == old(self)@,
            final(self).prefix() == old(self).prefix(),
            final(self).freebits >= 1,
            old(self).freebits >= 1 ==> *final(self) == *old(self),
    {
        if self.freebits == 0 {
            let part = self.part;
            self.emit(part);
            self.part = 0;
            self.freebits = 64;
            proof {
                assert forall|j: int| 0 <= j < 64 implies !word_bit(0u64, j) by {
                    lemma_zero_bit(j as u64);
                }
                let tb = old(self).total_bits as int;
                assert(self.base() == old(self).base());
                assert(self.prefix() =~= old(self).prefix());
                assert forall|i: int| 0 <= i < old(self)@.len() implies self@[i] == old(self)@[i] by {
                    if i >= tb {
                        let m = (i - tb) / 8;
                        let j = (i - tb) % 8;
                        assert(i / 8 == tb / 8 + m);
                        assert(i % 8 == j);
                        lemma_le_byte_bits(part, (8 * m) as u64, j as u8, (8 * m + j) as u64);
                        assert(self.target@[self.base() + i / 8] == le_byte(part, m));
                    } else {
                        assert(self.target@[self.base() + i / 8] == old(self).target@[old(self).base() + i / 8]);
                    }
                }
                assert(self@ =~= old(self)@);
            }
        }
    }

    /// Writes one bit.
    pub fn bit(&mut self, val: bool)
        requires
            old(self).wf(),
            old(self).room(1),
        ensures
            final(self).wf(),
            final(self)@ == old(self)@.push(val),
            final(self).prefix() == old(self).prefix(),
    {
        self.reserve();
        let ghost before = *self;
        let used: usize = self.usedbits();
        if val {
            self.part |= 1u64 << (used as u64);
        }
        self.freebits -= 1;
        proof {
            assert forall|j: int| 0 <= j < 64 implies #[trigger] word_bit(self.part, j) == (word_bit(
                before.part,
                j,
            ) || (val && j == used)) by {
                lemma_or_shl_bit(before.part, 1, used as u64, j as u64, (j - used) as u64);
            }
            assert(self.prefix() =~= before.prefix());
            assert(self@ =~= before@.push(val));
        }
    }

    /// Writes the lowest `len` bits of `rest`, lowest first.
    #[verifier::rlimit(50)]
    fn low_bits(&mut self, rest: u64, len: usize)
        requires
            old(self).wf(),
            old(self).room(len as int),
            len <= 63,
            forall|j: int| len <= j < 64 ==> !#[trigger] word_bit(rest, j),
        ensures
            final(self).wf(),
            final(self)@ == old(self)@ + bits_of(rest, len as nat),
            final(self).prefix() == old(self).prefix(),
    {
        let mut rest = rest;
        let mut len = len;
        let ghost rest0 = rest;
        let ghost len0 = len;
        assert(self@ =~= old(self)@ + bits_of(rest0, 0));
        while len > 0
            invariant
                self.wf(),
                len <= len0 <= 63,
                self.room(len as int),
                forall|j: int| len <= j < 64 ==> !#[trigger] word_bit(rest, j),
                forall|j: int| 0 <= j < len ==> #[trigger] word_bit(rest, j) == word_bit(rest0, j + (len0 - len)),
                self@ == old(self)@ + bits_of(rest0, (len0 - len) as nat),
                self.prefix() == old(self).prefix(),
            decreases len,
        {
            self.reserve();
            let ghost before = *self;
            let ghost rest1 = rest;
            let ghost len1 = len;
            let free: usize = self.freebits;
            let curatom_len: usize = if free < len { free } else { len };
            let used: usize = self.usedbits();
            self.part |= rest << (used as u64);
            self.freebits -= curatom_len;
            rest >>= curatom_len as u64;
            len -= curatom_len;
            proof {
                assert forall|j: int| 0 <= j < 64 implies #[trigger] word_bit(self.part, j) == (
                word_bit(before.part, j) || (j >= used && word_bit(rest1, j - used))) by {
                    lemma_or_shl_bit(before.part, rest1, used as u64, j as u64, (j - used) as u64);
                }
                assert forall|j: int| 0 <= j < 64 implies #[trigger] word_bit(rest, j) == (j
                    + curatom_len < 64 && word_bit(rest1, j + curatom_len)) by {
                    lemma_shr_bit(rest1, curatom_len as u64, j as u64, (j + curatom_len) as u64);
                }
                assert(self.prefix() =~= before.prefix());
                assert(self@ =~= before@ + bits_of(rest1, curatom_len as nat));
                assert(bits_of(rest0, (len0 - len1) as nat) + bits_of(rest1, curatom_len as nat)
                    =~= bits_of(rest0, (len0 - len) as nat));
            }
        }
    }

    /// Writes `val >= 1` in unary: `val - 1` zeros and a one.
    pub fn unary(&mut self, val: u64)
        requires
            old(self).wf(),
            val > 0,
            old(self).room(val as int),
        ensures
            final(self).wf(),
            final(self)@ == old(self)@ + unary_code(val),
            final(self).prefix() == old(self).prefix(),
    {
        let mut len: u64 = val - 1;
        assert(self@ =~= old(self)@ + zeros(0));
        while len > 0
            invariant
                self.wf(),
                len < val,
                self.room(len + 1),
                self@ == old(self)@ + zeros((val - 1 - len) as nat),
                self.prefix() == old(self).prefix(),
            decreases len,
        {
            self.reserve();
            let ghost before = *self;
            let free: u64 = self.freebits as u64;
            let curatom_len: u64 = if free < len { free } else { len };
            self.freebits -= curatom_len as usize;
            len -= curatom_len;
            proof {
                assert(self.prefix() =~= before.prefix());
                assert(self@ =~= before@ + zeros(curatom_len as nat));
                assert(zeros((val - 1 - len - curatom_len) as nat) + zeros(curatom_len as nat)
                    =~= zeros((val - 1 - len) as nat));
            }
        }
        self.bit(true);
    }

    /// Writes `val >= 1` as an Elias gamma code.
    pub fn gamma(&mut self, val: u64)
        requires
            old(self).wf(),
            val > 0,
            old(self).room(127),
        ensures
            final(self).wf(),
            final(self)@ == old(self)@ + gamma_code(val),
            final(self).prefix() == old(self).prefix(),
    {
        proof {
            axiom_u64_leading_zeros(val);
        }
        let len: usize = 64 - val.leading_zeros() as usize;
        self.unary(len as u64);
        let rest: u64 = val & !(1u64 << ((len - 1) as u64));
        proof {
            lemma_top_cleared(val);
        }
        self.low_bits(rest, len - 1);
        proof {
            assert(bits_of(rest, (len - 1) as nat) =~= bits_of(val, (len - 1) as nat));
            assert(old(self)@ + unary_code(len as u64) + bits_of(val, (len - 1) as nat) =~= old(
                self,
            )@ + gamma_code(val));
        }
    }

    /// Writes `val >= 1` as an Elias delta code.
    pub fn delta(&mut self, val: u64)
        requires
            old(self).wf(),
            val > 0,
            old(self).room(76),
        ensures
            final(self).wf(),
            final(self)@ == old(self)@ + delta_code(val),
            final(self).prefix() == old(self).prefix(),
    {
        proof {
            axiom_u64_leading_zeros(val);
        }
        let len: usize = 64 - val.leading_zeros() as usize;
        proof {
            lemma_gamma_code_len(len as u64);
        }
        self.gamma_small(len as u64);
        let rest: u64 = val & !(1u64 << ((len - 1) as u64));
        proof {
            lemma_top_cleared(val);
        }
        self.low_bits(rest, len - 1);
        proof {
            assert(bits_of(rest, (len - 1) as nat) =~= bits_of(val, (len - 1) as nat));
            assert(old(self)@ + gamma_code(len as u64) + bits_of(val, (len - 1) as nat) =~= old(
                self,
            )@ + delta_code(val));
        }
    }

    /// Writes zero bits up to the next byte boundary.
    pub fn byte_align(&mut self)
        requires
            old(self).wf(),
            old(self).room(7),
        ensures
            final(self).wf(),
            final(self)@ == old(self)@ + zeros(((8 - old(self)@.len() % 8) % 8) as nat),
            final(self)@.len() % 8 == 0,
            final(self).prefix() == old(self).prefix(),
    {
        let rem: u64 = self.bits_written() % 8;
        if rem == 0 {
            assert(self@ =~= old(self)@ + zeros(0));
            return ;
        }
        let pad: u64 = 8 - rem;
        let mut i: u64 = 0;
        assert(self@ =~= old(self)@ + zeros(0));
        while i < pad
            invariant
                self.wf(),
                i <= pad <= 7,
                old(self)@.len() + 7 <= u64::MAX,
                self@ == old(self)@ + zeros(i as nat),
                self.prefix() == old(self).prefix(),
            decreases pad - i,
        {
            let ghost before = self@;
            self.bit(false);
            i += 1;
            assert(before.push(false) =~= old(self)@ + zeros(i as nat));
        }
    }

    /// Ends the writing: the sink with the bits written appended to what
    /// it held, the last byte filled up with zeros.
    #[verifier::rlimit(50)]
    pub fn finish(self) -> (out: Vec<u8>)
        requires
            self.wf(),
        ensures
            out@ == self.prefix() + packed(self@),
    {
        let mut w = self;
        let used: usize = w.usedbits();
        let num_bytes: usize = (used + 7) / 8;
        let part = w.part;
        w.emit_bytes(part, num_bytes);
        proof {
            let tb = self.total_bits as int;
            let bits = self@;
            assert(w.target@.len() == self.prefix().len() + packed(bits).len());
            assert forall|k: int| 0 <= k < packed(bits).len() implies w.target@[self.base() + k]
                == packed_byte(bits, k) by {
                let b = w.target@[self.base() + k];
                assert forall|j: int| 0 <= j < 8 implies #[trigger] byte_bit(b, j) == (0 <= 8 * k
                    + j < bits.len() && bits[8 * k + j]) by {
                    let i = 8 * k + j;
                    assert(i / 8 == k && i % 8 == j);
                    if k < tb / 8 {
                        assert(b == self.target@[self.base() + k]);
                    } else {
                        let m = k - tb / 8;
                        assert(b == le_byte(part, m));
                        lemma_le_byte_bits(part, (8 * m) as u64, j as u8, (8 * m + j) as u64);
                        assert(i - tb == 8 * m + j);
                        assert(byte_bit(b, j) == word_bit(part, 8 * m + j));
                    }
                }
                lemma_packed_byte(bits, k, b);
            }
            assert(w.target@ =~= self.prefix() + packed(self@));
        }
        w.target
    }

    /// Writes a gamma code of a value of at most 64.
    fn gamma_small(&mut self, val: u64)
        requires
            old(self).wf(),
            0 < val <= 64,
            old(self).room(13),
        ensures
            final(self).wf(),
            final(self)@ == old(self)@ + gamma_code(val),
            final(self).prefix() == old(self).prefix(),
    {
        proof {
            axiom_u64_leading_zeros(val);
            lemma_gamma_code_len(val);
        }
        let len: usize = 64 - val.leading_zeros() as usize;
        self.unary(len as u64);
        let rest: u64 = val & !(1u64 << ((len - 1) as u64));
        proof {
            lemma_top_cleared(val);
        }
        self.low_bits(rest, len - 1);
        proof {
            assert(bits_of(rest, (len - 1) as nat) =~= bits_of(val, (len - 1) as nat));
            assert(old(self)@ + unary_code(len as u64) + bits_of(val, (len - 1) as nat) =~= old(
                self,
            )@ + gamma_code(val));
        }
    }
}

/// A value without its highest bit keeps the bits below it and has none
/// from it on.
pub proof fn lemma_top_cleared(val: u64)
    requires
        val > 0,
    ensures
        1 <= bit_len(val) <= 64,
        forall|j: int|
            0 <= j < 64 ==> #[trigger] word_bit(val & !(1u64 << ((bit_len(val) - 1) as u64)), j)
                == (j < bit_len(val) - 1 && word_bit(val, j)),
{
    axiom_u64_leading_zeros(val);
    let n = bit_len(val) as u64;
    let t = (n - 1) as u64;
    assert forall|j: int| 0 <= j < 64 implies #[trigger] word_bit(val & !(1u64 << t), j) == (j < n
        - 1 && word_bit(val, j)) by {
        lemma_clear_bit(val, t, j as u64);
        if j >= n {
            lemma_high_zero(val, n, j as u64);
        }
    }
}

/// The length of a value of at most 64 has at most 7 bits, so its gamma
/// code has at most 13.
pub proof fn lemma_gamma_code_len(val: u64)
    requires
        0 < val <= 64,
    ensures
        1 <= bit_len(val) <= 7,
        gamma_code(val).len() == 2 * bit_len(val) - 1,
{
    axiom_u64_leading_zeros(val);
    let n = bit_len(val) as u64;
    lemma_bit_lower_bound(val, (n - 1) as u64);
}

} // verus!
