//! Writers of the three layouts of a text: each takes the ids of the
//! positions one by one, and at the end gives the files of the text.

use vstd::prelude::*;
use crate::mkrev::{lemma_delta_code_len, lemma_delta_one};
use crate::util::{push_u32, u16_bytes, u16s_le, u32_bytes, u32s_le};
use crate::wrbits::{delta_code, packed, zeros, BitsWriter};

verus! {

/// Why a text cannot take an id.
#[derive(Debug, Clone, Copy, PartialEq, Eq, Structural)]
pub enum TextError {
    /// An entry of the segment index would pass the range of 32 bits.
    SegmentOverflow,
    /// An offset into a block would pass the range of 16 bits.
    OffsetOverflow,
}

/// Magic number of a delta-coded text.
pub open spec fn text_magic() -> Seq<u8> {
    seq![0xa3u8, 0x66u8, 0x69u8, 0x6eu8, 0x44u8, 0x54u8]
}

/// Magic number of a text held as an array.
pub open spec fn int_magic() -> Seq<u8> {
    seq![0xa3u8, 0x66u8, 0x69u8, 0x6eu8, 0x49u8, 0x54u8]
}

/// `n` zero bytes.
pub open spec fn zero_bytes(n: nat) -> Seq<u8> {
    Seq::new(n, |i: int| 0u8)
}

/// The first 16 bytes of a text: the magic number and ten zero bytes.
pub open spec fn head16(magic: Seq<u8>) -> Seq<u8> {
    magic + zero_bytes(10)
}

/// The two numbers of the header of a stream: the segment size and the
/// number of positions, each plus one, as delta codes.
pub open spec fn header_code(segment_size: u64, count: u64) -> Seq<bool> {
    delta_code((segment_size + 1) as u64) + delta_code((count + 1) as u64)
}

/// A buffer with the bytes `h` written over it from byte `at` on, and
/// grown by them where they pass its end.
pub open spec fn overwrite(f: Seq<u8>, at: int, h: Seq<u8>) -> Seq<u8> {
    Seq::new(
        if at + h.len() > f.len() {
            (at + h.len()) as nat
        } else {
            f.len()
        },
        |i: int|
            if at <= i < at + h.len() {
                h[i - at]
            } else {
                f[i]
            },
    )
}

/// The delta codes of the first `n` ids, each id plus one.
pub open spec fn ids_code(ids: Seq<u32>, n: nat) -> Seq<bool>
    decreases n,
{
    if n == 0 {
        Seq::empty()
    } else {
        ids_code(ids, (n - 1) as nat) + delta_code((ids[n - 1] + 1) as u64)
    }
}

/// A stream file as it stands before the first id: the first 16 bytes,
/// the header for no position, and zero bytes up to byte 32.
pub open spec fn fresh_stream(segment_size: u64) -> Seq<u8> {
    let h = head16(text_magic()) + packed(header_code(segment_size, 0));
    h + zero_bytes((32 - h.len()) as nat)
}

/// The `.text` file of a stream of ids: the ids behind byte 32, and the
/// header for their number written over the file from byte 16 on.
pub open spec fn stream_file(segment_size: u64, ids: Seq<u32>) -> Seq<u8> {
    overwrite(
        fresh_stream(segment_size) + packed(ids_code(ids, ids.len())),
        16,
        packed(header_code(segment_size, ids.len() as u64)),
    )
}

/// Bit position in the file at which position `k` of a stream begins.
pub open spec fn bit_of(ids: Seq<u32>, k: nat) -> int {
    (256 + ids_code(ids, k).len()) as int
}

/// The entries of the segment index for the first `n` positions: the bit
/// position of every position that begins a segment.
pub open spec fn seg_upto(segment_size: int, ids: Seq<u32>, n: nat) -> Seq<u32>
    decreases n,
{
    if n == 0 {
        Seq::empty()
    } else if (n - 1) % segment_size == 0 {
        seg_upto(segment_size, ids, (n - 1) as nat).push(bit_of(ids, (n - 1) as nat) as u32)
    } else {
        seg_upto(segment_size, ids, (n - 1) as nat)
    }
}

/// Whether one of the first `n` positions begins a segment at a bit
/// position that passes the range of 32 bits.
pub open spec fn seg_overflow(segment_size: int, ids: Seq<u32>, n: nat) -> bool
    decreases n,
{
    n > 0 && (seg_overflow(segment_size, ids, (n - 1) as nat) || ((n - 1) % segment_size == 0
        && bit_of(ids, (n - 1) as nat) > u32::MAX))
}

/// Appends zero bytes up to the next multiple of `align`, and returns
/// the position reached. With `align` 0 nothing is done.
pub fn align_writer(writer: &mut Vec<u8>, pos: u64, align: u64) -> (r: u64)
    requires
        pos + align <= u64::MAX,
    ensures
        align == 0 ==> r == pos && final(writer)@ == old(writer)@,
        align > 0 ==> r % align == 0 && pos <= r < pos + align && final(writer)@ == old(writer)@
            + zero_bytes((r - pos) as nat),
{
    if align == 0 {
        return pos;
    }
    let rem: u64 = pos % align;
    if rem == 0 {
        assert(writer@ =~= old(writer)@ + zero_bytes(0));
        return pos;
    }
    let pad: u64 = align - rem;
    let mut i: u64 = 0;
    assert(writer@ =~= old(writer)@ + zero_bytes(0));
    while i < pad
        invariant
            i <= pad,
            writer@ == old(writer)@ + zero_bytes(i as nat),
        decreases pad - i,
    {
        writer.push(0);
        i += 1;
        assert(writer@ =~= old(writer)@ + zero_bytes(i as nat));
    }
    assert((pos + pad) % (align as int) == 0) by (nonlinear_arith)
        requires
            align > 0,
            rem == pos % align,
            pad == align - rem,
    ;
    pos + pad
}

/// Writes the bytes `h` over a buffer from byte `at` on.
pub fn patch(f: &mut Vec<u8>, at: usize, h: &Vec<u8>)
    requires
        at <= old(f)@.len(),
        at + h@.len() <= usize::MAX,
    ensures
        final(f)@ == overwrite(old(f)@, at as int, h@),
{
    let mut k: usize = 0;
    assert(f@ =~= overwrite(old(f)@, at as int, h@.take(0)));
    while k < h.len()
        invariant
            k <= h.len(),
            at <= old(f)@.len(),
            at + h@.len() <= usize::MAX,
            f@ == overwrite(old(f)@, at as int, h@.take(k as int)),
        decreases h.len() - k,
    {
        if at + k < f.len() {
            f.set(at + k, h[k]);
        } else {
            f.push(h[k]);
        }
        k += 1;
        assert(f@ =~= overwrite(old(f)@, at as int, h@.take(k as int)));
    }
    assert(h@.take(k as int) =~= h@);
}

fn head_bytes(fifth: u8) -> (v: Vec<u8>)
    ensures
        v@ == head16(seq![0xa3u8, 0x66u8, 0x69u8, 0x6eu8, fifth, 0x54u8]),
{
    let mut v: Vec<u8> = Vec::new();
    v.push(0xa3);
    v.push(0x66);
    v.push(0x69);
    v.push(0x6e);
    v.push(fifth);
    v.push(0x54);
    let mut i: usize = 0;
    while i < 10
        invariant
            i <= 10,
            v@ == seq![0xa3u8, 0x66u8, 0x69u8, 0x6eu8, fifth, 0x54u8] + zero_bytes(i as nat),
        decreases 10 - i,
    {
        v.push(0);
        i += 1;
        assert(v@ =~= seq![0xa3u8, 0x66u8, 0x69u8, 0x6eu8, fifth, 0x54u8] + zero_bytes(i as nat));
    }
    v
}

/// A stream file before the first id, and a writer for the ids.
fn open_stream(segment_size: u64) -> (bw: BitsWriter)
    requires
        segment_size < u64::MAX,
    ensures
        bw.wf(),
        bw@ == Seq::<bool>::empty(),
        bw.prefix() == fresh_stream(segment_size),
        fresh_stream(segment_size).len() == 32,
{
    let f = head_bytes(0x44);
    let mut hbw = BitsWriter::new(f);
    proof {
        lemma_delta_code_len((segment_size + 1) as u64);
        lemma_delta_one();
    }
    hbw.delta(segment_size + 1);
    hbw.delta(0 + 1);
    assert(hbw@ =~= header_code(segment_size, 0));
    let mut f = hbw.finish();
    let header_end: u64 = f.len() as u64;
    let data_start: u64 = align_writer(&mut f, header_end, 32);
    assert(data_start == 32);
    assert(f@ =~= fresh_stream(segment_size));
    BitsWriter::new(f)
}

/// The header of a stream for `count` positions, as bytes.
fn header_bytes(segment_size: u64, count: u64) -> (h: Vec<u8>)
    requires
        segment_size < u64::MAX,
        count < u64::MAX,
    ensures
        h@ == packed(header_code(segment_size, count)),
        h@.len() <= 19,
{
    let mut hbw = BitsWriter::new(Vec::new());
    proof {
        lemma_delta_code_len((segment_size + 1) as u64);
        lemma_delta_code_len((count + 1) as u64);
    }
    hbw.delta(segment_size + 1);
    hbw.delta(count + 1);
    assert(hbw@ =~= header_code(segment_size, count));
    let h = hbw.finish();
    assert(h@ =~= packed(header_code(segment_size, count)));
    h
}

/// The files of a delta text.
#[derive(Debug)]
pub struct DeltaTextFiles {
    pub text: Vec<u8>,
    pub seg: Vec<u8>,
}

/// Writer of a delta text with a segment index.
pub struct DeltaTextWriter {
    pub bw: BitsWriter,
    pub seg: Vec<u32>,
    pub segment_size: usize,
    pub data_start: u64,
    pub count: u64,
    pub ids: Ghost<Seq<u32>>,
}

impl View for DeltaTextWriter {
    type V = Seq<u32>;

    /// The ids written so far.
    open spec fn view(&self) -> Seq<u32> {
        self.ids@
    }
}

impl DeltaTextWriter {
    /// Validity of a writer: the stream holds the ids written so far,
    /// and the segment index an entry for each segment begun.
    pub open spec fn wf(&self) -> bool {
        &&& self.bw.wf()
        &&& self.bw.prefix() == fresh_stream(self.segment_size as u64)
        &&& self.bw@ == ids_code(self@, self@.len())
        &&& self.bw@.len() <= 76 * self@.len()
        &&& self.seg@ == seg_upto(self.segment_size as int, self@, self@.len())
        &&& !seg_overflow(self.segment_size as int, self@, self@.len())
        &&& self.count == self@.len()
        &&& self.count <= u32::MAX
        &&& self.data_start == 32
        &&& 0 < self.segment_size < u64::MAX
    }

    /// A writer with no id, for segments of `segment_size` positions.
    pub fn new(segment_size: usize) -> (w: DeltaTextWriter)
        requires
            0 < segment_size < u64::MAX,
        ensures
            w.wf(),
            w@ == Seq::<u32>::empty(),
            w.segment_size == segment_size,
    {
        let bw = open_stream(segment_size as u64);
        DeltaTextWriter {
            bw,
            seg: Vec::new(),
            segment_size,
            data_start: 32,
            count: 0,
            ids: Ghost(Seq::empty()),
        }
    }

    /// Takes the id of the next position. Where the position begins a
    /// segment, its bit position in the file goes into the segment index;
    /// the id is refused, and nothing changes, if and only if that bit
    /// position passes the range of 32 bits.
    pub fn push(&mut self, id: u32) -> (r: Result<(), TextError>)
        requires
            old(self).wf(),
            old(self)@.len() < u32::MAX,
        ensures
            final(self).wf(),
            final(self).segment_size == old(self).segment_size,
            r is Err <==> old(self)@.len() % (old(self).segment_size as nat) == 0 && bit_of(
                old(self)@,
                old(self)@.len(),
            ) > u32::MAX,
            r matches Err(e) ==> e == TextError::SegmentOverflow && final(self)@ == old(self)@,
            r is Ok ==> final(self)@ == old(self)@.push(id),
    {
        let ghost n = self@.len();
        let ghost old_ids = self@;
        if (self.count as usize) % self.segment_size == 0 {
            let bitpos: u64 = self.data_start * 8 + self.bw.bits_written();
            if bitpos > u32::MAX as u64 {
                return Err(TextError::SegmentOverflow);
            }
            self.seg.push(bitpos as u32);
        }
        proof {
            lemma_delta_code_len((id + 1) as u64);
        }
        self.bw.delta(id as u64 + 1);
        self.count += 1;
        proof {
            self.ids@ = old_ids.push(id);
            lemma_ids_code_prefix(old_ids, self@, n);
            assert forall|k: nat| k <= n implies ids_code(self@, k) == ids_code(old_ids, k) by {
                lemma_ids_code_prefix(old_ids, self@, k);
            }
            lemma_seg_prefix(self.segment_size as int, old_ids, self@, n);
        }
        Ok(())
    }

    /// Ends the writing: the files of the text. The bit position behind
    /// the last id closes the segment index; the files are refused if and
    /// only if it passes the range of 32 bits.
    pub fn finalize(self) -> (r: Result<DeltaTextFiles, TextError>)
        requires
            self.wf(),
        ensures
            r is Err <==> bit_of(self@, self@.len()) > u32::MAX,
            r matches Err(e) ==> e == TextError::SegmentOverflow,
            r matches Ok(files) ==> files.text@ == stream_file(self.segment_size as u64, self@)
                && files.seg@ == u32s_le(
                seg_upto(self.segment_size as int, self@, self@.len()).push(
                    bit_of(self@, self@.len()) as u32,
                ),
            ),
    {
        let total_bits: u64 = self.bw.bits_written();
        let mut text = self.bw.finish();
        let end_bitpos: u64 = self.data_start * 8 + total_bits;
        if end_bitpos > u32::MAX as u64 {
            return Err(TextError::SegmentOverflow);
        }
        let mut seg = self.seg;
        seg.push(end_bitpos as u32);
        let h = header_bytes(self.segment_size as u64, self.count);
        patch(&mut text, 16, &h);
        Ok(DeltaTextFiles { text, seg: u32_bytes(seg.as_slice()) })
    }
}

/// More ids take no fewer bits.
pub proof fn lemma_ids_code_grows(ids: Seq<u32>, a: nat, b: nat)
    requires
        a <= b,
    ensures
        ids_code(ids, a).len() <= ids_code(ids, b).len(),
    decreases b,
{
    if a < b {
        lemma_ids_code_grows(ids, a, (b - 1) as nat);
    }
}

/// The codes of the first ids do not depend on the ids that follow.
pub proof fn lemma_ids_code_prefix(a: Seq<u32>, b: Seq<u32>, n: nat)
    requires
        n <= a.len(),
        n <= b.len(),
        forall|i: int| 0 <= i < n ==> a[i] == b[i],
    ensures
        ids_code(a, n) == ids_code(b, n),
    decreases n,
{
    if n > 0 {
        lemma_ids_code_prefix(a, b, (n - 1) as nat);
    }
}

/// The segment index for the first positions does not depend on the
/// ids that follow.
pub proof fn lemma_seg_prefix(s: int, a: Seq<u32>, b: Seq<u32>, n: nat)
    requires
        n <= a.len(),
        n <= b.len(),
        forall|i: int| 0 <= i < n ==> a[i] == b[i],
    ensures
        seg_upto(s, a, n) == seg_upto(s, b, n),
        seg_overflow(s, a, n) == seg_overflow(s, b, n),
    decreases n,
{
    if n > 0 {
        lemma_seg_prefix(s, a, b, (n - 1) as nat);
        lemma_ids_code_prefix(a, b, (n - 1) as nat);
    }
}

/// Number of zero bits that fill `len` bits up to a whole byte.
pub open spec fn byte_pad(len: nat) -> nat {
    ((8 - len % 8) % 8) as nat
}

/// The bits of the first `n` ids of a text in runs: the delta code of
/// each id plus one, and before each id that begins a run of 64 zero
/// bits up to the next byte.
pub open spec fn runs_code(ids: Seq<u32>, n: nat) -> Seq<bool>
    decreases n,
{
    if n == 0 {
        Seq::empty()
    } else {
        let c = runs_code(ids, (n - 1) as nat);
        (if (n - 1) % 64 == 0 {
            c + zeros(byte_pad(c.len()))
        } else {
            c
        }) + delta_code((ids[n - 1] + 1) as u64)
    }
}

/// The bits that stand before position `k` of a text in runs.
pub open spec fn runs_lead(ids: Seq<u32>, k: nat) -> Seq<bool> {
    let c = runs_code(ids, k);
    if k % 64 == 0 {
        c + zeros(byte_pad(c.len()))
    } else {
        c
    }
}

/// Bit position in the file at which position `k` of a text in runs
/// begins.
pub open spec fn giga_bit(ids: Seq<u32>, k: nat) -> int {
    (256 + runs_lead(ids, k).len()) as int
}

/// Byte of the file in which position `k` of a text in runs begins: for
/// a position that begins a run, the byte at which it begins.
pub open spec fn giga_byte(ids: Seq<u32>, k: nat) -> int {
    giga_bit(ids, k) / 8
}

/// Byte at which the block of 2048 bytes begins that the segment index
/// names for position `i`: the block in which the first position of the
/// run of 1024 of `i` begins.
pub open spec fn giga_base(ids: Seq<u32>, i: nat) -> int {
    giga_byte(ids, (i / 1024 * 1024) as nat) / 2048 * 2048
}

/// The fault, if any, that position `i` meets: where it begins a run of
/// 1024, a block number that passes 32 bits; where it begins a run of 64,
/// an offset in bytes into the block that passes 16 bits.
pub open spec fn giga_fault(ids: Seq<u32>, i: nat) -> Option<TextError> {
    if i % 1024 == 0 && giga_byte(ids, i) / 2048 > u32::MAX {
        Some(TextError::SegmentOverflow)
    } else if i % 64 == 0 && giga_byte(ids, i) - giga_base(ids, i) > u16::MAX {
        Some(TextError::OffsetOverflow)
    } else {
        None
    }
}

/// The block numbers for the first `n` positions: one for every
/// position that begins a run of 1024.
pub open spec fn giga_segs(ids: Seq<u32>, n: nat) -> Seq<u32>
    decreases n,
{
    if n == 0 {
        Seq::empty()
    } else if (n - 1) % 1024 == 0 {
        giga_segs(ids, (n - 1) as nat).push((giga_byte(ids, (n - 1) as nat) / 2048) as u32)
    } else {
        giga_segs(ids, (n - 1) as nat)
    }
}

/// The offsets for the first `n` positions: for every position that
/// begins a run of 64, its distance in bytes from the beginning of its
/// block.
pub open spec fn giga_offs(ids: Seq<u32>, n: nat) -> Seq<u16>
    decreases n,
{
    if n == 0 {
        Seq::empty()
    } else if (n - 1) % 64 == 0 {
        giga_offs(ids, (n - 1) as nat).push(
            (giga_byte(ids, (n - 1) as nat) - giga_base(ids, (n - 1) as nat)) as u16,
        )
    } else {
        giga_offs(ids, (n - 1) as nat)
    }
}

/// Whether none of the first `n` positions meets a fault.
pub open spec fn giga_sound(ids: Seq<u32>, n: nat) -> bool
    decreases n,
{
    n == 0 || (giga_sound(ids, (n - 1) as nat) && giga_fault(ids, (n - 1) as nat) is None)
}

/// The `.text` file of a text in runs: the bits of the ids behind byte
/// 32, and the header for their number written over the file from byte
/// 16 on.
pub open spec fn giga_file(ids: Seq<u32>) -> Seq<u8> {
    overwrite(
        fresh_stream(64) + packed(runs_code(ids, ids.len())),
        16,
        packed(header_code(64, ids.len() as u64)),
    )
}

/// The files of a text with a two-level index.
#[derive(Debug)]
pub struct GigaDeltaTextFiles {
    pub text: Vec<u8>,
    pub seg: Vec<u8>,
    pub off: Vec<u8>,
}

/// Writer of a delta text with a two-level index.
pub struct GigaDeltaTextWriter {
    pub bw: BitsWriter,
    pub offsets: Vec<u16>,
    pub segments: Vec<u32>,
    pub data_start: u64,
    pub count: u64,
    /// Byte at which the block of the current run of 1024 begins.
    pub seg_base: u64,
    pub ids: Ghost<Seq<u32>>,
}

impl View for GigaDeltaTextWriter {
    type V = Seq<u32>;

    /// The ids written so far.
    open spec fn view(&self) -> Seq<u32> {
        self.ids@
    }
}

impl GigaDeltaTextWriter {
    /// Validity of a writer: the stream holds the ids written so far,
    /// and the indexes an entry for each run begun.
    pub open spec fn wf(&self) -> bool {
        &&& self.bw.wf()
        &&& self.bw.prefix() == fresh_stream(64)
        &&& self.bw@ == runs_code(self@, self@.len())
        &&& self.bw@.len() <= 83 * self@.len()
        &&& self.segments@ == giga_segs(self@, self@.len())
        &&& self.offsets@ == giga_offs(self@, self@.len())
        &&& giga_sound(self@, self@.len())
        &&& self.count == self@.len()
        &&& self.count <= u32::MAX
        &&& self.data_start == 32
        &&& self.count > 0 ==> self.seg_base == giga_base(self@, (self.count - 1) as nat)
    }

    /// A writer with no id.
    pub fn new() -> (w: GigaDeltaTextWriter)
        ensures
            w.wf(),
            w@ == Seq::<u32>::empty(),
    {
        let bw = open_stream(64);
        GigaDeltaTextWriter {
            bw,
            offsets: Vec::new(),
            segments: Vec::new(),
            data_start: 32,
            count: 0,
            seg_base: 0,
            ids: Ghost(Seq::empty()),
        }
    }

    /// Begins a run of 64 positions at the next byte boundary, and
    /// enters it into the indexes; with a fault nothing changes.
    fn begin_run(&mut self) -> (r: Result<(), TextError>)
        requires
            old(self).wf(),
            old(self)@.len() < u32::MAX,
            old(self)@.len() % 64 == 0,
        ensures
            final(self)@ == old(self)@,
            final(self).count == old(self).count,
            final(self).data_start == old(self).data_start,
            final(self).bw.wf(),
            final(self).bw.prefix() == old(self).bw.prefix(),
            match giga_fault(old(self)@, old(self)@.len()) {
                Some(e) => r == Err::<(), TextError>(e) && final(self).wf(),
                None => {
                    &&& r is Ok
                    &&& final(self).bw@ == runs_lead(old(self)@, old(self)@.len())
                    &&& final(self).seg_base == giga_base(old(self)@, old(self)@.len())
                    &&& final(self).segments@ == if old(self)@.len() % 1024 == 0 {
                        old(self).segments@.push(
                            (giga_byte(old(self)@, old(self)@.len()) / 2048) as u32,
                        )
                    } else {
                        old(self).segments@
                    }
                    &&& final(self).offsets@ == old(self).offsets@.push(
                        (giga_byte(old(self)@, old(self)@.len()) - giga_base(
                            old(self)@,
                            old(self)@.len(),
                        )) as u16,
                    )
                },
            },
    {
        let ghost n = self@.len();
        let ghost ids = self@;
        let i: usize = self.count as usize;
        let bits: u64 = self.bw.bits_written();
        proof {
            lemma_runs_grow(ids, (n / 1024 * 1024) as nat, n);
            if n % 1024 != 0 {
                assert(n / 1024 == (n - 1) / 1024);
            }
        }
        let bytepos: u64 = self.data_start + (bits + 7) / 8;
        assert(bytepos == giga_byte(ids, n));
        let base: u64 = if i % (64 * 16) == 0 {
            let base_block: u64 = bytepos / 2048;
            if base_block > u32::MAX as u64 {
                return Err(TextError::SegmentOverflow);
            }
            base_block * 2048
        } else {
            self.seg_base
        };
        assert(base == giga_base(ids, n));
        let rel: u64 = bytepos - base;
        if rel > u16::MAX as u64 {
            return Err(TextError::OffsetOverflow);
        }
        self.bw.byte_align();
        if i % (64 * 16) == 0 {
            self.segments.push((bytepos / 2048) as u32);
            self.seg_base = base;
        }
        self.offsets.push(rel as u16);
        Ok(())
    }

    /// Takes the id of the next position. A position that begins a run
    /// of 64 begins at the next byte boundary, and its distance in bytes
    /// from the beginning of its block goes into the index of offsets;
    /// where it begins a run of 1024, the number of the block of 2048
    /// bytes in which it begins goes into the segment index first. The id
    /// is refused, and nothing changes, if and only if one of the two
    /// passes its range.
    #[verifier::rlimit(50)]
    pub fn push(&mut self, id: u32) -> (r: Result<(), TextError>)
        requires
            old(self).wf(),
            old(self)@.len() < u32::MAX,
        ensures
            final(self).wf(),
            match giga_fault(old(self)@, old(self)@.len()) {
                Some(e) => r == Err::<(), TextError>(e) && final(self)@ == old(self)@,
                None => {
                    &&& r is Ok
                    &&& final(self)@ == old(self)@.push(id)
                    &&& final(self).bw@ == runs_lead(old(self)@, old(self)@.len()) + delta_code(
                        (id + 1) as u64,
                    )
                    &&& final(self).segments@ == if old(self)@.len() % 1024 == 0 {
                        old(self).segments@.push(
                            (giga_byte(old(self)@, old(self)@.len()) / 2048) as u32,
                        )
                    } else {
                        old(self).segments@
                    }
                    &&& final(self).offsets@ == if old(self)@.len() % 64 == 0 {
                        old(self).offsets@.push(
                            (giga_byte(old(self)@, old(self)@.len()) - giga_base(
                                old(self)@,
                                old(self)@.len(),
                            )) as u16,
                        )
                    } else {
                        old(self).offsets@
                    }
                },
            },
    {
        let ghost n = self@.len();
        let ghost old_ids = self@;
        let i: usize = self.count as usize;
        if i % 64 == 0 {
            match self.begin_run() {
                Ok(()) => {},
                Err(e) => {
                    return Err(e);
                },
            }
        } else {
            assert(n / 1024 == (n - 1) / 1024);
        }
        assert(self.bw@ == runs_lead(old_ids, n));
        assert(self.seg_base == giga_base(old_ids, n));
        proof {
            lemma_delta_code_len((id + 1) as u64);
        }
        self.bw.delta(id as u64 + 1);
        self.count += 1;
        proof {
            self.ids@ = old_ids.push(id);
            lemma_runs_prefix(old_ids, self@, n);
            lemma_runs_prefix(old_ids, self@, (n / 1024 * 1024) as nat);
            lemma_giga_prefix(old_ids, self@, n);
            lemma_giga_prefix(old_ids, self@, (n + 1) as nat);
        }
        Ok(())
    }

    /// Ends the writing: the files of the text.
    pub fn finalize(self) -> (files: GigaDeltaTextFiles)
        requires
            self.wf(),
        ensures
            files.text@ == giga_file(self@),
            files.seg@ == u32s_le(giga_segs(self@, self@.len())),
            files.off@ == u16s_le(giga_offs(self@, self@.len())),
    {
        let mut text = self.bw.finish();
        let h = header_bytes(64, self.count);
        patch(&mut text, 16, &h);
        GigaDeltaTextFiles {
            text,
            seg: u32_bytes(self.segments.as_slice()),
            off: u16_bytes(self.offsets.as_slice()),
        }
    }
}

/// The bits of the first ids of a text in runs do not depend on the ids
/// that follow.
pub proof fn lemma_runs_prefix(a: Seq<u32>, b: Seq<u32>, n: nat)
    requires
        n <= a.len(),
        n <= b.len(),
        forall|i: int| 0 <= i < n ==> a[i] == b[i],
    ensures
        runs_code(a, n) == runs_code(b, n),
        runs_lead(a, n) == runs_lead(b, n),
    decreases n,
{
    if n > 0 {
        lemma_runs_prefix(a, b, (n - 1) as nat);
    }
}

/// In a text in runs a later position begins no earlier.
pub proof fn lemma_runs_grow(ids: Seq<u32>, a: nat, b: nat)
    requires
        a <= b,
    ensures
        runs_code(ids, a).len() <= runs_code(ids, b).len(),
        runs_lead(ids, a).len() <= runs_lead(ids, b).len(),
        giga_byte(ids, a) <= giga_byte(ids, b),
    decreases b,
{
    if a < b {
        lemma_runs_grow(ids, a, (b - 1) as nat);
    }
}

/// The indexes for the first positions do not depend on the ids that
/// follow, nor on the id of the last of them.
pub proof fn lemma_giga_prefix(a: Seq<u32>, b: Seq<u32>, n: nat)
    requires
        n <= a.len() + 1,
        n <= b.len() + 1,
        forall|i: int| 0 <= i < n - 1 ==> a[i] == b[i],
    ensures
        giga_segs(a, n) == giga_segs(b, n),
        giga_offs(a, n) == giga_offs(b, n),
        giga_sound(a, n) == giga_sound(b, n),
    decreases n,
{
    if n > 0 {
        lemma_giga_prefix(a, b, (n - 1) as nat);
        lemma_runs_prefix(a, b, (n - 1) as nat);
        lemma_runs_prefix(a, b, ((n - 1) / 1024 * 1024) as nat);
    }
}

/// The file of a text held as an array.
pub open spec fn int_file(ids: Seq<u32>) -> Seq<u8> {
    head16(int_magic()) + u32s_le(ids)
}

/// Writer of a text held as an array.
pub struct IntTextWriter {
    pub f: Vec<u8>,
    pub count: u64,
    pub ids: Ghost<Seq<u32>>,
}

impl View for IntTextWriter {
    type V = Seq<u32>;

    /// The ids written so far.
    open spec fn view(&self) -> Seq<u32> {
        self.ids@
    }
}

impl IntTextWriter {
    /// Validity of a writer: the file holds the ids written so far.
    pub open spec fn wf(&self) -> bool {
        &&& self.f@ == int_file(self@)
        &&& self.count == self@.len()
    }

    /// A writer with no id.
    pub fn new() -> (w: IntTextWriter)
        ensures
            w.wf(),
            w@ == Seq::<u32>::empty(),
    {
        let f = head_bytes(0x49);
        assert(f@ =~= int_file(Seq::<u32>::empty()));
        IntTextWriter { f, count: 0, ids: Ghost(Seq::empty()) }
    }

    /// Takes the id of the next position.
    pub fn push(&mut self, id: u32) -> (r: Result<(), TextError>)
        requires
            old(self).wf(),
        ensures
            r is Ok,
            final(self).wf(),
            final(self)@ == old(self)@.push(id),
    {
        let len: usize = self.f.len();
        push_u32(&mut self.f, id);
        self.count += 1;
        proof {
            crate::util::lemma_u32s_le_push(self.ids@, id);
            self.ids@ = self.ids@.push(id);
            assert(self.f@ =~= int_file(self@));
        }
        Ok(())
    }

    /// Ends the writing: the file of the text.
    pub fn finalize(self) -> (text: Vec<u8>)
        requires
            self.wf(),
        ensures
            text@ == int_file(self@),
    {
        self.f
    }
}

/// The three layouts of a text.
#[derive(Clone, Copy, Debug, PartialEq, Eq, Structural)]
pub enum TextType {
    Delta,
    Int,
    GigaDelta,
}

/// The files of a text of any layout.
#[derive(Debug)]
pub enum TextFiles {
    Delta(DeltaTextFiles),
    GigaDelta(GigaDeltaTextFiles),
    Int(Vec<u8>),
}

/// Writer of a text of any layout.
pub enum AnyTextWriter {
    Delta(DeltaTextWriter),
    GigaDelta(GigaDeltaTextWriter),
    Int(IntTextWriter),
}

/// What every writer of a text offers.
pub trait TextWriter {
    /// Validity of the writer.
    spec fn wf(&self) -> bool;

    /// The ids written so far.
    spec fn ids(&self) -> Seq<u32>;

    /// The fault for which the next id would be refused.
    spec fn fault(&self) -> Option<TextError>;

    /// The layout of the text that is written.
    spec fn layout(&self) -> TextType;

    /// Number of positions between two entries of the index of the text:
    /// what the writer was made with for a delta text, 64 for one with a
    /// two-level index, 0 for an array.
    spec fn stride(&self) -> int;

    /// Takes the id of the next position; refuses it, and keeps the ids
    /// it has, if and only if the writer has a fault for it. The writer
    /// stays one of its layout.
    fn push(&mut self, id: u32) -> (r: Result<(), TextError>)
        requires
            old(self).wf(),
            old(self).ids().len() < u32::MAX,
        ensures
            final(self).wf(),
            final(self).layout() == old(self).layout(),
            final(self).stride() == old(self).stride(),
            match old(self).fault() {
                Some(e) => r == Err::<(), TextError>(e) && final(self).ids() == old(self).ids(),
                None => r is Ok && final(self).ids() == old(self).ids().push(id),
            },
    ;
}

impl TextWriter for DeltaTextWriter {
    open spec fn wf(&self) -> bool {
        DeltaTextWriter::wf(self)
    }

    open spec fn ids(&self) -> Seq<u32> {
        self@
    }

    open spec fn fault(&self) -> Option<TextError> {
        if self@.len() % (self.segment_size as nat) == 0 && bit_of(self@, self@.len())
            > u32::MAX {
            Some(TextError::SegmentOverflow)
        } else {
            None
        }
    }

    open spec fn layout(&self) -> TextType {
        TextType::Delta
    }

    open spec fn stride(&self) -> int {
        self.segment_size as int
    }

    fn push(&mut self, id: u32) -> (r: Result<(), TextError>) {
        DeltaTextWriter::push(self, id)
    }
}

impl TextWriter for GigaDeltaTextWriter {
    open spec fn wf(&self) -> bool {
        GigaDeltaTextWriter::wf(self)
    }

    open spec fn ids(&self) -> Seq<u32> {
        self@
    }

    open spec fn fault(&self) -> Option<TextError> {
        giga_fault(self@, self@.len())
    }

    open spec fn layout(&self) -> TextType {
        TextType::GigaDelta
    }

    open spec fn stride(&self) -> int {
        64
    }

    fn push(&mut self, id: u32) -> (r: Result<(), TextError>) {
        GigaDeltaTextWriter::push(self, id)
    }
}

impl TextWriter for IntTextWriter {
    open spec fn wf(&self) -> bool {
        IntTextWriter::wf(self)
    }

    open spec fn ids(&self) -> Seq<u32> {
        self@
    }

    open spec fn fault(&self) -> Option<TextError> {
        None
    }

    open spec fn layout(&self) -> TextType {
        TextType::Int
    }

    open spec fn stride(&self) -> int {
        0
    }

    fn push(&mut self, id: u32) -> (r: Result<(), TextError>) {
        IntTextWriter::push(self, id)
    }
}

impl TextWriter for AnyTextWriter {
    open spec fn wf(&self) -> bool {
        match self {
            AnyTextWriter::Delta(w) => w.wf(),
            AnyTextWriter::GigaDelta(w) => w.wf(),
            AnyTextWriter::Int(w) => w.wf(),
        }
    }

    open spec fn ids(&self) -> Seq<u32> {
        match self {
            AnyTextWriter::Delta(w) => w@,
            AnyTextWriter::GigaDelta(w) => w@,
            AnyTextWriter::Int(w) => w@,
        }
    }

    open spec fn fault(&self) -> Option<TextError> {
        match self {
            AnyTextWriter::Delta(w) => TextWriter::fault(w),
            AnyTextWriter::GigaDelta(w) => TextWriter::fault(w),
            AnyTextWriter::Int(w) => TextWriter::fault(w),
        }
    }

    open spec fn layout(&self) -> TextType {
        match self {
            AnyTextWriter::Delta(_) => TextType::Delta,
            AnyTextWriter::GigaDelta(_) => TextType::GigaDelta,
            AnyTextWriter::Int(_) => TextType::Int,
        }
    }

    open spec fn stride(&self) -> int {
        match self {
            AnyTextWriter::Delta(w) => w.segment_size as int,
            AnyTextWriter::GigaDelta(_) => 64,
            AnyTextWriter::Int(_) => 0,
        }
    }

    fn push(&mut self, id: u32) -> (r: Result<(), TextError>) {
        match self {
            AnyTextWriter::Delta(w) => DeltaTextWriter::push(w, id),
            AnyTextWriter::GigaDelta(w) => GigaDeltaTextWriter::push(w, id),
            AnyTextWriter::Int(w) => IntTextWriter::push(w, id),
        }
    }
}

impl AnyTextWriter {
    /// A writer with no id for a text of layout `text_type`.
    pub fn new(text_type: TextType, segment_size: usize) -> (w: AnyTextWriter)
        requires
            0 < segment_size < u64::MAX,
        ensures
            TextWriter::wf(&w),
            w.ids() == Seq::<u32>::empty(),
            w.layout() == text_type,
            text_type == TextType::Delta ==> w.stride() == segment_size,
    {
        match text_type {
            TextType::Delta => AnyTextWriter::Delta(DeltaTextWriter::new(segment_size)),
            TextType::Int => AnyTextWriter::Int(IntTextWriter::new()),
            TextType::GigaDelta => AnyTextWriter::GigaDelta(GigaDeltaTextWriter::new()),
        }
    }

    /// Whether `r` is what the writer ends with: the files of its text,
    /// or the fault for which a delta text cannot close its segment index.
    pub open spec fn ends_with(self, r: Result<TextFiles, TextError>) -> bool {
        match self {
                AnyTextWriter::Delta(w) => {
                    &&& r is Err <==> bit_of(w@, w@.len()) > u32::MAX
                    &&& r matches Err(e) ==> e == TextError::SegmentOverflow
                    &&& r matches Ok(f) ==> (f matches TextFiles::Delta(files) && files.text@
                        == stream_file(w.segment_size as u64, w@) && files.seg@ == u32s_le(
                        seg_upto(w.segment_size as int, w@, w@.len()).push(
                            bit_of(w@, w@.len()) as u32,
                        ),
                    ))
                },
                AnyTextWriter::GigaDelta(w) => r matches Ok(TextFiles::GigaDelta(files))
                    && files.text@ == giga_file(w@) && files.seg@ == u32s_le(
                    giga_segs(w@, w@.len()),
                ) && files.off@ == u16s_le(giga_offs(w@, w@.len())),
                AnyTextWriter::Int(w) => r matches Ok(TextFiles::Int(text)) && text@ == int_file(
                    w@,
                ),
        }
    }

    /// Whether a delta text cannot close its segment index: the bit
    /// position behind its last id passes the range of 32 bits.
    pub open spec fn overflows(self) -> bool {
        self matches AnyTextWriter::Delta(w) && bit_of(w@, w@.len()) > u32::MAX
    }

    /// Ends the writing: the files of the text, or the fault for which a
    /// delta text cannot close its segment index.
    pub fn finalize(self) -> (r: Result<TextFiles, TextError>)
        requires
            TextWriter::wf(&self),
        ensures
            self.ends_with(r),
            r is Err <==> self.overflows(),
    {
        match self {
            AnyTextWriter::Delta(w) => match w.finalize() {
                Ok(files) => Ok(TextFiles::Delta(files)),
                Err(e) => Err(e),
            },
            AnyTextWriter::GigaDelta(w) => Ok(TextFiles::GigaDelta(w.finalize())),
            AnyTextWriter::Int(w) => Ok(TextFiles::Int(w.finalize())),
        }
    }
}

} // verus!
