//! Builder of the reverse index: the posting lists of an attribute, one
//! list of positions for each id, written in the sparse or the dense
//! layout.

use vstd::prelude::*;
use crate::corp::IdIter;
use crate::rev::{rev_dense_magic, rev_magic};
use crate::text::{AnyText, IntIter, StreamIter, Text};
use crate::util::{u32_bytes, u32s_le};
use crate::wrbits::{
    bit_len,
    delta_code,
    gamma_code,
    lemma_gamma_code_len,
    packed,
    zeros,
    BitsWriter,
};

verus! {

/// Why a reverse index cannot be built.
#[derive(Debug, Clone, Copy, PartialEq, Eq, Structural)]
pub enum RevError {
    /// A posting list would begin past the range of a 32-bit byte offset.
    OffsetOverflow,
    /// A position is listed twice in a row.
    ZeroGap,
    /// A group of the dense index would begin past the range of a 32-bit
    /// byte offset.
    Idx1Overflow,
    /// Two posting lists of one group begin at the same byte.
    ZeroDelta,
}

/// The posting lists as sequences.
pub open spec fn lists(positions: Seq<Vec<u32>>) -> Seq<Seq<u32>> {
    Seq::new(positions.len(), |i: int| positions[i]@)
}

/// The position before the `k`-th of a list; -1 before the first.
pub open spec fn prev_pos(list: Seq<u32>, k: int) -> int {
    if k <= 0 {
        -1
    } else {
        list[k - 1] as int
    }
}

/// The gap that is written for the `k`-th position of a list: its
/// distance from the position before it, as an unsigned 64-bit number.
pub open spec fn gap_at(list: Seq<u32>, k: int) -> u64 {
    (list[k] - prev_pos(list, k)) as u64
}

/// Whether one of the first `n` gaps of a list is zero.
pub open spec fn has_zero_gap(list: Seq<u32>, n: nat) -> bool
    decreases n,
{
    n > 0 && (has_zero_gap(list, (n - 1) as nat) || gap_at(list, n - 1) == 0)
}

/// The delta codes of the first `n` gaps of a list.
pub open spec fn gaps_code(list: Seq<u32>, n: nat) -> Seq<bool>
    decreases n,
{
    if n == 0 {
        Seq::empty()
    } else {
        gaps_code(list, (n - 1) as nat) + delta_code(gap_at(list, n - 1))
    }
}

/// Number of zero bits that fill a stream of `len` bits up to a byte.
pub open spec fn pad_len(len: int) -> nat {
    ((8 - len % 8) % 8) as nat
}

/// A bit sequence filled up with zeros to a whole number of bytes.
pub open spec fn aligned(bits: Seq<bool>) -> Seq<bool> {
    bits + zeros(pad_len(bits.len() as int))
}

/// The stream of the first `n` posting lists: each list begins at a byte
/// boundary and holds the delta codes of its gaps.
pub open spec fn postings_bits(ps: Seq<Seq<u32>>, n: nat) -> Seq<bool>
    decreases n,
{
    if n == 0 {
        Seq::empty()
    } else {
        aligned(postings_bits(ps, (n - 1) as nat)) + gaps_code(ps[n - 1], ps[n - 1].len())
    }
}

/// Byte offset of the `i`-th posting list in a file whose stream begins
/// at byte `start`.
pub open spec fn posting_offset(ps: Seq<Seq<u32>>, start: int, i: nat) -> int {
    start + aligned(postings_bits(ps, i)).len() / 8
}

/// The first fault met while the first `n` posting lists are written:
/// for each list in turn, an offset out of range, then a zero gap.
pub open spec fn postings_error(ps: Seq<Seq<u32>>, start: int, n: nat) -> Option<RevError>
    decreases n,
{
    if n == 0 {
        None
    } else {
        let before = postings_error(ps, start, (n - 1) as nat);
        if before is Some {
            before
        } else if posting_offset(ps, start, (n - 1) as nat) > u32::MAX {
            Some(RevError::OffsetOverflow)
        } else if has_zero_gap(ps[n - 1], ps[n - 1].len()) {
            Some(RevError::ZeroGap)
        } else {
            None
        }
    }
}

/// The byte offsets of the first `n` posting lists.
pub open spec fn posting_offsets(ps: Seq<Seq<u32>>, start: int, n: nat) -> Seq<u32> {
    Seq::new(n, |i: int| posting_offset(ps, start, i as nat) as u32)
}

/// The numbers of positions of the posting lists, cut to 32 bits.
pub open spec fn posting_counts(ps: Seq<Seq<u32>>) -> Seq<u32> {
    Seq::new(ps.len(), |i: int| ps[i].len() as u32)
}

/// A delta code has at most 76 bits.
pub proof fn lemma_delta_code_len(v: u64)
    requires
        v > 0,
    ensures
        1 <= delta_code(v).len() <= 76,
{
    vstd::std_specs::bits::axiom_u64_leading_zeros(v);
    lemma_gamma_code_len(bit_len(v) as u64);
}

/// A gamma code has at most 127 bits.
pub proof fn lemma_gamma_code_bound(v: u64)
    requires
        v > 0,
    ensures
        1 <= gamma_code(v).len() <= 127,
{
    vstd::std_specs::bits::axiom_u64_leading_zeros(v);
}

/// Writes the gaps of one posting list; stops at a zero gap.
fn write_list(bw: &mut BitsWriter, list: &Vec<u32>) -> (ok: bool)
    requires
        old(bw).wf(),
        list.len() <= u32::MAX,
        old(bw)@.len() <= 0x1_0000_0000_0000,
    ensures
        final(bw).wf(),
        final(bw).prefix() == old(bw).prefix(),
        ok == !has_zero_gap(list@, list@.len()),
        ok ==> final(bw)@ == old(bw)@ + gaps_code(list@, list@.len()),
        final(bw)@.len() <= old(bw)@.len() + 76 * list@.len(),
{
    let mut last: i64 = -1;
    let mut j: usize = 0;
    assert(bw@ =~= old(bw)@ + gaps_code(list@, 0));
    while j < list.len()
        invariant
            j <= list.len() <= u32::MAX,
            bw.wf(),
            bw.prefix() == old(bw).prefix(),
            old(bw)@.len() <= 0x1_0000_0000_0000,
            last == prev_pos(list@, j as int),
            !has_zero_gap(list@, j as nat),
            bw@ == old(bw)@ + gaps_code(list@, j as nat),
            bw@.len() <= old(bw)@.len() + 76 * j,
        decreases list.len() - j,
    {
        let p: u32 = list[j];
        let gap: u64 = #[verifier::truncate] ((p as i64 - last) as u64);
        assert(gap == gap_at(list@, j as int));
        if gap == 0 {
            proof {
                lemma_zero_gap_stays(list@, (j + 1) as nat, list@.len());
            }
            return false;
        }
        proof {
            lemma_delta_code_len(gap);
        }
        let ghost before = bw@;
        bw.delta(gap);
        last = p as i64;
        j += 1;
        proof {
            assert(before + delta_code(gap) =~= old(bw)@ + gaps_code(list@, j as nat));
        }
    }
    true
}

/// A zero gap among the first gaps of a list is one among more of them.
pub proof fn lemma_zero_gap_stays(list: Seq<u32>, a: nat, b: nat)
    requires
        a <= b,
        has_zero_gap(list, a),
    ensures
        has_zero_gap(list, b),
    decreases b,
{
    if a < b {
        lemma_zero_gap_stays(list, a, (b - 1) as nat);
    }
}

/// A fault met while the first lists are written is the fault of the
/// whole.
pub proof fn lemma_postings_error_stays(ps: Seq<Seq<u32>>, start: int, a: nat, b: nat)
    requires
        a <= b,
        postings_error(ps, start, a) is Some,
    ensures
        postings_error(ps, start, b) == postings_error(ps, start, a),
    decreases b,
{
    if a < b {
        lemma_postings_error_stays(ps, start, a, (b - 1) as nat);
    }
}

/// Writes all posting lists behind what `target` holds, and returns the
/// file with the byte offset of each list.
#[verifier::rlimit(50)]
fn write_postings(target: Vec<u8>, positions: &Vec<Vec<u32>>) -> (r: Result<
    (Vec<u8>, Vec<u32>),
    RevError,
>)
    requires
        target.len() <= 16,
        forall|i: int| 0 <= i < positions.len() ==> (#[trigger] positions[i]).len() <= u32::MAX,
    ensures
        match postings_error(lists(positions@), target.len() as int, positions.len() as nat) {
            Some(e) => r == Err::<(Vec<u8>, Vec<u32>), RevError>(e),
            None => r matches Ok((out, offs)) && out@ == target@ + packed(
                postings_bits(lists(positions@), positions.len() as nat),
            ) && offs@ == posting_offsets(
                lists(positions@),
                target.len() as int,
                positions.len() as nat,
            ),
        },
{
    let start: u64 = target.len() as u64;
    let ghost ps = lists(positions@);
    let ghost n = positions.len() as nat;
    let mut bw = BitsWriter::new(target);
    let mut idx: Vec<u32> = Vec::new();
    let mut i: usize = 0;
    proof {
        assert(idx@ =~= posting_offsets(ps, start as int, 0));
    }
    while i < positions.len()
        invariant
            i <= positions.len(),
            n == positions.len(),
            ps == lists(positions@),
            start == target.len(),
            start <= 16,
            forall|k: int| 0 <= k < positions.len() ==> (#[trigger] positions[k]).len() <= u32::MAX,
            bw.wf(),
            bw.prefix() == target@,
            bw@ == postings_bits(ps, i as nat),
            bw@.len() <= 0x1_0000_0000_00,
            postings_error(ps, start as int, i as nat) is None,
            idx@ == posting_offsets(ps, start as int, i as nat),
        decreases positions.len() - i,
    {
        bw.byte_align();
        let bitpos: u64 = bw.bits_written();
        let byte_off: u64 = start + bitpos / 8;
        assert(bw@ == aligned(postings_bits(ps, i as nat)));
        assert(byte_off == posting_offset(ps, start as int, i as nat));
        assert(ps[i as int] == positions[i as int]@);
        if byte_off > u32::MAX as u64 {
            proof {
                lemma_postings_error_stays(ps, start as int, (i + 1) as nat, n);
            }
            return Err(RevError::OffsetOverflow);
        }
        idx.push(byte_off as u32);
        if !write_list(&mut bw, &positions[i]) {
            proof {
                lemma_postings_error_stays(ps, start as int, (i + 1) as nat, n);
            }
            return Err(RevError::ZeroGap);
        }
        i += 1;
        proof {
            assert(idx@ =~= posting_offsets(ps, start as int, i as nat));
        }
    }
    let out = bw.finish();
    Ok((out, idx))
}

/// The three files of a sparse reverse index.
#[derive(Debug)]
pub struct SparseRevFiles {
    /// `.rev`: the magic number, the header and the posting lists.
    pub rev: Vec<u8>,
    /// `.rev.idx`: the byte offset of each list.
    pub idx: Vec<u8>,
    /// `.rev.cnt`: the number of positions of each list.
    pub cnt: Vec<u8>,
}

/// The header of a sparse reverse index: the magic number and the delta
/// code of 2, in seven bytes.
pub open spec fn sparse_header() -> Seq<u8> {
    rev_magic() + packed(delta_code(2))
}

fn magic_bytes(first: u8) -> (v: Vec<u8>)
    ensures
        v@ == seq![first, 0x66u8, 0x69u8, 0x6eu8, 0x44u8, 0x52u8],
{
    let mut v: Vec<u8> = Vec::new();
    v.push(first);
    v.push(0x66);
    v.push(0x69);
    v.push(0x6e);
    v.push(0x44);
    v.push(0x52);
    assert(v@ =~= seq![first, 0x66u8, 0x69u8, 0x6eu8, 0x44u8, 0x52u8]);
    v
}

/// The sparse layout of `positions`: a fault if and only if some list
/// would begin past the range of a 32-bit byte offset or lists a position
/// twice in a row, else the three files.
pub fn write_rev_delta(positions: &Vec<Vec<u32>>) -> (r: Result<SparseRevFiles, RevError>)
    requires
        forall|i: int| 0 <= i < positions.len() ==> (#[trigger] positions[i]).len() <= u32::MAX,
    ensures
        match postings_error(lists(positions@), 7, positions.len() as nat) {
            Some(e) => r matches Err(e2) && e2 == e,
            None => r matches Ok(files) && files.rev@ == sparse_header() + packed(
                postings_bits(lists(positions@), positions.len() as nat),
            ) && files.idx@ == u32s_le(
                posting_offsets(lists(positions@), 7, positions.len() as nat),
            ) && files.cnt@ == u32s_le(posting_counts(lists(positions@))),
        },
{
    let f = magic_bytes(0xa3);
    let mut hbw = BitsWriter::new(f);
    hbw.delta(2);
    proof {
        lemma_delta_code_len(2);
        assert(hbw@ =~= delta_code(2));
        lemma_delta_two();
    }
    let f = hbw.finish();
    assert(f@.len() == 7);
    match write_postings(f, positions) {
        Err(e) => Err(e),
        Ok((rev, offs)) => {
            let idx = u32_bytes(offs.as_slice());
            let mut cnts: Vec<u32> = Vec::new();
            let mut i: usize = 0;
            while i < positions.len()
                invariant
                    i <= positions.len(),
                    cnts@ == posting_counts(lists(positions@)).take(i as int),
                decreases positions.len() - i,
            {
                cnts.push(#[verifier::truncate] (positions[i].len() as u32));
                i += 1;
                assert(cnts@ =~= posting_counts(lists(positions@)).take(i as int));
            }
            assert(cnts@ =~= posting_counts(lists(positions@)));
            let cnt = u32_bytes(cnts.as_slice());
            Ok(SparseRevFiles { rev, idx, cnt })
        },
    }
}

/// The delta code of 2 has four bits, so the sparse header has one byte
/// after the magic number.
pub proof fn lemma_delta_two()
    ensures
        delta_code(2).len() == 4,
        packed(delta_code(2)).len() == 1,
{
    vstd::std_specs::bits::axiom_u64_leading_zeros(2);
    assert(bit_len(2) == 2) by {
        lemma_bit_len_small();
    }
    vstd::std_specs::bits::axiom_u64_leading_zeros(2);
}

/// The delta code of 1 is one bit.
pub proof fn lemma_delta_one()
    ensures
        delta_code(1).len() == 1,
{
    lemma_bit_len_small();
}

/// The lengths of 1 and 2.
pub proof fn lemma_bit_len_small()
    ensures
        bit_len(1) == 1,
        bit_len(2) == 2,
{
    reveal_with_fuel(vstd::std_specs::bits::u64_leading_zeros, 4);
    assert(1u64 / 2 == 0);
    assert(2u64 / 2 == 1);
}

/// The numbers of positions of the posting lists.
pub open spec fn list_lens(ps: Seq<Seq<u32>>) -> Seq<nat> {
    Seq::new(ps.len(), |i: int| ps[i].len())
}

/// The offset before the `i`-th, within the group that begins at `lo`; 0
/// before the first of the group.
pub open spec fn prev_off(offs: Seq<u32>, lo: int, i: int) -> u32 {
    if i <= lo {
        0
    } else {
        offs[i - 1]
    }
}

/// The step that is written for the `i`-th offset: its distance from the
/// offset before it, modulo 2^32.
pub open spec fn off_step(offs: Seq<u32>, lo: int, i: int) -> u32 {
    offs[i].wrapping_sub(prev_off(offs, lo, i))
}

/// Whether one of the first `n` steps of the group that begins at `lo`
/// is zero.
pub open spec fn has_zero_step(offs: Seq<u32>, lo: int, n: nat) -> bool
    decreases n,
{
    n > 0 && (has_zero_step(offs, lo, (n - 1) as nat) || off_step(offs, lo, lo + n - 1) == 0)
}

/// The records of the first `n` ids of the group that begins at `lo`:
/// for each the delta code of its step and the gamma code of its count
/// plus one.
pub open spec fn entries_code(offs: Seq<u32>, lens: Seq<nat>, lo: int, n: nat) -> Seq<bool>
    decreases n,
{
    if n == 0 {
        Seq::empty()
    } else {
        entries_code(offs, lens, lo, (n - 1) as nat) + delta_code(
            off_step(offs, lo, lo + n - 1) as u64,
        ) + gamma_code((lens[lo + n - 1] + 1) as u64)
    }
}

/// Number of ids of group `g` among `total` ids.
pub open spec fn group_size(total: int, g: int) -> nat {
    if total - 64 * g >= 64 {
        64
    } else if total - 64 * g > 0 {
        (total - 64 * g) as nat
    } else {
        0
    }
}

/// Number of groups of `total` ids.
pub open spec fn group_count(total: int) -> nat {
    ((total + 63) / 64) as nat
}

/// The records of group `g`, closed by the delta code of 1 and the gamma
/// code of 1.
pub open spec fn group_code(offs: Seq<u32>, lens: Seq<nat>, g: int) -> Seq<bool> {
    entries_code(offs, lens, 64 * g, group_size(offs.len() as int, g)) + delta_code(1)
        + gamma_code(1)
}

/// The stream of the first `m` groups, each begun at a byte boundary.
pub open spec fn index_bits(offs: Seq<u32>, lens: Seq<nat>, m: nat) -> Seq<bool>
    decreases m,
{
    if m == 0 {
        Seq::empty()
    } else {
        aligned(index_bits(offs, lens, (m - 1) as nat)) + group_code(offs, lens, m - 1)
    }
}

/// Byte offset of group `g` in the stream of groups.
pub open spec fn group_offset(offs: Seq<u32>, lens: Seq<nat>, g: nat) -> int {
    (aligned(index_bits(offs, lens, g)).len() / 8) as int
}

/// The first fault met while the first `m` groups are written: for each
/// group in turn, an offset out of range, then a zero step.
pub open spec fn index_error(offs: Seq<u32>, lens: Seq<nat>, m: nat) -> Option<RevError>
    decreases m,
{
    if m == 0 {
        None
    } else {
        let before = index_error(offs, lens, (m - 1) as nat);
        if before is Some {
            before
        } else if group_offset(offs, lens, (m - 1) as nat) > u32::MAX {
            Some(RevError::Idx1Overflow)
        } else if has_zero_step(offs, 64 * (m - 1), group_size(offs.len() as int, m - 1)) {
            Some(RevError::ZeroDelta)
        } else {
            None
        }
    }
}

/// The fault met while the index of groups is written, the length of the
/// stream out of range being the last that is looked for.
pub open spec fn dense_index_error(offs: Seq<u32>, lens: Seq<nat>) -> Option<RevError> {
    let m = group_count(offs.len() as int);
    let e = index_error(offs, lens, m);
    if e is Some {
        e
    } else if packed(index_bits(offs, lens, m)).len() > u32::MAX {
        Some(RevError::Idx1Overflow)
    } else {
        None
    }
}

/// The byte offset of each group, and after them the length of the
/// stream of groups in bytes.
pub open spec fn group_offsets(offs: Seq<u32>, lens: Seq<nat>) -> Seq<u32> {
    let m = group_count(offs.len() as int);
    Seq::new(
        m + 1,
        |g: int|
            if g < m {
                group_offset(offs, lens, g as nat) as u32
            } else {
                packed(index_bits(offs, lens, m)).len() as u32
            },
    )
}

/// A zero step among the first steps of a group is one among more.
pub proof fn lemma_zero_step_stays(offs: Seq<u32>, lo: int, a: nat, b: nat)
    requires
        a <= b,
        has_zero_step(offs, lo, a),
    ensures
        has_zero_step(offs, lo, b),
    decreases b,
{
    if a < b {
        lemma_zero_step_stays(offs, lo, a, (b - 1) as nat);
    }
}

/// A fault met while the first groups are written is the fault of all.
pub proof fn lemma_index_error_stays(offs: Seq<u32>, lens: Seq<nat>, a: nat, b: nat)
    requires
        a <= b,
        index_error(offs, lens, a) is Some,
    ensures
        index_error(offs, lens, b) == index_error(offs, lens, a),
    decreases b,
{
    if a < b {
        lemma_index_error_stays(offs, lens, a, (b - 1) as nat);
    }
}

/// Writes the records of group `g` and what closes them; stops at a
/// zero step.
#[verifier::rlimit(50)]
fn write_group(bw1: &mut BitsWriter, offs: &Vec<u32>, positions: &Vec<Vec<u32>>, g: usize) -> (ok:
    bool)
    requires
        old(bw1).wf(),
        old(bw1).prefix() == Seq::<u8>::empty(),
        old(bw1)@.len() <= 0x8_0000_0008,
        offs.len() == positions.len(),
        g < group_count(offs.len() as int),
        forall|i: int| 0 <= i < positions.len() ==> (#[trigger] positions[i]).len() <= u32::MAX,
    ensures
        final(bw1).wf(),
        final(bw1).prefix() == Seq::<u8>::empty(),
        ok == !has_zero_step(offs@, 64 * g, group_size(offs.len() as int, g as int)),
        ok ==> final(bw1)@ == old(bw1)@ + group_code(
            offs@,
            list_lens(lists(positions@)),
            g as int,
        ),
        final(bw1)@.len() <= old(bw1)@.len() + 203 * 65,
{
    let ghost lens = list_lens(lists(positions@));
    let n: usize = offs.len();
    let block_start: usize = 64 * g;
    let mut last_off: u32 = 0;
    let end: usize = if n - block_start > 64 {
        block_start + 64
    } else {
        n
    };
    let ghost gs = group_size(n as int, g as int);
    assert(end - block_start == gs);
    let ghost base = bw1@;
    let mut i: usize = block_start;
    assert(bw1@ =~= base + entries_code(offs@, lens, block_start as int, 0));
    while i < end
        invariant
            block_start <= i <= end <= n,
            n == offs.len(),
            n == positions.len(),
            lens == list_lens(lists(positions@)),
            forall|k: int| 0 <= k < positions.len() ==> (#[trigger] positions[k]).len() <= u32::MAX,
            end - block_start <= 64,
            gs == end - block_start,
            gs == group_size(n as int, g as int),
            block_start == 64 * g,
            base == old(bw1)@,
            bw1.wf(),
            bw1.prefix() == Seq::<u8>::empty(),
            base.len() <= 0x8_0000_0008,
            last_off == prev_off(offs@, block_start as int, i as int),
            !has_zero_step(offs@, block_start as int, (i - block_start) as nat),
            bw1@ == base + entries_code(offs@, lens, block_start as int, (i - block_start) as nat),
            bw1@.len() <= base.len() + 203 * (i - block_start),
        decreases end - i,
    {
        let off: u32 = offs[i];
        let delta: u32 = off.wrapping_sub(last_off);
        assert(delta == off_step(offs@, block_start as int, i as int));
        if delta == 0 {
            proof {
                lemma_zero_step_stays(offs@, block_start as int, (i - block_start + 1) as nat, gs);
            }
            return false;
        }
        let ghost before = bw1@;
        proof {
            lemma_delta_code_len(delta as u64);
        }
        bw1.delta(delta as u64);
        let cnt: u64 = positions[i].len() as u64 + 1;
        assert(cnt == lens[i as int] + 1);
        proof {
            lemma_gamma_code_bound(cnt);
        }
        bw1.gamma(cnt);
        last_off = off;
        i += 1;
        proof {
            assert(before + delta_code(delta as u64) + gamma_code(cnt) =~= base + entries_code(
                offs@,
                lens,
                block_start as int,
                (i - block_start) as nat,
            ));
        }
    }
    proof {
        lemma_delta_code_len(1);
        lemma_gamma_code_bound(1);
    }
    bw1.delta(1);
    bw1.gamma(1);
    true
}

/// Writes the index of groups for the byte offsets and the lists.
#[verifier::rlimit(50)]
fn write_dense_index(offs: &Vec<u32>, positions: &Vec<Vec<u32>>) -> (r: Result<
    (Vec<u8>, Vec<u32>),
    RevError,
>)
    requires
        offs.len() == positions.len(),
        forall|i: int| 0 <= i < positions.len() ==> (#[trigger] positions[i]).len() <= u32::MAX,
    ensures
        match dense_index_error(offs@, list_lens(lists(positions@))) {
            Some(e) => r == Err::<(Vec<u8>, Vec<u32>), RevError>(e),
            None => r matches Ok((idx1, idx0)) && idx1@ == packed(
                index_bits(
                    offs@,
                    list_lens(lists(positions@)),
                    group_count(offs.len() as int),
                ),
            ) && idx0@ == group_offsets(offs@, list_lens(lists(positions@))),
        },
{
    let ghost lens = list_lens(lists(positions@));
    let n: usize = offs.len();
    let ghost m = group_count(n as int);
    let mut idx0: Vec<u32> = Vec::new();
    let mut bw1 = BitsWriter::new(Vec::new());
    let groups: usize = n / 64 + (if n % 64 == 0 {
        0
    } else {
        1
    });
    let mut g: usize = 0;
    while g < groups
        invariant
            n == offs.len(),
            n == positions.len(),
            lens == list_lens(lists(positions@)),
            m == group_count(n as int),
            forall|i: int| 0 <= i < positions.len() ==> (#[trigger] positions[i]).len() <= u32::MAX,
            groups == m,
            g <= m,
            bw1.wf(),
            bw1.prefix() == Seq::<u8>::empty(),
            bw1@ == index_bits(offs@, lens, g as nat),
            bw1@.len() <= 0x10_0000_0000,
            index_error(offs@, lens, g as nat) is None,
            idx0@.len() == g,
            forall|k: int|
                0 <= k < g ==> #[trigger] idx0@[k] == group_offset(offs@, lens, k as nat) as u32,
        decreases groups - g,
    {
        bw1.byte_align();
        let idx1_byte: u64 = bw1.bits_written() / 8;
        assert(bw1@ == aligned(index_bits(offs@, lens, g as nat)));
        assert(idx1_byte == group_offset(offs@, lens, g as nat));
        if idx1_byte > u32::MAX as u64 {
            proof {
                lemma_index_error_stays(offs@, lens, (g + 1) as nat, m);
            }
            return Err(RevError::Idx1Overflow);
        }
        idx0.push(idx1_byte as u32);
        if !write_group(&mut bw1, offs, positions, g) {
            proof {
                lemma_index_error_stays(offs@, lens, (g + 1) as nat, m);
            }
            return Err(RevError::ZeroDelta);
        }
        g += 1;
    }
    let idx1 = bw1.finish();
    let idx1_end: usize = idx1.len();
    if idx1_end as u64 > u32::MAX as u64 {
        return Err(RevError::Idx1Overflow);
    }
    idx0.push(idx1_end as u32);
    proof {
        assert(idx0@ =~= group_offsets(offs@, lens));
    }
    Ok((idx1, idx0))
}

/// The three files of a dense reverse index.
#[derive(Debug)]
pub struct DenseRevFiles {
    /// `.rev`: the magic number and the posting lists.
    pub rev: Vec<u8>,
    /// `.rev.idx0`: the byte offset of each group in `.rev.idx1`, and the
    /// length of that file.
    pub idx0: Vec<u8>,
    /// `.rev.idx1`: the groups of records, 64 ids to a group.
    pub idx1: Vec<u8>,
}

/// The fault for which no dense index of the lists can be written: one
/// met while the posting lists are written, else one met while the index
/// of groups is.
pub open spec fn dense_error(ps: Seq<Seq<u32>>) -> Option<RevError> {
    let e = postings_error(ps, 6, ps.len());
    if e is Some {
        e
    } else {
        dense_index_error(posting_offsets(ps, 6, ps.len()), list_lens(ps))
    }
}

/// Whether the files are the dense index of the lists.
pub open spec fn is_dense_of(files: DenseRevFiles, ps: Seq<Seq<u32>>) -> bool {
    let offs = posting_offsets(ps, 6, ps.len());
    &&& files.rev@ == rev_dense_magic() + packed(postings_bits(ps, ps.len()))
    &&& files.idx1@ == packed(index_bits(offs, list_lens(ps), group_count(ps.len() as int)))
    &&& files.idx0@ == u32s_le(group_offsets(offs, list_lens(ps)))
}

/// The dense layout of `positions`: a fault if and only if `dense_error`
/// names one, else the three files.
pub fn write_rev_dense(positions: &Vec<Vec<u32>>) -> (r: Result<DenseRevFiles, RevError>)
    requires
        forall|i: int| 0 <= i < positions.len() ==> (#[trigger] positions[i]).len() <= u32::MAX,
    ensures
        match dense_error(lists(positions@)) {
            Some(e) => r matches Err(e2) && e2 == e,
            None => r matches Ok(files) && is_dense_of(files, lists(positions@)),
        },
{
    let f = magic_bytes(0xa8);
    match write_postings(f, positions) {
        Err(e) => Err(e),
        Ok((rev, byte_offsets)) => {
            match write_dense_index(&byte_offsets, positions) {
                Err(e) => Err(e),
                Ok((idx1, groups)) => {
                    let idx0 = u32_bytes(groups.as_slice());
                    Ok(DenseRevFiles { rev, idx0, idx1 })
                },
            }
        },
    }
}

/// The files of a reverse index in either layout.
#[derive(Debug)]
pub enum RevFiles {
    Sparse(SparseRevFiles),
    Dense(DenseRevFiles),
}

/// The reverse index of `positions` in the layout that the builder
/// writes, the dense one.
pub fn write_rev(positions: &Vec<Vec<u32>>) -> (r: Result<RevFiles, RevError>)
    requires
        forall|i: int| 0 <= i < positions.len() ==> (#[trigger] positions[i]).len() <= u32::MAX,
    ensures
        match dense_error(lists(positions@)) {
            Some(e) => r matches Err(e2) && e2 == e,
            None => r matches Ok(RevFiles::Dense(files)) && is_dense_of(files, lists(positions@)),
        },
{
    match write_rev_dense(positions) {
        Ok(files) => Ok(RevFiles::Dense(files)),
        Err(e) => Err(e),
    }
}

/// The positions among the first `n` at which `id` stands, in their
/// order.
pub open spec fn positions_of(ids: Seq<u32>, id: u32, n: nat) -> Seq<u32>
    decreases n,
{
    if n == 0 {
        Seq::empty()
    } else if ids[n - 1] == id {
        positions_of(ids, id, (n - 1) as nat).push((n - 1) as u32)
    } else {
        positions_of(ids, id, (n - 1) as nat)
    }
}

/// One more than the greatest id among the first `n`; 0 where there is
/// none.
pub open spec fn id_bound(ids: Seq<u32>, n: nat) -> nat
    decreases n,
{
    if n == 0 {
        0
    } else if id_bound(ids, (n - 1) as nat) > ids[n - 1] {
        id_bound(ids, (n - 1) as nat)
    } else {
        (ids[n - 1] + 1) as nat
    }
}

/// The posting lists of a text: for each id up to the greatest the
/// positions at which it stands, in increasing order.
#[verifier::rlimit(50)]
pub fn positions_by_id(text: &AnyText) -> (positions: Vec<Vec<u32>>)
    requires
        text.wf(),
        text.ids().len() <= u32::MAX,
    ensures
        positions@.len() == id_bound(text.ids(), text.ids().len()),
        forall|id: int|
            0 <= id < positions@.len() ==> (#[trigger] positions@[id])@ == positions_of(
                text.ids(),
                id as u32,
                text.ids().len(),
            ),
{
    let size: usize = text.size();
    let ghost ids = text.ids();
    if size == 0 {
        return Vec::new();
    }
    proof {
        crate::text::lemma_iterator_starts_at_get(text, 0);
    }
    let mut it: IdIter<'_> = match text {
        AnyText::Delta(t) => IdIter::Stream(StreamIter::Plain(t.at(0))),
        AnyText::GigaDelta(t) => IdIter::Stream(StreamIter::Runs(t.at(0))),
        AnyText::Int(t) => IdIter::Array(IntIter { position: 0, inttext: t }),
    };
    assert(it.ids() =~= ids);
    let mut positions: Vec<Vec<u32>> = Vec::new();
    let mut pos: usize = 0;
    while pos < size
        invariant
            pos <= size,
            size == ids.len(),
            size <= u32::MAX,
            it.wf(),
            it.ids() == ids.skip(pos as int),
            positions@.len() == id_bound(ids, pos as nat),
            forall|id: int|
                0 <= id < positions@.len() ==> (#[trigger] positions@[id])@ == positions_of(
                    ids,
                    id as u32,
                    pos as nat,
                ),
        decreases size - pos,
    {
        let id: u32 = match it.next() {
            Some(id) => id,
            None => 0,
        };
        assert(id == ids[pos as int]);
        let idx: usize = id as usize;
        while positions.len() <= idx
            invariant
                idx == id,
                id_bound(ids, pos as nat) <= positions@.len(),
                positions@.len() <= id_bound(ids, pos as nat) || positions@.len() <= idx + 1,
                forall|k: int|
                    0 <= k < positions@.len() ==> (#[trigger] positions@[k])@ == positions_of(
                        ids,
                        k as u32,
                        pos as nat,
                    ),
            decreases idx + 1 - positions@.len(),
        {
            proof {
                lemma_no_position(ids, positions@.len() as u32, pos as nat);
            }
            positions.push(Vec::new());
        }
        let ghost before = positions@;
        positions[idx].push(pos as u32);
        pos += 1;
        proof {
            assert(it.ids() =~= ids.skip(pos as int));
            lemma_id_bound_range(ids, pos as nat);
            assert forall|k: int| 0 <= k < positions@.len() implies (#[trigger] positions@[k])@
                == positions_of(ids, k as u32, pos as nat) by {
                if k != idx {
                    assert(positions@[k] == before[k]);
                }
            }
        }
    }
    positions
}

/// The bound of ids is at most 2^32.
pub proof fn lemma_id_bound_range(ids: Seq<u32>, n: nat)
    ensures
        id_bound(ids, n) <= u32::MAX + 1,
    decreases n,
{
    if n > 0 {
        lemma_id_bound_range(ids, (n - 1) as nat);
    }
}

/// An id that is not less than the bound of the first `n` stands at
/// none of them.
pub proof fn lemma_no_position(ids: Seq<u32>, id: u32, n: nat)
    requires
        id >= id_bound(ids, n),
    ensures
        positions_of(ids, id, n) == Seq::<u32>::empty(),
    decreases n,
{
    if n > 0 {
        lemma_no_position(ids, id, (n - 1) as nat);
    }
}

/// The positions of an id are positions at which it stands, each less
/// than 2^32 where the text has no more than that, and they increase.
pub proof fn lemma_positions_increasing(ids: Seq<u32>, id: u32, n: nat)
    requires
        n <= ids.len(),
        n <= u32::MAX,
    ensures
        forall|k: int|
            0 <= k < positions_of(ids, id, n).len() ==> ((#[trigger] positions_of(ids, id, n)[k])
                < n && ids[positions_of(ids, id, n)[k] as int] == id),
        forall|j: int, k: int|
            0 <= j < k < positions_of(ids, id, n).len() ==> ((#[trigger] positions_of(ids, id, n)[j])
                < (#[trigger] positions_of(ids, id, n)[k])),
    decreases n,
{
    if n > 0 {
        lemma_positions_increasing(ids, id, (n - 1) as nat);
        let l = positions_of(ids, id, n);
        let l0 = positions_of(ids, id, (n - 1) as nat);
        assert forall|k: int| 0 <= k < l.len() implies ((#[trigger] l[k]) < n && ids[l[k] as int]
            == id) by {
            if k < l0.len() {
                assert(l[k] == l0[k]);
            }
        }
        assert forall|j: int, k: int| 0 <= j < k < l.len() implies ((#[trigger] l[j]) < (
        #[trigger] l[k])) by {
            assert(l[j] == l0[j]);
            if k < l0.len() {
                assert(l[k] == l0[k]);
            }
        }
    }
}

/// Every position is one of the positions of the id that stands at
/// it.
pub proof fn lemma_positions_cover(ids: Seq<u32>, p: int, n: nat)
    requires
        0 <= p < n <= ids.len(),
        n <= u32::MAX,
    ensures
        positions_of(ids, ids[p], n).contains(p as u32),
    decreases n,
{
    let l = positions_of(ids, ids[p], n);
    if p == n - 1 {
        assert(l[l.len() - 1] == p as u32);
    } else {
        lemma_positions_cover(ids, p, (n - 1) as nat);
        let l0 = positions_of(ids, ids[p], (n - 1) as nat);
        let k = choose|k: int| 0 <= k < l0.len() && l0[k] == p as u32;
        assert(l[k] == p as u32);
    }
}

/// The number of positions of all ids below `bound` together.
pub open spec fn postings_total(ids: Seq<u32>, bound: nat, n: nat) -> nat
    decreases bound,
{
    if bound == 0 {
        0
    } else {
        postings_total(ids, (bound - 1) as nat, n) + positions_of(ids, (bound - 1) as u32, n).len()
    }
}

proof fn lemma_total_step(ids: Seq<u32>, bound: nat, n: nat)
    requires
        n > 0,
        bound <= u32::MAX + 1,
    ensures
        postings_total(ids, bound, n) == postings_total(ids, bound, (n - 1) as nat) + if ids[n - 1]
            < bound {
            1nat
        } else {
            0nat
        },
    decreases bound,
{
    if bound > 0 {
        lemma_total_step(ids, (bound - 1) as nat, n);
    }
}

/// The posting lists of all ids together have as many positions as the
/// text.
pub proof fn lemma_postings_total(ids: Seq<u32>, bound: nat, n: nat)
    requires
        id_bound(ids, n) <= bound <= u32::MAX + 1,
    ensures
        postings_total(ids, bound, n) == n,
    decreases n,
{
    if n > 0 {
        lemma_total_step(ids, bound, n);
        lemma_postings_total(ids, bound, (n - 1) as nat);
    } else {
        lemma_total_empty(ids, bound);
    }
}

proof fn lemma_total_empty(ids: Seq<u32>, bound: nat)
    ensures
        postings_total(ids, bound, 0) == 0,
    decreases bound,
{
    if bound > 0 {
        lemma_total_empty(ids, (bound - 1) as nat);
    }
}

} // verus!
