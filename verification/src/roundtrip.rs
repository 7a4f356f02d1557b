//! What the writers write is what the readers read: the files of a
//! delta text are a valid text with the ids that were written.

use vstd::prelude::*;
use crate::bits::{delta_at, delta_end, delta_ok, ids, ids_end, ids_ok, window};
use crate::codec::{
    holds,
    lemma_delta_code_shape,
    lemma_delta_read,
    lemma_file_holds,
    lemma_holds_fewer,
    lemma_holds_parts,
    lemma_ids_code_opens,
    lemma_ids_read,
};
use crate::text::{header_ok, header_positions, header_segment_size, Delta};
use crate::textwriter::{
    TextWriter,
    bit_of,
    fresh_stream,
    head16,
    header_code,
    ids_code,
    overwrite,
    seg_overflow,
    seg_upto,
    stream_file,
    text_magic,
    zero_bytes,
};
use crate::util::{byte_or_zero, item_count, le_byte_of, le_u32, le_u32s, le_words, u32s_le};
use crate::wrbits::{delta_code, packed};

verus! {

proof fn lemma_u32_of_bytes(x: u32)
    by (bit_vector)
    ensures
        ((((x as u64) >> 0) as u8) as u32) | (((((x as u64) >> 8) as u8) as u32) << 8) | (((((x as u64)
            >> 16) as u8) as u32) << 16) | (((((x as u64) >> 24) as u8) as u32) << 24) == x,
{
}

/// Numbers of 32 bits that are written as bytes are read back as they
/// were.
pub proof fn lemma_u32s_round_trip(v: Seq<u32>)
    ensures
        le_u32s(u32s_le(v)) == v,
{
    let bytes = u32s_le(v);
    assert(item_count(bytes.len() as int, 4) == v.len());
    assert forall|k: int| 0 <= k < v.len() implies le_u32(bytes, k) == #[trigger] v[k] by {
        lemma_u32_of_bytes(v[k]);
        assert(byte_or_zero(bytes, 4 * k) == le_byte_of(v[k] as u64, 0));
        assert(byte_or_zero(bytes, 4 * k + 1) == le_byte_of(v[k] as u64, 1));
        assert(byte_or_zero(bytes, 4 * k + 2) == le_byte_of(v[k] as u64, 2));
        assert(byte_or_zero(bytes, 4 * k + 3) == le_byte_of(v[k] as u64, 3));
    }
    assert(le_u32s(bytes) =~= v);
}

/// Number of segments that `n` positions begin, in segments of `s`.
pub open spec fn seg_count(n: int, s: int) -> int {
    if n % s == 0 {
        n / s
    } else {
        n / s + 1
    }
}

/// One more position begins one more segment where the positions before
/// it fill their segments, and none else.
pub proof fn lemma_count_step(m: int, s: int)
    requires
        m >= 0,
        s > 0,
    ensures
        m % s == 0 ==> seg_count(m + 1, s) == m / s + 1 && seg_count(m, s) == m / s && (m / s) * s
            == m,
        m % s != 0 ==> seg_count(m + 1, s) == seg_count(m, s),
        0 <= m / s <= seg_count(m, s),
        seg_count(m, s) * s >= m,
        m % s != 0 ==> (m / s) * s < m,
{
    let q = m / s;
    let r = m % s;
    vstd::arithmetic::div_mod::lemma_fundamental_div_mod(m, s);
    assert(s * q == q * s) by (nonlinear_arith);
    assert((q + 1) * s == q * s + s) by (nonlinear_arith);
    assert(q >= 0) by {
        if q < 0 {
            assert(q * s <= -s) by (nonlinear_arith)
                requires
                    q <= -1,
                    s > 0,
            ;
        }
    }
    if r + 1 < s {
        vstd::arithmetic::div_mod::lemma_fundamental_div_mod_converse(m + 1, s, q, r + 1);
    } else {
        vstd::arithmetic::div_mod::lemma_fundamental_div_mod_converse(m + 1, s, q + 1, 0);
    }
}

/// The segment index for `n` positions has an entry for every segment
/// begun, which is the bit position of its first position.
pub proof fn lemma_seg_upto(s: int, ids: Seq<u32>, n: nat)
    requires
        s > 0,
        !seg_overflow(s, ids, n),
    ensures
        seg_upto(s, ids, n).len() == seg_count(n as int, s),
        forall|k: int|
            0 <= k < seg_upto(s, ids, n).len() ==> #[trigger] seg_upto(s, ids, n)[k] as int == bit_of(
                ids,
                (k * s) as nat,
            ),
    decreases n,
{
    if n > 0 {
        let m = (n - 1) as nat;
        lemma_seg_upto(s, ids, m);
        let before = seg_upto(s, ids, m);
        let now = seg_upto(s, ids, n);
        lemma_count_step(m as int, s);
        if (m as int) % s == 0 {
            assert forall|k: int| 0 <= k < now.len() implies #[trigger] now[k] as int == bit_of(
                ids,
                (k * s) as nat,
            ) by {
                if k < before.len() {
                    assert(now[k] == before[k]);
                } else {
                    assert(k * s == m);
                }
            }
        }
    } else {
        lemma_count_step(0, s);
    }
}

/// The file of a stream has the header for its ids from byte 16 on, in
/// no more than 16 bytes, and the codes of its ids from byte 32 on.
#[verifier::rlimit(50)]
pub proof fn lemma_stream_file_parts(segment_size: u64, ids: Seq<u32>)
    requires
        segment_size < u64::MAX,
        ids.len() <= u32::MAX,
    ensures
        stream_file(segment_size, ids).len() == (32 + packed(ids_code(ids, ids.len())).len()) as int,
        packed(header_code(segment_size, ids.len() as u64)).len() <= 16,
        stream_file(segment_size, ids).subrange(
            16,
            (16 + packed(header_code(segment_size, ids.len() as u64)).len()) as int,
        ) == packed(header_code(segment_size, ids.len() as u64)),
        stream_file(segment_size, ids).subrange(
            32,
            (32 + packed(ids_code(ids, ids.len())).len()) as int,
        ) == packed(ids_code(ids, ids.len())),
{
    let n = ids.len() as u64;
    lemma_delta_code_shape((segment_size + 1) as u64);
    lemma_delta_code_shape((n + 1) as u64);
    lemma_delta_code_shape(1);
    crate::mkrev::lemma_delta_one();
    let h0 = head16(text_magic()) + packed(header_code(segment_size, 0));
    assert(head16(text_magic()).len() == 16);
    assert(h0.len() <= 26);
    let fresh = fresh_stream(segment_size);
    assert(fresh.len() == 32);
    let data = packed(ids_code(ids, ids.len()));
    let h = packed(header_code(segment_size, n));
    let f = fresh + data;
    let file = stream_file(segment_size, ids);
    assert(file == overwrite(f, 16, h));
    assert(file.subrange(16, (16 + h.len()) as int) =~= h);
    assert(file.subrange(32, (32 + data.len()) as int) =~= data);
}

/// A buffer that holds the header of a stream gives its two numbers to
/// the reader.
pub proof fn lemma_header_read(mem: Seq<u64>, segment_size: u64, count: u64)
    requires
        segment_size < 0x3f_ffff_ffff_ffff,
        segment_size <= usize::MAX,
        count <= u32::MAX,
        holds(mem, 128, header_code(segment_size, count)),
    ensures
        header_ok(mem),
        header_segment_size(mem) == segment_size,
        header_positions(mem) == count,
{
    let a = delta_code((segment_size + 1) as u64);
    let b = delta_code((count + 1) as u64);
    lemma_holds_parts(mem, 128, a, b);
    lemma_delta_code_shape((segment_size + 1) as u64);
    lemma_delta_code_shape((count + 1) as u64);
    lemma_delta_read(mem, 128, (segment_size + 1) as u64);
    lemma_delta_read(mem, (128 + a.len()) as int, (count + 1) as u64);
}

/// The entries of the segment index of a stream, with the bit position
/// behind the last id at their end.
pub open spec fn seg_entries(s: int, ids: Seq<u32>) -> Seq<u32> {
    seg_upto(s, ids, ids.len()).push(bit_of(ids, ids.len()) as u32)
}

/// In a buffer that holds the codes of the ids from bit 256 on, entry
/// `k` of the segment index is the bit position that the reader reaches
/// behind `k` segments.
#[verifier::rlimit(50)]
pub proof fn lemma_segment_entry(mem: Seq<u64>, s: int, ids: Seq<u32>, k: int)
    requires
        s > 0,
        ids.len() <= u32::MAX,
        forall|j: int| 0 <= j < ids.len() ==> (#[trigger] ids[j]) < u32::MAX,
        !seg_overflow(s, ids, ids.len()),
        bit_of(ids, ids.len()) <= u32::MAX,
        holds(mem, 256, ids_code(ids, ids.len())),
        0 <= k < seg_entries(s, ids).len(),
        k * s <= ids.len(),
    ensures
        seg_entries(s, ids)[k] as int == ids_end(mem, 256, (k * s) as nat),
        ids_ok(mem, 256, (k * s) as nat),
{
    let n = ids.len();
    assert(k * s >= 0) by (nonlinear_arith)
        requires
            k >= 0,
            s > 0,
    ;
    let m = (k * s) as nat;
    lemma_holds_fewer(mem, 256, ids, m, n);
    lemma_ids_code_opens(ids, m, n);
    lemma_ids_read(mem, 256, ids, m);
    lemma_seg_upto(s, ids, n);
    lemma_count_step(n as int, s);
    let count = seg_upto(s, ids, n).len() as int;
    if k < count {
        assert(seg_entries(s, ids)[k] == seg_upto(s, ids, n)[k]);
    } else {
        assert(k * s == n);
    }
}

/// A stream of ids has at least one entry in its segment index, the
/// first of which is bit 256, and one for every segment that a position
/// begins.
pub proof fn lemma_segment_count(s: int, ids: Seq<u32>)
    requires
        s > 0,
        !seg_overflow(s, ids, ids.len()),
        bit_of(ids, ids.len()) <= u32::MAX,
    ensures
        seg_entries(s, ids).len() >= 1,
        seg_entries(s, ids)[0] == 256,
        ids.len() > 0 ==> (ids.len() - 1) / s < seg_entries(s, ids).len(),
{
    let n = ids.len();
    lemma_seg_upto(s, ids, n);
    lemma_count_step(n as int, s);
    let count = seg_upto(s, ids, n).len() as int;
    if n > 0 {
        assert(count > 0);
        assert(0 * s == 0);
        assert(seg_entries(s, ids)[0] == seg_upto(s, ids, n)[0]);
        lemma_count_step(n - 1, s);
        vstd::arithmetic::div_mod::lemma_div_is_ordered(n - 1, n as int, s);
    }
}

/// The files that the writer of a delta text ends with are, once
/// opened, a valid text whose ids are those that were written, in
/// segments of the size that the writer had. This holds for ids less than
/// 2^32 - 1 and a segment size of less than 2^54 - 1.
#[verifier::rlimit(50)]
pub proof fn lemma_delta_text_round_trip(segment_size: usize, ids: Seq<u32>, t: Delta)
    requires
        0 < segment_size < 0x3f_ffff_ffff_ffff,
        ids.len() <= u32::MAX,
        forall|k: int| 0 <= k < ids.len() ==> (#[trigger] ids[k]) < u32::MAX,
        !seg_overflow(segment_size as int, ids, ids.len()),
        bit_of(ids, ids.len()) <= u32::MAX,
        t.text@ == le_words(stream_file(segment_size as u64, ids)),
        t.seg@ == le_u32s(u32s_le(seg_entries(segment_size as int, ids))),
        t.segment_size == header_segment_size(t.text@),
        t.positions == header_positions(t.text@),
    ensures
        header_ok(t.text@),
        t.segment_size == segment_size,
        t.positions == ids.len(),
        t.wf(),
        t@ == ids,
{
    let s = segment_size as int;
    let n = ids.len();
    let file = stream_file(segment_size as u64, ids);
    let mem = t.text@;
    lemma_stream_file_parts(segment_size as u64, ids);
    lemma_file_holds(file, 16, header_code(segment_size as u64, n as u64));
    lemma_file_holds(file, 32, ids_code(ids, n));
    lemma_header_read(mem, segment_size as u64, n as u64);
    lemma_ids_read(mem, 256, ids, n);
    lemma_u32s_round_trip(seg_entries(s, ids));
    lemma_segment_count(s, ids);
    assert(ids.take(n as int) =~= ids);
    assert forall|k: int| 0 <= k < t.seg@.len() && k * t.seg_size() <= t.positions implies #[trigger] t.seg@[k] as int
        == ids_end(t.text@, t.start(), (k * t.seg_size()) as nat) by {
        lemma_segment_entry(mem, s, ids, k);
    }
}

/// The file that the writer of an array text ends with is, once
/// opened, a valid text whose ids are those that were written.
pub proof fn lemma_int_text_round_trip(ids: Seq<u32>, t: crate::text::Int)
    requires
        t.text@ == le_u32s(crate::textwriter::int_file(ids)),
        t.positions == crate::textwriter::int_file(ids).len() / 4 - 4,
    ensures
        t.wf(),
        t@ == ids,
{
    let file = crate::textwriter::int_file(ids);
    let head = head16(crate::textwriter::int_magic());
    let body = u32s_le(ids);
    assert(head.len() == 16);
    assert(file.len() == 16 + 4 * ids.len());
    assert(item_count(file.len() as int, 4) == 4 + ids.len());
    assert forall|k: int| 0 <= k < ids.len() implies #[trigger] t@[k] == ids[k] by {
        lemma_u32_of_bytes(ids[k]);
        assert(t@[k] == le_u32(file, 4 + k));
        assert(byte_or_zero(file, 4 * (4 + k)) == le_byte_of(ids[k] as u64, 0)) by {
            assert(file[16 + 4 * k] == body[4 * k]);
        }
        assert(byte_or_zero(file, 4 * (4 + k) + 1) == le_byte_of(ids[k] as u64, 1)) by {
            assert(file[16 + 4 * k + 1] == body[4 * k + 1]);
        }
        assert(byte_or_zero(file, 4 * (4 + k) + 2) == le_byte_of(ids[k] as u64, 2)) by {
            assert(file[16 + 4 * k + 2] == body[4 * k + 2]);
        }
        assert(byte_or_zero(file, 4 * (4 + k) + 3) == le_byte_of(ids[k] as u64, 3)) by {
            assert(file[16 + 4 * k + 3] == body[4 * k + 3]);
        }
    }
    assert(t@ =~= ids);
}

/// The file of ranges of 32-bit pairs that the writer of a structure
/// writes is, once opened, the ranges that were written, for positions of
/// no more than 32 bits.
pub proof fn lemma_ranges_round_trip(ranges: Seq<(u64, u64)>, s: crate::structure::MapStructure32)
    requires
        forall|k: int|
            0 <= k < ranges.len() ==> (#[trigger] ranges[k]).0 <= u32::MAX && ranges[k].1
                <= u32::MAX,
        ranges.len() <= crate::structure::MAX_RANGES,
        s.rng@ == le_u32s(crate::encoder::rng_bytes(false, ranges, ranges.len())),
        s.count == crate::encoder::rng_bytes(false, ranges, ranges.len()).len() / 8,
    ensures
        crate::structure::Struct::wf(&s),
        crate::structure::Struct::ranges(&s) == ranges,
{
    lemma_rng_words(ranges);
    let got = crate::structure::Struct::ranges(&s);
    assert(got.len() == ranges.len());
    assert forall|k: int| 0 <= k < ranges.len() implies got[k] == ranges[k] by {
        lemma_range_at(ranges, s.rng@, k);
    }
    assert(got =~= ranges);
}

/// The file of ranges of 32-bit pairs, read as 32-bit numbers, is the
/// beginnings and ends of the ranges, one after the other.
proof fn lemma_rng_words(ranges: Seq<(u64, u64)>)
    ensures
        crate::encoder::rng_bytes(false, ranges, ranges.len()).len() == 8 * ranges.len(),
        le_u32s(crate::encoder::rng_bytes(false, ranges, ranges.len())) == flat_pairs(
            ranges,
            ranges.len(),
        ),
        flat_pairs(ranges, ranges.len()).len() == 2 * ranges.len(),
{
    let flat = flat_pairs(ranges, ranges.len());
    lemma_rng_flat(ranges, ranges.len());
    lemma_u32s_round_trip(flat);
    assert(u32s_le(flat).len() == 4 * flat.len());
}

/// Range `k` stands in the numbers of the file as its beginning and
/// its end, at `2 * k` and behind it.
proof fn lemma_range_at(ranges: Seq<(u64, u64)>, words: Seq<u32>, k: int)
    requires
        0 <= k < ranges.len(),
        ranges[k].0 <= u32::MAX,
        ranges[k].1 <= u32::MAX,
        words == flat_pairs(ranges, ranges.len()),
    ensures
        (words[2 * k] as u64, words[2 * k + 1] as u64) == ranges[k],
{
    lemma_flat_at(ranges, ranges.len(), k);
}

/// The beginnings and ends of the first `n` ranges, one after the
/// other.
pub open spec fn flat_pairs(ranges: Seq<(u64, u64)>, n: nat) -> Seq<u32>
    decreases n,
{
    if n == 0 {
        Seq::empty()
    } else {
        flat_pairs(ranges, (n - 1) as nat).push(ranges[n - 1].0 as u32).push(ranges[n - 1].1 as u32)
    }
}

proof fn lemma_rng_flat(ranges: Seq<(u64, u64)>, n: nat)
    ensures
        crate::encoder::rng_bytes(false, ranges, n) == u32s_le(flat_pairs(ranges, n)),
        flat_pairs(ranges, n).len() == 2 * n,
    decreases n,
{
    if n > 0 {
        lemma_rng_flat(ranges, (n - 1) as nat);
        let before = flat_pairs(ranges, (n - 1) as nat);
        let b = ranges[n - 1].0 as u32;
        let e = ranges[n - 1].1 as u32;
        crate::util::lemma_u32s_le_push(before, b);
        crate::util::lemma_u32s_le_push(before.push(b), e);
        assert(crate::encoder::rng_bytes(false, ranges, n) =~= u32s_le(flat_pairs(ranges, n)));
    } else {
        assert(crate::encoder::rng_bytes(false, ranges, 0) =~= u32s_le(flat_pairs(ranges, 0)));
    }
}

proof fn lemma_flat_at(ranges: Seq<(u64, u64)>, n: nat, k: int)
    requires
        0 <= k < n,
    ensures
        flat_pairs(ranges, n).len() == 2 * n,
        flat_pairs(ranges, n)[2 * k] == ranges[k].0 as u32,
        flat_pairs(ranges, n)[2 * k + 1] == ranges[k].1 as u32,
    decreases n,
{
    lemma_rng_flat(ranges, n);
    lemma_rng_flat(ranges, (n - 1) as nat);
    if k < n - 1 {
        lemma_flat_at(ranges, (n - 1) as nat, k);
    }
}

/// The files that the writer of an attribute with a delta text ends
/// with are, once opened, a valid text and a valid lexicon that give for
/// every position the value that was written for it. This holds for
/// values without a zero byte and a segment size of less than 2^54 - 1.
#[verifier::rlimit(50)]
pub proof fn lemma_attribute_round_trip(
    w: crate::encoder::AttrWriter,
    files: crate::encoder::AttrFiles,
    t: Delta,
    l: crate::lex::MapLex,
)
    requires
        w.wf(),
        w.text is Delta,
        w.text->Delta_0.segment_size < 0x3f_ffff_ffff_ffff,
        forall|i: int| 0 <= i < w.lex@.len() ==> crate::lextrip::no_zero(#[trigger] w.lex@[i]),
        w.ends_with(&files),
        files.text is Delta,
        t.text@ == le_words(files.text->Delta_0.text@),
        t.seg@ == le_u32s(files.text->Delta_0.seg@),
        t.segment_size == header_segment_size(t.text@),
        t.positions == header_positions(t.text@),
        l.lex@ == files.lex.lex@,
        l.idx@ == le_u32s(files.lex.idx@),
        l.srt@ == le_u32s(files.lex.srt@),
        l.count == files.lex.srt@.len() / 4,
    ensures
        t.wf(),
        l.wf(),
        t@ == w.text.ids(),
        t@.len() == w.column().len(),
        forall|p: int|
            0 <= p < t@.len() ==> l.has_id(t@[p]) && (#[trigger] l.string_of(t@[p]))
                == vstd::utf8::encode_utf8(w.column()[p]),
{
    let dw = w.text->Delta_0;
    let ids = dw@;
    let values = w.lex@;
    let df = files.text->Delta_0;
    assert(forall|k: int| 0 <= k < ids.len() ==> (#[trigger] ids[k]) < u32::MAX);
    lemma_delta_text_round_trip(dw.segment_size, ids, t);
    let srt = choose|srt: Seq<u32>|
        files.lex.srt@ == u32s_le(srt) && #[trigger] crate::lexwriter::is_sorted_ids(
            files.lex.lex@,
            crate::lexwriter::lex_offsets(values),
            srt,
        );
    lemma_u32s_round_trip(srt);
    lemma_u32s_round_trip(crate::lexwriter::lex_offsets(values));
    crate::lextrip::lemma_sorted_ids(srt, values.len());
    assert(files.lex.srt@.len() == 4 * srt.len());
    assert forall|i: int, j: int| 0 <= i < j < values.len() implies (#[trigger] values[i]) != (
    #[trigger] values[j]) by {
        assert(w.lex.map@[values[i]] == i);
        assert(w.lex.map@[values[j]] == j);
    }
    crate::lextrip::lemma_lexicon_files(values, srt, l);
    assert forall|p: int| 0 <= p < t@.len() implies l.has_id(t@[p]) && (#[trigger] l.string_of(
        t@[p],
    )) == vstd::utf8::encode_utf8(w.column()[p]) by {
        let id = ids[p];
        assert(id < values.len());
        assert(l.has_id(id));
        assert(l.string_of(id) == vstd::utf8::encode_utf8(values[id as int]));
    }
}

} // verus!
