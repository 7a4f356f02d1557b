//! What the writer of a text with a two-level index writes is what its
//! reader reads: the files are a valid text with the ids that were
//! written, each run of 64 found through the indexes.

use vstd::prelude::*;
use crate::bits::ids_ok;
use crate::codec::{holds, lemma_delta_code_shape, lemma_file_holds, lemma_holds_parts, lemma_ids_read};
use crate::roundtrip::{lemma_count_step, lemma_header_read, lemma_u32s_round_trip, seg_count};
use crate::text::{header_ok, header_positions, GigaDelta};
use crate::textwriter::{
    TextWriter,
    byte_pad,
    fresh_stream,
    giga_base,
    giga_bit,
    giga_byte,
    giga_file,
    giga_offs,
    giga_segs,
    giga_sound,
    head16,
    header_code,
    ids_code,
    lemma_runs_grow,
    overwrite,
    runs_code,
    runs_lead,
    text_magic,
};
use crate::util::{byte_or_zero, item_count, le_byte_of, le_u16, le_u16s, le_u32s, le_words, u16s_le, u32s_le};
use crate::wrbits::{delta_code, packed};

verus! {

proof fn lemma_u16_of_bytes(x: u16)
    by (bit_vector)
    ensures
        ((((x as u64) >> 0) as u8) as u16) | (((((x as u64) >> 8) as u8) as u16) << 8) == x,
{
}

/// Numbers of 16 bits that are written as bytes are read back as they
/// were.
pub proof fn lemma_u16s_round_trip(v: Seq<u16>)
    ensures
        le_u16s(u16s_le(v)) == v,
{
    let bytes = u16s_le(v);
    assert(item_count(bytes.len() as int, 2) == v.len());
    assert forall|k: int| 0 <= k < v.len() implies le_u16(bytes, k) == #[trigger] v[k] by {
        lemma_u16_of_bytes(v[k]);
        assert(byte_or_zero(bytes, 2 * k) == le_byte_of(v[k] as u64, 0));
        assert(byte_or_zero(bytes, 2 * k + 1) == le_byte_of(v[k] as u64, 1));
    }
    assert(le_u16s(bytes) =~= v);
}

/// The bits of more ids open with the bits of the fewer.
pub proof fn lemma_runs_open(ids: Seq<u32>, a: nat, b: nat)
    requires
        a <= b,
    ensures
        runs_code(ids, a).len() <= runs_code(ids, b).len(),
        runs_code(ids, b).subrange(0, runs_code(ids, a).len() as int) == runs_code(ids, a),
    decreases b,
{
    let x = runs_code(ids, a);
    if a < b {
        lemma_runs_open(ids, a, (b - 1) as nat);
        let y = runs_code(ids, (b - 1) as nat);
        assert(runs_code(ids, b).subrange(0, x.len() as int) =~= y.subrange(0, x.len() as int));
    } else {
        assert(runs_code(ids, b).subrange(0, x.len() as int) =~= x);
    }
}

/// The bits up to a position within a run are the bits before the run
/// and the delta codes of the ids of the run up to that position.
pub proof fn lemma_run_code(ids: Seq<u32>, j: nat, m: nat)
    requires
        1 <= m <= 64,
        64 * j + m <= ids.len(),
    ensures
        runs_code(ids, 64 * j + m) == runs_lead(ids, 64 * j) + ids_code(ids.skip(64 * j as int), m),
    decreases m,
{
    let rest = ids.skip(64 * j as int);
    let lead = runs_lead(ids, 64 * j);
    let k = (64 * j + m - 1) as nat;
    assert(rest[m - 1] == ids[k as int]);
    let d = delta_code((ids[k as int] + 1) as u64);
    if m == 1 {
        assert(ids_code(rest, 0) =~= Seq::<bool>::empty());
        assert(ids_code(rest, 1) =~= d);
        assert(runs_code(ids, 64 * j + m) =~= lead + ids_code(rest, m));
    } else {
        lemma_run_code(ids, j, (m - 1) as nat);
        assert(k % 64 != 0);
        assert(runs_code(ids, 64 * j + m) == runs_code(ids, k) + d);
        assert(runs_code(ids, 64 * j + m) =~= lead + ids_code(rest, m));
    }
}

/// A position that begins a run begins at a byte boundary.
pub proof fn lemma_run_at_byte(ids: Seq<u32>, j: nat)
    ensures
        giga_bit(ids, 64 * j) == 8 * giga_byte(ids, 64 * j),
{
    let c = runs_code(ids, 64 * j);
    assert((c.len() + byte_pad(c.len())) % 8 == 0);
}

/// The segment index has an entry for every run of 1024 begun: the
/// number of the block in which the run begins.
pub proof fn lemma_giga_segs(ids: Seq<u32>, n: nat)
    requires
        giga_sound(ids, n),
    ensures
        giga_segs(ids, n).len() == seg_count(n as int, 1024),
        forall|q: int|
            0 <= q < giga_segs(ids, n).len() ==> #[trigger] giga_segs(ids, n)[q] as int == giga_byte(
                ids,
                (1024 * q) as nat,
            ) / 2048,
    decreases n,
{
    if n > 0 {
        let m = (n - 1) as nat;
        lemma_giga_segs(ids, m);
        lemma_count_step(m as int, 1024);
        let before = giga_segs(ids, m);
        let now = giga_segs(ids, n);
        if m % 1024 == 0 {
            assert forall|q: int| 0 <= q < now.len() implies #[trigger] now[q] as int == giga_byte(
                ids,
                (1024 * q) as nat,
            ) / 2048 by {
                if q < before.len() {
                    assert(now[q] == before[q]);
                } else {
                    assert(1024 * q == m);
                }
            }
        }
    } else {
        lemma_count_step(0, 1024);
    }
}

/// The index of offsets has an entry for every run of 64 begun: the
/// distance in bytes of the run from the beginning of its block.
pub proof fn lemma_giga_offs(ids: Seq<u32>, n: nat)
    requires
        giga_sound(ids, n),
    ensures
        giga_offs(ids, n).len() == seg_count(n as int, 64),
        forall|j: int|
            0 <= j < giga_offs(ids, n).len() ==> #[trigger] giga_offs(ids, n)[j] as int == giga_byte(
                ids,
                (64 * j) as nat,
            ) - giga_base(ids, (64 * j) as nat),
    decreases n,
{
    if n > 0 {
        let m = (n - 1) as nat;
        lemma_giga_offs(ids, m);
        lemma_count_step(m as int, 64);
        let before = giga_offs(ids, m);
        let now = giga_offs(ids, n);
        if m % 64 == 0 {
            lemma_runs_grow(ids, (m / 1024 * 1024) as nat, m);
            assert forall|j: int| 0 <= j < now.len() implies #[trigger] now[j] as int == giga_byte(
                ids,
                (64 * j) as nat,
            ) - giga_base(ids, (64 * j) as nat) by {
                if j < before.len() {
                    assert(now[j] == before[j]);
                } else {
                    assert(64 * j == m);
                }
            }
        }
    } else {
        lemma_count_step(0, 64);
    }
}

/// The file of a text in runs has the header for its ids from byte 16
/// on, in no more than 16 bytes, and the bits of its ids from byte 32 on.
#[verifier::rlimit(50)]
pub proof fn lemma_giga_file_parts(ids: Seq<u32>)
    requires
        ids.len() <= u32::MAX,
    ensures
        packed(header_code(64, ids.len() as u64)).len() <= 16,
        16 + packed(header_code(64, ids.len() as u64)).len() <= giga_file(ids).len(),
        giga_file(ids).subrange(16, (16 + packed(header_code(64, ids.len() as u64)).len()) as int)
            == packed(header_code(64, ids.len() as u64)),
        32 + packed(runs_code(ids, ids.len())).len() <= giga_file(ids).len(),
        giga_file(ids).subrange(32, (32 + packed(runs_code(ids, ids.len())).len()) as int)
            == packed(runs_code(ids, ids.len())),
{
    let n = ids.len() as u64;
    lemma_delta_code_shape(65);
    lemma_delta_code_shape((n + 1) as u64);
    lemma_delta_code_shape(1);
    crate::mkrev::lemma_delta_one();
    let h0 = head16(text_magic()) + packed(header_code(64, 0));
    assert(head16(text_magic()).len() == 16);
    assert(h0.len() <= 26);
    let fresh = fresh_stream(64);
    assert(fresh.len() == 32);
    let data = packed(runs_code(ids, ids.len()));
    let h = packed(header_code(64, n));
    let f = fresh + data;
    let file = giga_file(ids);
    assert(file == overwrite(f, 16, h));
    assert(file.subrange(16, (16 + h.len()) as int) =~= h);
    assert(file.subrange(32, (32 + data.len()) as int) =~= data);
}

/// In a buffer that holds the bits of a text in runs from bit 256 on,
/// the reader that begins at a run reads the ids of the run.
pub proof fn lemma_run_read(mem: Seq<u64>, ids: Seq<u32>, j: nat, m: nat)
    requires
        1 <= m <= 64,
        64 * j + m <= ids.len(),
        forall|k: int| 0 <= k < ids.len() ==> (#[trigger] ids[k]) < u32::MAX,
        holds(mem, 256, runs_code(ids, ids.len())),
        256 + runs_code(ids, ids.len()).len() <= usize::MAX,
    ensures
        giga_bit(ids, 64 * j) <= usize::MAX,
        ids_ok(mem, giga_bit(ids, 64 * j), m),
        crate::bits::ids(mem, giga_bit(ids, 64 * j), m) == ids.subrange(
            64 * j as int,
            64 * j + m as int,
        ),
{
    let n = ids.len();
    let upto = (64 * j + m) as nat;
    let rest = ids.skip(64 * j as int);
    let lead = runs_lead(ids, 64 * j);
    let code = ids_code(rest, m);
    lemma_runs_open(ids, upto, n);
    lemma_run_code(ids, j, m);
    let all = runs_code(ids, n);
    let part = runs_code(ids, upto);
    assert(holds(mem, 256, part)) by {
        assert forall|i: int| 0 <= i < part.len() implies crate::bits::bit_at(mem, 256 + i)
            == #[trigger] part[i] by {
            assert(all.subrange(0, part.len() as int)[i] == all[i]);
        }
    }
    lemma_holds_parts(mem, 256, lead, code);
    lemma_ids_read(mem, giga_bit(ids, 64 * j), rest, m);
    assert(rest.take(m as int) =~= ids.subrange(64 * j as int, 64 * j + m as int));
}

/// A buffer read from the file of a text in runs has the header for
/// the number of its ids, and holds their bits from bit 256 on.
pub proof fn lemma_giga_header(ids: Seq<u32>, mem: Seq<u64>)
    requires
        ids.len() <= u32::MAX,
        mem == le_words(giga_file(ids)),
    ensures
        header_ok(mem),
        header_positions(mem) == ids.len(),
        holds(mem, 256, runs_code(ids, ids.len())),
{
    let n = ids.len();
    let file = giga_file(ids);
    lemma_giga_file_parts(ids);
    lemma_file_holds(file, 16, header_code(64, n as u64));
    lemma_file_holds(file, 32, runs_code(ids, n));
    lemma_header_read(mem, 64, n as u64);
}

/// In a text opened from what the writer ends with, each run can be
/// read at the bit at which the writer began it, and has the ids that
/// were written.
pub proof fn lemma_giga_run(ids: Seq<u32>, t: GigaDelta, j: int)
    requires
        forall|k: int| 0 <= k < ids.len() ==> (#[trigger] ids[k]) < u32::MAX,
        giga_sound(ids, ids.len()),
        256 + runs_code(ids, ids.len()).len() <= usize::MAX,
        holds(t.text@, 256, runs_code(ids, ids.len())),
        t.segment@ == giga_segs(ids, ids.len()),
        t.offset@ == giga_offs(ids, ids.len()),
        t.positions == ids.len(),
        0 <= j,
        64 * j < ids.len(),
    ensures
        t.block_start(j) == giga_bit(ids, (64 * j) as nat),
        t.run_ok(j),
        t.run(j) == ids.subrange(64 * j, 64 * j + t.run_len(j)),
{
    lemma_run_start(ids, ids.len(), j);
    lemma_run_read(t.text@, ids, j as nat, t.run_len(j));
}

/// A text whose runs can each be read, with the ids that were written,
/// is valid and has those ids.
pub proof fn lemma_giga_runs(ids: Seq<u32>, t: GigaDelta)
    requires
        forall|k: int| 0 <= k < ids.len() ==> (#[trigger] ids[k]) < u32::MAX,
        giga_sound(ids, ids.len()),
        256 + runs_code(ids, ids.len()).len() <= usize::MAX,
        holds(t.text@, 256, runs_code(ids, ids.len())),
        t.segment@ == giga_segs(ids, ids.len()),
        t.offset@ == giga_offs(ids, ids.len()),
        t.positions == ids.len(),
    ensures
        t.wf(),
        t@ == ids,
        forall|j: int|
            0 <= j && 64 * j < ids.len() ==> #[trigger] t.block_start(j) == giga_bit(
                ids,
                (64 * j) as nat,
            ),
{
    let n = ids.len();
    assert forall|j: int| 0 <= j && 64 * j < n implies #[trigger] t.run_ok(j) by {
        lemma_giga_run(ids, t, j);
    }
    assert forall|j: int| 0 <= j && 64 * j < n implies #[trigger] t.block_start(j) == giga_bit(
        ids,
        (64 * j) as nat,
    ) by {
        lemma_giga_run(ids, t, j);
    }
    assert forall|p: int| 0 <= p < n implies t@[p] == ids[p] by {
        let j = p / 64;
        let r = p % 64;
        lemma_giga_run(ids, t, j);
        assert(t@[p] == t.run(j)[r]);
        assert(ids.subrange(64 * j, 64 * j + t.run_len(j))[r] == ids[64 * j + r]);
    }
    assert(t@ =~= ids);
}

/// The files that the writer of a text with a two-level index ends
/// with are, once opened, a valid text whose ids are those that were
/// written, each run at the bit at which the writer began it. This holds
/// for ids less than 2^32 - 1, where every bit of the file has a
/// position.
pub proof fn lemma_giga_text_round_trip(ids: Seq<u32>, t: GigaDelta)
    requires
        ids.len() <= u32::MAX,
        forall|k: int| 0 <= k < ids.len() ==> (#[trigger] ids[k]) < u32::MAX,
        giga_sound(ids, ids.len()),
        256 + runs_code(ids, ids.len()).len() <= usize::MAX,
        t.text@ == le_words(giga_file(ids)),
        t.segment@ == le_u32s(u32s_le(giga_segs(ids, ids.len()))),
        t.offset@ == le_u16s(u16s_le(giga_offs(ids, ids.len()))),
        t.positions == header_positions(t.text@),
    ensures
        header_ok(t.text@),
        t.positions == ids.len(),
        t.wf(),
        t@ == ids,
        forall|j: int|
            0 <= j && 64 * j < ids.len() ==> #[trigger] t.block_start(j) == giga_bit(
                ids,
                (64 * j) as nat,
            ),
{
    let n = ids.len();
    lemma_giga_header(ids, t.text@);
    lemma_u32s_round_trip(giga_segs(ids, n));
    lemma_u16s_round_trip(giga_offs(ids, n));
    lemma_giga_runs(ids, t);
}

/// The files that the writer of an attribute with a text in runs ends
/// with are, once opened, a valid text and a valid lexicon that give for
/// every position the value that was written for it. This holds for
/// values without a zero byte, where every bit of the text has a
/// position.
#[verifier::rlimit(50)]
pub proof fn lemma_giga_attribute_round_trip(
    w: crate::encoder::AttrWriter,
    files: crate::encoder::AttrFiles,
    t: GigaDelta,
    l: crate::lex::MapLex,
)
    requires
        w.wf(),
        w.text is GigaDelta,
        256 + runs_code(w.text.ids(), w.text.ids().len()).len() <= usize::MAX,
        forall|i: int| 0 <= i < w.lex@.len() ==> crate::lextrip::no_zero(#[trigger] w.lex@[i]),
        w.ends_with(&files),
        files.text is GigaDelta,
        t.text@ == le_words(files.text->GigaDelta_0.text@),
        t.segment@ == le_u32s(files.text->GigaDelta_0.seg@),
        t.offset@ == le_u16s(files.text->GigaDelta_0.off@),
        t.positions == header_positions(t.text@),
        l.lex@ == files.lex.lex@,
        l.idx@ == le_u32s(files.lex.idx@),
        l.srt@ == le_u32s(files.lex.srt@),
        l.count == files.lex.srt@.len() / 4,
    ensures
        t.wf(),
        l.wf(),
        t@ == w.text.ids(),
        t@.len() == w.column().len(),
        forall|p: int|
            0 <= p < t@.len() ==> l.has_id(t@[p]) && (#[trigger] l.string_of(t@[p]))
                == vstd::utf8::encode_utf8(w.column()[p]),
{
    let gw = w.text->GigaDelta_0;
    let ids = gw@;
    let values = w.lex@;
    assert(forall|k: int| 0 <= k < ids.len() ==> (#[trigger] ids[k]) < u32::MAX);
    lemma_giga_text_round_trip(ids, t);
    let srt = choose|srt: Seq<u32>|
        files.lex.srt@ == u32s_le(srt) && #[trigger] crate::lexwriter::is_sorted_ids(
            files.lex.lex@,
            crate::lexwriter::lex_offsets(values),
            srt,
        );
    lemma_u32s_round_trip(srt);
    lemma_u32s_round_trip(crate::lexwriter::lex_offsets(values));
    crate::lextrip::lemma_sorted_ids(srt, values.len());
    assert(files.lex.srt@.len() == 4 * srt.len());
    assert forall|i: int, j: int| 0 <= i < j < values.len() implies (#[trigger] values[i]) != (
    #[trigger] values[j]) by {
        assert(w.lex.map@[values[i]] == i);
        assert(w.lex.map@[values[j]] == j);
    }
    crate::lextrip::lemma_lexicon_files(values, srt, l);
    assert forall|p: int| 0 <= p < t@.len() implies l.has_id(t@[p]) && (#[trigger] l.string_of(
        t@[p],
    )) == vstd::utf8::encode_utf8(w.column()[p]) by {
        let id = ids[p];
        assert(id < values.len());
        assert(l.has_id(id));
        assert(l.string_of(id) == vstd::utf8::encode_utf8(values[id as int]));
    }
}

/// In the indexes of a writer that met no fault, the block of a run
/// and the offset of the run into it give the bit at which the run
/// begins: the block number times 16384, and the offset times 8.
pub proof fn lemma_run_start(ids: Seq<u32>, n: nat, j: int)
    requires
        giga_sound(ids, n),
        0 <= j,
        64 * j < n,
    ensures
        j < giga_offs(ids, n).len(),
        j / 16 < giga_segs(ids, n).len(),
        giga_segs(ids, n)[j / 16] * 16384 + giga_offs(ids, n)[j] * 8 == giga_bit(
            ids,
            (64 * j) as nat,
        ),
{
    lemma_giga_segs(ids, n);
    lemma_giga_offs(ids, n);
    lemma_run_at_byte(ids, j as nat);
    let q = j / 16;
    assert((64 * j) / 1024 == q);
    assert(1024 * q <= 64 * j);
    assert(j < seg_count(n as int, 64));
    assert(q < seg_count(n as int, 1024));
    assert(giga_base(ids, (64 * j) as nat) == giga_byte(ids, (1024 * q) as nat) / 2048 * 2048);
    assert(giga_segs(ids, n)[q] as int == giga_byte(ids, (1024 * q) as nat) / 2048);
    assert(giga_offs(ids, n)[j] as int == giga_byte(ids, (64 * j) as nat) - giga_base(
        ids,
        (64 * j) as nat,
    ));
}

} // verus!
