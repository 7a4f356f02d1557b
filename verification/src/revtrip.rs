//! What the builder of the dense reverse index writes is what its reader
//! finds: the walk through the records of a group gives the byte offset
//! and the count of each id.

use vstd::prelude::*;
use crate::bits::{delta_at, delta_end, delta_ok, gamma_at, gamma_end, gamma_ok};
use crate::codec::{
    holds,
    lemma_delta_code_shape,
    lemma_delta_read,
    lemma_file_holds,
    lemma_gamma_code_shape,
    lemma_gamma_read,
    lemma_holds_parts,
};
use crate::mkrev::{
    gaps_code,
    posting_offset,
    postings_bits,
    postings_error,
    aligned,
    entries_code,
    group_code,
    group_count,
    group_offset,
    group_offsets,
    group_size,
    has_zero_step,
    index_bits,
    off_step,
    prev_off,
};
use crate::rev::{list_of, list_ok, located, record_end, records_ok};
use crate::wrbits::{delta_code, gamma_code, packed};

verus! {

/// `a` records and then `b` records are `a + b` records.
pub proof fn lemma_records_split(mem: Seq<u64>, pos: int, a: nat, b: nat, seek: int, cnt: int)
    ensures
        records_ok(mem, pos, a + b, seek) == (records_ok(mem, pos, a, seek) && records_ok(
            mem,
            records_end(mem, pos, a),
            b,
            located(mem, pos, a, seek, cnt).0,
        )),
        located(mem, pos, a + b, seek, cnt) == located(
            mem,
            records_end(mem, pos, a),
            b,
            located(mem, pos, a, seek, cnt).0,
            located(mem, pos, a, seek, cnt).1,
        ),
        forall|c: int| located(mem, pos, a, seek, c).0 == located(mem, pos, a, seek, cnt).0,
        records_end(mem, pos, a + b) == records_end(mem, records_end(mem, pos, a), b),
    decreases a,
{
    if a > 0 {
        let next = record_end(mem, pos);
        let s = seek + delta_at(mem, pos);
        let c = gamma_at(mem, delta_end(mem, pos)) - 1;
        lemma_records_split(mem, next, (a - 1) as nat, b, s, c);
        assert((a + b - 1) as nat == (a - 1) as nat + b);
        assert forall|x: int| located(mem, pos, a, seek, x).0 == located(mem, pos, a, seek, cnt).0 by {}
    }
}

/// Bit position behind `n` records from bit `pos`.
pub open spec fn records_end(mem: Seq<u64>, pos: int, n: nat) -> int
    decreases n,
{
    if n == 0 {
        pos
    } else {
        records_end(mem, record_end(mem, pos), (n - 1) as nat)
    }
}

/// The offsets of a group never decrease, so that their steps add up to
/// them.
pub open spec fn group_rising(offs: Seq<u32>, lo: int, n: nat) -> bool {
    forall|i: int, j: int| lo <= i <= j < lo + n ==> (#[trigger] offs[i]) <= (#[trigger] offs[j])
}

/// A buffer that holds the records of the first `n` ids of a group gives
/// to the reader, for the last of them, its byte offset and its count.
pub proof fn lemma_entries_read(
    mem: Seq<u64>,
    pos: int,
    offs: Seq<u32>,
    lens: Seq<nat>,
    lo: int,
    n: nat,
)
    requires
        0 <= pos,
        0 <= lo,
        lo + n <= offs.len(),
        offs.len() == lens.len(),
        group_rising(offs, lo, n),
        !has_zero_step(offs, lo, n),
        forall|i: int| lo <= i < lo + n ==> (#[trigger] lens[i]) + 1 < 0x1_0000_0000,
        holds(mem, pos, entries_code(offs, lens, lo, n)),
        pos + entries_code(offs, lens, lo, n).len() <= usize::MAX,
    ensures
        records_ok(mem, pos, n, 0),
        records_end(mem, pos, n) == pos + entries_code(offs, lens, lo, n).len(),
        n > 0 ==> located(mem, pos, n, 0, 0) == (offs[lo + n - 1] as int, lens[lo + n - 1] as int),
    decreases n,
{
    if n > 0 {
        let m = (n - 1) as nat;
        let i = lo + m;
        let step = off_step(offs, lo, i) as u64;
        let count = (lens[i] + 1) as u64;
        let before = entries_code(offs, lens, lo, m);
        let d = delta_code(step);
        let g = gamma_code(count);
        assert(entries_code(offs, lens, lo, n) == before + d + g);
        lemma_holds_parts(mem, pos, before + d, g);
        lemma_holds_parts(mem, pos, before, d);
        assert(!has_zero_step(offs, lo, m));
        assert(group_rising(offs, lo, m));
        lemma_entries_read(mem, pos, offs, lens, lo, m);
        let p = pos + before.len();
        lemma_delta_code_shape(step);
        lemma_delta_read(mem, p, step);
        lemma_gamma_code_shape(count);
        lemma_gamma_read(mem, p + d.len(), count);
        lemma_records_split(mem, pos, m, 1, 0, 0);
        let seek_before = located(mem, pos, m, 0, 0).0;
        assert(seek_before == prev_off(offs, lo, i)) by {
            if m > 0 {
                assert(located(mem, pos, m, 0, 0) == (offs[lo + m - 1] as int, lens[lo + m - 1] as int));
            } else {
                assert(located(mem, pos, 0, 0, 0) == (0int, 0int));
            }
        }
        assert(step == offs[i] - prev_off(offs, lo, i)) by {
            if m > 0 {
                let h = i - 1;
                assert(offs[h] <= offs[i]);
            }
        }
        assert(records_ok(mem, p, 1, seek_before) && located(
            mem,
            p,
            1,
            seek_before,
            located(mem, pos, m, 0, 0).1,
        ) == (offs[i] as int, lens[i] as int) && records_end(mem, p, 1) == p + d.len() + g.len()) by {
            reveal_with_fuel(records_ok, 2);
            reveal_with_fuel(located, 2);
            reveal_with_fuel(records_end, 2);
        }
    }
}

/// The records of more ids of a group open with the records of the
/// fewer.
pub proof fn lemma_entries_open(offs: Seq<u32>, lens: Seq<nat>, lo: int, a: nat, b: nat)
    requires
        a <= b,
    ensures
        entries_code(offs, lens, lo, a).len() <= entries_code(offs, lens, lo, b).len(),
        entries_code(offs, lens, lo, b).subrange(0, entries_code(offs, lens, lo, a).len() as int)
            == entries_code(offs, lens, lo, a),
    decreases b,
{
    let x = entries_code(offs, lens, lo, a);
    let y = entries_code(offs, lens, lo, b);
    if a < b {
        lemma_entries_open(offs, lens, lo, a, (b - 1) as nat);
        let z = entries_code(offs, lens, lo, (b - 1) as nat);
        assert(y.subrange(0, x.len() as int) =~= z.subrange(0, x.len() as int));
    } else {
        assert(y.subrange(0, x.len() as int) =~= x);
    }
}

/// The stream of the first `m` groups holds the records of group `g`
/// where the stream of the groups before it ends, filled up to a byte.
pub proof fn lemma_group_in_stream(offs: Seq<u32>, lens: Seq<nat>, g: nat, m: nat)
    requires
        g < m,
    ensures
        aligned(index_bits(offs, lens, g)).len() % 8 == 0,
        aligned(index_bits(offs, lens, g)).len() + group_code(offs, lens, g as int).len()
            <= index_bits(offs, lens, m).len(),
        index_bits(offs, lens, m).subrange(
            aligned(index_bits(offs, lens, g)).len() as int,
            (aligned(index_bits(offs, lens, g)).len() + group_code(offs, lens, g as int).len()) as int,
        ) == group_code(offs, lens, g as int),
    decreases m,
{
    let a = aligned(index_bits(offs, lens, g)).len() as int;
    let code = group_code(offs, lens, g as int);
    let all = index_bits(offs, lens, m);
    if g == m - 1 {
        assert(all.subrange(a, a + code.len()) =~= code);
    } else {
        lemma_group_in_stream(offs, lens, g, (m - 1) as nat);
        let before = index_bits(offs, lens, (m - 1) as nat);
        assert(all.subrange(a, a + code.len()) =~= before.subrange(a, a + code.len()));
    }
}

/// Where no fault is met while the groups are written, every group
/// begins at a byte offset of 32 bits, and has no zero step.
pub proof fn lemma_index_sound(offs: Seq<u32>, lens: Seq<nat>, g: nat, m: nat)
    requires
        g < m,
        crate::mkrev::index_error(offs, lens, m) is None,
    ensures
        group_offset(offs, lens, g) <= u32::MAX,
        !has_zero_step(offs, (64 * g) as int, group_size(offs.len() as int, g as int)),
    decreases m,
{
    if g < m - 1 {
        lemma_index_sound(offs, lens, g, (m - 1) as nat);
    }
}

/// A buffer that holds the stream of the groups holds the records of
/// the first ids of each group where the group begins.
pub proof fn lemma_group_held(
    mem: Seq<u64>,
    offs: Seq<u32>,
    lens: Seq<nat>,
    g: nat,
    m: nat,
    k: nat,
)
    requires
        g < m,
        k <= group_size(offs.len() as int, g as int),
        holds(mem, 0, index_bits(offs, lens, m)),
    ensures
        holds(
            mem,
            aligned(index_bits(offs, lens, g)).len() as int,
            entries_code(offs, lens, (64 * g) as int, k),
        ),
        aligned(index_bits(offs, lens, g)).len() + entries_code(offs, lens, (64 * g) as int, k).len()
            <= index_bits(offs, lens, m).len(),
{
    let all = index_bits(offs, lens, m);
    let a = aligned(index_bits(offs, lens, g)).len() as int;
    let gs = group_size(offs.len() as int, g as int);
    let entries = entries_code(offs, lens, (64 * g) as int, gs);
    let code = group_code(offs, lens, g as int);
    let part = entries_code(offs, lens, (64 * g) as int, k);
    lemma_group_in_stream(offs, lens, g, m);
    lemma_entries_open(offs, lens, (64 * g) as int, k, gs);
    assert forall|j: int| 0 <= j < part.len() implies crate::bits::bit_at(mem, a + j) == #[trigger] part[j] by {
        assert(entries.subrange(0, part.len() as int)[j] == entries[j]);
        assert(code[j] == entries[j]);
        assert(all.subrange(a, a + code.len())[j] == all[a + j]);
        assert(crate::bits::bit_at(mem, 0 + (a + j)) == all[a + j]);
    }
}

/// An id is one of the first ids of its group.
pub proof fn lemma_group_of(n: int, id: int)
    requires
        0 <= id < n,
    ensures
        0 <= id / 64 < group_count(n),
        id % 64 + 1 <= group_size(n, id / 64),
        64 * (id / 64) + id % 64 == id,
{
}

/// In a buffer that holds the stream of the groups, the walk through
/// the records of the group of an id, up to its own, gives its byte offset
/// and its count.
#[verifier::rlimit(50)]
pub proof fn lemma_index_walk(mem: Seq<u64>, offs: Seq<u32>, lens: Seq<nat>, id: int)
    requires
        offs.len() == lens.len(),
        0 <= id < offs.len(),
        crate::mkrev::index_error(offs, lens, group_count(offs.len() as int)) is None,
        forall|i: int| 0 <= i < lens.len() ==> (#[trigger] lens[i]) + 1 < 0x1_0000_0000,
        forall|i: int, j: int|
            0 <= i <= j < offs.len() ==> (#[trigger] offs[i]) <= (#[trigger] offs[j]),
        holds(mem, 0, index_bits(offs, lens, group_count(offs.len() as int))),
        index_bits(offs, lens, group_count(offs.len() as int)).len() <= usize::MAX,
    ensures
        group_offset(offs, lens, (id / 64) as nat) <= u32::MAX,
        records_ok(mem, 8 * group_offset(offs, lens, (id / 64) as nat), (id % 64 + 1) as nat, 0),
        located(mem, 8 * group_offset(offs, lens, (id / 64) as nat), (id % 64 + 1) as nat, 0, 0) == (
            offs[id] as int,
            lens[id] as int,
        ),
{
    let n = offs.len() as int;
    let m = group_count(n);
    lemma_group_of(n, id);
    let g = (id / 64) as nat;
    let r = (id % 64) as nat;
    let lo = (64 * g) as int;
    let gs = group_size(n, g as int);
    lemma_index_sound(offs, lens, g, m);
    lemma_group_held(mem, offs, lens, g, m, r + 1);
    lemma_group_in_stream(offs, lens, g, m);
    let a = aligned(index_bits(offs, lens, g)).len() as int;
    assert(8 * group_offset(offs, lens, g) == a);
    assert(!has_zero_step(offs, lo, r + 1)) by {
        if has_zero_step(offs, lo, r + 1) {
            crate::mkrev::lemma_zero_step_stays(offs, lo, r + 1, gs);
        }
    }
    assert(group_rising(offs, lo, r + 1));
    lemma_entries_read(mem, a, offs, lens, lo, r + 1);
}

/// The index of groups that the builder writes for the byte offsets and
/// counts of the ids gives to the reader, for each id, its byte offset and
/// its count. This holds for byte offsets that never decrease and counts
/// of less than 2^32 - 1, in a file whose bits a machine word numbers.
#[verifier::rlimit(50)]
pub proof fn lemma_dense_index_round_trip(
    offs: Seq<u32>,
    lens: Seq<nat>,
    d: crate::rev::DeltaDense,
    id: u32,
)
    requires
        offs.len() == lens.len(),
        id < offs.len(),
        crate::mkrev::dense_index_error(offs, lens) is None,
        forall|i: int| 0 <= i < lens.len() ==> (#[trigger] lens[i]) + 1 < 0x1_0000_0000,
        forall|i: int, j: int|
            0 <= i <= j < offs.len() ==> (#[trigger] offs[i]) <= (#[trigger] offs[j]),
        d.crdxf1@ == crate::util::le_words(
            packed(index_bits(offs, lens, group_count(offs.len() as int))),
        ),
        d.crdxf0@ == group_offsets(offs, lens),
        8 * packed(index_bits(offs, lens, group_count(offs.len() as int))).len() <= usize::MAX,
    ensures
        d.has_record(id),
        d.record_of(id) == (offs[id as int] as int, lens[id as int] as int),
{
    let m = group_count(offs.len() as int);
    let all = index_bits(offs, lens, m);
    let file = packed(all);
    assert(file.subrange(0, file.len() as int) =~= file);
    lemma_file_holds(file, 0, all);
    lemma_group_of(offs.len() as int, id as int);
    lemma_index_walk(d.crdxf1@, offs, lens, id as int);
    let g = (id / 64) as int;
    assert(d.crdxf0@[g] == group_offset(offs, lens, g as nat) as u32);
}

/// The position before which `n` more positions of a posting list are
/// read, after the position `last`.
pub open spec fn list_last(mem: Seq<u64>, pos: int, n: nat, last: int) -> int
    decreases n,
{
    if n == 0 {
        last
    } else {
        list_last(mem, delta_end(mem, pos), (n - 1) as nat, last + crate::bits::id_at(mem, pos) + 1)
    }
}

/// `a` positions and then `b` positions are `a + b` positions.
pub proof fn lemma_list_split(mem: Seq<u64>, pos: int, a: nat, b: nat, last: int)
    ensures
        list_ok(mem, pos, a + b, last) == (list_ok(mem, pos, a, last) && list_ok(
            mem,
            crate::bits::ids_end(mem, pos, a),
            b,
            list_last(mem, pos, a, last),
        )),
        list_of(mem, pos, a + b, last) == list_of(mem, pos, a, last) + list_of(
            mem,
            crate::bits::ids_end(mem, pos, a),
            b,
            list_last(mem, pos, a, last),
        ),
        list_last(mem, pos, a + b, last) == list_last(
            mem,
            crate::bits::ids_end(mem, pos, a),
            b,
            list_last(mem, pos, a, last),
        ),
        crate::bits::ids_end(mem, pos, a + b) == crate::bits::ids_end(
            mem,
            crate::bits::ids_end(mem, pos, a),
            b,
        ),
        list_of(mem, pos, a, last).len() == a,
    decreases a,
{
    if a == 0 {
        assert(list_of(mem, pos, a + b, last) =~= list_of(mem, pos, a, last) + list_of(
            mem,
            crate::bits::ids_end(mem, pos, a),
            b,
            list_last(mem, pos, a, last),
        ));
    } else {
        let next = delta_end(mem, pos);
        let l = last + crate::bits::id_at(mem, pos) + 1;
        lemma_list_split(mem, next, (a - 1) as nat, b, l);
        assert((a + b - 1) as nat == (a - 1) as nat + b);
        assert(list_of(mem, pos, a + b, last) =~= list_of(mem, pos, a, last) + list_of(
            mem,
            crate::bits::ids_end(mem, pos, a),
            b,
            list_last(mem, pos, a, last),
        ));
    }
}

/// The positions of a list as numbers of 64 bits.
pub open spec fn widened(list: Seq<u32>) -> Seq<u64> {
    Seq::new(list.len(), |k: int| list[k] as u64)
}

/// A buffer that holds the gaps of the first `n` positions of a list
/// that increases gives those positions to the reader.
pub proof fn lemma_list_read(mem: Seq<u64>, pos: int, list: Seq<u32>, n: nat)
    requires
        0 <= pos,
        n <= list.len(),
        forall|i: int, j: int| 0 <= i < j < list.len() ==> (#[trigger] list[i]) < (#[trigger] list[j]),
        forall|i: int| 0 <= i < list.len() ==> (#[trigger] list[i]) < u32::MAX,
        holds(mem, pos, crate::mkrev::gaps_code(list, n)),
        pos + crate::mkrev::gaps_code(list, n).len() <= usize::MAX,
    ensures
        list_ok(mem, pos, n, -1),
        list_of(mem, pos, n, -1) == widened(list).take(n as int),
        list_last(mem, pos, n, -1) == crate::mkrev::prev_pos(list, n as int),
        crate::bits::ids_end(mem, pos, n) == pos + crate::mkrev::gaps_code(list, n).len(),
    decreases n,
{
    if n == 0 {
        assert(list_of(mem, pos, 0, -1) =~= widened(list).take(0));
    } else {
        let m = (n - 1) as nat;
        let gap = crate::mkrev::gap_at(list, m as int);
        let before = crate::mkrev::gaps_code(list, m);
        lemma_holds_parts(mem, pos, before, delta_code(gap));
        lemma_list_read(mem, pos, list, m);
        let p = pos + before.len();
        let last = crate::mkrev::prev_pos(list, m as int);
        assert(gap == list[m as int] - last && 1 <= gap <= u32::MAX) by {
            if m > 0 {
                assert(list[m - 1] < list[m as int]);
            }
        }
        lemma_delta_code_shape(gap);
        lemma_delta_read(mem, p, gap);
        crate::codec::lemma_low_bits(gap);
        lemma_list_split(mem, pos, m, 1, -1);
        assert(crate::bits::id_at(mem, p) == gap - 1);
        assert(list_ok(mem, p, 1, last) && list_of(mem, p, 1, last) == seq![list[m as int] as u64]
            && list_last(mem, p, 1, last) == list[m as int] && crate::bits::ids_end(mem, p, 1)
            == p + delta_code(gap).len()) by {
            reveal_with_fuel(list_ok, 2);
            reveal_with_fuel(list_of, 2);
            reveal_with_fuel(list_last, 2);
            reveal_with_fuel(crate::bits::ids_end, 2);
            assert(list_of(mem, p, 1, last) =~= seq![list[m as int] as u64]);
        }
        assert(widened(list).take(m as int) + seq![list[m as int] as u64] =~= widened(list).take(
            n as int,
        ));
    }
}

/// The stream of the first `n` posting lists holds list `i` where the
/// stream of the lists before it ends, filled up to a byte.
pub proof fn lemma_list_in_stream(ps: Seq<Seq<u32>>, i: nat, n: nat)
    requires
        i < n,
    ensures
        aligned(postings_bits(ps, i)).len() % 8 == 0,
        aligned(postings_bits(ps, i)).len() + gaps_code(ps[i as int], ps[i as int].len()).len()
            <= postings_bits(ps, n).len(),
        postings_bits(ps, n).subrange(
            aligned(postings_bits(ps, i)).len() as int,
            (aligned(postings_bits(ps, i)).len() + gaps_code(ps[i as int], ps[i as int].len()).len()) as int,
        ) == gaps_code(ps[i as int], ps[i as int].len()),
    decreases n,
{
    let a = aligned(postings_bits(ps, i)).len() as int;
    let code = gaps_code(ps[i as int], ps[i as int].len());
    let all = postings_bits(ps, n);
    if i == n - 1 {
        assert(all.subrange(a, a + code.len()) =~= code);
    } else {
        lemma_list_in_stream(ps, i, (n - 1) as nat);
        let before = postings_bits(ps, (n - 1) as nat);
        assert(all.subrange(a, a + code.len()) =~= before.subrange(a, a + code.len()));
    }
}

/// Where no fault is met while the lists are written, every list begins
/// at a byte offset of 32 bits.
pub proof fn lemma_postings_sound(ps: Seq<Seq<u32>>, start: int, i: nat, n: nat)
    requires
        i < n,
        postings_error(ps, start, n) is None,
    ensures
        posting_offset(ps, start, i) <= u32::MAX,
    decreases n,
{
    if i < n - 1 {
        lemma_postings_sound(ps, start, i, (n - 1) as nat);
    }
}

/// No list begins before a list before it.
pub proof fn lemma_offsets_rise(ps: Seq<Seq<u32>>, start: int, a: nat, b: nat)
    requires
        a <= b,
    ensures
        posting_offset(ps, start, a) <= posting_offset(ps, start, b),
        postings_bits(ps, a).len() <= postings_bits(ps, b).len(),
    decreases b,
{
    if a < b {
        lemma_offsets_rise(ps, start, a, (b - 1) as nat);
        let before = aligned(postings_bits(ps, (b - 1) as nat));
        assert(before.len() <= postings_bits(ps, b).len());
    }
}

/// A buffer that holds the stream of the lists from bit `8 * start` on
/// gives to the reader, at the byte offset of list `i`, the positions of
/// that list.
pub proof fn lemma_posting_read(mem: Seq<u64>, ps: Seq<Seq<u32>>, start: int, i: nat, n: nat)
    requires
        0 <= start,
        i < n,
        n <= ps.len(),
        forall|j: int, k: int|
            0 <= j < k < ps[i as int].len() ==> (#[trigger] ps[i as int][j]) < (#[trigger] ps[i as int][k]),
        forall|j: int| 0 <= j < ps[i as int].len() ==> (#[trigger] ps[i as int][j]) < u32::MAX,
        holds(mem, 8 * start, postings_bits(ps, n)),
        8 * start + postings_bits(ps, n).len() <= usize::MAX,
    ensures
        list_ok(mem, 8 * posting_offset(ps, start, i), ps[i as int].len(), -1),
        list_of(mem, 8 * posting_offset(ps, start, i), ps[i as int].len(), -1) == widened(
            ps[i as int],
        ),
        0 <= 8 * posting_offset(ps, start, i) <= usize::MAX,
{
    let list = ps[i as int];
    let all = postings_bits(ps, n);
    let a = aligned(postings_bits(ps, i)).len() as int;
    let code = gaps_code(list, list.len());
    lemma_list_in_stream(ps, i, n);
    assert forall|j: int| 0 <= j < code.len() implies crate::bits::bit_at(mem, 8 * start + a + j)
        == #[trigger] code[j] by {
        assert(all.subrange(a, a + code.len())[j] == all[a + j]);
        assert(crate::bits::bit_at(mem, 8 * start + (a + j)) == all[a + j]);
    }
    assert(8 * posting_offset(ps, start, i) == 8 * start + a);
    lemma_list_read(mem, 8 * start + a, list, list.len());
    assert(widened(list).take(list.len() as int) =~= widened(list));
}

/// The files of a sparse reverse index that the builder writes give to
/// the reader, for each id, the positions that were listed for it. This
/// holds for lists that increase, of positions less than 2^32 - 1, in a
/// file whose bits a machine word numbers.
#[verifier::rlimit(50)]
pub proof fn lemma_sparse_round_trip(ps: Seq<Seq<u32>>, d: crate::rev::Delta, id: u32)
    requires
        id < ps.len(),
        postings_error(ps, 7, ps.len()) is None,
        forall|j: int, k: int|
            0 <= j < k < ps[id as int].len() ==> (#[trigger] ps[id as int][j]) < (
            #[trigger] ps[id as int][k]),
        forall|j: int| 0 <= j < ps[id as int].len() ==> (#[trigger] ps[id as int][j]) < u32::MAX,
        ps[id as int].len() <= u32::MAX,
        d.crevf@ == crate::util::le_words(
            crate::mkrev::sparse_header() + packed(postings_bits(ps, ps.len())),
        ),
        d.crdxf@ == crate::mkrev::posting_offsets(ps, 7, ps.len()),
        d.cntf@ == crate::mkrev::posting_counts(ps),
        d.ids == ps.len(),
        d.alignmult == 1,
        8 * (7 + packed(postings_bits(ps, ps.len())).len()) <= usize::MAX,
    ensures
        crate::rev::Rev::has_id(&d, id),
        crate::rev::Rev::postings(&d, id) == widened(ps[id as int]),
{
    let n = ps.len();
    let all = postings_bits(ps, n);
    let head = crate::mkrev::sparse_header();
    let file = head + packed(all);
    crate::mkrev::lemma_delta_two();
    assert(head.len() == 7);
    assert(file.subrange(7, (7 + packed(all).len()) as int) =~= packed(all));
    lemma_file_holds(file, 7, all);
    lemma_postings_sound(ps, 7, id as nat, n);
    lemma_posting_read(d.crevf@, ps, 7, id as nat, n);
    assert(d.bit_of(id) == 8 * posting_offset(ps, 7, id as nat)) by (nonlinear_arith)
        requires
            d.bit_of(id) == d.crdxf@[id as int] * d.alignmult * 8,
            d.alignmult == 1,
            d.crdxf@[id as int] == posting_offset(ps, 7, id as nat),
    ;
}

/// The header of a sparse reverse index that the builder writes gives
/// the reader the multiplier 1.
pub proof fn lemma_sparse_header(rest: Seq<u8>)
    ensures
        crate::rev::sparse_header_ok(crate::mkrev::sparse_header() + rest, crate::util::u32s_le(seq![7u32])),
        delta_ok(crate::util::le_words(crate::mkrev::sparse_header() + rest), 48),
        delta_at(crate::util::le_words(crate::mkrev::sparse_header() + rest), 48) == 2,
{
    let head = crate::mkrev::sparse_header();
    let file = head + rest;
    crate::mkrev::lemma_delta_two();
    let code = delta_code(2);
    assert(file.subrange(6, (6 + packed(code).len()) as int) =~= packed(code));
    lemma_file_holds(file, 6, code);
    lemma_delta_read(crate::util::le_words(file), 48, 2);
}

/// The byte offsets of the lists never decrease.
pub proof fn lemma_offsets_rising(ps: Seq<Seq<u32>>, start: int, n: nat)
    requires
        postings_error(ps, start, n) is None,
        0 <= start,
    ensures
        forall|i: int, j: int|
            0 <= i <= j < n ==> (#[trigger] crate::mkrev::posting_offsets(ps, start, n)[i]) <= (
            #[trigger] crate::mkrev::posting_offsets(ps, start, n)[j]),
{
    let offs = crate::mkrev::posting_offsets(ps, start, n);
    assert forall|i: int, j: int| 0 <= i <= j < n implies (#[trigger] offs[i]) <= (#[trigger] offs[j]) by {
        lemma_offsets_rise(ps, start, i as nat, j as nat);
        lemma_postings_sound(ps, start, i as nat, n);
        lemma_postings_sound(ps, start, j as nat, n);
    }
}

/// The files of a dense reverse index that the builder writes give to
/// the reader, for each id, the positions that were listed for it. This
/// holds for lists that increase, of fewer than 2^32 - 1 positions less
/// than 2^32 - 1, in files whose bits a machine word numbers.
#[verifier::rlimit(50)]
pub proof fn lemma_dense_round_trip(ps: Seq<Seq<u32>>, d: crate::rev::DeltaDense, id: u32)
    requires
        id < ps.len(),
        crate::mkrev::dense_error(ps) is None,
        forall|j: int, k: int|
            0 <= j < k < ps[id as int].len() ==> (#[trigger] ps[id as int][j]) < (
            #[trigger] ps[id as int][k]),
        forall|j: int| 0 <= j < ps[id as int].len() ==> (#[trigger] ps[id as int][j]) < u32::MAX,
        forall|i: int| 0 <= i < ps.len() ==> (#[trigger] ps[i]).len() + 1 < 0x1_0000_0000,
        d.crevf@ == crate::util::le_words(
            crate::rev::rev_dense_magic() + packed(postings_bits(ps, ps.len())),
        ),
        d.crdxf0@ == group_offsets(
            crate::mkrev::posting_offsets(ps, 6, ps.len()),
            crate::mkrev::list_lens(ps),
        ),
        d.crdxf1@ == crate::util::le_words(
            packed(
                index_bits(
                    crate::mkrev::posting_offsets(ps, 6, ps.len()),
                    crate::mkrev::list_lens(ps),
                    group_count(ps.len() as int),
                ),
            ),
        ),
        8 * (6 + packed(postings_bits(ps, ps.len())).len()) <= usize::MAX,
        8 * packed(
            index_bits(
                crate::mkrev::posting_offsets(ps, 6, ps.len()),
                crate::mkrev::list_lens(ps),
                group_count(ps.len() as int),
            ),
        ).len() <= usize::MAX,
    ensures
        d.record_of(id) == (posting_offset(ps, 6, id as nat), ps[id as int].len() as int),
        crate::rev::Rev::has_id(&d, id),
        crate::rev::Rev::postings(&d, id) == widened(ps[id as int]),
{
    lemma_dense_records(ps, d, id);
    lemma_dense_list(ps, d.crevf@, id as nat);
    lemma_dense_has_id(d, id, posting_offset(ps, 6, id as nat), ps[id as int].len());
}

/// An id whose record gives a byte offset at which its list can be
/// read is one of the index, with that list.
proof fn lemma_dense_has_id(d: crate::rev::DeltaDense, id: u32, offset: int, count: nat)
    requires
        d.has_record(id),
        d.record_of(id) == (offset, count as int),
        0 <= 8 * offset <= usize::MAX,
        list_ok(d.crevf@, 8 * offset, count, -1),
    ensures
        crate::rev::Rev::has_id(&d, id),
        crate::rev::Rev::postings(&d, id) == list_of(d.crevf@, 8 * offset, count, -1),
{
    assert(d.record_of(id).0 * 8 == 8 * offset);
    assert(d.record_of(id).1 as nat == count);
}

/// The index of groups of a dense reverse index gives the reader the
/// byte offset and the count of each list.
#[verifier::rlimit(50)]
proof fn lemma_dense_records(ps: Seq<Seq<u32>>, d: crate::rev::DeltaDense, id: u32)
    requires
        id < ps.len(),
        crate::mkrev::dense_error(ps) is None,
        forall|i: int| 0 <= i < ps.len() ==> (#[trigger] ps[i]).len() + 1 < 0x1_0000_0000,
        d.crdxf0@ == group_offsets(
            crate::mkrev::posting_offsets(ps, 6, ps.len()),
            crate::mkrev::list_lens(ps),
        ),
        d.crdxf1@ == crate::util::le_words(
            packed(
                index_bits(
                    crate::mkrev::posting_offsets(ps, 6, ps.len()),
                    crate::mkrev::list_lens(ps),
                    group_count(ps.len() as int),
                ),
            ),
        ),
        8 * packed(
            index_bits(
                crate::mkrev::posting_offsets(ps, 6, ps.len()),
                crate::mkrev::list_lens(ps),
                group_count(ps.len() as int),
            ),
        ).len() <= usize::MAX,
    ensures
        d.has_record(id),
        d.record_of(id) == (posting_offset(ps, 6, id as nat), ps[id as int].len() as int),
{
    let n = ps.len();
    let offs = crate::mkrev::posting_offsets(ps, 6, n);
    let lens = crate::mkrev::list_lens(ps);
    lemma_offsets_rising(ps, 6, n);
    assert forall|i: int| 0 <= i < lens.len() implies (#[trigger] lens[i]) + 1 < 0x1_0000_0000 by {
        assert(lens[i] == ps[i].len());
    }
    lemma_dense_index_round_trip(offs, lens, d, id);
    lemma_postings_sound(ps, 6, id as nat, n);
    assert(offs[id as int] == posting_offset(ps, 6, id as nat));
    assert(lens[id as int] == ps[id as int].len());
}

/// A dense file of lists gives the reader each list at its byte offset.
proof fn lemma_dense_list(ps: Seq<Seq<u32>>, mem: Seq<u64>, i: nat)
    requires
        i < ps.len(),
        forall|j: int, k: int|
            0 <= j < k < ps[i as int].len() ==> (#[trigger] ps[i as int][j]) < (#[trigger] ps[i as int][k]),
        forall|j: int| 0 <= j < ps[i as int].len() ==> (#[trigger] ps[i as int][j]) < u32::MAX,
        mem == crate::util::le_words(
            crate::rev::rev_dense_magic() + packed(postings_bits(ps, ps.len())),
        ),
        8 * (6 + packed(postings_bits(ps, ps.len())).len()) <= usize::MAX,
    ensures
        list_ok(mem, 8 * posting_offset(ps, 6, i), ps[i as int].len(), -1),
        list_of(mem, 8 * posting_offset(ps, 6, i), ps[i as int].len(), -1) == widened(ps[i as int]),
        0 <= 8 * posting_offset(ps, 6, i) <= usize::MAX,
{
    let all = postings_bits(ps, ps.len());
    let file = crate::rev::rev_dense_magic() + packed(all);
    assert(file.subrange(6, (6 + packed(all).len()) as int) =~= packed(all));
    lemma_file_holds(file, 6, all);
    lemma_posting_read(mem, ps, 6, i, ps.len());
}

} // verus!
