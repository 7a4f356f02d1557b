//! What the writer of a lexicon writes is what its reader reads: the
//! files are a valid lexicon in which every value has its id.

use vstd::prelude::*;
use vstd::seq_lib::{to_multiset_contains, to_multiset_len};
use vstd::utf8::{encode_utf8, encode_utf8_decode_utf8};
use crate::lex::{bytes_lt, nul_from, str_at, MapLex};
use crate::lexwriter::{
    entry_bytes,
    in_order,
    iota,
    is_sorted_ids,
    key_of,
    lemma_offsets_in_file,
    lex_bytes,
    lex_offsets,
};

verus! {

/// Whether no byte of a value is zero, so that the value ends where its
/// entry ends.
pub open spec fn no_zero(value: Seq<char>) -> bool {
    forall|j: int| 0 <= j < encode_utf8(value).len() ==> #[trigger] encode_utf8(value)[j] != 0
}

/// The file of strings holds the bytes of value `i` at its offset, and a
/// zero byte behind them.
pub proof fn lemma_entry_at(values: Seq<Seq<char>>, i: nat, n: nat)
    requires
        i < n <= values.len(),
    ensures
        lex_bytes(values, i).len() + encode_utf8(values[i as int]).len() < lex_bytes(values, n).len(),
        lex_bytes(values, n).subrange(
            lex_bytes(values, i).len() as int,
            (lex_bytes(values, i).len() + encode_utf8(values[i as int]).len()) as int,
        ) == encode_utf8(values[i as int]),
        lex_bytes(values, n)[(lex_bytes(values, i).len() + encode_utf8(values[i as int]).len()) as int]
            == 0,
    decreases n,
{
    let o = lex_bytes(values, i).len() as int;
    let e = encode_utf8(values[i as int]);
    let all = lex_bytes(values, n);
    if i == n - 1 {
        assert(all.subrange(o, o + e.len()) =~= e);
    } else {
        lemma_entry_at(values, i, (n - 1) as nat);
        let before = lex_bytes(values, (n - 1) as nat);
        assert(all.subrange(o, o + e.len()) =~= before.subrange(o, o + e.len()));
    }
}

/// The first zero byte from `from` on is the one at `to`, where none
/// stands before it.
pub proof fn lemma_nul_at(lex: Seq<u8>, from: int, to: int)
    requires
        0 <= from <= to < lex.len(),
        lex[to] == 0,
        forall|j: int| from <= j < to ==> #[trigger] lex[j] != 0,
    ensures
        nul_from(lex, from) == to,
    decreases to - from,
{
    if from < to {
        lemma_nul_at(lex, from + 1, to);
    }
}

/// The string that the file of strings holds for id `i` is the value
/// `i`, where no byte of the value is zero.
pub proof fn lemma_string_of(values: Seq<Seq<char>>, i: nat)
    requires
        i < values.len(),
        no_zero(values[i as int]),
    ensures
        str_at(lex_bytes(values, values.len()), lex_bytes(values, i).len() as int) == encode_utf8(
            values[i as int],
        ),
{
    let lex = lex_bytes(values, values.len());
    let o = lex_bytes(values, i).len() as int;
    let e = encode_utf8(values[i as int]);
    lemma_entry_at(values, i, values.len());
    assert forall|j: int| o <= j < o + e.len() implies #[trigger] lex[j] != 0 by {
        assert(lex.subrange(o, o + e.len())[j - o] == lex[j]);
        assert(e[j - o] != 0);
    }
    lemma_nul_at(lex, o, o + e.len());
}

/// The ids in the order of their strings are all ids, each once.
pub proof fn lemma_sorted_ids(srt: Seq<u32>, n: nat)
    requires
        n <= u32::MAX,
        srt.to_multiset() == iota(n).to_multiset(),
    ensures
        srt.len() == n,
        srt.no_duplicates(),
        forall|k: int| 0 <= k < srt.len() ==> (#[trigger] srt[k]) < n,
        forall|id: u32| id < n ==> srt.contains(id),
{
    to_multiset_len(srt);
    to_multiset_len(iota(n));
    assert(iota(n).no_duplicates());
    iota(n).lemma_multiset_has_no_duplicates();
    srt.lemma_multiset_has_no_duplicates_conv();
    assert forall|k: int| 0 <= k < srt.len() implies (#[trigger] srt[k]) < n by {
        to_multiset_contains(srt, srt[k]);
        to_multiset_contains(iota(n), srt[k]);
        assert(srt.contains(srt[k]));
        let j = choose|j: int| 0 <= j < iota(n).len() && iota(n)[j] == srt[k];
        assert(iota(n)[j] == j as u32);
    }
    assert forall|id: u32| id < n implies srt.contains(id) by {
        to_multiset_contains(srt, id);
        to_multiset_contains(iota(n), id);
        assert(iota(n)[id as int] == id);
        assert(iota(n).contains(id));
    }
}

/// The files that the writer of a lexicon ends with are, once opened, a
/// valid lexicon: every id has the string of its value, and is found by
/// it. This holds for values that differ, none with a zero byte.
#[verifier::rlimit(50)]
pub proof fn lemma_lexicon_files(values: Seq<Seq<char>>, srt: Seq<u32>, l: MapLex)
    requires
        forall|i: int, j: int|
            0 <= i < j < values.len() ==> (#[trigger] values[i]) != (#[trigger] values[j]),
        forall|i: int| 0 <= i < values.len() ==> no_zero(#[trigger] values[i]),
        lex_bytes(values, values.len()).len() <= u32::MAX,
        values.len() <= u32::MAX,
        is_sorted_ids(lex_bytes(values, values.len()), lex_offsets(values), srt),
        l.lex@ == lex_bytes(values, values.len()),
        l.idx@ == lex_offsets(values),
        l.srt@ == srt,
        l.count == values.len(),
    ensures
        l.wf(),
        forall|id: u32| id < values.len() ==> #[trigger] l.has_id(id),
        forall|id: u32|
            id < values.len() ==> (#[trigger] l.string_of(id)) == encode_utf8(values[id as int]),
        forall|id: u32| id < values.len() ==> srt.contains(id),
{
    let n = values.len();
    lemma_sorted_ids(srt, n);
    assert forall|id: u32| id < n implies #[trigger] l.has_id(id) by {
        lemma_offsets_in_file(values, id as nat, n);
    }
    assert forall|id: u32| id < n implies (#[trigger] l.string_of(id)) == encode_utf8(
        values[id as int],
    ) by {
        lemma_offsets_in_file(values, id as nat, n);
        lemma_string_of(values, id as nat);
    }
    assert forall|k: int| 0 <= k < l.count implies l.has_id(#[trigger] l.srt@[k]) by {
        assert(l.has_id(srt[k]));
    }
    assert forall|i: int, j: int| 0 <= i < j < l.count implies bytes_lt(
        l.string_of(#[trigger] l.srt@[i]),
        l.string_of(#[trigger] l.srt@[j]),
    ) by {
        let a = srt[i];
        let b = srt[j];
        assert(in_order(l.lex@, l.idx@, a, b));
        assert(a != b);
        assert(l.string_of(a) == encode_utf8(values[a as int]));
        assert(l.string_of(b) == encode_utf8(values[b as int]));
        encode_utf8_decode_utf8(values[a as int]);
        encode_utf8_decode_utf8(values[b as int]);
        if a < b {
            assert(values[a as int] != values[b as int]);
        } else {
            assert(values[b as int] != values[a as int]);
        }
    }
}

} // verus!
