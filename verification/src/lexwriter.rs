//! Writer of a lexicon: gives each new value the next id, and at the end
//! puts the ids in the order of their strings.

use vstd::prelude::*;
use vstd::hash_map::StringHashMap;
use vstd::string::StringSliceAdditionalSpecFns;
use vstd::utf8::encode_utf8;
use crate::lex::{bytes_lt, nul_from, str_at};
use crate::util::{u32_bytes, u32s_le};

verus! {

/// What a value takes in the file of strings: its bytes and a zero byte.
pub open spec fn entry_bytes(value: Seq<char>) -> Seq<u8> {
    encode_utf8(value).push(0u8)
}

/// The file of strings for the first `n` values.
pub open spec fn lex_bytes(values: Seq<Seq<char>>, n: nat) -> Seq<u8>
    decreases n,
{
    if n == 0 {
        Seq::empty()
    } else {
        lex_bytes(values, (n - 1) as nat) + entry_bytes(values[n - 1])
    }
}

/// The byte offsets of the values in the file of strings.
pub open spec fn lex_offsets(values: Seq<Seq<char>>) -> Seq<u32> {
    Seq::new(values.len(), |i: int| lex_bytes(values, i as nat).len() as u32)
}

/// The three files of a lexicon.
#[derive(Debug)]
pub struct LexFiles {
    /// `.lex`: the strings, each closed by a zero byte.
    pub lex: Vec<u8>,
    /// `.lex.idx`: the byte offset of each string.
    pub idx: Vec<u8>,
    /// `.lex.srt`: the ids in the order of their strings.
    pub srt: Vec<u8>,
}

/// Why a lexicon cannot take a value.
#[derive(Debug, Clone, Copy, PartialEq, Eq, Structural)]
pub enum LexError {
    /// The file of strings would pass the range of a 32-bit offset.
    OffsetOverflow,
}

/// Writer of a lexicon.
pub struct LexWriter {
    pub lex: Vec<u8>,
    pub offsets: Vec<u32>,
    pub map: StringHashMap<u32>,
    pub bytes: u32,
    pub values: Ghost<Seq<Seq<char>>>,
}

impl View for LexWriter {
    type V = Seq<Seq<char>>;

    /// The values written so far, in the order of their ids.
    open spec fn view(&self) -> Seq<Seq<char>> {
        self.values@
    }
}

impl LexWriter {
    /// Validity of a writer: the map gives each value its id, and the
    /// files hold the values in the order of their ids.
    pub open spec fn wf(&self) -> bool {
        &&& self.offsets@ == lex_offsets(self@)
        &&& self.lex@ == lex_bytes(self@, self@.len())
        &&& self.bytes == self.lex@.len()
        &&& self@.len() <= self.bytes
        &&& forall|i: int| 0 <= i < self@.len() ==> self.map@.contains_key(#[trigger] self@[i])
        &&& forall|i: int| 0 <= i < self@.len() ==> self.map@[#[trigger] self@[i]] == i
        &&& forall|k: Seq<char>| #[trigger]
            self.map@.contains_key(k) ==> (self.map@[k] < self@.len() && self@[self.map@[k] as int]
                == k)
    }

    /// A writer with no value.
    pub fn new() -> (w: LexWriter)
        ensures
            w.wf(),
            w@ == Seq::<Seq<char>>::empty(),
    {
        let w = LexWriter {
            lex: Vec::new(),
            offsets: Vec::new(),
            map: StringHashMap::new(),
            bytes: 0,
            values: Ghost(Seq::empty()),
        };
        assert(w.offsets@ =~= lex_offsets(w@));
        w
    }

    /// Whether a value has an id.
    pub open spec fn knows(&self, value: Seq<char>) -> bool {
        exists|i: int| 0 <= i < self@.len() && #[trigger] self@[i] == value
    }

    /// The id of a value: the one it has, or the next where it has
    /// none. A new value is refused, and nothing changes, if and only if
    /// the file of strings would pass 2^32 - 1 bytes with it.
    pub fn id_for(&mut self, value: &str) -> (r: Result<u32, LexError>)
        requires
            old(self).wf(),
        ensures
            final(self).wf(),
            r matches Ok(id) ==> id < final(self)@.len() && final(self)@[id as int] == value@,
            old(self).knows(value@) ==> final(self)@ == old(self)@ && (r matches Ok(id) && old(
                self,
            )@[id as int] == value@),
            !old(self).knows(value@) && old(self).lex@.len() + entry_bytes(value@).len()
                > u32::MAX ==> final(self)@ == old(self)@ && r == Err::<u32, LexError>(
                LexError::OffsetOverflow,
            ),
            !old(self).knows(value@) && old(self).lex@.len() + entry_bytes(value@).len()
                <= u32::MAX ==> final(self)@ == old(self)@.push(value@) && r == Ok::<
                u32,
                LexError,
            >(old(self)@.len() as u32),
    {
        match self.map.get(value) {
            Some(id) => {
                let id: u32 = *id;
                assert(self@[id as int] == value@);
                return Ok(id);
            },
            None => {},
        }
        assert(!self.knows(value@)) by {
            if self.knows(value@) {
                let i = choose|i: int| 0 <= i < self@.len() && #[trigger] self@[i] == value@;
                assert(self.map@.contains_key(self@[i]));
            }
        }
        let bytes: &[u8] = value.as_bytes();
        if bytes.len() >= (u32::MAX - self.bytes) as usize {
            return Err(LexError::OffsetOverflow);
        }
        let id: u32 = self.offsets.len() as u32;
        self.map.insert(value.to_owned(), id);
        self.offsets.push(self.bytes);
        let ghost start = self.lex@;
        self.lex.extend_from_slice(bytes);
        self.lex.push(0);
        self.bytes = self.bytes + bytes.len() as u32 + 1;
        proof {
            let old_values = self.values@;
            self.values@ = old_values.push(value@);
            let n = old_values.len();
            assert(self.lex@ =~= start + entry_bytes(value@));
            lemma_lex_bytes_prefix(old_values, self@, n);
            assert(self.lex@ == lex_bytes(self@, self@.len()));
            assert forall|i: int| 0 <= i < self.offsets@.len() implies #[trigger] self.offsets@[i]
                == lex_offsets(self@)[i] by {
                lemma_lex_bytes_prefix(old_values, self@, i as nat);
            }
            assert(self.offsets@ =~= lex_offsets(self@));
        }
        Ok(id)
    }
}

/// The file of strings for the first values does not depend on those
/// that follow.
pub proof fn lemma_lex_bytes_prefix(a: Seq<Seq<char>>, b: Seq<Seq<char>>, n: nat)
    requires
        n <= a.len(),
        n <= b.len(),
        forall|i: int| 0 <= i < n ==> a[i] == b[i],
    ensures
        lex_bytes(a, n) == lex_bytes(b, n),
    decreases n,
{
    if n > 0 {
        lemma_lex_bytes_prefix(a, b, (n - 1) as nat);
    }
}

/// The string of `id` in the file of strings: the bytes from its
/// offset up to the next zero byte.
pub open spec fn key_of(lex: Seq<u8>, offsets: Seq<u32>, id: u32) -> Seq<u8> {
    str_at(lex, offsets[id as int] as int)
}

/// Whether `a` stands before `b` in the order of the ids: by their
/// strings, and by the ids themselves where the strings are the same.
pub open spec fn in_order(lex: Seq<u8>, offsets: Seq<u32>, a: u32, b: u32) -> bool {
    bytes_lt(key_of(lex, offsets, a), key_of(lex, offsets, b)) || (key_of(lex, offsets, a)
        == key_of(lex, offsets, b) && a < b)
}

/// The ids from 0 up to `n`.
pub open spec fn iota(n: nat) -> Seq<u32> {
    Seq::new(n, |i: int| i as u32)
}

/// Whether `srt` holds the ids of the lexicon in the order of their
/// strings.
pub open spec fn is_sorted_ids(lex: Seq<u8>, offsets: Seq<u32>, srt: Seq<u32>) -> bool {
    &&& srt.to_multiset() == iota(offsets.len()).to_multiset()
    &&& forall|i: int, j: int|
        0 <= i < j < srt.len() ==> in_order(lex, offsets, #[trigger] srt[i], #[trigger] srt[j])
}

/// The string of `id`, copied from the file of strings.
pub fn entry_key(lex: &Vec<u8>, offsets: &Vec<u32>, id: u32) -> (key: Vec<u8>)
    requires
        id < offsets@.len(),
        offsets@[id as int] <= lex@.len(),
    ensures
        key@ == key_of(lex@, offsets@, id),
{
    let l: usize = offsets[id as usize] as usize;
    let mut r: usize = l;
    let mut key: Vec<u8> = Vec::new();
    while r < lex.len() && lex[r] != 0
        invariant
            l <= r <= lex@.len(),
            nul_from(lex@, l as int) == nul_from(lex@, r as int),
            key@ == lex@.subrange(l as int, r as int),
        decreases lex@.len() - r,
    {
        key.push(lex[r]);
        r = r + 1;
        assert(key@ =~= lex@.subrange(l as int, r as int));
    }
    key
}

/// Sorts ids by their strings with `slice::sort_by_cached_key`, the key
/// of an id being the bytes of its string. Of that function this is
/// taken: that it reorders the items, so that their keys never decrease
/// in the order that `Vec<u8>` has, which is that of the bytes, the
/// shorter of two first where it opens the longer; and that items with
/// the same key keep their order, which for ids that come in increasing
/// order is the order of the ids.
#[verifier::external_body]
fn sort_ids(ids: &mut Vec<u32>, lex: &Vec<u8>, offsets: &Vec<u32>)
    requires
        forall|i: int|
            0 <= i < old(ids)@.len() ==> (#[trigger] old(ids)@[i]) < offsets@.len()
                && offsets@[old(ids)@[i] as int] <= lex@.len(),
        forall|i: int, j: int|
            0 <= i < j < old(ids)@.len() ==> (#[trigger] old(ids)@[i]) < (#[trigger] old(ids)@[j]),
    ensures
        final(ids)@.to_multiset() == old(ids)@.to_multiset(),
        forall|i: int, j: int|
            0 <= i < j < final(ids)@.len() ==> in_order(
                lex@,
                offsets@,
                #[trigger] final(ids)@[i],
                #[trigger] final(ids)@[j],
            ),
{
    ids.sort_by_cached_key(|id| entry_key(lex, offsets, *id));
}

/// The byte offset of every value lies in the file of strings.
pub proof fn lemma_offsets_in_file(values: Seq<Seq<char>>, i: nat, n: nat)
    requires
        i <= n <= values.len(),
    ensures
        lex_bytes(values, i).len() <= lex_bytes(values, n).len(),
    decreases n - i,
{
    if i < n {
        lemma_offsets_in_file(values, i, (n - 1) as nat);
    }
}

impl LexWriter {
    /// Whether `files` are the files of the lexicon.
    pub open spec fn ends_with(&self, files: &LexFiles) -> bool {
        &&& files.lex@ == lex_bytes(self@, self@.len())
        &&& files.idx@ == u32s_le(lex_offsets(self@))
        &&& exists|srt: Seq<u32>|
            files.srt@ == u32s_le(srt) && #[trigger] is_sorted_ids(
                files.lex@,
                lex_offsets(self@),
                srt,
            )
    }

    /// Ends the writing: the three files of the lexicon. `.lex.srt` holds
    /// the ids in the order of their strings as they stand in `.lex`,
    /// each up to its first zero byte; ids with the same string stand in
    /// their own order.
    pub fn finalize(self) -> (files: LexFiles)
        requires
            self.wf(),
        ensures
            self.ends_with(&files),
    {
        let n: usize = self.offsets.len();
        let mut ids: Vec<u32> = Vec::new();
        let mut i: usize = 0;
        while i < n
            invariant
                i <= n,
                n == self.offsets@.len(),
                n <= u32::MAX,
                ids@ == iota(i as nat),
            decreases n - i,
        {
            ids.push(i as u32);
            i += 1;
            assert(ids@ =~= iota(i as nat));
        }
        proof {
            assert forall|k: int| 0 <= k < ids@.len() implies (#[trigger] ids@[k])
                < self.offsets@.len() && self.offsets@[ids@[k] as int] <= self.lex@.len() by {
                lemma_offsets_in_file(self@, k as nat, self@.len());
            }
        }
        sort_ids(&mut ids, &self.lex, &self.offsets);
        let srt = u32_bytes(ids.as_slice());
        let idx = u32_bytes(self.offsets.as_slice());
        proof {
            assert(is_sorted_ids(self.lex@, lex_offsets(self@), ids@));
        }
        LexFiles { lex: self.lex, idx, srt }
    }
}

} // verus!
