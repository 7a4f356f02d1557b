//! Lexicon of an attribute: the strings of its values, each with an id.
//!
//! Three files: `.lex`, the strings one after another, each closed by a
//! zero byte; `.lex.idx`, for each id the byte offset of its string; and
//! `.lex.srt`, the ids in the order of their strings. Strings are taken
//! as bytes and ordered byte by byte.

use vstd::prelude::*;
use vstd::slice::slice_subrange;
use vstd::string::StringSliceAdditionalSpecFns;
use crate::util::{le_u32s, u32_words};

verus! {

/// Offset of the first zero byte at `i` or after it; the length of the
/// buffer where there is none.
pub open spec fn nul_from(lex: Seq<u8>, i: int) -> int
    decreases lex.len() - i,
{
    if i < 0 || i >= lex.len() {
        lex.len() as int
    } else if lex[i] == 0 {
        i
    } else {
        nul_from(lex, i + 1)
    }
}

/// The string that begins at byte `l`: the bytes up to the next zero
/// byte.
pub open spec fn str_at(lex: Seq<u8>, l: int) -> Seq<u8> {
    lex.subrange(l, nul_from(lex, l))
}

/// Whether `a` stands before `b` in the order of strings: at the first
/// place where they differ `a` has ended or has the lesser byte.
pub open spec fn bytes_lt(a: Seq<u8>, b: Seq<u8>) -> bool {
    exists|i: int| #[trigger] differ_at(a, b, i)
}

/// Whether `a` and `b` agree before place `i`, and `a` has ended there
/// or has the lesser byte there.
pub open spec fn differ_at(a: Seq<u8>, b: Seq<u8>, i: int) -> bool {
    &&& 0 <= i <= a.len()
    &&& i < b.len()
    &&& forall|j: int| 0 <= j < i ==> a[j] == b[j]
    &&& (i == a.len() || a[i] < b[i])
}

/// No string stands before itself.
pub proof fn lemma_lt_irreflexive(a: Seq<u8>)
    ensures
        !bytes_lt(a, a),
{
    if bytes_lt(a, a) {
        let i = choose|i: int| differ_at(a, a, i);
        assert(differ_at(a, a, i));
    }
}

/// The order of strings is transitive.
pub proof fn lemma_lt_transitive(a: Seq<u8>, b: Seq<u8>, c: Seq<u8>)
    requires
        bytes_lt(a, b),
        bytes_lt(b, c),
    ensures
        bytes_lt(a, c),
{
    let i = choose|i: int| differ_at(a, b, i);
    let k = choose|k: int| differ_at(b, c, k);
    assert(differ_at(a, b, i));
    assert(differ_at(b, c, k));
    let m = if i <= k {
        i
    } else {
        k
    };
    assert(differ_at(a, c, m));
}

/// How one string stands to another.
#[derive(Debug, Clone, Copy, PartialEq, Eq, Structural)]
pub enum Rank {
    Before,
    Same,
    After,
}

/// How `a` stands to `b` in the order of strings.
pub open spec fn rank_of(a: Seq<u8>, b: Seq<u8>) -> Rank {
    if a == b {
        Rank::Same
    } else if bytes_lt(a, b) {
        Rank::Before
    } else {
        Rank::After
    }
}

/// Of two strings that differ, one stands before the other.
pub proof fn lemma_lt_total(a: Seq<u8>, b: Seq<u8>)
    ensures
        a == b || bytes_lt(a, b) || bytes_lt(b, a),
        !(bytes_lt(a, b) && bytes_lt(b, a)),
    decreases a.len(),
{
    if bytes_lt(a, b) && bytes_lt(b, a) {
        lemma_lt_transitive(a, b, a);
        lemma_lt_irreflexive(a);
    }
    lemma_first_difference(a, b, 0);
}

proof fn lemma_first_difference(a: Seq<u8>, b: Seq<u8>, i: int)
    requires
        0 <= i <= a.len(),
        i <= b.len(),
        forall|j: int| 0 <= j < i ==> a[j] == b[j],
    ensures
        a == b || bytes_lt(a, b) || bytes_lt(b, a),
    decreases a.len() - i,
{
    if i == a.len() && i == b.len() {
        assert(a =~= b);
    } else if i == a.len() {
        assert(differ_at(a, b, i));
    } else if i == b.len() {
        assert(differ_at(b, a, i));
    } else if a[i] < b[i] {
        assert(differ_at(a, b, i));
    } else if b[i] < a[i] {
        assert(differ_at(b, a, i));
    } else {
        lemma_first_difference(a, b, i + 1);
    }
}

/// A lexicon read from its three files.
#[derive(Debug)]
pub struct MapLex {
    pub name: String,
    pub lex: Vec<u8>,
    pub srt: Vec<u32>,
    pub idx: Vec<u32>,
    /// Number of ids: the whole 32-bit numbers of `.lex.srt`.
    pub count: u32,
}

impl MapLex {
    /// The string of `id`.
    pub open spec fn string_of(&self, id: u32) -> Seq<u8> {
        str_at(self.lex@, self.idx@[id as int] as int)
    }

    /// Whether `id` has a string: an offset that lies in `.lex`.
    pub open spec fn has_id(&self, id: u32) -> bool {
        id < self.idx@.len() && self.idx@[id as int] <= self.lex@.len()
    }

    /// Validity of a lexicon: every id listed in `.lex.srt` has a
    /// string, and the strings of the ids stand there in strictly
    /// increasing order.
    pub open spec fn wf(&self) -> bool {
        &&& self.count <= self.srt@.len()
        &&& self.lex@.len() <= u32::MAX
        &&& forall|k: int| 0 <= k < self.count ==> self.has_id(#[trigger] self.srt@[k])
        &&& forall|i: int, j: int|
            0 <= i < j < self.count ==> bytes_lt(
                self.string_of(#[trigger] self.srt@[i]),
                self.string_of(#[trigger] self.srt@[j]),
            )
    }

    /// Opens a lexicon from the contents of its `.lex`, `.lex.srt` and
    /// `.lex.idx` files: `None` where `.lex.srt` has more whole numbers
    /// than a 32-bit count can hold.
    pub fn open(base: &str, lex: &[u8], srt: &[u8], idx: &[u8]) -> (r: Option<MapLex>)
        ensures
            r is Some <==> srt@.len() / 4 <= u32::MAX,
            r matches Some(l) ==> {
                &&& l.name@ == base@
                &&& l.lex@ == lex@
                &&& l.srt@ == le_u32s(srt@)
                &&& l.idx@ == le_u32s(idx@)
                &&& l.count == srt@.len() / 4
            },
    {
        let n: usize = srt.len() / 4;
        if n > u32::MAX as usize {
            return None;
        }
        let bytes = vstd::slice::slice_to_vec(lex);
        Some(
            MapLex {
                name: base.to_owned(),
                lex: bytes,
                srt: u32_words(srt),
                idx: u32_words(idx),
                count: n as u32,
            },
        )
    }

    fn end_of(&self, l: usize) -> (r: usize)
        requires
            l <= self.lex@.len(),
        ensures
            r == nul_from(self.lex@, l as int),
            l <= r <= self.lex@.len(),
    {
        let mut r: usize = l;
        while r < self.lex.len() && self.lex[r] != 0
            invariant
                l <= r <= self.lex@.len(),
                nul_from(self.lex@, l as int) == nul_from(self.lex@, r as int),
            decreases self.lex@.len() - r,
        {
            r = r + 1;
        }
        r
    }

    /// The string of `id`: the bytes from its offset up to the next
    /// zero byte.
    pub fn id2str(&self, id: u32) -> (s: &[u8])
        requires
            self.has_id(id),
        ensures
            s@ == self.string_of(id),
    {
        let l: usize = self.idx[id as usize] as usize;
        let r: usize = self.end_of(l);
        slice_subrange(self.lex.as_slice(), l, r)
    }

    /// How the string of `id` stands to `s`.
    pub fn rank(&self, id: u32, s: &[u8]) -> (r: Rank)
        requires
            self.has_id(id),
        ensures
            r == rank_of(self.string_of(id), s@),
    {
        let a: &[u8] = self.id2str(id);
        let mut i: usize = 0;
        while i < a.len() && i < s.len() && a[i] == s[i]
            invariant
                i <= a.len(),
                i <= s.len(),
                forall|j: int| 0 <= j < i ==> a@[j] == s@[j],
            decreases a.len() - i,
        {
            i += 1;
        }
        proof {
            lemma_lt_total(a@, s@);
        }
        if i == a.len() && i == s.len() {
            assert(a@ =~= s@);
            Rank::Same
        } else if i == a.len() {
            assert(differ_at(a@, s@, i as int));
            Rank::Before
        } else if i == s.len() {
            assert(differ_at(s@, a@, i as int));
            proof {
                lemma_lt_irreflexive(a@);
            }
            Rank::After
        } else if a[i] < s[i] {
            assert(differ_at(a@, s@, i as int));
            Rank::Before
        } else {
            assert(differ_at(s@, a@, i as int));
            proof {
                lemma_lt_irreflexive(a@);
            }
            Rank::After
        }
    }

    /// The id whose string is `s`, by a binary search through the ids in
    /// the order of their strings; `None` where no id has it.
    pub fn str2id(&self, s: &str) -> (r: Option<u32>)
        requires
            self.wf(),
        ensures
            self.finds(s.spec_bytes(), r),
    {
        self.bytes2id(s.as_bytes())
    }

    /// What a search for the string `s` returns: an id listed in
    /// `.lex.srt` whose string is `s`, or `None` where none has it.
    pub open spec fn finds(&self, s: Seq<u8>, r: Option<u32>) -> bool {
        match r {
            Some(id) => exists|k: int|
                0 <= k < self.count && #[trigger] self.srt@[k] == id && self.string_of(id) == s,
            None => forall|k: int|
                0 <= k < self.count ==> self.string_of(#[trigger] self.srt@[k]) != s,
        }
    }

    /// The id whose string is the bytes `s`.
    pub fn bytes2id(&self, s: &[u8]) -> (r: Option<u32>)
        requires
            self.wf(),
        ensures
            self.finds(s@, r),
    {
        let mut bot: u32 = 0;
        let mut top: u32 = self.count;
        while bot < top
            invariant
                self.wf(),
                bot <= top <= self.count,
                forall|k: int|
                    0 <= k < bot ==> bytes_lt(self.string_of(#[trigger] self.srt@[k]), s@),
                forall|k: int|
                    top <= k < self.count ==> bytes_lt(s@, self.string_of(#[trigger] self.srt@[k])),
            decreases top - bot,
        {
            let cur_id: u32 = bot + (top - bot) / 2;
            let sort_id: u32 = self.srt[cur_id as usize];
            proof {
                lemma_lt_total(self.string_of(sort_id), s@);
            }
            match self.rank(sort_id, s) {
                Rank::Before => {
                    assert forall|k: int| 0 <= k < cur_id + 1 implies bytes_lt(
                        self.string_of(#[trigger] self.srt@[k]),
                        s@,
                    ) by {
                        if k < cur_id {
                            lemma_lt_transitive(
                                self.string_of(self.srt@[k]),
                                self.string_of(sort_id),
                                s@,
                            );
                        }
                    }
                    bot = cur_id + 1;
                },
                Rank::After => {
                    assert forall|k: int| cur_id <= k < self.count implies bytes_lt(
                        s@,
                        self.string_of(#[trigger] self.srt@[k]),
                    ) by {
                        if k > cur_id {
                            lemma_lt_transitive(
                                s@,
                                self.string_of(sort_id),
                                self.string_of(self.srt@[k]),
                            );
                        }
                    }
                    top = cur_id;
                },
                Rank::Same => {
                    assert(self.srt@[cur_id as int] == sort_id);
                    return Some(sort_id);
                },
            }
        }
        proof {
            assert forall|k: int| 0 <= k < self.count implies self.string_of(
                #[trigger] self.srt@[k],
            ) != s@ by {
                lemma_lt_irreflexive(s@);
            }
        }
        None
    }

    /// Whether `id` has a string.
    pub fn knows_id(&self, id: u32) -> (b: bool)
        ensures
            b == self.has_id(id),
    {
        (id as usize) < self.idx.len() && self.idx[id as usize] as usize <= self.lex.len()
    }

    /// Whether the lexicon is valid, found by reading all of it.
    pub fn check(&self) -> (b: bool)
        ensures
            b == self.wf(),
    {
        if self.count as usize > self.srt.len() || self.lex.len() > u32::MAX as usize {
            return false;
        }
        let mut k: u32 = 0;
        while k < self.count
            invariant
                k <= self.count,
                self.count <= self.srt@.len(),
                self.lex@.len() <= u32::MAX,
                forall|j: int| 0 <= j < k ==> self.has_id(#[trigger] self.srt@[j]),
                forall|i: int, j: int|
                    0 <= i < j < k ==> bytes_lt(
                        self.string_of(#[trigger] self.srt@[i]),
                        self.string_of(#[trigger] self.srt@[j]),
                    ),
            decreases self.count - k,
        {
            let id: u32 = self.srt[k as usize];
            if id as usize >= self.idx.len() || self.idx[id as usize] as usize > self.lex.len() {
                assert(!self.has_id(self.srt@[k as int]));
                return false;
            }
            if k > 0 {
                let prev: u32 = self.srt[(k - 1) as usize];
                let s: &[u8] = self.id2str(id);
                proof {
                    lemma_lt_total(self.string_of(prev), s@);
                    lemma_lt_irreflexive(s@);
                }
                match self.rank(prev, s) {
                    Rank::Before => {},
                    _ => {
                        assert(!bytes_lt(
                            self.string_of(self.srt@[k - 1]),
                            self.string_of(self.srt@[k as int]),
                        ));
                        return false;
                    },
                }
                assert forall|i: int, j: int| 0 <= i < j < k + 1 implies bytes_lt(
                    self.string_of(#[trigger] self.srt@[i]),
                    self.string_of(#[trigger] self.srt@[j]),
                ) by {
                    if j == k && i < k - 1 {
                        lemma_lt_transitive(
                            self.string_of(self.srt@[i]),
                            self.string_of(self.srt@[k - 1]),
                            self.string_of(self.srt@[k as int]),
                        );
                    }
                }
            }
            k += 1;
        }
        true
    }

    /// Number of ids.
    pub fn id_range(&self) -> (n: u32)
        ensures
            n == self.count,
    {
        self.count
    }
}

/// In a valid lexicon, the search for the string of an id that is listed
/// in `.lex.srt` finds that id and no other.
pub proof fn lemma_lexicon_round_trip(l: &MapLex, k: int, r: Option<u32>)
    requires
        l.wf(),
        0 <= k < l.count,
        l.finds(l.string_of(l.srt@[k]), r),
    ensures
        r == Some(l.srt@[k]),
{
    let s = l.string_of(l.srt@[k]);
    match r {
        None => {
            assert(l.string_of(l.srt@[k]) != s);
        },
        Some(id) => {
            let m = choose|m: int| 0 <= m < l.count && #[trigger] l.srt@[m] == id && l.string_of(id)
                == s;
            lemma_lt_irreflexive(s);
            if m < k {
                assert(bytes_lt(l.string_of(l.srt@[m]), l.string_of(l.srt@[k])));
            } else if k < m {
                assert(bytes_lt(l.string_of(l.srt@[k]), l.string_of(l.srt@[m])));
            }
        },
    }
}

/// A search finds an id or none, not both.
pub proof fn lemma_find_one(l: &MapLex, s: Seq<u8>, r: Option<u32>)
    requires
        r is Some,
        l.finds(s, r),
    ensures
        !l.finds(s, None),
{
    let id = r->0;
    let k = choose|k: int| 0 <= k < l.count && #[trigger] l.srt@[k] == id && l.string_of(id) == s;
    assert(l.string_of(l.srt@[k]) == s);
}

/// In a valid lexicon a search finds one id only.
pub proof fn lemma_find_same(l: &MapLex, s: Seq<u8>, a: u32, b: u32)
    requires
        l.wf(),
        l.finds(s, Some(a)),
        l.finds(s, Some(b)),
    ensures
        a == b,
{
    let i = choose|k: int| 0 <= k < l.count && #[trigger] l.srt@[k] == a && l.string_of(a) == s;
    let j = choose|k: int| 0 <= k < l.count && #[trigger] l.srt@[k] == b && l.string_of(b) == s;
    lemma_lt_irreflexive(s);
    if i < j {
        assert(bytes_lt(l.string_of(l.srt@[i]), l.string_of(l.srt@[j])));
    } else if j < i {
        assert(bytes_lt(l.string_of(l.srt@[j]), l.string_of(l.srt@[i])));
    }
}

} // verus!
