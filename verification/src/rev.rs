//! Reverse index: for each id of an attribute the positions at which it
//! stands, in increasing order.
//!
//! A posting list is a run of delta codes, each the distance of a
//! position from the one before it, the first from -1. The sparse layout
//! finds the list of an id through an array of byte offsets and an array
//! of counts; the dense layout through groups of 64 records of offset
//! steps and counts.

use vstd::prelude::*;
use crate::bits::{
    delta_at,
    delta_end,
    delta_ok,
    gamma_at,
    gamma_end,
    gamma_ok,
    id_at,
    id_ok,
    ids,
    ids_ok,
    lemma_delta_range,
    window,
    Reader,
};
use crate::text::DeltaIter;
use crate::util::{le_u32s, le_words, u32_words, u64_words, FormatError};

verus! {

/// Whether a posting list of `n` positions can be read from bit `pos`,
/// the position before it being `last`: every code can be read, and no
/// position passes the range of a signed 64-bit number.
pub open spec fn list_ok(mem: Seq<u64>, pos: int, n: nat, last: int) -> bool
    decreases n,
{
    n == 0 || (id_ok(mem, pos) && last + id_at(mem, pos) + 1 <= i64::MAX && list_ok(
        mem,
        delta_end(mem, pos),
        (n - 1) as nat,
        last + id_at(mem, pos) + 1,
    ))
}

/// The `n` positions of the posting list at bit `pos`, the position
/// before it being `last`.
pub open spec fn list_of(mem: Seq<u64>, pos: int, n: nat, last: int) -> Seq<u64>
    decreases n,
{
    if n == 0 {
        Seq::empty()
    } else {
        seq![(last + id_at(mem, pos) + 1) as u64] + list_of(
            mem,
            delta_end(mem, pos),
            (n - 1) as nat,
            last + id_at(mem, pos) + 1,
        )
    }
}

/// Every code of a readable posting list can be read.
pub proof fn lemma_list_ok_ids(mem: Seq<u64>, pos: int, n: nat, last: int)
    requires
        list_ok(mem, pos, n, last),
    ensures
        ids_ok(mem, pos, n),
        list_of(mem, pos, n, last).len() == n,
    decreases n,
{
    if n > 0 {
        lemma_list_ok_ids(mem, delta_end(mem, pos), (n - 1) as nat, last + id_at(mem, pos) + 1);
    }
}

/// The positions of a readable posting list that begins after `last`
/// are greater than `last` and strictly increasing.
pub proof fn lemma_list_increasing(mem: Seq<u64>, pos: int, n: nat, last: int)
    requires
        -1 <= last,
        list_ok(mem, pos, n, last),
    ensures
        forall|i: int| 0 <= i < n ==> last < (#[trigger] list_of(mem, pos, n, last)[i]),
        forall|i: int, j: int|
            0 <= i < j < n ==> (#[trigger] list_of(mem, pos, n, last)[i]) < (#[trigger] list_of(
                mem,
                pos,
                n,
                last,
            )[j]),
    decreases n,
{
    if n > 0 {
        let next = last + id_at(mem, pos) + 1;
        let rest = list_of(mem, delta_end(mem, pos), (n - 1) as nat, next);
        lemma_list_ok_ids(mem, pos, n, last);
        lemma_list_ok_ids(mem, delta_end(mem, pos), (n - 1) as nat, next);
        lemma_list_increasing(mem, delta_end(mem, pos), (n - 1) as nat, next);
        let l = list_of(mem, pos, n, last);
        assert forall|i: int| 0 <= i < n implies last < #[trigger] l[i] by {
            if i > 0 {
                assert(l[i] == rest[i - 1]);
            }
        }
        assert forall|i: int, j: int| 0 <= i < j < n implies (#[trigger] l[i]) < (#[trigger] l[j]) by {
            assert(l[j] == rest[j - 1]);
            if i > 0 {
                assert(l[i] == rest[i - 1]);
            }
        }
    }
}

/// Iterator over the positions of a posting list.
#[derive(Debug)]
pub struct RevIter<'a> {
    pub di: DeltaIter<'a>,
    pub last: i64,
}

impl<'a> View for RevIter<'a> {
    type V = Seq<u64>;

    /// The positions that are still to come.
    open spec fn view(&self) -> Seq<u64> {
        list_of(
            self.di.rb.words(),
            self.di.rb.position(),
            self.di.remaining as nat,
            self.last as int,
        )
    }
}

impl<'a> RevIter<'a> {
    /// Every position that is still to come can be read.
    pub open spec fn wf(&self) -> bool {
        &&& -1 <= self.last
        &&& list_ok(
            self.di.rb.words(),
            self.di.rb.position(),
            self.di.remaining as nat,
            self.last as int,
        )
    }

    /// The next position, or `None` at the end. Each is greater than
    /// the one before it.
    pub fn next(&mut self) -> (r: Option<u64>)
        requires
            old(self).wf(),
        ensures
            final(self).wf(),
            old(self)@.len() == 0 ==> r is None && *final(self) == *old(self),
            old(self)@.len() > 0 ==> r == Some(old(self)@[0]) && final(self)@ == old(self)@.skip(1)
                && old(self).last < old(self)@[0] && final(self).last == old(self)@[0],
    {
        proof {
            lemma_list_ok_ids(
                self.di.rb.words(),
                self.di.rb.position(),
                self.di.remaining as nat,
                self.last as int,
            );
        }
        match self.di.next() {
            Some(v) => {
                self.last += (v + 1) as i64;
                proof {
                    assert(final(self)@ =~= old(self)@.skip(1));
                }
                Some(self.last as u64)
            },
            None => None,
        }
    }
}

/// What both layouts of a reverse index offer.
pub trait Rev {
    /// Whether the posting list of `id` can be read.
    spec fn has_id(&self, id: u32) -> bool;

    /// The positions of `id`.
    spec fn postings(&self, id: u32) -> Seq<u64>;

    /// Whether the posting list of `id` can be read.
    fn check_id(&self, id: u32) -> (b: bool)
        ensures
            b == self.has_id(id),
    ;

    /// Number of positions of `id`.
    fn count(&self, id: u32) -> (n: u64)
        requires
            self.has_id(id),
        ensures
            n == self.postings(id).len(),
    ;

    /// Iterator over the positions of `id`.
    fn id2poss(&self, id: u32) -> (it: RevIter<'_>)
        requires
            self.has_id(id),
        ensures
            it.wf(),
            it.last == -1,
            it@ == self.postings(id),
    ;
}

/// Magic number of a sparse reverse index.
pub open spec fn rev_magic() -> Seq<u8> {
    seq![0xa3u8, 0x66u8, 0x69u8, 0x6eu8, 0x44u8, 0x52u8]
}

/// Magic number of a dense reverse index.
pub open spec fn rev_dense_magic() -> Seq<u8> {
    seq![0xa8u8, 0x66u8, 0x69u8, 0x6eu8, 0x44u8, 0x52u8]
}

/// Walks a run of `n` codes of a posting list, as `list_ok` reads it.
fn check_list(mem: &Vec<u64>, pos: usize, n: u64) -> (b: bool)
    ensures
        b == list_ok(mem@, pos as int, n as nat, -1),
{
    let mut rb = Reader::open(mem.as_slice(), pos);
    let mut last: i64 = -1;
    let mut left: u64 = n;
    while left > 0
        invariant
            rb.words() == mem@,
            -1 <= last,
            list_ok(mem@, pos as int, n as nat, -1) == list_ok(
                mem@,
                rb.position(),
                left as nat,
                last as int,
            ),
        decreases left,
    {
        if !rb.can_delta() {
            return false;
        }
        let d: u64 = rb.delta();
        let t: u64 = d & 0xffff_ffff;
        assert(t <= 0xffff_ffff) by (bit_vector)
            requires
                t == d & 0xffff_ffff,
        ;
        if t == 0 {
            return false;
        }
        if last > i64::MAX - t as i64 {
            return false;
        }
        last = last + t as i64;
        left -= 1;
    }
    true
}

/// The sparse layout.
#[derive(Debug)]
pub struct Delta {
    pub crevf: Vec<u64>,
    pub crdxf: Vec<u32>,
    pub cntf: Vec<u32>,
    pub alignmult: usize,
    /// Number of ids: the whole 32-bit numbers of the file of counts.
    pub ids: usize,
}

impl Delta {
    /// Bit position of the posting list of `id`.
    pub open spec fn bit_of(&self, id: u32) -> int {
        self.crdxf@[id as int] * self.alignmult * 8
    }

    /// Opens a sparse index from the contents of its `.rev`, `.rev.idx`
    /// and `.rev.cnt` files. The multiplier of the byte offsets is read
    /// from the header where the first offset is not zero, and is 1 where
    /// it is zero or there is none.
    pub fn open(rev: &[u8], idx: &[u8], cnt: &[u8]) -> (r: Result<Delta, FormatError>)
        ensures
            r is Ok <==> sparse_header_ok(rev@, idx@),
            r matches Ok(d) ==> {
                &&& d.crevf@ == le_words(rev@)
                &&& d.crdxf@ == le_u32s(idx@)
                &&& d.cntf@ == le_u32s(cnt@)
                &&& d.ids == cnt@.len() / 4
                &&& d.alignmult == if d.crdxf@.len() > 0 && d.crdxf@[0] > 0 {
                    delta_at(d.crevf@, 48) - 1
                } else {
                    1
                }
            },
            r matches Err(e) ==> e == FormatError::BadHeader,
    {
        let crevf = u64_words(rev);
        let crdxf = u32_words(idx);
        let cntf = u32_words(cnt);
        let mut alignmult: usize = 1;
        if crdxf.len() > 0 && crdxf[0] > 0 {
            let mut rb = Reader::open(crevf.as_slice(), 6 * 8);
            if !rb.can_delta() {
                return Err(FormatError::BadHeader);
            }
            let m: u64 = rb.delta() - 1;
            if m > usize::MAX as u64 {
                return Err(FormatError::BadHeader);
            }
            alignmult = m as usize;
        }
        Ok(Delta { crevf, crdxf, cntf, alignmult, ids: cnt.len() / 4 })
    }

    fn seek_bits(&self, id: u32) -> (r: Option<usize>)
        requires
            id < self.crdxf@.len(),
        ensures
            r is Some <==> self.bit_of(id) <= usize::MAX,
            r matches Some(b) ==> b == self.bit_of(id),
    {
        let a: u64 = self.crdxf[id as usize] as u64;
        let m: u64 = self.alignmult as u64;
        assert(a * m * 8 == self.bit_of(id)) by (nonlinear_arith)
            requires
                a == self.crdxf@[id as int],
                m == self.alignmult,
        ;
        match a.checked_mul(m) {
            None => {
                assert(a * m * 8 > usize::MAX) by (nonlinear_arith)
                    requires
                        a * m > u64::MAX,
                ;
                None
            },
            Some(bytes) => match bytes.checked_mul(8) {
                None => None,
                Some(bits) => if bits > usize::MAX as u64 {
                    None
                } else {
                    Some(bits as usize)
                },
            },
        }
    }

    /// Number of positions of `id`.
    pub fn count(&self, id: u32) -> (n: u64)
        requires
            id < self.cntf@.len(),
        ensures
            n == self.cntf@[id as int],
    {
        self.cntf[id as usize] as u64
    }

    /// Iterator over the positions of `id`.
    pub fn id2poss(&self, id: u32) -> (it: RevIter<'_>)
        requires
            Rev::has_id(self, id),
        ensures
            it.wf(),
            it.last == -1,
            it@ == Rev::postings(self, id),
            it.di.remaining == self.cntf@[id as int],
            it.di.rb.position() == self.bit_of(id),
    {
        let cnt: u64 = self.count(id);
        let seek: usize = match self.seek_bits(id) {
            Some(b) => b,
            None => 0,
        };
        let rb = Reader::open(self.crevf.as_slice(), seek);
        RevIter { di: DeltaIter { remaining: cnt, rb }, last: -1 }
    }
}

impl Rev for Delta {
    open spec fn has_id(&self, id: u32) -> bool {
        &&& id < self.ids
        &&& id < self.cntf@.len()
        &&& id < self.crdxf@.len()
        &&& self.bit_of(id) <= usize::MAX
        &&& list_ok(self.crevf@, self.bit_of(id), self.cntf@[id as int] as nat, -1)
    }

    open spec fn postings(&self, id: u32) -> Seq<u64> {
        list_of(self.crevf@, self.bit_of(id), self.cntf@[id as int] as nat, -1)
    }

    fn check_id(&self, id: u32) -> (b: bool) {
        if id as usize >= self.ids || id as usize >= self.cntf.len() || id as usize
            >= self.crdxf.len() {
            return false;
        }
        match self.seek_bits(id) {
            None => false,
            Some(bit) => check_list(&self.crevf, bit, self.cntf[id as usize] as u64),
        }
    }

    fn count(&self, id: u32) -> (n: u64) {
        proof {
            lemma_list_ok_ids(self.crevf@, self.bit_of(id), self.cntf@[id as int] as nat, -1);
        }
        Delta::count(self, id)
    }

    fn id2poss(&self, id: u32) -> (it: RevIter<'_>) {
        Delta::id2poss(self, id)
    }
}

/// Bit position just after the record at bit `pos`: a delta code and a
/// gamma code.
pub open spec fn record_end(mem: Seq<u64>, pos: int) -> int {
    gamma_end(mem, delta_end(mem, pos))
}

/// Whether `n` records can be read from bit `pos`, the steps before them
/// adding up to `seek`: every code can be read, and the sum of the steps
/// stays in the range of a byte offset.
pub open spec fn records_ok(mem: Seq<u64>, pos: int, n: nat, seek: int) -> bool
    decreases n,
{
    n == 0 || (delta_ok(mem, pos) && gamma_ok(mem, delta_end(mem, pos)) && seek + delta_at(
        mem,
        pos,
    ) <= usize::MAX && records_ok(
        mem,
        record_end(mem, pos),
        (n - 1) as nat,
        seek + delta_at(mem, pos),
    ))
}

/// What `n` records from bit `pos` give, after steps that add up to
/// `seek` and a count of `cnt`: the sum of all steps, and the count of
/// the last record, which is its gamma code less one.
pub open spec fn located(mem: Seq<u64>, pos: int, n: nat, seek: int, cnt: int) -> (int, int)
    decreases n,
{
    if n == 0 {
        (seek, cnt)
    } else {
        located(
            mem,
            record_end(mem, pos),
            (n - 1) as nat,
            seek + delta_at(mem, pos),
            gamma_at(mem, delta_end(mem, pos)) - 1,
        )
    }
}

/// The dense layout.
#[derive(Debug)]
pub struct DeltaDense {
    pub crevf: Vec<u64>,
    pub crdxf0: Vec<u32>,
    pub crdxf1: Vec<u64>,
}

impl DeltaDense {
    /// Bit position in the index of groups at which the group of `id`
    /// begins.
    pub open spec fn group_bit(&self, id: u32) -> int {
        self.crdxf0@[id as int / 64] * 8
    }

    /// Whether the record of `id` can be reached: its group is listed,
    /// and the records of the group up to its own can be read.
    pub open spec fn has_record(&self, id: u32) -> bool {
        &&& id as int / 64 < self.crdxf0@.len()
        &&& self.group_bit(id) <= usize::MAX
        &&& records_ok(self.crdxf1@, self.group_bit(id), (id % 64 + 1) as nat, 0)
    }

    /// The byte offset and the count of `id`, as the walk through the
    /// records of its group up to its own gives them.
    pub open spec fn record_of(&self, id: u32) -> (int, int) {
        located(self.crdxf1@, self.group_bit(id), (id % 64 + 1) as nat, 0, 0)
    }

    /// Opens a dense index from the contents of its `.rev`, `.rev.idx0`
    /// and `.rev.idx1` files.
    pub fn open(rev: &[u8], idx0: &[u8], idx1: &[u8]) -> (d: DeltaDense)
        ensures
            d.crevf@ == le_words(rev@),
            d.crdxf0@ == le_u32s(idx0@),
            d.crdxf1@ == le_words(idx1@),
    {
        DeltaDense { crevf: u64_words(rev), crdxf0: u32_words(idx0), crdxf1: u64_words(idx1) }
    }

    /// Whether the record of `id` can be reached.
    pub fn check_record(&self, id: u32) -> (b: bool)
        ensures
            b == self.has_record(id),
    {
        let g: usize = id as usize / 64;
        if g >= self.crdxf0.len() {
            return false;
        }
        let block_seek: u64 = self.crdxf0[g] as u64 * 8;
        if block_seek > usize::MAX as u64 {
            return false;
        }
        let rem: u32 = id % 64;
        let mut rb = Reader::open(self.crdxf1.as_slice(), block_seek as usize);
        let mut seek: usize = 0;
        let mut left: u32 = rem + 1;
        while left > 0
            invariant
                rb.words() == self.crdxf1@,
                self.has_record(id) == records_ok(
                    self.crdxf1@,
                    rb.position(),
                    left as nat,
                    seek as int,
                ),
            decreases left,
        {
            if !rb.can_delta() {
                return false;
            }
            let d: u64 = rb.delta();
            if !rb.can_gamma() {
                return false;
            }
            rb.gamma();
            if d > (usize::MAX - seek) as u64 {
                return false;
            }
            seek = seek + d as usize;
            left -= 1;
        }
        true
    }

    /// The byte offset of the posting list of `id` and its count, by a
    /// walk through the records of the group of `id`: the offset is the
    /// sum of the steps of the records up to that of `id`, the count is
    /// the gamma code of that record less one.
    pub fn locate(&self, id: u32) -> (r: (usize, u64))
        requires
            self.has_record(id),
        ensures
            (r.0 as int, r.1 as int) == self.record_of(id),
    {
        let block_seek: usize = self.crdxf0[id as usize / 64] as usize * 8;
        let rem: u32 = id % 64;
        let mut rb = Reader::open(self.crdxf1.as_slice(), block_seek);
        let mut seek: usize = 0;
        let mut cnt: u64 = 0;
        let mut left: u32 = rem + 1;
        while left > 0
            invariant
                rb.words() == self.crdxf1@,
                records_ok(self.crdxf1@, rb.position(), left as nat, seek as int),
                self.record_of(id) == located(
                    self.crdxf1@,
                    rb.position(),
                    left as nat,
                    seek as int,
                    cnt as int,
                ),
            decreases left,
        {
            seek += rb.delta() as usize;
            cnt = rb.gamma() - 1;
            left -= 1;
        }
        (seek, cnt)
    }

    /// Number of positions of `id`.
    pub fn count(&self, id: u32) -> (n: u64)
        requires
            self.has_record(id),
        ensures
            n == self.record_of(id).1,
    {
        let (_, cnt) = self.locate(id);
        cnt
    }

    /// Iterator over the positions of `id`.
    pub fn id2poss(&self, id: u32) -> (it: RevIter<'_>)
        requires
            Rev::has_id(self, id),
        ensures
            it.wf(),
            it.last == -1,
            it@ == Rev::postings(self, id),
            it.di.remaining == self.record_of(id).1,
            it.di.rb.position() == self.record_of(id).0 * 8,
    {
        let (seek, cnt) = self.locate(id);
        let rb = Reader::open(self.crevf.as_slice(), seek * 8);
        RevIter { di: DeltaIter { remaining: cnt, rb }, last: -1 }
    }
}

impl Rev for DeltaDense {
    open spec fn has_id(&self, id: u32) -> bool {
        &&& self.has_record(id)
        &&& self.record_of(id).0 * 8 <= usize::MAX
        &&& list_ok(self.crevf@, self.record_of(id).0 * 8, self.record_of(id).1 as nat, -1)
    }

    open spec fn postings(&self, id: u32) -> Seq<u64> {
        list_of(self.crevf@, self.record_of(id).0 * 8, self.record_of(id).1 as nat, -1)
    }

    fn check_id(&self, id: u32) -> (b: bool) {
        if !self.check_record(id) {
            return false;
        }
        let (seek, cnt) = self.locate(id);
        if seek > usize::MAX / 8 {
            return false;
        }
        check_list(&self.crevf, seek * 8, cnt)
    }

    fn count(&self, id: u32) -> (n: u64) {
        proof {
            lemma_list_ok_ids(
                self.crevf@,
                self.record_of(id).0 * 8,
                self.record_of(id).1 as nat,
                -1,
            );
        }
        DeltaDense::count(self, id)
    }

    fn id2poss(&self, id: u32) -> (it: RevIter<'_>) {
        DeltaDense::id2poss(self, id)
    }
}

/// The two layouts of a reverse index.
#[derive(Debug, Clone, Copy, PartialEq, Eq, Structural)]
pub enum Layout {
    Sparse,
    Dense,
}

/// The layout that the first six bytes of a `.rev` file name.
pub open spec fn layout_of(rev: Seq<u8>) -> Option<Layout> {
    if rev.len() >= 6 && rev.take(6) == rev_magic() {
        Some(Layout::Sparse)
    } else if rev.len() >= 6 && rev.take(6) == rev_dense_magic() {
        Some(Layout::Dense)
    } else {
        None
    }
}

/// The layout of a `.rev` file by its magic number; `BadMagic` if and
/// only if the file opens with neither of the two.
pub fn layout(rev: &[u8]) -> (r: Result<Layout, FormatError>)
    ensures
        match layout_of(rev@) {
            Some(l) => r == Ok::<Layout, FormatError>(l),
            None => r == Err::<Layout, FormatError>(FormatError::BadMagic),
        },
{
    if rev.len() < 6 {
        return Err(FormatError::BadMagic);
    }
    let tail = rev[1] == 0x66 && rev[2] == 0x69 && rev[3] == 0x6e && rev[4] == 0x44 && rev[5]
        == 0x52;
    proof {
        let t = rev@.take(6);
        assert(t[0] == rev@[0] && t[1] == rev@[1] && t[2] == rev@[2] && t[3] == rev@[3] && t[4]
            == rev@[4] && t[5] == rev@[5]);
        if tail && rev@[0] == 0xa3 {
            assert(t =~= rev_magic());
        }
        if tail && rev@[0] == 0xa8 {
            assert(t =~= rev_dense_magic());
        }
    }
    if tail && rev[0] == 0xa3 {
        Ok(Layout::Sparse)
    } else if tail && rev[0] == 0xa8 {
        Ok(Layout::Dense)
    } else {
        Err(FormatError::BadMagic)
    }
}

/// A reverse index of either layout.
#[derive(Debug)]
pub enum AnyRev {
    Sparse(Delta),
    Dense(DeltaDense),
}

impl Rev for AnyRev {
    open spec fn has_id(&self, id: u32) -> bool {
        match self {
            AnyRev::Sparse(r) => r.has_id(id),
            AnyRev::Dense(r) => r.has_id(id),
        }
    }

    open spec fn postings(&self, id: u32) -> Seq<u64> {
        match self {
            AnyRev::Sparse(r) => r.postings(id),
            AnyRev::Dense(r) => r.postings(id),
        }
    }

    fn check_id(&self, id: u32) -> (b: bool) {
        match self {
            AnyRev::Sparse(r) => r.check_id(id),
            AnyRev::Dense(r) => r.check_id(id),
        }
    }

    fn count(&self, id: u32) -> (n: u64) {
        match self {
            AnyRev::Sparse(r) => Rev::count(r, id),
            AnyRev::Dense(r) => Rev::count(r, id),
        }
    }

    fn id2poss(&self, id: u32) -> (it: RevIter<'_>) {
        match self {
            AnyRev::Sparse(r) => Rev::id2poss(r, id),
            AnyRev::Dense(r) => Rev::id2poss(r, id),
        }
    }
}

/// Whether the header of a sparse index can be read, where it is read:
/// the multiplier, a delta code at bit 48 that fits a machine word.
pub open spec fn sparse_header_ok(rev: Seq<u8>, idx: Seq<u8>) -> bool {
    le_u32s(idx).len() > 0 && le_u32s(idx)[0] > 0 ==> delta_ok(le_words(rev), 48) && delta_at(
        le_words(rev),
        48,
    ) - 1 <= usize::MAX
}

/// Opens a reverse index from the contents of its files: `.rev`, and
/// with it `.rev.idx` and `.rev.cnt` where it is sparse, `.rev.idx0` and
/// `.rev.idx1` where it is dense. It is refused for a magic number that is
/// not known, and for a sparse index whose header cannot be read.
pub fn open(rev: &[u8], first: &[u8], second: &[u8]) -> (r: Result<AnyRev, FormatError>)
    ensures
        match layout_of(rev@) {
            None => r matches Err(e) && e == FormatError::BadMagic,
            Some(Layout::Dense) => r matches Ok(AnyRev::Dense(d)) && d.crevf@ == le_words(rev@)
                && d.crdxf0@ == le_u32s(first@) && d.crdxf1@ == le_words(second@),
            Some(Layout::Sparse) => if sparse_header_ok(rev@, first@) {
                r matches Ok(AnyRev::Sparse(d)) && d.crevf@ == le_words(rev@) && d.crdxf@
                    == le_u32s(first@) && d.cntf@ == le_u32s(second@) && d.ids == second@.len() / 4
                    && d.alignmult == if d.crdxf@.len() > 0 && d.crdxf@[0] > 0 {
                    delta_at(d.crevf@, 48) - 1
                } else {
                    1
                }
            } else {
                r matches Err(e) && e == FormatError::BadHeader
            },
        },
{
    match layout(rev) {
        Err(e) => Err(e),
        Ok(Layout::Sparse) => match Delta::open(rev, first, second) {
            Ok(d) => Ok(AnyRev::Sparse(d)),
            Err(e) => Err(e),
        },
        Ok(Layout::Dense) => Ok(AnyRev::Dense(DeltaDense::open(rev, first, second))),
    }
}

/// The positions of an id that a reverse index lists are strictly
/// increasing, and there are as many of them as its count says.
pub proof fn lemma_postings_increasing(r: &AnyRev, id: u32)
    requires
        r.has_id(id),
    ensures
        forall|i: int, j: int|
            0 <= i < j < r.postings(id).len() ==> (#[trigger] r.postings(id)[i]) < (
            #[trigger] r.postings(id)[j]),
{
    match r {
        AnyRev::Sparse(d) => {
            lemma_list_ok_ids(d.crevf@, d.bit_of(id), d.cntf@[id as int] as nat, -1);
            lemma_list_increasing(d.crevf@, d.bit_of(id), d.cntf@[id as int] as nat, -1);
        },
        AnyRev::Dense(d) => {
            lemma_list_ok_ids(d.crevf@, d.record_of(id).0 * 8, d.record_of(id).1 as nat, -1);
            lemma_list_increasing(d.crevf@, d.record_of(id).0 * 8, d.record_of(id).1 as nat, -1);
        },
    }
}

} // verus!
