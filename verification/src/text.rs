//! Positional streams of ids: one id at every corpus position.
//!
//! Three layouts: `Delta`, a stream of delta codes with one entry of a
//! segment index every `segment_size` positions; `GigaDelta`, runs of 64
//! delta codes with a two-level index of blocks and offsets; and `Int`, a plain
//! array of 32-bit numbers. The view of each is the sequence of its ids.

use vstd::prelude::*;
use crate::bits::{
    delta_end,
    id_at,
    id_ok,
    ids,
    ids_end,
    ids_ok,
    lemma_delta_range,
    lemma_ids_end_bounds,
    lemma_ids_one,
    lemma_ids_split,
    window,
    Reader,
};
use crate::util::{u16_words, u32_words, u64_words, FormatError};

verus! {

/// Bit position at which the header of a text stream stands.
pub const HEADER_BIT: usize = 128;

/// Whether the two numbers of a text header can be read.
pub open spec fn header_ok(words: Seq<u64>) -> bool {
    &&& crate::bits::delta_ok(words, 128)
    &&& crate::bits::delta_ok(words, delta_end(words, 128))
    &&& crate::bits::delta_at(words, 128) - 1 <= usize::MAX
    &&& crate::bits::delta_at(words, delta_end(words, 128)) - 1 <= usize::MAX
}

/// The first number of a text header: the segment size.
pub open spec fn header_segment_size(words: Seq<u64>) -> int {
    crate::bits::delta_at(words, 128) - 1
}

/// The second number of a text header: the number of positions.
pub open spec fn header_positions(words: Seq<u64>) -> int {
    crate::bits::delta_at(words, delta_end(words, 128)) - 1
}

fn read_header(words: &Vec<u64>) -> (r: Option<(usize, usize)>)
    ensures
        r is Some <==> header_ok(words@),
        r matches Some((s, n)) ==> s == header_segment_size(words@) && n == header_positions(
            words@,
        ),
{
    let mut rb = Reader::open(words.as_slice(), HEADER_BIT);
    if !rb.can_delta() {
        return None;
    }
    let s: u64 = rb.delta() - 1;
    if !rb.can_delta() {
        return None;
    }
    let n: u64 = rb.delta() - 1;
    if s > usize::MAX as u64 || n > usize::MAX as u64 {
        return None;
    }
    Some((s as usize, n as usize))
}

proof fn lemma_mul_div(k: int, s: int, p: int)
    by (nonlinear_arith)
    requires
        s > 0,
        k * s == p,
    ensures
        p % s == 0,
        p / s == k,
{
}

proof fn lemma_div_mul(p: int, s: int)
    by (nonlinear_arith)
    requires
        s > 0,
        p >= 0,
        p % s == 0,
    ensures
        (p / s) * s == p,
{
}

proof fn lemma_div_le(a: int, b: int, s: int)
    by (nonlinear_arith)
    requires
        s > 0,
        0 <= a <= b,
    ensures
        a / s <= b / s,
{
}

/// Iterator over the ids of a delta-coded stream.
#[derive(Debug)]
pub struct DeltaIter<'a> {
    pub remaining: u64,
    pub rb: Reader<'a>,
}

impl<'a> View for DeltaIter<'a> {
    type V = Seq<u32>;

    /// The ids that are still to come.
    open spec fn view(&self) -> Seq<u32> {
        ids(self.rb.words(), self.rb.position(), self.remaining as nat)
    }
}

impl<'a> DeltaIter<'a> {
    /// Every id that is still to come can be read.
    pub open spec fn wf(&self) -> bool {
        ids_ok(self.rb.words(), self.rb.position(), self.remaining as nat)
    }

    /// The next id, or `None` at the end.
    pub fn next(&mut self) -> (r: Option<u32>)
        requires
            old(self).wf(),
        ensures
            final(self).wf(),
            old(self)@.len() == 0 ==> r is None && *final(self) == *old(self),
            old(self)@.len() > 0 ==> r == Some(old(self)@[0]) && final(self)@ == old(self)@.skip(1),
            r matches Some(v) ==> v < u32::MAX && v == id_at(
                old(self).rb.words(),
                old(self).rb.position(),
            ),
            final(self).rb.words() == old(self).rb.words(),
            final(self).remaining == if old(self).remaining > 0 {
                (old(self).remaining - 1) as u64
            } else {
                0
            },
            old(self).remaining > 0 ==> final(self).rb.position() == delta_end(
                old(self).rb.words(),
                old(self).rb.position(),
            ),
    {
        proof {
            lemma_ids_split(self.rb.words(), self.rb.position(), self.remaining as nat, 0);
        }
        if self.remaining > 0 {
            self.remaining -= 1;
            let d: u64 = self.rb.delta();
            let t: u64 = d & 0xffff_ffff;
            assert(t <= 0xffff_ffff) by (bit_vector)
                requires
                    t == d & 0xffff_ffff,
            ;
            let id: u32 = (t as u32) - 1;
            proof {
                assert(final(self)@ =~= old(self)@.skip(1));
            }
            Some(id)
        } else {
            None
        }
    }
}

/// A delta-coded text with a segment index.
#[derive(Debug)]
pub struct Delta {
    pub name: String,
    pub text: Vec<u64>,
    pub seg: Vec<u32>,
    pub positions: usize,
    pub segment_size: usize,
}

impl View for Delta {
    type V = Seq<u32>;

    /// The ids of the text, one for each position.
    open spec fn view(&self) -> Seq<u32> {
        ids(self.text@, self.start(), self.positions as nat)
    }
}

impl Delta {
    /// Number of positions between two entries of the segment index.
    pub open spec fn seg_size(&self) -> int {
        self.segment_size as int
    }

    /// Number of positions.
    pub open spec fn count(&self) -> int {
        self.positions as int
    }

    /// Bit position of the first id.
    pub open spec fn start(&self) -> int {
        if self.seg@.len() > 0 {
            self.seg@[0] as int
        } else {
            0
        }
    }

    /// Bit position of the id at position `p`, through the segment index.
    pub open spec fn bit_of(&self, p: int) -> int {
        ids_end(
            self.text@,
            self.seg@[p / self.seg_size()] as int,
            (p % self.seg_size()) as nat,
        )
    }

    /// Validity of a text: every id can be read, and each entry of the
    /// segment index gives the bit position of the id it stands for.
    pub open spec fn wf(&self) -> bool {
        &&& self.segment_size > 0
        &&& self.positions > 0 ==> (self.count() - 1) / self.seg_size()
            < self.seg@.len()
        &&& ids_ok(self.text@, self.start(), self.positions as nat)
        &&& forall|k: int|
            0 <= k < self.seg@.len() && k * self.segment_size <= self.positions
                ==> #[trigger] self.seg@[k] as int == ids_end(
                self.text@,
                self.start(),
                (k * self.segment_size) as nat,
            )
    }

    /// Opens a text from the contents of its `.text` and `.text.seg` files.
    pub fn open(base: &str, text: &[u8], seg: &[u8]) -> (r: Result<Delta, FormatError>)
        ensures
            r is Ok <==> header_ok(crate::util::le_words(text@)),
            r matches Ok(t) ==> {
                &&& t.name@ == base@
                &&& t.text@ == crate::util::le_words(text@)
                &&& t.seg@ == crate::util::le_u32s(seg@)
                &&& t.segment_size == header_segment_size(t.text@)
                &&& t.positions == header_positions(t.text@)
            },
            r matches Err(e) ==> e == FormatError::BadHeader,
    {
        let words = u64_words(text);
        let segs = u32_words(seg);
        match read_header(&words) {
            Some((s, n)) => Ok(
                Delta { name: base.to_owned(), text: words, seg: segs, positions: n, segment_size: s },
            ),
            None => Err(FormatError::BadHeader),
        }
    }

    /// Whether the text is valid, found by reading all of it.
    #[verifier::rlimit(50)]
    pub fn check(&self) -> (b: bool)
        ensures
            b == self.wf(),
    {
        if self.segment_size == 0 {
            return false;
        }
        if self.positions > 0 && (self.positions - 1) / self.segment_size >= self.seg.len() {
            return false;
        }
        if self.seg.len() == 0 {
            return true;
        }
        let start: usize = self.seg[0] as usize;
        let mut rb = Reader::open(self.text.as_slice(), start);
        let mut p: usize = 0;
        let ghost s = self.segment_size as int;
        let ghost n = self.positions as nat;
        while p < self.positions
            invariant
                p <= self.positions,
                s == self.segment_size,
                s > 0,
                n == self.positions,
                start == self.start(),
                self.seg.len() > 0,
                n > 0 ==> (n - 1) / s < self.seg@.len(),
                rb.words() == self.text@,
                rb.position() == ids_end(self.text@, start as int, p as nat),
                ids_ok(self.text@, start as int, p as nat),
                forall|k: int|
                    0 <= k < self.seg@.len() && k * s < p ==> #[trigger] self.seg@[k] as int
                        == ids_end(self.text@, start as int, (k * s) as nat),
            decreases self.positions - p,
        {
            proof {
                lemma_ids_split(self.text@, start as int, p as nat, (n - p) as nat);
                lemma_ids_split(self.text@, start as int, p as nat, 1);
                lemma_ids_one(self.text@, rb.position());
                lemma_div_le(p as int, n - 1, s);
            }
            let ghost checked = p % self.segment_size == 0;
            if p % self.segment_size == 0 {
                let k: usize = p / self.segment_size;
                proof {
                    lemma_div_mul(p as int, s);
                }
                if self.seg[k] as usize != rb.bitpos() {
                    return false;
                }
            }
            if !rb.can_delta() {
                return false;
            }
            let d: u64 = rb.delta();
            if d & 0xffff_ffff == 0 {
                return false;
            }
            proof {
                assert forall|k: int| 0 <= k < self.seg@.len() && k * s < p + 1 implies #[trigger] self.seg@[k] as int
                    == ids_end(self.text@, start as int, (k * s) as nat) by {
                    if k * s == p {
                        lemma_mul_div(k, s, p as int);
                    }
                }
            }
            p += 1;
        }
        if self.positions % self.segment_size == 0 && self.positions / self.segment_size
            < self.seg.len() {
            proof {
                lemma_div_mul(n as int, s);
            }
            if self.seg[self.positions / self.segment_size] as usize != rb.bitpos() {
                return false;
            }
        }
        proof {
            assert forall|k: int| 0 <= k < self.seg@.len() && k * s <= n implies #[trigger] self.seg@[k] as int
                == ids_end(self.text@, start as int, (k * s) as nat) by {
                if k * s == n {
                    lemma_mul_div(k, s, n as int);
                }
            }
        }
        true
    }

    /// Number of positions.
    pub fn size(&self) -> (n: usize)
        ensures
            n == self.positions,
            self.wf() ==> n == self@.len(),
    {
        proof {
            lemma_ids_split(self.text@, self.start(), self.positions as nat, 0);
        }
        self.positions
    }

    /// Iterator over the ids from position `pos` on.
    #[verifier::rlimit(50)]
    pub fn at(&self, pos: u64) -> (it: DeltaIter<'_>)
        requires
            self.wf(),
            pos <= self.positions,
            (pos as int) / (self.segment_size as int) < self.seg@.len(),
        ensures
            it.wf(),
            it@ == self@.skip(pos as int),
            it.remaining == self.positions - pos,
            it.rb.words() == self.text@,
            it.rb.position() == self.bit_of(pos as int),
    {
        let k: usize = pos as usize / self.segment_size;
        let sp: u32 = self.seg[k];
        let mut rest: u64 = pos % self.segment_size as u64;
        let ghost r0 = rest as nat;
        let mut rb = Reader::open(self.text.as_slice(), sp as usize);
        proof {
            let s = self.segment_size as int;
            let n = self.positions as nat;
            assert(pos as int == k * s + r0) by (nonlinear_arith)
                requires
                    s > 0,
                    k == pos as int / s,
                    r0 == pos as int % s,
            ;
            assert(k * s <= n) by (nonlinear_arith)
                requires
                    pos as int == k * s + r0,
                    pos <= n,
            ;
            lemma_ids_split(self.text@, self.start(), (k * s) as nat, (n - k * s) as nat);
            lemma_ids_split(self.text@, sp as int, r0, (n - pos) as nat);
            lemma_ids_split(self.text@, self.start(), pos as nat, (n - pos) as nat);
            lemma_ids_split(self.text@, self.start(), (k * s) as nat, r0);
        }
        while rest != 0
            invariant
                rest <= r0,
                rb.words() == self.text@,
                rb.position() == ids_end(self.text@, sp as int, (r0 - rest) as nat),
                ids_ok(self.text@, sp as int, r0),
            decreases rest,
        {
            proof {
                lemma_ids_split(self.text@, sp as int, (r0 - rest) as nat, rest as nat);
                lemma_ids_split(self.text@, sp as int, (r0 - rest) as nat, 1);
                assert(ids_end(self.text@, delta_end(self.text@, rb.position()), 0) == delta_end(
                    self.text@,
                    rb.position(),
                ));
            }
            rb.delta();
            rest -= 1;
        }
        let it = DeltaIter { remaining: self.positions as u64 - pos, rb };
        proof {
            assert(it@ =~= self@.skip(pos as int));
        }
        it
    }

    /// The id at position `pos`.
    pub fn get(&self, pos: u64) -> (id: u32)
        requires
            self.wf(),
            pos < self.positions,
        ensures
            id == self@[pos as int],
    {
        proof {
            let s = self.segment_size as int;
            assert(pos as int / s <= (self.positions - 1) / s) by (nonlinear_arith)
                requires
                    s > 0,
                    0 <= pos as int <= self.positions - 1,
            ;
            lemma_ids_split(self.text@, self.start(), self.positions as nat, 0);
        }
        let mut it = self.at(pos);
        match it.next() {
            Some(id) => id,
            None => 0,
        }
    }
}

/// A delta-coded text whose format has yet to be settled.
#[derive(Debug)]
pub struct BigDelta {
}

/// A delta-coded text with a two-level index: a block number for every
/// 1024 positions and an offset into the block for every 64. Each run of
/// 64 positions begins at the byte that the indexes give for it.
#[derive(Debug)]
pub struct GigaDelta {
    pub name: String,
    pub text: Vec<u64>,
    pub offset: Vec<u16>,
    pub segment: Vec<u32>,
    pub positions: usize,
}

impl View for GigaDelta {
    type V = Seq<u32>;

    /// The ids of the text, one for each position: the ids of the runs,
    /// one run after the other.
    open spec fn view(&self) -> Seq<u32> {
        Seq::new(self.positions as nat, |p: int| self.run(p / 64)[p % 64])
    }
}

impl GigaDelta {
    /// Bit position at which the `j`-th run of 64 positions begins: the
    /// block of 2048 bytes that the segment index names, and the byte
    /// offset into it.
    pub open spec fn block_start(&self, j: int) -> int {
        self.segment@[j / 16] * 16384 + self.offset@[j] * 8
    }

    /// Whether both indexes have an entry for the `j`-th run.
    pub open spec fn has_block(&self, j: int) -> bool {
        0 <= j < self.offset@.len() && j / 16 < self.segment@.len()
    }

    /// Number of positions of the `j`-th run: 64, or what is left of the
    /// text.
    pub open spec fn run_len(&self, j: int) -> nat {
        if self.positions - 64 * j >= 64 {
            64
        } else if self.positions - 64 * j > 0 {
            (self.positions - 64 * j) as nat
        } else {
            0
        }
    }

    /// The ids of the `j`-th run, read from the bit at which it begins.
    pub open spec fn run(&self, j: int) -> Seq<u32> {
        ids(self.text@, self.block_start(j), self.run_len(j))
    }

    /// Whether the `j`-th run can be read: the indexes have an entry for
    /// it, and each of its ids can be read.
    pub open spec fn run_ok(&self, j: int) -> bool {
        &&& self.has_block(j)
        &&& self.block_start(j) <= usize::MAX
        &&& ids_ok(self.text@, self.block_start(j), self.run_len(j))
    }

    /// Bit position of the id at position `p`, through the indexes.
    pub open spec fn bit_of(&self, p: int) -> int {
        ids_end(self.text@, self.block_start(p / 64), (p % 64) as nat)
    }

    /// Validity of a text: every run can be read. What stands between
    /// the end of a run and the beginning of the next is not read.
    pub open spec fn wf(&self) -> bool {
        forall|j: int| 0 <= j && 64 * j < self.positions ==> #[trigger] self.run_ok(j)
    }

    /// In a valid text the id at position `p` can be read at the bit that
    /// the indexes give for `p`, and within a run each id stands behind
    /// the one before it.
    pub proof fn lemma_run_step(&self, p: int)
        requires
            self.wf(),
            0 <= p < self.positions,
        ensures
            self.run_ok(p / 64),
            id_ok(self.text@, self.bit_of(p)),
            self@[p] == id_at(self.text@, self.bit_of(p)),
            0 <= self.bit_of(p) <= usize::MAX,
            (p + 1) % 64 != 0 ==> self.bit_of(p + 1) == delta_end(self.text@, self.bit_of(p)),
            (p + 1) % 64 == 0 ==> self.bit_of(p + 1) == self.block_start((p + 1) / 64),
    {
        let j = p / 64;
        let r = (p % 64) as nat;
        let len = self.run_len(j);
        let bs = self.block_start(j);
        assert(self.run_ok(j));
        assert(r < len);
        lemma_ids_split(self.text@, bs, r, (len - r) as nat);
        lemma_ids_split(self.text@, bs, r, 1);
        let e = ids_end(self.text@, bs, r);
        lemma_ids_one(self.text@, e);
        lemma_ids_end_bounds(self.text@, bs, r);
        assert(ids(self.text@, e, (len - r) as nat)[0] == id_at(self.text@, e));
        assert(self.run(j)[r as int] == ids(self.text@, e, (len - r) as nat)[0]);
        if (p + 1) % 64 != 0 {
            assert((p + 1) / 64 == j && (p + 1) % 64 == r + 1);
        } else {
            assert(ids_end(self.text@, self.block_start((p + 1) / 64), 0) == self.block_start(
                (p + 1) / 64,
            ));
        }
    }

    /// Opens a text from the contents of its `.text`, `.text.seg` and
    /// `.text.off` files.
    pub fn open(base: &str, text: &[u8], seg: &[u8], off: &[u8]) -> (r: Result<
        GigaDelta,
        FormatError,
    >)
        ensures
            r is Ok <==> header_ok(crate::util::le_words(text@)),
            r matches Ok(t) ==> {
                &&& t.name@ == base@
                &&& t.text@ == crate::util::le_words(text@)
                &&& t.segment@ == crate::util::le_u32s(seg@)
                &&& t.offset@ == crate::util::le_u16s(off@)
                &&& t.positions == header_positions(t.text@)
            },
            r matches Err(e) ==> e == FormatError::BadHeader,
    {
        let words = u64_words(text);
        match read_header(&words) {
            Some((_s, n)) => Ok(
                GigaDelta {
                    name: base.to_owned(),
                    text: words,
                    offset: u16_words(off),
                    segment: u32_words(seg),
                    positions: n,
                },
            ),
            None => Err(FormatError::BadHeader),
        }
    }

    fn seek_of(&self, j: usize) -> (seek: u64)
        requires
            self.has_block(j as int),
        ensures
            seek == self.block_start(j as int),
    {
        (self.offset[j] as u64) * 8 + (self.segment[j / 16] as u64) * 16384
    }

    /// Whether the `j`-th run can be read, found by reading it.
    fn check_run(&self, j: usize) -> (b: bool)
        requires
            64 * j < self.positions,
        ensures
            b == self.run_ok(j as int),
    {
        if j >= self.offset.len() || j / 16 >= self.segment.len() {
            return false;
        }
        let seek: u64 = self.seek_of(j);
        if seek > usize::MAX as u64 {
            return false;
        }
        let rest: usize = self.positions - 64 * j;
        let len: usize = if rest >= 64 {
            64
        } else {
            rest
        };
        let mut rb = Reader::open(self.text.as_slice(), seek as usize);
        let mut m: usize = 0;
        while m < len
            invariant
                m <= len,
                len == self.run_len(j as int),
                seek == self.block_start(j as int),
                seek <= usize::MAX,
                self.has_block(j as int),
                rb.words() == self.text@,
                rb.position() == ids_end(self.text@, seek as int, m as nat),
                ids_ok(self.text@, seek as int, m as nat),
            decreases len - m,
        {
            proof {
                lemma_ids_split(self.text@, seek as int, m as nat, (len - m) as nat);
                lemma_ids_split(self.text@, seek as int, m as nat, 1);
                lemma_ids_one(self.text@, rb.position());
            }
            if !rb.can_delta() {
                return false;
            }
            let d: u64 = rb.delta();
            if d & 0xffff_ffff == 0 {
                return false;
            }
            m += 1;
        }
        true
    }

    /// Whether the text is valid, found by reading all of it.
    pub fn check(&self) -> (b: bool)
        ensures
            b == self.wf(),
    {
        if self.positions == 0 {
            return true;
        }
        let runs: usize = (self.positions - 1) / 64 + 1;
        let mut j: usize = 0;
        while j < runs
            invariant
                j <= runs,
                self.positions > 0,
                runs == (self.positions - 1) / 64 + 1,
                forall|i: int| 0 <= i < j ==> #[trigger] self.run_ok(i),
            decreases runs - j,
        {
            if !self.check_run(j) {
                return false;
            }
            j += 1;
        }
        true
    }

    /// Iterator over the ids from position `pos` on. It stands at the bit
    /// that the indexes give for `pos`: for a multiple of 64, the block
    /// and the byte offset into it, also behind the last position where
    /// the indexes have an entry for it.
    pub fn at(&self, pos: u64) -> (it: GigaIter<'_>)
        requires
            self.wf(),
            pos <= self.positions,
        ensures
            it.wf(),
            it@ == self@.skip(pos as int),
            it.text == self,
            it.position == pos,
            pos < self.positions ==> it.rb.position() == self.bit_of(pos as int),
            pos % 64 == 0 && self.has_block(pos as int / 64) && self.block_start(pos as int / 64)
                <= usize::MAX ==> it.rb.position() == self.segment@[pos as int / 64 / 16] * 16384
                + self.offset@[pos as int / 64] * 8,
    {
        if pos as usize >= self.positions {
            let j: usize = pos as usize / 64;
            let mut seek: u64 = 0;
            if pos % 64 == 0 && j < self.offset.len() && j / 16 < self.segment.len() {
                let s: u64 = self.seek_of(j);
                if s <= usize::MAX as u64 {
                    seek = s;
                }
            }
            return GigaIter {
                text: self,
                position: pos as usize,
                rb: Reader::open(self.text.as_slice(), seek as usize),
            };
        }
        let mut rest: u64 = pos % 64;
        let j: usize = pos as usize / 64;
        proof {
            self.lemma_run_step(pos as int);
        }
        let seek: u64 = self.seek_of(j);
        let ghost r0 = rest as nat;
        let ghost len = self.run_len(j as int);
        proof {
            lemma_ids_split(self.text@, seek as int, r0, (len - r0) as nat);
        }
        let mut rb = Reader::open(self.text.as_slice(), seek as usize);
        while rest != 0
            invariant
                rest <= r0,
                rb.words() == self.text@,
                rb.position() == ids_end(self.text@, seek as int, (r0 - rest) as nat),
                ids_ok(self.text@, seek as int, r0),
            decreases rest,
        {
            proof {
                lemma_ids_split(self.text@, seek as int, (r0 - rest) as nat, rest as nat);
                lemma_ids_split(self.text@, seek as int, (r0 - rest) as nat, 1);
                lemma_ids_one(self.text@, rb.position());
            }
            rb.delta();
            rest -= 1;
        }
        GigaIter { text: self, position: pos as usize, rb }
    }

    /// Number of positions.
    pub fn size(&self) -> (n: usize)
        ensures
            n == self.positions,
            n == self@.len(),
    {
        self.positions
    }

    /// The id at position `pos`.
    pub fn get(&self, pos: u64) -> (id: u32)
        requires
            self.wf(),
            pos < self.positions,
        ensures
            id == self@[pos as int],
    {
        let mut it = self.at(pos);
        match it.next() {
            Some(id) => id,
            None => 0,
        }
    }
}

/// Iterator over the ids of a text with a two-level index. At the end of
/// each run of 64 positions it goes on at the bit that the indexes give
/// for the next run.
#[derive(Debug)]
pub struct GigaIter<'a> {
    pub text: &'a GigaDelta,
    /// Position of the id that comes next.
    pub position: usize,
    pub rb: Reader<'a>,
}

impl<'a> View for GigaIter<'a> {
    type V = Seq<u32>;

    /// The ids that are still to come.
    open spec fn view(&self) -> Seq<u32> {
        if self.position <= self.text.positions {
            self.text@.skip(self.position as int)
        } else {
            Seq::empty()
        }
    }
}

impl<'a> GigaIter<'a> {
    /// The text is valid, and the reader stands at the id that comes
    /// next.
    pub open spec fn wf(&self) -> bool {
        &&& self.text.wf()
        &&& self.position <= self.text.positions
        &&& self.rb.words() == self.text.text@
        &&& self.position < self.text.positions ==> self.rb.position() == self.text.bit_of(
            self.position as int,
        )
    }

    /// The next id, or `None` at the end.
    pub fn next(&mut self) -> (r: Option<u32>)
        requires
            old(self).wf(),
        ensures
            final(self).wf(),
            final(self).text == old(self).text,
            old(self)@.len() == 0 ==> r is None && *final(self) == *old(self),
            old(self)@.len() > 0 ==> r == Some(old(self)@[0]) && final(self)@ == old(self)@.skip(1)
                && final(self).position == old(self).position + 1,
    {
        let t: &'a GigaDelta = self.text;
        if self.position >= t.positions {
            return None;
        }
        proof {
            t.lemma_run_step(self.position as int);
        }
        let d: u64 = self.rb.delta();
        let v: u64 = d & 0xffff_ffff;
        assert(v <= 0xffff_ffff) by (bit_vector)
            requires
                v == d & 0xffff_ffff,
        ;
        let id: u32 = (v as u32) - 1;
        self.position += 1;
        if self.position < t.positions && self.position % 64 == 0 {
            proof {
                t.lemma_run_step(self.position as int);
            }
            let seek: u64 = t.seek_of(self.position / 64);
            self.rb = Reader::open(t.text.as_slice(), seek as usize);
        }
        proof {
            assert(final(self)@ =~= old(self)@.skip(1));
        }
        Some(id)
    }
}

/// Iterator over the ids of a stream of either layout.
#[derive(Debug)]
pub enum StreamIter<'a> {
    /// Over one run of delta codes.
    Plain(DeltaIter<'a>),
    /// Over runs that the indexes give.
    Runs(GigaIter<'a>),
}

impl<'a> View for StreamIter<'a> {
    type V = Seq<u32>;

    /// The ids that are still to come.
    open spec fn view(&self) -> Seq<u32> {
        match self {
            StreamIter::Plain(it) => it@,
            StreamIter::Runs(it) => it@,
        }
    }
}

impl<'a> StreamIter<'a> {
    /// Every id that is still to come can be read.
    pub open spec fn wf(&self) -> bool {
        match self {
            StreamIter::Plain(it) => it.wf(),
            StreamIter::Runs(it) => it.wf(),
        }
    }

    /// The next id, or `None` at the end.
    pub fn next(&mut self) -> (r: Option<u32>)
        requires
            old(self).wf(),
        ensures
            final(self).wf(),
            old(self)@.len() == 0 ==> r is None && final(self)@.len() == 0,
            old(self)@.len() > 0 ==> r == Some(old(self)@[0]) && final(self)@ == old(self)@.skip(1),
    {
        match self {
            StreamIter::Plain(it) => it.next(),
            StreamIter::Runs(it) => it.next(),
        }
    }
}

/// A text held as a plain array of 32-bit ids behind a header of 16
/// bytes.
#[derive(Debug)]
pub struct Int {
    pub name: String,
    pub positions: usize,
    pub text: Vec<u32>,
}

impl View for Int {
    type V = Seq<u32>;

    /// The ids of the text, one for each position.
    open spec fn view(&self) -> Seq<u32> {
        self.text@.subrange(4, 4 + self.positions)
    }
}

impl Int {
    /// Validity of a text: the array holds the header and every id.
    pub open spec fn wf(&self) -> bool {
        4 + self.positions <= self.text@.len()
    }

    /// Opens a text from the contents of its `.text` file: `Ok` if and
    /// only if the file holds the 16 bytes of the header.
    pub fn open(base: &str, text: &[u8]) -> (r: Result<Int, FormatError>)
        ensures
            r is Ok <==> text@.len() >= 16,
            r matches Ok(t) ==> {
                &&& t.wf()
                &&& t.name@ == base@
                &&& t.text@ == crate::util::le_u32s(text@)
                &&& t.positions == text@.len() / 4 - 4
            },
            r matches Err(e) ==> e == FormatError::BadHeader,
    {
        if text.len() / 4 < 4 {
            return Err(FormatError::BadHeader);
        }
        Ok(Int { name: base.to_owned(), positions: text.len() / 4 - 4, text: u32_words(text) })
    }

    /// The id at position `pos`.
    pub fn get(&self, pos: u64) -> (id: u32)
        requires
            self.wf(),
            pos < self.positions,
        ensures
            id == self@[pos as int],
    {
        let len: usize = self.text.len();
        assert(pos + 4 < len);
        self.text[pos as usize + 4]
    }

    /// Number of positions.
    pub fn size(&self) -> (n: usize)
        ensures
            n == self.positions,
            self.wf() ==> n == self@.len(),
    {
        self.positions
    }
}

/// Iterator over the ids of an `Int` text.
#[derive(Debug)]
pub struct IntIter<'a> {
    pub position: usize,
    pub inttext: &'a Int,
}

impl<'a> View for IntIter<'a> {
    type V = Seq<u32>;

    /// The ids that are still to come.
    open spec fn view(&self) -> Seq<u32> {
        if self.position <= self.inttext.positions {
            self.inttext@.skip(self.position as int)
        } else {
            Seq::empty()
        }
    }
}

impl<'a> IntIter<'a> {
    /// The next id, or `None` at the end.
    pub fn next(&mut self) -> (r: Option<u32>)
        requires
            old(self).inttext.wf(),
        ensures
            final(self).inttext == old(self).inttext,
            old(self)@.len() == 0 ==> r is None && *final(self) == *old(self),
            old(self)@.len() > 0 ==> r == Some(old(self)@[0]) && final(self)@ == old(self)@.skip(1)
                && final(self).position == old(self).position + 1,
    {
        if self.position < self.inttext.positions {
            let ret = Some(self.inttext.get(self.position as u64));
            self.position += 1;
            proof {
                assert(final(self)@ =~= old(self)@.skip(1));
            }
            ret
        } else {
            None
        }
    }
}

/// What every layout of a text offers.
pub trait Text {
    /// Validity of the text.
    spec fn wf(&self) -> bool;

    /// The ids of the text, one for each position.
    spec fn ids(&self) -> Seq<u32>;

    /// Whether an iterator can be opened at position `pos`.
    spec fn opens_at(&self, pos: int) -> bool;

    /// Whether the text is read through a stream of delta codes.
    spec fn is_stream(&self) -> bool;

    /// Whether the text is read as a plain array.
    spec fn is_array(&self) -> bool;

    /// Iterator over the ids of a stream from position `pos` on; `None`
    /// for a text that is no stream.
    fn posat(&self, pos: u64) -> (r: Option<StreamIter<'_>>)
        requires
            self.wf(),
            self.opens_at(pos as int),
        ensures
            r is Some <==> self.is_stream(),
            r matches Some(it) ==> it.wf() && it@ == self.ids().skip(pos as int),
    ;

    /// Iterator over the ids of an array from position `pos` on; `None`
    /// for a text that is no array.
    fn structat(&self, pos: u64) -> (r: Option<IntIter<'_>>)
        requires
            self.wf(),
            self.opens_at(pos as int),
        ensures
            r is Some <==> self.is_array(),
            r matches Some(it) ==> it.inttext.wf() && it@ == self.ids().skip(pos as int),
    ;

    /// Number of positions.
    fn size(&self) -> (n: usize)
        requires
            self.wf(),
        ensures
            n == self.ids().len(),
    ;

    /// The id at position `pos`.
    fn get(&self, pos: u64) -> (id: u32)
        requires
            self.wf(),
            pos < self.ids().len(),
        ensures
            id == self.ids()[pos as int],
    ;
}

impl Text for Delta {
    open spec fn wf(&self) -> bool {
        Delta::wf(self)
    }

    open spec fn ids(&self) -> Seq<u32> {
        self@
    }

    open spec fn opens_at(&self, pos: int) -> bool {
        0 <= pos <= self.positions && pos / self.seg_size() < self.seg@.len()
    }

    open spec fn is_stream(&self) -> bool {
        true
    }

    open spec fn is_array(&self) -> bool {
        false
    }

    fn posat(&self, pos: u64) -> (r: Option<StreamIter<'_>>) {
        Some(StreamIter::Plain(self.at(pos)))
    }

    fn structat(&self, _pos: u64) -> (r: Option<IntIter<'_>>) {
        None
    }

    fn size(&self) -> (n: usize) {
        Delta::size(self)
    }

    fn get(&self, pos: u64) -> (id: u32) {
        proof {
            lemma_ids_split(self.text@, self.start(), self.positions as nat, 0);
        }
        Delta::get(self, pos)
    }
}

impl Text for GigaDelta {
    open spec fn wf(&self) -> bool {
        GigaDelta::wf(self)
    }

    open spec fn ids(&self) -> Seq<u32> {
        self@
    }

    open spec fn opens_at(&self, pos: int) -> bool {
        0 <= pos <= self.positions
    }

    open spec fn is_stream(&self) -> bool {
        true
    }

    open spec fn is_array(&self) -> bool {
        false
    }

    fn posat(&self, pos: u64) -> (r: Option<StreamIter<'_>>) {
        Some(StreamIter::Runs(self.at(pos)))
    }

    fn structat(&self, _pos: u64) -> (r: Option<IntIter<'_>>) {
        None
    }

    fn size(&self) -> (n: usize) {
        GigaDelta::size(self)
    }

    fn get(&self, pos: u64) -> (id: u32) {
        GigaDelta::get(self, pos)
    }
}

impl Text for Int {
    open spec fn wf(&self) -> bool {
        Int::wf(self)
    }

    open spec fn ids(&self) -> Seq<u32> {
        self@
    }

    open spec fn opens_at(&self, pos: int) -> bool {
        0 <= pos <= self.positions
    }

    open spec fn is_stream(&self) -> bool {
        false
    }

    open spec fn is_array(&self) -> bool {
        true
    }

    fn structat(&self, pos: u64) -> (r: Option<IntIter<'_>>) {
        Some(IntIter { position: pos as usize, inttext: self })
    }

    fn posat(&self, _pos: u64) -> (r: Option<StreamIter<'_>>) {
        None
    }

    fn size(&self) -> (n: usize) {
        self.positions
    }

    fn get(&self, pos: u64) -> (id: u32) {
        Int::get(self, pos)
    }
}

/// A text of any layout.
#[derive(Debug)]
pub enum AnyText {
    Delta(Delta),
    GigaDelta(GigaDelta),
    Int(Int),
}

impl Text for AnyText {
    open spec fn wf(&self) -> bool {
        match self {
            AnyText::Delta(t) => Text::wf(t),
            AnyText::GigaDelta(t) => Text::wf(t),
            AnyText::Int(t) => Text::wf(t),
        }
    }

    open spec fn ids(&self) -> Seq<u32> {
        match self {
            AnyText::Delta(t) => t@,
            AnyText::GigaDelta(t) => t@,
            AnyText::Int(t) => t@,
        }
    }

    open spec fn opens_at(&self, pos: int) -> bool {
        match self {
            AnyText::Delta(t) => t.opens_at(pos),
            AnyText::GigaDelta(t) => t.opens_at(pos),
            AnyText::Int(t) => t.opens_at(pos),
        }
    }

    open spec fn is_stream(&self) -> bool {
        !(self is Int)
    }

    open spec fn is_array(&self) -> bool {
        self is Int
    }

    fn posat(&self, pos: u64) -> (r: Option<StreamIter<'_>>) {
        match self {
            AnyText::Delta(t) => t.posat(pos),
            AnyText::GigaDelta(t) => t.posat(pos),
            AnyText::Int(t) => t.posat(pos),
        }
    }

    fn structat(&self, pos: u64) -> (r: Option<IntIter<'_>>) {
        match self {
            AnyText::Delta(t) => t.structat(pos),
            AnyText::GigaDelta(t) => t.structat(pos),
            AnyText::Int(t) => t.structat(pos),
        }
    }

    fn size(&self) -> (n: usize) {
        match self {
            AnyText::Delta(t) => Text::size(t),
            AnyText::GigaDelta(t) => Text::size(t),
            AnyText::Int(t) => Text::size(t),
        }
    }

    fn get(&self, pos: u64) -> (id: u32) {
        match self {
            AnyText::Delta(t) => Text::get(t, pos),
            AnyText::GigaDelta(t) => Text::get(t, pos),
            AnyText::Int(t) => Text::get(t, pos),
        }
    }
}

impl AnyText {
    /// Whether the text is valid, found by reading all of it.
    pub fn check(&self) -> (b: bool)
        ensures
            b == Text::wf(self),
    {
        match self {
            AnyText::Delta(t) => t.check(),
            AnyText::GigaDelta(t) => t.check(),
            AnyText::Int(t) => {
                let len: usize = t.text.len();
                len >= 4 && t.positions <= len - 4
            },
        }
    }
}

/// In a valid text an iterator can be opened at every position, and the
/// first id that one opened at `p` yields is the id that `get` returns
/// for `p`.
pub proof fn lemma_iterator_starts_at_get(t: &AnyText, p: int)
    requires
        t.wf(),
        0 <= p < t.ids().len(),
    ensures
        t.opens_at(p),
        t.ids().skip(p).len() > 0,
        t.ids().skip(p)[0] == t.ids()[p],
{
    match t {
        AnyText::Delta(d) => {
            lemma_ids_split(d.text@, d.start(), d.positions as nat, 0);
            lemma_div_le(p, d.count() - 1, d.seg_size());
        },
        AnyText::GigaDelta(_) => {},
        AnyText::Int(_) => {},
    }
}

/// Number of ids of the `k`-th segment of a text of `n` positions in
/// segments of `s`.
pub open spec fn segment_len(n: int, s: int, k: int) -> nat {
    if n - k * s <= 0 {
        0
    } else if n - k * s >= s {
        s as nat
    } else {
        (n - k * s) as nat
    }
}

/// The ids of the first `m` segments of a delta text, each read from the
/// bit position that the segment index gives for it, and cut off after
/// one segment.
pub open spec fn joined_segments(t: &Delta, m: nat) -> Seq<u32>
    decreases m,
{
    if m == 0 {
        Seq::empty()
    } else {
        joined_segments(t, (m - 1) as nat) + ids(
            t.text@,
            t.seg@[m - 1] as int,
            segment_len(t.count(), t.seg_size(), m - 1),
        )
    }
}

/// In a valid delta text, the segments read one by one through the
/// segment index, each cut off after `segment_size` ids, make up the ids
/// that are read from position 0 on.
pub proof fn lemma_segments_join(t: &Delta, m: nat)
    requires
        t.wf(),
        m * t.seg_size() >= t.count(),
        m > 0 ==> (m - 1) * t.seg_size() < t.count(),
    ensures
        joined_segments(t, m) == t@,
{
    lemma_joined_prefix(t, m);
    let s = t.seg_size();
    let n = t.count();
    if m == 0 {
        assert(n == 0) by (nonlinear_arith)
            requires
                m == 0,
                m * s >= n,
                n >= 0,
        ;
    }
}

proof fn lemma_joined_prefix(t: &Delta, m: nat)
    requires
        t.wf(),
        m > 0 ==> (m - 1) * t.seg_size() < t.count(),
    ensures
        joined_segments(t, m) == ids(
            t.text@,
            t.start(),
            if m * t.seg_size() <= t.count() {
                (m * t.seg_size()) as nat
            } else {
                t.count() as nat
            },
        ),
    decreases m,
{
    let s = t.seg_size();
    let n = t.count();
    if m > 0 {
        let k = (m - 1) as nat;
        assert(k * s + s == m * s) by (nonlinear_arith)
            requires
                k == m - 1,
        ;
        assert(k > 0 ==> (k - 1) * s < n) by (nonlinear_arith)
            requires
                k * s < n,
                s > 0,
        ;
        assert(k * s >= 0) by (nonlinear_arith)
            requires
                k >= 0,
                s > 0,
        ;
        lemma_joined_prefix(t, k);
        lemma_mul_div(k as int, s, k * s);
        lemma_div_le(k * s, n - 1, s);
        assert(t.seg@[k as int] as int == ids_end(t.text@, t.start(), (k * s) as nat));
        let len = segment_len(n, s, k as int);
        lemma_ids_split(t.text@, t.start(), (k * s) as nat, len);
        assert(joined_segments(t, k) == ids(t.text@, t.start(), (k * s) as nat));
        assert(joined_segments(t, m) == ids(t.text@, t.start(), (k * s) as nat + len));
        if m * s <= n {
            assert((k * s) as nat + len == (m * s) as nat);
        } else {
            assert((k * s) as nat + len == n as nat);
        }
    } else {
        assert(m * s == 0) by (nonlinear_arith)
            requires
                m == 0,
        ;
    }
}

} // verus!
