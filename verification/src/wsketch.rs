//! Word sketch: for each head word the grammatical relations it enters,
//! and for each relation its collocates with their occurrences.
//!
//! Three bit-packed streams, one for each level, hold records of delta
//! codes; an index gives for every 64 head ids the bit position of a
//! record from which the first stream can be read. A fourth stream holds
//! the corpus positions of the occurrences.

use vstd::prelude::*;
use crate::bits::{
    bit_at,
    bits_left,
    deltas_end,
    deltas_ok,
    lemma_delta_advances,
    delta_at,
    delta_end,
    delta_ok,
    gamma_at,
    gamma_end,
    gamma_ok,
    lemma_delta_range,
    window,
    Reader,
};
use vstd::string::StringSliceAdditionalSpecFns;
use crate::corp::AnyAttr;
use crate::lex::MapLex;
use crate::util::{le_u32s, le_words, u32_words, u64_words, FormatError};

verus! {

/// What a record gives: the index and the id after it, and the bit
/// position behind it.
pub struct Record {
    pub idx: usize,
    pub id: u32,
    pub end: int,
}

/// The low 32 bits of a code.
pub open spec fn low32(v: u64) -> u32 {
    (v & 0xffff_ffff) as u32
}

/// Whether the record at bit `pos` can be read after index `idx` and
/// id `id`. A record opens with a delta code. Where that is more than 1,
/// it is added to the index, less one where `adjust` is set, and a second
/// code is added to the id. Where it is 1, the record is one to
/// synchronise by: a second code is the index and a third, less one, the
/// id.
pub open spec fn record_ok(mem: Seq<u64>, pos: int, idx: usize, id: u32, adjust: bool) -> bool {
    let add = delta_at(mem, pos);
    let second = delta_end(mem, pos);
    let third = delta_end(mem, second);
    &&& delta_ok(mem, pos)
    &&& delta_ok(mem, second)
    &&& if add > 1 {
        &&& idx + (add as usize) <= usize::MAX
        &&& adjust ==> idx + (add as usize) >= 1
        &&& id + low32(delta_at(mem, second)) <= u32::MAX
    } else {
        &&& delta_ok(mem, third)
        &&& low32(delta_at(mem, third)) >= 1
    }
}

/// What the record at bit `pos` gives after index `idx` and id `id`.
pub open spec fn record_at(mem: Seq<u64>, pos: int, idx: usize, id: u32, adjust: bool) -> Record {
    let add = delta_at(mem, pos);
    let second = delta_end(mem, pos);
    let third = delta_end(mem, second);
    if add > 1 {
        Record {
            idx: if adjust {
                (idx + (add as usize) - 1) as usize
            } else {
                (idx + (add as usize)) as usize
            },
            id: (id + low32(delta_at(mem, second))) as u32,
            end: third,
        }
    } else {
        Record {
            idx: delta_at(mem, second) as usize,
            id: (low32(delta_at(mem, third)) - 1) as u32,
            end: delta_end(mem, third),
        }
    }
}

fn low_bits(v: u64) -> (r: u32)
    ensures
        r == low32(v),
{
    let t: u64 = v & 0xffff_ffff;
    assert(t <= 0xffff_ffff) by (bit_vector)
        requires
            t == v & 0xffff_ffff,
    ;
    t as u32
}

/// Whether a record can be read at the reader's position, after index
/// `idx` and id `id`.
pub fn can_read_record(rb: &Reader<'_>, idx: usize, id: u32, adjust_idx: bool) -> (b: bool)
    ensures
        b == record_ok(rb.words(), rb.position(), idx, id, adjust_idx),
{
    let mut r = Reader::open(rb.mem(), rb.bitpos());
    if !r.can_delta() {
        return false;
    }
    let add: u64 = r.delta();
    if !r.can_delta() {
        return false;
    }
    let second: u64 = r.delta();
    if add > 1 {
        let a: usize = #[verifier::truncate] (add as usize);
        a <= usize::MAX - idx && (!adjust_idx || idx >= 1 || a >= 1) && low_bits(second) <= u32::MAX
            - id
    } else {
        if !r.can_delta() {
            return false;
        }
        let third: u64 = r.delta();
        low_bits(third) >= 1
    }
}

/// Reads one record: moves the reader past it, and sets the index and
/// the id to what it gives.
pub fn read_record(rb: &mut Reader<'_>, idx: &mut usize, id: &mut u32, adjust_idx: bool)
    requires
        record_ok(old(rb).words(), old(rb).position(), *old(idx), *old(id), adjust_idx),
    ensures
        final(rb).words() == old(rb).words(),
        final(rb).position() == record_at(
            old(rb).words(),
            old(rb).position(),
            *old(idx),
            *old(id),
            adjust_idx,
        ).end,
        *final(idx) == record_at(
            old(rb).words(),
            old(rb).position(),
            *old(idx),
            *old(id),
            adjust_idx,
        ).idx,
        *final(id) == record_at(
            old(rb).words(),
            old(rb).position(),
            *old(idx),
            *old(id),
            adjust_idx,
        ).id,
{
    let add: u64 = rb.delta();
    if add > 1 {
        *idx += #[verifier::truncate] (add as usize);
        if adjust_idx {
            *idx -= 1;
        }
        *id += low_bits(rb.delta());
    } else {
        *idx = #[verifier::truncate] (rb.delta() as usize);
        *id = low_bits(rb.delta()) - 1;
    }
}

/// The numbers from which the scale of the scores is made.
#[derive(Debug, Clone, Copy, PartialEq, Eq, Structural)]
pub struct ScoreScale {
    /// Number of bits of a stored score.
    pub sc_bits: u64,
    /// The greatest score.
    pub max_sc: u64,
    /// The least score, negated, plus one.
    pub min_sc_shifted: u64,
}

/// The header of the third stream.
#[derive(Debug, Clone, Copy, PartialEq, Eq, Structural)]
pub struct Level2Header {
    pub levelsize: u64,
    pub has_commonest: bool,
    pub adjust_idx: bool,
    /// The scale of the scores; `None` where the file gives none and the
    /// scale is the usual one.
    pub scale: Option<ScoreScale>,
    pub has_ftt: bool,
}

/// Bit position at which the header of a stream stands.
pub const HEADER_BIT: usize = 128;

/// Whether a bit can be read at bit `pos`.
pub open spec fn bit_ok(mem: Seq<u64>, pos: int) -> bool {
    0 <= pos && pos / 64 < mem.len() && pos + 1 <= usize::MAX
}

/// Whether the header of the third stream can be read: the size of the
/// level, two flags, three numbers of the scale where the second flag is
/// set, and a third flag where the version is above 5.
pub open spec fn level2_ok(mem: Seq<u64>, version: u32) -> bool {
    let p = delta_end(mem, 128);
    let q = if bit_at(mem, p + 1) {
        delta_end(mem, delta_end(mem, delta_end(mem, p + 2)))
    } else {
        p + 2
    };
    &&& delta_ok(mem, 128)
    &&& bit_ok(mem, p)
    &&& bit_ok(mem, p + 1)
    &&& bit_at(mem, p + 1) ==> {
        &&& delta_ok(mem, p + 2)
        &&& delta_ok(mem, delta_end(mem, p + 2))
        &&& delta_ok(mem, delta_end(mem, delta_end(mem, p + 2)))
    }
    &&& version > 5 ==> bit_ok(mem, q)
}

/// The header of the third stream.
pub open spec fn level2_at(mem: Seq<u64>, version: u32) -> Level2Header {
    let p = delta_end(mem, 128);
    let adjust = bit_at(mem, p + 1);
    let q = if adjust {
        delta_end(mem, delta_end(mem, delta_end(mem, p + 2)))
    } else {
        p + 2
    };
    Level2Header {
        levelsize: delta_at(mem, 128),
        has_commonest: bit_at(mem, p),
        adjust_idx: adjust,
        scale: if adjust {
            Some(
                ScoreScale {
                    sc_bits: delta_at(mem, p + 2),
                    max_sc: delta_at(mem, delta_end(mem, p + 2)),
                    min_sc_shifted: delta_at(mem, delta_end(mem, delta_end(mem, p + 2))),
                },
            )
        } else {
            None
        },
        has_ftt: version > 5 && bit_at(mem, q),
    }
}

fn read_level2(mem: &Vec<u64>, version: u32) -> (r: Option<Level2Header>)
    ensures
        r is Some <==> level2_ok(mem@, version),
        r matches Some(h) ==> h == level2_at(mem@, version),
{
    let mut rb = Reader::open(mem.as_slice(), HEADER_BIT);
    if !rb.can_delta() {
        return None;
    }
    let levelsize: u64 = rb.delta();
    if !rb.can_bit() {
        return None;
    }
    let has_commonest: bool = rb.bit();
    if !rb.can_bit() {
        return None;
    }
    let adjust_idx: bool = rb.bit();
    let mut scale: Option<ScoreScale> = None;
    if adjust_idx {
        if !rb.can_delta() {
            return None;
        }
        let sc_bits: u64 = rb.delta();
        if !rb.can_delta() {
            return None;
        }
        let max_sc: u64 = rb.delta();
        if !rb.can_delta() {
            return None;
        }
        let min_sc_shifted: u64 = rb.delta();
        scale = Some(ScoreScale { sc_bits, max_sc, min_sc_shifted });
    }
    let mut has_ftt: bool = false;
    if version > 5 {
        if !rb.can_bit() {
            return None;
        }
        has_ftt = rb.bit();
    }
    Some(Level2Header { levelsize, has_commonest, adjust_idx, scale, has_ftt })
}

/// The stream of corpus positions of a word sketch.
#[derive(Debug)]
pub struct WMapRev {
    pub revm: Vec<u64>,
    pub alignmult: usize,
    pub adjust_pos: bool,
}

/// Whether the header of the stream of positions can be read: two delta
/// codes, the first of which fits a machine word.
pub open spec fn rev_header_ok(mem: Seq<u64>) -> bool {
    &&& delta_ok(mem, 128)
    &&& delta_ok(mem, delta_end(mem, 128))
    &&& delta_at(mem, 128) <= usize::MAX
}

impl WMapRev {
    /// The stream of positions from the words of its file. A multiplier
    /// of 2 in the header stands for a multiplier of 1 with positions
    /// that are stored one too high.
    pub fn new(revm: Vec<u64>) -> (r: Option<WMapRev>)
        ensures
            r is Some <==> rev_header_ok(revm@),
            r matches Some(w) ==> {
                &&& w.revm@ == revm@
                &&& w.adjust_pos == (delta_at(revm@, 128) == 2)
                &&& w.alignmult == if delta_at(revm@, 128) == 2 {
                    1
                } else {
                    delta_at(revm@, 128) as int
                }
            },
    {
        let mut rb = Reader::open(revm.as_slice(), HEADER_BIT);
        if !rb.can_delta() {
            return None;
        }
        let mut alignmult: u64 = rb.delta();
        if !rb.can_delta() {
            return None;
        }
        let _corpsize: u64 = rb.delta();
        if alignmult > usize::MAX as u64 {
            return None;
        }
        let adjust_pos: bool = alignmult == 2;
        if adjust_pos {
            alignmult = 1;
        }
        Some(WMapRev { revm, alignmult: alignmult as usize, adjust_pos })
    }

    /// Bit position of the occurrences that begin at unit `from`.
    pub open spec fn bit_of(&self, from: usize) -> int {
        8 * from * self.alignmult
    }

    /// The stream of `cnt` occurrences that begins at unit `from`.
    pub fn poss(&self, from: usize, cnt: usize) -> (s: WMapRevStream<'_>)
        requires
            8 * from <= usize::MAX,
            self.bit_of(from) <= usize::MAX,
        ensures
            s.rb.words() == self.revm@,
            s.rb.position() == self.bit_of(from),
            s.remaining == cnt,
            s.adjust_pos == self.adjust_pos,
            s.curpos == 0,
    {
        let bitpos: usize = 8 * from * self.alignmult;
        WMapRevStream {
            rb: Reader::open(self.revm.as_slice(), bitpos),
            remaining: cnt,
            adjust_pos: self.adjust_pos,
            curpos: 0,
        }
    }
}

/// Iterator over the occurrences of a collocation: each a corpus
/// position, and for some the distance of the collocate.
pub struct WMapRevStream<'a> {
    pub rb: Reader<'a>,
    pub remaining: usize,
    pub adjust_pos: bool,
    pub curpos: i64,
}

/// What an occurrence gives: the corpus position after it, the distance
/// of the collocate, and the bit position behind it.
pub struct Occurrence {
    pub curpos: i64,
    pub coll: Option<i32>,
    pub end: int,
}

/// The distance that the code `c > 1` stands for: half of it, negated
/// where it is odd, cut to 32 bits.
pub open spec fn distance_of(c: u64) -> i32 {
    if c % 2 == 1 {
        (-((c / 2) as int)) as i32
    } else {
        (c / 2) as i32
    }
}

/// Whether the occurrence at bit `pos` can be read after the corpus
/// position `curpos`: a delta code that is added to the position, less
/// one where `adjust` is set, and a gamma code; where that is not 1, a
/// second gamma code follows, which is 1.
pub open spec fn occurrence_ok(mem: Seq<u64>, pos: int, curpos: i64, adjust: bool) -> bool {
    let second = delta_end(mem, pos);
    let c = gamma_at(mem, second);
    &&& delta_ok(mem, pos)
    &&& delta_at(mem, pos) <= i64::MAX
    &&& curpos + delta_at(mem, pos) <= i64::MAX
    &&& gamma_ok(mem, second)
    &&& c <= i64::MAX
    &&& c != 1 ==> gamma_ok(mem, gamma_end(mem, second)) && gamma_at(mem, gamma_end(mem, second)) == 1
}

/// What the occurrence at bit `pos` gives after the corpus position
/// `curpos`.
pub open spec fn occurrence_at(mem: Seq<u64>, pos: int, curpos: i64, adjust: bool) -> Occurrence {
    let second = delta_end(mem, pos);
    let c = gamma_at(mem, second);
    Occurrence {
        curpos: if adjust {
            (curpos + delta_at(mem, pos) - 1) as i64
        } else {
            (curpos + delta_at(mem, pos)) as i64
        },
        coll: if c == 1 {
            None
        } else {
            Some(distance_of(c))
        },
        end: if c == 1 {
            gamma_end(mem, second)
        } else {
            gamma_end(mem, gamma_end(mem, second))
        },
    }
}

impl<'a> WMapRevStream<'a> {
    /// The next occurrence can be read, if one is left.
    pub open spec fn next_ok(&self) -> bool {
        self.remaining > 0 ==> occurrence_ok(
            self.rb.words(),
            self.rb.position(),
            self.curpos,
            self.adjust_pos,
        )
    }

    /// Whether the next occurrence can be read, if one is left.
    pub fn can_next(&self) -> (b: bool)
        ensures
            b == self.next_ok(),
    {
        if self.remaining == 0 {
            return true;
        }
        let mut r = Reader::open(self.rb.mem(), self.rb.bitpos());
        if !r.can_delta() {
            return false;
        }
        let d: u64 = r.delta();
        if d > i64::MAX as u64 || self.curpos > i64::MAX - d as i64 {
            return false;
        }
        if !r.can_gamma() {
            return false;
        }
        let c: u64 = r.gamma();
        if c > i64::MAX as u64 {
            return false;
        }
        if c != 1 {
            if !r.can_gamma() {
                return false;
            }
            let pad: u64 = r.gamma();
            if pad != 1 {
                return false;
            }
        }
        true
    }

    /// The next occurrence: its corpus position, cut to a machine word,
    /// and the distance of its collocate; `None` at the end.
    pub fn next(&mut self) -> (r: Option<(usize, Option<i32>)>)
        requires
            old(self).next_ok(),
        ensures
            old(self).remaining == 0 ==> r is None && *final(self) == *old(self),
            old(self).remaining > 0 ==> {
                let o = occurrence_at(
                    old(self).rb.words(),
                    old(self).rb.position(),
                    old(self).curpos,
                    old(self).adjust_pos,
                );
                &&& r == Some((o.curpos as usize, o.coll))
                &&& final(self).curpos == o.curpos
                &&& final(self).rb.position() == o.end
                &&& final(self).rb.words() == old(self).rb.words()
                &&& final(self).remaining == old(self).remaining - 1
                &&& final(self).adjust_pos == old(self).adjust_pos
            },
    {
        if self.remaining == 0 {
            return None;
        }
        self.remaining -= 1;
        let d: u64 = self.rb.delta();
        self.curpos += d as i64;
        if self.adjust_pos {
            self.curpos -= 1;
        }
        let c: u64 = self.rb.gamma();
        let coll: Option<i32> = if c == 1 {
            None
        } else {
            let half: i64 = (c / 2) as i64;
            let signed: i64 = if c % 2 == 1 {
                -half
            } else {
                half
            };
            let pad: u64 = self.rb.gamma();
            Some(#[verifier::truncate] (signed as i32))
        };
        Some((#[verifier::truncate] (self.curpos as usize), coll))
    }

    /// Number of occurrences that are left.
    pub fn len(&self) -> (n: usize)
        ensures
            n == self.remaining,
    {
        self.remaining
    }
}

/// A word sketch read from its files.
#[derive(Debug)]
pub struct WMap {
    pub name: String,
    pub level0: Vec<u64>,
    pub level1: Vec<u64>,
    pub level2: Vec<u64>,
    pub levelsizes: (u64, u64, u64),
    pub final_id1: u32,
    pub map0idx: Vec<u32>,
    pub has_commonest: bool,
    pub has_ftt: bool,
    pub adjust_idx: bool,
    /// The scale of the scores; `None` for the usual one.
    pub scale: Option<ScoreScale>,
    pub version: u32,
    pub rev: WMapRev,
}

/// The version that byte 10 of the first stream stands for.
pub open spec fn version_of(map0: Seq<u8>) -> u32 {
    (4 + map0[10]) as u32
}

/// The last head id, from the header of the first stream. From version 5
/// on the file holds it plus one.
pub open spec fn final_id_of(mem: Seq<u64>, version: u32) -> u32 {
    let raw = low32(delta_at(mem, delta_end(mem, 128)));
    if version > 4 {
        raw.wrapping_sub(1)
    } else {
        raw
    }
}

/// Whether the headers of the five files of a word sketch can be read.
pub open spec fn headers_ok(
    map0: Seq<u8>,
    map1: Seq<u8>,
    map2: Seq<u8>,
    rev: Seq<u8>,
) -> bool {
    &&& map0.len() > 10
    &&& delta_ok(le_words(map0), 128)
    &&& delta_ok(le_words(map0), delta_end(le_words(map0), 128))
    &&& delta_ok(le_words(map1), 128)
    &&& level2_ok(le_words(map2), version_of(map0))
    &&& rev_header_ok(le_words(rev))
}

impl WMap {
    /// Opens a word sketch from the contents of its `.map0.com`,
    /// `.map1.com`, `.map2.com`, `.map0.idx` and `.rev` files: `Ok` if and
    /// only if the headers can be read.
    #[verifier::rlimit(50)]
    pub fn new(base: &str, map0: &[u8], map1: &[u8], map2: &[u8], map0idx: &[u8], rev: &[u8]) -> (r:
        Result<WMap, FormatError>)
        ensures
            r is Ok <==> headers_ok(map0@, map1@, map2@, rev@),
            r matches Err(e) ==> e == FormatError::BadHeader,
            r matches Ok(w) ==> {
                let h = level2_at(le_words(map2@), version_of(map0@));
                &&& w.name@ == base@
                &&& w.level0@ == le_words(map0@)
                &&& w.level1@ == le_words(map1@)
                &&& w.level2@ == le_words(map2@)
                &&& w.map0idx@ == le_u32s(map0idx@)
                &&& w.rev.revm@ == le_words(rev@)
                &&& w.version == version_of(map0@)
                &&& w.final_id1 == final_id_of(w.level0@, w.version)
                &&& w.levelsizes == (
                    delta_at(w.level0@, 128),
                    delta_at(w.level1@, 128),
                    h.levelsize,
                )
                &&& w.has_commonest == h.has_commonest
                &&& w.adjust_idx == h.adjust_idx
                &&& w.scale == h.scale
                &&& w.has_ftt == h.has_ftt
                &&& w.rev.adjust_pos == (delta_at(w.rev.revm@, 128) == 2)
                &&& w.rev.alignmult == if delta_at(w.rev.revm@, 128) == 2 {
                    1
                } else {
                    delta_at(w.rev.revm@, 128) as int
                }
            },
    {
        let level0 = u64_words(map0);
        let level1 = u64_words(map1);
        let level2 = u64_words(map2);
        if map0.len() <= 10 {
            return Err(FormatError::BadHeader);
        }
        let mut rb = Reader::open(level0.as_slice(), HEADER_BIT);
        if !rb.can_delta() {
            return Err(FormatError::BadHeader);
        }
        let size0: u64 = rb.delta();
        let version: u32 = 4 + map0[10] as u32;
        if !rb.can_delta() {
            return Err(FormatError::BadHeader);
        }
        let mut final_id1: u32 = low_bits(rb.delta());
        if version > 4 {
            final_id1 = final_id1.wrapping_sub(1u32);
        }
        let mut rb1 = Reader::open(level1.as_slice(), HEADER_BIT);
        if !rb1.can_delta() {
            return Err(FormatError::BadHeader);
        }
        let size1: u64 = rb1.delta();
        let h = match read_level2(&level2, version) {
            Some(h) => h,
            None => {
                return Err(FormatError::BadHeader);
            },
        };
        let revm = match WMapRev::new(u64_words(rev)) {
            Some(r) => r,
            None => {
                return Err(FormatError::BadHeader);
            },
        };
        Ok(
            WMap {
                name: base.to_owned(),
                level0,
                level1,
                level2,
                levelsizes: (size0, size1, h.levelsize),
                final_id1,
                map0idx: u32_words(map0idx),
                has_commonest: h.has_commonest,
                has_ftt: h.has_ftt,
                adjust_idx: h.adjust_idx,
                scale: h.scale,
                version,
                rev: revm,
            },
        )
    }

    /// The entry of the index for `id`: that of its run of 64 ids, or
    /// the last where the index has none for it.
    pub open spec fn block_seek(&self, id: u32) -> u32 {
        if id as int / 64 < self.map0idx@.len() {
            self.map0idx@[id as int / 64]
        } else {
            self.map0idx@[self.map0idx@.len() - 1]
        }
    }

    fn get_block_seek(&self, id: u32) -> (b: u32)
        requires
            self.map0idx@.len() > 0,
        ensures
            b == self.block_seek(id),
    {
        let mut block: usize = id as usize / 64;
        if block >= self.map0idx.len() {
            block = self.map0idx.len() - 1;
        }
        self.map0idx[block]
    }

    fn iter_from(&self, pos: u32) -> (it: WMapIter1<'_>)
        ensures
            it.wmap == self,
            it.rb.words() == self.level0@,
            it.rb.position() == pos,
            it.idx == 0,
            it.id == 0,
    {
        WMapIter1 { wmap: self, rb: Reader::open(self.level0.as_slice(), pos as usize), idx: 0, id: 0 }
    }

    /// Iterator over the heads from the first on.
    pub fn iter_ids(&self) -> (it: WMapIter1<'_>)
        ensures
            it.wmap == self,
            it.rb.words() == self.level0@,
            it.rb.position() == 256,
            it.idx == 0,
            it.id == 0,
    {
        WMapIter1 { wmap: self, rb: Reader::open(self.level0.as_slice(), 32 * 8), idx: 0, id: 0 }
    }
}

/// What a step of the first level gives: the record of a head with its
/// two numbers, and the bit position behind them.
pub struct HeadStep {
    pub id: u32,
    pub idx: usize,
    pub cnt: u64,
    pub frq: u64,
    pub end: int,
}

/// Whether the head at bit `pos` can be read after index `idx` and id
/// `id`: a record and two delta codes.
pub open spec fn head_ok(mem: Seq<u64>, pos: int, idx: usize, id: u32) -> bool {
    let r = record_at(mem, pos, idx, id, false);
    &&& record_ok(mem, pos, idx, id, false)
    &&& delta_ok(mem, r.end)
    &&& delta_ok(mem, delta_end(mem, r.end))
}

/// What the head at bit `pos` gives after index `idx` and id `id`.
pub open spec fn head_at(mem: Seq<u64>, pos: int, idx: usize, id: u32) -> HeadStep {
    let r = record_at(mem, pos, idx, id, false);
    HeadStep {
        id: r.id,
        idx: r.idx,
        cnt: delta_at(mem, r.end),
        frq: delta_at(mem, delta_end(mem, r.end)),
        end: delta_end(mem, delta_end(mem, r.end)),
    }
}

/// A head word: its id, the bit position of its relations in the second
/// stream, their number, and its frequency.
#[derive(Debug)]
pub struct WMapItem1<'a> {
    pub wmap: &'a WMap,
    pub id: u32,
    pub idx: usize,
    pub cnt: u64,
    pub frq: u64,
}

/// Iterator over the heads.
pub struct WMapIter1<'a> {
    pub wmap: &'a WMap,
    pub rb: Reader<'a>,
    pub id: u32,
    pub idx: usize,
}

impl<'a> WMapIter1<'a> {
    /// Whether a head is left: the id has not reached the last.
    pub open spec fn has_next(&self) -> bool {
        self.id < self.wmap.final_id1
    }

    /// The next head can be read, if one is left.
    pub open spec fn next_ok(&self) -> bool {
        self.has_next() ==> head_ok(self.rb.words(), self.rb.position(), self.idx, self.id)
    }

    /// Whether the next head can be read, if one is left.
    pub fn can_next(&self) -> (b: bool)
        ensures
            b == self.next_ok(),
    {
        if self.id >= self.wmap.final_id1 {
            return true;
        }
        if !can_read_record(&self.rb, self.idx, self.id, false) {
            return false;
        }
        let mut r = Reader::open(self.rb.mem(), self.rb.bitpos());
        let mut idx: usize = self.idx;
        let mut id: u32 = self.id;
        read_record(&mut r, &mut idx, &mut id, false);
        if !r.can_delta() {
            return false;
        }
        r.delta();
        r.can_delta()
    }

    /// The next head; `None` once the id has reached the last.
    pub fn next(&mut self) -> (r: Option<WMapItem1<'a>>)
        requires
            old(self).next_ok(),
        ensures
            final(self).wmap == old(self).wmap,
            final(self).rb.words() == old(self).rb.words(),
            !old(self).has_next() ==> r is None && *final(self) == *old(self),
            old(self).has_next() ==> {
                let h = head_at(
                    old(self).rb.words(),
                    old(self).rb.position(),
                    old(self).idx,
                    old(self).id,
                );
                &&& r matches Some(item)
                &&& item.wmap == old(self).wmap
                &&& item.id == h.id
                &&& item.idx == h.idx
                &&& item.cnt == h.cnt
                &&& item.frq == h.frq
                &&& final(self).id == h.id
                &&& final(self).idx == h.idx
                &&& final(self).rb.position() == h.end
            },
    {
        if self.id >= self.wmap.final_id1 {
            return None;
        }
        let adjust_idx: bool = false;
        read_record(&mut self.rb, &mut self.idx, &mut self.id, adjust_idx);
        let cnt: u64 = self.rb.delta();
        let frq: u64 = self.rb.delta();
        Some(WMapItem1 { wmap: self.wmap, id: self.id, idx: self.idx, cnt, frq })
    }
}

/// Fewer bits are left behind a head than before it.
pub proof fn lemma_head_advances(mem: Seq<u64>, pos: int, idx: usize, id: u32)
    requires
        head_ok(mem, pos, idx, id),
    ensures
        bits_left(mem, head_at(mem, pos, idx, id).end) < bits_left(mem, pos),
{
    let second = delta_end(mem, pos);
    let r = record_at(mem, pos, idx, id, false);
    lemma_delta_advances(mem, pos);
    lemma_delta_advances(mem, second);
    if delta_at(mem, pos) <= 1 {
        lemma_delta_advances(mem, delta_end(mem, second));
    }
    lemma_delta_advances(mem, r.end);
    lemma_delta_advances(mem, delta_end(mem, r.end));
    lemma_bits_left_order(mem, pos, second);
    lemma_bits_left_order(mem, second, r.end);
    lemma_bits_left_order(mem, r.end, delta_end(mem, r.end));
    lemma_bits_left_order(mem, delta_end(mem, r.end), head_at(mem, pos, idx, id).end);
}

proof fn lemma_bits_left_order(mem: Seq<u64>, a: int, b: int)
    requires
        0 <= a <= b,
    ensures
        bits_left(mem, b) <= bits_left(mem, a),
{
}

/// Whether the search for the head `target` can read every head that it
/// passes: from bit `pos`, after index `idx` and id `cur`, up to the
/// first head whose id is `target` or more, or to the last head.
pub open spec fn scan_ok(mem: Seq<u64>, fin: u32, pos: int, idx: usize, cur: u32, target: u32) -> bool
    decreases bits_left(mem, pos),
{
    if cur >= fin {
        true
    } else if !head_ok(mem, pos, idx, cur) {
        false
    } else {
        let h = head_at(mem, pos, idx, cur);
        proof {
            lemma_head_advances(mem, pos, idx, cur);
        }
        h.id >= target || scan_ok(mem, fin, h.end, h.idx, h.id, target)
    }
}

/// The head entry of `target`: the first head from bit `pos` on whose
/// id is `target` or more, if its id is `target`.
pub open spec fn scan(mem: Seq<u64>, fin: u32, pos: int, idx: usize, cur: u32, target: u32) -> Option<
    HeadStep,
>
    decreases bits_left(mem, pos),
{
    if cur >= fin {
        None
    } else if !head_ok(mem, pos, idx, cur) {
        None
    } else {
        let h = head_at(mem, pos, idx, cur);
        proof {
            lemma_head_advances(mem, pos, idx, cur);
        }
        if h.id < target {
            scan(mem, fin, h.end, h.idx, h.id, target)
        } else if h.id == target {
            Some(h)
        } else {
            None
        }
    }
}

impl WMap {
    /// Whether `id` can be searched for: the index has an entry, and the
    /// search can read every head that it passes.
    pub open spec fn search_ok(&self, id: u32) -> bool {
        &&& self.map0idx@.len() > 0
        &&& scan_ok(self.level0@, self.final_id1, self.block_seek(id) as int, 0, 0, id)
    }

    /// The head entry of `id`, if it has one.
    pub open spec fn head_entry(&self, id: u32) -> Option<HeadStep> {
        scan(self.level0@, self.final_id1, self.block_seek(id) as int, 0, 0, id)
    }

    /// Whether `id` can be searched for.
    pub fn can_find_id(&self, id: u32) -> (b: bool)
        ensures
            b == self.search_ok(id),
    {
        if self.map0idx.len() == 0 {
            return false;
        }
        let bs: u32 = self.get_block_seek(id);
        let mut it = self.iter_from(bs);
        loop
            invariant
                it.wmap == self,
                it.rb.words() == self.level0@,
                self.search_ok(id) == scan_ok(
                    self.level0@,
                    self.final_id1,
                    it.rb.position(),
                    it.idx,
                    it.id,
                    id,
                ),
            decreases bits_left(self.level0@, it.rb.position()),
        {
            if !it.can_next() {
                return false;
            }
            proof {
                if it.has_next() {
                    lemma_head_advances(self.level0@, it.rb.position(), it.idx, it.id);
                }
            }
            match it.next() {
                None => {
                    return true;
                },
                Some(v) => {
                    if v.id >= id {
                        return true;
                    }
                },
            }
        }
    }

    /// The head whose id is `id`: the first head from the entry of the
    /// index on whose id is `id` or more, if its id is `id`; `None` if
    /// `id` has no head entry.
    pub fn find_id(&self, id: u32) -> (r: Option<WMapItem1<'_>>)
        requires
            self.search_ok(id),
        ensures
            r is Some <==> self.head_entry(id) is Some,
            r matches Some(item) ==> {
                let h = self.head_entry(id)->0;
                &&& item.id == id
                &&& item.wmap == self
                &&& item.idx == h.idx
                &&& item.cnt == h.cnt
                &&& item.frq == h.frq
            },
    {
        let bs: u32 = self.get_block_seek(id);
        let mut it = self.iter_from(bs);
        loop
            invariant
                it.wmap == self,
                it.rb.words() == self.level0@,
                scan_ok(self.level0@, self.final_id1, it.rb.position(), it.idx, it.id, id),
                self.head_entry(id) == scan(
                    self.level0@,
                    self.final_id1,
                    it.rb.position(),
                    it.idx,
                    it.id,
                    id,
                ),
            decreases bits_left(self.level0@, it.rb.position()),
        {
            proof {
                if it.has_next() {
                    lemma_head_advances(self.level0@, it.rb.position(), it.idx, it.id);
                }
            }
            match it.next() {
                None => {
                    return None;
                },
                Some(v) => {
                    if v.id < id {
                        continue ;
                    } else if v.id == id {
                        return Some(v);
                    } else {
                        return None;
                    }
                },
            }
        }
    }
}

/// What a step of the second or third level gives: a record with its
/// three numbers, and the bit position behind them.
pub struct EntryStep {
    pub id: u32,
    pub idx: usize,
    pub cnt: u64,
    pub rnk: u64,
    pub frq: u64,
    pub end: int,
}

/// Whether the entry at bit `pos` can be read after index `idx` and id
/// `id`: a record and three delta codes.
pub open spec fn entry_ok(mem: Seq<u64>, pos: int, idx: usize, id: u32, adjust: bool) -> bool {
    let r = record_at(mem, pos, idx, id, adjust);
    &&& record_ok(mem, pos, idx, id, adjust)
    &&& deltas_ok(mem, r.end, 3)
}

/// What the entry at bit `pos` gives after index `idx` and id `id`: the
/// count, the score as it is stored, and the frequency.
pub open spec fn entry_at(mem: Seq<u64>, pos: int, idx: usize, id: u32, adjust: bool) -> EntryStep {
    let r = record_at(mem, pos, idx, id, adjust);
    EntryStep {
        id: r.id,
        idx: r.idx,
        cnt: delta_at(mem, r.end),
        rnk: delta_at(mem, delta_end(mem, r.end)),
        frq: delta_at(mem, delta_end(mem, delta_end(mem, r.end))),
        end: deltas_end(mem, r.end, 3),
    }
}

fn can_read_entry(rb: &Reader<'_>, idx: usize, id: u32, adjust: bool) -> (r: Option<usize>)
    ensures
        r is Some <==> entry_ok(rb.words(), rb.position(), idx, id, adjust),
        r matches Some(e) ==> e == entry_at(rb.words(), rb.position(), idx, id, adjust).end,
{
    proof {
        reveal_with_fuel(deltas_ok, 4);
        reveal_with_fuel(deltas_end, 4);
    }
    if !can_read_record(rb, idx, id, adjust) {
        return None;
    }
    let mut r = Reader::open(rb.mem(), rb.bitpos());
    let mut i: usize = idx;
    let mut d: u32 = id;
    read_record(&mut r, &mut i, &mut d, adjust);
    if !r.can_delta() {
        return None;
    }
    r.delta();
    if !r.can_delta() {
        return None;
    }
    r.delta();
    if !r.can_delta() {
        return None;
    }
    r.delta();
    Some(r.bitpos())
}

/// A grammatical relation of a head: its id, the bit position of its
/// collocates in the third stream, their number, its frequency, and its
/// score as it is stored.
#[derive(Debug)]
pub struct WMapItem2<'a> {
    pub wmap: &'a WMap,
    pub id: u32,
    pub idx: usize,
    pub cnt: u64,
    pub frq: u64,
    pub rnk: u64,
}

/// Iterator over the relations of a head.
pub struct WMapIter2<'a> {
    pub wmap: &'a WMap,
    pub rb: Reader<'a>,
    pub id: u32,
    pub idx: usize,
    pub remaining: usize,
}

impl<'a> WMapItem1<'a> {
    /// Iterator over the relations of the head.
    pub fn iter(&self) -> (it: WMapIter2<'_>)
        ensures
            it.wmap == self.wmap,
            it.rb.words() == self.wmap.level1@,
            it.rb.position() == self.idx,
            it.remaining == self.cnt as usize,
            it.id == 0,
            it.idx == 0,
    {
        WMapIter2 {
            wmap: self.wmap,
            rb: Reader::open(self.wmap.level1.as_slice(), self.idx),
            remaining: #[verifier::truncate] (self.cnt as usize),
            id: 0,
            idx: 0,
        }
    }
}

impl<'a> WMapIter2<'a> {
    /// The next relation can be read, if one is left.
    pub open spec fn next_ok(&self) -> bool {
        self.remaining > 0 ==> entry_ok(
            self.rb.words(),
            self.rb.position(),
            self.idx,
            self.id,
            false,
        )
    }

    /// Whether the next relation can be read, if one is left.
    pub fn can_next(&self) -> (b: bool)
        ensures
            b == self.next_ok(),
    {
        self.remaining == 0 || can_read_entry(&self.rb, self.idx, self.id, false).is_some()
    }

    /// The next relation; `None` at the end.
    pub fn next(&mut self) -> (r: Option<WMapItem2<'a>>)
        requires
            old(self).next_ok(),
        ensures
            final(self).wmap == old(self).wmap,
            final(self).rb.words() == old(self).rb.words(),
            old(self).remaining == 0 ==> r is None && *final(self) == *old(self),
            old(self).remaining > 0 ==> {
                let e = entry_at(
                    old(self).rb.words(),
                    old(self).rb.position(),
                    old(self).idx,
                    old(self).id,
                    false,
                );
                &&& r matches Some(item)
                &&& item.wmap == old(self).wmap
                &&& item.id == e.id
                &&& item.idx == e.idx
                &&& item.cnt == e.cnt
                &&& item.rnk == e.rnk
                &&& item.frq == e.frq
                &&& final(self).id == e.id
                &&& final(self).idx == e.idx
                &&& final(self).rb.position() == e.end
                &&& final(self).remaining == old(self).remaining - 1
            },
    {
        proof {
            reveal_with_fuel(deltas_ok, 4);
            reveal_with_fuel(deltas_end, 4);
        }
        if self.remaining == 0 {
            return None;
        } else {
            self.remaining -= 1;
        }
        let adjust_idx: bool = false;
        read_record(&mut self.rb, &mut self.idx, &mut self.id, adjust_idx);
        let cnt: u64 = self.rb.delta();
        let rnk: u64 = self.rb.delta();
        let frq: u64 = self.rb.delta();
        Some(WMapItem2 { wmap: self.wmap, id: self.id, idx: self.idx, cnt, frq, rnk })
    }
}

/// Whether a list of numbers can be read at bit `pos`: a gamma code of
/// its length plus one, and as many delta codes as its length.
pub open spec fn list_ok(mem: Seq<u64>, pos: int) -> bool {
    &&& gamma_ok(mem, pos)
    &&& deltas_ok(mem, gamma_end(mem, pos), (gamma_at(mem, pos) - 1) as nat)
}

/// Bit position behind the list of numbers at bit `pos`.
pub open spec fn list_end(mem: Seq<u64>, pos: int) -> int {
    deltas_end(mem, gamma_end(mem, pos), (gamma_at(mem, pos) - 1) as nat)
}

/// Bit position behind the list at bit `pos` where `present` is set,
/// `pos` where it is not.
pub open spec fn opt_list_end(mem: Seq<u64>, pos: int, present: bool) -> int {
    if present {
        list_end(mem, pos)
    } else {
        pos
    }
}

/// Whether the collocate at bit `pos` can be read: an entry, then the
/// list of its commonest forms where the word sketch has them, then the
/// list of its first-token types where it has them.
pub open spec fn collocate_ok(
    mem: Seq<u64>,
    pos: int,
    idx: usize,
    id: u32,
    adjust: bool,
    commonest: bool,
    ftt: bool,
) -> bool {
    let e = entry_at(mem, pos, idx, id, adjust);
    &&& entry_ok(mem, pos, idx, id, adjust)
    &&& commonest ==> list_ok(mem, e.end)
    &&& ftt ==> list_ok(mem, opt_list_end(mem, e.end, commonest))
}

/// Bit position behind the collocate at bit `pos`.
pub open spec fn collocate_end(
    mem: Seq<u64>,
    pos: int,
    idx: usize,
    id: u32,
    adjust: bool,
    commonest: bool,
    ftt: bool,
) -> int {
    let e = entry_at(mem, pos, idx, id, adjust);
    opt_list_end(mem, opt_list_end(mem, e.end, commonest), ftt)
}

fn can_skip_list(r: &mut Reader<'_>) -> (b: bool)
    ensures
        b == list_ok(old(r).words(), old(r).position()),
        final(r).words() == old(r).words(),
        b ==> final(r).position() == list_end(old(r).words(), old(r).position()),
{
    if !r.can_gamma() {
        return false;
    }
    let len: u64 = r.gamma();
    let mut left: u64 = len - 1;
    let ghost mem = r.words();
    let ghost start = r.position();
    while left > 0
        invariant
            r.words() == mem,
            mem == old(r).words(),
            gamma_ok(mem, old(r).position()),
            start == gamma_end(mem, old(r).position()),
            len == gamma_at(mem, old(r).position()),
            deltas_ok(mem, start, (len - 1) as nat) == deltas_ok(mem, r.position(), left as nat),
            deltas_end(mem, start, (len - 1) as nat) == deltas_end(mem, r.position(), left as nat),
        decreases left,
    {
        if !r.can_delta() {
            return false;
        }
        r.delta();
        left -= 1;
    }
    true
}

fn skip_list(r: &mut Reader<'_>)
    requires
        list_ok(old(r).words(), old(r).position()),
    ensures
        final(r).words() == old(r).words(),
        final(r).position() == list_end(old(r).words(), old(r).position()),
{
    let len: u64 = r.gamma();
    let mut left: u64 = len - 1;
    let ghost mem = r.words();
    let ghost start = r.position();
    while left > 0
        invariant
            r.words() == mem,
            deltas_ok(mem, r.position(), left as nat),
            deltas_end(mem, start, (len - 1) as nat) == deltas_end(mem, r.position(), left as nat),
        decreases left,
    {
        let _v: u64 = r.delta() - 1;
        left -= 1;
    }
}

/// A collocate of a relation: its id, the unit at which its occurrences
/// begin in the stream of positions, their number, its frequency, and its
/// score as it is stored.
#[derive(Debug)]
pub struct WMapItem3<'a> {
    pub wmap: &'a WMap,
    pub id: u32,
    pub idx: usize,
    pub cnt: u64,
    pub frq: u64,
    pub rnk: u64,
}

/// Iterator over the collocates of a relation.
pub struct WMapIter3<'a> {
    pub wmap: &'a WMap,
    pub rb: Reader<'a>,
    pub id: u32,
    pub idx: usize,
    pub remaining: usize,
}

impl<'a> WMapItem2<'a> {
    /// Iterator over the collocates of the relation.
    pub fn iter(&self) -> (it: WMapIter3<'_>)
        ensures
            it.wmap == self.wmap,
            it.rb.words() == self.wmap.level2@,
            it.rb.position() == self.idx,
            it.remaining == self.cnt as usize,
            it.id == 0,
            it.idx == 0,
    {
        WMapIter3 {
            wmap: self.wmap,
            rb: Reader::open(self.wmap.level2.as_slice(), self.idx),
            remaining: #[verifier::truncate] (self.cnt as usize),
            id: 0,
            idx: 0,
        }
    }
}

impl<'a> WMapIter3<'a> {
    /// The next collocate can be read, if one is left.
    pub open spec fn next_ok(&self) -> bool {
        self.remaining > 0 ==> collocate_ok(
            self.rb.words(),
            self.rb.position(),
            self.idx,
            self.id,
            self.wmap.adjust_idx,
            self.wmap.has_commonest,
            self.wmap.has_ftt,
        )
    }

    /// Whether the next collocate can be read, if one is left.
    pub fn can_next(&self) -> (b: bool)
        ensures
            b == self.next_ok(),
    {
        if self.remaining == 0 {
            return true;
        }
        match can_read_entry(&self.rb, self.idx, self.id, self.wmap.adjust_idx) {
            None => false,
            Some(end) => {
                let mut r = Reader::open(self.rb.mem(), end);
                if self.wmap.has_commonest {
                    if !can_skip_list(&mut r) {
                        return false;
                    }
                }
                if self.wmap.has_ftt {
                    if !can_skip_list(&mut r) {
                        return false;
                    }
                }
                true
            },
        }
    }

    /// The next collocate; `None` at the end. The lists of its commonest
    /// forms and of its first-token types are passed over.
    pub fn next(&mut self) -> (r: Option<WMapItem3<'a>>)
        requires
            old(self).next_ok(),
        ensures
            final(self).wmap == old(self).wmap,
            final(self).rb.words() == old(self).rb.words(),
            old(self).remaining == 0 ==> r is None && *final(self) == *old(self),
            old(self).remaining > 0 ==> {
                let e = entry_at(
                    old(self).rb.words(),
                    old(self).rb.position(),
                    old(self).idx,
                    old(self).id,
                    old(self).wmap.adjust_idx,
                );
                &&& r matches Some(item)
                &&& item.wmap == old(self).wmap
                &&& item.id == e.id
                &&& item.idx == e.idx
                &&& item.cnt == e.cnt
                &&& item.rnk == e.rnk
                &&& item.frq == e.frq
                &&& final(self).id == e.id
                &&& final(self).idx == e.idx
                &&& final(self).rb.position() == collocate_end(
                    old(self).rb.words(),
                    old(self).rb.position(),
                    old(self).idx,
                    old(self).id,
                    old(self).wmap.adjust_idx,
                    old(self).wmap.has_commonest,
                    old(self).wmap.has_ftt,
                )
                &&& final(self).remaining == old(self).remaining - 1
            },
    {
        proof {
            reveal_with_fuel(deltas_ok, 4);
            reveal_with_fuel(deltas_end, 4);
        }
        if self.remaining == 0 {
            return None;
        } else {
            self.remaining -= 1;
        }
        let adjust_idx: bool = self.wmap.adjust_idx;
        read_record(&mut self.rb, &mut self.idx, &mut self.id, adjust_idx);
        let cnt: u64 = self.rb.delta();
        let rnk: u64 = self.rb.delta();
        let frq: u64 = self.rb.delta();
        if self.wmap.has_commonest {
            skip_list(&mut self.rb);
        }
        if self.wmap.has_ftt {
            skip_list(&mut self.rb);
        }
        Some(WMapItem3 { wmap: self.wmap, id: self.id, idx: self.idx, cnt, frq, rnk })
    }
}

impl<'a> WMapItem3<'a> {
    /// The stream of the occurrences of the collocate.
    pub fn iter(&self) -> (s: WMapRevStream<'_>)
        requires
            8 * self.idx <= usize::MAX,
            self.wmap.rev.bit_of(self.idx) <= usize::MAX,
        ensures
            s.rb.words() == self.wmap.rev.revm@,
            s.rb.position() == self.wmap.rev.bit_of(self.idx),
            s.remaining == self.cnt as usize,
            s.adjust_pos == self.wmap.rev.adjust_pos,
            s.curpos == 0,
    {
        self.wmap.rev.poss(self.idx, #[verifier::truncate] (self.cnt as usize))
    }
}

/// The lexicons of a word sketch: that of the attribute of the heads and
/// collocates, that of the grammatical relations, and one of collocates
/// that the attribute does not know.
pub struct WSLex<'a> {
    pub grlex: MapLex,
    pub colllex: Option<MapLex>,
    pub wsattr: &'a AnyAttr,
}

impl<'a> WSLex<'a> {
    /// The lexicons of a word sketch over the attribute `wsattr`.
    pub fn open(grlex: MapLex, colllex: Option<MapLex>, wsattr: &'a AnyAttr) -> (l: WSLex<'a>)
        ensures
            l.grlex == grlex,
            l.colllex == colllex,
            l.wsattr == wsattr,
    {
        WSLex { grlex, colllex, wsattr }
    }

    /// The id of a collocate: the one that the attribute has for it;
    /// else the one that the lexicon of collocates has for it, less the
    /// number of ids of the attribute.
    pub fn coll2id(&self, coll: &str) -> (id: u32)
        requires
            self.wsattr.lex_spec().wf(),
            self.wsattr.lex_spec().finds(coll.spec_bytes(), None) ==> (self.colllex matches Some(c)
                && c.wf() && exists|i: u32|
                c.finds(coll.spec_bytes(), Some(i)) && i >= self.wsattr.lex_spec().count),
        ensures
            !self.wsattr.lex_spec().finds(coll.spec_bytes(), None)
                ==> self.wsattr.lex_spec().finds(coll.spec_bytes(), Some(id)),
            self.wsattr.lex_spec().finds(coll.spec_bytes(), None) ==> self.colllex->0.finds(
                coll.spec_bytes(),
                Some((id + self.wsattr.lex_spec().count) as u32),
            ),
    {
        match self.wsattr.str2id(coll) {
            Some(id) => {
                proof {
                    crate::lex::lemma_find_one(self.wsattr.lex_spec(), coll.spec_bytes(), Some(id));
                }
                id
            },
            None => match &self.colllex {
                Some(c) => match c.str2id(coll) {
                    Some(i) => {
                        proof {
                            let w = choose|w: u32|
                                c.finds(coll.spec_bytes(), Some(w)) && w
                                    >= self.wsattr.lex_spec().count;
                            crate::lex::lemma_find_same(c, coll.spec_bytes(), i, w);
                        }
                        i - self.wsattr.id_range()
                    },
                    None => {
                        proof {
                            let w = choose|w: u32|
                                c.finds(coll.spec_bytes(), Some(w)) && w
                                    >= self.wsattr.lex_spec().count;
                            crate::lex::lemma_find_one(c, coll.spec_bytes(), Some(w));
                        }
                        0
                    },
                },
                None => 0,
            },
        }
    }

    /// The string of a collocate: for an id above the number of ids of
    /// the attribute that of the lexicon of collocates, the number taken
    /// off; else that of the attribute.
    pub fn id2coll(&self, id: u32) -> (s: &[u8])
        requires
            id > self.wsattr.lex_spec().count ==> (self.colllex matches Some(c) && c.has_id(
                (id - self.wsattr.lex_spec().count) as u32,
            )),
            id <= self.wsattr.lex_spec().count ==> self.wsattr.lex_spec().has_id(id),
        ensures
            s@ == if id > self.wsattr.lex_spec().count {
                self.colllex->0.string_of((id - self.wsattr.lex_spec().count) as u32)
            } else {
                self.wsattr.lex_spec().string_of(id)
            },
    {
        if id > self.wsattr.id_range() {
            match &self.colllex {
                Some(c) => c.id2str(id - self.wsattr.id_range()),
                None => self.wsattr.id2str(id),
            }
        } else {
            self.wsattr.id2str(id)
        }
    }

    /// The string of a head.
    pub fn id2head(&self, id: u32) -> (s: &[u8])
        requires
            self.wsattr.lex_spec().has_id(id),
        ensures
            s@ == self.wsattr.lex_spec().string_of(id),
    {
        self.wsattr.id2str(id)
    }

    /// The id of a head.
    pub fn head2id(&self, head: &str) -> (r: Option<u32>)
        requires
            self.wsattr.lex_spec().wf(),
        ensures
            self.wsattr.lex_spec().finds(head.spec_bytes(), r),
    {
        self.wsattr.str2id(head)
    }

    /// The string of a grammatical relation.
    pub fn id2rel(&self, id: u32) -> (s: &[u8])
        requires
            self.grlex.has_id(id),
        ensures
            s@ == self.grlex.string_of(id),
    {
        self.grlex.id2str(id)
    }

    /// The id of a grammatical relation.
    pub fn rel2id(&self, head: &str) -> (r: Option<u32>)
        requires
            self.grlex.wf(),
        ensures
            self.grlex.finds(head.spec_bytes(), r),
    {
        self.grlex.str2id(head)
    }
}

} // verus!
