//! Range index of a structure: the ranges of corpus positions that the
//! occurrences of a structure cover, as pairs of a beginning and an end,
//! and the searches by corpus position over them.

use vstd::prelude::*;
use crate::util::{le_u32s, le_words, u32_words, u64_words};

verus! {

/// What the searches return where no range is found.
pub const NOT_FOUND: u64 = u64::MAX;

/// Most ranges that a structure can hold.
pub const MAX_RANGES: u64 = 0x4000_0000_0000_0000;

/// What both widths of a range index offer.
pub trait Struct {
    /// The ranges, as pairs of a beginning and an end.
    spec fn ranges(&self) -> Seq<(u64, u64)>;

    /// Validity of the index.
    spec fn wf(&self) -> bool;

    /// The beginning of range `pos`.
    fn beg_at(&self, pos: u64) -> (b: u64)
        requires
            self.wf(),
            pos < self.ranges().len(),
        ensures
            b == self.ranges()[pos as int].0,
    ;

    /// The end of range `pos`.
    fn end_at(&self, pos: u64) -> (e: u64)
        requires
            self.wf(),
            pos < self.ranges().len(),
        ensures
            e == self.ranges()[pos as int].1,
    ;

    /// Number of ranges.
    fn len(&self) -> (n: usize)
        requires
            self.wf(),
        ensures
            n == self.ranges().len(),
            n <= MAX_RANGES,
    ;

    /// Whether there is no range.
    fn is_empty(&self) -> (b: bool)
        requires
            self.wf(),
        ensures
            b == (self.ranges().len() == 0),
    ;
}

/// The ends of the ranges never decrease.
pub open spec fn ends_sorted(r: Seq<(u64, u64)>) -> bool {
    forall|i: int, j: int| 0 <= i <= j < r.len() ==> (#[trigger] r[i]).1 <= (#[trigger] r[j]).1
}

/// The beginnings of the ranges never decrease.
pub open spec fn begs_sorted(r: Seq<(u64, u64)>) -> bool {
    forall|i: int, j: int| 0 <= i <= j < r.len() ==> (#[trigger] r[i]).0 <= (#[trigger] r[j]).0
}

/// Index of the first range from `i` on that ends after `pos`; the
/// number of ranges if there is none.
pub open spec fn first_end_after(r: Seq<(u64, u64)>, pos: u64, i: int) -> int
    decreases r.len() - i,
{
    if i < 0 || i >= r.len() {
        r.len() as int
    } else if r[i].1 > pos {
        i
    } else {
        first_end_after(r, pos, i + 1)
    }
}

/// Index of the first range from `i` on that begins at `pos` or after
/// it; the number of ranges if there is none.
pub open spec fn first_beg_from(r: Seq<(u64, u64)>, pos: u64, i: int) -> int
    decreases r.len() - i,
{
    if i < 0 || i >= r.len() {
        r.len() as int
    } else if r[i].0 >= pos {
        i
    } else {
        first_beg_from(r, pos, i + 1)
    }
}

/// What `find_end` returns for the index `k` of the range found.
pub open spec fn end_found(r: Seq<(u64, u64)>, k: int) -> (u64, u64) {
    if 0 <= k < r.len() {
        (k as u64, r[k].0)
    } else {
        (NOT_FOUND, NOT_FOUND)
    }
}

/// What `find_beg` returns for the index `k` of the range found.
pub open spec fn beg_found(r: Seq<(u64, u64)>, k: int) -> u64 {
    if 0 <= k < r.len() {
        r[k].0
    } else {
        NOT_FOUND
    }
}

/// The range that is taken to hold position `pos`: the first that ends
/// after `pos + 1`, if it begins at `pos` or before; else that range if it
/// is empty and stands at `pos + 1`; else the one before it, or itself
/// where it is the first, if that begins at `pos`.
pub open spec fn num_at(r: Seq<(u64, u64)>, pos: u64) -> Option<u64> {
    let k = first_end_after(r, (pos + 1) as u64, 0);
    if !(0 <= k < r.len()) {
        None
    } else if r[k].0 <= pos {
        Some(k as u64)
    } else if r[k].1 == r[k].0 && r[k].0 == pos + 1 {
        Some(k as u64)
    } else {
        let j = if k > 0 {
            k - 1
        } else {
            k
        };
        if r[j].0 == pos {
            Some(j as u64)
        } else {
            None
        }
    }
}

/// Whether `n` is a power of two.
pub open spec fn is_step(n: u64) -> bool
    decreases n,
{
    n == 1 || (n >= 2 && n % 2 == 0 && is_step(n / 2))
}

/// The first range that ends after `pos` is the one before which all
/// end at `pos` or before, and which itself ends after `pos`.
pub proof fn lemma_first_end_after(r: Seq<(u64, u64)>, pos: u64, i: int, k: int)
    requires
        0 <= i <= k <= r.len(),
        forall|c: int| i <= c < k ==> (#[trigger] r[c]).1 <= pos,
        k < r.len() ==> r[k].1 > pos,
    ensures
        first_end_after(r, pos, i) == k,
    decreases k - i,
{
    if i < k {
        lemma_first_end_after(r, pos, i + 1, k);
    }
}

/// The first range that begins at `pos` or after it is the one before
/// which all begin before `pos`, and which itself does not.
pub proof fn lemma_first_beg_from(r: Seq<(u64, u64)>, pos: u64, i: int, k: int)
    requires
        0 <= i <= k <= r.len(),
        forall|c: int| i <= c < k ==> (#[trigger] r[c]).0 < pos,
        k < r.len() ==> r[k].0 >= pos,
    ensures
        first_beg_from(r, pos, i) == k,
    decreases k - i,
{
    if i < k {
        lemma_first_beg_from(r, pos, i + 1, k);
    }
}

/// The key by which a search goes: the end of a range, or its beginning.
pub open spec fn key_of(r: Seq<(u64, u64)>, by_end: bool, c: int) -> u64 {
    if by_end {
        r[c].1
    } else {
        r[c].0
    }
}

fn key_at<S: Struct + ?Sized>(s: &S, by_end: bool, c: u64) -> (k: u64)
    requires
        s.wf(),
        c < s.ranges().len(),
    ensures
        k == key_of(s.ranges(), by_end, c as int),
{
    if by_end {
        s.end_at(c)
    } else {
        s.beg_at(c)
    }
}

/// The last of the ranges whose key is `pos` or less, found by
/// steps that double and then halve; 0 where the first range has a
/// greater key.
fn gallop<S: Struct + ?Sized>(s: &S, by_end: bool, pos: u64, last: u64) -> (curr: u64)
    requires
        s.wf(),
        last == s.ranges().len(),
        0 < last,
        forall|i: int, j: int|
            0 <= i <= j < last ==> key_of(s.ranges(), by_end, i) <= key_of(s.ranges(), by_end, j),
    ensures
        curr < last,
        curr > 0 ==> key_of(s.ranges(), by_end, curr as int) <= pos,
        forall|c: int| curr < c < last ==> key_of(s.ranges(), by_end, c) > pos,
{
    let ghost r = s.ranges();
    let n: usize = s.len();
    let mut curr: u64 = 0;
    let mut incr: u64 = 1;
    while incr < last - curr && key_at(s, by_end, curr + incr) <= pos
        invariant
            s.wf(),
            r == s.ranges(),
            last == r.len(),
            last <= MAX_RANGES,
            curr < last,
            is_step(incr),
            incr <= curr + 1,
            curr > 0 ==> key_of(r, by_end, curr as int) <= pos,
        decreases last - curr,
    {
        curr += incr;
        incr *= 2;
    }
    assert(forall|c: int| curr + incr <= c < last ==> key_of(r, by_end, c) > pos) by {
        if incr < last - curr {
            assert(key_of(r, by_end, curr + incr) > pos);
        }
    }
    while incr > 0
        invariant
            s.wf(),
            r == s.ranges(),
            last == r.len(),
            last <= MAX_RANGES,
            curr < last,
            incr == 0 || is_step(incr),
            incr <= MAX_RANGES,
            curr > 0 ==> key_of(r, by_end, curr as int) <= pos,
            forall|i: int, j: int|
                0 <= i <= j < last ==> key_of(r, by_end, i) <= key_of(r, by_end, j),
            forall|c: int|
                curr + (if incr == 0 {
                    1
                } else {
                    2 * incr
                }) <= c < last ==> key_of(r, by_end, c) > pos,
        decreases incr,
    {
        if incr < last - curr && key_at(s, by_end, curr + incr) <= pos {
            curr += incr;
        } else {
            assert(forall|c: int| curr + incr <= c < last ==> key_of(r, by_end, c) > pos) by {
                if incr < last - curr {
                    assert(key_of(r, by_end, curr + incr) > pos);
                }
            }
        }
        incr /= 2;
    }
    curr
}

/// The first range that ends after `pos`: its index and its beginning,
/// or `NOT_FOUND` twice where there is none.
pub fn find_end_i<S: Struct + ?Sized>(s: &S, pos: u64) -> (r: (u64, u64))
    requires
        s.wf(),
        ends_sorted(s.ranges()),
    ensures
        r == end_found(s.ranges(), first_end_after(s.ranges(), pos, 0)),
{
    let mut curr: u64 = 0;
    let n: usize = s.len();
    let finval: u64 = NOT_FOUND;
    if n == 0 {
        return (finval, finval);
    }
    let last: u64 = n as u64;
    assert forall|i: int, j: int| 0 <= i <= j < last implies key_of(s.ranges(), true, i) <= key_of(
        s.ranges(),
        true,
        j,
    ) by {
        assert(s.ranges()[i].1 <= s.ranges()[j].1);
    }
    curr = gallop(s, true, pos, last);
    while curr < last && s.end_at(curr) <= pos
        invariant
            s.wf(),
            last == s.ranges().len(),
            curr <= last,
            forall|c: int| 0 <= c < curr ==> (#[trigger] s.ranges()[c]).1 <= pos,
            forall|c: int| curr < c < last ==> key_of(s.ranges(), true, c) > pos,
        decreases last - curr,
    {
        curr += 1;
    }
    proof {
        lemma_first_end_after(s.ranges(), pos, 0, curr as int);
    }
    if curr < last {
        (curr, s.beg_at(curr))
    } else {
        (finval, finval)
    }
}

/// The beginning of the first range that begins at `pos` or after it;
/// `NOT_FOUND` where there is none.
pub fn find_beg_i<S: Struct + ?Sized>(s: &S, pos: u64) -> (r: u64)
    requires
        s.wf(),
        begs_sorted(s.ranges()),
    ensures
        r == beg_found(s.ranges(), first_beg_from(s.ranges(), pos, 0)),
{
    let n: usize = s.len();
    let finval: u64 = NOT_FOUND;
    if n == 0 {
        return finval;
    }
    let last: u64 = n as u64;
    let ghost r = s.ranges();
    assert forall|i: int, j: int| 0 <= i <= j < last implies key_of(r, false, i) <= key_of(
        r,
        false,
        j,
    ) by {
        assert(r[i].0 <= r[j].0);
    }
    let mut curr: u64 = gallop(s, false, pos, last);
    if s.beg_at(curr) < pos {
        assert forall|c: int| 0 <= c < curr + 1 implies (#[trigger] r[c]).0 < pos by {
            assert(r[c].0 <= r[curr as int].0);
        }
        assert(curr + 1 < last ==> key_of(r, false, curr + 1) > pos);
        curr += 1;
    } else if 0 < curr {
        let mut curr_1: u64 = curr - 1;
        while 0 < curr && s.beg_at(curr_1) == pos
            invariant
                s.wf(),
                r == s.ranges(),
                last == r.len(),
                curr < last,
                r[curr as int].0 == pos,
                curr > 0 ==> curr_1 == curr - 1,
                curr == 0 ==> curr_1 == 0,
            decreases curr,
        {
            curr -= 1;
            if curr_1 > 0 {
                curr_1 -= 1;
            }
        }
        assert forall|c: int| 0 <= c < curr implies (#[trigger] r[c]).0 < pos by {
            assert(r[c].0 <= r[curr - 1].0);
        }
    }
    proof {
        lemma_first_beg_from(r, pos, 0, curr as int);
    }
    if curr < last {
        s.beg_at(curr)
    } else {
        finval
    }
}

/// The range that is taken to hold position `pos`.
pub fn num_at_pos_i<S: Struct + ?Sized>(s: &S, pos: u64) -> (r: Option<u64>)
    requires
        s.wf(),
        ends_sorted(s.ranges()),
        pos < u64::MAX,
    ensures
        r == num_at(s.ranges(), pos),
{
    let n: usize = s.len();
    let (mut structpos, corppos) = find_end_i(s, pos + 1);
    if structpos == NOT_FOUND {
        return None;
    }
    if corppos <= pos {
        return Some(structpos);
    }
    if s.end_at(structpos) == s.beg_at(structpos) && s.beg_at(structpos) == pos + 1 {
        return Some(structpos);
    }
    if structpos > 0 {
        structpos -= 1;
    }
    if s.beg_at(structpos) == pos {
        return Some(structpos);
    }
    None
}

/// A range index of 32-bit pairs.
#[derive(Debug)]
pub struct MapStructure32 {
    pub name: String,
    pub rng: Vec<u32>,
    /// Number of whole pairs of the file.
    pub count: usize,
}

/// A range index of 64-bit pairs.
#[derive(Debug)]
pub struct MapStructure64 {
    pub name: String,
    pub rng: Vec<u64>,
    /// Number of whole pairs of the file.
    pub count: usize,
}

impl MapStructure32 {
    /// Opens an index from the contents of its `.rng` file: as many
    /// ranges as the file has whole pairs of 32-bit numbers.
    pub fn open(base: &str, rng: &[u8]) -> (r: MapStructure32)
        ensures
            r.wf(),
            r.name@ == base@,
            r.rng@ == le_u32s(rng@),
            r.count == rng@.len() / 8,
    {
        MapStructure32 { name: base.to_owned(), rng: u32_words(rng), count: rng.len() / 8 }
    }

    /// The beginning of range `pos`.
    pub fn beg_at(&self, pos: u64) -> (b: u64)
        requires
            self.wf(),
            pos < self.count,
        ensures
            b == self.rng@[2 * pos] as u64,
    {
        let n: usize = self.rng.len();
        assert(2 * pos + 1 < n);
        self.rng[2 * (pos as usize)] as u64
    }

    /// The end of range `pos`.
    pub fn end_at(&self, pos: u64) -> (e: u64)
        requires
            self.wf(),
            pos < self.count,
        ensures
            e == self.rng@[2 * pos + 1] as u64,
    {
        let n: usize = self.rng.len();
        assert(2 * pos + 1 < n);
        self.rng[2 * (pos as usize) + 1] as u64
    }
}

impl MapStructure64 {
    /// Opens an index from the contents of its `.rng` file: as many
    /// ranges as the file has whole pairs of 64-bit numbers.
    pub fn open(base: &str, rng: &[u8]) -> (r: MapStructure64)
        ensures
            r.wf(),
            r.name@ == base@,
            r.rng@ == le_words(rng@),
            r.count == rng@.len() / 16,
    {
        MapStructure64 { name: base.to_owned(), rng: u64_words(rng), count: rng.len() / 16 }
    }

    /// The beginning of range `pos`.
    pub fn beg_at(&self, pos: u64) -> (b: u64)
        requires
            self.wf(),
            pos < self.count,
        ensures
            b == self.rng@[2 * pos],
    {
        let n: usize = self.rng.len();
        assert(2 * pos + 1 < n);
        self.rng[2 * (pos as usize)]
    }

    /// The end of range `pos`.
    pub fn end_at(&self, pos: u64) -> (e: u64)
        requires
            self.wf(),
            pos < self.count,
        ensures
            e == self.rng@[2 * pos + 1],
    {
        let n: usize = self.rng.len();
        assert(2 * pos + 1 < n);
        self.rng[2 * (pos as usize) + 1]
    }
}

impl Struct for MapStructure32 {
    open spec fn ranges(&self) -> Seq<(u64, u64)> {
        Seq::new(
            self.count as nat,
            |i: int| (self.rng@[2 * i] as u64, self.rng@[2 * i + 1] as u64),
        )
    }

    open spec fn wf(&self) -> bool {
        2 * self.count <= self.rng@.len() && self.count <= MAX_RANGES
    }

    fn beg_at(&self, pos: u64) -> (b: u64) {
        MapStructure32::beg_at(self, pos)
    }

    fn end_at(&self, pos: u64) -> (e: u64) {
        MapStructure32::end_at(self, pos)
    }

    fn len(&self) -> (n: usize) {
        self.count
    }

    fn is_empty(&self) -> (b: bool) {
        self.count == 0
    }
}

impl Struct for MapStructure64 {
    open spec fn ranges(&self) -> Seq<(u64, u64)> {
        Seq::new(self.count as nat, |i: int| (self.rng@[2 * i], self.rng@[2 * i + 1]))
    }

    open spec fn wf(&self) -> bool {
        2 * self.count <= self.rng@.len() && self.count <= MAX_RANGES
    }

    fn beg_at(&self, pos: u64) -> (b: u64) {
        MapStructure64::beg_at(self, pos)
    }

    fn end_at(&self, pos: u64) -> (e: u64) {
        MapStructure64::end_at(self, pos)
    }

    fn len(&self) -> (n: usize) {
        self.count
    }

    fn is_empty(&self) -> (b: bool) {
        self.count == 0
    }
}

/// A range index of either width.
#[derive(Debug)]
pub enum AnyStruct {
    Narrow(MapStructure32),
    Wide(MapStructure64),
}

impl Struct for AnyStruct {
    open spec fn ranges(&self) -> Seq<(u64, u64)> {
        match self {
            AnyStruct::Narrow(s) => s.ranges(),
            AnyStruct::Wide(s) => s.ranges(),
        }
    }

    open spec fn wf(&self) -> bool {
        match self {
            AnyStruct::Narrow(s) => s.wf(),
            AnyStruct::Wide(s) => s.wf(),
        }
    }

    fn beg_at(&self, pos: u64) -> (b: u64) {
        match self {
            AnyStruct::Narrow(s) => Struct::beg_at(s, pos),
            AnyStruct::Wide(s) => Struct::beg_at(s, pos),
        }
    }

    fn end_at(&self, pos: u64) -> (e: u64) {
        match self {
            AnyStruct::Narrow(s) => Struct::end_at(s, pos),
            AnyStruct::Wide(s) => Struct::end_at(s, pos),
        }
    }

    fn len(&self) -> (n: usize) {
        match self {
            AnyStruct::Narrow(s) => s.len(),
            AnyStruct::Wide(s) => s.len(),
        }
    }

    fn is_empty(&self) -> (b: bool) {
        match self {
            AnyStruct::Narrow(s) => s.is_empty(),
            AnyStruct::Wide(s) => s.is_empty(),
        }
    }
}


impl MapStructure32 {
    /// The first range that ends after `pos`: its index and its
    /// beginning, or `NOT_FOUND` twice.
    pub fn find_end(&self, pos: u64) -> (r: (u64, u64))
        requires
            self.wf(),
            ends_sorted(self.ranges()),
        ensures
            r == end_found(self.ranges(), first_end_after(self.ranges(), pos, 0)),
    {
        find_end_i(self, pos)
    }

    /// The beginning of the first range that begins at `pos` or after
    /// it, or `NOT_FOUND`.
    pub fn find_beg(&self, pos: u64) -> (r: u64)
        requires
            self.wf(),
            begs_sorted(self.ranges()),
        ensures
            r == beg_found(self.ranges(), first_beg_from(self.ranges(), pos, 0)),
    {
        find_beg_i(self, pos)
    }

    /// The range that is taken to hold position `pos`.
    pub fn num_at_pos(&self, pos: u64) -> (r: Option<u64>)
        requires
            self.wf(),
            ends_sorted(self.ranges()),
            pos < u64::MAX,
        ensures
            r == num_at(self.ranges(), pos),
    {
        num_at_pos_i(self, pos)
    }
}

impl MapStructure64 {
    /// The first range that ends after `pos`: its index and its
    /// beginning, or `NOT_FOUND` twice.
    pub fn find_end(&self, pos: u64) -> (r: (u64, u64))
        requires
            self.wf(),
            ends_sorted(self.ranges()),
        ensures
            r == end_found(self.ranges(), first_end_after(self.ranges(), pos, 0)),
    {
        find_end_i(self, pos)
    }

    /// The beginning of the first range that begins at `pos` or after
    /// it, or `NOT_FOUND`.
    pub fn find_beg(&self, pos: u64) -> (r: u64)
        requires
            self.wf(),
            begs_sorted(self.ranges()),
        ensures
            r == beg_found(self.ranges(), first_beg_from(self.ranges(), pos, 0)),
    {
        find_beg_i(self, pos)
    }

    /// The range that is taken to hold position `pos`.
    pub fn num_at_pos(&self, pos: u64) -> (r: Option<u64>)
        requires
            self.wf(),
            ends_sorted(self.ranges()),
            pos < u64::MAX,
        ensures
            r == num_at(self.ranges(), pos),
    {
        num_at_pos_i(self, pos)
    }
}

impl AnyStruct {
    /// The first range that ends after `pos`: its index and its
    /// beginning, or `NOT_FOUND` twice.
    pub fn find_end(&self, pos: u64) -> (r: (u64, u64))
        requires
            self.wf(),
            ends_sorted(self.ranges()),
        ensures
            r == end_found(self.ranges(), first_end_after(self.ranges(), pos, 0)),
    {
        find_end_i(self, pos)
    }

    /// The beginning of the first range that begins at `pos` or after
    /// it, or `NOT_FOUND`.
    pub fn find_beg(&self, pos: u64) -> (r: u64)
        requires
            self.wf(),
            begs_sorted(self.ranges()),
        ensures
            r == beg_found(self.ranges(), first_beg_from(self.ranges(), pos, 0)),
    {
        find_beg_i(self, pos)
    }

    /// The range that is taken to hold position `pos`.
    pub fn num_at_pos(&self, pos: u64) -> (r: Option<u64>)
        requires
            self.wf(),
            ends_sorted(self.ranges()),
            pos < u64::MAX,
        ensures
            r == num_at(self.ranges(), pos),
    {
        num_at_pos_i(self, pos)
    }
}

/// Opens a range index from the contents of its `.rng` file, of 64-bit
/// pairs where `type64` is set and of 32-bit pairs where it is not.
pub fn open(base: &str, type64: bool, rng: &[u8]) -> (r: AnyStruct)
    ensures
        r.wf(),
        type64 ==> (r matches AnyStruct::Wide(s) && s.name@ == base@ && s.rng@ == le_words(rng@)
            && s.count == rng@.len() / 16),
        !type64 ==> (r matches AnyStruct::Narrow(s) && s.name@ == base@ && s.rng@ == le_u32s(rng@)
            && s.count == rng@.len() / 8),
{
    if type64 {
        AnyStruct::Wide(MapStructure64::open(base, rng))
    } else {
        AnyStruct::Narrow(MapStructure32::open(base, rng))
    }
}

/// Where a range holds `p`, `find_end` finds a range for `p`, and that
/// range ends after `p`.
pub proof fn lemma_find_end_after(r: Seq<(u64, u64)>, p: u64, s: int)
    requires
        r.len() <= MAX_RANGES,
        0 <= s < r.len(),
        r[s].0 <= p < r[s].1,
    ensures
        0 <= first_end_after(r, p, 0) <= s,
        r[first_end_after(r, p, 0)].1 > p,
        end_found(r, first_end_after(r, p, 0)).0 != NOT_FOUND,
{
    lemma_first_end_bounds(r, p, 0, s);
}

proof fn lemma_first_end_bounds(r: Seq<(u64, u64)>, p: u64, i: int, s: int)
    requires
        0 <= i <= s < r.len(),
        r[s].1 > p,
    ensures
        i <= first_end_after(r, p, i) <= s,
        r[first_end_after(r, p, i)].1 > p,
    decreases s - i,
{
    if r[i].1 <= p {
        lemma_first_end_bounds(r, p, i + 1, s);
    }
}

/// Where a range begins at `p`, and the beginnings never decrease,
/// `find_beg` returns `p` for `p`. (For a `p` that stands
/// behind the beginning of its range, `find_beg` returns the beginning of
/// a later range, which is greater than `p`.)
pub proof fn lemma_find_beg_at_beginning(r: Seq<(u64, u64)>, p: u64, s: int)
    requires
        begs_sorted(r),
        0 <= s < r.len(),
        r[s].0 == p,
    ensures
        beg_found(r, first_beg_from(r, p, 0)) == p,
        beg_found(r, first_beg_from(r, p, 0)) <= p,
{
    lemma_first_beg_bounds(r, p, 0, s);
    let k = first_beg_from(r, p, 0);
    assert(r[k].0 <= r[s].0);
}

proof fn lemma_first_beg_bounds(r: Seq<(u64, u64)>, p: u64, i: int, s: int)
    requires
        0 <= i <= s < r.len(),
        r[s].0 >= p,
    ensures
        i <= first_beg_from(r, p, i) <= s,
        r[first_beg_from(r, p, i)].0 >= p,
    decreases s - i,
{
    if r[i].0 < p {
        lemma_first_beg_bounds(r, p, i + 1, s);
    }
}

/// Whether the keys of the ranges never decrease.
fn keys_sorted<S: Struct + ?Sized>(s: &S, by_end: bool) -> (b: bool)
    requires
        s.wf(),
    ensures
        b == forall|i: int, j: int|
            0 <= i <= j < s.ranges().len() ==> key_of(s.ranges(), by_end, i) <= key_of(
                s.ranges(),
                by_end,
                j,
            ),
{
    let n: usize = s.len();
    if n <= 1 {
        return true;
    }
    let last: u64 = n as u64;
    let ghost r = s.ranges();
    let mut c: u64 = 1;
    while c < last
        invariant
            s.wf(),
            r == s.ranges(),
            last == r.len(),
            1 <= c <= last,
            forall|i: int, j: int|
                0 <= i <= j < c ==> key_of(r, by_end, i) <= key_of(r, by_end, j),
        decreases last - c,
    {
        if key_at(s, by_end, c - 1) > key_at(s, by_end, c) {
            assert(!(key_of(r, by_end, c - 1) <= key_of(r, by_end, c as int)));
            return false;
        }
        assert forall|i: int, j: int| 0 <= i <= j < c + 1 implies key_of(r, by_end, i) <= key_of(
            r,
            by_end,
            j,
        ) by {
            if j == c && i < c {
                assert(key_of(r, by_end, i) <= key_of(r, by_end, c - 1));
            }
        }
        c += 1;
    }
    true
}

/// Whether the ends of the ranges never decrease.
pub fn check_ends<S: Struct + ?Sized>(s: &S) -> (b: bool)
    requires
        s.wf(),
    ensures
        b == ends_sorted(s.ranges()),
{
    let b = keys_sorted(s, true);
    proof {
        let r = s.ranges();
        if b {
            assert forall|i: int, j: int| 0 <= i <= j < r.len() implies (#[trigger] r[i]).1 <= (
            #[trigger] r[j]).1 by {
                assert(key_of(r, true, i) <= key_of(r, true, j));
            }
        } else {
            if ends_sorted(r) {
                assert forall|i: int, j: int| 0 <= i <= j < r.len() implies key_of(r, true, i)
                    <= key_of(r, true, j) by {
                    assert(r[i].1 <= r[j].1);
                }
            }
        }
    }
    b
}

/// Whether the beginnings of the ranges never decrease.
pub fn check_begs<S: Struct + ?Sized>(s: &S) -> (b: bool)
    requires
        s.wf(),
    ensures
        b == begs_sorted(s.ranges()),
{
    let b = keys_sorted(s, false);
    proof {
        let r = s.ranges();
        if b {
            assert forall|i: int, j: int| 0 <= i <= j < r.len() implies (#[trigger] r[i]).0 <= (
            #[trigger] r[j]).0 by {
                assert(key_of(r, false, i) <= key_of(r, false, j));
            }
        } else {
            if begs_sorted(r) {
                assert forall|i: int, j: int| 0 <= i <= j < r.len() implies key_of(r, false, i)
                    <= key_of(r, false, j) by {
                    assert(r[i].0 <= r[j].0);
                }
            }
        }
    }
    b
}

} // verus!
