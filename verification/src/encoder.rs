//! State of the encoder of vertical text: the writers of the attributes
//! and of the structures, the position reached, and the structures that
//! stand open.

use vstd::prelude::*;
use vstd::hash_map::StringHashMap;
use crate::lexwriter::{entry_bytes, lex_bytes, LexError, LexFiles, LexWriter};
use crate::strs::texts;
use crate::textwriter::{
    AnyTextWriter,
    IntTextWriter,
    TextError,
    TextFiles,
    TextType,
    TextWriter,
};
use crate::util::{push_u32, push_u64, u32s_le, u64s_le};

verus! {

/// Number of warnings of one kind that are shown.
pub const ENC_ERR_MAX: i64 = 100;

/// Why the encoding cannot go on.
#[derive(Debug, Clone, Copy, PartialEq, Eq, Structural)]
pub enum EncodeError {
    /// A file of strings would pass the range of a 32-bit offset.
    LexOverflow,
    /// An entry of a segment index would pass the range of 32 bits.
    SegmentOverflow,
    /// An offset into a block would pass the range of 16 bits.
    OffsetOverflow,
    /// A structure would have more occurrences than 32 bits count.
    CountOverflow,
}

/// The fault of the encoder that a fault of a text stands for.
pub open spec fn text_fault(e: TextError) -> EncodeError {
    match e {
        TextError::SegmentOverflow => EncodeError::SegmentOverflow,
        TextError::OffsetOverflow => EncodeError::OffsetOverflow,
    }
}

fn from_text(e: TextError) -> (r: EncodeError)
    ensures
        r == text_fault(e),
{
    match e {
        TextError::SegmentOverflow => EncodeError::SegmentOverflow,
        TextError::OffsetOverflow => EncodeError::OffsetOverflow,
    }
}

/// What is to be done with a warning.
#[derive(Debug, Clone, Copy, PartialEq, Eq, Structural)]
pub struct Notice {
    /// The warning is shown.
    pub show: bool,
    /// It is the last of its kind that is shown, and this is said.
    pub last_shown: bool,
}

/// The count of a counter after one more warning: one more, and held at
/// the greatest number that it can count.
pub open spec fn counted(c: i64) -> i64 {
    if c < i64::MAX {
        (c + 1) as i64
    } else {
        c
    }
}

/// What is to be done with the warning that a counter at `c` counts
/// next: it is shown while fewer than `ENC_ERR_MAX` were counted, and with
/// the last that is shown this is said.
pub open spec fn notice_at(c: i64) -> Notice {
    Notice { show: c < ENC_ERR_MAX, last_shown: c == ENC_ERR_MAX - 1 }
}

/// Counter of the warnings of one kind.
#[derive(Debug)]
pub struct EncErr {
    pub name: &'static str,
    pub count: i64,
}

impl EncErr {
    /// Whether `after` is the counter `before` after a step of the
    /// encoder: with one more warning where the step warned, and unchanged
    /// where it did not.
    pub open spec fn stepped(before: &EncErr, after: &EncErr, warned: bool) -> bool {
        if warned {
            after.name == before.name && after.count == counted(before.count)
        } else {
            *after == *before
        }
    }

    /// A counter at zero.
    pub fn new(name: &'static str) -> (e: EncErr)
        ensures
            e.name == name,
            e.count == 0,
    {
        EncErr { name, count: 0 }
    }

    /// Counts one more warning. The first 100 are shown, and with the
    /// hundredth it is said that no more will be.
    pub fn emit(&mut self) -> (n: Notice)
        ensures
            n == notice_at(old(self).count),
            EncErr::stepped(old(self), final(self), true),
    {
        let n = Notice {
            show: self.count < ENC_ERR_MAX,
            last_shown: self.count == ENC_ERR_MAX - 1,
        };
        if self.count < i64::MAX {
            self.count += 1;
        }
        n
    }

    /// Whether a summary of the warnings is due at the end: there was
    /// one at least.
    pub fn summary(&self) -> (due: bool)
        ensures
            due == (self.count > 0),
    {
        self.count > 0
    }
}

/// The values of a column: for each position the value whose id the
/// text holds there.
pub open spec fn column_of(lex: Seq<Seq<char>>, ids: Seq<u32>) -> Seq<Seq<char>> {
    Seq::new(ids.len(), |p: int| lex[ids[p] as int])
}

/// Whether a lexicon of the values `values` cannot take a value: it
/// does not know the value, and its file of strings would pass 2^32 - 1
/// bytes with it.
pub open spec fn values_full(values: Seq<Seq<char>>, value: Seq<char>) -> bool {
    !(exists|i: int| 0 <= i < values.len() && #[trigger] values[i] == value) && lex_bytes(
        values,
        values.len(),
    ).len() + entry_bytes(value).len() > u32::MAX
}

/// Whether a lexicon cannot take a value.
pub open spec fn lex_full(lex: &LexWriter, value: Seq<char>) -> bool {
    values_full(lex@, value)
}

/// The lexicon after it has been asked for the id of a value that it
/// can take.
pub open spec fn lex_with(lex: Seq<Seq<char>>, value: Seq<char>) -> Seq<Seq<char>> {
    if exists|i: int| 0 <= i < lex.len() && #[trigger] lex[i] == value {
        lex
    } else {
        lex.push(value)
    }
}

/// Writer of a positional attribute: its lexicon and its text.
pub struct AttrWriter {
    pub lex: LexWriter,
    pub text: AnyTextWriter,
    pub default_value: String,
}

impl AttrWriter {
    /// Validity of a writer: every id of the text is one of the
    /// lexicon.
    pub open spec fn wf(&self) -> bool {
        &&& self.lex.wf()
        &&& self.text.wf()
        &&& self.text.ids().len() <= u32::MAX
        &&& forall|p: int|
            0 <= p < self.text.ids().len() ==> (#[trigger] self.text.ids()[p]) < self.lex@.len()
    }

    /// The values written so far, one for each position.
    pub open spec fn column(&self) -> Seq<Seq<char>> {
        column_of(self.lex@, self.text.ids())
    }

    /// Whether the text of `after` is that of `before` with one more id,
    /// which is an id of `value` in the lexicon of `after`.
    pub open spec fn text_took(before: &AttrWriter, after: &AttrWriter, value: Seq<char>) -> bool {
        let ids = after.text.ids();
        &&& ids.len() == before.text.ids().len() + 1
        &&& ids == before.text.ids().push(ids.last())
        &&& ids.last() < after.lex@.len()
        &&& after.lex@[ids.last() as int] == value
    }

    /// The fault for which the writer cannot take a value: that of its
    /// lexicon, else that of its text.
    pub open spec fn fault(&self, value: Seq<char>) -> Option<EncodeError> {
        if lex_full(&self.lex, value) {
            Some(EncodeError::LexOverflow)
        } else if self.text.fault() is Some {
            Some(text_fault(self.text.fault()->0))
        } else {
            None
        }
    }

    /// A writer with no position.
    pub fn new(_name: &str, text_type: TextType, segment_size: usize, default_value: String) -> (w:
        AttrWriter)
        requires
            0 < segment_size < u64::MAX,
        ensures
            w.wf(),
            w.column() == Seq::<Seq<char>>::empty(),
            w.lex@ == Seq::<Seq<char>>::empty(),
            w.text.ids() == Seq::<u32>::empty(),
            w.default_value == default_value,
            w.text.layout() == text_type,
            text_type == TextType::Delta ==> w.text.stride() == segment_size,
    {
        let w = AttrWriter {
            lex: LexWriter::new(),
            text: AnyTextWriter::new(text_type, segment_size),
            default_value,
        };
        assert(w.column() =~= Seq::<Seq<char>>::empty());
        w
    }

    /// Takes the value of the next position: gives it its id in the
    /// lexicon, and the id to the text.
    pub fn push_value(&mut self, value: &str, pos: u32) -> (r: Result<(), EncodeError>)
        requires
            old(self).wf(),
            old(self).text.ids().len() < u32::MAX,
        ensures
            final(self).wf(),
            final(self).text.layout() == old(self).text.layout(),
            final(self).text.stride() == old(self).text.stride(),
            final(self).default_value == old(self).default_value,
            match old(self).fault(value@) {
                Some(e) => r == Err::<(), EncodeError>(e) && final(self).text.ids() == old(
                    self,
                ).text.ids(),
                None => {
                    &&& r is Ok
                    &&& final(self).column() == old(self).column().push(value@)
                    &&& final(self).lex@ == lex_with(old(self).lex@, value@)
                    &&& AttrWriter::text_took(old(self), final(self), value@)
                },
            },
    {
        let id: u32 = match self.lex.id_for(value) {
            Ok(id) => id,
            Err(_) => {
                return Err(EncodeError::LexOverflow);
            },
        };
        match self.text.push(id) {
            Ok(()) => {},
            Err(e) => {
                return Err(from_text(e));
            },
        }
        let _ = pos;
        proof {
            assert(final(self).column() =~= old(self).column().push(value@));
        }
        Ok(())
    }
}

/// Writer of an attribute of a structure: its lexicon and its text, an
/// array with one id for each occurrence of the structure.
pub struct StructAttrWriter {
    pub name: String,
    pub lex: LexWriter,
    pub text: IntTextWriter,
    pub default_value: String,
}

impl StructAttrWriter {
    /// Validity of a writer: every id of the text is one of the
    /// lexicon.
    pub open spec fn wf(&self) -> bool {
        &&& self.lex.wf()
        &&& self.text.wf()
        &&& forall|p: int| 0 <= p < self.text@.len() ==> (#[trigger] self.text@[p]) < self.lex@.len()
    }

    /// The values written so far, one for each occurrence.
    pub open spec fn column(&self) -> Seq<Seq<char>> {
        column_of(self.lex@, self.text@)
    }

    /// A writer with no occurrence.
    pub fn new(name: &str, default_value: String) -> (w: StructAttrWriter)
        ensures
            w.wf(),
            w.name@ == name@,
            w.column() == Seq::<Seq<char>>::empty(),
            w.lex@ == Seq::<Seq<char>>::empty(),
            w.default_value == default_value,
    {
        let w = StructAttrWriter {
            name: name.to_owned(),
            lex: LexWriter::new(),
            text: IntTextWriter::new(),
            default_value,
        };
        assert(w.column() =~= Seq::<Seq<char>>::empty());
        w
    }

    /// The id of a value in the lexicon of the attribute.
    pub fn id_for(&mut self, value: &str) -> (r: Result<u32, EncodeError>)
        requires
            old(self).wf(),
        ensures
            final(self).wf(),
            final(self).name == old(self).name,
            final(self).default_value == old(self).default_value,
            final(self).text == old(self).text,
            lex_full(&old(self).lex, value@) ==> r == Err::<u32, EncodeError>(
                EncodeError::LexOverflow,
            ) && final(self).lex@ == old(self).lex@,
            !lex_full(&old(self).lex, value@) ==> (r matches Ok(id) && id < final(self).lex@.len()
                && final(self).lex@[id as int] == value@ && final(self).lex@ == lex_with(
                old(self).lex@,
                value@,
            )),
    {
        match self.lex.id_for(value) {
            Ok(id) => Ok(id),
            Err(_) => Err(EncodeError::LexOverflow),
        }
    }

    /// Takes the id of the value of the next occurrence.
    pub fn push_value(&mut self, id: u32, _struct_pos: u32) -> (r: Result<(), EncodeError>)
        requires
            old(self).wf(),
            id < old(self).lex@.len(),
        ensures
            r is Ok,
            final(self).wf(),
            final(self).name == old(self).name,
            final(self).default_value == old(self).default_value,
            final(self).lex == old(self).lex,
            final(self).column() == old(self).column().push(old(self).lex@[id as int]),
    {
        let _ = self.text.push(id);
        proof {
            assert(final(self).column() =~= old(self).column().push(old(self).lex@[id as int]));
        }
        Ok(())
    }

    /// Takes the value of the next occurrence; refuses it if and only
    /// if the lexicon cannot take it.
    pub fn put(&mut self, value: &str, struct_pos: u32) -> (r: Result<(), EncodeError>)
        requires
            old(self).wf(),
        ensures
            final(self).name == old(self).name,
            final(self).default_value == old(self).default_value,
            final(self).wf(),
            lex_full(&old(self).lex, value@) ==> r == Err::<(), EncodeError>(
                EncodeError::LexOverflow,
            ) && final(self).column() == old(self).column(),
            !lex_full(&old(self).lex, value@) ==> r is Ok && final(self).column() == old(
                self,
            ).column().push(value@) && final(self).lex@ == lex_with(old(self).lex@, value@),
    {
        let id: u32 = match self.id_for(value) {
            Ok(id) => id,
            Err(e) => {
                assert(final(self).column() =~= old(self).column());
                return Err(e);
            },
        };
        let ghost mid = self.column();
        assert(mid =~= old(self).column());
        self.push_value(id, struct_pos)
    }
}

/// The bytes of a range in the file of ranges: two 64-bit numbers where
/// `type64` is set, else two 32-bit numbers, each the low 32 bits of its
/// position.
pub open spec fn pair_bytes(type64: bool, beg: u64, end: u64) -> Seq<u8> {
    if type64 {
        u64s_le(seq![beg]) + u64s_le(seq![end])
    } else {
        u32s_le(seq![beg as u32]) + u32s_le(seq![end as u32])
    }
}

/// The file of the first `n` ranges.
pub open spec fn rng_bytes(type64: bool, ranges: Seq<(u64, u64)>, n: nat) -> Seq<u8>
    decreases n,
{
    if n == 0 {
        Seq::empty()
    } else {
        rng_bytes(type64, ranges, (n - 1) as nat) + pair_bytes(
            type64,
            ranges[n - 1].0,
            ranges[n - 1].1,
        )
    }
}

/// The file of the first ranges does not depend on those that follow.
pub proof fn lemma_rng_bytes_prefix(type64: bool, a: Seq<(u64, u64)>, b: Seq<(u64, u64)>, n: nat)
    requires
        n <= a.len(),
        n <= b.len(),
        forall|i: int| 0 <= i < n ==> a[i] == b[i],
    ensures
        rng_bytes(type64, a, n) == rng_bytes(type64, b, n),
    decreases n,
{
    if n > 0 {
        lemma_rng_bytes_prefix(type64, a, b, (n - 1) as nat);
    }
}

/// Writer of a structure: its file of ranges and its attributes.
pub struct StructWriter {
    pub name: String,
    pub type64: bool,
    pub rng: Vec<u8>,
    pub count: u32,
    pub attrs: Vec<StructAttrWriter>,
    /// The position at which the structure was last opened.
    pub last_start_pos: Option<u64>,
    /// The position of an empty occurrence that has yet to be written.
    pub pending_empty_pos: Option<u64>,
    /// The values of the attributes of that occurrence.
    pub pending_empty_vals: Option<Vec<String>>,
    pub ranges: Ghost<Seq<(u64, u64)>>,
}

impl View for StructWriter {
    type V = Seq<(u64, u64)>;

    /// The ranges written so far.
    open spec fn view(&self) -> Seq<(u64, u64)> {
        self.ranges@
    }
}

/// Whether one of the first `n` lexicons cannot take its value.
pub open spec fn any_lex_full(attrs: Seq<StructAttrWriter>, vals: Seq<Seq<char>>, n: nat) -> bool {
    exists|k: int| 0 <= k < n && lex_full(&(#[trigger] attrs[k]).lex, vals[k])
}

impl StructWriter {
    /// Validity of a writer: the file holds the ranges written so far,
    /// and every attribute a value for each of them.
    pub open spec fn wf(&self) -> bool {
        &&& self.rng@ == rng_bytes(self.type64, self@, self@.len())
        &&& self.count == self@.len()
        &&& forall|k: int|
            0 <= k < self.attrs@.len() ==> (#[trigger] self.attrs@[k]).wf() && self.attrs@[k].column().len()
                == self.count
        &&& self.pending_empty_vals matches Some(v) ==> v@.len() == self.attrs@.len()
    }

    /// The fault for which an occurrence with the values `vals` cannot
    /// be written: the count of 32 bits at its end, else a lexicon that
    /// cannot take its value.
    pub open spec fn fault(&self, vals: Seq<Seq<char>>) -> Option<EncodeError> {
        if self.count == u32::MAX {
            Some(EncodeError::CountOverflow)
        } else if any_lex_full(self.attrs@, vals, self.attrs@.len()) {
            Some(EncodeError::LexOverflow)
        } else {
            None
        }
    }

    /// Whether `after` is the writer `before` with one more occurrence
    /// from `beg` to `end`, whose attributes have the values `vals`.
    pub open spec fn added(
        before: &StructWriter,
        after: &StructWriter,
        beg: u64,
        end: u64,
        vals: Seq<Seq<char>>,
    ) -> bool {
        &&& after.wf()
        &&& after@ == before@.push((beg, end))
        &&& after.name == before.name
        &&& after.type64 == before.type64
        &&& after.attrs@.len() == before.attrs@.len()
        &&& forall|k: int|
            0 <= k < before.attrs@.len() ==> {
                &&& (#[trigger] after.attrs@[k]).column() == before.attrs@[k].column().push(vals[k])
                &&& after.attrs@[k].lex@ == lex_with(before.attrs@[k].lex@, vals[k])
                &&& after.attrs@[k].name == before.attrs@[k].name
                &&& after.attrs@[k].default_value == before.attrs@[k].default_value
            }
    }

    /// A writer with no occurrence.
    pub fn new(name: &str, type64: bool, attrs: Vec<StructAttrWriter>) -> (w: StructWriter)
        requires
            forall|k: int|
                0 <= k < attrs@.len() ==> (#[trigger] attrs@[k]).wf() && attrs@[k].column().len() == 0,
        ensures
            w.wf(),
            w@ == Seq::<(u64, u64)>::empty(),
            w.name@ == name@,
            w.type64 == type64,
            w.attrs == attrs,
            w.last_start_pos is None,
            w.pending_empty_pos is None,
            w.pending_empty_vals is None,
    {
        StructWriter {
            name: name.to_owned(),
            type64,
            rng: Vec::new(),
            count: 0,
            attrs,
            last_start_pos: None,
            pending_empty_pos: None,
            pending_empty_vals: None,
            ranges: Ghost(Seq::empty()),
        }
    }

    /// Writes one occurrence: its range, and the value of each
    /// attribute.
    #[verifier::rlimit(50)]
    pub fn write_range(&mut self, beg: u64, end: u64, vals: &Vec<String>) -> (r: Result<
        (),
        EncodeError,
    >)
        requires
            old(self).wf(),
            vals@.len() == old(self).attrs@.len(),
        ensures
            final(self).last_start_pos == old(self).last_start_pos,
            final(self).pending_empty_pos == old(self).pending_empty_pos,
            final(self).pending_empty_vals == old(self).pending_empty_vals,
            match old(self).fault(texts(vals@)) {
                Some(e) => r == Err::<(), EncodeError>(e),
                None => r is Ok && StructWriter::added(old(self), final(self), beg, end, texts(vals@)),
            },
    {
        let ghost before = *self;
        if self.type64 {
            push_u64(&mut self.rng, beg);
            push_u64(&mut self.rng, end);
        } else {
            push_u32(&mut self.rng, #[verifier::truncate] (beg as u32));
            push_u32(&mut self.rng, #[verifier::truncate] (end as u32));
        }
        let struct_pos: u32 = self.count;
        if self.count == u32::MAX {
            return Err(EncodeError::CountOverflow);
        }
        self.count = self.count + 1;
        proof {
            self.ranges@ = before@.push((beg, end));
            lemma_rng_bytes_prefix(self.type64, before@, self@, before@.len());
            assert(self.rng@ =~= rng_bytes(self.type64, self@, self@.len()));
        }
        let mut k: usize = 0;
        while k < self.attrs.len()
            invariant
                k <= self.attrs@.len(),
                before == *old(self),
                self.attrs@.len() == before.attrs@.len(),
                vals@.len() == before.attrs@.len(),
                before.wf(),
                before.count < u32::MAX,
                self.name == before.name,
                self.type64 == before.type64,
                self.rng@ == rng_bytes(self.type64, self@, self@.len()),
                self@ == before@.push((beg, end)),
                self.count == before.count + 1,
                self.last_start_pos == before.last_start_pos,
                self.pending_empty_pos == before.pending_empty_pos,
                self.pending_empty_vals == before.pending_empty_vals,
                !any_lex_full(before.attrs@, texts(vals@), k as nat),
                forall|j: int|
                    0 <= j < k ==> {
                        &&& (#[trigger] self.attrs@[j]).wf()
                        &&& self.attrs@[j].column() == before.attrs@[j].column().push(vals@[j]@)
                        &&& self.attrs@[j].lex@ == lex_with(before.attrs@[j].lex@, vals@[j]@)
                        &&& self.attrs@[j].name == before.attrs@[j].name
                        &&& self.attrs@[j].default_value == before.attrs@[j].default_value
                    },
                forall|j: int| k <= j < self.attrs@.len() ==> (#[trigger] self.attrs@[j]) == before.attrs@[j],
            decreases self.attrs@.len() - k,
        {
            match self.attrs[k].put(vals[k].as_str(), struct_pos) {
                Ok(()) => {},
                Err(e) => {
                    assert(lex_full(&before.attrs@[k as int].lex, texts(vals@)[k as int]));
                    return Err(e);
                },
            }
            k += 1;
        }
        Ok(())
    }
}

/// Writes the empty occurrence that a structure holds back, if it holds
/// one back with its values, and holds none back afterwards.
pub fn flush_pending_empty(sb: &mut StructWriter) -> (r: Result<(), EncodeError>)
    requires
        old(sb).wf(),
    ensures
        final(sb).last_start_pos == old(sb).last_start_pos,
        final(sb).pending_empty_pos is None,
        old(sb).pending_empty_pos is Some ==> final(sb).pending_empty_vals is None,
        match (old(sb).pending_empty_pos, old(sb).pending_empty_vals) {
            (Some(pos), Some(vals)) => match old(sb).fault(texts(vals@)) {
                Some(e) => r == Err::<(), EncodeError>(e),
                None => r is Ok && StructWriter::added(old(sb), final(sb), pos, pos, texts(vals@)),
            },
            (Some(pos), None) => r is Ok && final(sb).wf() && final(sb)@ == old(sb)@ && final(sb).attrs
                == old(sb).attrs && final(sb).name == old(sb).name && final(sb).type64 == old(
                sb,
            ).type64,
            (None, _) => r is Ok && *final(sb) == *old(sb),
        },
{
    let pos: u64 = match sb.pending_empty_pos.take() {
        Some(p) => p,
        None => {
            return Ok(());
        },
    };
    let vals: Vec<String> = match sb.pending_empty_vals.take() {
        Some(v) => v,
        None => {
            return Ok(());
        },
    };
    sb.write_range(pos, pos, &vals)
}

/// Whether `after` is the writer `before` once the empty occurrence
/// that it holds back at `pos` is written: unchanged where it holds none
/// back at `pos`, else with one more occurrence from `pos` to `pos`, and
/// holding none back.
pub open spec fn flushed(before: &StructWriter, after: &StructWriter, pos: u64) -> bool {
    if before.pending_empty_pos == Some(pos) {
        &&& after.last_start_pos == before.last_start_pos
        &&& after.pending_empty_pos is None
        &&& after.pending_empty_vals is None
        &&& match before.pending_empty_vals {
            Some(vals) => StructWriter::added(before, after, pos, pos, texts(vals@)),
            None => after.wf() && after@ == before@ && after.attrs == before.attrs && after.name
                == before.name && after.type64 == before.type64,
        }
    } else {
        *after == *before
    }
}

/// The fault for which a structure cannot write the empty occurrence
/// that it holds back at `pos`.
pub open spec fn flush_fault(sb: &StructWriter, pos: u64) -> Option<EncodeError> {
    if sb.pending_empty_pos == Some(pos) && sb.pending_empty_vals is Some {
        sb.fault(texts(sb.pending_empty_vals->0@))
    } else {
        None
    }
}

/// The first fault among the first `n` structures that write the empty
/// occurrence that they hold back at `pos`.
pub open spec fn first_flush_fault(structs: Seq<StructWriter>, pos: u64, n: nat) -> Option<
    EncodeError,
>
    decreases n,
{
    if n == 0 {
        None
    } else {
        let before = first_flush_fault(structs, pos, (n - 1) as nat);
        if before is Some {
            before
        } else {
            flush_fault(&structs[n - 1], pos)
        }
    }
}

/// A fault among the first structures is the fault among all.
pub proof fn lemma_flush_fault_stays(structs: Seq<StructWriter>, pos: u64, a: nat, b: nat)
    requires
        a <= b,
        first_flush_fault(structs, pos, a) is Some,
    ensures
        first_flush_fault(structs, pos, b) == first_flush_fault(structs, pos, a),
    decreases b,
{
    if a < b {
        lemma_flush_fault_stays(structs, pos, a, (b - 1) as nat);
    }
}

/// Writes, for every structure, the empty occurrence that it holds back
/// at `pos`; stops at the first fault.
pub fn flush_all_pending_at_pos(structs: &mut Vec<StructWriter>, pos: u64) -> (r: Result<
    (),
    EncodeError,
>)
    requires
        forall|s: int| 0 <= s < old(structs)@.len() ==> (#[trigger] old(structs)@[s]).wf(),
    ensures
        final(structs)@.len() == old(structs)@.len(),
        match first_flush_fault(old(structs)@, pos, old(structs)@.len()) {
            Some(e) => r == Err::<(), EncodeError>(e),
            None => r is Ok && forall|s: int|
                0 <= s < old(structs)@.len() ==> flushed(
                    &old(structs)@[s],
                    &#[trigger] final(structs)@[s],
                    pos,
                ),
        },
{
    let mut s: usize = 0;
    while s < structs.len()
        invariant
            s <= structs@.len(),
            structs@.len() == old(structs)@.len(),
            forall|j: int| 0 <= j < old(structs)@.len() ==> (#[trigger] old(structs)@[j]).wf(),
            first_flush_fault(old(structs)@, pos, s as nat) is None,
            forall|j: int|
                0 <= j < s ==> flushed(&old(structs)@[j], &#[trigger] structs@[j], pos),
            forall|j: int| s <= j < structs@.len() ==> (#[trigger] structs@[j]) == old(structs)@[j],
        decreases structs@.len() - s,
    {
        let here: bool = match structs[s].pending_empty_pos {
            Some(p) => p == pos,
            None => false,
        };
        if here {
            match flush_pending_empty(&mut structs[s]) {
                Ok(()) => {},
                Err(e) => {
                    proof {
                        lemma_flush_fault_stays(
                            old(structs)@,
                            pos,
                            (s + 1) as nat,
                            old(structs)@.len(),
                        );
                    }
                    return Err(e);
                },
            }
        }
        s += 1;
    }
    Ok(())
}

/// The pieces of a line between its tabs, from character `i` on.
pub open spec fn split_from(s: Seq<char>, i: int) -> Seq<Seq<char>>
    decreases s.len() - i,
{
    let t = crate::strs::find_char(s, i, '\t');
    if i < 0 || t >= s.len() {
        seq![s.subrange(i, s.len() as int)]
    } else {
        proof {
            crate::strs::lemma_find_char_bounds(s, i, '\t');
        }
        seq![s.subrange(i, t)] + split_from(s, t + 1)
    }
}

/// The pieces of a line between its tabs.
pub fn split_tabs(line: &str) -> (fields: Vec<String>)
    ensures
        texts(fields@) == split_from(line@, 0),
{
    let v = crate::strs::chars_of(line);
    let mut fields: Vec<String> = Vec::new();
    let mut i: usize = 0;
    loop
        invariant
            i <= v@.len(),
            v@ == line@,
            split_from(line@, 0) == texts(fields@) + split_from(line@, i as int),
        decreases v@.len() - i,
    {
        let t: usize = crate::strs::find_char_in(&v, i, '\t');
        let ghost before = texts(fields@);
        if t >= v.len() {
            fields.push(crate::strs::part(line, i, v.len()));
            assert(texts(fields@) =~= before + seq![line@.subrange(i as int, line@.len() as int)]);
            return fields;
        }
        fields.push(crate::strs::part(line, i, t));
        assert(texts(fields@) =~= before + seq![line@.subrange(i as int, t as int)]);
        assert(before + (seq![line@.subrange(i as int, t as int)] + split_from(line@, t + 1))
            =~= texts(fields@) + split_from(line@, t + 1));
        i = t + 1;
    }
}

/// Whether a structure holds back, with its values, an empty
/// occurrence at another position than `pos`, which is written before
/// anything else is done with the structure at `pos`.
pub open spec fn flush_due(sb: &StructWriter, pos: u64) -> bool {
    sb.pending_empty_pos is Some && sb.pending_empty_pos != Some(pos) && sb.pending_empty_vals is Some
}

/// The fault for which that occurrence cannot be written.
pub open spec fn settle_fault(sb: &StructWriter, pos: u64) -> Option<EncodeError> {
    if flush_due(sb, pos) {
        sb.fault(texts(sb.pending_empty_vals->0@))
    } else {
        None
    }
}

/// Whether `after` is the writer `before` once an empty occurrence held
/// back at another position than `pos` is written: the writer with that
/// occurrence and holding none back, or unchanged where it holds none back
/// but at `pos`.
pub open spec fn settled(before: &StructWriter, after: &StructWriter, pos: u64) -> bool {
    if before.pending_empty_pos is Some && before.pending_empty_pos != Some(pos) {
        flushed(before, after, before.pending_empty_pos->0)
    } else {
        *after == *before
    }
}

fn settle(sb: &mut StructWriter, pos: u64) -> (r: Result<(), EncodeError>)
    requires
        old(sb).wf(),
    ensures
        match settle_fault(old(sb), pos) {
            Some(e) => r == Err::<(), EncodeError>(e),
            None => r is Ok && settled(old(sb), final(sb), pos) && final(sb).wf(),
        },
{
    let due: bool = match sb.pending_empty_pos {
        Some(p) => p != pos,
        None => false,
    };
    if due {
        flush_pending_empty(sb)
    } else {
        Ok(())
    }
}

/// The lexicon of attribute `k` of a structure once an empty occurrence
/// that it holds back at another position than `pos` is written.
pub open spec fn settled_lex(sb: &StructWriter, pos: u64, k: int) -> Seq<Seq<char>> {
    if flush_due(sb, pos) {
        lex_with(sb.attrs@[k].lex@, sb.pending_empty_vals->0@[k]@)
    } else {
        sb.attrs@[k].lex@
    }
}

/// The fault for which a structure cannot write an occurrence with the
/// values `vals` at `pos`: that of an empty occurrence that it holds back
/// at another position, which is written first; else the count of 32 bits
/// at its end; else a lexicon that cannot take its value.
pub open spec fn closing_fault(sb: &StructWriter, pos: u64, vals: Seq<Seq<char>>) -> Option<
    EncodeError,
> {
    if settle_fault(sb, pos) is Some {
        settle_fault(sb, pos)
    } else if sb.count + (if flush_due(sb, pos) {
        1int
    } else {
        0int
    }) == u32::MAX {
        Some(EncodeError::CountOverflow)
    } else if exists|k: int|
        0 <= k < sb.attrs@.len() && values_full(#[trigger] settled_lex(sb, pos, k), vals[k]) {
        Some(EncodeError::LexOverflow)
    } else {
        None
    }
}

/// The fault of an occurrence that is written behind an empty one held
/// back elsewhere is the fault that the writer before both has for it.
pub proof fn lemma_closing_fault(
    sb: &StructWriter,
    mid: &StructWriter,
    pos: u64,
    vals: Seq<Seq<char>>,
)
    requires
        sb.wf(),
        mid.wf(),
        settle_fault(sb, pos) is None,
        settled(sb, mid, pos),
    ensures
        mid.fault(vals) == closing_fault(sb, pos, vals),
{
    assert(mid.attrs@.len() == sb.attrs@.len());
    assert forall|k: int| 0 <= k < sb.attrs@.len() implies (#[trigger] mid.attrs@[k]).lex@
        == settled_lex(sb, pos, k) by {
        if flush_due(sb, pos) {
            let vals0 = sb.pending_empty_vals->0;
            assert(texts(vals0@)[k] == vals0@[k]@);
        }
    }
    if any_lex_full(mid.attrs@, vals, mid.attrs@.len()) {
        let k = choose|k: int|
            0 <= k < mid.attrs@.len() && lex_full(&(#[trigger] mid.attrs@[k]).lex, vals[k]);
        assert(values_full(settled_lex(sb, pos, k), vals[k]));
    }
    if exists|k: int|
        0 <= k < sb.attrs@.len() && values_full(#[trigger] settled_lex(sb, pos, k), vals[k]) {
        let k = choose|k: int|
            0 <= k < sb.attrs@.len() && values_full(#[trigger] settled_lex(sb, pos, k), vals[k]);
        assert(lex_full(&mid.attrs@[k].lex, vals[k]));
    }
}

/// A structure that stands open.
pub struct OpenStruct {
    pub name: String,
    pub start: u64,
    pub attr_values: Vec<String>,
}

/// What a line did.
#[derive(Debug, Clone, Copy, PartialEq, Eq, Structural)]
pub enum Event {
    /// An empty line or a comment: nothing.
    Skipped,
    /// The line was a token.
    Token,
    /// The line opened a structure. Where the structure was opened at
    /// the same position before, a warning is due.
    Opened { again: Option<Notice> },
    /// The line closed the structure that was opened last.
    Closed,
    /// The line closes a structure while none stands open: a warning is
    /// due, and the line is passed over.
    NotOpen { notice: Notice },
    /// The line closes another structure than the one that was opened
    /// last: a warning is due, and the line is passed over.
    Mismatch { notice: Notice },
}

/// Index of the last of the first `n` structures whose name is `name`;
/// -1 where there is none.
pub open spec fn last_named(structs: Seq<StructWriter>, name: Seq<char>, n: nat) -> int
    decreases n,
{
    if n == 0 {
        -1
    } else if structs[n - 1].name@ == name {
        n - 1
    } else {
        last_named(structs, name, (n - 1) as nat)
    }
}

/// The index found names a structure of that name.
pub proof fn lemma_last_named(structs: Seq<StructWriter>, name: Seq<char>, n: nat)
    requires
        n <= structs.len(),
    ensures
        -1 <= last_named(structs, name, n) < n,
        last_named(structs, name, n) >= 0 ==> structs[last_named(structs, name, n)].name@ == name,
    decreases n,
{
    if n > 0 {
        lemma_last_named(structs, name, (n - 1) as nat);
    }
}

/// Structures of the same names are found under the same indexes.
pub proof fn lemma_last_named_same(
    a: Seq<StructWriter>,
    b: Seq<StructWriter>,
    name: Seq<char>,
    n: nat,
)
    requires
        n <= a.len(),
        a.len() == b.len(),
        forall|s: int| 0 <= s < a.len() ==> (#[trigger] a[s]).name == b[s].name,
    ensures
        last_named(a, name, n) == last_named(b, name, n),
    decreases n,
{
    if n > 0 {
        lemma_last_named_same(a, b, name, (n - 1) as nat);
    }
}

/// An index of the names of structures is one of any structures of the
/// same names.
pub proof fn lemma_index_stays(
    a: Seq<StructWriter>,
    b: Seq<StructWriter>,
    index: Map<Seq<char>, usize>,
)
    requires
        a.len() == b.len(),
        forall|s: int| 0 <= s < a.len() ==> (#[trigger] a[s]).name == b[s].name,
        Encoder::names_indexed(a, index, a.len()),
    ensures
        Encoder::names_indexed(b, index, b.len()),
{
    assert forall|name: Seq<char>|
        (#[trigger] index.contains_key(name)) == (last_named(b, name, b.len()) >= 0) && (
        index.contains_key(name) ==> index[name] == last_named(b, name, b.len())) by {
        lemma_last_named_same(a, b, name, a.len());
    }
}

/// The values that the attributes of a structure take from a tag: for
/// each attribute the value that the tag gives it, or its default.
pub open spec fn tag_values(attrs: Seq<StructAttrWriter>, tag: Map<Seq<char>, Seq<char>>) -> Seq<
    Seq<char>,
> {
    Seq::new(
        attrs.len(),
        |k: int|
            if tag.contains_key(attrs[k].name@) {
                tag[attrs[k].name@]
            } else {
                attrs[k].default_value@
            },
    )
}

/// The values that the attributes take from a token: for each attribute
/// the piece of the line that stands at its place, or its default where
/// the line has fewer pieces.
pub open spec fn token_values(attrs: Seq<AttrWriter>, fields: Seq<Seq<char>>) -> Seq<Seq<char>> {
    Seq::new(
        attrs.len(),
        |i: int|
            if i < fields.len() {
                fields[i]
            } else {
                attrs[i].default_value@
            },
    )
}

/// The first fault among the first `n` attributes that take their
/// values.
pub open spec fn first_attr_fault(attrs: Seq<AttrWriter>, values: Seq<Seq<char>>, n: nat) -> Option<
    EncodeError,
>
    decreases n,
{
    if n == 0 {
        None
    } else {
        let before = first_attr_fault(attrs, values, (n - 1) as nat);
        if before is Some {
            before
        } else {
            attrs[n - 1].fault(values[n - 1])
        }
    }
}

/// A fault among the first attributes is the fault among all.
pub proof fn lemma_attr_fault_stays(attrs: Seq<AttrWriter>, values: Seq<Seq<char>>, a: nat, b: nat)
    requires
        a <= b,
        first_attr_fault(attrs, values, a) is Some,
    ensures
        first_attr_fault(attrs, values, b) == first_attr_fault(attrs, values, a),
    decreases b,
{
    if a < b {
        lemma_attr_fault_stays(attrs, values, a, (b - 1) as nat);
    }
}

/// The encoder: the writers of the attributes and of the structures,
/// both in the order of the corpus, the index of each structure under its
/// name, the position that the next token takes, the structures that
/// stand open, and the counters of the warnings.
pub struct Encoder {
    pub attrs: Vec<AttrWriter>,
    pub structs: Vec<StructWriter>,
    pub index: StringHashMap<usize>,
    pub pos: u32,
    pub open_structs: Vec<OpenStruct>,
    pub err_open_same_str: EncErr,
    pub err_closing_str: EncErr,
    pub err_mismatch_str: EncErr,
    pub err_unterminated: EncErr,
}

impl Encoder {
    /// Whether the counters of `after` are those of `before` after a
    /// step that gave the warnings named: each counter of a warning that
    /// was given has one more, and each other is unchanged.
    pub open spec fn counters(
        before: &Encoder,
        after: &Encoder,
        again: bool,
        not_open: bool,
        mismatch: bool,
        unterminated: bool,
    ) -> bool {
        &&& EncErr::stepped(&before.err_open_same_str, &after.err_open_same_str, again)
        &&& EncErr::stepped(&before.err_closing_str, &after.err_closing_str, not_open)
        &&& EncErr::stepped(&before.err_mismatch_str, &after.err_mismatch_str, mismatch)
        &&& EncErr::stepped(&before.err_unterminated, &after.err_unterminated, unterminated)
    }

    /// Index of the structure that `name` names: the last of that name;
    /// -1 where the corpus has none.
    pub open spec fn struct_of(&self, name: Seq<char>) -> int {
        last_named(self.structs@, name, self.structs@.len())
    }

    /// Whether `index` holds under each name the index of the
    /// structure that the name names, and no other name.
    pub open spec fn names_indexed(structs: Seq<StructWriter>, index: Map<Seq<char>, usize>, n: nat) -> bool {
        forall|name: Seq<char>|
            (#[trigger] index.contains_key(name)) == (last_named(structs, name, n) >= 0) && (
            index.contains_key(name) ==> index[name] == last_named(structs, name, n))
    }

    /// Validity of an encoder: every attribute has a value for each
    /// position before `pos`, every structure is found under its name, and
    /// every structure that stands open is one of the corpus, with a value
    /// for each of its attributes.
    pub open spec fn wf(&self) -> bool {
        &&& Encoder::names_indexed(self.structs@, self.index@, self.structs@.len())
        &&& forall|i: int|
            0 <= i < self.attrs@.len() ==> (#[trigger] self.attrs@[i]).wf() && self.attrs@[i].text.ids().len()
                == self.pos
        &&& forall|s: int| 0 <= s < self.structs@.len() ==> (#[trigger] self.structs@[s]).wf()
        &&& forall|o: int|
            0 <= o < self.open_structs@.len() ==> self.struct_of(
                (#[trigger] self.open_structs@[o]).name@,
            ) >= 0 && self.open_structs@[o].attr_values@.len() == self.structs@[self.struct_of(
                self.open_structs@[o].name@,
            )].attrs@.len()
    }

    /// An encoder at position 0 for the attributes and structures of a
    /// corpus.
    pub fn new(attrs: Vec<AttrWriter>, structs: Vec<StructWriter>) -> (e: Encoder)
        requires
            forall|i: int|
                0 <= i < attrs@.len() ==> (#[trigger] attrs@[i]).wf() && attrs@[i].text.ids().len()
                    == 0,
            forall|s: int| 0 <= s < structs@.len() ==> (#[trigger] structs@[s]).wf(),
        ensures
            e.wf(),
            e.attrs == attrs,
            e.structs == structs,
            e.pos == 0,
            e.open_structs@.len() == 0,
            e.err_open_same_str.count == 0,
            e.err_closing_str.count == 0,
            e.err_mismatch_str.count == 0,
            e.err_unterminated.count == 0,
            e.err_open_same_str.name@ == "structure opened multiple times on same position"@,
            e.err_closing_str.name@ == "closing non opened structure"@,
            e.err_mismatch_str.name@ == "mismatched closing structure"@,
            e.err_unterminated.name@ == "unterminated structure tags"@,
    {
        let mut index: StringHashMap<usize> = StringHashMap::new();
        let mut k: usize = 0;
        while k < structs.len()
            invariant
                k <= structs@.len(),
                Encoder::names_indexed(structs@, index@, k as nat),
            decreases structs@.len() - k,
        {
            let ghost before = index@;
            index.insert(structs[k].name.as_str().to_owned(), k);
            proof {
                let added = structs@[k as int].name@;
                assert forall|name: Seq<char>|
                    (#[trigger] index@.contains_key(name)) == (last_named(
                        structs@,
                        name,
                        (k + 1) as nat,
                    ) >= 0) && (index@.contains_key(name) ==> index@[name] == last_named(
                        structs@,
                        name,
                        (k + 1) as nat,
                    )) by {
                    lemma_last_named(structs@, name, k as nat);
                    if name != added {
                        assert(index@.contains_key(name) == before.contains_key(name));
                    }
                }
            }
            k += 1;
        }
        Encoder {
            attrs,
            structs,
            index,
            pos: 0,
            open_structs: Vec::new(),
            err_open_same_str: EncErr::new("structure opened multiple times on same position"),
            err_closing_str: EncErr::new("closing non opened structure"),
            err_mismatch_str: EncErr::new("mismatched closing structure"),
            err_unterminated: EncErr::new("unterminated structure tags"),
        }
    }

    /// Index of the structure that `name` names, if the corpus has it.
    pub fn find_struct(&self, name: &str) -> (r: Option<usize>)
        requires
            Encoder::names_indexed(self.structs@, self.index@, self.structs@.len()),
        ensures
            r is Some <==> self.struct_of(name@) >= 0,
            r matches Some(s) ==> s == self.struct_of(name@) && s < self.structs@.len(),
    {
        proof {
            lemma_last_named(self.structs@, name@, self.structs@.len());
        }
        match self.index.get(name) {
            Some(s) => Some(*s),
            None => None,
        }
    }

    /// Whether `after` is the encoder `before` after a token with the
    /// pieces `fields`: every attribute has one more value, every
    /// structure has written the empty occurrence that it held back at the
    /// position of the token, and the position is the next.
    pub open spec fn token_taken(before: &Encoder, after: &Encoder, fields: Seq<Seq<char>>) -> bool {
        let values = token_values(before.attrs@, fields);
        &&& after.wf()
        &&& after.pos == before.pos + 1
        &&& after.open_structs == before.open_structs
        &&& Encoder::counters(before, after, false, false, false, false)
        &&& after.attrs@.len() == before.attrs@.len()
        &&& forall|i: int|
            0 <= i < before.attrs@.len() ==> (#[trigger] after.attrs@[i]).column()
                == before.attrs@[i].column().push(values[i]) && after.attrs@[i].default_value
                == before.attrs@[i].default_value
        &&& forall|i: int|
            0 <= i < before.attrs@.len() ==> (#[trigger] after.attrs@[i]).lex@ == lex_with(
                before.attrs@[i].lex@,
                values[i],
            ) && AttrWriter::text_took(&before.attrs@[i], &after.attrs@[i], values[i])
                && after.attrs@[i].text.layout() == before.attrs@[i].text.layout()
                && after.attrs@[i].text.stride() == before.attrs@[i].text.stride()
        &&& after.structs@.len() == before.structs@.len()
        &&& forall|s: int|
            0 <= s < before.structs@.len() ==> flushed(
                &before.structs@[s],
                &#[trigger] after.structs@[s],
                before.pos as u64,
            )
    }

    /// The fault for which a token with the pieces `fields` cannot be
    /// taken: the first among the attributes, else the first among the
    /// structures that hold back an empty occurrence at its position.
    pub open spec fn token_fault(&self, fields: Seq<Seq<char>>) -> Option<EncodeError> {
        let e = first_attr_fault(
            self.attrs@,
            token_values(self.attrs@, fields),
            self.attrs@.len(),
        );
        if e is Some {
            e
        } else {
            first_flush_fault(self.structs@, self.pos as u64, self.structs@.len())
        }
    }

    /// Takes a token: gives every attribute its piece of the line, or
    /// its default, and moves to the next position.
    #[verifier::rlimit(50)]
    pub fn token(&mut self, line: &str) -> (r: Result<(), EncodeError>)
        requires
            old(self).wf(),
            old(self).pos < u32::MAX,
        ensures
            Encoder::counters(old(self), final(self), false, false, false, false),
            match old(self).token_fault(split_from(line@, 0)) {
                Some(e) => r == Err::<(), EncodeError>(e),
                None => r is Ok && Encoder::token_taken(old(self), final(self), split_from(line@, 0)),
            },
    {
        let fields: Vec<String> = split_tabs(line);
        let pos: u32 = self.pos;
        let ghost values = token_values(old(self).attrs@, texts(fields@));
        let mut i: usize = 0;
        while i < self.attrs.len()
            invariant
                i <= self.attrs@.len(),
                old(self).wf(),
                pos == old(self).pos,
                pos < u32::MAX,
                self.pos == pos,
                self.structs == old(self).structs,
                self.index == old(self).index,
                self.open_structs == old(self).open_structs,
                Encoder::counters(old(self), self, false, false, false, false),
                self.attrs@.len() == old(self).attrs@.len(),
                texts(fields@) == split_from(line@, 0),
                values == token_values(old(self).attrs@, texts(fields@)),
                first_attr_fault(old(self).attrs@, values, i as nat) is None,
                forall|j: int|
                    0 <= j < i ==> (#[trigger] self.attrs@[j]).wf() && self.attrs@[j].column() == old(
                        self,
                    ).attrs@[j].column().push(values[j]) && self.attrs@[j].default_value == old(
                        self,
                    ).attrs@[j].default_value && self.attrs@[j].text.ids().len() == pos + 1,
                forall|j: int|
                    0 <= j < i ==> (#[trigger] self.attrs@[j]).lex@ == lex_with(
                        old(self).attrs@[j].lex@,
                        values[j],
                    ) && AttrWriter::text_took(&old(self).attrs@[j], &self.attrs@[j], values[j])
                        && self.attrs@[j].text.layout() == old(self).attrs@[j].text.layout()
                        && self.attrs@[j].text.stride() == old(self).attrs@[j].text.stride(),
                forall|j: int|
                    i <= j < self.attrs@.len() ==> (#[trigger] self.attrs@[j]) == old(self).attrs@[j],
            decreases self.attrs@.len() - i,
        {
            let ghost before = self.attrs@[i as int];
            let res = if i < fields.len() {
                self.attrs[i].push_value(fields[i].as_str(), pos)
            } else {
                let dv: String = self.attrs[i].default_value.clone();
                self.attrs[i].push_value(dv.as_str(), pos)
            };
            match res {
                Ok(()) => {},
                Err(e) => {
                    proof {
                        lemma_attr_fault_stays(
                            old(self).attrs@,
                            values,
                            (i + 1) as nat,
                            old(self).attrs@.len(),
                        );
                    }
                    return Err(e);
                },
            }
            proof {
                let a = self.attrs@[i as int];
                assert(a.column().len() == before.column().len() + 1);
            }
            i += 1;
        }
        match flush_all_pending_at_pos(&mut self.structs, pos as u64) {
            Ok(()) => {},
            Err(e) => {
                return Err(e);
            },
        }
        self.pos += 1;
        proof {
            assert forall|s: int| 0 <= s < self.structs@.len() implies (#[trigger] old(
                self,
            ).structs@[s]).name == self.structs@[s].name && old(self).structs@[s].attrs@.len()
                == self.structs@[s].attrs@.len() by {
                assert(flushed(&old(self).structs@[s], &self.structs@[s], pos as u64));
            }
            lemma_index_stays(old(self).structs@, self.structs@, self.index@);
            assert forall|o: int| 0 <= o < self.open_structs@.len() implies self.struct_of(
                (#[trigger] self.open_structs@[o]).name@,
            ) >= 0 && self.open_structs@[o].attr_values@.len() == self.structs@[self.struct_of(
                self.open_structs@[o].name@,
            )].attrs@.len() by {
                let name = self.open_structs@[o].name@;
                lemma_last_named_same(
                    old(self).structs@,
                    self.structs@,
                    name,
                    self.structs@.len(),
                );
                lemma_last_named(old(self).structs@, name, old(self).structs@.len());
            }
        }
        Ok(())
    }
}

/// Whether `after` is the writer `before` once the structure has been
/// opened at `pos` with the values `values`: it was last opened at `pos`;
/// where it closes at once, it holds the occurrence back with its values;
/// else it holds no occurrence back at `pos`.
pub open spec fn started(
    before: &StructWriter,
    after: &StructWriter,
    pos: u64,
    values: Seq<Seq<char>>,
    self_close: bool,
) -> bool {
    &&& after.name == before.name
    &&& after.type64 == before.type64
    &&& after.rng == before.rng
    &&& after.count == before.count
    &&& after.attrs == before.attrs
    &&& after.ranges == before.ranges
    &&& after.last_start_pos == Some(pos)
    &&& if self_close {
        after.pending_empty_pos == Some(pos) && (after.pending_empty_vals matches Some(v) && texts(
            v@,
        ) == values)
    } else if before.pending_empty_pos == Some(pos) {
        after.pending_empty_pos is None && after.pending_empty_vals is None
    } else {
        after.pending_empty_pos == before.pending_empty_pos && after.pending_empty_vals
            == before.pending_empty_vals
    }
}

impl Encoder {
    /// The warning that is due where structure `s` is opened at the
    /// position of the encoder: none, unless it was opened there before.
    pub open spec fn opened_again(&self, s: int) -> Option<Notice> {
        if self.structs@[s].last_start_pos == Some(self.pos as u64) {
            Some(notice_at(self.err_open_same_str.count))
        } else {
            None
        }
    }

    /// What a tag that closes structure `s` does where no fault stands
    /// against it: with no structure open, or another than `s` opened
    /// last, a warning; else it closes the structure.
    pub open spec fn closing_event(&self, s: int) -> Event {
        let n = self.open_structs@.len();
        if n == 0 {
            Event::NotOpen { notice: notice_at(self.err_closing_str.count) }
        } else if self.open_structs@[n - 1].name@ != self.structs@[s].name@ {
            Event::Mismatch { notice: notice_at(self.err_mismatch_str.count) }
        } else {
            Event::Closed
        }
    }

    /// Whether `after` is the encoder `before` after a tag that opens
    /// structure `s` with the attributes `tag`: the structure has written
    /// an empty occurrence that it held back at another position, and is
    /// opened at the position of the encoder with the values that the tag
    /// gives; where it does not close at once, it stands open on top of
    /// the others.
    pub open spec fn tag_opened(
        before: &Encoder,
        after: &Encoder,
        s: int,
        tag: Map<Seq<char>, Seq<char>>,
        self_close: bool,
    ) -> bool {
        let pos = before.pos as u64;
        let values = tag_values(before.structs@[s].attrs@, tag);
        &&& after.wf()
        &&& after.pos == before.pos
        &&& after.attrs == before.attrs
        &&& Encoder::counters(
            before,
            after,
            before.structs@[s].last_start_pos == Some(pos),
            false,
            false,
            false,
        )
        &&& after.structs@.len() == before.structs@.len()
        &&& forall|t: int|
            0 <= t < before.structs@.len() && t != s ==> (#[trigger] after.structs@[t])
                == before.structs@[t]
        &&& exists|mid: StructWriter|
            settled(&before.structs@[s], &mid, pos) && #[trigger] started(
                &mid,
                &after.structs@[s],
                pos,
                values,
                self_close,
            )
        &&& if self_close {
            after.open_structs == before.open_structs
        } else {
            &&& after.open_structs@.len() == before.open_structs@.len() + 1
            &&& after.open_structs@.drop_last() == before.open_structs@
            &&& after.open_structs@.last().name@ == before.structs@[s].name@
            &&& after.open_structs@.last().start == pos
            &&& texts(after.open_structs@.last().attr_values@) == values
        }
    }

    /// Takes a tag that opens structure `sidx`.
    #[verifier::rlimit(50)]
    pub fn start_tag(&mut self, sidx: usize, tag_attrs: &StringHashMap<String>, self_close: bool) -> (r:
        Result<Event, EncodeError>)
        requires
            old(self).wf(),
            sidx < old(self).structs@.len(),
            old(self).struct_of(old(self).structs@[sidx as int].name@) == sidx,
        ensures
            match settle_fault(&old(self).structs@[sidx as int], old(self).pos as u64) {
                Some(e) => r == Err::<Event, EncodeError>(e) && Encoder::counters(
                    old(self),
                    final(self),
                    false,
                    false,
                    false,
                    false,
                ),
                None => {
                    &&& Encoder::tag_opened(
                        old(self),
                        final(self),
                        sidx as int,
                        crate::encodevert::attrs_view(tag_attrs@),
                        self_close,
                    )
                    &&& r == Ok::<Event, EncodeError>(
                        Event::Opened { again: old(self).opened_again(sidx as int) },
                    )
                },
            },
    {
        let pos: u64 = self.pos as u64;
        let ghost sb0 = self.structs@[sidx as int];
        match settle(&mut self.structs[sidx], pos) {
            Ok(()) => {},
            Err(e) => {
                return Err(e);
            },
        }
        let ghost mid = self.structs@[sidx as int];
        let again: Option<Notice> = if self.structs[sidx].last_start_pos == Some(pos) {
            Some(self.err_open_same_str.emit())
        } else {
            None
        };
        let mut attr_values: Vec<String> = Vec::new();
        let n: usize = self.structs[sidx].attrs.len();
        let ghost values = tag_values(sb0.attrs@, crate::encodevert::attrs_view(tag_attrs@));
        let mut k: usize = 0;
        while k < n
            invariant
                k <= n,
                sidx < self.structs@.len(),
                n == self.structs@[sidx as int].attrs@.len(),
                n == sb0.attrs@.len(),
                self.structs@[sidx as int] == mid,
                forall|j: int|
                    0 <= j < n ==> (#[trigger] mid.attrs@[j]).name == sb0.attrs@[j].name
                        && mid.attrs@[j].default_value == sb0.attrs@[j].default_value,
                values == tag_values(sb0.attrs@, crate::encodevert::attrs_view(tag_attrs@)),
                attr_values@.len() == k,
                forall|j: int| 0 <= j < k ==> (#[trigger] attr_values@[j])@ == values[j],
            decreases n - k,
        {
            let val: String = match tag_attrs.get(self.structs[sidx].attrs[k].name.as_str()) {
                Some(v) => v.clone(),
                None => self.structs[sidx].attrs[k].default_value.clone(),
            };
            attr_values.push(val);
            k += 1;
        }
        assert(texts(attr_values@) =~= values);
        self.structs[sidx].last_start_pos = Some(pos);
        if self_close {
            self.structs[sidx].pending_empty_pos = Some(pos);
            self.structs[sidx].pending_empty_vals = Some(attr_values);
        } else {
            if self.structs[sidx].pending_empty_pos == Some(pos) {
                self.structs[sidx].pending_empty_pos = None;
                self.structs[sidx].pending_empty_vals = None;
            }
            let name: String = self.structs[sidx].name.clone();
            self.open_structs.push(OpenStruct { name, start: pos, attr_values });
        }
        proof {
            let sb1 = self.structs@[sidx as int];
            assert(started(&mid, &sb1, pos, values, self_close));
            assert forall|s: int| 0 <= s < self.structs@.len() implies (#[trigger] old(
                self,
            ).structs@[s]).name == self.structs@[s].name && old(self).structs@[s].attrs@.len()
                == self.structs@[s].attrs@.len() by {}
            lemma_index_stays(old(self).structs@, self.structs@, self.index@);
            assert forall|o: int| 0 <= o < self.open_structs@.len() implies self.struct_of(
                (#[trigger] self.open_structs@[o]).name@,
            ) >= 0 && self.open_structs@[o].attr_values@.len() == self.structs@[self.struct_of(
                self.open_structs@[o].name@,
            )].attrs@.len() by {
                let name = self.open_structs@[o].name@;
                lemma_last_named_same(
                    old(self).structs@,
                    self.structs@,
                    name,
                    self.structs@.len(),
                );
                lemma_last_named(old(self).structs@, name, old(self).structs@.len());
            }
            if !self_close {
                assert(self.open_structs@.drop_last() =~= old(self).open_structs@);
            }
        }
        Ok(Event::Opened { again })
    }
}

/// Whether `after` is the writer `before` but for what it holds
/// back, which is as `held` holds it back.
pub open spec fn holding_as(before: &StructWriter, after: &StructWriter, held: &StructWriter) -> bool {
    &&& after.last_start_pos == held.last_start_pos
    &&& after.pending_empty_pos == held.pending_empty_pos
    &&& after.pending_empty_vals == held.pending_empty_vals
}

impl Encoder {
    /// Whether `after` is the encoder `before` after a tag that closes
    /// structure `s`, with what the tag did: where no structure stands
    /// open, or another than `s` was opened last, nothing but a warning;
    /// else the structure that was opened last is written as an occurrence
    /// from where it was opened to the position of the encoder, and stands
    /// open no more. Before that, the structure has written an empty
    /// occurrence that it held back at another position.
    pub open spec fn tag_closed(before: &Encoder, after: &Encoder, s: int, event: Event) -> bool {
        let pos = before.pos as u64;
        let name = before.structs@[s].name@;
        let n = before.open_structs@.len();
        &&& after.wf()
        &&& after.pos == before.pos
        &&& after.attrs == before.attrs
        &&& event == before.closing_event(s)
        &&& Encoder::counters(before, after, false, event is NotOpen, event is Mismatch, false)
        &&& after.structs@.len() == before.structs@.len()
        &&& forall|t: int|
            0 <= t < before.structs@.len() && t != s ==> (#[trigger] after.structs@[t])
                == before.structs@[t]
        &&& if n == 0 {
            &&& event is NotOpen
            &&& settled(&before.structs@[s], &after.structs@[s], pos)
            &&& after.open_structs == before.open_structs
        } else if before.open_structs@[n - 1].name@ != name {
            &&& event is Mismatch
            &&& settled(&before.structs@[s], &after.structs@[s], pos)
            &&& after.open_structs@ == before.open_structs@
        } else {
            &&& event is Closed
            &&& after.open_structs@ == before.open_structs@.drop_last()
            &&& exists|mid: StructWriter|
                settled(&before.structs@[s], &mid, pos) && #[trigger] StructWriter::added(
                    &mid,
                    &after.structs@[s],
                    before.open_structs@[n - 1].start,
                    pos,
                    texts(before.open_structs@[n - 1].attr_values@),
                ) && holding_as(&mid, &after.structs@[s], &mid)
        }
    }

    /// The fault for which a tag that closes structure `s` cannot be
    /// taken: that of an empty occurrence held back at another position,
    /// else, where the structure was opened last, that of its occurrence.
    pub open spec fn close_fault(&self, s: int) -> Option<EncodeError> {
        let pos = self.pos as u64;
        let n = self.open_structs@.len();
        if n > 0 && self.open_structs@[n - 1].name@ == self.structs@[s].name@ {
            closing_fault(&self.structs@[s], pos, texts(self.open_structs@[n - 1].attr_values@))
        } else {
            settle_fault(&self.structs@[s], pos)
        }
    }

    /// Takes a tag that closes structure `sidx`.
    #[verifier::rlimit(50)]
    pub fn end_tag(&mut self, sidx: usize) -> (r: Result<Event, EncodeError>)
        requires
            old(self).wf(),
            sidx < old(self).structs@.len(),
            old(self).struct_of(old(self).structs@[sidx as int].name@) == sidx,
        ensures
            match old(self).close_fault(sidx as int) {
                Some(e) => r == Err::<Event, EncodeError>(e) && Encoder::counters(
                    old(self),
                    final(self),
                    false,
                    false,
                    false,
                    false,
                ),
                None => r == Ok::<Event, EncodeError>(old(self).closing_event(sidx as int))
                    && Encoder::tag_closed(
                    old(self),
                    final(self),
                    sidx as int,
                    old(self).closing_event(sidx as int),
                ),
            },
    {
        let pos: u64 = self.pos as u64;
        let ghost sb0 = self.structs@[sidx as int];
        match settle(&mut self.structs[sidx], pos) {
            Ok(()) => {},
            Err(e) => {
                return Err(e);
            },
        }
        let ghost mid = self.structs@[sidx as int];
        proof {
            assert forall|s: int| 0 <= s < self.structs@.len() implies (#[trigger] old(
                self,
            ).structs@[s]).name == self.structs@[s].name && old(self).structs@[s].attrs@.len()
                == self.structs@[s].attrs@.len() by {}
            lemma_index_stays(old(self).structs@, self.structs@, self.index@);
            assert forall|o: int| 0 <= o < self.open_structs@.len() implies self.struct_of(
                (#[trigger] self.open_structs@[o]).name@,
            ) >= 0 && self.open_structs@[o].attr_values@.len() == self.structs@[self.struct_of(
                self.open_structs@[o].name@,
            )].attrs@.len() by {
                let name = self.open_structs@[o].name@;
                lemma_last_named_same(
                    old(self).structs@,
                    self.structs@,
                    name,
                    self.structs@.len(),
                );
                lemma_last_named(old(self).structs@, name, old(self).structs@.len());
            }
        }
        let n: usize = self.open_structs.len();
        if n == 0 {
            let notice = self.err_closing_str.emit();
            return Ok(Event::NotOpen { notice });
        }
        if !crate::strs::same_str(
            self.open_structs[n - 1].name.as_str(),
            self.structs[sidx].name.as_str(),
        ) {
            let notice = self.err_mismatch_str.emit();
            return Ok(Event::Mismatch { notice });
        }
        let open: OpenStruct = match self.open_structs.pop() {
            Some(o) => o,
            None => {
                return Ok(Event::Closed);
            },
        };
        proof {
            lemma_last_named_same(
                old(self).structs@,
                self.structs@,
                open.name@,
                self.structs@.len(),
            );
        }
        proof {
            lemma_closing_fault(&sb0, &mid, pos, texts(open.attr_values@));
        }
        match self.structs[sidx].write_range(open.start, pos, &open.attr_values) {
            Ok(()) => {},
            Err(e) => {
                return Err(e);
            },
        }
        proof {
            let sb1 = self.structs@[sidx as int];
            assert(StructWriter::added(&mid, &sb1, open.start, pos, texts(open.attr_values@)));
            assert(self.open_structs@ =~= old(self).open_structs@.drop_last());
            assert forall|s: int| 0 <= s < self.structs@.len() implies (#[trigger] old(
                self,
            ).structs@[s]).name == self.structs@[s].name && old(self).structs@[s].attrs@.len()
                == self.structs@[s].attrs@.len() by {}
            lemma_index_stays(old(self).structs@, self.structs@, self.index@);
            assert forall|o: int| 0 <= o < self.open_structs@.len() implies self.struct_of(
                (#[trigger] self.open_structs@[o]).name@,
            ) >= 0 && self.open_structs@[o].attr_values@.len() == self.structs@[self.struct_of(
                self.open_structs@[o].name@,
            )].attrs@.len() by {
                let name = self.open_structs@[o].name@;
                lemma_last_named_same(
                    old(self).structs@,
                    self.structs@,
                    name,
                    self.structs@.len(),
                );
                lemma_last_named(old(self).structs@, name, old(self).structs@.len());
            }
        }
        Ok(Event::Closed)
    }
}

/// What a line is to the encoder.
pub enum LineClass {
    /// An empty line, or a comment, which opens with `#`.
    Skip,
    /// A tag that opens the structure of index `s`.
    Start { s: int, attrs: Map<Seq<char>, Seq<char>>, self_close: bool },
    /// A tag that closes the structure of index `s`.
    End { s: int },
    /// A token. A tag that names no structure of the corpus is a token
    /// too.
    Token,
}

impl Encoder {
    /// What a line is to the encoder, white space at its ends aside.
    pub open spec fn classify(&self, line: Seq<char>) -> LineClass {
        let t = crate::strs::trimmed(line);
        if t.len() == 0 || t[0] == '#' {
            LineClass::Skip
        } else {
            match crate::encodevert::tag_of(t) {
                Some(crate::encodevert::TagView::Start { name, attrs, self_close }) => if self.struct_of(
                    name,
                ) >= 0 {
                    LineClass::Start { s: self.struct_of(name), attrs, self_close }
                } else {
                    LineClass::Token
                },
                Some(crate::encodevert::TagView::End { name }) => if self.struct_of(name) >= 0 {
                    LineClass::End { s: self.struct_of(name) }
                } else {
                    LineClass::Token
                },
                None => LineClass::Token,
            }
        }
    }

    /// Takes one line of vertical text, without the end of the line. An
    /// empty line and a comment are passed over; a tag of a structure of
    /// the corpus opens or closes it; any other line is a token.
    #[verifier::rlimit(50)]
    pub fn process_line(&mut self, line: &str) -> (r: Result<Event, EncodeError>)
        requires
            old(self).wf(),
            old(self).pos < u32::MAX,
        ensures
            r is Err ==> Encoder::counters(old(self), final(self), false, false, false, false),
            match old(self).classify(line@) {
                LineClass::Skip => r == Ok::<Event, EncodeError>(Event::Skipped) && *final(self)
                    == *old(self),
                LineClass::Start { s, attrs, self_close } => match settle_fault(
                    &old(self).structs@[s],
                    old(self).pos as u64,
                ) {
                    Some(e) => r == Err::<Event, EncodeError>(e),
                    None => r == Ok::<Event, EncodeError>(
                        Event::Opened { again: old(self).opened_again(s) },
                    ) && Encoder::tag_opened(old(self), final(self), s, attrs, self_close),
                },
                LineClass::End { s } => match old(self).close_fault(s) {
                    Some(e) => r == Err::<Event, EncodeError>(e),
                    None => r == Ok::<Event, EncodeError>(old(self).closing_event(s))
                        && Encoder::tag_closed(
                        old(self),
                        final(self),
                        s,
                        old(self).closing_event(s),
                    ),
                },
                LineClass::Token => match old(self).token_fault(
                    split_from(crate::strs::trimmed(line@), 0),
                ) {
                    Some(e) => r == Err::<Event, EncodeError>(e),
                    None => r == Ok::<Event, EncodeError>(Event::Token) && Encoder::token_taken(
                        old(self),
                        final(self),
                        split_from(crate::strs::trimmed(line@), 0),
                    ),
                },
            },
    {
        let ts: String = crate::encodevert::trim(line);
        let t: &str = ts.as_str();
        let v = crate::strs::chars_of(t);
        if v.len() == 0 || v[0] == '#' {
            return Ok(Event::Skipped);
        }
        match crate::encodevert::parse_tag(t) {
            Some(crate::encodevert::Tag::Start { name, attrs, self_close }) => {
                proof {
                    lemma_last_named(self.structs@, name@, self.structs@.len());
                }
                match self.find_struct(name.as_str()) {
                    Some(sidx) => {
                        return self.start_tag(sidx, &attrs, self_close);
                    },
                    None => {},
                }
            },
            Some(crate::encodevert::Tag::End { name }) => {
                proof {
                    lemma_last_named(self.structs@, name@, self.structs@.len());
                }
                match self.find_struct(name.as_str()) {
                    Some(sidx) => {
                        return self.end_tag(sidx);
                    },
                    None => {},
                }
            },
            None => {},
        }
        match self.token(t) {
            Ok(()) => Ok(Event::Token),
            Err(e) => Err(e),
        }
    }
}

/// The files of a positional attribute.
#[derive(Debug)]
pub struct AttrFiles {
    pub lex: LexFiles,
    pub text: TextFiles,
}

/// The files of an attribute of a structure.
#[derive(Debug)]
pub struct StructAttrFiles {
    pub name: String,
    pub lex: LexFiles,
    pub text: Vec<u8>,
}

/// The files of a structure.
#[derive(Debug)]
pub struct StructFiles {
    pub name: String,
    pub rng: Vec<u8>,
    pub attrs: Vec<StructAttrFiles>,
}

/// The files of a corpus.
#[derive(Debug)]
pub struct Output {
    pub attrs: Vec<AttrFiles>,
    pub structs: Vec<StructFiles>,
}

impl AttrWriter {
    /// Whether `files` are the files of the attribute.
    pub open spec fn ends_with(self, files: &AttrFiles) -> bool {
        self.lex.ends_with(&files.lex) && self.text.ends_with(Ok(files.text))
    }

    /// Ends the writing: the files of the attribute, or the fault for
    /// which a delta text cannot close its segment index.
    pub fn finalize(self) -> (r: Result<AttrFiles, EncodeError>)
        requires
            self.wf(),
        ensures
            r is Err <==> self.text.overflows(),
            r matches Err(e) ==> e == EncodeError::SegmentOverflow,
            r matches Ok(files) ==> self.ends_with(&files),
    {
        let lex = self.lex.finalize();
        match self.text.finalize() {
            Ok(text) => Ok(AttrFiles { lex, text }),
            Err(_) => Err(EncodeError::SegmentOverflow),
        }
    }
}

impl StructAttrWriter {
    /// Whether `files` are the files of the attribute.
    pub open spec fn ends_with(self, files: &StructAttrFiles) -> bool {
        &&& files.name == self.name
        &&& self.lex.ends_with(&files.lex)
        &&& files.text@ == crate::textwriter::int_file(self.text@)
    }

    /// Ends the writing: the files of the attribute.
    pub fn finalize(self) -> (files: StructAttrFiles)
        requires
            self.wf(),
        ensures
            self.ends_with(&files),
    {
        StructAttrFiles { name: self.name, lex: self.lex.finalize(), text: self.text.finalize() }
    }
}

impl StructWriter {
    /// Whether `files` are the files of the structure: the file of its
    /// ranges, and the files of each attribute.
    pub open spec fn ends_with(self, files: &StructFiles) -> bool {
        &&& files.name == self.name
        &&& files.rng@ == rng_bytes(self.type64, self@, self@.len())
        &&& files.attrs@.len() == self.attrs@.len()
        &&& forall|k: int|
            0 <= k < self.attrs@.len() ==> (#[trigger] self.attrs@[k]).ends_with(&files.attrs@[k])
    }

    /// Ends the writing: the files of the structure.
    pub fn finalize(self) -> (files: StructFiles)
        requires
            self.wf(),
        ensures
            self.ends_with(&files),
    {
        let mut attrs = self.attrs;
        let ghost all = attrs@;
        let mut rev: Vec<StructAttrFiles> = Vec::new();
        while attrs.len() > 0
            invariant
                attrs@.len() + rev@.len() == all.len(),
                attrs@ == all.take(attrs@.len() as int),
                forall|k: int| 0 <= k < all.len() ==> (#[trigger] all[k]).wf(),
                forall|j: int|
                    0 <= j < rev@.len() ==> all[all.len() - 1 - j].ends_with(&#[trigger] rev@[j]),
            decreases attrs@.len(),
        {
            let ghost n = attrs@.len();
            match attrs.pop() {
                Some(a) => {
                    assert(a == all[n - 1]);
                    rev.push(a.finalize());
                    assert(attrs@ =~= all.take(n - 1));
                },
                None => {},
            }
        }
        let mut out: Vec<StructAttrFiles> = Vec::new();
        let ghost revd = rev@;
        while rev.len() > 0
            invariant
                rev@.len() + out@.len() == revd.len(),
                revd.len() == all.len(),
                rev@ == revd.take(rev@.len() as int),
                forall|j: int|
                    0 <= j < revd.len() ==> all[all.len() - 1 - j].ends_with(&#[trigger] revd[j]),
                forall|k: int| 0 <= k < out@.len() ==> all[k].ends_with(&#[trigger] out@[k]),
            decreases rev@.len(),
        {
            let ghost n = rev@.len();
            match rev.pop() {
                Some(f) => {
                    assert(f == revd[n - 1]);
                    out.push(f);
                    assert(rev@ =~= revd.take(n - 1));
                },
                None => {},
            }
        }
        StructFiles { name: self.name, rng: self.rng, attrs: out }
    }
}

impl Encoder {
    /// Ends the input: every structure writes the empty occurrence that
    /// it holds back at the position reached. Where structures still stand
    /// open, one warning is counted, before anything is written, and their
    /// number is returned with what is to be done with the warning; they
    /// are not written.
    pub fn end_input(&mut self) -> (r: Result<Option<(usize, Notice)>, EncodeError>)
        requires
            old(self).wf(),
        ensures
            final(self).pos == old(self).pos,
            final(self).attrs == old(self).attrs,
            final(self).open_structs == old(self).open_structs,
            final(self).structs@.len() == old(self).structs@.len(),
            Encoder::counters(
                old(self),
                final(self),
                false,
                false,
                false,
                old(self).open_structs@.len() > 0,
            ),
            match first_flush_fault(old(self).structs@, old(self).pos as u64, old(self).structs@.len()) {
                Some(e) => r == Err::<Option<(usize, Notice)>, EncodeError>(e),
                None => {
                    &&& r matches Ok(w)
                    &&& w == if old(self).open_structs@.len() > 0 {
                        Some((
                            old(self).open_structs@.len() as usize,
                            notice_at(old(self).err_unterminated.count),
                        ))
                    } else {
                        None::<(usize, Notice)>
                    }
                    &&& forall|s: int|
                        0 <= s < old(self).structs@.len() ==> flushed(
                            &old(self).structs@[s],
                            &#[trigger] final(self).structs@[s],
                            old(self).pos as u64,
                        )
                    &&& forall|s: int|
                        0 <= s < final(self).structs@.len() ==> (#[trigger] final(self).structs@[s]).wf()
                    &&& forall|i: int|
                        0 <= i < final(self).attrs@.len() ==> (#[trigger] final(self).attrs@[i]).wf()
                },
            },
    {
        let warning: Option<(usize, Notice)> = if self.open_structs.len() > 0 {
            let notice = self.err_unterminated.emit();
            Some((self.open_structs.len(), notice))
        } else {
            None
        };
        let pos: u64 = self.pos as u64;
        match flush_all_pending_at_pos(&mut self.structs, pos) {
            Ok(()) => {},
            Err(e) => {
                return Err(e);
            },
        }
        proof {
            assert forall|s: int| 0 <= s < self.structs@.len() implies (#[trigger] self.structs@[s]).wf() by {
                assert(flushed(&old(self).structs@[s], &self.structs@[s], pos));
            }
        }
        Ok(warning)
    }

    /// Whether one of the first `n` attributes cannot close its segment
    /// index.
    pub open spec fn any_overflow(attrs: Seq<AttrWriter>, n: nat) -> bool {
        exists|i: int| 0 <= i < n && (#[trigger] attrs[i]).text.overflows()
    }

    /// Ends the writing: the files of every attribute and of every
    /// structure, in the order of the corpus; a fault if and only if some
    /// delta text cannot close its segment index.
    #[verifier::rlimit(50)]
    pub fn finalize(self) -> (r: Result<Output, EncodeError>)
        requires
            forall|i: int| 0 <= i < self.attrs@.len() ==> (#[trigger] self.attrs@[i]).wf(),
            forall|s: int| 0 <= s < self.structs@.len() ==> (#[trigger] self.structs@[s]).wf(),
        ensures
            r is Err <==> Encoder::any_overflow(self.attrs@, self.attrs@.len()),
            r matches Err(e) ==> e == EncodeError::SegmentOverflow,
            r matches Ok(out) ==> {
                &&& out.attrs@.len() == self.attrs@.len()
                &&& forall|i: int|
                    0 <= i < self.attrs@.len() ==> (#[trigger] self.attrs@[i]).ends_with(&out.attrs@[i])
                &&& out.structs@.len() == self.structs@.len()
                &&& forall|s: int|
                    0 <= s < self.structs@.len() ==> (#[trigger] self.structs@[s]).ends_with(
                        &out.structs@[s],
                    )
            },
    {
        let mut attrs = self.attrs;
        let ghost all = attrs@;
        let mut fault: bool = false;
        let mut rev: Vec<AttrFiles> = Vec::new();
        while attrs.len() > 0
            invariant
                attrs@ == all.take(attrs@.len() as int),
                forall|k: int| 0 <= k < all.len() ==> (#[trigger] all[k]).wf(),
                fault <==> exists|i: int|
                    attrs@.len() <= i < all.len() && (#[trigger] all[i]).text.overflows(),
                !fault ==> attrs@.len() + rev@.len() == all.len(),
                !fault ==> forall|j: int|
                    0 <= j < rev@.len() ==> all[all.len() - 1 - j].ends_with(&#[trigger] rev@[j]),
            decreases attrs@.len(),
        {
            let ghost n = attrs@.len();
            match attrs.pop() {
                Some(a) => {
                    assert(a == all[n - 1]);
                    assert(attrs@ =~= all.take(n - 1));
                    match a.finalize() {
                        Ok(f) => {
                            if !fault {
                                rev.push(f);
                            }
                        },
                        Err(_) => {
                            fault = true;
                        },
                    }
                },
                None => {},
            }
        }
        if fault {
            return Err(EncodeError::SegmentOverflow);
        }
        let mut out_attrs: Vec<AttrFiles> = Vec::new();
        let ghost revd = rev@;
        while rev.len() > 0
            invariant
                rev@.len() + out_attrs@.len() == revd.len(),
                revd.len() == all.len(),
                rev@ == revd.take(rev@.len() as int),
                forall|j: int|
                    0 <= j < revd.len() ==> all[all.len() - 1 - j].ends_with(&#[trigger] revd[j]),
                forall|k: int| 0 <= k < out_attrs@.len() ==> all[k].ends_with(&#[trigger] out_attrs@[k]),
            decreases rev@.len(),
        {
            let ghost n = rev@.len();
            match rev.pop() {
                Some(f) => {
                    assert(f == revd[n - 1]);
                    out_attrs.push(f);
                    assert(rev@ =~= revd.take(n - 1));
                },
                None => {},
            }
        }
        let mut structs = self.structs;
        let ghost alls = structs@;
        let mut srev: Vec<StructFiles> = Vec::new();
        while structs.len() > 0
            invariant
                structs@.len() + srev@.len() == alls.len(),
                structs@ == alls.take(structs@.len() as int),
                forall|k: int| 0 <= k < alls.len() ==> (#[trigger] alls[k]).wf(),
                forall|j: int|
                    0 <= j < srev@.len() ==> alls[alls.len() - 1 - j].ends_with(&#[trigger] srev@[j]),
            decreases structs@.len(),
        {
            let ghost n = structs@.len();
            match structs.pop() {
                Some(sw) => {
                    assert(sw == alls[n - 1]);
                    srev.push(sw.finalize());
                    assert(structs@ =~= alls.take(n - 1));
                },
                None => {},
            }
        }
        let mut out_structs: Vec<StructFiles> = Vec::new();
        let ghost srevd = srev@;
        while srev.len() > 0
            invariant
                srev@.len() + out_structs@.len() == srevd.len(),
                srevd.len() == alls.len(),
                srev@ == srevd.take(srev@.len() as int),
                forall|j: int|
                    0 <= j < srevd.len() ==> alls[alls.len() - 1 - j].ends_with(&#[trigger] srevd[j]),
                forall|k: int|
                    0 <= k < out_structs@.len() ==> alls[k].ends_with(&#[trigger] out_structs@[k]),
            decreases srev@.len(),
        {
            let ghost n = srev@.len();
            match srev.pop() {
                Some(f) => {
                    assert(f == srevd[n - 1]);
                    out_structs.push(f);
                    assert(srev@ =~= srevd.take(n - 1));
                },
                None => {},
            }
        }
        Ok(Output { attrs: out_attrs, structs: out_structs })
    }
}

} // verus!
