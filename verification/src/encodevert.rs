//! Encoder of vertical text: a stream of lines, each a token with its
//! attribute values between tabs, or a tag that opens or closes a
//! structure, from which the lexicons, the texts and the range indexes of
//! a corpus are made.

use vstd::prelude::*;
use vstd::hash_map::StringHashMap;
use crate::conf::Block;
use crate::encoder::{AttrWriter, Encoder, StructAttrWriter, StructWriter};
use crate::textwriter::{AnyTextWriter, TextType, TextWriter};
use crate::strs::{
    back_space,
    back_space_in,
    chars_of,
    find_char,
    find_char_in,
    find_space,
    find_space_in,
    is_space,
    lemma_find_char_bounds,
    lemma_skip_space_bounds,
    part,
    skip_space,
    skip_space_in,
    space,
    trimmed,
};

verus! {

/// The attributes of a tag, each name with its value.
pub open spec fn attrs_view(m: Map<Seq<char>, String>) -> Map<Seq<char>, Seq<char>> {
    m.map_values(|v: String| v@)
}

/// Index of the first `=` or white space at `i` or after it; the length
/// of the string where there is none.
pub open spec fn key_end(s: Seq<char>, i: int) -> int
    decreases s.len() - i,
{
    if i < 0 || i >= s.len() {
        s.len() as int
    } else if s[i] == '=' || is_space(s[i]) {
        i
    } else {
        key_end(s, i + 1)
    }
}

/// The attributes that are read from character `i` on, added to `m`. An
/// attribute is a name, `=`, and a value, with white space between them at
/// will; the value stands between two `"` or two `'`, or runs up to the
/// next white space. A later attribute of the same name takes the place of
/// an earlier. The reading ends where no attribute follows.
pub open spec fn attrs_from(s: Seq<char>, i: int, m: Map<Seq<char>, Seq<char>>) -> Map<
    Seq<char>,
    Seq<char>,
>
    decreases s.len() - i,
{
    let a = skip_space(s, i);
    let ke = key_end(s, a);
    let b = skip_space(s, ke);
    let c = skip_space(s, b + 1);
    if i < 0 || a >= s.len() || ke >= s.len() || b >= s.len() || s[b] != '=' {
        m
    } else if c < s.len() && (s[c] == '"' || s[c] == '\'') {
        let q = find_char(s, c + 1, s[c]);
        if q >= s.len() {
            m
        } else {
            proof {
                lemma_scan_bounds(s, i);
                lemma_find_char_bounds(s, c + 1, s[c]);
            }
            attrs_from(s, q + 1, m.insert(s.subrange(a, ke), s.subrange(c + 1, q)))
        }
    } else {
        let e = find_space(s, c);
        proof {
            lemma_scan_bounds(s, i);
            lemma_skip_space_bounds(s, c);
        }
        attrs_from(s, e, m.insert(s.subrange(a, ke), s.subrange(c, e)))
    }
}

/// The found index lies in the string from `i` on.
pub proof fn lemma_key_end_bounds(s: Seq<char>, i: int)
    requires
        0 <= i <= s.len(),
    ensures
        i <= key_end(s, i) <= s.len(),
    decreases s.len() - i,
{
    if i < s.len() {
        lemma_key_end_bounds(s, i + 1);
    }
}

/// The places that the reading of an attribute passes come one after
/// the other.
pub proof fn lemma_scan_bounds(s: Seq<char>, i: int)
    requires
        0 <= i,
        skip_space(s, key_end(s, skip_space(s, i))) < s.len(),
    ensures
        i <= skip_space(s, i) <= key_end(s, skip_space(s, i)) <= skip_space(
            s,
            key_end(s, skip_space(s, i)),
        ) < skip_space(s, skip_space(s, key_end(s, skip_space(s, i))) + 1) <= s.len(),
{
    let a = skip_space(s, i);
    if i <= s.len() {
        lemma_skip_space_bounds(s, i);
        lemma_key_end_bounds(s, a);
        let ke = key_end(s, a);
        lemma_skip_space_bounds(s, ke);
        let b = skip_space(s, ke);
        lemma_skip_space_bounds(s, b + 1);
    }
}

/// The attributes of a tag.
pub open spec fn attrs_of(s: Seq<char>) -> Map<Seq<char>, Seq<char>> {
    attrs_from(s, 0, Map::empty())
}

fn key_end_in(v: &Vec<char>, i: usize) -> (r: usize)
    requires
        i <= v.len(),
    ensures
        r == key_end(v@, i as int),
        i <= r <= v.len(),
{
    let mut r: usize = i;
    while r < v.len() && !(v[r] == '=' || space(v[r]))
        invariant
            i <= r <= v.len(),
            key_end(v@, i as int) == key_end(v@, r as int),
        decreases v.len() - r,
    {
        r += 1;
    }
    r
}

/// The attributes of a tag from the text behind its name.
#[verifier::rlimit(50)]
pub fn parse_attrs(s: &str) -> (out: StringHashMap<String>)
    ensures
        attrs_view(out@) == attrs_of(s@),
{
    let v = chars_of(s);
    let mut out: StringHashMap<String> = StringHashMap::new();
    let mut i: usize = 0;
    assert(attrs_view(out@) =~= Map::<Seq<char>, Seq<char>>::empty());
    while i < v.len()
        invariant
            i <= v.len(),
            v@ == s@,
            attrs_of(s@) == attrs_from(v@, i as int, attrs_view(out@)),
        decreases v.len() - i,
    {
        let a: usize = skip_space_in(&v, i);
        if a >= v.len() {
            return out;
        }
        let ke: usize = key_end_in(&v, a);
        if ke >= v.len() {
            return out;
        }
        let b: usize = skip_space_in(&v, ke);
        if b >= v.len() || v[b] != '=' {
            return out;
        }
        let c: usize = skip_space_in(&v, b + 1);
        let key: String = part(s, a, ke);
        let ghost before = out@;
        if c < v.len() && (v[c] == '"' || v[c] == '\'') {
            let q: usize = find_char_in(&v, c + 1, v[c]);
            if q >= v.len() {
                return out;
            }
            let val: String = part(s, c + 1, q);
            out.insert(key, val);
            assert(attrs_view(out@) =~= attrs_view(before).insert(
                s@.subrange(a as int, ke as int),
                s@.subrange(c + 1, q as int),
            ));
            i = q + 1;
        } else {
            let e: usize = find_space_in(&v, c);
            let val: String = part(s, c, e);
            out.insert(key, val);
            assert(attrs_view(out@) =~= attrs_view(before).insert(
                s@.subrange(a as int, ke as int),
                s@.subrange(c as int, e as int),
            ));
            i = e;
        }
    }
    out
}

/// A tag as it is read from a line.
pub enum Tag {
    Start { name: String, attrs: StringHashMap<String>, self_close: bool },
    End { name: String },
}

/// What a tag says.
pub enum TagView {
    Start { name: Seq<char>, attrs: Map<Seq<char>, Seq<char>>, self_close: bool },
    End { name: Seq<char> },
}

impl View for Tag {
    type V = TagView;

    open spec fn view(&self) -> TagView {
        match self {
            Tag::Start { name, attrs, self_close } => TagView::Start {
                name: name@,
                attrs: attrs_view(attrs@),
                self_close: *self_close,
            },
            Tag::End { name } => TagView::End { name: name@ },
        }
    }
}

/// The tag that a line holds, if it holds one. A tag stands between `<`
/// and `>`, white space around it aside. One that opens with `/` closes the
/// structure that it names. Any other opens a structure, and closes it at
/// once where it ends with `/`: its name runs up to the first white space;
/// its attributes follow.
pub open spec fn tag_of(line: Seq<char>) -> Option<TagView> {
    let s = trimmed(line);
    if !(s.len() >= 2 && s[0] == '<' && s[s.len() - 1] == '>') {
        None
    } else {
        let inner = s.subrange(1, s.len() - 1);
        if inner.len() > 0 && inner[0] == '/' {
            let name = trimmed(inner.subrange(1, inner.len() as int));
            if name.len() == 0 {
                None
            } else {
                Some(TagView::End { name })
            }
        } else {
            let self_close = inner.len() > 0 && inner[inner.len() - 1] == '/';
            let content = trimmed(
                if self_close {
                    inner.subrange(0, inner.len() - 1)
                } else {
                    inner
                },
            );
            if content.len() == 0 {
                None
            } else {
                let n = find_space(content, 0);
                Some(
                    TagView::Start {
                        name: content.subrange(0, n),
                        attrs: attrs_of(trimmed(content.subrange(n, content.len() as int))),
                        self_close,
                    },
                )
            }
        }
    }
}

/// A string without the white space at its ends.
pub fn trim(s: &str) -> (r: String)
    ensures
        r@ == trimmed(s@),
{
    let v = chars_of(s);
    let a: usize = skip_space_in(&v, 0);
    let b: usize = back_space_in(&v, a, v.len());
    part(s, a, b)
}

fn trim_part(s: &str, from: usize, to: usize) -> (r: String)
    requires
        from <= to <= s@.len(),
    ensures
        r@ == trimmed(s@.subrange(from as int, to as int)),
{
    let p: String = part(s, from, to);
    trim(p.as_str())
}

/// The tag that a line holds, if it holds one.
#[verifier::rlimit(50)]
pub fn parse_tag(line: &str) -> (r: Option<Tag>)
    ensures
        match tag_of(line@) {
            Some(t) => r matches Some(tag) && tag@ == t,
            None => r is None,
        },
{
    let st: String = trim(line);
    let s: &str = st.as_str();
    let v = chars_of(s);
    let n: usize = v.len();
    if !(n >= 2 && v[0] == '<' && v[n - 1] == '>') {
        return None;
    }
    let ghost inner = s@.subrange(1, n - 1);
    if n > 2 && v[1] == '/' {
        assert(inner.subrange(1, inner.len() as int) =~= s@.subrange(2, n - 1));
        let name: String = trim_part(s, 2, n - 1);
        if name.as_str().unicode_len() == 0 {
            return None;
        }
        return Some(Tag::End { name });
    }
    let self_close: bool = n > 2 && v[n - 2] == '/';
    let to: usize = if self_close {
        n - 2
    } else {
        n - 1
    };
    proof {
        if self_close {
            assert(inner.subrange(0, inner.len() - 1) =~= s@.subrange(1, to as int));
        }
    }
    let ct: String = trim_part(s, 1, to);
    let content: &str = ct.as_str();
    let cv = chars_of(content);
    if cv.len() == 0 {
        return None;
    }
    let e: usize = find_space_in(&cv, 0);
    let name: String = part(content, 0, e);
    let rest: String = trim_part(content, e, cv.len());
    let attrs = parse_attrs(rest.as_str());
    Some(Tag::Start { name, attrs, self_close })
}

/// A path with a suffix behind it.
pub fn add_suffix(base: &str, suffix: &str) -> (r: String)
    ensures
        r@ == base@ + suffix@,
{
    crate::strs::join2(base, suffix)
}

/// Whether a character is a decimal digit.
pub open spec fn is_digit(c: char) -> bool {
    '0' <= c <= '9'
}

/// The number that the first `n` characters of a string of digits
/// stand for.
pub open spec fn digits_value(s: Seq<char>, n: nat) -> int
    decreases n,
{
    if n == 0 {
        0
    } else {
        digits_value(s, (n - 1) as nat) * 10 + (s[n - 1] as int - '0' as int)
    }
}

/// Whether a string is a row of digits, one at least.
pub open spec fn all_digits(s: Seq<char>) -> bool {
    s.len() > 0 && forall|i: int| 0 <= i < s.len() ==> is_digit(#[trigger] s[i])
}

/// The digits of a number as it is written: the string without a `+`
/// that opens it.
pub open spec fn unsigned_part(s: Seq<char>) -> Seq<char> {
    if s.len() > 0 && s[0] == '+' {
        s.subrange(1, s.len() as int)
    } else {
        s
    }
}

/// The number that a string stands for: a row of decimal digits, which
/// a `+` may open, whose value a machine word holds.
pub open spec fn number_of(s: Seq<char>) -> Option<usize> {
    let d = unsigned_part(s);
    if all_digits(d) && digits_value(d, d.len()) <= usize::MAX {
        Some(digits_value(d, d.len()) as usize)
    } else {
        None
    }
}

/// More digits stand for no lesser number.
pub proof fn lemma_digits_grow(s: Seq<char>, a: nat, b: nat)
    requires
        a <= b <= s.len(),
        forall|i: int| 0 <= i < s.len() ==> is_digit(#[trigger] s[i]),
    ensures
        0 <= digits_value(s, a) <= digits_value(s, b),
    decreases b,
{
    if a < b {
        lemma_digits_grow(s, a, (b - 1) as nat);
        assert(is_digit(s[b - 1]));
    } else if a > 0 {
        lemma_digits_grow(s, (a - 1) as nat, (a - 1) as nat);
        assert(is_digit(s[a - 1]));
    }
}

/// The number that a string stands for, if it stands for one.
pub fn parse_usize(s: &str) -> (r: Option<usize>)
    ensures
        r == number_of(s@),
{
    let v = chars_of(s);
    let start: usize = if v.len() > 0 && v[0] == '+' {
        1
    } else {
        0
    };
    let ghost d = unsigned_part(s@);
    if start >= v.len() {
        return None;
    }
    let mut acc: usize = 0;
    let mut i: usize = start;
    while i < v.len()
        invariant
            start <= i <= v.len(),
            v@ == s@,
            d == unsigned_part(s@),
            d == v@.subrange(start as int, v@.len() as int),
            forall|j: int| 0 <= j < i - start ==> is_digit(#[trigger] d[j]),
            acc == digits_value(d, (i - start) as nat),
        decreases v.len() - i,
    {
        let c: char = v[i];
        assert(c == d[i - start]);
        if !('0' <= c && c <= '9') {
            assert(!is_digit(d[i - start]));
            return None;
        }
        let digit: usize = (c as u32 - '0' as u32) as usize;
        let ten: Option<usize> = acc.checked_mul(10);
        let next: Option<usize> = match ten {
            Some(t) => t.checked_add(digit),
            None => None,
        };
        match next {
            Some(n) => {
                acc = n;
            },
            None => {
                proof {
                    assert(digits_value(d, (i - start + 1) as nat) == acc * 10 + digit);
                    if all_digits(d) {
                        lemma_digits_grow(d, (i - start + 1) as nat, d.len());
                    }
                }
                return None;
            },
        }
        i += 1;
    }
    Some(acc)
}

/// Number of positions of a segment where the configuration names
/// none.
pub const DEFAULT_SEGMENT_SIZE: usize = 128;

/// The segment size of a corpus: the number that `SEGMENTSIZE` stands
/// for, or 128 where it stands for none.
pub open spec fn segment_size_of(conf: &Block) -> usize {
    match conf.value_of("SEGMENTSIZE"@) {
        Some(v) => match number_of(v) {
            Some(n) => n,
            None => DEFAULT_SEGMENT_SIZE,
        },
        None => DEFAULT_SEGMENT_SIZE,
    }
}

/// The segment size of a corpus.
pub fn segment_size(conf: &Block) -> (n: usize)
    ensures
        n == segment_size_of(conf),
{
    match conf.value("SEGMENTSIZE") {
        Some(v) => match parse_usize(v) {
            Some(n) => n,
            None => DEFAULT_SEGMENT_SIZE,
        },
        None => DEFAULT_SEGMENT_SIZE,
    }
}

/// Whether a block gives `key` the value `value`.
pub open spec fn has_value(block: &Block, key: Seq<char>, value: Seq<char>) -> bool {
    block.value_of(key) == Some(value)
}

fn value_is(block: &Block, key: &str, value: &str) -> (b: bool)
    ensures
        b == has_value(block, key@, value@),
{
    match block.value(key) {
        Some(v) => crate::strs::same_str(v, value),
        None => false,
    }
}

/// The layout of the text of a positional attribute: by its `TYPE`, an
/// array for `MD_MI` and `Int`, a stream with a two-level index for
/// `MD_MGD`, `FD_MGD`, `FD_FGD` and `NoMem`, else a stream with a segment
/// index; that too for an attribute that the corpus does not declare.
pub open spec fn text_type_of(conf: &Block, name: Seq<char>) -> TextType {
    if !conf.has_attribute(name) {
        TextType::Delta
    } else {
        let attr = conf.attribute_of(name);
        if has_value(&attr, "TYPE"@, "MD_MI"@) || has_value(&attr, "TYPE"@, "Int"@) {
            TextType::Int
        } else if has_value(&attr, "TYPE"@, "MD_MGD"@) || has_value(&attr, "TYPE"@, "FD_MGD"@)
            || has_value(&attr, "TYPE"@, "FD_FGD"@) || has_value(&attr, "TYPE"@, "NoMem"@) {
            TextType::GigaDelta
        } else {
            TextType::Delta
        }
    }
}

/// The layout of the text of a positional attribute.
pub fn attr_text_type(conf: &Block, name: &str) -> (t: TextType)
    ensures
        t == text_type_of(conf, name@),
{
    match conf.attribute(name) {
        Some(attr) => {
            if value_is(attr, "TYPE", "MD_MI") || value_is(attr, "TYPE", "Int") {
                TextType::Int
            } else if value_is(attr, "TYPE", "MD_MGD") || value_is(attr, "TYPE", "FD_MGD")
                || value_is(attr, "TYPE", "FD_FGD") || value_is(attr, "TYPE", "NoMem") {
                TextType::GigaDelta
            } else {
                TextType::Delta
            }
        },
        None => TextType::Delta,
    }
}

/// The value that an attribute takes where a line or a tag gives it
/// none: its `DEFAULTVALUE`, or `===NONE===`.
pub open spec fn default_of(block: &Block) -> Seq<char> {
    match block.value_of("DEFAULTVALUE"@) {
        Some(v) => v,
        None => "===NONE==="@,
    }
}

/// The value that an attribute takes where it is given none.
pub fn default_value(block: &Block) -> (r: String)
    ensures
        r@ == default_of(block),
{
    match block.value("DEFAULTVALUE") {
        Some(v) => v.to_owned(),
        None => "===NONE===".to_owned(),
    }
}

/// Whether the ranges of a structure are 64-bit pairs: its `TYPE` is
/// `file64` or `map64`.
pub open spec fn is_wide(block: &Block) -> bool {
    has_value(block, "TYPE"@, "file64"@) || has_value(block, "TYPE"@, "map64"@)
}

/// Whether the ranges of a structure are 64-bit pairs.
pub fn wide(block: &Block) -> (b: bool)
    ensures
        b == is_wide(block),
{
    value_is(block, "TYPE", "file64") || value_is(block, "TYPE", "map64")
}

/// Whether the `i`-th attribute that a block declares is written by the
/// encoder: the block that its name names is not `DYNAMIC`.
pub open spec fn is_plain(conf: &Block, i: int) -> bool {
    conf.attribute_of(conf.attributes@[i].0@).value_of("DYNAMIC"@) is None
}

/// The indexes of the attributes, among the first `n` that a block
/// declares, that the encoder writes.
pub open spec fn plain_attrs(conf: &Block, n: nat) -> Seq<int>
    decreases n,
{
    if n == 0 {
        Seq::empty()
    } else if is_plain(conf, n - 1) {
        plain_attrs(conf, (n - 1) as nat).push(n - 1)
    } else {
        plain_attrs(conf, (n - 1) as nat)
    }
}

/// The attributes that the encoder writes are some that the block
/// declares.
pub proof fn lemma_plain_attrs(conf: &Block, n: nat, k: int)
    requires
        n <= conf.attributes@.len(),
        0 <= k < plain_attrs(conf, n).len(),
    ensures
        0 <= plain_attrs(conf, n)[k] < n,
        is_plain(conf, plain_attrs(conf, n)[k]),
    decreases n,
{
    if n > 0 {
        if k < plain_attrs(conf, (n - 1) as nat).len() {
            lemma_plain_attrs(conf, (n - 1) as nat, k);
        }
    }
}

/// Whether a writer is one for the attribute `name` of the corpus: of
/// the layout of its text, and with its default.
pub open spec fn writes_attr(w: &AttrWriter, conf: &Block, name: Seq<char>) -> bool {
    let block = conf.attribute_of(name);
    &&& w.wf()
    &&& w.text.ids().len() == 0
    &&& w.lex@.len() == 0
    &&& w.default_value@ == default_of(&block)
    &&& match text_type_of(conf, name) {
        TextType::Delta => (w.text matches AnyTextWriter::Delta(d) && d.segment_size
            == segment_size_of(conf)),
        TextType::GigaDelta => w.text is GigaDelta,
        TextType::Int => w.text is Int,
    }
}

/// Whether a writer is one for a structure as its block declares it: of
/// its name and width, with a writer for each attribute that it declares,
/// under its name and with its default.
pub open spec fn writes_struct(w: &StructWriter, name: Seq<char>, block: &Block) -> bool {
    &&& w.wf()
    &&& w@.len() == 0
    &&& w.name@ == name
    &&& w.type64 == is_wide(block)
    &&& w.last_start_pos is None
    &&& w.pending_empty_pos is None
    &&& w.pending_empty_vals is None
    &&& w.attrs@.len() == block.attributes@.len()
    &&& forall|a: int|
        0 <= a < block.attributes@.len() ==> {
            &&& (#[trigger] w.attrs@[a]).name@ == block.attributes@[a].0@
            &&& w.attrs@[a].default_value@ == default_of(
                &block.attribute_of(block.attributes@[a].0@),
            )
            &&& w.attrs@[a].column().len() == 0
        }
}

fn make_struct(name: &str, block: &Block) -> (w: StructWriter)
    ensures
        writes_struct(&w, name@, block),
{
    let mut sattrs: Vec<StructAttrWriter> = Vec::new();
    let mut a: usize = 0;
    while a < block.attributes.len()
        invariant
            a <= block.attributes@.len(),
            sattrs@.len() == a,
            forall|j: int|
                0 <= j < a ==> {
                    &&& (#[trigger] sattrs@[j]).wf()
                    &&& sattrs@[j].name@ == block.attributes@[j].0@
                    &&& sattrs@[j].default_value@ == default_of(
                        &block.attribute_of(block.attributes@[j].0@),
                    )
                    &&& sattrs@[j].column().len() == 0
                },
        decreases block.attributes@.len() - a,
    {
        let aname: &str = block.attributes[a].0.as_str();
        proof {
            crate::conf::lemma_first_named(block.attributes@, aname@, block.attributes@.len());
        }
        let dv: String = match block.attribute(aname) {
            Some(ablock) => default_value(ablock),
            None => "===NONE===".to_owned(),
        };
        sattrs.push(StructAttrWriter::new(aname, dv));
        a += 1;
    }
    StructWriter::new(name, wide(block), sattrs)
}

/// An encoder for a corpus as its configuration declares it: a writer
/// for each attribute that is not `DYNAMIC`, and one for each structure,
/// both in the order in which they are declared. An attribute or a
/// structure is taken as the first block of its name declares it. No
/// warning is counted yet.
#[verifier::rlimit(50)]
pub fn make_encoder(conf: &Block) -> (e: Encoder)
    requires
        0 < segment_size_of(conf) < u64::MAX,
    ensures
        e.wf(),
        e.pos == 0,
        e.open_structs@.len() == 0,
        e.err_open_same_str.count == 0,
        e.err_closing_str.count == 0,
        e.err_mismatch_str.count == 0,
        e.err_unterminated.count == 0,
        e.attrs@.len() == plain_attrs(conf, conf.attributes@.len()).len(),
        forall|k: int|
            0 <= k < e.attrs@.len() ==> writes_attr(
                &#[trigger] e.attrs@[k],
                conf,
                conf.attributes@[plain_attrs(conf, conf.attributes@.len())[k]].0@,
            ),
        e.structs@.len() == conf.structures@.len(),
        forall|s: int|
            0 <= s < e.structs@.len() ==> writes_struct(
                &#[trigger] e.structs@[s],
                conf.structures@[s].0@,
                &conf.structure_of(conf.structures@[s].0@),
            ),
{
    let size: usize = segment_size(conf);
    let mut attrs: Vec<AttrWriter> = Vec::new();
    let mut i: usize = 0;
    while i < conf.attributes.len()
        invariant
            i <= conf.attributes@.len(),
            size == segment_size_of(conf),
            0 < size < u64::MAX,
            attrs@.len() == plain_attrs(conf, i as nat).len(),
            forall|k: int|
                0 <= k < attrs@.len() ==> writes_attr(
                    &#[trigger] attrs@[k],
                    conf,
                    conf.attributes@[plain_attrs(conf, i as nat)[k]].0@,
                ),
        decreases conf.attributes@.len() - i,
    {
        let name: &str = conf.attributes[i].0.as_str();
        let ghost old_attrs = attrs@;
        proof {
            crate::conf::lemma_first_named(conf.attributes@, name@, conf.attributes@.len());
        }
        match conf.attribute(name) {
            Some(block) => {
                let dynamic: Option<&str> = block.value("DYNAMIC");
                if dynamic.is_none() {
                    let tt: TextType = attr_text_type(conf, name);
                    let w = AttrWriter::new(name, tt, size, default_value(block));
                    assert(is_plain(conf, i as int));
                    assert(writes_attr(&w, conf, name@));
                    attrs.push(w);
                } else {
                    assert(!is_plain(conf, i as int));
                }
            },
            None => {},
        }
        i += 1;
        proof {
            let pl = plain_attrs(conf, i as nat);
            let pl0 = plain_attrs(conf, (i - 1) as nat);
            assert forall|k: int| 0 <= k < attrs@.len() implies writes_attr(
                &#[trigger] attrs@[k],
                conf,
                conf.attributes@[pl[k]].0@,
            ) by {
                if k < pl0.len() {
                    assert(pl[k] == pl0[k]);
                    assert(attrs@[k] == old_attrs[k]);
                }
            }
        }
    }
    let mut structs: Vec<StructWriter> = Vec::new();
    let mut s: usize = 0;
    while s < conf.structures.len()
        invariant
            s <= conf.structures@.len(),
            structs@.len() == s,
            forall|j: int|
                0 <= j < s ==> writes_struct(
                    &#[trigger] structs@[j],
                    conf.structures@[j].0@,
                    &conf.structure_of(conf.structures@[j].0@),
                ),
        decreases conf.structures@.len() - s,
    {
        let sname: &str = conf.structures[s].0.as_str();
        proof {
            crate::conf::lemma_first_named(conf.structures@, sname@, conf.structures@.len());
        }
        match conf.structure(sname) {
            Some(sblock) => {
                structs.push(make_struct(sname, sblock));
            },
            None => {},
        }
        s += 1;
    }
    Encoder::new(attrs, structs)
}

} // verus!
