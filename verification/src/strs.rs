//! Strings as sequences of characters: the few operations on them that
//! the configuration and the vertical text need.

use vstd::prelude::*;
use vstd::string::StringSliceAdditionalSpecFns;
use vstd::utf8::encode_utf8_decode_utf8;

verus! {

/// Whether a character is white space.
pub open spec fn is_space(c: char) -> bool {
    let v = c as u32;
    (0x09 <= v <= 0x0d) || v == 0x20 || v == 0x85 || v == 0xa0 || v == 0x1680 || (0x2000 <= v
        <= 0x200a) || v == 0x2028 || v == 0x2029 || v == 0x202f || v == 0x205f || v == 0x3000
}

/// Whether a character is white space.
pub fn space(c: char) -> (b: bool)
    ensures
        b == is_space(c),
{
    let v: u32 = c as u32;
    (0x09 <= v && v <= 0x0d) || v == 0x20 || v == 0x85 || v == 0xa0 || v == 0x1680 || (0x2000 <= v
        && v <= 0x200a) || v == 0x2028 || v == 0x2029 || v == 0x202f || v == 0x205f || v == 0x3000
}

/// The characters of a string.
pub fn chars_of(s: &str) -> (v: Vec<char>)
    ensures
        v@ == s@,
{
    let n: usize = s.unicode_len();
    let mut v: Vec<char> = Vec::new();
    let mut i: usize = 0;
    while i < n
        invariant
            i <= n,
            n == s@.len(),
            v@ == s@.take(i as int),
        decreases n - i,
    {
        v.push(s.get_char(i));
        i += 1;
        assert(v@ =~= s@.take(i as int));
    }
    assert(s@.take(n as int) =~= s@);
    v
}

/// The strings of a vector as sequences of characters.
pub open spec fn texts(v: Seq<String>) -> Seq<Seq<char>> {
    Seq::new(v.len(), |i: int| v[i]@)
}

/// Whether two strings are the same.
pub fn same_str(a: &str, b: &str) -> (r: bool)
    ensures
        r == (a@ == b@),
{
    let x: &[u8] = a.as_bytes();
    let y: &[u8] = b.as_bytes();
    proof {
        encode_utf8_decode_utf8(a@);
        encode_utf8_decode_utf8(b@);
    }
    if x.len() != y.len() {
        return false;
    }
    let mut i: usize = 0;
    while i < x.len()
        invariant
            i <= x.len(),
            x.len() == y.len(),
            x@ == a.spec_bytes(),
            y@ == b.spec_bytes(),
            forall|j: int| 0 <= j < i ==> x@[j] == y@[j],
        decreases x.len() - i,
    {
        if x[i] != y[i] {
            return false;
        }
        i += 1;
    }
    assert(x@ =~= y@);
    true
}

/// The part of a string from character `from` up to character `to`.
pub fn part(s: &str, from: usize, to: usize) -> (r: String)
    requires
        from <= to <= s@.len(),
    ensures
        r@ == s@.subrange(from as int, to as int),
{
    s.substring_char(from, to).to_owned()
}

/// Two strings one after the other.
pub fn join2(a: &str, b: &str) -> (r: String)
    ensures
        r@ == a@ + b@,
{
    let mut r: String = a.to_owned();
    r.append(b);
    r
}


/// Index of the first character at `i` or after it that is no white
/// space; the length of the string where there is none.
pub open spec fn skip_space(s: Seq<char>, i: int) -> int
    decreases s.len() - i,
{
    if i < 0 || i >= s.len() {
        s.len() as int
    } else if !is_space(s[i]) {
        i
    } else {
        skip_space(s, i + 1)
    }
}

/// Index of the first white space at `i` or after it; the length of
/// the string where there is none.
pub open spec fn find_space(s: Seq<char>, i: int) -> int
    decreases s.len() - i,
{
    if i < 0 || i >= s.len() {
        s.len() as int
    } else if is_space(s[i]) {
        i
    } else {
        find_space(s, i + 1)
    }
}

/// Index of the first `c` at `i` or after it; the length of the string
/// where there is none.
pub open spec fn find_char(s: Seq<char>, i: int, c: char) -> int
    decreases s.len() - i,
{
    if i < 0 || i >= s.len() {
        s.len() as int
    } else if s[i] == c {
        i
    } else {
        find_char(s, i + 1, c)
    }
}

/// Index behind the last character before `j` that is no white space,
/// and not before `i`.
pub open spec fn back_space(s: Seq<char>, i: int, j: int) -> int
    decreases j - i,
{
    if j <= i || j > s.len() {
        i
    } else if !is_space(s[j - 1]) {
        j
    } else {
        back_space(s, i, j - 1)
    }
}

/// A string without the white space at its ends.
pub open spec fn trimmed(s: Seq<char>) -> Seq<char> {
    s.subrange(skip_space(s, 0), back_space(s, skip_space(s, 0), s.len() as int))
}

/// The found index lies in the string from `i` on.
pub proof fn lemma_skip_space_bounds(s: Seq<char>, i: int)
    requires
        0 <= i <= s.len(),
    ensures
        i <= skip_space(s, i) <= s.len(),
        i <= find_space(s, i) <= s.len(),
    decreases s.len() - i,
{
    if i < s.len() {
        lemma_skip_space_bounds(s, i + 1);
    }
}

/// The found index lies in the string from `i` on.
pub proof fn lemma_find_char_bounds(s: Seq<char>, i: int, c: char)
    requires
        0 <= i <= s.len(),
    ensures
        i <= find_char(s, i, c) <= s.len(),
    decreases s.len() - i,
{
    if i < s.len() {
        lemma_find_char_bounds(s, i + 1, c);
    }
}

/// Index of the first character at `i` or after it that is no white
/// space.
pub fn skip_space_in(v: &Vec<char>, i: usize) -> (r: usize)
    requires
        i <= v.len(),
    ensures
        r == skip_space(v@, i as int),
        i <= r <= v.len(),
{
    let mut r: usize = i;
    while r < v.len() && space(v[r])
        invariant
            i <= r <= v.len(),
            skip_space(v@, i as int) == skip_space(v@, r as int),
        decreases v.len() - r,
    {
        r += 1;
    }
    r
}

/// Index of the first white space at `i` or after it.
pub fn find_space_in(v: &Vec<char>, i: usize) -> (r: usize)
    requires
        i <= v.len(),
    ensures
        r == find_space(v@, i as int),
        i <= r <= v.len(),
{
    let mut r: usize = i;
    while r < v.len() && !space(v[r])
        invariant
            i <= r <= v.len(),
            find_space(v@, i as int) == find_space(v@, r as int),
        decreases v.len() - r,
    {
        r += 1;
    }
    r
}

/// Index of the first `c` at `i` or after it.
pub fn find_char_in(v: &Vec<char>, i: usize, c: char) -> (r: usize)
    requires
        i <= v.len(),
    ensures
        r == find_char(v@, i as int, c),
        i <= r <= v.len(),
{
    let mut r: usize = i;
    while r < v.len() && v[r] != c
        invariant
            i <= r <= v.len(),
            find_char(v@, i as int, c) == find_char(v@, r as int, c),
        decreases v.len() - r,
    {
        r += 1;
    }
    r
}

/// Index behind the last character before `j` that is no white space,
/// and not before `i`.
pub fn back_space_in(v: &Vec<char>, i: usize, j: usize) -> (r: usize)
    requires
        i <= j <= v.len(),
    ensures
        r == back_space(v@, i as int, j as int),
        i <= r <= j,
{
    let mut r: usize = j;
    while r > i && space(v[r - 1])
        invariant
            i <= r <= j <= v.len(),
            back_space(v@, i as int, j as int) == back_space(v@, i as int, r as int),
        decreases r - i,
    {
        r -= 1;
    }
    r
}

} // verus!
