//! Configuration of a corpus as the engine reads it: values by name, and
//! the blocks of its attributes and structures in the order in which they
//! are declared.

use vstd::prelude::*;
use crate::strs::same_str;

verus! {

/// A block of a configuration: that of a corpus, of an attribute or of a
/// structure.
#[derive(Debug)]
pub struct Block {
    /// The values of the block, each with its name.
    pub values: Vec<(String, String)>,
    /// The attributes declared in the block, each with its name.
    pub attributes: Vec<(String, Block)>,
    /// The structures declared in the block, each with its name.
    pub structures: Vec<(String, Block)>,
}

/// Index of the first of the first `n` entries whose name is `name`; `n`
/// where there is none.
pub open spec fn first_named<T>(entries: Seq<(String, T)>, name: Seq<char>, n: nat) -> int
    decreases n,
{
    if n == 0 {
        0
    } else {
        let before = first_named(entries, name, (n - 1) as nat);
        if before < n - 1 {
            before
        } else if entries[n - 1].0@ == name {
            n - 1
        } else {
            n as int
        }
    }
}

/// Index of the first entry whose name is `name`; the number of
/// entries where there is none.
pub open spec fn index_of<T>(entries: Seq<(String, T)>, name: Seq<char>) -> int {
    first_named(entries, name, entries.len())
}

/// The index found names an entry of that name, the first of them.
pub proof fn lemma_first_named<T>(entries: Seq<(String, T)>, name: Seq<char>, n: nat)
    requires
        n <= entries.len(),
    ensures
        0 <= first_named(entries, name, n) <= n,
        first_named(entries, name, n) < n ==> entries[first_named(entries, name, n)].0@ == name,
        forall|i: int|
            0 <= i < first_named(entries, name, n) ==> (#[trigger] entries[i]).0@ != name,
    decreases n,
{
    if n > 0 {
        lemma_first_named(entries, name, (n - 1) as nat);
    }
}

fn find_entry<T>(entries: &Vec<(String, T)>, name: &str) -> (r: usize)
    ensures
        r == index_of(entries@, name@),
        r <= entries@.len(),
{
    let mut i: usize = 0;
    while i < entries.len()
        invariant
            i <= entries.len(),
            first_named(entries@, name@, i as nat) == i,
        decreases entries.len() - i,
    {
        if same_str(entries[i].0.as_str(), name) {
            proof {
                lemma_found_stays(entries@, name@, (i + 1) as nat, entries@.len());
            }
            return i;
        }
        i += 1;
    }
    i
}

/// An entry found among the first entries is the one found among all.
pub proof fn lemma_found_stays<T>(entries: Seq<(String, T)>, name: Seq<char>, a: nat, b: nat)
    requires
        a <= b <= entries.len(),
        first_named(entries, name, a) < a,
    ensures
        first_named(entries, name, b) == first_named(entries, name, a),
    decreases b,
{
    if a < b {
        lemma_found_stays(entries, name, a, (b - 1) as nat);
    }
}

impl Block {
    /// The value of `name`, as the block gives it: that of the first
    /// entry of that name.
    pub open spec fn value_of(&self, name: Seq<char>) -> Option<Seq<char>> {
        let i = index_of(self.values@, name);
        if i < self.values@.len() {
            Some(self.values@[i].1@)
        } else {
            None
        }
    }

    /// Whether the block declares an attribute `name`.
    pub open spec fn has_attribute(&self, name: Seq<char>) -> bool {
        index_of(self.attributes@, name) < self.attributes@.len()
    }

    /// The block of the attribute `name`: that of the first attribute of
    /// that name.
    pub open spec fn attribute_of(&self, name: Seq<char>) -> Block {
        self.attributes@[index_of(self.attributes@, name)].1
    }

    /// Whether the block declares a structure `name`.
    pub open spec fn has_structure(&self, name: Seq<char>) -> bool {
        index_of(self.structures@, name) < self.structures@.len()
    }

    /// The block of the structure `name`: that of the first structure of
    /// that name.
    pub open spec fn structure_of(&self, name: Seq<char>) -> Block {
        self.structures@[index_of(self.structures@, name)].1
    }

    /// A block with nothing in it.
    pub fn new() -> (b: Block)
        ensures
            b.values@.len() == 0,
            b.attributes@.len() == 0,
            b.structures@.len() == 0,
    {
        Block { values: Vec::new(), attributes: Vec::new(), structures: Vec::new() }
    }

    /// The value of `name`, if the block gives one.
    pub fn value(&self, name: &str) -> (r: Option<&str>)
        ensures
            r is Some <==> self.value_of(name@) is Some,
            r matches Some(v) ==> Some(v@) == self.value_of(name@),
    {
        let i: usize = find_entry(&self.values, name);
        if i < self.values.len() {
            Some(self.values[i].1.as_str())
        } else {
            None
        }
    }

    /// The block of the attribute `name`, if one is declared.
    pub fn attribute(&self, name: &str) -> (r: Option<&Block>)
        ensures
            r is Some <==> self.has_attribute(name@),
            r matches Some(b) ==> *b == self.attribute_of(name@),
    {
        let i: usize = find_entry(&self.attributes, name);
        if i < self.attributes.len() {
            Some(&self.attributes[i].1)
        } else {
            None
        }
    }

    /// The block of the structure `name`, if one is declared.
    pub fn structure(&self, name: &str) -> (r: Option<&Block>)
        ensures
            r is Some <==> self.has_structure(name@),
            r matches Some(b) ==> *b == self.structure_of(name@),
    {
        let i: usize = find_entry(&self.structures, name);
        if i < self.structures.len() {
            Some(&self.structures[i].1)
        } else {
            None
        }
    }
}

} // verus!
