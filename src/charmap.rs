use std::collections::HashMap;
use vstd::prelude::*;

verus! {

broadcast use vstd::std_specs::hash::group_hash_axioms;

/// A table from characters to characters, keyed by code point.
///
/// It holds the homophone table, which folds letters that sound alike onto one
/// spelling, and the radical table, which projects a vocalised letter onto its
/// bare consonant.
pub struct CharMap {
    table: HashMap<u32, char>,
}

impl View for CharMap {
    type V = Map<u32, char>;

    closed spec fn view(&self) -> Map<u32, char> {
        self.table@
    }
}

/// The image of `c` under `m`, or `c` itself where `m` has no entry for it.
pub open spec fn map_char(m: Map<u32, char>, c: char) -> char {
    if m.contains_key(c as u32) {
        m[c as u32]
    } else {
        c
    }
}

/// Every character of `w` has an entry in `m`.
pub open spec fn covers(m: Map<u32, char>, w: Seq<char>) -> bool {
    forall|i: int| 0 <= i < w.len() ==> m.contains_key((#[trigger] w[i]) as u32)
}

impl CharMap {
    /// An empty table.
    pub fn new() -> (r: CharMap)
        ensures
            r@ == Map::<u32, char>::empty(),
    {
        CharMap { table: HashMap::new() }
    }

    pub(crate) fn from_table(table: HashMap<u32, char>) -> (r: CharMap)
        ensures
            r@ == table@,
    {
        CharMap { table }
    }

    /// Maps `from` to `to`, replacing any earlier entry for `from`.
    pub fn insert(&mut self, from: char, to: char)
        ensures
            final(self)@ == old(self)@.insert(from as u32, to),
    {
        self.table.insert(from as u32, to);
    }

    /// Whether the table has an entry for `c`.
    pub fn contains(&self, c: char) -> (r: bool)
        ensures
            r == self@.contains_key(c as u32),
    {
        self.table.contains_key(&(c as u32))
    }

    /// Whether the table has an entry for the code point `k`.
    pub fn contains_code(&self, k: u32) -> (r: bool)
        ensures
            r == self@.contains_key(k),
    {
        self.table.contains_key(&k)
    }

    /// The image of `c`, or `c` itself where the table has no entry for it.
    pub fn image(&self, c: char) -> (r: char)
        ensures
            r == map_char(self@, c),
    {
        match self.table.get(&(c as u32)) {
            Some(d) => *d,
            None => c,
        }
    }
}

} // verus!
