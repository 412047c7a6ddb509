//! The table of usage weights by which the dictionary is ranked.

use vstd::hash_map::StringHashMap;
use vstd::prelude::*;

verus! {

/// The weight of `word` in a table: what the table records, 0 for a word that
/// it does not hold.
pub open spec fn weight_of(table: Map<Seq<char>, u64>, word: Seq<char>) -> u64 {
    if table.contains_key(word) {
        table[word]
    } else {
        0
    }
}

/// A mapping from words to usage weights.
pub struct Frequencies {
    table: StringHashMap<u64>,
}

impl View for Frequencies {
    type V = Map<Seq<char>, u64>;

    closed spec fn view(&self) -> Map<Seq<char>, u64> {
        self.table@
    }
}

impl Frequencies {
    /// A table that holds no word.
    pub fn new() -> (r: Frequencies)
        ensures
            r@ == Map::<Seq<char>, u64>::empty(),
    {
        Frequencies { table: StringHashMap::new() }
    }

    /// Records `count` as the weight of `word`, in place of an earlier weight.
    pub fn insert(&mut self, word: String, count: u64)
        ensures
            final(self)@ == old(self)@.insert(word@, count),
    {
        self.table.insert(word, count);
    }

    /// The weight of `word`.
    pub fn weight(&self, word: &str) -> (r: u64)
        ensures
            r == weight_of(self@, word@),
    {
        match self.table.get(word) {
            Some(count) => *count,
            None => 0,
        }
    }
}

} // verus!
