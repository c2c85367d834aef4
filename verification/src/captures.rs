//! The table of captured group texts that one match attempt carries along.

use std::collections::HashMap;
use vstd::prelude::*;

verus! {

/// Records `text` under `id` unless `id` already has a capture: the first
/// capture of a group stays.
pub open spec fn record_capture(table: Map<nat, Seq<char>>, id: nat, text: Seq<char>) -> Map<
    nat,
    Seq<char>,
> {
    if table.contains_key(id) {
        table
    } else {
        table.insert(id, text)
    }
}

/// Captured texts by group id. Its view is the map from id to text.
pub struct Captures {
    table: HashMap<usize, String>,
}

impl View for Captures {
    type V = Map<nat, Seq<char>>;

    closed spec fn view(&self) -> Map<nat, Seq<char>> {
        Map::new(
            |id: nat| id <= usize::MAX && self.table@.contains_key(id as usize),
            |id: nat| self.table@[id as usize]@,
        )
    }
}

impl Captures {
    /// A table without captures.
    pub fn new() -> (c: Captures)
        ensures
            c@ == Map::<nat, Seq<char>>::empty(),
    {
        let c = Captures { table: HashMap::new() };
        assert(c@ =~= Map::<nat, Seq<char>>::empty());
        c
    }

    /// The text captured under `id`, if there is one.
    pub fn get(&self, id: usize) -> (r: Option<&String>)
        ensures
            match r {
                Some(s) => self@.contains_key(id as nat) && self@[id as nat] == s@,
                None => !self@.contains_key(id as nat),
            },
    {
        broadcast use vstd::std_specs::hash::group_hash_axioms;

        self.table.get(&id)
    }

    /// Captures `text` under `id`; a group that already has a capture keeps it.
    pub fn record(&mut self, id: usize, text: &str)
        ensures
            final(self)@ == record_capture(old(self)@, id as nat, text@),
    {
        broadcast use vstd::std_specs::hash::group_hash_axioms;

        if !self.table.contains_key(&id) {
            let owned = String::from_str(text);
            self.table.insert(id, owned);
            assert(self@ =~= old(self)@.insert(id as nat, text@));
        }
    }
}

} // verus!
