//! The classical memory of a run.

use vstd::prelude::*;
use crate::interpreter::names::{
    distinct_names, lemma_named_at, lemma_named_push, lemma_named_update, named, position,
};

verus! {

/// The classical memory after a run: the value of each classical register,
/// by its name, in the order in which the registers were declared.
#[derive(Clone, Debug, PartialEq, Eq)]
pub struct Memory {
    entries: Vec<(String, u64)>,
}

impl View for Memory {
    type V = Map<Seq<char>, u64>;

    closed spec fn view(&self) -> Map<Seq<char>, u64> {
        named(self.entries@)
    }
}

impl Memory {
    /// No register stands twice.
    pub closed spec fn wf(&self) -> bool {
        distinct_names(self.entries@)
    }

    /// The memory without registers.
    pub fn new() -> (memory: Self)
        ensures
            memory.wf(),
            memory@ == Map::<Seq<char>, u64>::empty(),
    {
        let memory = Memory { entries: Vec::new() };
        assert(memory@ =~= Map::<Seq<char>, u64>::empty());
        memory
    }

    /// Gives the register `name` the value `value`, and returns the value that
    /// it had.
    pub fn insert(&mut self, name: String, value: u64) -> (previous: Option<u64>)
        requires
            old(self).wf(),
        ensures
            final(self).wf(),
            final(self)@ == old(self)@.insert(name@, value),
            previous == if old(self)@.contains_key(name@) {
                Some(old(self)@[name@])
            } else {
                None::<u64>
            },
    {
        match position(&self.entries, &name) {
            Some(at) => {
                proof {
                    lemma_named_at(self.entries@, at as int);
                    lemma_named_update(self.entries@, at as int, value);
                }
                let previous: u64 = self.entries[at].1;
                self.entries[at].1 = value;
                assert(self.entries@ =~= old(self).entries@.update(
                    at as int,
                    (old(self).entries@[at as int].0, value),
                ));
                Some(previous)
            },
            None => {
                proof {
                    lemma_named_push(self.entries@, name, value);
                }
                self.entries.push((name, value));
                None
            },
        }
    }

    /// The registers with their values, in the order in which they entered.
    pub fn entries(&self) -> (entries: &Vec<(String, u64)>)
        requires
            self.wf(),
        ensures
            distinct_names(entries@),
            named(entries@) == self@,
    {
        &self.entries
    }

    /// The registers with their values, in the order in which they entered.
    pub fn into_entries(self) -> (entries: Vec<(String, u64)>)
        requires
            self.wf(),
        ensures
            distinct_names(entries@),
            named(entries@) == self@,
    {
        self.entries
    }

    /// The value of the register `name`.
    pub fn get(&self, name: &String) -> (value: Option<u64>)
        requires
            self.wf(),
        ensures
            value == if self@.contains_key(name@) {
                Some(self@[name@])
            } else {
                None::<u64>
            },
    {
        match position(&self.entries, name) {
            Some(at) => {
                proof {
                    lemma_named_at(self.entries@, at as int);
                }
                Some(self.entries[at].1)
            },
            None => None,
        }
    }
}

} // verus!
