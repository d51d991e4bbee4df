//! The outcome of a simulation: the final amplitudes, the classical memory,
//! and the histogram of the classical outcomes of repeated shots.

use vstd::prelude::*;
use crate::interpreter::memory::Memory;
use crate::interpreter::names::{
    distinct_names, has_name, index_of_name, lemma_named_at, lemma_named_push,
    lemma_named_update, named, position, position_before,
};
use crate::interpreter::outcomes::{
    ascending, count_outcome, counted, is_ascending, lemma_counted, total,
};
use crate::statevector::StateVector;

verus! {

/// The classical outcomes of repeated shots: for each classical register, by
/// its name, the values that it ended with and how often, ascending by value.
pub type HistogramView = Map<Seq<char>, Seq<(u64, usize)>>;

/// The mapping from names to tables that a list of named tables stands for.
pub open spec fn tables(entries: Seq<(String, Vec<(u64, usize)>)>) -> HistogramView {
    Map::new(
        |name: Seq<char>| has_name(entries, name),
        |name: Seq<char>| entries[index_of_name(entries, name)].1@,
    )
}

/// Every table is ascending, and none counts more than `shots` outcomes.
pub open spec fn tables_within(histogram: HistogramView, shots: nat) -> bool {
    forall|name: Seq<char>| #[trigger]
        histogram.contains_key(name) ==> ascending(histogram[name]) && total(histogram[name])
            <= shots
}

/// The table of `name`, empty where the histogram has none.
pub open spec fn table_of(histogram: HistogramView, name: Seq<char>) -> Seq<(u64, usize)> {
    if histogram.contains_key(name) {
        histogram[name]
    } else {
        Seq::empty()
    }
}

/// The histogram after one more shot that ended with the classical memory
/// `memory`: the table of each register of the memory counts its value once
/// more, the other tables stay.
pub open spec fn updated(histogram: HistogramView, memory: Map<Seq<char>, u64>) -> HistogramView {
    Map::new(
        |name: Seq<char>| histogram.contains_key(name) || memory.contains_key(name),
        |name: Seq<char>|
            if memory.contains_key(name) {
                counted(table_of(histogram, name), memory[name])
            } else {
                histogram[name]
            },
    )
}

/// The histogram in the middle of an update, when the first `done` registers
/// of the memory have been counted.
spec fn updated_upto(
    histogram: HistogramView,
    memory: Seq<(String, u64)>,
    done: int,
) -> HistogramView {
    Map::new(
        |name: Seq<char>| histogram.contains_key(name) || has_name(memory.take(done), name),
        |name: Seq<char>|
            if has_name(memory.take(done), name) {
                counted(table_of(histogram, name), named(memory)[name])
            } else {
                histogram[name]
            },
    )
}

/// With one register more counted, the registers counted are those counted
/// before and that one, which was not among them.
proof fn lemma_taken_names(memory: Seq<(String, u64)>, done: int)
    requires
        distinct_names(memory),
        0 <= done < memory.len(),
    ensures
        !has_name(memory.take(done), memory[done].0@),
        forall|name: Seq<char>|
            has_name(memory.take(done + 1), name) == (has_name(memory.take(done), name) || name
                == memory[done].0@),
{
    let before = memory.take(done);
    let after = memory.take(done + 1);
    if has_name(before, memory[done].0@) {
        let i = index_of_name(before, memory[done].0@);
        assert(memory[i].0@ == memory[done].0@);
    }
    assert forall|name: Seq<char>|
        has_name(after, name) == (has_name(before, name) || name == memory[done].0@) by {
        if has_name(before, name) {
            let i = index_of_name(before, name);
            assert(after[i].0@ == name);
        }
        if name == memory[done].0@ {
            assert(after[done].0@ == name);
        }
        if has_name(after, name) {
            let i = index_of_name(after, name);
            if i < done {
                assert(before[i].0@ == name);
            }
        }
    }
}

/// Where a list of named tables changes at one name, so does the mapping
/// that it stands for.
proof fn lemma_tables_insert(
    before: Seq<(String, Vec<(u64, usize)>)>,
    after: Seq<(String, Vec<(u64, usize)>)>,
    name: Seq<char>,
    table: Vec<(u64, usize)>,
)
    requires
        named(after) == named(before).insert(name, table),
    ensures
        tables(after) == tables(before).insert(name, table@),
{
    assert forall|other: Seq<char>|
        tables(after).contains_key(other) == tables(before).insert(name, table@).contains_key(
            other,
        ) by {
        assert(named(after).contains_key(other) == has_name(after, other));
        assert(named(before).contains_key(other) == has_name(before, other));
    }
    assert forall|other: Seq<char>| tables(after).contains_key(other) implies tables(after)[other]
        == tables(before).insert(name, table@)[other] by {
        assert(named(after).contains_key(other));
        assert(tables(after)[other] == named(after)[other]@);
        if other != name {
            assert(named(before).contains_key(other));
            assert(tables(before)[other] == named(before)[other]@);
        }
    }
    assert(tables(after) =~= tables(before).insert(name, table@));
}

/// The histogram of classical outcomes.
#[derive(Clone, Debug, PartialEq, Eq)]
pub struct Histogram {
    entries: Vec<(String, Vec<(u64, usize)>)>,
}

impl View for Histogram {
    type V = HistogramView;

    closed spec fn view(&self) -> HistogramView {
        tables(self.entries@)
    }
}

impl Histogram {
    /// No register stands twice.
    pub closed spec fn inv(&self) -> bool {
        distinct_names(self.entries@)
    }

    /// No register stands twice, and every table is strictly ascending by
    /// value.
    pub open spec fn wf(&self) -> bool {
        &&& self.inv()
        &&& forall|name: Seq<char>| #[trigger]
            self@.contains_key(name) ==> ascending(self@[name])
    }

    /// The histogram with the given tables, where no register stands twice and
    /// every table is strictly ascending by value.
    pub fn from_entries(entries: Vec<(String, Vec<(u64, usize)>)>) -> (made: Option<Self>)
        ensures
            made is Some <==> distinct_names(entries@) && forall|i: int|
                0 <= i < entries@.len() ==> ascending(#[trigger] entries@[i].1@),
            made is Some ==> made->Some_0.wf() && made->Some_0@ == tables(entries@),
    {
        let mut at: usize = 0;
        while at < entries.len()
            invariant
                at <= entries@.len(),
                distinct_names(entries@.take(at as int)),
                forall|i: int| 0 <= i < at ==> ascending(#[trigger] entries@[i].1@),
            decreases entries@.len() - at,
        {
            if !is_ascending(&entries[at].1) {
                return None;
            }
            let earlier = position_before(&entries, at, &entries[at].0);
            if earlier.is_some() {
                return None;
            }
            proof {
                let before = entries@.take(at as int);
                let after = entries@.take(at + 1);
                assert forall|i: int, j: int| 0 <= i < j < after.len() implies after[i].0@
                    != after[j].0@ by {
                    if j < at {
                        assert(before[i].0@ != before[j].0@);
                    }
                }
            }
            at += 1;
        }
        proof {
            assert(entries@.take(at as int) =~= entries@);
        }
        let made = Histogram { entries };
        proof {
            assert forall|name: Seq<char>| #[trigger] made@.contains_key(name) implies ascending(
                made@[name],
            ) by {
                let i = index_of_name(made.entries@, name);
                assert(ascending(made.entries@[i].1@));
            }
        }
        Some(made)
    }

    /// The table of the register `name`.
    pub fn get(&self, name: &String) -> (table: Option<&Vec<(u64, usize)>>)
        requires
            self.inv(),
        ensures
            match table {
                Some(found) => self@.contains_key(name@) && found@ == self@[name@],
                None => !self@.contains_key(name@),
            },
    {
        match position(&self.entries, name) {
            Some(at) => {
                proof {
                    lemma_named_at(self.entries@, at as int);
                }
                Some(&self.entries[at].1)
            },
            None => None,
        }
    }

    /// The registers with their tables, in the order in which the registers
    /// first occurred.
    pub fn into_entries(self) -> (entries: Vec<(String, Vec<(u64, usize)>)>)
        requires
            self.inv(),
        ensures
            distinct_names(entries@),
            tables(entries@) == self@,
    {
        self.entries
    }
}

/// Collects the classical outcomes of repeated shots.
#[derive(Clone, Debug, PartialEq, Eq)]
pub struct HistogramBuilder {
    histogram: Histogram,
    shots: usize,
}

impl View for HistogramBuilder {
    type V = HistogramView;

    closed spec fn view(&self) -> HistogramView {
        self.histogram@
    }
}

impl HistogramBuilder {
    /// The number of shots collected.
    pub closed spec fn spec_shots(&self) -> nat {
        self.shots as nat
    }

    /// No register stands twice.
    pub closed spec fn inv(&self) -> bool {
        self.histogram.inv()
    }

    /// Every table is ascending, and none counts more outcomes than shots
    /// were collected.
    pub open spec fn wf(&self) -> bool {
        &&& self.inv()
        &&& tables_within(self@, self.spec_shots())
    }

    /// The builder that has collected nothing.
    pub fn new() -> (builder: Self)
        ensures
            builder.wf(),
            builder@ == Map::<Seq<char>, Seq<(u64, usize)>>::empty(),
            builder.spec_shots() == 0,
    {
        let builder = HistogramBuilder { histogram: Histogram { entries: Vec::new() }, shots: 0 };
        assert(builder@ =~= Map::<Seq<char>, Seq<(u64, usize)>>::empty());
        builder
    }

    /// The number of shots collected.
    pub fn shots(&self) -> (shots: usize)
        ensures
            shots == self.spec_shots(),
    {
        self.shots
    }

    /// Counts the outcome of one more shot: the value of each register of
    /// `memory`, in the table of that register.
    pub fn update(&mut self, memory: &Memory)
        requires
            old(self).wf(),
            memory.wf(),
            old(self).spec_shots() < usize::MAX,
        ensures
            final(self).wf(),
            final(self)@ == updated(old(self)@, memory@),
            final(self).spec_shots() == old(self).spec_shots() + 1,
    {
        let ghost before = self@;
        let ghost shots = self.shots as nat;
        let registers = memory.entries();
        let mut done: usize = 0;
        while done < registers.len()
            invariant
                shots < usize::MAX,
                self.shots == shots,
                distinct_names(registers@),
                named(registers@) == memory@,
                distinct_names(self.histogram.entries@),
                done <= registers@.len(),
                self@ == updated_upto(before, registers@, done as int),
                forall|name: Seq<char>| #[trigger]
                    self@.contains_key(name) ==> ascending(self@[name]) && total(self@[name])
                        <= shots + if has_name(registers@.take(done as int), name) {
                        1nat
                    } else {
                        0nat
                    },
            decreases registers@.len() - done,
        {
            let name = &registers[done].0;
            let value: u64 = registers[done].1;
            let ghost earlier = self.histogram.entries@;
            let ghost earlier_view = self@;
            proof {
                lemma_taken_names(registers@, done as int);
                lemma_named_at(registers@, done as int);
            }
            match position(&self.histogram.entries, name) {
                Some(at) => {
                    proof {
                        lemma_named_at(earlier, at as int);
                        assert(earlier_view.contains_key(name@));
                        assert(earlier_view[name@] == earlier[at as int].1@);
                    }
                    count_outcome(&mut self.histogram.entries[at].1, value);
                    proof {
                        let table = self.histogram.entries@[at as int].1;
                        assert(self.histogram.entries@ =~= earlier.update(
                            at as int,
                            (earlier[at as int].0, table),
                        ));
                        lemma_named_update(earlier, at as int, table);
                        lemma_tables_insert(earlier, self.histogram.entries@, name@, table);
                        lemma_counted(earlier[at as int].1@, value);
                        assert(self@ =~= earlier_view.insert(name@, table@));
                    }
                },
                None => {
                    let mut table: Vec<(u64, usize)> = Vec::new();
                    count_outcome(&mut table, value);
                    let owned = name.clone();
                    proof {
                        lemma_named_push(earlier, owned, table);
                        lemma_counted(Seq::<(u64, usize)>::empty(), value);
                    }
                    self.histogram.entries.push((owned, table));
                    proof {
                        lemma_tables_insert(earlier, self.histogram.entries@, name@, table);
                        assert(self@ =~= earlier_view.insert(name@, table@));
                    }
                },
            }
            proof {
                assert(self@ =~= updated_upto(before, registers@, done + 1));
            }
            done += 1;
        }
        proof {
            assert(registers@.take(done as int) =~= registers@);
            assert(self@ =~= updated(before, memory@));
        }
        self.shots = self.shots + 1;
    }

    /// The histogram collected.
    pub fn histogram(self) -> (histogram: Histogram)
        requires
            self.wf(),
        ensures
            histogram.wf(),
            histogram@ == self@,
    {
        self.histogram
    }
}

impl Default for HistogramBuilder {
    /// The builder that has collected nothing.
    fn default() -> (builder: Self)
        ensures
            builder.wf(),
            builder@ == Map::<Seq<char>, Seq<(u64, usize)>>::empty(),
            builder.spec_shots() == 0,
    {
        HistogramBuilder::new()
    }
}

/// The histogram of a run of shots, each given by the classical memory that it
/// ended with.
pub open spec fn collected(shots: Seq<Map<Seq<char>, u64>>) -> HistogramView
    decreases shots.len(),
{
    if shots.len() == 0 {
        Map::empty()
    } else {
        updated(collected(shots.drop_last()), shots.last())
    }
}

/// In the histogram of any run of shots every table is strictly ascending by
/// value and counts no more outcomes than there were shots.
pub proof fn lemma_collected_within(shots: Seq<Map<Seq<char>, u64>>)
    requires
        shots.len() <= usize::MAX,
    ensures
        tables_within(collected(shots), shots.len()),
    decreases shots.len(),
{
    if shots.len() > 0 {
        let earlier = collected(shots.drop_last());
        lemma_collected_within(shots.drop_last());
        assert forall|name: Seq<char>| #[trigger]
            collected(shots).contains_key(name) implies ascending(collected(shots)[name]) && total(
            collected(shots)[name],
        ) <= shots.len() by {
            if earlier.contains_key(name) {
                assert(ascending(earlier[name]));
            }
            if shots.last().contains_key(name) {
                lemma_counted(table_of(earlier, name), shots.last()[name]);
            }
        }
    }
}

/// For a register that every shot of a run ended with, the counts of the
/// histogram of that run sum to the number of shots, and its table is
/// strictly ascending by value.
pub proof fn lemma_collected_total(shots: Seq<Map<Seq<char>, u64>>, name: Seq<char>)
    requires
        0 < shots.len() <= usize::MAX,
        forall|i: int| 0 <= i < shots.len() ==> #[trigger] shots[i].contains_key(name),
    ensures
        collected(shots).contains_key(name),
        ascending(collected(shots)[name]),
        total(collected(shots)[name]) == shots.len(),
    decreases shots.len(),
{
    let rest = shots.drop_last();
    let earlier = collected(rest);
    assert(shots.last() == shots[shots.len() - 1]);
    if rest.len() > 0 {
        assert forall|i: int| 0 <= i < rest.len() implies #[trigger] rest[i].contains_key(name) by {
            assert(rest[i] == shots[i]);
        }
        lemma_collected_total(rest, name);
    } else {
        assert(!earlier.contains_key(name));
    }
    lemma_counted(table_of(earlier, name), shots.last()[name]);
}

/// The result of a simulation.
#[derive(Clone, Debug, PartialEq)]
pub struct Computation {
    statevector: StateVector,
    memory: Memory,
    histogram: Option<Histogram>,
}

impl Computation {
    /// The amplitudes that the last shot ended with.
    pub closed spec fn spec_statevector(&self) -> StateVector {
        self.statevector
    }

    /// The classical memory that the last shot ended with.
    pub closed spec fn spec_memory(&self) -> Memory {
        self.memory
    }

    /// The histogram, where several shots were run.
    pub closed spec fn spec_histogram(&self) -> Option<Histogram> {
        self.histogram
    }

    /// The result with the given parts.
    pub fn new(memory: Memory, statevector: StateVector, histogram: Option<Histogram>) -> (result:
        Self)
        ensures
            result.spec_memory() == memory,
            result.spec_statevector() == statevector,
            result.spec_histogram() == histogram,
    {
        Computation { statevector, memory, histogram }
    }

    /// The amplitudes that the last shot ended with.
    pub fn statevector(&self) -> (statevector: &StateVector)
        ensures
            *statevector == self.spec_statevector(),
    {
        &self.statevector
    }

    /// The classical memory that the last shot ended with.
    pub fn memory(&self) -> (memory: &Memory)
        ensures
            *memory == self.spec_memory(),
    {
        &self.memory
    }

    /// The histogram, where several shots were run.
    pub fn histogram(&self) -> (histogram: &Option<Histogram>)
        ensures
            *histogram == self.spec_histogram(),
    {
        &self.histogram
    }
}

} // verus!
