//! The registers that a program declares and the qubits and bits that its
//! operations name.

use vstd::prelude::*;
use crate::error::QasmSimError;
use crate::interpreter::memory::Memory;
use crate::interpreter::names::{
    distinct_names, has_name, index_of_name, lemma_named_at, lemma_named_push,
    lemma_named_update, named, position,
};

verus! {

/// What an operation names: a whole register, or one qubit or bit of a
/// register by its index in the register.
#[derive(Clone, Debug, PartialEq, Eq)]
pub enum Argument {
    Id(String),
    Item(String, usize),
}

/// The qubits or bits that an argument stands for: `width` neighbours from
/// `first` on, and whether they are a whole register.
#[derive(Clone, Copy, Debug, PartialEq, Eq)]
pub struct Span {
    pub first: usize,
    pub width: usize,
    pub whole: bool,
}

/// The span of an argument where each register is known by the place of its
/// first member and its width: a whole register spans all its members, an
/// indexed argument the one at its index, which must lie in the register.
pub open spec fn resolved(table: Map<Seq<char>, (usize, usize)>, arg: Argument) -> Result<
    Span,
    QasmSimError,
> {
    match arg {
        Argument::Id(name) => if table.contains_key(name@) {
            Ok(Span { first: table[name@].0, width: table[name@].1, whole: true })
        } else {
            Err(QasmSimError::UnknownRegister)
        },
        Argument::Item(name, index) => if !table.contains_key(name@) {
            Err(QasmSimError::UnknownRegister)
        } else if index >= table[name@].1 {
            Err(QasmSimError::IndexOutOfRange)
        } else {
            Ok(Span { first: (table[name@].0 + index) as usize, width: 1, whole: false })
        },
    }
}

/// The spans of a list of arguments, or the first reason, in the order of the
/// arguments, for which one of them has none.
pub open spec fn resolved_all(table: Map<Seq<char>, (usize, usize)>, args: Seq<Argument>) -> Result<
    Seq<Span>,
    QasmSimError,
>
    decreases args.len(),
{
    if args.len() == 0 {
        Ok(Seq::empty())
    } else {
        match resolved_all(table, args.drop_last()) {
            Err(reason) => Err(reason),
            Ok(spans) => match resolved(table, args.last()) {
                Err(reason) => Err(reason),
                Ok(span) => Ok(spans.push(span)),
            },
        }
    }
}

/// The whole registers among the spans have one width.
pub open spec fn one_width(spans: Seq<Span>) -> bool {
    forall|i: int, j: int|
        0 <= i < j < spans.len() && spans[i].whole && spans[j].whole ==> spans[i].width
            == spans[j].width
}

/// Whether a whole register is among the spans.
pub open spec fn has_whole(spans: Seq<Span>) -> bool {
    exists|i: int| 0 <= i < spans.len() && (#[trigger] spans[i]).whole
}

/// The number of calls into which an operation on the spans unfolds: the width
/// of the whole registers among them, and 1 where there is none.
pub open spec fn call_count(spans: Seq<Span>) -> nat {
    if has_whole(spans) {
        spans[choose|i: int| 0 <= i < spans.len() && (#[trigger] spans[i]).whole].width as nat
    } else {
        1
    }
}

/// The member of a span that the `k`-th call uses: the `k`-th of a whole
/// register, and the one member of any other span.
pub open spec fn member(span: Span, k: int) -> usize {
    if span.whole {
        (span.first + k) as usize
    } else {
        span.first
    }
}

/// The `k`-th of the calls into which an operation on the spans unfolds.
pub open spec fn call(spans: Seq<Span>, k: int) -> Seq<usize> {
    Seq::new(spans.len(), |j: int| member(spans[j], k))
}

/// Unfolds an operation on the spans into calls on single members: as many
/// as the whole registers among the spans are wide, which must all have the
/// same width.
pub fn unfold(spans: &Vec<Span>) -> (calls: Result<Vec<Vec<usize>>, QasmSimError>)
    requires
        forall|j: int|
            0 <= j < spans@.len() ==> (#[trigger] spans@[j]).first + spans@[j].width <= usize::MAX,
    ensures
        calls is Ok <==> one_width(spans@),
        calls is Err ==> calls->Err_0 == QasmSimError::WidthMismatch,
        calls is Ok ==> calls->Ok_0@.len() == call_count(spans@) && forall|k: int|
            0 <= k < calls->Ok_0@.len() ==> (#[trigger] calls->Ok_0@[k])@ == call(spans@, k),
{
    let mut common: Option<usize> = None;
    let mut j: usize = 0;
    while j < spans.len()
        invariant
            j <= spans@.len(),
            one_width(spans@.take(j as int)),
            match common {
                Some(width) => has_whole(spans@.take(j as int)) && forall|i: int|
                    0 <= i < j && (#[trigger] spans@[i]).whole ==> spans@[i].width == width,
                None => !has_whole(spans@.take(j as int)),
            },
        decreases spans@.len() - j,
    {
        let ghost before = spans@.take(j as int);
        let ghost after = spans@.take(j + 1);
        if spans[j].whole {
            match common {
                Some(width) => {
                    if spans[j].width != width {
                        proof {
                            let i = choose|i: int| 0 <= i < before.len() && (#[trigger] before[i]).whole;
                            assert(spans@[i].whole && spans@[i].width == width);
                        }
                        return Err(QasmSimError::WidthMismatch);
                    }
                },
                None => {
                    assert forall|i: int| 0 <= i < j implies !(#[trigger] spans@[i]).whole by {
                        assert(before[i] == spans@[i]);
                    }
                    common = Some(spans[j].width);
                },
            }
            proof {
                assert(after[j as int].whole);
            }
        } else {
            proof {
                if has_whole(after) {
                    let i = choose|i: int| 0 <= i < after.len() && (#[trigger] after[i]).whole;
                    assert(before[i].whole);
                }
                if has_whole(before) {
                    let i = choose|i: int| 0 <= i < before.len() && (#[trigger] before[i]).whole;
                    assert(after[i].whole);
                }
            }
        }
        proof {
            assert forall|a: int, b: int|
                0 <= a < b < after.len() && after[a].whole && after[b].whole implies after[a].width
                == after[b].width by {
                assert(after[a] == spans@[a] && after[b] == spans@[b]);
            }
        }
        j += 1;
    }
    proof {
        assert(spans@.take(j as int) =~= spans@);
    }
    let count: usize = match common {
        Some(width) => width,
        None => 1,
    };
    proof {
        if has_whole(spans@) {
            let i = choose|i: int| 0 <= i < spans@.len() && (#[trigger] spans@[i]).whole;
            assert(spans@[i].width == count);
        }
    }
    let mut calls: Vec<Vec<usize>> = Vec::new();
    let mut k: usize = 0;
    while k < count
        invariant
            k <= count,
            calls@.len() == k,
            forall|i: int| 0 <= i < spans@.len() && (#[trigger] spans@[i]).whole ==> spans@[i].width == count,
            forall|i: int|
                0 <= i < spans@.len() ==> (#[trigger] spans@[i]).first + spans@[i].width
                    <= usize::MAX,
            forall|n: int| 0 <= n < k ==> (#[trigger] calls@[n])@ == call(spans@, n),
        decreases count - k,
    {
        let mut members: Vec<usize> = Vec::new();
        let mut i: usize = 0;
        while i < spans.len()
            invariant
                k < count,
                i <= spans@.len(),
                members@.len() == i,
                forall|i: int| 0 <= i < spans@.len() && (#[trigger] spans@[i]).whole ==> spans@[i].width == count,
                forall|i: int|
                    0 <= i < spans@.len() ==> (#[trigger] spans@[i]).first + spans@[i].width
                        <= usize::MAX,
                forall|n: int| 0 <= n < i ==> members@[n] == member(spans@[n], k as int),
            decreases spans@.len() - i,
        {
            if spans[i].whole {
                members.push(spans[i].first + k);
            } else {
                members.push(spans[i].first);
            }
            i += 1;
        }
        proof {
            assert(members@ =~= call(spans@, k as int));
        }
        calls.push(members);
        k += 1;
    }
    Ok(calls)
}

/// The quantum registers of a program, in the order of their declaration:
/// each has a name, the index of its first qubit in the amplitude vector, and
/// a width. The qubits of a register follow those of the registers declared
/// before it.
#[derive(Clone, Debug, PartialEq, Eq)]
pub struct QuantumRegisters {
    entries: Vec<(String, (usize, usize))>,
    size: usize,
}

impl View for QuantumRegisters {
    type V = Map<Seq<char>, (usize, usize)>;

    closed spec fn view(&self) -> Map<Seq<char>, (usize, usize)> {
        named(self.entries@)
    }
}

impl QuantumRegisters {
    /// The number of qubits of all registers together.
    pub closed spec fn spec_size(&self) -> nat {
        self.size as nat
    }

    /// No register stands twice.
    pub closed spec fn inv(&self) -> bool {
        &&& distinct_names(self.entries@)
        &&& forall|i: int|
            0 <= i < self.entries@.len() ==> (#[trigger] self.entries@[i]).1.0
                + self.entries@[i].1.1 <= self.size
    }

    /// No register stands twice, and the qubits of every register are among
    /// those counted.
    pub open spec fn wf(&self) -> bool {
        &&& self.inv()
        &&& forall|name: Seq<char>| #[trigger]
            self@.contains_key(name) ==> self@[name].0 + self@[name].1 <= self.spec_size()
    }

    /// The table without registers.
    pub fn new() -> (table: Self)
        ensures
            table.wf(),
            table@ == Map::<Seq<char>, (usize, usize)>::empty(),
            table.spec_size() == 0,
    {
        let table = QuantumRegisters { entries: Vec::new(), size: 0 };
        assert(table@ =~= Map::<Seq<char>, (usize, usize)>::empty());
        table
    }

    /// The number of qubits of all registers together.
    pub fn size(&self) -> (size: usize)
        ensures
            size == self.spec_size(),
    {
        self.size
    }

    /// Declares the register `name` of `width` qubits, which follow the qubits
    /// declared so far. A name that is taken is refused, and so is a width
    /// with which there are more than `limit` qubits.
    pub fn declare(&mut self, name: String, width: usize, limit: usize) -> (done: Result<
        (),
        QasmSimError,
    >)
        requires
            old(self).wf(),
        ensures
            final(self).wf(),
            done == if old(self)@.contains_key(name@) {
                Err::<(), QasmSimError>(QasmSimError::DuplicateRegister)
            } else if old(self).spec_size() + width > limit {
                Err::<(), QasmSimError>(QasmSimError::TooManyQubits)
            } else {
                Ok::<(), QasmSimError>(())
            },
            done is Ok ==> final(self)@ == old(self)@.insert(
                name@,
                (old(self).spec_size() as usize, width),
            ) && final(self).spec_size() == old(self).spec_size() + width,
            done is Err ==> final(self)@ == old(self)@ && final(self).spec_size() == old(
                self,
            ).spec_size(),
    {
        match position(&self.entries, &name) {
            Some(at) => {
                proof {
                    lemma_named_at(self.entries@, at as int);
                }
                Err(QasmSimError::DuplicateRegister)
            },
            None => {
                if self.size > limit || width > limit - self.size {
                    return Err(QasmSimError::TooManyQubits);
                }
                let start: usize = self.size;
                proof {
                    lemma_named_push(self.entries@, name, (start, width));
                }
                self.entries.push((name, (start, width)));
                self.size = start + width;
                proof {
                    assert forall|other: Seq<char>| #[trigger]
                        self@.contains_key(other) implies self@[other].0 + self@[other].1
                        <= self.spec_size() by {
                        if other != name@ {
                            assert(old(self)@.contains_key(other));
                        }
                    }
                }
                Ok(())
            },
        }
    }

    /// The qubits that `arg` stands for, by their indices in the amplitude
    /// vector.
    pub fn resolve(&self, arg: &Argument) -> (span: Result<Span, QasmSimError>)
        requires
            self.wf(),
        ensures
            span == resolved(self@, *arg),
            span is Ok ==> span->Ok_0.first + span->Ok_0.width <= self.spec_size(),
    {
        match arg {
            Argument::Id(name) => match position(&self.entries, name) {
                Some(at) => {
                    proof {
                        lemma_named_at(self.entries@, at as int);
                    }
                    let (first, width) = self.entries[at].1;
                    Ok(Span { first, width, whole: true })
                },
                None => Err(QasmSimError::UnknownRegister),
            },
            Argument::Item(name, index) => match position(&self.entries, name) {
                Some(at) => {
                    proof {
                        lemma_named_at(self.entries@, at as int);
                    }
                    let (first, width) = self.entries[at].1;
                    if *index >= width {
                        Err(QasmSimError::IndexOutOfRange)
                    } else {
                        Ok(Span { first: first + *index, width: 1, whole: false })
                    }
                },
                None => Err(QasmSimError::UnknownRegister),
            },
        }
    }
    /// Unfolds an operation on the arguments `args` into calls on single
    /// qubits, each given by its index in the amplitude vector.
    pub fn broadcast(&self, args: &Vec<Argument>) -> (calls: Result<Vec<Vec<usize>>, QasmSimError>)
        requires
            self.wf(),
        ensures
            match resolved_all(self@, args@) {
                Err(reason) => calls == Err::<Vec<Vec<usize>>, QasmSimError>(reason),
                Ok(spans) => if one_width(spans) {
                    &&& calls is Ok
                    &&& calls->Ok_0@.len() == call_count(spans)
                    &&& forall|k: int|
                        0 <= k < calls->Ok_0@.len() ==> (#[trigger] calls->Ok_0@[k])@ == call(
                            spans,
                            k,
                        )
                } else {
                    calls == Err::<Vec<Vec<usize>>, QasmSimError>(QasmSimError::WidthMismatch)
                },
            },
    {
        let mut spans: Vec<Span> = Vec::new();
        let mut j: usize = 0;
        while j < args.len()
            invariant
                self.wf(),
                j <= args@.len(),
                resolved_all(self@, args@.take(j as int)) == Ok::<Seq<Span>, QasmSimError>(spans@),
                forall|i: int|
                    0 <= i < spans@.len() ==> (#[trigger] spans@[i]).first + spans@[i].width
                        <= usize::MAX,
            decreases args@.len() - j,
        {
            proof {
                assert(args@.take(j + 1).drop_last() =~= args@.take(j as int));
                assert(args@.take(j + 1).last() == args@[j as int]);
            }
            match self.resolve(&args[j]) {
                Ok(span) => {
                    spans.push(span);
                },
                Err(reason) => {
                    proof {
                        lemma_resolved_all_fails(self@, args@, j + 1);
                    }
                    return Err(reason);
                },
            }
            j += 1;
        }
        proof {
            assert(args@.take(j as int) =~= args@);
        }
        unfold(&spans)
    }
}

/// Where the first arguments have no spans, for some reason, the whole list
/// has none, for the same reason.
proof fn lemma_resolved_all_fails(
    table: Map<Seq<char>, (usize, usize)>,
    args: Seq<Argument>,
    upto: int,
)
    requires
        0 <= upto <= args.len(),
        resolved_all(table, args.take(upto)) is Err,
    ensures
        resolved_all(table, args) == resolved_all(table, args.take(upto)),
    decreases args.len() - upto,
{
    if upto < args.len() {
        assert(args.take(upto + 1).drop_last() =~= args.take(upto));
        lemma_resolved_all_fails(table, args, upto + 1);
    } else {
        assert(args.take(upto) =~= args);
    }
}

/// `value` with its bit `index` made `bit`.
pub open spec fn with_bit_written(value: u64, index: u64, bit: bool) -> u64 {
    if bit {
        value | (1u64 << index)
    } else {
        value & !(1u64 << index)
    }
}

/// The bits of each register of a classical table as a span from bit 0 on.
pub open spec fn bit_spans(table: Map<Seq<char>, (usize, u64)>) -> Map<Seq<char>, (usize, usize)> {
    Map::new(|name: Seq<char>| table.contains_key(name), |name: Seq<char>| (0usize, table[name].0))
}

/// The value of each register of a classical table.
pub open spec fn values(table: Map<Seq<char>, (usize, u64)>) -> Map<Seq<char>, u64> {
    Map::new(|name: Seq<char>| table.contains_key(name), |name: Seq<char>| table[name].1)
}

/// The classical registers of a program, in the order of their declaration:
/// each has a name, a width of at most 64 bits, and a value, whose bit `k` is
/// bit `k` of the register.
#[derive(Clone, Debug, PartialEq, Eq)]
pub struct ClassicalRegisters {
    entries: Vec<(String, (usize, u64))>,
}

impl View for ClassicalRegisters {
    type V = Map<Seq<char>, (usize, u64)>;

    closed spec fn view(&self) -> Map<Seq<char>, (usize, u64)> {
        named(self.entries@)
    }
}

impl ClassicalRegisters {
    /// No register stands twice, and none is wider than 64 bits.
    pub closed spec fn inv(&self) -> bool {
        &&& distinct_names(self.entries@)
        &&& forall|i: int| 0 <= i < self.entries@.len() ==> (#[trigger] self.entries@[i]).1.0 <= 64
    }

    /// No register stands twice, and none is wider than 64 bits.
    pub open spec fn wf(&self) -> bool {
        &&& self.inv()
        &&& forall|name: Seq<char>| #[trigger] self@.contains_key(name) ==> self@[name].0 <= 64
    }

    /// The table without registers.
    pub fn new() -> (table: Self)
        ensures
            table.wf(),
            table@ == Map::<Seq<char>, (usize, u64)>::empty(),
    {
        let table = ClassicalRegisters { entries: Vec::new() };
        assert(table@ =~= Map::<Seq<char>, (usize, u64)>::empty());
        table
    }

    /// Declares the register `name` of `width` bits, with the value 0. A name
    /// that is taken is refused.
    pub fn declare(&mut self, name: String, width: usize) -> (done: Result<(), QasmSimError>)
        requires
            old(self).wf(),
            width <= 64,
        ensures
            final(self).wf(),
            done == if old(self)@.contains_key(name@) {
                Err::<(), QasmSimError>(QasmSimError::DuplicateRegister)
            } else {
                Ok::<(), QasmSimError>(())
            },
            done is Ok ==> final(self)@ == old(self)@.insert(name@, (width, 0u64)),
            done is Err ==> final(self)@ == old(self)@,
    {
        match position(&self.entries, &name) {
            Some(at) => {
                proof {
                    lemma_named_at(self.entries@, at as int);
                }
                Err(QasmSimError::DuplicateRegister)
            },
            None => {
                proof {
                    lemma_named_push(self.entries@, name, (width, 0u64));
                }
                self.entries.push((name, (width, 0)));
                proof {
                    assert forall|other: Seq<char>| #[trigger]
                        self@.contains_key(other) implies self@[other].0 <= 64 by {
                        if other != name@ {
                            assert(old(self)@.contains_key(other));
                        }
                    }
                }
                Ok(())
            },
        }
    }

    /// The bits that `arg` stands for, by their indices in their register.
    pub fn resolve(&self, arg: &Argument) -> (span: Result<Span, QasmSimError>)
        requires
            self.wf(),
        ensures
            span == resolved(bit_spans(self@), *arg),
            span is Ok ==> span->Ok_0.first + span->Ok_0.width <= 64,
    {
        match arg {
            Argument::Id(name) => match position(&self.entries, name) {
                Some(at) => {
                    proof {
                        lemma_named_at(self.entries@, at as int);
                    }
                    Ok(Span { first: 0, width: self.entries[at].1.0, whole: true })
                },
                None => Err(QasmSimError::UnknownRegister),
            },
            Argument::Item(name, index) => match position(&self.entries, name) {
                Some(at) => {
                    proof {
                        lemma_named_at(self.entries@, at as int);
                    }
                    if *index >= self.entries[at].1.0 {
                        Err(QasmSimError::IndexOutOfRange)
                    } else {
                        Ok(Span { first: *index, width: 1, whole: false })
                    }
                },
                None => Err(QasmSimError::UnknownRegister),
            },
        }
    }

    /// The value of the register `name`.
    pub fn value(&self, name: &String) -> (value: Result<u64, QasmSimError>)
        requires
            self.wf(),
        ensures
            value == if self@.contains_key(name@) {
                Ok::<u64, QasmSimError>(self@[name@].1)
            } else {
                Err::<u64, QasmSimError>(QasmSimError::UnknownRegister)
            },
    {
        match position(&self.entries, name) {
            Some(at) => {
                proof {
                    lemma_named_at(self.entries@, at as int);
                }
                Ok(self.entries[at].1.1)
            },
            None => Err(QasmSimError::UnknownRegister),
        }
    }

    /// Writes the outcome of a measurement to bit `index` of the register
    /// `name`: sets the bit where the outcome is 1, clears it where it is 0.
    pub fn write_bit(&mut self, name: &String, index: usize, bit: bool) -> (done: Result<
        (),
        QasmSimError,
    >)
        requires
            old(self).wf(),
        ensures
            final(self).wf(),
            done == if !old(self)@.contains_key(name@) {
                Err::<(), QasmSimError>(QasmSimError::UnknownRegister)
            } else if index >= old(self)@[name@].0 {
                Err::<(), QasmSimError>(QasmSimError::IndexOutOfRange)
            } else {
                Ok::<(), QasmSimError>(())
            },
            done is Ok ==> final(self)@ == old(self)@.insert(
                name@,
                (old(self)@[name@].0, with_bit_written(old(self)@[name@].1, index as u64, bit)),
            ),
            done is Err ==> final(self)@ == old(self)@,
    {
        match position(&self.entries, name) {
            Some(at) => {
                proof {
                    lemma_named_at(self.entries@, at as int);
                }
                let (width, value) = self.entries[at].1;
                if index >= width {
                    return Err(QasmSimError::IndexOutOfRange);
                }
                let place: u64 = index as u64;
                let written: u64 = if bit {
                    value | (1u64 << place)
                } else {
                    value & !(1u64 << place)
                };
                proof {
                    lemma_named_update(self.entries@, at as int, (width, written));
                }
                self.entries[at].1 = (width, written);
                proof {
                    assert(self.entries@ =~= old(self).entries@.update(
                        at as int,
                        (old(self).entries@[at as int].0, (width, written)),
                    ));
                    assert forall|other: Seq<char>| #[trigger]
                        self@.contains_key(other) implies self@[other].0 <= 64 by {
                        if other != name@ {
                            assert(old(self)@.contains_key(other));
                        }
                    }
                }
                Ok(())
            },
            None => Err(QasmSimError::UnknownRegister),
        }
    }

    /// The classical memory as it stands: the value of each register.
    pub fn snapshot(&self) -> (memory: Memory)
        requires
            self.wf(),
        ensures
            memory.wf(),
            memory@ == values(self@),
    {
        let mut memory = Memory::new();
        let mut at: usize = 0;
        while at < self.entries.len()
            invariant
                self.inv(),
                memory.wf(),
                at <= self.entries@.len(),
                forall|name: Seq<char>|
                    memory@.contains_key(name) == has_name(self.entries@.take(at as int), name),
                forall|name: Seq<char>| #[trigger]
                    memory@.contains_key(name) ==> memory@[name] == self@[name].1,
            decreases self.entries@.len() - at,
        {
            let ghost before = self.entries@.take(at as int);
            let ghost after = self.entries@.take(at + 1);
            let ghost earlier = memory@;
            proof {
                lemma_named_at(self.entries@, at as int);
            }
            let name = self.entries[at].0.clone();
            memory.insert(name, self.entries[at].1.1);
            proof {
                assert forall|other: Seq<char>|
                    memory@.contains_key(other) == has_name(after, other) by {
                    if has_name(before, other) {
                        let i = index_of_name(before, other);
                        assert(after[i].0@ == other);
                    }
                    if other == name@ {
                        assert(after[at as int].0@ == other);
                    }
                    if has_name(after, other) {
                        let i = index_of_name(after, other);
                        if i < at {
                            assert(before[i].0@ == other);
                        }
                    }
                }
            }
            at += 1;
        }
        proof {
            assert(self.entries@.take(at as int) =~= self.entries@);
            assert(memory@ =~= values(self@));
        }
        memory
    }
}

/// Pairs the qubits of a measurement with the bits that take their outcomes:
/// one qubit with one bit, or the qubits of a whole register with the bits of
/// a whole register of the same width, each with the bit of its own index.
pub open spec fn paired(qubits: Span, bits: Span) -> Result<Seq<(usize, usize)>, QasmSimError> {
    if qubits.whole == bits.whole && qubits.width == bits.width {
        Ok(
            Seq::new(
                qubits.width as nat,
                |k: int| ((qubits.first + k) as usize, (bits.first + k) as usize),
            ),
        )
    } else {
        Err(QasmSimError::WidthMismatch)
    }
}

/// Pairs the qubits of a measurement with the bits that take their outcomes.
pub fn measure_pairs(qubits: &Span, bits: &Span) -> (pairs: Result<Vec<(usize, usize)>, QasmSimError>)
    requires
        qubits.first + qubits.width <= usize::MAX,
        bits.first + bits.width <= usize::MAX,
    ensures
        match paired(*qubits, *bits) {
            Ok(expected) => pairs is Ok && pairs->Ok_0@ == expected,
            Err(reason) => pairs == Err::<Vec<(usize, usize)>, QasmSimError>(reason),
        },
{
    if qubits.whole != bits.whole || qubits.width != bits.width {
        return Err(QasmSimError::WidthMismatch);
    }
    let mut pairs: Vec<(usize, usize)> = Vec::new();
    let mut k: usize = 0;
    while k < qubits.width
        invariant
            qubits.width == bits.width,
            qubits.first + qubits.width <= usize::MAX,
            bits.first + bits.width <= usize::MAX,
            k <= qubits.width,
            pairs@.len() == k,
            forall|n: int|
                0 <= n < k ==> #[trigger] pairs@[n] == (
                    (qubits.first + n) as usize,
                    (bits.first + n) as usize,
                ),
        decreases qubits.width - k,
    {
        pairs.push((qubits.first + k, bits.first + k));
        k += 1;
    }
    proof {
        assert(pairs@ =~= paired(*qubits, *bits)->Ok_0);
    }
    Ok(pairs)
}

} // verus!
