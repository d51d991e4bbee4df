//! Lists of named values in which no name stands twice, and the mappings from
//! names to values that they stand for.

use vstd::prelude::*;

verus! {

/// No name stands twice in a list of named values.
pub open spec fn distinct_names<V>(entries: Seq<(String, V)>) -> bool {
    forall|i: int, j: int| 0 <= i < j < entries.len() ==> entries[i].0@ != entries[j].0@
}

/// Whether a list of named values holds `name`.
pub open spec fn has_name<V>(entries: Seq<(String, V)>, name: Seq<char>) -> bool {
    exists|i: int| 0 <= i < entries.len() && #[trigger] entries[i].0@ == name
}

/// The place of `name` in a list of named values that holds it.
pub open spec fn index_of_name<V>(entries: Seq<(String, V)>, name: Seq<char>) -> int {
    choose|i: int| 0 <= i < entries.len() && #[trigger] entries[i].0@ == name
}

/// The mapping from names to values that a list of named values stands for.
pub open spec fn named<V>(entries: Seq<(String, V)>) -> Map<Seq<char>, V> {
    Map::new(
        |name: Seq<char>| has_name(entries, name),
        |name: Seq<char>| entries[index_of_name(entries, name)].1,
    )
}

/// Where no name stands twice, each entry is what its name maps to.
pub proof fn lemma_named_at<V>(entries: Seq<(String, V)>, at: int)
    requires
        distinct_names(entries),
        0 <= at < entries.len(),
    ensures
        named(entries).contains_key(entries[at].0@),
        named(entries)[entries[at].0@] == entries[at].1,
{
    let name = entries[at].0@;
    assert(has_name(entries, name));
    let found = index_of_name(entries, name);
    assert(found == at);
}

/// A new value under a name that the list holds changes the mapping at that
/// name only.
pub proof fn lemma_named_update<V>(entries: Seq<(String, V)>, at: int, value: V)
    requires
        distinct_names(entries),
        0 <= at < entries.len(),
    ensures
        distinct_names(entries.update(at, (entries[at].0, value))),
        named(entries.update(at, (entries[at].0, value))) == named(entries).insert(
            entries[at].0@,
            value,
        ),
{
    let changed = entries.update(at, (entries[at].0, value));
    assert forall|name: Seq<char>| has_name(changed, name) == has_name(entries, name) by {
        if has_name(entries, name) {
            let i = index_of_name(entries, name);
            assert(changed[i].0@ == name);
        }
        if has_name(changed, name) {
            let i = index_of_name(changed, name);
            assert(entries[i].0@ == name);
        }
    }
    assert forall|name: Seq<char>| has_name(changed, name) implies #[trigger] named(changed)[name]
        == named(entries).insert(entries[at].0@, value)[name] by {
        let i = index_of_name(changed, name);
        assert(entries[i].0@ == name);
        lemma_named_at(entries, i);
        lemma_named_at(changed, i);
    }
    assert(named(changed) =~= named(entries).insert(entries[at].0@, value));
}

/// A value under a new name extends the mapping by that name.
pub proof fn lemma_named_push<V>(entries: Seq<(String, V)>, name: String, value: V)
    requires
        distinct_names(entries),
        !has_name(entries, name@),
    ensures
        distinct_names(entries.push((name, value))),
        named(entries.push((name, value))) == named(entries).insert(name@, value),
{
    let grown = entries.push((name, value));
    assert forall|i: int, j: int| 0 <= i < j < grown.len() implies grown[i].0@ != grown[j].0@ by {
        if j == entries.len() {
            assert(entries[i].0@ != name@);
        }
    }
    assert forall|other: Seq<char>|
        has_name(grown, other) == (has_name(entries, other) || other == name@) by {
        if has_name(entries, other) {
            let i = index_of_name(entries, other);
            assert(grown[i].0@ == other);
        }
        if other == name@ {
            assert(grown[entries.len() as int].0@ == other);
        }
        if has_name(grown, other) {
            let i = index_of_name(grown, other);
            if i < entries.len() {
                assert(entries[i].0@ == other);
            }
        }
    }
    assert forall|other: Seq<char>| has_name(grown, other) implies #[trigger] named(grown)[other]
        == named(entries).insert(name@, value)[other] by {
        let i = index_of_name(grown, other);
        lemma_named_at(grown, i);
        if i < entries.len() {
            assert(entries[i].0@ == other);
            lemma_named_at(entries, i);
        }
    }
    assert(named(grown) =~= named(entries).insert(name@, value));
}

/// Finds the place of `name` in a list of named values.
pub fn position<V>(entries: &Vec<(String, V)>, name: &String) -> (found: Option<usize>)
    ensures
        match found {
            Some(at) => at < entries@.len() && entries@[at as int].0@ == name@,
            None => !has_name(entries@, name@),
        },
{
    position_before(entries, entries.len(), name)
}

/// Finds the place of `name` among the first `end` of a list of named values.
pub fn position_before<V>(entries: &Vec<(String, V)>, end: usize, name: &String) -> (found: Option<
    usize,
>)
    requires
        end <= entries@.len(),
    ensures
        match found {
            Some(at) => at < end && entries@[at as int].0@ == name@,
            None => forall|i: int| 0 <= i < end ==> entries@[i].0@ != name@,
        },
{
    let mut at: usize = 0;
    while at < end
        invariant
            at <= end <= entries@.len(),
            forall|i: int| 0 <= i < at ==> entries@[i].0@ != name@,
        decreases end - at,
    {
        if entries[at].0 == *name {
            return Some(at);
        }
        at += 1;
    }
    None
}

} // verus!
