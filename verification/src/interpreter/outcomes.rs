//! Tables of outcomes: the values that a classical register ended with and how
//! often each was seen, ascending by value.

use vstd::prelude::*;

verus! {

/// The outcomes of a table are strictly ascending.
pub open spec fn ascending(table: Seq<(u64, usize)>) -> bool {
    forall|i: int, j: int| 0 <= i < j < table.len() ==> table[i].0 < table[j].0
}

/// The sum of the counts of a table.
pub open spec fn total(table: Seq<(u64, usize)>) -> nat
    decreases table.len(),
{
    if table.len() == 0 {
        0
    } else {
        total(table.drop_last()) + table.last().1 as nat
    }
}

/// The number of entries at the head of a table whose outcome is below
/// `value`: in an ascending table, the place where `value` stands or belongs.
pub open spec fn rank(table: Seq<(u64, usize)>, value: u64) -> int
    decreases table.len(),
{
    if table.len() == 0 || table[0].0 >= value {
        0
    } else {
        1 + rank(table.drop_first(), value)
    }
}

/// The table after one more occurrence of `value`: its count is one higher
/// where the table has it, and it enters with count 1, at its place, where not.
pub open spec fn counted(table: Seq<(u64, usize)>, value: u64) -> Seq<(u64, usize)> {
    let at = rank(table, value);
    if at < table.len() && table[at].0 == value {
        table.update(at, (value, (table[at].1 + 1) as usize))
    } else {
        table.insert(at, (value, 1usize))
    }
}

/// In an ascending table, the index from which the outcomes are no longer
/// below `value` is the rank of `value`.
pub proof fn lemma_rank(table: Seq<(u64, usize)>, value: u64, at: int)
    requires
        ascending(table),
        0 <= at <= table.len(),
        forall|i: int| 0 <= i < at ==> table[i].0 < value,
        at < table.len() ==> table[at].0 >= value,
    ensures
        rank(table, value) == at,
    decreases table.len(),
{
    if table.len() != 0 && table[0].0 < value {
        let rest = table.drop_first();
        assert(at > 0);
        assert forall|i: int| 0 <= i < at - 1 implies rest[i].0 < value by {
            assert(rest[i] == table[i + 1]);
        }
        lemma_rank(rest, value, at - 1);
    } else if table.len() != 0 {
        if at > 0 {
            assert(table[0].0 < value);
        }
    }
}

/// Replacing one count changes the total by the difference.
pub proof fn lemma_total_update(table: Seq<(u64, usize)>, at: int, entry: (u64, usize))
    requires
        0 <= at < table.len(),
    ensures
        total(table.update(at, entry)) == total(table) - table[at].1 + entry.1,
        table[at].1 <= total(table),
    decreases table.len(),
{
    let changed = table.update(at, entry);
    if at == table.len() - 1 {
        assert(changed.drop_last() =~= table.drop_last());
    } else {
        assert(changed.drop_last() =~= table.drop_last().update(at, entry));
        lemma_total_update(table.drop_last(), at, entry);
    }
}

/// A new entry adds its count to the total.
pub proof fn lemma_total_insert(table: Seq<(u64, usize)>, at: int, entry: (u64, usize))
    requires
        0 <= at <= table.len(),
    ensures
        total(table.insert(at, entry)) == total(table) + entry.1,
    decreases table.len(),
{
    let grown = table.insert(at, entry);
    if at == table.len() {
        assert(grown.drop_last() =~= table);
    } else {
        assert(grown.drop_last() =~= table.drop_last().insert(at, entry));
        assert(grown.last() == table.last());
        lemma_total_insert(table.drop_last(), at, entry);
    }
}

/// Counting one more occurrence keeps a table ascending and raises its total
/// by one, as long as the total fits a machine word.
pub proof fn lemma_counted(table: Seq<(u64, usize)>, value: u64)
    requires
        ascending(table),
        total(table) < usize::MAX,
    ensures
        ascending(counted(table, value)),
        total(counted(table, value)) == total(table) + 1,
{
    let at = lemma_rank_splits(table, value);
    if at < table.len() && table[at].0 == value {
        lemma_total_update(table, at, table[at]);
        lemma_total_update(table, at, (value, (table[at].1 + 1) as usize));
    } else {
        lemma_total_insert(table, at, (value, 1usize));
    }
}

/// In an ascending table the rank of `value` splits the outcomes below `value`
/// from the others.
pub proof fn lemma_rank_splits(table: Seq<(u64, usize)>, value: u64) -> (at: int)
    requires
        ascending(table),
    ensures
        at == rank(table, value),
        0 <= at <= table.len(),
        forall|i: int| 0 <= i < at ==> table[i].0 < value,
        forall|i: int| at <= i < table.len() ==> table[i].0 >= value,
    decreases table.len(),
{
    if table.len() == 0 || table[0].0 >= value {
        0
    } else {
        let rest = table.drop_first();
        assert forall|i: int, j: int| 0 <= i < j < rest.len() implies rest[i].0 < rest[j].0 by {
            assert(rest[i] == table[i + 1] && rest[j] == table[j + 1]);
        }
        let below = lemma_rank_splits(rest, value);
        assert forall|i: int| 0 <= i < below + 1 implies table[i].0 < value by {
            if i > 0 {
                assert(rest[i - 1] == table[i]);
            }
        }
        assert forall|i: int| below + 1 <= i < table.len() implies table[i].0 >= value by {
            assert(rest[i - 1] == table[i]);
        }
        below + 1
    }
}

/// Counts one more occurrence of `value` in an ascending table.
pub fn count_outcome(table: &mut Vec<(u64, usize)>, value: u64)
    requires
        ascending(old(table)@),
        total(old(table)@) < usize::MAX,
    ensures
        final(table)@ == counted(old(table)@, value),
{
    let mut low: usize = 0;
    let mut high: usize = table.len();
    while low < high
        invariant
            *table == *old(table),
            ascending(table@),
            0 <= low <= high <= table@.len(),
            forall|i: int| 0 <= i < low ==> table@[i].0 < value,
            forall|i: int| high <= i < table@.len() ==> table@[i].0 >= value,
        decreases high - low,
    {
        let middle: usize = low + (high - low) / 2;
        if table[middle].0 < value {
            low = middle + 1;
        } else {
            high = middle;
        }
    }
    proof {
        lemma_rank(table@, value, low as int);
    }
    if low < table.len() && table[low].0 == value {
        proof {
            lemma_total_update(table@, low as int, table@[low as int]);
        }
        let seen: usize = table[low].1;
        table[low] = (value, seen + 1);
    } else {
        table.insert(low, (value, 1));
    }
}

/// Whether the outcomes of a table are strictly ascending.
pub fn is_ascending(table: &Vec<(u64, usize)>) -> (r: bool)
    ensures
        r == ascending(table@),
{
    let mut at: usize = 1;
    while at < table.len()
        invariant
            1 <= at,
            forall|i: int, j: int| 0 <= i < j < at && j < table@.len() ==> table@[i].0 < table@[j].0,
        decreases table@.len() - at,
    {
        if table[at - 1].0 >= table[at].0 {
            return false;
        }
        proof {
            assert forall|i: int, j: int| 0 <= i < j < at + 1 && j < table@.len() implies table@[i].0
                < table@[j].0 by {
                if j == at && i < at - 1 {
                    assert(table@[i].0 < table@[at - 1].0);
                }
            }
        }
        at += 1;
    }
    true
}

} // verus!
