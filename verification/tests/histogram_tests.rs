use qasmsim::interpreter::computation::{Computation, Histogram, HistogramBuilder};
use qasmsim::interpreter::memory::Memory;
use qasmsim::interpreter::names::{position, position_before};
use qasmsim::interpreter::outcomes::{count_outcome, is_ascending};
use qasmsim::statevector::StateVector;

fn memory_of(pairs: Vec<(&str, u64)>) -> Memory {
    let mut memory = Memory::new();
    for (name, value) in pairs {
        memory.insert(name.to_string(), value);
    }
    memory
}

fn table_of(pairs: Vec<(&str, Vec<(u64, usize)>)>) -> Vec<(String, Vec<(u64, usize)>)> {
    pairs.into_iter().map(|(name, table)| (name.to_string(), table)).collect()
}

#[test]
fn test_histogram_builder_empty_histogram() {
    let builder = HistogramBuilder::new();
    let histogram = builder.histogram();
    assert_eq!(histogram.into_entries(), table_of(vec![]));
}

#[test]
fn default_builder_has_collected_nothing() {
    let builder: HistogramBuilder = Default::default();
    assert_eq!(builder, HistogramBuilder::new());
    assert_eq!(builder.shots(), 0);
}

#[test]
fn test_histogram_builder_one_update() {
    let mut builder = HistogramBuilder::new();
    builder.update(&memory_of(vec![("a", 1)]));
    let histogram = builder.histogram();
    assert_eq!(histogram.into_entries(), table_of(vec![("a", vec![(1, 1)])]));
}

#[test]
fn test_histogram_builder_couple_of_updates() {
    let mut builder = HistogramBuilder::new();
    builder.update(&memory_of(vec![("a", 1)]));
    builder.update(&memory_of(vec![("a", 1)]));
    let histogram = builder.histogram();
    assert_eq!(histogram.into_entries(), table_of(vec![("a", vec![(1, 2)])]));
}

#[test]
fn test_histogram_builder_couple_of_registers() {
    let mut builder = HistogramBuilder::new();
    builder.update(&memory_of(vec![("a", 1)]));
    builder.update(&memory_of(vec![("b", 1)]));
    let histogram = builder.histogram();
    assert_eq!(
        histogram.into_entries(),
        table_of(vec![("a", vec![(1, 1)]), ("b", vec![(1, 1)])])
    );
}

#[test]
fn test_histogram_builder_different_values() {
    let mut builder = HistogramBuilder::new();
    builder.update(&memory_of(vec![("a", 5)]));
    builder.update(&memory_of(vec![("b", 4)]));
    builder.update(&memory_of(vec![("a", 3)]));
    builder.update(&memory_of(vec![("b", 2)]));
    let histogram = builder.histogram();
    assert_eq!(
        histogram.into_entries(),
        table_of(vec![("a", vec![(3, 1), (5, 1)]), ("b", vec![(2, 1), (4, 1)])])
    );
}

#[test]
fn test_histogram_builder_different_repeated_values() {
    let mut builder = HistogramBuilder::new();
    builder.update(&memory_of(vec![("a", 5)]));
    builder.update(&memory_of(vec![("b", 4)]));
    builder.update(&memory_of(vec![("a", 5)]));
    builder.update(&memory_of(vec![("b", 2)]));
    let histogram = builder.histogram();
    assert_eq!(
        histogram.into_entries(),
        table_of(vec![("a", vec![(5, 2)]), ("b", vec![(2, 1), (4, 1)])])
    );
}

#[test]
fn histogram_counts_each_register_of_a_shot_once() {
    let mut builder = HistogramBuilder::new();
    builder.update(&memory_of(vec![("c", 3), ("d", 0)]));
    builder.update(&memory_of(vec![("c", 1), ("d", 0)]));
    builder.update(&memory_of(vec![("c", 3), ("d", 2)]));
    assert_eq!(builder.shots(), 3);
    let histogram = builder.histogram();
    assert_eq!(histogram.get(&"c".to_string()), Some(&vec![(1, 1), (3, 2)]));
    assert_eq!(histogram.get(&"d".to_string()), Some(&vec![(0, 2), (2, 1)]));
    assert_eq!(histogram.get(&"e".to_string()), None);
}

#[test]
fn histogram_tables_are_ascending_and_sum_to_the_shots() {
    let values: Vec<u64> = vec![7, 2, 9, 2, 7, 7, 0, 5, 9, 1, 0, 7];
    let mut builder = HistogramBuilder::new();
    for value in &values {
        builder.update(&memory_of(vec![("c", *value)]));
    }
    assert_eq!(builder.shots(), values.len());
    let table = builder.histogram().get(&"c".to_string()).unwrap().clone();
    assert_eq!(table, vec![(0, 2), (1, 1), (2, 2), (5, 1), (7, 4), (9, 2)]);
    for pair in table.windows(2) {
        assert!(pair[0].0 < pair[1].0);
    }
    assert_eq!(table.iter().map(|entry| entry.1).sum::<usize>(), values.len());
}

#[test]
fn count_outcome_inserts_at_both_ends_and_in_the_middle() {
    let mut table: Vec<(u64, usize)> = vec![];
    count_outcome(&mut table, 5);
    assert_eq!(table, vec![(5, 1)]);
    count_outcome(&mut table, 9);
    assert_eq!(table, vec![(5, 1), (9, 1)]);
    count_outcome(&mut table, 1);
    assert_eq!(table, vec![(1, 1), (5, 1), (9, 1)]);
    count_outcome(&mut table, 7);
    assert_eq!(table, vec![(1, 1), (5, 1), (7, 1), (9, 1)]);
    count_outcome(&mut table, 9);
    count_outcome(&mut table, 1);
    count_outcome(&mut table, u64::MAX);
    assert_eq!(table, vec![(1, 2), (5, 1), (7, 1), (9, 2), (u64::MAX, 1)]);
}

#[test]
fn memory_keeps_the_last_value_of_a_register() {
    let mut memory = Memory::new();
    assert_eq!(memory.get(&"c".to_string()), None);
    assert_eq!(memory.insert("c".to_string(), 2), None);
    assert_eq!(memory.insert("d".to_string(), 1), None);
    assert_eq!(memory.insert("c".to_string(), 3), Some(2));
    assert_eq!(memory.get(&"c".to_string()), Some(3));
    assert_eq!(memory.get(&"d".to_string()), Some(1));
    assert_eq!(memory.get(&"".to_string()), None);
}

#[test]
fn position_finds_the_first_and_the_last_name() {
    let entries: Vec<(String, u64)> =
        vec![("a".to_string(), 1), ("b".to_string(), 2), ("c".to_string(), 3)];
    assert_eq!(position(&entries, &"a".to_string()), Some(0));
    assert_eq!(position(&entries, &"c".to_string()), Some(2));
    assert_eq!(position(&entries, &"d".to_string()), None);
}

#[test]
fn computation_hands_back_its_parts() {
    let statevector = StateVector::new(1).unwrap();
    let memory = memory_of(vec![("c", 1)]);
    let mut builder = HistogramBuilder::new();
    builder.update(&memory);
    let histogram = builder.histogram();
    let result = Computation::new(memory.clone(), statevector.clone(), Some(histogram.clone()));
    assert_eq!(result.statevector(), &statevector);
    assert_eq!(result.memory(), &memory);
    assert_eq!(result.histogram(), &Some(histogram));
    let single = Computation::new(memory, statevector, None);
    assert_eq!(single.histogram(), &None);
}

#[test]
fn histogram_from_entries_wants_distinct_names_and_ascending_values() {
    let good = table_of(vec![("a", vec![(1, 2), (3, 1)]), ("b", vec![])]);
    let histogram = Histogram::from_entries(good.clone()).unwrap();
    assert_eq!(histogram.get(&"a".to_string()), Some(&vec![(1, 2), (3, 1)]));
    assert_eq!(histogram.get(&"b".to_string()), Some(&vec![]));
    assert_eq!(histogram.into_entries(), good);
    assert_eq!(
        Histogram::from_entries(table_of(vec![("a", vec![]), ("b", vec![]), ("a", vec![])])),
        None
    );
    assert_eq!(
        Histogram::from_entries(table_of(vec![("a", vec![(3, 1), (1, 2)])])),
        None
    );
    assert_eq!(
        Histogram::from_entries(table_of(vec![("a", vec![(1, 1), (1, 2)])])),
        None
    );
}

#[test]
fn is_ascending_wants_each_value_above_the_one_before() {
    assert!(is_ascending(&vec![]));
    assert!(is_ascending(&vec![(4, 1)]));
    assert!(is_ascending(&vec![(1, 9), (2, 1), (7, 3)]));
    assert!(!is_ascending(&vec![(1, 1), (2, 1), (2, 1)]));
    assert!(!is_ascending(&vec![(2, 1), (1, 1), (3, 1)]));
}

#[test]
fn position_before_looks_at_the_head_only() {
    let entries: Vec<(String, u64)> =
        vec![("a".to_string(), 1), ("b".to_string(), 2), ("c".to_string(), 3)];
    assert_eq!(position_before(&entries, 2, &"b".to_string()), Some(1));
    assert_eq!(position_before(&entries, 2, &"c".to_string()), None);
    assert_eq!(position_before(&entries, 0, &"a".to_string()), None);
}

#[test]
fn memory_hands_out_its_registers_in_order() {
    let memory = memory_of(vec![("c", 3), ("a", 1), ("c", 2)]);
    assert_eq!(
        memory.entries(),
        &vec![("c".to_string(), 2), ("a".to_string(), 1)]
    );
    assert_eq!(
        memory.into_entries(),
        vec![("c".to_string(), 2), ("a".to_string(), 1)]
    );
}
