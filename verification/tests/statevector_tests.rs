use complex::c64;
use qasmsim::amplitude::apply_row;
use qasmsim::bits::{power_of_two, test_bit, with_bit};
use qasmsim::error::QasmSimError;
use qasmsim::statevector::{find_exchangeable_rows, find_target_rows, StateVector, MAX_QUBITS};
use std::f64::consts::{FRAC_1_SQRT_2, PI};

fn e_power_to(x: f64) -> c64 {
    c64(x.cos(), x.sin())
}

fn build_u(theta: f64, phi: f64, lambda: f64) -> (c64, c64, c64, c64) {
    (
        c64((theta / 2.0).cos(), 0.0),
        -e_power_to(lambda) * (theta / 2.0).sin(),
        e_power_to(phi) * (theta / 2.0).sin(),
        e_power_to(phi + lambda) * (theta / 2.0).cos(),
    )
}

fn amplitudes(statevector: &StateVector) -> Vec<c64> {
    statevector.clone().into_bases()
}

fn assert_approx_eq(statevector: &StateVector, expected: &[c64]) {
    let found = amplitudes(statevector);
    assert_eq!(found.len(), expected.len());
    for (a, b) in found.iter().zip(expected) {
        assert!((a.0 - b.0).abs() < 1e-10, "{:?} against {:?}", found, expected);
        assert!((a.1 - b.1).abs() < 1e-10, "{:?} against {:?}", found, expected);
    }
}

#[test]
fn test_cnot_c0t1() {
    let p = c64(0.0, 0.0);
    let a = c64(1.0, 0.0);
    let b = c64(0.0, 1.0);
    let v = StateVector::from_bases(vec![p, a, p, b]).cnot(0, 1);
    assert_eq!(v, StateVector::from_bases(vec![p, b, p, a]));
}

#[test]
fn test_cnot_c1t0_of_2_bits() {
    let p = c64(0.0, 0.0);
    let a = c64(1.0, 0.0);
    let b = c64(0.0, 1.0);
    let v = StateVector::from_bases(vec![p, p, a, b]).cnot(1, 0);
    assert_eq!(v, StateVector::from_bases(vec![p, p, b, a]));
}

#[test]
fn test_cnot_c2t0_of_3_bits() {
    let p = c64(0.0, 0.0);
    let a = c64(1.0, 0.0);
    let b = c64(0.0, 1.0);
    let v = StateVector::from_bases(vec![p, p, p, p, a, b, a, b]).cnot(2, 0);
    assert_eq!(v, StateVector::from_bases(vec![p, p, p, p, b, a, b, a]));
}

#[test]
fn test_cnot_c0t2_of_3_bits() {
    let p = c64(0.0, 0.0);
    let a = c64(1.0, 0.0);
    let b = c64(0.0, 1.0);
    let v = StateVector::from_bases(vec![p, a, p, a, p, b, p, b]).cnot(0, 2);
    assert_eq!(v, StateVector::from_bases(vec![p, b, p, b, p, a, p, a]));
}

#[test]
fn test_cnot_is_reversible() {
    let p = c64(0.0, 0.0);
    let a = c64(1.0, 0.0);
    let b = c64(0.0, 1.0);
    let v = StateVector::from_bases(vec![p, a, p, b]).cnot(0, 1).cnot(0, 1);
    assert_eq!(v, StateVector::from_bases(vec![p, a, p, b]));
}

#[test]
fn cnot_twice_gives_back_eight_distinct_amplitudes() {
    let bases: Vec<c64> = (0..8).map(|i| c64(i as f64, -(i as f64))).collect();
    for (c, t) in [(0, 1), (0, 2), (1, 0), (1, 2), (2, 0), (2, 1)] {
        let once = StateVector::from_bases(bases.clone()).cnot(c, t);
        assert_ne!(once, StateVector::from_bases(bases.clone()));
        assert_eq!(once.cnot(c, t), StateVector::from_bases(bases.clone()));
    }
}

#[test]
fn cnot_moves_each_amplitude_of_three_qubits() {
    let bases: Vec<c64> = (0..8).map(|i| c64(i as f64, 0.0)).collect();
    let expected: Vec<c64> =
        [0, 1, 6, 7, 4, 5, 2, 3].iter().map(|i| c64(*i as f64, 0.0)).collect();
    assert_eq!(
        StateVector::from_bases(bases).cnot(1, 2),
        StateVector::from_bases(expected)
    );
}

#[test]
fn new_register_is_in_the_ground_state() {
    let zero = c64(0.0, 0.0);
    let one = c64(1.0, 0.0);
    assert_eq!(amplitudes(&StateVector::new(0).unwrap()), vec![one]);
    assert_eq!(amplitudes(&StateVector::new(1).unwrap()), vec![one, zero]);
    let three = StateVector::new(3).unwrap();
    assert_eq!(three.len(), 8);
    assert_eq!(three.bit_width(), 3);
    assert_eq!(amplitudes(&three), vec![one, zero, zero, zero, zero, zero, zero, zero]);
}

#[test]
fn new_register_has_a_limit() {
    assert_eq!(
        StateVector::new(MAX_QUBITS + 1),
        Err(QasmSimError::TooManyQubits)
    );
    assert_eq!(
        StateVector::with_limit(3, 2),
        Err(QasmSimError::TooManyQubits)
    );
    assert_eq!(
        StateVector::with_limit(usize::MAX, usize::MAX),
        Err(QasmSimError::TooManyQubits)
    );
    assert_eq!(StateVector::with_limit(2, 2).unwrap().len(), 4);
}

#[test]
fn bit_width_is_the_number_of_halvings() {
    let p = c64(0.0, 0.0);
    assert_eq!(StateVector::from_bases(vec![]).bit_width(), 0);
    assert_eq!(StateVector::from_bases(vec![p]).bit_width(), 0);
    assert_eq!(StateVector::from_bases(vec![p; 2]).bit_width(), 1);
    assert_eq!(StateVector::from_bases(vec![p; 16]).bit_width(), 4);
    assert_eq!(StateVector::from_bases(vec![p; 16]).len(), 16);
}

#[test]
fn target_rows_pair_the_indices_that_differ_in_the_target() {
    assert_eq!(find_target_rows(1, 0), vec![(0, 1)]);
    assert_eq!(find_target_rows(2, 0), vec![(0, 1), (2, 3)]);
    assert_eq!(find_target_rows(2, 1), vec![(0, 2), (1, 3)]);
    assert_eq!(find_target_rows(3, 1), vec![(0, 2), (1, 3), (4, 6), (5, 7)]);
    assert_eq!(find_target_rows(3, 2), vec![(0, 4), (1, 5), (2, 6), (3, 7)]);
}

#[test]
fn exchangeable_rows_have_the_control_set() {
    assert_eq!(find_exchangeable_rows(2, 0, 1), vec![(1, 3)]);
    assert_eq!(find_exchangeable_rows(2, 1, 0), vec![(2, 3)]);
    assert_eq!(find_exchangeable_rows(3, 2, 0), vec![(4, 5), (6, 7)]);
    assert_eq!(find_exchangeable_rows(3, 0, 2), vec![(1, 5), (3, 7)]);
    assert_eq!(find_exchangeable_rows(3, 1, 2), vec![(2, 6), (3, 7)]);
    assert_eq!(
        find_exchangeable_rows(4, 1, 2),
        vec![(2, 6), (3, 7), (10, 14), (11, 15)]
    );
    assert_eq!(
        find_exchangeable_rows(4, 3, 0),
        vec![(8, 9), (10, 11), (12, 13), (14, 15)]
    );
}

#[test]
fn with_bit_inserts_at_the_position() {
    assert_eq!(with_bit(0b101, 0, false), 0b1010);
    assert_eq!(with_bit(0b101, 0, true), 0b1011);
    assert_eq!(with_bit(0b101, 1, false), 0b1001);
    assert_eq!(with_bit(0b101, 1, true), 0b1011);
    assert_eq!(with_bit(0b101, 3, true), 0b1101);
    assert_eq!(with_bit(0, 5, true), 32);
    assert_eq!(power_of_two(0), 1);
    assert_eq!(power_of_two(10), 1024);
}

#[test]
fn apply_row_multiplies_and_adds() {
    let r = apply_row(c64(2.0, 0.0), c64(0.0, 3.0), c64(5.0, 1.0), c64(7.0, -1.0));
    assert_eq!(r, c64(13.0, 23.0));
}

#[test]
fn u_combines_each_pair_with_the_matrix() {
    let matrix = (c64(2.0, 0.0), c64(3.0, 0.0), c64(5.0, 0.0), c64(7.0, 0.0));
    let bases = vec![c64(1.0, 0.0), c64(10.0, 0.0), c64(100.0, 0.0), c64(1000.0, 0.0)];
    let on_0 = StateVector::from_bases(bases.clone()).u(matrix, 0);
    assert_eq!(
        amplitudes(&on_0),
        vec![c64(32.0, 0.0), c64(75.0, 0.0), c64(3200.0, 0.0), c64(7500.0, 0.0)]
    );
    let on_1 = StateVector::from_bases(bases).u(matrix, 1);
    assert_eq!(
        amplitudes(&on_1),
        vec![c64(302.0, 0.0), c64(3020.0, 0.0), c64(705.0, 0.0), c64(7050.0, 0.0)]
    );
}

#[test]
fn gate_on_the_second_of_two_registers() {
    let statevector = StateVector::new(0)
        .unwrap()
        .grow(1, MAX_QUBITS)
        .unwrap()
        .grow(1, MAX_QUBITS)
        .unwrap()
        .u(build_u(PI / 2.0, 0.0, PI), 1);
    assert_approx_eq(
        &statevector,
        &[c64(FRAC_1_SQRT_2, 0.0), c64(0.0, 0.0), c64(FRAC_1_SQRT_2, 0.0), c64(0.0, 0.0)],
    );
}

#[test]
fn hadamard_on_one_qubit() {
    let statevector = StateVector::new(1).unwrap().u(build_u(PI / 2.0, 0.0, PI), 0);
    assert_approx_eq(&statevector, &[c64(FRAC_1_SQRT_2, 0.0), c64(FRAC_1_SQRT_2, 0.0)]);
}

#[test]
fn hadamard_on_each_qubit_of_a_register() {
    let h = build_u(PI / 2.0, 0.0, PI);
    let statevector = StateVector::new(2).unwrap().u(h, 0).u(h, 1);
    assert_approx_eq(&statevector, &[c64(0.5, 0.0); 4]);
}

#[test]
fn bell_pair_across_two_registers() {
    let statevector = StateVector::new(1)
        .unwrap()
        .grow(1, MAX_QUBITS)
        .unwrap()
        .u(build_u(PI / 2.0, 0.0, PI), 0)
        .cnot(0, 1);
    assert_approx_eq(
        &statevector,
        &[c64(FRAC_1_SQRT_2, 0.0), c64(0.0, 0.0), c64(0.0, 0.0), c64(FRAC_1_SQRT_2, 0.0)],
    );
}

#[test]
fn hadamard_on_each_of_four_qubits() {
    let h = build_u(PI / 2.0, 0.0, PI);
    let statevector = StateVector::new(4).unwrap().u(h, 0).u(h, 1).u(h, 2).u(h, 3);
    assert_approx_eq(&statevector, &[c64(0.25, 0.0); 16]);
}

#[test]
fn unitary_gates_keep_the_norm() {
    let mut statevector = StateVector::new(3).unwrap();
    statevector = statevector.u(build_u(0.3, 1.1, -0.7), 0);
    statevector = statevector.cnot(0, 2);
    statevector = statevector.u(build_u(2.0, -0.4, 0.9), 1);
    statevector = statevector.cnot(1, 0);
    statevector = statevector.u(build_u(PI, 0.0, PI), 2);
    let norm: f64 = amplitudes(&statevector).iter().map(|a| a.0 * a.0 + a.1 * a.1).sum();
    assert!((norm - 1.0).abs() < 1e-10);
}

fn measure(statevector: StateVector, target: usize, draw: f64) -> (StateVector, bool) {
    let chance: f64 = amplitudes(&statevector)
        .iter()
        .enumerate()
        .filter(|(index, _)| test_bit(*index, target))
        .map(|(_, a)| a.0 * a.0 + a.1 * a.1)
        .sum();
    if draw < chance {
        (statevector.project(target, true, c64(1.0 / chance.sqrt(), 0.0)), true)
    } else {
        (statevector.project(target, false, c64(1.0 / (1.0 - chance).sqrt(), 0.0)), false)
    }
}

#[test]
fn grow_adds_qubits_that_are_zero() {
    let a = c64(3.0, 4.0);
    let b = c64(5.0, 6.0);
    let zero = c64(0.0, 0.0);
    let grown = StateVector::from_bases(vec![a, b]).grow(2, MAX_QUBITS).unwrap();
    assert_eq!(amplitudes(&grown), vec![a, b, zero, zero, zero, zero, zero, zero]);
    assert_eq!(grown.bit_width(), 3);
    let same = StateVector::from_bases(vec![a, b]).grow(0, MAX_QUBITS).unwrap();
    assert_eq!(amplitudes(&same), vec![a, b]);
}

#[test]
fn grow_has_a_limit() {
    let register = StateVector::new(3).unwrap();
    assert_eq!(
        register.clone().grow(2, 4),
        Err(QasmSimError::TooManyQubits)
    );
    assert_eq!(
        register.clone().grow(usize::MAX, usize::MAX),
        Err(QasmSimError::TooManyQubits)
    );
    assert_eq!(register.grow(1, 4).unwrap().len(), 16);
}

#[test]
fn registers_declared_one_by_one_have_two_to_the_sum_amplitudes() {
    let mut statevector = StateVector::new(0).unwrap();
    let mut sum = 0;
    for width in [2, 0, 3, 1] {
        statevector = statevector.grow(width, MAX_QUBITS).unwrap();
        sum += width;
        assert_eq!(statevector.len(), 1 << sum);
        assert_eq!(statevector, StateVector::new(sum).unwrap());
    }
}

#[test]
fn project_keeps_what_agrees_with_the_outcome() {
    let bases: Vec<c64> = (1..=4).map(|i| c64(i as f64, 0.0)).collect();
    let zero = c64(0.0, 0.0);
    let factor = c64(0.0, 2.0);
    let found_1 = StateVector::from_bases(bases.clone()).project(0, true, factor);
    assert_eq!(amplitudes(&found_1), vec![zero, c64(0.0, 4.0), zero, c64(0.0, 8.0)]);
    let found_0 = StateVector::from_bases(bases.clone()).project(1, false, factor);
    assert_eq!(amplitudes(&found_0), vec![c64(0.0, 2.0), c64(0.0, 4.0), zero, zero]);
}

#[test]
fn x_exchanges_the_amplitudes_of_each_pair() {
    let bases: Vec<c64> = (0..8).map(|i| c64(i as f64, 0.0)).collect();
    let expected: Vec<c64> =
        [2, 3, 0, 1, 6, 7, 4, 5].iter().map(|i| c64(*i as f64, 0.0)).collect();
    let inverted = StateVector::from_bases(bases.clone()).x(1);
    assert_eq!(amplitudes(&inverted), expected);
    assert_eq!(amplitudes(&inverted.x(1)), bases);
}

#[test]
fn reset_then_measure_finds_zero() {
    let h = build_u(PI / 2.0, 0.0, PI);
    for draw in [0.0, 0.25, 0.75, 0.999] {
        let statevector = StateVector::new(2).unwrap().u(h, 0).u(h, 1).cnot(0, 1);
        let (outcome, factor) = if draw < 0.5 {
            (true, c64(std::f64::consts::SQRT_2, 0.0))
        } else {
            (false, c64(std::f64::consts::SQRT_2, 0.0))
        };
        let reset = statevector.reset(1, outcome, factor);
        for (index, amplitude) in amplitudes(&reset).iter().enumerate() {
            if test_bit(index, 1) {
                assert_eq!(*amplitude, c64(0.0, 0.0));
            }
        }
        for again in [0.0, 0.5, 0.999] {
            let (_, found) = measure(reset.clone(), 1, again);
            assert!(!found);
        }
    }
}

#[test]
fn ground_state_measures_zero() {
    for target in 0..3 {
        for draw in [0.0, 0.5, 0.999] {
            let (found, outcome) = measure(StateVector::new(3).unwrap(), target, draw);
            assert!(!outcome);
            assert_eq!(found, StateVector::new(3).unwrap());
        }
    }
}

#[test]
fn euler_identity() {
    let sum = e_power_to(PI) + 1.0;
    assert!(sum.0.abs() < 1e-10);
    assert!(sum.1.abs() < 1e-10);
}

#[test]
fn test_bit_reads_one_bit() {
    assert!(test_bit(0b100, 2));
    assert!(!test_bit(0b100, 1));
    assert!(!test_bit(0, 0));
    assert!(test_bit(usize::MAX, 0));
}

#[test]
fn as_bases_shows_the_amplitudes() {
    let bases = vec![c64(1.0, 2.0), c64(3.0, 4.0)];
    assert_eq!(StateVector::from_bases(bases.clone()).as_bases(), &bases);
}
