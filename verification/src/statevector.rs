//! The dense amplitude vector of a quantum register and the two primitive
//! gates that act on it.

use vstd::prelude::*;
use vstd::arithmetic::power2::{lemma_pow2_pos, pow2};
use complex::c64;
use crate::amplitude::{
    apply_row, complex_product, of_parts, one, row_applied, times, zero, Matrix,
};
use crate::error::QasmSimError;
use crate::bits::{
    bit_at, drop_bit, flip_bit, floor_log2, has_bit, insert_bit, lemma_bit_at_adds,
    lemma_bit_at_is_pow2, lemma_drop_above, lemma_drop_insert, lemma_flip_bit, lemma_floor_log2_bound,
    lemma_floor_log2_of_bit, lemma_insert_above, lemma_insert_drop, lemma_insert_flip,
    lemma_zero_has_no_bit, power_of_two, test_bit, with_bit,
};

verus! {

/// The `n`-th pair of basis indices that differ only in qubit `t`: first the
/// index in which the qubit is 0, then the one in which it is 1.
pub open spec fn target_pair(n: usize, t: usize) -> (usize, usize) {
    (insert_bit(n, t, false), insert_bit(n, t, true))
}

/// The basis index in which qubit `c` is 1, qubit `t` is `b`, and the other
/// qubits, from the lowest upwards, spell the number `n`.
pub open spec fn controlled_index(n: usize, c: usize, t: usize, b: bool) -> usize {
    if c < t {
        insert_bit(insert_bit(n, c, true), t, b)
    } else {
        insert_bit(insert_bit(n, t, b), c, true)
    }
}

/// The `n`-th pair of basis indices in which qubit `c` is 1 and which differ
/// only in qubit `t`: first the index in which `t` is 0, then the one in which
/// it is 1.
pub open spec fn exchangeable_pair(n: usize, c: usize, t: usize) -> (usize, usize) {
    (controlled_index(n, c, t, false), controlled_index(n, c, t, true))
}

/// The number that the qubits other than `c` and `t` spell in the basis index
/// `i`: the place of its pair among the exchangeable pairs.
pub open spec fn pair_rank(i: usize, c: usize, t: usize) -> usize {
    if c < t {
        drop_bit(drop_bit(i, t), c)
    } else {
        drop_bit(drop_bit(i, c), t)
    }
}

/// Each member of the `n`-th exchangeable pair is a basis index of the
/// register with the control set, has rank `n`, and is turned into the other
/// member by flipping the target.
pub proof fn lemma_controlled_index(n: usize, c: usize, t: usize, b: bool, w: usize)
    requires
        c != t,
        c < w,
        t < w,
        w < usize::BITS,
        n < bit_at((w - 2) as usize),
    ensures
        controlled_index(n, c, t, b) < bit_at(w),
        has_bit(controlled_index(n, c, t, b), c),
        has_bit(controlled_index(n, c, t, b), t) == b,
        pair_rank(controlled_index(n, c, t, b), c, t) == n,
        flip_bit(controlled_index(n, c, t, b), t) == controlled_index(n, c, t, !b),
{
    let w1 = (w - 1) as usize;
    let w2 = (w - 2) as usize;
    if c < t {
        let inner = insert_bit(n, c, true);
        lemma_drop_insert(n, c, true, w2);
        lemma_drop_insert(inner, t, b, w1);
        lemma_insert_above(inner, t, b, c);
        lemma_insert_flip(inner, t, b);
    } else {
        let inner = insert_bit(n, t, b);
        lemma_drop_insert(n, t, b, w2);
        lemma_drop_insert(inner, c, true, w1);
        lemma_insert_above(inner, c, true, t);
        lemma_insert_flip(n, t, b);
    }
}

/// Every basis index of the register with the control set is a member of the
/// exchangeable pair of its rank.
pub proof fn lemma_pair_rank(i: usize, c: usize, t: usize, w: usize)
    requires
        c != t,
        c < w,
        t < w,
        w < usize::BITS,
        i < bit_at(w),
        has_bit(i, c),
    ensures
        pair_rank(i, c, t) < bit_at((w - 2) as usize),
        i == controlled_index(pair_rank(i, c, t), c, t, has_bit(i, t)),
{
    let w1 = (w - 1) as usize;
    let w2 = (w - 2) as usize;
    if c < t {
        lemma_insert_drop(i, t, w1);
        lemma_drop_above(i, t, c);
        lemma_insert_drop(drop_bit(i, t), c, w2);
    } else {
        lemma_insert_drop(i, c, w1);
        lemma_drop_above(i, c, t);
        lemma_insert_drop(drop_bit(i, c), t, w2);
    }
}

/// Lists, for a register of `bit_width` qubits, the pairs of basis indices that
/// a gate on qubit `t` combines, in ascending order of their first member.
pub fn find_target_rows(bit_width: usize, t: usize) -> (rows: Vec<(usize, usize)>)
    requires
        bit_width < usize::BITS,
        t < bit_width,
    ensures
        rows@.len() == bit_at((bit_width - 1) as usize),
        forall|n: int| 0 <= n < rows@.len() ==> #[trigger] rows@[n] == target_pair(n as usize, t),
{
    let max: usize = power_of_two(bit_width - 1);
    let mut out: Vec<(usize, usize)> = Vec::new();
    let mut n: usize = 0;
    while n < max
        invariant
            bit_width < usize::BITS,
            t < bit_width,
            max == bit_at((bit_width - 1) as usize),
            n <= max,
            out@.len() == n,
            forall|k: int| 0 <= k < n ==> #[trigger] out@[k] == target_pair(k as usize, t),
        decreases max - n,
    {
        let index_0: usize = with_bit(n, t, false);
        let index_1: usize = with_bit(n, t, true);
        out.push((index_0, index_1));
        n += 1;
    }
    out
}

/// Lists, for a register of `bit_width` qubits, the pairs of basis indices that
/// a controlled-NOT with control `c` and target `t` exchanges, in ascending
/// order of their first member.
pub fn find_exchangeable_rows(bit_width: usize, c: usize, t: usize) -> (rows: Vec<(usize, usize)>)
    requires
        bit_width < usize::BITS,
        c < bit_width,
        t < bit_width,
        c != t,
    ensures
        rows@.len() == bit_at((bit_width - 2) as usize),
        forall|n: int|
            0 <= n < rows@.len() ==> #[trigger] rows@[n] == exchangeable_pair(n as usize, c, t),
{
    let max: usize = power_of_two(bit_width - 2);
    let mut out: Vec<(usize, usize)> = Vec::new();
    let mut n: usize = 0;
    while n < max
        invariant
            bit_width < usize::BITS,
            c < bit_width,
            t < bit_width,
            c != t,
            max == bit_at((bit_width - 2) as usize),
            n <= max,
            out@.len() == n,
            forall|k: int| 0 <= k < n ==> #[trigger] out@[k] == exchangeable_pair(k as usize, c, t),
        decreases max - n,
    {
        let index_10: usize;
        let index_11: usize;
        if c < t {
            let controlled: usize = with_bit(n, c, true);
            index_10 = with_bit(controlled, t, false);
            index_11 = with_bit(controlled, t, true);
        } else {
            index_10 = with_bit(with_bit(n, t, false), c, true);
            index_11 = with_bit(with_bit(n, t, true), c, true);
        }
        out.push((index_10, index_11));
        n += 1;
    }
    out
}

/// The amplitudes of the state in which every qubit of `n` is 0.
pub open spec fn ground_state(n: usize) -> Seq<c64> {
    Seq::new(bit_at(n) as nat, |i: int| if i == 0 { one() } else { zero() })
}

/// The amplitudes after a controlled-NOT with control `c` and target `t`: where
/// the control is 1, the amplitude of the index with the target flipped.
pub open spec fn cnot_applied(s: Seq<c64>, c: usize, t: usize) -> Seq<c64> {
    Seq::new(
        s.len(),
        |i: int|
            if has_bit(i as usize, c) {
                s[flip_bit(i as usize, t) as int]
            } else {
                s[i]
            },
    )
}

/// The amplitudes after the one-qubit gate `m` on qubit `t`: of the two
/// amplitudes `a0`, `a1` whose indices differ in `t` only, the first becomes
/// `m.0·a0 + m.1·a1` and the second `m.2·a0 + m.3·a1`.
pub open spec fn gate_applied(s: Seq<c64>, m: Matrix, t: usize) -> Seq<c64> {
    Seq::new(
        s.len(),
        |i: int|
            if has_bit(i as usize, t) {
                row_applied(m.2, m.3, s[flip_bit(i as usize, t) as int], s[i])
            } else {
                row_applied(m.0, m.1, s[i], s[flip_bit(i as usize, t) as int])
            },
    )
}

/// The amplitudes of a register to which `width` qubits that are 0 have been
/// added above its own: the old amplitudes first, then zeros.
pub open spec fn grown(s: Seq<c64>, width: usize) -> Seq<c64> {
    Seq::new(
        s.len() * bit_at(width) as nat,
        |i: int|
            if i < s.len() {
                s[i]
            } else {
                zero()
            },
    )
}

/// The amplitudes after qubit `t` has been found to be `outcome`: those of the
/// indices in which it is `outcome` are scaled by `factor`, the others are 0.
pub open spec fn projected(s: Seq<c64>, t: usize, outcome: bool, factor: c64) -> Seq<c64> {
    Seq::new(
        s.len(),
        |i: int|
            if has_bit(i as usize, t) == outcome {
                complex_product(factor, s[i])
            } else {
                zero()
            },
    )
}

/// The amplitudes after qubit `t` has been inverted: each amplitude is that of
/// the index with `t` flipped.
pub open spec fn inverted(s: Seq<c64>, t: usize) -> Seq<c64> {
    Seq::new(s.len(), |i: int| s[flip_bit(i as usize, t) as int])
}

/// The amplitudes after qubit `t`, found to be `outcome`, has been set to 0.
pub open spec fn reset_applied(s: Seq<c64>, t: usize, outcome: bool, factor: c64) -> Seq<c64> {
    if outcome {
        inverted(projected(s, t, true, factor), t)
    } else {
        projected(s, t, false, factor)
    }
}

/// The largest register that `StateVector::new` makes.
pub const MAX_QUBITS: usize = 28;

/// The amplitudes of a quantum register, one for each basis index.
#[derive(Clone, Debug, PartialEq)]
pub struct StateVector {
    bases: Vec<c64>,
}

impl View for StateVector {
    type V = Seq<c64>;

    closed spec fn view(&self) -> Seq<c64> {
        self.bases@
    }
}

impl StateVector {
    /// The number of qubits of the register.
    pub open spec fn spec_bit_width(&self) -> nat {
        floor_log2(self@.len())
    }

    /// The vector has one amplitude for each basis index of its qubits: its
    /// length is a power of two.
    pub open spec fn wf(&self) -> bool {
        &&& self.spec_bit_width() < usize::BITS
        &&& self@.len() == bit_at(self.spec_bit_width() as usize)
    }

    /// The register of `bitsize` qubits that are all 0, where `bitsize` is at
    /// most `MAX_QUBITS`.
    pub fn new(bitsize: usize) -> (made: Result<Self, QasmSimError>)
        ensures
            made is Ok <==> bitsize <= MAX_QUBITS,
            made is Ok ==> made->Ok_0@ == ground_state(bitsize) && made->Ok_0.wf()
                && made->Ok_0.spec_bit_width() == bitsize,
            made is Err ==> made->Err_0 == QasmSimError::TooManyQubits,
    {
        StateVector::with_limit(bitsize, MAX_QUBITS)
    }

    /// The register of `bitsize` qubits that are all 0, where `bitsize` is at
    /// most `limit` and the basis indices fit a machine word.
    pub fn with_limit(bitsize: usize, limit: usize) -> (made: Result<Self, QasmSimError>)
        ensures
            made is Ok <==> bitsize <= limit && bitsize < usize::BITS,
            made is Ok ==> made->Ok_0@ == ground_state(bitsize) && made->Ok_0.wf()
                && made->Ok_0.spec_bit_width() == bitsize,
            made is Err ==> made->Err_0 == QasmSimError::TooManyQubits,
    {
        if bitsize > limit || bitsize >= usize::BITS as usize {
            return Err(QasmSimError::TooManyQubits);
        }
        let len: usize = power_of_two(bitsize);
        let mut bases: Vec<c64> = Vec::new();
        bases.push(of_parts(1, 0));
        while bases.len() < len
            invariant
                len == bit_at(bitsize),
                1 <= bases@.len() <= len,
                forall|i: int|
                    0 <= i < bases@.len() ==> #[trigger] bases@[i] == if i == 0 {
                        one()
                    } else {
                        zero()
                    },
            decreases len - bases@.len(),
        {
            bases.push(of_parts(0, 0));
        }
        proof {
            lemma_floor_log2_of_bit(bitsize);
            assert(bases@ =~= ground_state(bitsize));
        }
        Ok(StateVector { bases })
    }

    /// The register with the given amplitudes.
    pub fn from_bases(bases: Vec<c64>) -> (sv: Self)
        ensures
            sv@ == bases@,
    {
        StateVector { bases }
    }

    /// The amplitudes, by basis index.
    pub fn as_bases(&self) -> (bases: &Vec<c64>)
        ensures
            bases@ == self@,
    {
        &self.bases
    }

    /// The amplitudes, by basis index.
    pub fn into_bases(self) -> (bases: Vec<c64>)
        ensures
            bases@ == self@,
    {
        self.bases
    }

    /// The number of amplitudes.
    pub fn len(&self) -> (n: usize)
        ensures
            n == self@.len(),
    {
        self.bases.len()
    }

    /// The number of qubits of the register.
    pub fn bit_width(&self) -> (w: usize)
        ensures
            w == self.spec_bit_width(),
    {
        let len: usize = self.bases.len();
        let mut rest: usize = len;
        let mut w: usize = 0;
        proof {
            lemma_floor_log2_bound(len as nat);
        }
        while rest >= 2
            invariant
                w + floor_log2(rest as nat) == floor_log2(len as nat),
                floor_log2(len as nat) <= len,
            decreases rest,
        {
            rest = rest / 2;
            w = w + 1;
        }
        w
    }
    /// Applies a controlled-NOT with control qubit `c` and target qubit `t`.
    pub fn cnot(self, c: usize, t: usize) -> (sv: Self)
        requires
            self.wf(),
            c != t,
            c < self.spec_bit_width(),
            t < self.spec_bit_width(),
        ensures
            sv@ == cnot_applied(self@, c, t),
            sv.wf(),
    {
        let bit_width: usize = self.bit_width();
        let mut bases = self.bases;
        let ghost before = bases@;
        let exchangeable_rows = find_exchangeable_rows(bit_width, c, t);
        let mut k: usize = 0;
        while k < exchangeable_rows.len()
            invariant
                c != t,
                c < bit_width,
                t < bit_width,
                bit_width < usize::BITS,
                before.len() == bit_at(bit_width),
                bases@.len() == before.len(),
                exchangeable_rows@.len() == bit_at((bit_width - 2) as usize),
                forall|n: int|
                    0 <= n < exchangeable_rows@.len() ==> #[trigger] exchangeable_rows@[n]
                        == exchangeable_pair(n as usize, c, t),
                k <= exchangeable_rows@.len(),
                forall|i: int|
                    0 <= i < before.len() ==> #[trigger] bases@[i] == if has_bit(i as usize, c)
                        && pair_rank(i as usize, c, t) < k {
                        before[flip_bit(i as usize, t) as int]
                    } else {
                        before[i]
                    },
            decreases exchangeable_rows@.len() - k,
        {
            let (index_a, index_b) = exchangeable_rows[k];
            proof {
                lemma_controlled_index(k, c, t, false, bit_width);
                lemma_controlled_index(k, c, t, true, bit_width);
            }
            let ghost earlier = bases@;
            let amplitude_a = bases[index_a];
            let amplitude_b = bases[index_b];
            bases[index_a] = amplitude_b;
            bases[index_b] = amplitude_a;
            proof {
                assert forall|i: int| 0 <= i < before.len() implies #[trigger] bases@[i]
                    == if has_bit(i as usize, c) && pair_rank(i as usize, c, t) < k + 1 {
                    before[flip_bit(i as usize, t) as int]
                } else {
                    before[i]
                } by {
                    if has_bit(i as usize, c) {
                        lemma_pair_rank(i as usize, c, t, bit_width);
                    }
                }
            }
            k = k + 1;
        }
        proof {
            assert forall|i: int| 0 <= i < before.len() implies bases@[i] == cnot_applied(
                before,
                c,
                t,
            )[i] by {
                if has_bit(i as usize, c) {
                    lemma_pair_rank(i as usize, c, t, bit_width);
                }
            }
            assert(bases@ =~= cnot_applied(before, c, t));
        }
        StateVector { bases }
    }
    /// Applies the one-qubit gate with matrix `matrix` to the qubit `target`.
    pub fn u(self, matrix: Matrix, target: usize) -> (sv: Self)
        requires
            self.wf(),
            target < self.spec_bit_width(),
        ensures
            sv@ == gate_applied(self@, matrix, target),
            sv.wf(),
    {
        let bit_width: usize = self.bit_width();
        let mut bases = self.bases;
        let ghost before = bases@;
        let target_rows = find_target_rows(bit_width, target);
        let mut k: usize = 0;
        while k < target_rows.len()
            invariant
                target < bit_width,
                bit_width < usize::BITS,
                before.len() == bit_at(bit_width),
                bases@.len() == before.len(),
                target_rows@.len() == bit_at((bit_width - 1) as usize),
                forall|n: int|
                    0 <= n < target_rows@.len() ==> #[trigger] target_rows@[n] == target_pair(
                        n as usize,
                        target,
                    ),
                k <= target_rows@.len(),
                forall|i: int|
                    0 <= i < before.len() ==> #[trigger] bases@[i] == if drop_bit(
                        i as usize,
                        target,
                    ) < k {
                        gate_applied(before, matrix, target)[i]
                    } else {
                        before[i]
                    },
            decreases target_rows@.len() - k,
        {
            let (index_0, index_1) = target_rows[k];
            proof {
                lemma_drop_insert(k, target, false, (bit_width - 1) as usize);
                lemma_drop_insert(k, target, true, (bit_width - 1) as usize);
                lemma_insert_flip(k, target, false);
                lemma_insert_flip(k, target, true);
            }
            let selected = (bases[index_0], bases[index_1]);
            bases[index_0] = apply_row(matrix.0, matrix.1, selected.0, selected.1);
            bases[index_1] = apply_row(matrix.2, matrix.3, selected.0, selected.1);
            proof {
                assert forall|i: int| 0 <= i < before.len() implies #[trigger] bases@[i]
                    == if drop_bit(i as usize, target) < k + 1 {
                    gate_applied(before, matrix, target)[i]
                } else {
                    before[i]
                } by {
                    lemma_insert_drop(i as usize, target, (bit_width - 1) as usize);
                    lemma_flip_bit(i as usize, target, target, bit_width);
                }
            }
            k = k + 1;
        }
        proof {
            assert forall|i: int| 0 <= i < before.len() implies bases@[i] == gate_applied(
                before,
                matrix,
                target,
            )[i] by {
                lemma_insert_drop(i as usize, target, (bit_width - 1) as usize);
            }
            assert(bases@ =~= gate_applied(before, matrix, target));
        }
        StateVector { bases }
    }
    /// Adds `width` qubits that are 0 above those of the register, where the
    /// register then has at most `limit` qubits.
    pub fn grow(self, width: usize, limit: usize) -> (made: Result<Self, QasmSimError>)
        requires
            self.wf(),
        ensures
            made is Ok <==> self.spec_bit_width() + width <= limit && self.spec_bit_width() + width
                < usize::BITS,
            made is Ok ==> made->Ok_0@ == grown(self@, width) && made->Ok_0.wf()
                && made->Ok_0.spec_bit_width() == self.spec_bit_width() + width,
            made is Err ==> made->Err_0 == QasmSimError::TooManyQubits,
    {
        let bit_width: usize = self.bit_width();
        if width > usize::MAX - bit_width {
            return Err(QasmSimError::TooManyQubits);
        }
        let requested: usize = bit_width + width;
        if requested > limit || requested >= usize::BITS as usize {
            return Err(QasmSimError::TooManyQubits);
        }
        proof {
            lemma_bit_at_adds(bit_width, width);
            lemma_floor_log2_of_bit(requested);
            lemma_bit_at_is_pow2(width);
            lemma_pow2_pos(width as nat);
            assert(bit_at(bit_width) * bit_at(width) >= bit_at(bit_width)) by (nonlinear_arith)
                requires
                    bit_at(width) >= 1,
            ;
        }
        let len: usize = power_of_two(requested);
        let mut bases = self.bases;
        let ghost before = bases@;
        while bases.len() < len
            invariant
                before.len() <= bases@.len() <= len,
                forall|i: int|
                    0 <= i < bases@.len() ==> #[trigger] bases@[i] == if i < before.len() {
                        before[i]
                    } else {
                        zero()
                    },
            decreases len - bases@.len(),
        {
            bases.push(of_parts(0, 0));
        }
        proof {
            assert(bases@ =~= grown(before, width));
        }
        Ok(StateVector { bases })
    }

    /// Leaves of the register what agrees with qubit `target` being
    /// `outcome`, scaled by `factor`.
    pub fn project(self, target: usize, outcome: bool, factor: c64) -> (sv: Self)
        requires
            self.wf(),
            target < self.spec_bit_width(),
        ensures
            sv@ == projected(self@, target, outcome, factor),
            sv.wf(),
    {
        let mut bases = self.bases;
        let ghost before = bases@;
        let mut i: usize = 0;
        while i < bases.len()
            invariant
                target < usize::BITS,
                bases@.len() == before.len(),
                i <= bases@.len(),
                forall|k: int|
                    0 <= k < before.len() ==> #[trigger] bases@[k] == if k < i {
                        projected(before, target, outcome, factor)[k]
                    } else {
                        before[k]
                    },
            decreases bases@.len() - i,
        {
            if test_bit(i, target) == outcome {
                bases[i] = times(factor, bases[i]);
            } else {
                bases[i] = of_parts(0, 0);
            }
            i += 1;
        }
        proof {
            assert(bases@ =~= projected(before, target, outcome, factor));
        }
        StateVector { bases }
    }

    /// Inverts the qubit `target`.
    pub fn x(self, target: usize) -> (sv: Self)
        requires
            self.wf(),
            target < self.spec_bit_width(),
        ensures
            sv@ == inverted(self@, target),
            sv.wf(),
    {
        let bit_width: usize = self.bit_width();
        let mut bases = self.bases;
        let ghost before = bases@;
        let target_rows = find_target_rows(bit_width, target);
        let mut k: usize = 0;
        while k < target_rows.len()
            invariant
                target < bit_width,
                bit_width < usize::BITS,
                before.len() == bit_at(bit_width),
                bases@.len() == before.len(),
                target_rows@.len() == bit_at((bit_width - 1) as usize),
                forall|n: int|
                    0 <= n < target_rows@.len() ==> #[trigger] target_rows@[n] == target_pair(
                        n as usize,
                        target,
                    ),
                k <= target_rows@.len(),
                forall|i: int|
                    0 <= i < before.len() ==> #[trigger] bases@[i] == if drop_bit(
                        i as usize,
                        target,
                    ) < k {
                        before[flip_bit(i as usize, target) as int]
                    } else {
                        before[i]
                    },
            decreases target_rows@.len() - k,
        {
            let (index_0, index_1) = target_rows[k];
            proof {
                lemma_drop_insert(k, target, false, (bit_width - 1) as usize);
                lemma_drop_insert(k, target, true, (bit_width - 1) as usize);
                lemma_insert_flip(k, target, false);
                lemma_insert_flip(k, target, true);
            }
            let selected = (bases[index_0], bases[index_1]);
            bases[index_0] = selected.1;
            bases[index_1] = selected.0;
            proof {
                assert forall|i: int| 0 <= i < before.len() implies #[trigger] bases@[i]
                    == if drop_bit(i as usize, target) < k + 1 {
                    before[flip_bit(i as usize, target) as int]
                } else {
                    before[i]
                } by {
                    lemma_insert_drop(i as usize, target, (bit_width - 1) as usize);
                    lemma_flip_bit(i as usize, target, target, bit_width);
                }
            }
            k = k + 1;
        }
        proof {
            assert forall|i: int| 0 <= i < before.len() implies bases@[i] == inverted(
                before,
                target,
            )[i] by {
                lemma_insert_drop(i as usize, target, (bit_width - 1) as usize);
            }
            assert(bases@ =~= inverted(before, target));
        }
        StateVector { bases }
    }

    /// Sets the qubit `target` to 0, after it has been found to be `outcome`:
    /// leaves of the register what agrees with that, scaled by `factor`, and
    /// inverts the qubit where it was found to be 1.
    pub fn reset(self, target: usize, outcome: bool, factor: c64) -> (sv: Self)
        requires
            self.wf(),
            target < self.spec_bit_width(),
        ensures
            sv@ == reset_applied(self@, target, outcome, factor),
            sv.wf(),
    {
        let found = self.project(target, outcome, factor);
        if outcome {
            found.x(target)
        } else {
            found
        }
    }
}


/// A controlled-NOT applied twice leaves every amplitude where it was.
pub proof fn lemma_cnot_twice(sv: StateVector, c: usize, t: usize)
    requires
        sv.wf(),
        c != t,
        c < sv.spec_bit_width(),
        t < sv.spec_bit_width(),
    ensures
        cnot_applied(cnot_applied(sv@, c, t), c, t) == sv@,
{
    let w = sv.spec_bit_width() as usize;
    let once = cnot_applied(sv@, c, t);
    let twice = cnot_applied(once, c, t);
    assert forall|i: int| 0 <= i < sv@.len() implies twice[i] == sv@[i] by {
        lemma_flip_bit(i as usize, t, c, w);
        lemma_flip_bit(flip_bit(i as usize, t), t, c, w);
    }
    assert(twice =~= sv@);
}

/// After a reset of a qubit, whatever it was found to be, every amplitude of
/// an index in which it is 1 is the amplitude 0: a measurement of that qubit
/// sums nothing else for the outcome 1.
pub proof fn lemma_reset_leaves_zero(
    sv: StateVector,
    t: usize,
    outcome: bool,
    factor: c64,
    i: int,
)
    requires
        sv.wf(),
        t < sv.spec_bit_width(),
        0 <= i < sv@.len(),
        has_bit(i as usize, t),
    ensures
        reset_applied(sv@, t, outcome, factor)[i] == zero(),
{
    lemma_flip_bit(i as usize, t, t, sv.spec_bit_width() as usize);
}

/// In the state in which every qubit is 0, every amplitude of an index in
/// which some qubit is 1 is the amplitude 0: a measurement of any qubit sums
/// nothing else for the outcome 1.
pub proof fn lemma_ground_state_measures_zero(n: usize, t: usize, i: int)
    requires
        0 <= i < ground_state(n).len(),
        has_bit(i as usize, t),
    ensures
        ground_state(n)[i] == zero(),
{
    lemma_zero_has_no_bit(i as usize, t);
}

/// The number of qubits of registers of the given widths together.
pub open spec fn total_width(widths: Seq<usize>) -> nat
    decreases widths.len(),
{
    if widths.len() == 0 {
        0
    } else {
        total_width(widths.drop_last()) + widths.last() as nat
    }
}

/// The amplitudes after registers of the given widths have been declared one
/// after the other, before any gate.
pub open spec fn declared(widths: Seq<usize>) -> Seq<c64>
    decreases widths.len(),
{
    if widths.len() == 0 {
        ground_state(0)
    } else {
        grown(declared(widths.drop_last()), widths.last())
    }
}

/// After the declaration of registers there are `2^n` amplitudes, where `n` is
/// the sum of the widths of the registers, and every qubit is 0.
pub proof fn lemma_declared(widths: Seq<usize>)
    requires
        total_width(widths) < usize::BITS,
    ensures
        declared(widths).len() == pow2(total_width(widths)),
        declared(widths) == ground_state(total_width(widths) as usize),
    decreases widths.len(),
{
    if widths.len() == 0 {
        lemma_bit_at_is_pow2(0);
    } else {
        let before = total_width(widths.drop_last()) as usize;
        lemma_declared(widths.drop_last());
        lemma_bit_at_adds(before, widths.last());
        lemma_bit_at_is_pow2(total_width(widths) as usize);
        lemma_bit_at_is_pow2(before);
        let earlier = declared(widths.drop_last());
        let now = declared(widths);
        let all = ground_state(total_width(widths) as usize);
        assert(earlier == ground_state(before));
        assert(now == grown(earlier, widths.last()));
        assert(now.len() == all.len());
        assert forall|i: int| 0 <= i < now.len() implies now[i] == all[i] by {
            lemma_pow2_pos(before as nat);
        }
        assert(now =~= all);
    }
}

/// The two primitive gates, a projection and a reset leave the number of
/// amplitudes as it is.
pub proof fn lemma_gates_keep_len(s: Seq<c64>, m: Matrix, c: usize, t: usize, b: bool, f: c64)
    ensures
        gate_applied(s, m, t).len() == s.len(),
        cnot_applied(s, c, t).len() == s.len(),
        projected(s, t, b, f).len() == s.len(),
        inverted(s, t).len() == s.len(),
        reset_applied(s, t, b, f).len() == s.len(),
{
}

} // verus!
