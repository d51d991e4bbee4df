//! What can go wrong in a run.

use vstd::prelude::*;

verus! {

/// The reasons for which the library refuses an operation.
#[derive(Clone, Copy, Debug, PartialEq, Eq)]
pub enum QasmSimError {
    /// A register would hold more qubits than the limit allows.
    TooManyQubits,
    /// A register is declared under a name that is taken.
    DuplicateRegister,
    /// An operation names a register that is not declared.
    UnknownRegister,
    /// An operation names a qubit or bit past the width of its register.
    IndexOutOfRange,
    /// An operation names whole registers of different widths.
    WidthMismatch,
}

} // verus!
