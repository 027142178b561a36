use vstd::prelude::*;

verus! {

/// Everything that the simulator refuses, one variant per refusal.
#[derive(Debug, Clone, Copy, PartialEq, Eq, Structural)]
pub enum SimError {
    /// `2^num_qubits` does not fit in a `usize`.
    TooManyQubits { num_qubits: usize },
    /// A qubit index occurs twice among the qubits of one operation.
    DuplicateQubit { qubit: usize },
    /// A unitary operation with no target qubit.
    NoTargets,
    /// A unitary operation whose matrix does not have `expected` entries.
    MatrixShape { expected: usize, targets: usize, got: usize },
    /// The unitarity test refused the matrix.
    NotUnitary,
    /// A controlled unitary gate with no control qubit.
    NoControls,
    /// A controlled unitary gate with no target qubit.
    NoControlledTargets,
    /// A controlled unitary gate whose target matrix does not have `expected` entries.
    ControlledMatrixShape { expected: usize, targets: usize, got: usize },
    /// A controlled matrix asked for with no control qubit.
    ControlledOperationNoControls,
    /// A controlled matrix asked for with a target matrix of the wrong size.
    ControlledOperationShape,
    /// A qubit index that the state vector does not have.
    QubitOutOfRange { qubit: usize, num_qubits: usize },
}

} // verus!
