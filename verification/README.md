# qitesse

A state-vector quantum circuit simulator whose structure is verified with
Verus, and a Python module around it.

## Layout

- `src/` — the verified library. Amplitudes are a type parameter `A`; the
  library moves them and never computes with them. Every piece of arithmetic
  on amplitudes (the sum of two products, a dot product, the unitarity test,
  the weight of an amplitude and the sum of two weights, the decision on the
  summed weight of a measured qubit, rescaling) is a closure that the caller
  hands in, and the contracts say which values each closure is given and
  where its results go.
  - `index.rs` — the dimension of a register, distinct-qubit tests, and the
    maps between a basis-state index, the part of it outside a set of target
    qubits and the sub-index that the targets spell, with the laws that tie
    them together.
  - `matrix.rs` — row-major matrices: the identity, the controlled matrix of
    a target matrix, fixed gate matrices, and 2x2 matrices.
  - `gate.rs` — operations and gates, and their validation.
  - `fuse.rs` — fusion of runs of single-qubit operations on one qubit.
  - `state.rs` — the state vector and the gates applied to it: 2x2 updates,
    general operations, measurement and reset.
  - `circuit.rs` — circuits, running them (as a trace of steps), the layout
    of the quantum Fourier transform, and circuits of one gate per qubit.
  - `exact.rs` — what holds when the arithmetic handed in is exact (a ring,
    and every closure a function of its arguments): a fused operation gives
    the amplitudes that its run of single-qubit operations gives one at a
    time, and a run of a fused circuit ends in the amplitudes, records and
    error of a run of the gates it was made from.
- `app/` — the Python module (pyo3, numpy) and the single-precision complex
  arithmetic (num-complex, rand), which floating point keeps out of `src/`.
- `tests/` — the circuit scenarios on complex amplitudes, and the library's
  functions on small integer amplitudes.

The library updates the state vector sequentially; in `app/`, the global
rayon pool that `set_num_threads` sizes draws the shots of `sample`.

The module has no classes for parameters, observables, compiled circuits,
parameter buffers, execution contexts or circuit specs: the simulator has no
types (`Observable`, `Pauli`, `PauliTerm`, `ParamGateKind`,
`ParameterizedCircuitSpec`, `CompiledCircuit`, `ExecutionContext`) to build
them on.
