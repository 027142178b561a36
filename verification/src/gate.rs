//! Gates: unitary operations on a list of target qubits, measurements,
//! resets and barriers, and the validation of unitary and controlled
//! unitary operations.
use crate::error::SimError;
use crate::index::{all_distinct, dim_of, ensure_unique_qubits, matrix_dim, uniqueness};
use crate::matrix::{controlled_matrix, controlled_sizes_fit, is_controlled, Mat2};
use vstd::prelude::*;

verus! {

/// A unitary operation: a `2^k x 2^k` row-major matrix applied to `k`
/// target qubits, the first target being the most significant.
#[derive(Clone)]
pub struct Operation<A> {
    pub targets: Vec<usize>,
    pub matrix: Vec<A>,
}

/// One step of a circuit.
#[derive(Clone)]
pub enum Gate<A> {
    Operation(Operation<A>),
    Measure(usize),
    Reset(usize),
    Barrier,
}

/// What an operation is: its target qubits and its matrix entries.
pub struct OperationModel<A> {
    pub targets: Seq<usize>,
    pub matrix: Seq<A>,
}

/// What a gate is, with the vectors of an operation taken by their contents.
pub enum GateModel<A> {
    Operation(OperationModel<A>),
    Measure(usize),
    Reset(usize),
    Barrier,
}

impl<A> View for Operation<A> {
    type V = OperationModel<A>;

    open spec fn view(&self) -> OperationModel<A> {
        OperationModel { targets: self.targets@, matrix: self.matrix@ }
    }
}

impl<A> View for Gate<A> {
    type V = GateModel<A>;

    open spec fn view(&self) -> GateModel<A> {
        match self {
            Gate::Operation(op) => GateModel::Operation(op@),
            Gate::Measure(q) => GateModel::Measure(*q),
            Gate::Reset(q) => GateModel::Reset(*q),
            Gate::Barrier => GateModel::Barrier,
        }
    }
}

impl<A> OperationModel<A> {
    /// One target and a 2x2 matrix.
    pub open spec fn is_single_qubit(self) -> bool {
        self.targets.len() == 1 && self.matrix.len() == 4
    }

    /// The 2x2 matrix of a single-qubit operation.
    pub open spec fn mat2(self) -> Mat2<A> {
        Mat2 { m00: self.matrix[0], m01: self.matrix[1], m10: self.matrix[2], m11: self.matrix[3] }
    }
}

impl<A> GateModel<A> {
    /// A single-qubit unitary operation.
    pub open spec fn is_single_qubit_op(self) -> bool {
        self matches GateModel::Operation(op) && op.is_single_qubit()
    }

    /// A single-qubit unitary operation on `target`.
    pub open spec fn is_single_qubit_op_on(self, target: usize) -> bool {
        self matches GateModel::Operation(op) && op.is_single_qubit() && op.targets[0] == target
    }
}

/// The views of a sequence of gates.
pub open spec fn models<A>(gates: Seq<Gate<A>>) -> Seq<GateModel<A>> {
    gates.map_values(|g: Gate<A>| g@)
}

/// What `Operation::new` decides before it asks whether the matrix is
/// unitary: an error, or the dimension `2^targets.len()`.
pub open spec fn operation_verdict(targets: Seq<usize>, matrix_len: nat) -> Result<nat, SimError> {
    let k = (targets.len() as usize) as u32;
    if targets.len() == 0 {
        Err(SimError::NoTargets)
    } else if !all_distinct(targets) {
        Err(uniqueness(targets)->Err_0)
    } else if !(k < usize::BITS) {
        Err(SimError::TooManyQubits { num_qubits: targets.len() as usize })
    } else if matrix_len != dim_of(k as nat) * dim_of(k as nat) {
        Err(
            SimError::MatrixShape {
                expected: (dim_of(k as nat) * dim_of(k as nat)) as usize,
                targets: targets.len() as usize,
                got: matrix_len as usize,
            },
        )
    } else {
        Ok(dim_of(k as nat))
    }
}

/// The dimension that `Operation::new` computes for these targets fits a
/// square matrix in a word.
pub open spec fn operation_fits(targets: Seq<usize>) -> bool {
    let k = (targets.len() as usize) as u32;
    (targets.len() > 0 && all_distinct(targets) && k < usize::BITS) ==> dim_of(k as nat) * dim_of(
        k as nat,
    ) <= usize::MAX
}

/// A unitarity test can be asked of any matrix and dimension.
pub open spec fn total_test<A, U: Fn(&Vec<A>, usize) -> bool>(is_unitary: U) -> bool {
    forall|m: &Vec<A>, d: usize| #[trigger] call_requires(is_unitary, (m, d))
}

/// `r` is what `Operation::new(targets, matrix, is_unitary)` may return.
pub open spec fn operation_result<A, U: Fn(&Vec<A>, usize) -> bool>(
    targets: Seq<usize>,
    matrix: Vec<A>,
    is_unitary: U,
    r: Result<OperationModel<A>, SimError>,
) -> bool {
    match operation_verdict(targets, matrix@.len()) {
        Err(e) => r == Err::<OperationModel<A>, SimError>(e),
        Ok(dim) => match r {
            Ok(op) => op.targets == targets && op.matrix == matrix@ && call_ensures(
                is_unitary,
                (&matrix, dim as usize),
                true,
            ),
            Err(e) => e == SimError::NotUnitary && call_ensures(
                is_unitary,
                (&matrix, dim as usize),
                false,
            ),
        },
    }
}

/// The view of an operation result.
pub open spec fn operation_model<A>(r: Result<Operation<A>, SimError>) -> Result<
    OperationModel<A>,
    SimError,
> {
    match r {
        Ok(op) => Ok(op@),
        Err(e) => Err(e),
    }
}

/// The view of a gate result, with an operation gate taken by its operation.
pub open spec fn gate_operation_model<A>(r: Result<Gate<A>, SimError>) -> Result<
    OperationModel<A>,
    SimError,
> {
    match r {
        Ok(Gate::Operation(op)) => Ok(op@),
        Ok(_) => Err(SimError::NoTargets),
        Err(e) => Err(e),
    }
}

/// A copy of a vector of `Copy` values.
pub fn copy_vec<T: Copy>(v: &Vec<T>) -> (r: Vec<T>)
    ensures
        r@ == v@,
{
    let mut r: Vec<T> = Vec::new();
    let mut i: usize = 0;
    while i < v.len()
        invariant
            i <= v@.len(),
            r@ == v@.take(i as int),
        decreases v@.len() - i,
    {
        r.push(v[i]);
        i = i + 1;
        proof {
            assert(r@ =~= v@.take(i as int));
        }
    }
    proof {
        assert(v@.take(i as int) =~= v@);
    }
    r
}

impl<A: Copy> Operation<A> {
    /// An operation of `matrix` on `targets`, refused when there is no
    /// target, a target occurs twice, `2^targets.len()` does not fit a word,
    /// the matrix does not have `4^targets.len()` entries, or `is_unitary`
    /// (asked of the matrix and its dimension) refuses it, in that order.
    pub fn new<U: Fn(&Vec<A>, usize) -> bool>(
        targets: Vec<usize>,
        matrix: Vec<A>,
        is_unitary: &U,
    ) -> (r: Result<Self, SimError>)
        requires
            operation_fits(targets@),
            total_test(*is_unitary),
        ensures
            operation_result(targets@, matrix, *is_unitary, operation_model(r)),
    {
        if targets.len() == 0 {
            return Err(SimError::NoTargets);
        }
        match ensure_unique_qubits(targets.as_slice()) {
            Ok(()) => {},
            Err(e) => return Err(e),
        }
        let dim = match matrix_dim(targets.len()) {
            Ok(d) => d,
            Err(e) => return Err(e),
        };
        if matrix.len() != dim * dim {
            return Err(
                SimError::MatrixShape {
                    expected: dim * dim,
                    targets: targets.len(),
                    got: matrix.len(),
                },
            );
        }
        let ok = is_unitary(&matrix, dim);
        if !ok {
            return Err(SimError::NotUnitary);
        }
        Ok(Operation { targets, matrix })
    }

    /// An operation of `matrix` on the one qubit `target`.
    pub fn single_qubit<U: Fn(&Vec<A>, usize) -> bool>(
        target: usize,
        matrix: Vec<A>,
        is_unitary: &U,
    ) -> (r: Result<Self, SimError>)
        requires
            total_test(*is_unitary),
        ensures
            operation_result(seq![target], matrix, *is_unitary, operation_model(r)),
    {
        let mut targets: Vec<usize> = Vec::new();
        targets.push(target);
        proof {
            assert(targets@ =~= seq![target]);
            // One target: a 2x2 matrix, whose size fits a word.
            vstd::arithmetic::power2::lemma2_to64();
            let one: usize = 1;
            assert(one as u32 == 1u32) by (bit_vector)
                requires
                    one == 1,
            ;
            assert((targets@.len() as usize) == one);
            assert(dim_of(1) == 2);
        }
        Self::new(targets, matrix, is_unitary)
    }

    /// One target and a 2x2 matrix.
    pub fn is_single_qubit(&self) -> (b: bool)
        ensures
            b == self@.is_single_qubit(),
    {
        self.targets.len() == 1 && self.matrix.len() == 4
    }

    /// A copy of the operation.
    pub fn duplicate(&self) -> (r: Self)
        ensures
            r@ == self@,
    {
        Operation { targets: copy_vec(&self.targets), matrix: copy_vec(&self.matrix) }
    }
}

impl<A: Copy> Gate<A> {
    /// A copy of this gate.
    pub fn duplicate(&self) -> (r: Self)
        ensures
            r@ == self@,
    {
        match self {
            Gate::Operation(op) => Gate::Operation(op.duplicate()),
            Gate::Measure(q) => Gate::Measure(*q),
            Gate::Reset(q) => Gate::Reset(*q),
            Gate::Barrier => Gate::Barrier,
        }
    }
}

/// A gate of a unitary operation, validated as `Operation::new` does.
pub fn make_unitary_gate<A: Copy, U: Fn(&Vec<A>, usize) -> bool>(
    targets: Vec<usize>,
    matrix: Vec<A>,
    is_unitary: &U,
) -> (r: Result<Gate<A>, SimError>)
    requires
        operation_fits(targets@),
        total_test(*is_unitary),
    ensures
        r is Ok ==> r->Ok_0 is Operation,
        operation_result(targets@, matrix, *is_unitary, gate_operation_model(r)),
{
    match Operation::new(targets, matrix, is_unitary) {
        Ok(op) => Ok(Gate::Operation(op)),
        Err(e) => Err(e),
    }
}

/// What `make_controlled_unitary_gate` decides before it asks whether the
/// target matrix is unitary: an error, or the target dimension.
pub open spec fn controlled_verdict(controls: Seq<usize>, targets: Seq<usize>, matrix_len: nat) -> Result<
    nat,
    SimError,
> {
    let k = (targets.len() as usize) as u32;
    if controls.len() == 0 {
        Err(SimError::NoControls)
    } else if targets.len() == 0 {
        Err(SimError::NoControlledTargets)
    } else if !(k < usize::BITS) {
        Err(SimError::TooManyQubits { num_qubits: targets.len() as usize })
    } else if matrix_len != dim_of(k as nat) * dim_of(k as nat) {
        Err(
            SimError::ControlledMatrixShape {
                expected: (dim_of(k as nat) * dim_of(k as nat)) as usize,
                targets: targets.len() as usize,
                got: matrix_len as usize,
            },
        )
    } else {
        Ok(dim_of(k as nat))
    }
}

/// The sizes that `make_controlled_unitary_gate` computes fit in a word: the
/// size of the target matrix once there are controls and targets and the
/// target dimension fits, and the sizes of `controlled_matrix` once the
/// target matrix has that size and `is_unitary` accepts it.
pub open spec fn controlled_fits<A, U: Fn(&Vec<A>, usize) -> bool>(
    controls: Seq<usize>,
    targets: Seq<usize>,
    matrix: Vec<A>,
    is_unitary: U,
) -> bool {
    let k = (targets.len() as usize) as u32;
    let tdim = dim_of(k as nat);
    (controls.len() > 0 && targets.len() > 0 && k < usize::BITS) ==> {
        &&& tdim * tdim <= usize::MAX
        &&& (matrix@.len() == tdim * tdim && call_ensures(is_unitary, (&matrix, tdim as usize), true))
            ==> controlled_sizes_fit(controls.len() as usize, targets.len() as usize, matrix@.len())
    }
}

/// A gate that applies `matrix` to `targets` when every qubit of
/// `controls` is set: the controls followed by the targets, with the
/// controlled matrix of `matrix` (see `controlled_matrix`).
pub fn make_controlled_unitary_gate<A: Copy, U: Fn(&Vec<A>, usize) -> bool>(
    controls: Vec<usize>,
    targets: Vec<usize>,
    matrix: Vec<A>,
    zero: A,
    one: A,
    is_unitary: &U,
) -> (r: Result<Gate<A>, SimError>)
    requires
        controlled_fits(controls@, targets@, matrix, *is_unitary),
        total_test(*is_unitary),
    ensures
        ({
            let all = controls@ + targets@;
            let n = ((all.len() as usize) as u32) as nat;
            match controlled_verdict(controls@, targets@, matrix@.len()) {
                Err(e) => r == Err::<Gate<A>, SimError>(e),
                Ok(tdim) => {
                    ||| r == Err::<Gate<A>, SimError>(SimError::NotUnitary) && call_ensures(
                        *is_unitary,
                        (&matrix, tdim as usize),
                        false,
                    )
                    ||| call_ensures(*is_unitary, (&matrix, tdim as usize), true) && (if !(n
                        < usize::BITS) {
                        r == Err::<Gate<A>, SimError>(
                            SimError::TooManyQubits { num_qubits: all.len() as usize },
                        )
                    } else if !(((controls@.len() as usize) as u32) < usize::BITS) {
                        r == Err::<Gate<A>, SimError>(
                            SimError::TooManyQubits { num_qubits: controls@.len() as usize },
                        )
                    } else {
                        exists|full: Vec<A>|
                            is_controlled(
                                full@,
                                matrix@,
                                tdim as int,
                                dim_of(n) as int,
                                zero,
                                one,
                            ) && operation_result(all, full, *is_unitary, gate_operation_model(r))
                    })
                },
            }
        }),
{
    if controls.len() == 0 {
        return Err(SimError::NoControls);
    }
    if targets.len() == 0 {
        return Err(SimError::NoControlledTargets);
    }
    let target_dim = match matrix_dim(targets.len()) {
        Ok(d) => d,
        Err(e) => return Err(e),
    };
    if matrix.len() != target_dim * target_dim {
        return Err(
            SimError::ControlledMatrixShape {
                expected: target_dim * target_dim,
                targets: targets.len(),
                got: matrix.len(),
            },
        );
    }
    if !is_unitary(&matrix, target_dim) {
        return Err(SimError::NotUnitary);
    }
    let full_matrix = match controlled_matrix(
        controls.len(),
        targets.len(),
        matrix.as_slice(),
        zero,
        one,
    ) {
        Ok(m) => m,
        Err(e) => return Err(e),
    };
    let ghost full_view = full_matrix;
    let mut full_targets = controls;
    let mut rest = targets;
    full_targets.append(&mut rest);
    proof {
        assert(full_targets@ =~= controls@ + targets@);
    }
    let r = make_unitary_gate(full_targets, full_matrix, is_unitary);
    proof {
        assert(is_controlled(
            full_view@,
            matrix@,
            target_dim as int,
            dim_of((((controls@ + targets@).len() as usize) as u32) as nat) as int,
            zero,
            one,
        ));
    }
    r
}

} // verus!
