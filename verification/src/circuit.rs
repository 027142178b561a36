//! Circuits: a list of gates, fused when it holds many single-qubit
//! operations, run on a state vector; the layout of gates of the quantum
//! Fourier transform; and circuits built from one gate per qubit.
use crate::error::SimError;
use crate::fuse::{fuse_gates, fused_from};
use crate::gate::{Gate, GateModel, models};
use crate::index::dim_of;
use crate::matrix::total4;
use crate::state::{
    mat2_applied, measured, operation_applied, reset_done, target_verdict, total_dot,
    total_measure, Measurement, StateVector,
};
use vstd::prelude::*;

verus! {

/// The number of single-qubit operations from which a circuit fuses its gates.
pub const FUSION_THRESHOLD: usize = 16;

/// A list of gates, applied in order.
pub struct Circuit<A> {
    pub gates: Vec<Gate<A>>,
}

/// The arithmetic on amplitudes that running a circuit needs.
pub struct Arithmetic<A, W, F, D, G, P, O, R> {
    /// Given two pairs of factors, the sum of their products.
    pub dot2: F,
    /// Given a row of a matrix and a column of amplitudes, their dot product.
    pub dot: D,
    /// The arithmetic of a measurement.
    pub measure: Measurement<A, W, G, P, O, R>,
    /// The amplitude one.
    pub unit: A,
}

/// The number of single-qubit operations among `gs`.
pub open spec fn single_qubit_count<A>(gs: Seq<GateModel<A>>) -> nat
    decreases gs.len(),
{
    if gs.len() == 0 {
        0
    } else {
        single_qubit_count(gs.drop_last()) + if gs.last().is_single_qubit_op() {
            1nat
        } else {
            0nat
        }
    }
}

/// Every operation among `gs` whose targets suit `nq` qubits and which is
/// not a single-qubit operation has at least `4^targets` matrix entries.
pub open spec fn operations_sized<A>(gs: Seq<GateModel<A>>, nq: usize) -> bool {
    forall|j: int|
        0 <= j < gs.len() ==> match #[trigger] gs[j] {
            GateModel::Operation(op) => target_verdict(op.targets, nq) is Ok
                && !op.is_single_qubit() ==> op.matrix.len() >= dim_of(op.targets.len()) * dim_of(
                op.targets.len(),
            ),
            _ => true,
        }
}

/// What one gate may do to the amplitudes `old` of `nq` qubits, giving `new`
/// and either an error, nothing, or a measurement record `(qubit, value)`.
pub open spec fn gate_step<
    A,
    W,
    S,
    F: Fn(A, A, A, A) -> A,
    D: Fn(&Vec<A>, &Vec<A>) -> A,
    G: Fn(A) -> W,
    P: Fn(W, W) -> W,
    O: Fn(W) -> (bool, S),
    R: Fn(A, S) -> A,
>(
    g: GateModel<A>,
    nq: usize,
    old: Seq<A>,
    new: Seq<A>,
    out: Result<Option<(usize, u8)>, SimError>,
    k: Arithmetic<A, W, F, D, G, P, O, R>,
) -> bool {
    match g {
        GateModel::Operation(op) => match target_verdict(op.targets, nq) {
            Err(e) => out == Err::<Option<(usize, u8)>, SimError>(e) && new == old,
            Ok(()) => out == Ok::<Option<(usize, u8)>, SimError>(None) && if op.is_single_qubit() {
                mat2_applied(old, op.targets[0], op.mat2(), k.dot2, new)
            } else {
                operation_applied(old, op, k.dot, new)
            },
        },
        GateModel::Measure(q) => if q >= nq {
            out == Err::<Option<(usize, u8)>, SimError>(
                SimError::QubitOutOfRange { qubit: q, num_qubits: nq },
            ) && new == old
        } else {
            exists|one: bool|
                #![trigger measured(old, q, one, k.measure, new)]
                out == Ok::<Option<(usize, u8)>, SimError>(
                    Some((q, if one { 1u8 } else { 0u8 })),
                ) && measured(old, q, one, k.measure, new)
        },
        GateModel::Reset(q) => if q >= nq {
            out == Err::<Option<(usize, u8)>, SimError>(
                SimError::QubitOutOfRange { qubit: q, num_qubits: nq },
            ) && new == old
        } else {
            out == Ok::<Option<(usize, u8)>, SimError>(None) && reset_done(
                old,
                q,
                k.measure,
                k.unit,
                k.dot2,
                new,
            )
        },
        GateModel::Barrier => out == Ok::<Option<(usize, u8)>, SimError>(None) && new == old,
    }
}

/// `states` and `outs` are a possible run of the gates `gs` on `nq` qubits:
/// step `j` takes `states[j]` to `states[j + 1]` with `outs[j]`, and the run
/// stops at the first error or after the last gate.
pub open spec fn run_trace<
    A,
    W,
    S,
    F: Fn(A, A, A, A) -> A,
    D: Fn(&Vec<A>, &Vec<A>) -> A,
    G: Fn(A) -> W,
    P: Fn(W, W) -> W,
    O: Fn(W) -> (bool, S),
    R: Fn(A, S) -> A,
>(
    gs: Seq<GateModel<A>>,
    nq: usize,
    states: Seq<Seq<A>>,
    outs: Seq<Result<Option<(usize, u8)>, SimError>>,
    k: Arithmetic<A, W, F, D, G, P, O, R>,
) -> bool {
    &&& states.len() == outs.len() + 1
    &&& outs.len() <= gs.len()
    &&& forall|j: int|
        0 <= j < outs.len() ==> #[trigger] gate_step(gs[j], nq, states[j], states[j + 1], outs[j], k)
    &&& forall|j: int| 0 <= j < outs.len() - 1 ==> (#[trigger] outs[j]) is Ok
    &&& outs.len() < gs.len() ==> outs.len() > 0 && outs.last() is Err
}

/// The measurement records among the outputs of a run, in order.
pub open spec fn recorded(outs: Seq<Result<Option<(usize, u8)>, SimError>>) -> Seq<(usize, u8)>
    decreases outs.len(),
{
    if outs.len() == 0 {
        Seq::empty()
    } else {
        recorded(outs.drop_last()) + match outs.last() {
            Ok(Some(m)) => seq![m],
            _ => Seq::empty(),
        }
    }
}

/// The arithmetic can be asked of anything.
pub open spec fn total_arithmetic<
    A,
    W,
    S,
    F: Fn(A, A, A, A) -> A,
    D: Fn(&Vec<A>, &Vec<A>) -> A,
    G: Fn(A) -> W,
    P: Fn(W, W) -> W,
    O: Fn(W) -> (bool, S),
    R: Fn(A, S) -> A,
>(k: Arithmetic<A, W, F, D, G, P, O, R>) -> bool {
    &&& total4(k.dot2)
    &&& total_dot(k.dot)
    &&& total_measure(k.measure)
}

impl<A: Copy> Circuit<A> {
    /// A circuit of the gates `raw`, fused as `fuse_gates` does (with
    /// `dot2`) when they hold at least `FUSION_THRESHOLD` single-qubit operations.
    pub fn new<F: Fn(A, A, A, A) -> A>(raw: Vec<Gate<A>>, dot2: &F) -> (c: Self)
        requires
            total4(*dot2),
        ensures
            single_qubit_count(models(raw@)) >= FUSION_THRESHOLD ==> fused_from(
                models(raw@),
                0,
                models(c.gates@),
                *dot2,
            ),
            single_qubit_count(models(raw@)) < FUSION_THRESHOLD ==> c.gates@ == raw@,
    {
        let ghost gs = models(raw@);
        let mut count: usize = 0;
        let mut i: usize = 0;
        while i < raw.len()
            invariant
                gs == models(raw@),
                i <= raw@.len(),
                count == single_qubit_count(gs.take(i as int)),
                count <= i,
            decreases raw@.len() - i,
        {
            proof {
                assert(gs.take(i + 1).drop_last() =~= gs.take(i as int));
                assert(gs[i as int] == raw@[i as int]@);
            }
            match &raw[i] {
                Gate::Operation(op) => {
                    if op.is_single_qubit() {
                        count = count + 1;
                    }
                },
                _ => {},
            }
            i = i + 1;
        }
        proof {
            assert(gs.take(i as int) =~= gs);
        }
        let gates = if count >= FUSION_THRESHOLD {
            fuse_gates(raw.as_slice(), dot2)
        } else {
            raw
        };
        Circuit { gates }
    }

    /// Runs the gates in order on `state`, with the arithmetic `k`, and
    /// returns the measurement records `(qubit, value)` in order; stops at
    /// the first gate that is refused, with its error.
    pub fn run<
        W: Copy,
        S: Copy,
        F: Fn(A, A, A, A) -> A,
        D: Fn(&Vec<A>, &Vec<A>) -> A,
        G: Fn(A) -> W,
        P: Fn(W, W) -> W,
        O: Fn(W) -> (bool, S),
        R: Fn(A, S) -> A,
    >(&self, state: &mut StateVector<A>, k: &Arithmetic<A, W, F, D, G, P, O, R>) -> (r: Result<
        Vec<(usize, u8)>,
        SimError,
    >)
        requires
            old(state).wf(),
            total_arithmetic(*k),
            operations_sized(models(self.gates@), old(state).num_qubits),
        ensures
            final(state).num_qubits == old(state).num_qubits,
            exists|states: Seq<Seq<A>>, outs: Seq<Result<Option<(usize, u8)>, SimError>>|
                #[trigger] run_trace(models(self.gates@), old(state).num_qubits, states, outs, *k)
                    && states[0] == old(state).amps@ && states.last() == final(state).amps@
                    && match r {
                    Ok(ms) => outs.len() == self.gates@.len() && (forall|j: int|
                        0 <= j < outs.len() ==> (#[trigger] outs[j]) is Ok) && ms@ == recorded(
                        outs,
                    ),
                    Err(e) => outs.len() > 0 && outs.last() == Err::<Option<(usize, u8)>, SimError>(
                        e,
                    ),
                },
    {
        let ghost gs = models(self.gates@);
        let ghost nq = state.num_qubits;
        let ghost mut states: Seq<Seq<A>> = seq![state.amps@];
        let ghost mut outs: Seq<Result<Option<(usize, u8)>, SimError>> = Seq::empty();
        let mut measurements: Vec<(usize, u8)> = Vec::new();
        let mut i: usize = 0;
        while i < self.gates.len()
            invariant
                gs == models(self.gates@),
                i <= self.gates@.len(),
                state.wf(),
                state.num_qubits == nq,
                nq == old(state).num_qubits,
                total_arithmetic(*k),
                operations_sized(gs, nq),
                states.len() == outs.len() + 1,
                outs.len() == i,
                states[0] == old(state).amps@,
                states.last() == state.amps@,
                forall|j: int|
                    0 <= j < outs.len() ==> #[trigger] gate_step(
                        gs[j],
                        nq,
                        states[j],
                        states[j + 1],
                        outs[j],
                        *k,
                    ),
                forall|j: int| 0 <= j < outs.len() ==> (#[trigger] outs[j]) is Ok,
                measurements@ == recorded(outs),
            decreases self.gates@.len() - i,
        {
            let ghost before = state.amps@;
            let ghost out: Result<Option<(usize, u8)>, SimError>;
            proof {
                assert(gs[i as int] == self.gates@[i as int]@);
            }
            match &self.gates[i] {
                Gate::Operation(op) => {
                    proof {
                        assert(gs[i as int] == GateModel::Operation(op@));
                    }
                    match state.apply_operation(op, &k.dot2, &k.dot) {
                        Ok(()) => {
                            proof {
                                out = Ok(None);
                            }
                        },
                        Err(e) => {
                            proof {
                                lemma_trace_push(gs, nq, states, outs, state.amps@, Err(e), *k);
                                states = states.push(state.amps@);
                                outs = outs.push(Err(e));
                            }
                            return Err(e);
                        },
                    }
                },
                Gate::Measure(qubit) => {
                    match state.measure_qubit(*qubit, &k.measure) {
                        Ok(value) => {
                            proof {
                                out = Ok(Some((*qubit, value)));
                            }
                            measurements.push((*qubit, value));
                        },
                        Err(e) => {
                            proof {
                                lemma_trace_push(gs, nq, states, outs, state.amps@, Err(e), *k);
                                states = states.push(state.amps@);
                                outs = outs.push(Err(e));
                            }
                            return Err(e);
                        },
                    }
                },
                Gate::Reset(qubit) => {
                    match state.reset_qubit(*qubit, &k.measure, k.unit, &k.dot2) {
                        Ok(()) => {
                            proof {
                                out = Ok(None);
                            }
                        },
                        Err(e) => {
                            proof {
                                lemma_trace_push(gs, nq, states, outs, state.amps@, Err(e), *k);
                                states = states.push(state.amps@);
                                outs = outs.push(Err(e));
                            }
                            return Err(e);
                        },
                    }
                },
                Gate::Barrier => {
                    proof {
                        out = Ok(None);
                    }
                },
            }
            proof {
                assert(gate_step(gs[i as int], nq, before, state.amps@, out, *k));
                let old_outs = outs;
                let old_states = states;
                states = states.push(state.amps@);
                outs = outs.push(out);
                assert forall|j: int| 0 <= j < outs.len() implies #[trigger] gate_step(
                    gs[j],
                    nq,
                    states[j],
                    states[j + 1],
                    outs[j],
                    *k,
                ) by {
                    if j < old_outs.len() {
                        assert(outs[j] == old_outs[j]);
                        assert(states[j] == old_states[j]);
                        assert(states[j + 1] == old_states[j + 1]);
                    }
                }
                assert(outs.drop_last() =~= old_outs);
            }
            i = i + 1;
        }
        proof {
            assert(run_trace(gs, nq, states, outs, *k));
        }
        Ok(measurements)
    }
}

/// A trace that stops with an error after a prefix of good steps is a run.
proof fn lemma_trace_push<
    A,
    W,
    S,
    F: Fn(A, A, A, A) -> A,
    D: Fn(&Vec<A>, &Vec<A>) -> A,
    G: Fn(A) -> W,
    P: Fn(W, W) -> W,
    O: Fn(W) -> (bool, S),
    R: Fn(A, S) -> A,
>(
    gs: Seq<GateModel<A>>,
    nq: usize,
    states: Seq<Seq<A>>,
    outs: Seq<Result<Option<(usize, u8)>, SimError>>,
    next: Seq<A>,
    e: Result<Option<(usize, u8)>, SimError>,
    k: Arithmetic<A, W, F, D, G, P, O, R>,
)
    requires
        states.len() == outs.len() + 1,
        outs.len() < gs.len(),
        e is Err,
        forall|j: int|
            0 <= j < outs.len() ==> #[trigger] gate_step(gs[j], nq, states[j], states[j + 1], outs[j], k),
        forall|j: int| 0 <= j < outs.len() ==> (#[trigger] outs[j]) is Ok,
        gate_step(gs[outs.len() as int], nq, states.last(), next, e, k),
    ensures
        run_trace(gs, nq, states.push(next), outs.push(e), k),
{
    let s2 = states.push(next);
    let o2 = outs.push(e);
    assert forall|j: int| 0 <= j < o2.len() implies #[trigger] gate_step(
        gs[j],
        nq,
        s2[j],
        s2[j + 1],
        o2[j],
        k,
    ) by {
        if j < outs.len() {
            assert(o2[j] == outs[j]);
            assert(s2[j] == states[j]);
            assert(s2[j + 1] == states[j + 1]);
        } else {
            assert(s2[j] == states.last());
        }
    }
    assert forall|j: int| 0 <= j < o2.len() - 1 implies (#[trigger] o2[j]) is Ok by {
        assert(o2[j] == outs[j]);
    }
}

/// One step of the layout of gates of the quantum Fourier transform.
#[derive(Clone, Copy, Debug, PartialEq, Eq, Structural)]
pub enum QftStep {
    /// The Hadamard gate on a qubit.
    Hadamard(usize),
    /// The phase gate of angle `pi / 2^k` on `target`, controlled by `control`.
    ControlledPhase { control: usize, target: usize, k: usize },
    /// The swap of two qubits.
    Swap(usize, usize),
}

/// The steps for qubit `i` of `n`: its Hadamard gate, then its controlled
/// phase gates with each later qubit `j` as target, of angle `pi / 2^(j - i)`.
pub open spec fn qft_block(n: nat, i: nat) -> Seq<QftStep> {
    seq![QftStep::Hadamard(i as usize)] + Seq::new(
        (n - i - 1) as nat,
        |d: int|
            QftStep::ControlledPhase {
                control: i as usize,
                target: (i + 1 + d) as usize,
                k: (1 + d) as usize,
            },
    )
}

/// The blocks of the first `m` qubits of `n`, in order.
pub open spec fn qft_blocks(n: nat, m: nat) -> Seq<QftStep>
    decreases m,
{
    if m == 0 {
        Seq::empty()
    } else {
        qft_blocks(n, (m - 1) as nat) + qft_block(n, (m - 1) as nat)
    }
}

/// The swaps that reverse the order of `n` qubits.
pub open spec fn qft_swaps(n: nat) -> Seq<QftStep> {
    Seq::new(n / 2, |i: int| QftStep::Swap(i as usize, (n - 1 - i) as usize))
}

/// The layout of gates of the quantum Fourier transform on `n` qubits.
pub open spec fn qft_steps(n: nat) -> Seq<QftStep> {
    qft_blocks(n, n) + qft_swaps(n)
}

/// A step on qubits below `n`: a controlled phase has its control before its
/// target and `k` their distance, and a swap exchanges two distinct qubits.
pub open spec fn step_in_range(step: QftStep, n: nat) -> bool {
    match step {
        QftStep::Hadamard(q) => q < n,
        QftStep::ControlledPhase { control, target, k } => control < target && target < n && k
            == target - control,
        QftStep::Swap(a, b) => a < b && b < n,
    }
}

/// The blocks of the first `m` qubits of `n` have all their steps in range.
proof fn lemma_qft_blocks_in_range(n: nat, m: nat)
    requires
        m <= n <= usize::MAX,
    ensures
        forall|j: int|
            0 <= j < qft_blocks(n, m).len() ==> step_in_range(#[trigger] qft_blocks(n, m)[j], n),
    decreases m,
{
    if m > 0 {
        let i = (m - 1) as nat;
        lemma_qft_blocks_in_range(n, i);
        let front = qft_blocks(n, i);
        let block = qft_block(n, i);
        assert forall|j: int| 0 <= j < qft_blocks(n, m).len() implies step_in_range(
            #[trigger] qft_blocks(n, m)[j],
            n,
        ) by {
            if j < front.len() {
                assert(qft_blocks(n, m)[j] == front[j]);
            } else {
                assert(qft_blocks(n, m)[j] == block[j - front.len()]);
            }
        }
    }
}

/// Every step of the layout of the quantum Fourier transform on `n` qubits
/// is in range: its gates can be built on `n` qubits.
pub proof fn lemma_qft_steps_in_range(n: nat)
    requires
        n <= usize::MAX,
    ensures
        forall|j: int| 0 <= j < qft_steps(n).len() ==> step_in_range(#[trigger] qft_steps(n)[j], n),
{
    lemma_qft_blocks_in_range(n, n);
    let front = qft_blocks(n, n);
    let swaps = qft_swaps(n);
    assert forall|j: int| 0 <= j < qft_steps(n).len() implies step_in_range(
        #[trigger] qft_steps(n)[j],
        n,
    ) by {
        if j < front.len() {
            assert(qft_steps(n)[j] == front[j]);
        } else {
            assert(qft_steps(n)[j] == swaps[j - front.len()]);
        }
    }
}

/// Step `off` of the block of qubit `i` is at position `off` after the
/// blocks of the qubits before `i`.
proof fn lemma_blocks_index(n: nat, m: nat, i: nat, off: int)
    requires
        i < m <= n,
        0 <= off < n - i,
    ensures
        qft_blocks(n, i).len() + off < qft_blocks(n, m).len(),
        qft_blocks(n, m)[qft_blocks(n, i).len() + off] == qft_block(n, i)[off],
    decreases m,
{
    let front = qft_blocks(n, (m - 1) as nat);
    let block = qft_block(n, (m - 1) as nat);
    if i < m - 1 {
        lemma_blocks_index(n, (m - 1) as nat, i, off);
    }
    assert(qft_blocks(n, m) == front + block);
}

/// The blocks of the qubits before `j` are longer than those before `i` by
/// at least the block of `i`, when `i < j`.
proof fn lemma_blocks_grow(n: nat, i: nat, j: nat)
    requires
        i < j <= n,
    ensures
        qft_blocks(n, i).len() + (n - i) <= qft_blocks(n, j).len(),
    decreases j,
{
    if j > i + 1 {
        lemma_blocks_grow(n, i, (j - 1) as nat);
    }
    assert(qft_blocks(n, j).len() == qft_blocks(n, (j - 1) as nat).len() + qft_block(
        n,
        (j - 1) as nat,
    ).len());
}

/// In the layout of the quantum Fourier transform, the controlled phase of
/// angle `pi / 2^(j - i)` with control `i` and target `j` comes after the
/// Hadamard gate of qubit `i` and before that of qubit `j`.
pub proof fn lemma_qft_phase_order(n: nat, i: nat, j: nat)
    requires
        i < j < n,
    ensures
        exists|a: int, b: int, c: int|
            #![trigger qft_steps(n)[a], qft_steps(n)[b], qft_steps(n)[c]]
            0 <= a < b < c < qft_steps(n).len() && qft_steps(n)[a] == QftStep::Hadamard(i as usize)
                && qft_steps(n)[b] == (QftStep::ControlledPhase {
                control: i as usize,
                target: j as usize,
                k: (j - i) as usize,
            }) && qft_steps(n)[c] == QftStep::Hadamard(j as usize),
{
    let steps = qft_steps(n);
    let bi = qft_blocks(n, i).len() as int;
    let bj = qft_blocks(n, j).len() as int;
    lemma_blocks_index(n, n, i, 0);
    lemma_blocks_index(n, n, i, j - i);
    lemma_blocks_index(n, n, j, 0);
    lemma_blocks_grow(n, i, j);
    assert(steps[bi] == qft_blocks(n, n)[bi]);
    assert(steps[bi + (j - i)] == qft_blocks(n, n)[bi + (j - i)]);
    assert(steps[bj] == qft_blocks(n, n)[bj]);
    assert(qft_block(n, i)[j - i] == QftStep::ControlledPhase {
        control: i as usize,
        target: (i + 1 + (j - i - 1)) as usize,
        k: (1 + (j - i - 1)) as usize,
    });
}

/// The layout of the quantum Fourier transform has a Hadamard gate on every
/// qubit.
pub proof fn lemma_qft_hadamard_each(n: nat, q: nat)
    requires
        q < n,
    ensures
        exists|a: int|
            0 <= a < qft_steps(n).len() && #[trigger] qft_steps(n)[a] == QftStep::Hadamard(q as usize),
{
    let b = qft_blocks(n, q).len() as int;
    lemma_blocks_index(n, n, q, 0);
    assert(qft_steps(n)[b] == qft_blocks(n, n)[b]);
}

/// The position that the qubit at position `q` is moved to by `step`: a
/// swap exchanges its two qubits, and the other steps move no qubit.
pub open spec fn step_moves(step: QftStep, q: nat) -> nat {
    match step {
        QftStep::Swap(a, b) => if q == a {
            b as nat
        } else if q == b {
            a as nat
        } else {
            q
        },
        _ => q,
    }
}

/// The position that the qubit at position `q` is moved to by `steps`, in order.
pub open spec fn moved(steps: Seq<QftStep>, q: nat) -> nat
    decreases steps.len(),
{
    if steps.len() == 0 {
        q
    } else {
        step_moves(steps.last(), moved(steps.drop_last(), q))
    }
}

/// Moving through `a` and then `b` is moving through `a + b`.
proof fn lemma_moved_concat(a: Seq<QftStep>, b: Seq<QftStep>, q: nat)
    ensures
        moved(a + b, q) == moved(b, moved(a, q)),
    decreases b.len(),
{
    if b.len() > 0 {
        lemma_moved_concat(a, b.drop_last(), q);
        assert((a + b).drop_last() =~= a + b.drop_last());
        assert((a + b).last() == b.last());
    }
}

/// Steps without swaps move no qubit.
proof fn lemma_moved_no_swaps(steps: Seq<QftStep>, q: nat)
    requires
        forall|j: int| 0 <= j < steps.len() ==> !(#[trigger] steps[j] is Swap),
    ensures
        moved(steps, q) == q,
    decreases steps.len(),
{
    if steps.len() > 0 {
        assert(!(steps[steps.len() - 1] is Swap));
        lemma_moved_no_swaps(steps.drop_last(), q);
    }
}

/// The blocks of the layout move no qubit.
proof fn lemma_moved_blocks(n: nat, m: nat, q: nat)
    ensures
        moved(qft_blocks(n, m), q) == q,
    decreases m,
{
    if m > 0 {
        let i = (m - 1) as nat;
        lemma_moved_blocks(n, i, q);
        let block = qft_block(n, i);
        assert forall|j: int| 0 <= j < block.len() implies !(#[trigger] block[j] is Swap) by {
            if j > 0 {
                assert(block[j] == QftStep::ControlledPhase {
                    control: i as usize,
                    target: (i + 1 + (j - 1)) as usize,
                    k: (1 + (j - 1)) as usize,
                });
            }
        }
        lemma_moved_no_swaps(block, q);
        lemma_moved_concat(qft_blocks(n, i), block, q);
    }
}

/// After the first `k` swaps of the layout, the qubits at the first `k` and
/// the last `k` positions are reversed and the others stay.
proof fn lemma_moved_swaps(n: nat, k: nat, q: nat)
    requires
        k <= n / 2,
        q < n,
        n <= usize::MAX,
    ensures
        moved(qft_swaps(n).take(k as int), q) == if q < k || n - 1 - q < k {
            (n - 1 - q) as nat
        } else {
            q
        },
    decreases k,
{
    let sw = qft_swaps(n);
    if k > 0 {
        let j = (k - 1) as nat;
        lemma_moved_swaps(n, j, q);
        assert(sw.take(k as int).drop_last() =~= sw.take(j as int));
        assert(sw.take(k as int).last() == QftStep::Swap(j as usize, (n - 1 - j) as usize));
    } else {
        assert(sw.take(0).len() == 0);
    }
}

/// The layout of the quantum Fourier transform ends with the qubits in
/// reverse order: its swaps take the qubit at position `q` to position
/// `n - 1 - q`, and no other step moves a qubit.
pub proof fn lemma_qft_reverses_qubits(n: nat)
    requires
        n <= usize::MAX,
    ensures
        forall|q: nat| q < n ==> #[trigger] moved(qft_steps(n), q) == n - 1 - q,
{
    assert forall|q: nat| q < n implies #[trigger] moved(qft_steps(n), q) == n - 1 - q by {
        lemma_moved_concat(qft_blocks(n, n), qft_swaps(n), q);
        lemma_moved_blocks(n, n, q);
        lemma_moved_swaps(n, n / 2, q);
        assert(qft_swaps(n).take((n / 2) as int) =~= qft_swaps(n));
    }
}

/// Only a measurement records: a step of a run has a record exactly when
/// it is a measurement that was not refused, and the record is its qubit
/// and the bit that the measurement observed.
pub proof fn lemma_only_measurements_record<
    A,
    W,
    S,
    F: Fn(A, A, A, A) -> A,
    D: Fn(&Vec<A>, &Vec<A>) -> A,
    G: Fn(A) -> W,
    P: Fn(W, W) -> W,
    O: Fn(W) -> (bool, S),
    R: Fn(A, S) -> A,
>(
    gs: Seq<GateModel<A>>,
    nq: usize,
    states: Seq<Seq<A>>,
    outs: Seq<Result<Option<(usize, u8)>, SimError>>,
    k: Arithmetic<A, W, F, D, G, P, O, R>,
)
    requires
        run_trace(gs, nq, states, outs, k),
    ensures
        forall|j: int|
            0 <= j < outs.len() ==> match #[trigger] outs[j] {
                Ok(Some((q, v))) => gs[j] == GateModel::<A>::Measure(q) && (v == 0 || v == 1)
                    && measured(states[j], q, v == 1, k.measure, states[j + 1]),
                Ok(None) => !(gs[j] is Measure),
                Err(_) => true,
            },
{
    assert forall|j: int| 0 <= j < outs.len() implies match #[trigger] outs[j] {
        Ok(Some((q, v))) => gs[j] == GateModel::<A>::Measure(q) && (v == 0 || v == 1) && measured(
            states[j],
            q,
            v == 1,
            k.measure,
            states[j + 1],
        ),
        Ok(None) => !(gs[j] is Measure),
        Err(_) => true,
    } by {
        assert(gate_step(gs[j], nq, states[j], states[j + 1], outs[j], k));
    }
}

/// The layout of gates of the quantum Fourier transform on `num_qubits` qubits:
/// for each qubit in order, its Hadamard gate and its controlled phase gates,
/// then the swaps that reverse the qubits.
pub fn qft_layout(num_qubits: usize) -> (steps: Vec<QftStep>)
    ensures
        steps@ == qft_steps(num_qubits as nat),
{
    let n = num_qubits;
    let mut steps: Vec<QftStep> = Vec::new();
    let mut i: usize = 0;
    while i < n
        invariant
            i <= n,
            steps@ == qft_blocks(n as nat, i as nat),
        decreases n - i,
    {
        let ghost start = steps@;
        steps.push(QftStep::Hadamard(i));
        let mut j: usize = i + 1;
        while j < n
            invariant
                i < n,
                i + 1 <= j <= n,
                steps@ == start + qft_block(n as nat, i as nat).take(j - i),
            decreases n - j,
        {
            proof {
                assert(qft_block(n as nat, i as nat).take(j - i + 1) =~= qft_block(
                    n as nat,
                    i as nat,
                ).take(j - i).push(
                    QftStep::ControlledPhase { control: i, target: j, k: (j - i) as usize },
                ));
            }
            steps.push(QftStep::ControlledPhase { control: i, target: j, k: j - i });
            j = j + 1;
        }
        proof {
            assert(qft_block(n as nat, i as nat).take(n - i) =~= qft_block(n as nat, i as nat));
            assert(qft_blocks(n as nat, (i + 1) as nat) == qft_blocks(n as nat, i as nat) + qft_block(
                n as nat,
                i as nat,
            ));
        }
        i = i + 1;
    }
    let ghost front = steps@;
    let mut s: usize = 0;
    while s < n / 2
        invariant
            s <= n / 2,
            steps@ == front + qft_swaps(n as nat).take(s as int),
            front == qft_blocks(n as nat, n as nat),
        decreases n / 2 - s,
    {
        proof {
            assert(qft_swaps(n as nat).take(s + 1) =~= qft_swaps(n as nat).take(s as int).push(
                QftStep::Swap(s, (n - 1 - s) as usize),
            ));
        }
        steps.push(QftStep::Swap(s, n - 1 - s));
        s = s + 1;
    }
    proof {
        assert(qft_swaps(n as nat).take((n / 2) as int) =~= qft_swaps(n as nat));
    }
    steps
}

/// `raw` holds one gate per qubit, each a possible result of `gate` on that qubit.
pub open spec fn built_from<A, G: Fn(usize) -> Gate<A>>(raw: Seq<Gate<A>>, num_qubits: usize, gate: G) -> bool {
    &&& raw.len() == num_qubits
    &&& forall|q: int| 0 <= q < num_qubits ==> call_ensures(gate, (q as usize,), #[trigger] raw[q])
}

/// The circuit of `gate(q)` for each qubit `q` below `num_qubits`, in order,
/// made as `Circuit::new` makes one (fusing with `dot2`).
pub fn build_circuit<A: Copy, G: Fn(usize) -> Gate<A>, F: Fn(A, A, A, A) -> A>(
    num_qubits: usize,
    gate: G,
    dot2: &F,
) -> (c: Circuit<A>)
    requires
        forall|q: usize| q < num_qubits ==> #[trigger] call_requires(gate, (q,)),
        total4(*dot2),
    ensures
        exists|raw: Seq<Gate<A>>|
            #[trigger] built_from(raw, num_qubits, gate) && (single_qubit_count(models(raw))
                >= FUSION_THRESHOLD ==> fused_from(models(raw), 0, models(c.gates@), *dot2)) && (
            single_qubit_count(models(raw)) < FUSION_THRESHOLD ==> c.gates@ == raw),
{
    let mut gates: Vec<Gate<A>> = Vec::new();
    let mut qubit: usize = 0;
    while qubit < num_qubits
        invariant
            qubit <= num_qubits,
            forall|q: usize| q < num_qubits ==> #[trigger] call_requires(gate, (q,)),
            gates@.len() == qubit,
            forall|q: int| 0 <= q < qubit ==> call_ensures(gate, (q as usize,), #[trigger] gates@[q]),
        decreases num_qubits - qubit,
    {
        let g = gate(qubit);
        let ghost prev = gates@;
        gates.push(g);
        proof {
            assert forall|q: int| 0 <= q < qubit + 1 implies call_ensures(
                gate,
                (q as usize,),
                #[trigger] gates@[q],
            ) by {
                if q < qubit {
                    assert(gates@[q] == prev[q]);
                }
            }
        }
        qubit = qubit + 1;
    }
    let ghost raw = gates@;
    let c = Circuit::new(gates, dot2);
    proof {
        assert(built_from(raw, num_qubits, gate));
    }
    c
}

} // verus!
