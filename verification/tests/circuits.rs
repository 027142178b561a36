use num_complex::Complex;
use qitesse::circuit::{build_circuit, qft_layout, Arithmetic, Circuit, QftStep};
use qitesse::gate::{make_controlled_unitary_gate, make_unitary_gate, Gate};
use qitesse::matrix::{swap_matrix, x_matrix, y_matrix};
use qitesse::state::{Measurement, StateVector};
use rand::Rng;

type C32 = Complex<f32>;

fn c32(re: f32, im: f32) -> C32 {
    Complex::new(re, im)
}

fn zero() -> C32 {
    c32(0.0, 0.0)
}

fn one() -> C32 {
    c32(1.0, 0.0)
}

fn exp_i(theta: f32) -> C32 {
    Complex::from_polar(1.0f32, theta)
}

fn dot2(w: C32, x: C32, y: C32, z: C32) -> C32 {
    w * x + y * z
}

fn dot(row: &Vec<C32>, col: &Vec<C32>) -> C32 {
    let mut sum = c32(0.0, 0.0);
    for k in 0..row.len() {
        sum += row[k] * col[k];
    }
    sum
}

fn is_unitary(matrix: &Vec<C32>, dim: usize) -> bool {
    for row in 0..dim {
        for col in 0..dim {
            let mut sum = c32(0.0, 0.0);
            for k in 0..dim {
                sum += matrix[row * dim + k] * matrix[col * dim + k].conj();
            }
            let expected = if row == col { c32(1.0, 0.0) } else { c32(0.0, 0.0) };
            if (sum - expected).norm() > 1e-3 {
                return false;
            }
        }
    }
    true
}

fn weigh(amp: C32) -> f32 {
    amp.norm_sqr()
}

fn accumulate(p: f32, w: f32) -> f32 {
    p + w
}

fn decide(p1: f32) -> (bool, f32) {
    let measured_one = rand::thread_rng().gen::<f32>() < p1;
    let norm = if measured_one { p1.sqrt() } else { (1.0 - p1).sqrt() };
    (measured_one, norm)
}

fn rescale(amp: C32, norm: f32) -> C32 {
    if norm > 0.0 {
        amp / norm
    } else {
        c32(0.0, 0.0)
    }
}

fn arithmetic() -> Arithmetic<
    C32,
    f32,
    fn(C32, C32, C32, C32) -> C32,
    fn(&Vec<C32>, &Vec<C32>) -> C32,
    fn(C32) -> f32,
    fn(f32, f32) -> f32,
    fn(f32) -> (bool, f32),
    fn(C32, f32) -> C32,
> {
    Arithmetic {
        dot2,
        dot,
        measure: Measurement {
            weigh,
            accumulate,
            no_weight: 0.0,
            decide,
            rescale,
            zero: zero(),
        },
        unit: one(),
    }
}

fn x() -> Vec<C32> {
    x_matrix(zero(), one())
}

fn h_matrix() -> Vec<C32> {
    let v = 1.0f32 / std::f32::consts::SQRT_2;
    vec![c32(v, 0.0), c32(v, 0.0), c32(v, 0.0), c32(-v, 0.0)]
}

fn phase_matrix(theta: f32) -> Vec<C32> {
    vec![c32(1.0, 0.0), c32(0.0, 0.0), c32(0.0, 0.0), exp_i(theta)]
}

fn new_circuit(gates: Vec<Gate<C32>>) -> Circuit<C32> {
    Circuit::new(gates, &dot2)
}

fn run(circuit: &Circuit<C32>, num_qubits: usize) -> (StateVector<C32>, Vec<(usize, u8)>) {
    let mut state = StateVector::new(num_qubits, zero(), one());
    let measurements = circuit.run(&mut state, &arithmetic()).unwrap();
    (state, measurements)
}

fn qft_circuit(num_qubits: usize) -> Circuit<C32> {
    let mut gates = Vec::new();
    for step in qft_layout(num_qubits) {
        let gate = match step {
            QftStep::Hadamard(q) => make_unitary_gate(vec![q], h_matrix(), &is_unitary).unwrap(),
            QftStep::ControlledPhase { control, target, k } => {
                let theta = std::f32::consts::PI / (1usize << k) as f32;
                make_controlled_unitary_gate(
                    vec![control],
                    vec![target],
                    phase_matrix(theta),
                    zero(),
                    one(),
                    &is_unitary,
                )
                .unwrap()
            }
            QftStep::Swap(a, b) => {
                make_unitary_gate(vec![a, b], swap_matrix(zero(), one()), &is_unitary).unwrap()
            }
        };
        gates.push(gate);
    }
    new_circuit(gates)
}

fn assert_state_close(actual: &[C32], expected: &[C32]) {
    assert_eq!(actual.len(), expected.len());
    for (lhs, rhs) in actual.iter().zip(expected.iter()) {
        assert!(
            (*lhs - *rhs).norm() < 1e-4,
            "state mismatch: left={:?}, right={:?}",
            lhs,
            rhs
        );
    }
}

#[test]
fn x_gate_flips_zero_to_one() {
    let circuit = new_circuit(vec![make_unitary_gate(vec![0], x(), &is_unitary).unwrap()]);
    let (state, _) = run(&circuit, 1);
    assert_state_close(&state.amps, &[c32(0.0, 0.0), c32(1.0, 0.0)]);
}

#[test]
fn cnot_creates_bell_pair() {
    let circuit = new_circuit(vec![
        make_unitary_gate(vec![0], h_matrix(), &is_unitary).unwrap(),
        make_controlled_unitary_gate(vec![0], vec![1], x(), zero(), one(), &is_unitary).unwrap(),
    ]);
    let (state, _) = run(&circuit, 2);
    let v = 1.0f32 / std::f32::consts::SQRT_2;
    assert_state_close(
        &state.amps,
        &[c32(v, 0.0), c32(0.0, 0.0), c32(0.0, 0.0), c32(v, 0.0)],
    );
}

#[test]
fn swap_moves_excitation() {
    let circuit = new_circuit(vec![
        make_unitary_gate(vec![0], x(), &is_unitary).unwrap(),
        make_unitary_gate(vec![0, 1], swap_matrix(zero(), one()), &is_unitary).unwrap(),
    ]);
    let (state, _) = run(&circuit, 2);
    assert_state_close(
        &state.amps,
        &[c32(0.0, 0.0), c32(0.0, 0.0), c32(1.0, 0.0), c32(0.0, 0.0)],
    );
}

#[test]
fn toffoli_flips_target() {
    let circuit = new_circuit(vec![
        make_unitary_gate(vec![0], x(), &is_unitary).unwrap(),
        make_unitary_gate(vec![1], x(), &is_unitary).unwrap(),
        make_controlled_unitary_gate(vec![0, 1], vec![2], x(), zero(), one(), &is_unitary).unwrap(),
    ]);
    let (state, _) = run(&circuit, 3);
    let mut expected = vec![c32(0.0, 0.0); 8];
    expected[7] = c32(1.0, 0.0);
    assert_state_close(&state.amps, &expected);
}

#[test]
fn custom_unitary_matches_pauli_y() {
    let y = y_matrix(zero(), c32(0.0, 1.0), c32(0.0, -1.0));
    let circuit = new_circuit(vec![make_unitary_gate(vec![0], y, &is_unitary).unwrap()]);
    let (state, _) = run(&circuit, 1);
    assert_state_close(&state.amps, &[c32(0.0, 0.0), c32(0.0, 1.0)]);
}

#[test]
fn reset_returns_qubit_to_zero() {
    let circuit = new_circuit(vec![
        make_unitary_gate(vec![0], x(), &is_unitary).unwrap(),
        Gate::Reset(0),
    ]);
    let (state, _) = run(&circuit, 1);
    assert_state_close(&state.amps, &[c32(1.0, 0.0), c32(0.0, 0.0)]);
}

#[test]
fn measurement_records_observed_bit() {
    let circuit = new_circuit(vec![
        make_unitary_gate(vec![0], x(), &is_unitary).unwrap(),
        Gate::Measure(0),
    ]);
    let (state, measurements) = run(&circuit, 1);
    assert_eq!(measurements, vec![(0, 1)]);
    assert_state_close(&state.amps, &[c32(0.0, 0.0), c32(1.0, 0.0)]);
}

#[test]
fn qft_circuit_on_zero_state_is_uniform() {
    let circuit = qft_circuit(2);
    let (state, _) = run(&circuit, 2);
    let expected = vec![c32(0.5, 0.0), c32(0.5, 0.0), c32(0.5, 0.0), c32(0.5, 0.0)];
    assert_state_close(&state.amps, &expected);
}

#[test]
fn build_circuit_applies_gate_to_each_qubit() {
    let circuit = build_circuit(
        3,
        |qubit| make_unitary_gate(vec![qubit], x(), &is_unitary).unwrap(),
        &dot2,
    );
    let (state, _) = run(&circuit, 3);
    let mut expected = vec![c32(0.0, 0.0); 8];
    expected[7] = c32(1.0, 0.0);
    assert_state_close(&state.amps, &expected);
}

#[test]
fn measuring_an_unset_qubit_records_zero() {
    let circuit = new_circuit(vec![Gate::Measure(1), Gate::Barrier, Gate::Measure(0)]);
    let (state, measurements) = run(&circuit, 2);
    assert_eq!(measurements, vec![(1, 0), (0, 0)]);
    assert_state_close(&state.amps, &[one(), zero(), zero(), zero()]);
}

#[test]
fn reset_after_superposition_clears_the_qubit() {
    for _ in 0..20 {
        let circuit = new_circuit(vec![
            make_unitary_gate(vec![1], h_matrix(), &is_unitary).unwrap(),
            Gate::Reset(1),
        ]);
        let (state, _) = run(&circuit, 2);
        assert_state_close(&state.amps, &[one(), zero(), zero(), zero()]);
    }
}

#[test]
fn run_stops_at_the_first_refused_gate() {
    let circuit = new_circuit(vec![
        make_unitary_gate(vec![0], x(), &is_unitary).unwrap(),
        Gate::Measure(0),
        Gate::Measure(5),
        make_unitary_gate(vec![0], x(), &is_unitary).unwrap(),
    ]);
    let mut state = StateVector::new(1, zero(), one());
    let result = circuit.run(&mut state, &arithmetic());
    assert_eq!(
        result,
        Err(qitesse::error::SimError::QubitOutOfRange { qubit: 5, num_qubits: 1 })
    );
    assert_state_close(&state.amps, &[zero(), one()]);
}

#[test]
fn operation_on_qubit_outside_register_is_refused() {
    let circuit = new_circuit(vec![make_unitary_gate(vec![0, 2], swap_matrix(zero(), one()), &is_unitary).unwrap()]);
    let mut state = StateVector::new(2, zero(), one());
    let result = circuit.run(&mut state, &arithmetic());
    assert_eq!(
        result,
        Err(qitesse::error::SimError::QubitOutOfRange { qubit: 2, num_qubits: 2 })
    );
    assert_state_close(&state.amps, &[one(), zero(), zero(), zero()]);
}

#[test]
fn reversed_targets_apply_the_matrix_with_the_first_target_most_significant() {
    // CNOT with qubit 1 as control, written on targets [1, 0].
    let cnot = vec![
        one(), zero(), zero(), zero(),
        zero(), one(), zero(), zero(),
        zero(), zero(), zero(), one(),
        zero(), zero(), one(), zero(),
    ];
    let circuit = new_circuit(vec![
        make_unitary_gate(vec![1], x(), &is_unitary).unwrap(),
        make_unitary_gate(vec![1, 0], cnot, &is_unitary).unwrap(),
    ]);
    let (state, _) = run(&circuit, 2);
    assert_state_close(&state.amps, &[zero(), zero(), zero(), one()]);
}
