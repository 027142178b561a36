use qitesse::circuit::{qft_layout, Arithmetic, Circuit, QftStep};
use qitesse::error::SimError;
use qitesse::fuse::fuse_gates;
use qitesse::gate::{make_controlled_unitary_gate, make_unitary_gate, Gate, Operation};
use qitesse::index::{
    clear_target_bits, compose_index, ensure_unique_qubits, extract_sub_index, matrix_dim,
};
use qitesse::matrix::{
    controlled_matrix, i_matrix, identity_matrix, iswap_matrix, swap_matrix, x_matrix, z_matrix,
    Mat2,
};
use qitesse::state::{Measurement, StateVector};

// Integer amplitudes: the library never looks inside them, so small integers
// make its index arithmetic easy to read off.
fn dot2(w: i64, x: i64, y: i64, z: i64) -> i64 {
    w * x + y * z
}

fn dot(row: &Vec<i64>, col: &Vec<i64>) -> i64 {
    row.iter().zip(col.iter()).map(|(a, b)| a * b).sum()
}

fn always(_: &Vec<i64>, _: usize) -> bool {
    true
}

fn never(_: &Vec<i64>, _: usize) -> bool {
    false
}

fn op_gate(targets: Vec<usize>, matrix: Vec<i64>) -> Gate<i64> {
    make_unitary_gate(targets, matrix, &always).unwrap()
}

fn targets_of(g: &Gate<i64>) -> Vec<usize> {
    match g {
        Gate::Operation(op) => op.targets.clone(),
        _ => panic!("not an operation"),
    }
}

fn matrix_of(g: &Gate<i64>) -> Vec<i64> {
    match g {
        Gate::Operation(op) => op.matrix.clone(),
        _ => panic!("not an operation"),
    }
}

#[test]
fn matrix_dim_is_a_power_of_two() {
    assert_eq!(matrix_dim(0), Ok(1));
    assert_eq!(matrix_dim(3), Ok(8));
    assert_eq!(matrix_dim(63), Ok(1usize << 63));
    assert_eq!(matrix_dim(64), Err(SimError::TooManyQubits { num_qubits: 64 }));
}

#[test]
fn matrix_dim_takes_the_count_modulo_two_to_the_32() {
    let n: usize = (1usize << 32) + 3;
    assert_eq!(matrix_dim(n), Ok(8));
}

#[test]
fn ensure_unique_qubits_names_the_first_repeated_qubit() {
    assert_eq!(ensure_unique_qubits(&[0, 3, 1]), Ok(()));
    assert_eq!(ensure_unique_qubits(&[]), Ok(()));
    assert_eq!(
        ensure_unique_qubits(&[1, 2, 1, 2]),
        Err(SimError::DuplicateQubit { qubit: 1 })
    );
    assert_eq!(
        ensure_unique_qubits(&[3, 1, 2, 2]),
        Err(SimError::DuplicateQubit { qubit: 2 })
    );
}

#[test]
fn clear_extract_and_compose_on_a_given_index() {
    assert_eq!(clear_target_bits(0b1011, &[0, 3]), 0b0010);
    assert_eq!(extract_sub_index(0b1011, &[0, 2, 3]), 0b101);
    assert_eq!(extract_sub_index(0b1011, &[3, 2, 0]), 0b101);
    assert_eq!(extract_sub_index(0b0110, &[1, 3]), 0b10);
    assert_eq!(compose_index(0b0100, &[0, 2, 3], 0b101), 0b1001);
    assert_eq!(compose_index(0, &[], 7), 0);
}

#[test]
fn composing_the_split_of_an_index_gives_it_back() {
    let targets = [2usize, 0, 3];
    for index in 0..64usize {
        let base = clear_target_bits(index, &targets);
        let sub = extract_sub_index(index, &targets);
        assert!(sub < 8);
        assert_eq!(compose_index(base, &targets, sub), index);
    }
    for base in [0usize, 0b10, 0b110010] {
        for sub in 0..8usize {
            let index = compose_index(base, &targets, sub);
            assert_eq!(extract_sub_index(index, &targets), sub);
            assert_eq!(
                clear_target_bits(index, &targets),
                clear_target_bits(base, &targets)
            );
        }
    }
}

#[test]
fn identity_and_fixed_matrices() {
    assert_eq!(identity_matrix(3, 0, 1), vec![1, 0, 0, 0, 1, 0, 0, 0, 1]);
    assert_eq!(identity_matrix(0, 0, 1), Vec::<i64>::new());
    assert_eq!(i_matrix(0, 1), vec![1, 0, 0, 1]);
    assert_eq!(x_matrix(0, 1), vec![0, 1, 1, 0]);
    assert_eq!(z_matrix(0, 1, -1), vec![1, 0, 0, -1]);
    assert_eq!(
        swap_matrix(0, 1),
        vec![1, 0, 0, 0, 0, 0, 1, 0, 0, 1, 0, 0, 0, 0, 0, 1]
    );
    assert_eq!(
        iswap_matrix(0, 1, 7),
        vec![1, 0, 0, 0, 0, 0, 7, 0, 0, 7, 0, 0, 0, 0, 0, 1]
    );
}

#[test]
fn controlled_matrix_places_the_target_in_the_last_block() {
    let cnot = controlled_matrix(1, 1, &[0, 1, 1, 0], 0, 1).unwrap();
    assert_eq!(cnot, vec![1, 0, 0, 0, 0, 1, 0, 0, 0, 0, 0, 1, 0, 0, 1, 0]);
    let ccz = controlled_matrix(2, 1, &[5, 6, 7, 8], 0, 1).unwrap();
    let mut expected = identity_matrix(8, 0, 1);
    expected[6 * 8 + 6] = 5;
    expected[6 * 8 + 7] = 6;
    expected[7 * 8 + 6] = 7;
    expected[7 * 8 + 7] = 8;
    assert_eq!(ccz, expected);
}

#[test]
fn controlled_matrix_refusals() {
    assert_eq!(
        controlled_matrix(0, 1, &[0, 1, 1, 0], 0, 1),
        Err(SimError::ControlledOperationNoControls)
    );
    assert_eq!(
        controlled_matrix(1, 1, &[0, 1, 1], 0, 1),
        Err(SimError::ControlledOperationShape)
    );
}

#[test]
fn mat2_from_slice_mul_and_into_vec() {
    assert!(Mat2::from_slice(&[1i64, 2, 3]).is_none());
    let a = Mat2::from_slice(&[1i64, 2, 3, 4]).unwrap();
    let b = Mat2::from_slice(&[5i64, 6, 7, 8]).unwrap();
    let p = a.mul(&b, &dot2);
    assert_eq!(p.into_vec(), vec![19, 22, 43, 50]);
    assert_eq!(a.into_vec(), vec![1, 2, 3, 4]);
}

#[test]
fn operation_refusals_in_order() {
    let r = Operation::new(vec![], vec![1i64, 0, 0, 1], &always);
    assert!(matches!(r, Err(SimError::NoTargets)));
    let r = Operation::new(vec![1, 1], vec![1i64; 16], &always);
    assert!(matches!(r, Err(SimError::DuplicateQubit { qubit: 1 })));
    let r = Operation::new(vec![0, 1], vec![1i64; 4], &always);
    assert!(matches!(
        r,
        Err(SimError::MatrixShape { expected: 16, targets: 2, got: 4 })
    ));
    let r = Operation::new(vec![0], vec![1i64, 0, 0, 1], &never);
    assert!(matches!(r, Err(SimError::NotUnitary)));
    let r = Operation::new((0..64).collect(), vec![1i64], &always);
    assert!(matches!(r, Err(SimError::TooManyQubits { num_qubits: 64 })));
    let op = Operation::single_qubit(4, vec![1i64, 0, 0, 1], &always).unwrap();
    assert_eq!(op.targets, vec![4]);
    assert!(op.is_single_qubit());
    let two = Operation::new(vec![0, 1], vec![1i64; 16], &always).unwrap();
    assert!(!two.is_single_qubit());
}

#[test]
fn controlled_gate_refusals_in_order() {
    let x = x_matrix(0i64, 1);
    let r = make_controlled_unitary_gate(vec![], vec![1], x.clone(), 0, 1, &always);
    assert!(matches!(r, Err(SimError::NoControls)));
    let r = make_controlled_unitary_gate(vec![0], vec![], x.clone(), 0, 1, &always);
    assert!(matches!(r, Err(SimError::NoControlledTargets)));
    let r = make_controlled_unitary_gate(vec![0], vec![1, 2], x.clone(), 0, 1, &always);
    assert!(matches!(
        r,
        Err(SimError::ControlledMatrixShape { expected: 16, targets: 2, got: 4 })
    ));
    let r = make_controlled_unitary_gate(vec![0], vec![1], x.clone(), 0, 1, &never);
    assert!(matches!(r, Err(SimError::NotUnitary)));
    let r = make_controlled_unitary_gate(vec![1], vec![1], x.clone(), 0, 1, &always);
    assert!(matches!(r, Err(SimError::DuplicateQubit { qubit: 1 })));
    let g = make_controlled_unitary_gate(vec![2], vec![0], x, 0, 1, &always).unwrap();
    assert_eq!(targets_of(&g), vec![2, 0]);
    assert_eq!(
        matrix_of(&g),
        vec![1, 0, 0, 0, 0, 1, 0, 0, 0, 0, 0, 1, 0, 0, 1, 0]
    );
}

#[test]
fn fusion_multiplies_runs_on_one_qubit() {
    let a = vec![1i64, 2, 3, 4];
    let b = vec![5i64, 6, 7, 8];
    let gates = vec![
        op_gate(vec![0], a.clone()),
        op_gate(vec![0], b.clone()),
        op_gate(vec![1], a.clone()),
        Gate::Measure(0),
        op_gate(vec![0], b.clone()),
        op_gate(vec![0, 1], vec![1; 16]),
    ];
    let fused = fuse_gates(&gates, &dot2);
    assert_eq!(fused.len(), 5);
    assert_eq!(targets_of(&fused[0]), vec![0]);
    // b * a, the later gate on the left.
    assert_eq!(matrix_of(&fused[0]), vec![23, 34, 31, 46]);
    assert_eq!(targets_of(&fused[1]), vec![1]);
    assert_eq!(matrix_of(&fused[1]), a);
    assert!(matches!(fused[2], Gate::Measure(0)));
    assert_eq!(matrix_of(&fused[3]), b);
    assert_eq!(targets_of(&fused[4]), vec![0, 1]);
}

#[test]
fn circuits_fuse_from_sixteen_single_qubit_operations() {
    let m = vec![1i64, 1, 0, 1];
    let fifteen: Vec<Gate<i64>> = (0..15).map(|_| op_gate(vec![0], m.clone())).collect();
    assert_eq!(Circuit::new(fifteen, &dot2).gates.len(), 15);
    let sixteen: Vec<Gate<i64>> = (0..16).map(|_| op_gate(vec![0], m.clone())).collect();
    let circuit = Circuit::new(sixteen, &dot2);
    assert_eq!(circuit.gates.len(), 1);
    assert_eq!(matrix_of(&circuit.gates[0]), vec![1, 16, 0, 1]);
}

#[test]
fn qft_layout_of_three_qubits() {
    assert_eq!(
        qft_layout(3),
        vec![
            QftStep::Hadamard(0),
            QftStep::ControlledPhase { control: 0, target: 1, k: 1 },
            QftStep::ControlledPhase { control: 0, target: 2, k: 2 },
            QftStep::Hadamard(1),
            QftStep::ControlledPhase { control: 1, target: 2, k: 1 },
            QftStep::Hadamard(2),
            QftStep::Swap(0, 2),
        ]
    );
    assert_eq!(qft_layout(0), vec![]);
}

#[test]
fn new_state_is_the_all_zero_basis_state() {
    let s = StateVector::new(3, 0i64, 1);
    assert_eq!(s.num_qubits, 3);
    assert_eq!(s.amps, vec![1, 0, 0, 0, 0, 0, 0, 0]);
}

#[test]
fn validate_targets_refusals() {
    let s = StateVector::new(2, 0i64, 1);
    assert_eq!(s.validate_targets(&[0, 1]), Ok(()));
    assert_eq!(
        s.validate_targets(&[0, 5, 7]),
        Err(SimError::QubitOutOfRange { qubit: 5, num_qubits: 2 })
    );
    assert_eq!(
        s.validate_targets(&[7, 0, 7]),
        Err(SimError::DuplicateQubit { qubit: 7 })
    );
}

#[test]
fn apply_mat2_pairs_each_index_with_its_partner() {
    let mut s = StateVector { num_qubits: 2, amps: vec![1i64, 2, 3, 4] };
    let m = Mat2 { m00: 1, m01: 10, m10: 100, m11: 1000 };
    s.apply_mat2(1, &m, &dot2);
    // Pairs (0, 2) and (1, 3).
    assert_eq!(s.amps, vec![1 + 30, 2 + 40, 100 + 3000, 200 + 4000]);
}

#[test]
fn apply_operation_gathers_the_target_block() {
    let mut s = StateVector { num_qubits: 3, amps: vec![1i64, 2, 3, 4, 5, 6, 7, 8] };
    // On targets [2, 0]: the sub-index is (bit 2, bit 0); a matrix that
    // returns the amplitude of sub-index 3 in every row.
    let row = vec![0i64, 0, 0, 1];
    let mut matrix = Vec::new();
    for _ in 0..4 {
        matrix.extend(row.iter().copied());
    }
    let op = Operation::new(vec![2, 0], matrix, &always).unwrap();
    s.apply_operation(&op, &dot2, &dot).unwrap();
    // Index with bit 1 clear -> amplitude of index 0b101 (6); set -> 0b111 (8).
    assert_eq!(s.amps, vec![6, 6, 8, 8, 6, 6, 8, 8]);
}

#[test]
fn apply_operation_refuses_bad_targets_and_keeps_the_state() {
    let mut s = StateVector { num_qubits: 1, amps: vec![1i64, 2] };
    let op = Operation { targets: vec![3], matrix: vec![0i64, 1, 1, 0] };
    assert_eq!(
        s.apply_operation(&op, &dot2, &dot),
        Err(SimError::QubitOutOfRange { qubit: 3, num_qubits: 1 })
    );
    assert_eq!(s.amps, vec![1, 2]);
}

#[test]
fn measure_and_reset_collapse_onto_the_outcome() {
    let mut s = StateVector { num_qubits: 2, amps: vec![1i64, 2, 3, 4] };
    // The decision sees the summed weight of the basis states with the
    // qubit set and keeps it as the scale.
    let keep = Measurement {
        weigh: |a: i64| a * a,
        accumulate: |v: i64, w: i64| v + w,
        no_weight: 0i64,
        decide: |t: i64| (true, t),
        rescale: |a: i64, s: i64| a * s,
        zero: 0i64,
    };
    // Qubit 0 is set in indices 1 and 3: weight 4 + 16.
    assert_eq!(s.measure_qubit(0, &keep), Ok(1));
    assert_eq!(s.amps, vec![0, 40, 0, 80]);
    assert_eq!(
        s.measure_qubit(2, &keep),
        Err(SimError::QubitOutOfRange { qubit: 2, num_qubits: 2 })
    );
    let above = |limit: i64| Measurement {
        weigh: |a: i64| a * a,
        accumulate: |v: i64, w: i64| v + w,
        no_weight: 0i64,
        decide: move |t: i64| (t > limit, 1i64),
        rescale: |a: i64, s: i64| a * s,
        zero: 0i64,
    };
    // Weight 1600 + 6400 on qubit 0: one, then flipped back to zero.
    s.reset_qubit(0, &above(0), 1, &dot2).unwrap();
    assert_eq!(s.amps, vec![40, 0, 80, 0]);
    // Weight 6400 on qubit 1 is not above 10000: zero, no flip.
    s.reset_qubit(1, &above(10000), 1, &dot2).unwrap();
    assert_eq!(s.amps, vec![40, 0, 0, 0]);
}

#[test]
fn fusing_a_run_gives_the_amplitudes_of_applying_it_gate_by_gate() {
    let mats = [
        vec![1i64, 2, 3, 4],
        vec![0i64, 1, 1, 0],
        vec![2i64, -1, 5, 3],
    ];
    let gates: Vec<Gate<i64>> = mats.iter().map(|m| op_gate(vec![1], m.clone())).collect();
    let fused = fuse_gates(&gates, &dot2);
    assert_eq!(fused.len(), 1);
    let start = vec![1i64, -2, 3, 5, 7, -11, 13, 17];
    let mut one_by_one = StateVector { num_qubits: 3, amps: start.clone() };
    for m in &mats {
        let m2 = Mat2::from_slice(m).unwrap();
        one_by_one.apply_mat2(1, &m2, &dot2);
    }
    let mut at_once = StateVector { num_qubits: 3, amps: start };
    let f = Mat2::from_slice(&matrix_of(&fused[0])).unwrap();
    at_once.apply_mat2(1, &f, &dot2);
    assert_eq!(at_once.amps, one_by_one.amps);
}

#[test]
fn qft_layout_names_only_qubits_of_the_register() {
    for n in 0..7usize {
        for step in qft_layout(n) {
            match step {
                QftStep::Hadamard(q) => assert!(q < n),
                QftStep::ControlledPhase { control, target, k } => {
                    assert!(control < target && target < n);
                    assert_eq!(k, target - control);
                }
                QftStep::Swap(a, b) => assert!(a < b && b < n),
            }
        }
    }
}

#[test]
fn controlled_gate_refusals_come_before_any_size() {
    let forty: Vec<usize> = (0..40).collect();
    let r = make_controlled_unitary_gate(vec![], forty.clone(), vec![1i64], 0, 1, &always);
    assert!(matches!(r, Err(SimError::NoControls)));
    let r = make_controlled_unitary_gate(vec![0], vec![], vec![1i64], 0, 1, &always);
    assert!(matches!(r, Err(SimError::NoControlledTargets)));
    assert_eq!(
        controlled_matrix(0, 40, &[1i64], 0, 1),
        Err(SimError::ControlledOperationNoControls)
    );
}

#[test]
fn running_the_fused_circuit_gives_the_same_run_in_exact_arithmetic() {
    let flip = vec![0i64, 1, 1, 0];
    let phase = vec![1i64, 0, 0, -1];
    let shear = vec![1i64, 1, 0, 1];
    let mut raw: Vec<Gate<i64>> = Vec::new();
    for round in 0..3 {
        raw.push(op_gate(vec![0], shear.clone()));
        raw.push(op_gate(vec![0], flip.clone()));
        raw.push(op_gate(vec![0], phase.clone()));
        raw.push(op_gate(vec![1], shear.clone()));
        raw.push(op_gate(vec![1], shear.clone()));
        raw.push(Gate::Measure(round % 2));
        raw.push(op_gate(vec![2], flip.clone()));
        raw.push(op_gate(vec![2], shear.clone()));
        raw.push(op_gate(vec![0, 2], identity_matrix(4, 0, 1)));
        raw.push(Gate::Reset(1));
    }
    let plain = Circuit { gates: raw.clone() };
    let fused = Circuit::new(raw, &dot2);
    assert!(fused.gates.len() < plain.gates.len());
    let k = Arithmetic {
        dot2: dot2,
        dot: dot,
        measure: Measurement {
            weigh: |a: i64| a * a,
            accumulate: |v: i64, w: i64| v + w,
            no_weight: 0i64,
            decide: |t: i64| (t % 2 == 1, 1i64),
            rescale: |a: i64, s: i64| a * s,
            zero: 0i64,
        },
        unit: 1i64,
    };
    let start = vec![1i64, 2, -1, 3, 0, 5, 2, -2];
    let mut a = StateVector { num_qubits: 3, amps: start.clone() };
    let mut b = StateVector { num_qubits: 3, amps: start };
    let ra = plain.run(&mut a, &k);
    let rb = fused.run(&mut b, &k);
    assert!(ra.is_ok());
    assert_eq!(ra, rb);
    assert_eq!(a.amps, b.amps);
    // A refused gate inside a fused run is refused the same way.
    let bad: Vec<Gate<i64>> = (0..16)
        .map(|_| Gate::Operation(Operation { targets: vec![5], matrix: flip.clone() }))
        .collect();
    let plain_bad = Circuit { gates: bad.clone() };
    let fused_bad = Circuit::new(bad, &dot2);
    assert_eq!(fused_bad.gates.len(), 1);
    let mut c = StateVector { num_qubits: 3, amps: vec![1i64, 0, 0, 0, 0, 0, 0, 0] };
    let mut d = StateVector { num_qubits: 3, amps: vec![1i64, 0, 0, 0, 0, 0, 0, 0] };
    let rc = plain_bad.run(&mut c, &k);
    assert_eq!(rc, Err(SimError::QubitOutOfRange { qubit: 5, num_qubits: 3 }));
    assert_eq!(rc, fused_bad.run(&mut d, &k));
    assert_eq!(c.amps, d.amps);
}
