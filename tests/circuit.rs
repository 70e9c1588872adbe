use qcrust::{CircuitError, Operator, QCircuit};

fn amplitudes(c: &QCircuit) -> (Vec<i64>, u32) {
    let s = c.get_state();
    (s.amplitudes.clone(), s.scale)
}

fn as_floats(c: &QCircuit) -> Vec<f64> {
    let s = c.get_state();
    let factor = (0.5f64).sqrt().powi(s.scale as i32);
    s.amplitudes.iter().map(|&m| m as f64 * factor).collect()
}

fn squared_norm_is_one(c: &QCircuit) -> bool {
    let s = c.get_state();
    let total: i128 = s.amplitudes.iter().map(|&m| (m as i128) * (m as i128)).sum();
    total == 1i128 << s.scale
}

fn identity(n: usize) -> Operator {
    let mut entries = Vec::new();
    for r in 0..n {
        let mut row = Vec::new();
        for c in 0..n {
            row.push(if r == c { 1 } else { 0 });
        }
        entries.push(row);
    }
    Operator { entries, scale: 0 }
}

#[test]
fn new_register_starts_in_all_zero_state() {
    for n in 1..=6usize {
        let c = QCircuit::new(n).unwrap();
        let (amps, scale) = amplitudes(&c);
        assert_eq!(amps.len(), 1 << n);
        assert_eq!(amps[0], 1);
        assert!(amps[1..].iter().all(|&a| a == 0));
        assert_eq!(scale, 0);
        assert_eq!(c.num_qubits(), n);
    }
}

#[test]
fn new_rejects_zero_qubits() {
    assert!(matches!(QCircuit::new(0), Err(CircuitError::NoQubits)));
}

#[test]
fn new_rejects_dimension_overflow() {
    assert!(matches!(QCircuit::new(usize::BITS as usize), Err(CircuitError::TooManyQubits)));
    assert!(matches!(QCircuit::new(200), Err(CircuitError::TooManyQubits)));
}

#[test]
fn hadamard_on_one_qubit() {
    let mut c = QCircuit::new(1).unwrap();
    c.h_gate(0).unwrap();
    assert_eq!(amplitudes(&c), (vec![1, 1], 1));
    let f = as_floats(&c);
    let h = std::f64::consts::FRAC_1_SQRT_2;
    assert!((f[0] - h).abs() < 1e-12 && (f[1] - h).abs() < 1e-12);
}

#[test]
fn x_on_one_qubit() {
    let mut c = QCircuit::new(1).unwrap();
    c.x_gate(0).unwrap();
    assert_eq!(amplitudes(&c), (vec![0, 1], 0));
}

#[test]
fn z_flips_sign_of_one() {
    let mut c = QCircuit::new(1).unwrap();
    c.x_gate(0).unwrap();
    c.z_gate(0).unwrap();
    assert_eq!(amplitudes(&c), (vec![0, -1], 0));
}

#[test]
fn x_on_most_significant_qubit() {
    let mut c = QCircuit::new(3).unwrap();
    c.x_gate(0).unwrap();
    assert_eq!(amplitudes(&c), (vec![0, 0, 0, 0, 1, 0, 0, 0], 0));
    let mut d = QCircuit::new(3).unwrap();
    d.x_gate(2).unwrap();
    assert_eq!(amplitudes(&d), (vec![0, 1, 0, 0, 0, 0, 0, 0], 0));
}

#[test]
fn bell_state() {
    let mut c = QCircuit::new(2).unwrap();
    c.h_gate(0).unwrap();
    c.cnot_gate(1, 0).unwrap();
    assert_eq!(amplitudes(&c), (vec![1, 0, 0, 1], 1));
}

#[test]
fn ghz_state_three_qubits() {
    let mut c = QCircuit::new(3).unwrap();
    c.h_gate(0).unwrap();
    c.cnot_gate(1, 0).unwrap();
    c.cnot_gate(2, 0).unwrap();
    assert_eq!(amplitudes(&c), (vec![1, 0, 0, 0, 0, 0, 0, 1], 1));
    let f = as_floats(&c);
    let h = std::f64::consts::FRAC_1_SQRT_2;
    assert!((f[0] - h).abs() < 1e-12 && (f[7] - h).abs() < 1e-12);
}

#[test]
fn ghz_state_ten_qubits() {
    let mut c = QCircuit::new(10).unwrap();
    c.h_gate(0).unwrap();
    for t in 1..10 {
        c.cnot_gate(t, 0).unwrap();
    }
    let (amps, scale) = amplitudes(&c);
    assert_eq!(scale, 1);
    assert_eq!(amps[0], 1);
    assert_eq!(amps[1023], 1);
    assert!(amps[1..1023].iter().all(|&a| a == 0));
}

#[test]
fn cnot_with_target_on_qubit_zero() {
    // Qubit 0 is the target here: its blocks must be I and X, and must not be
    // replaced by those of a qubit that is neither target nor control.
    // control 1 set, target 0: |01> goes to |11>
    let mut c = QCircuit::new(2).unwrap();
    c.x_gate(1).unwrap();
    c.cnot_gate(0, 1).unwrap();
    assert_eq!(amplitudes(&c), (vec![0, 0, 0, 1], 0));
    // control 1 clear: |00> stays
    let mut d = QCircuit::new(2).unwrap();
    d.cnot_gate(0, 1).unwrap();
    assert_eq!(amplitudes(&d), (vec![1, 0, 0, 0], 0));
}

#[test]
fn gates_twice_restore_state() {
    let mut c = QCircuit::new(3).unwrap();
    c.h_gate(0).unwrap();
    c.x_gate(2).unwrap();
    c.cnot_gate(1, 0).unwrap();
    c.h_gate(2).unwrap();
    let before = amplitudes(&c);
    for t in 0..3 {
        c.x_gate(t).unwrap();
        c.x_gate(t).unwrap();
        assert_eq!(amplitudes(&c), before);
        c.z_gate(t).unwrap();
        c.z_gate(t).unwrap();
        assert_eq!(amplitudes(&c), before);
        c.h_gate(t).unwrap();
        c.h_gate(t).unwrap();
        assert_eq!(amplitudes(&c), before);
    }
}

#[test]
fn norm_stays_one() {
    let mut c = QCircuit::new(4).unwrap();
    assert!(squared_norm_is_one(&c));
    c.h_gate(0).unwrap();
    assert!(squared_norm_is_one(&c));
    c.h_gate(1).unwrap();
    assert!(squared_norm_is_one(&c));
    c.h_gate(2).unwrap();
    assert!(squared_norm_is_one(&c));
    c.x_gate(3).unwrap();
    c.x_gate(0).unwrap();
    c.x_gate(2).unwrap();
    c.h_gate(3).unwrap();
    assert!(squared_norm_is_one(&c));
    c.cnot_gate(3, 0).unwrap();
    c.cnot_gate(3, 1).unwrap();
    c.cnot_gate(3, 2).unwrap();
    assert!(squared_norm_is_one(&c));
    c.x_gate(0).unwrap();
    c.h_gate(1).unwrap();
    c.x_gate(2).unwrap();
    c.h_gate(0).unwrap();
    c.h_gate(2).unwrap();
    c.z_gate(1).unwrap();
    assert!(squared_norm_is_one(&c));
    let f = as_floats(&c);
    let norm: f64 = f.iter().map(|x| x * x).sum();
    assert!((norm - 1.0).abs() < 1e-9);
}

#[test]
fn out_of_range_gates_leave_state_unchanged() {
    let mut c = QCircuit::new(2).unwrap();
    c.h_gate(0).unwrap();
    let before = amplitudes(&c);
    assert!(matches!(c.x_gate(2), Err(CircuitError::QubitOutOfRange)));
    assert!(matches!(c.z_gate(5), Err(CircuitError::QubitOutOfRange)));
    assert!(matches!(c.h_gate(2), Err(CircuitError::QubitOutOfRange)));
    assert!(matches!(c.cnot_gate(2, 0), Err(CircuitError::QubitOutOfRange)));
    assert!(matches!(c.cnot_gate(0, 2), Err(CircuitError::QubitOutOfRange)));
    assert_eq!(amplitudes(&c), before);
}

#[test]
fn cnot_same_qubit_is_rejected() {
    let mut c = QCircuit::new(2).unwrap();
    c.h_gate(1).unwrap();
    let before = amplitudes(&c);
    assert!(matches!(c.cnot_gate(1, 1), Err(CircuitError::SameQubit)));
    assert_eq!(amplitudes(&c), before);
}

#[test]
fn kron_of_identities_is_identity() {
    for a in 1..=4usize {
        for b in 1..=4usize {
            let k = QCircuit::kron(&identity(a), &identity(b));
            let want = identity(a * b);
            assert_eq!(k.entries, want.entries);
            assert_eq!(k.scale, 0);
        }
    }
}

#[test]
fn kron_places_scaled_blocks() {
    let a = Operator { entries: vec![vec![1, 2], vec![3, 4]], scale: 1 };
    let b = Operator { entries: vec![vec![0, 5], vec![6, 7]], scale: 2 };
    let k = QCircuit::kron(&a, &b);
    assert_eq!(
        k.entries,
        vec![
            vec![0, 5, 0, 10],
            vec![6, 7, 12, 14],
            vec![0, 15, 0, 20],
            vec![18, 21, 24, 28],
        ]
    );
    assert_eq!(k.scale, 3);
}

#[test]
fn kron_with_empty_matrix() {
    let a = Operator { entries: vec![vec![2]], scale: 0 };
    let e = Operator { entries: vec![], scale: 0 };
    let k = QCircuit::kron(&a, &e);
    assert!(k.entries.is_empty());
}
