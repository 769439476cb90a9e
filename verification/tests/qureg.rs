use qureg::Phasor;
use qureg::QuReg;
use qureg::QuantumError;

#[test]
fn width() {
    assert_eq!(QuReg::new(2, 0).width(), 2);
}

#[test]
fn tensor() {
    let q1 = QuReg::new(2, 0b01);
    let q2 = QuReg::new(2, 0b10);
    assert_eq!(q1.tensor(q2).unwrap().measure(), 0b0110);
}

#[test]
fn cnot() {
    let mut q = QuReg::new(2, 0b11);
    q.cnot(0, 1).unwrap();
    assert_eq!(q.measure(), 1);
}

#[test]
fn toffoli() {
    let mut q = QuReg::new(3, 0b111);
    q.toffoli(2, 1, 0).unwrap();
    assert_eq!(q.measure(), 0b110);
}

#[test]
fn and_gate() {
    let mut q = QuReg::new(2, 0b11);
    q.add_scratch(1);
    q.toffoli(2, 1, 0).unwrap();
    assert_eq!(q.measure_bit(0).unwrap(), true);
}

#[test]
fn sigma_x() {
    let mut q = QuReg::new(1, 0);
    q.sigma_x(0).unwrap();
    assert_eq!(q.measure(), 1);
}

#[test]
fn sigma_y() {
    let mut q = QuReg::new(1, 1);
    q.hadamard(0).unwrap();
    q.sigma_y(0).unwrap();
    q.hadamard(0).unwrap();
    assert_eq!(q.measure(), 0);
}

#[test]
fn sigma_z() {
    let mut q = QuReg::new(1, 1);
    q.hadamard(0).unwrap();
    q.sigma_z(0).unwrap();
    q.hadamard(0).unwrap();
    assert_eq!(q.measure(), 0);
}

#[test]
fn hadamard() {
    let mut q = QuReg::new(1, 0);
    q.hadamard(0).unwrap();
    q.hadamard(0).unwrap();
    assert_eq!(q.measure(), 0);
}

#[test]
fn walsh() {
    let mut q = QuReg::new(3, 0b110);
    q.walsh(3).unwrap();
    q.walsh(3).unwrap();
    assert_eq!(q.measure(), 0b110);
}

#[test]
fn measure_bit() {
    let mut q = QuReg::new(3, 0b110);
    assert_eq!(q.measure_bit_preserve(1).unwrap(), true);
    assert_eq!(q.width(), 3);
    assert_eq!(q.measure_bit(0).unwrap(), false);
    assert_eq!(q.width(), 2);
}

#[test]
fn measure_partial() {
    let mut q1 = QuReg::new(3, 0b110);
    assert_eq!(q1.measure_width(2).unwrap(), 0b10);
    assert_eq!(q1.width(), 1);
    let q2 = QuReg::new(2, 0b10);
    let mut q3 = q1.tensor(q2).unwrap();
    assert_eq!(q3.measure_partial(&vec![0, 1]).unwrap(), 0b10);
    assert_eq!(q3.width(), 3);
    assert_eq!(q3.measure_partial(&vec![0, 1, 2]).unwrap(), 0b110);
}

#[test]
fn tensor_associative() {
    let a1 = QuReg::new(1, 1);
    let b1 = QuReg::new(2, 0b01);
    let c1 = QuReg::new(1, 0);
    let left = a1.tensor(b1).unwrap().tensor(c1).unwrap();
    let a2 = QuReg::new(1, 1);
    let b2 = QuReg::new(2, 0b01);
    let c2 = QuReg::new(1, 0);
    let right = a2.tensor(b2.tensor(c2).unwrap()).unwrap();
    assert_eq!(left.width(), 4);
    assert_eq!(right.width(), 4);
    assert_eq!(left.measure(), 0b1010);
    assert_eq!(right.measure(), 0b1010);
}

#[test]
fn hadamard_outcome_in_range() {
    let mut q = QuReg::new(1, 0);
    q.hadamard(0).unwrap();
    assert!(q.measure() < 2);
}

#[test]
fn add_scratch_widths() {
    let mut q = QuReg::new(2, 0b11);
    assert_eq!(q.scratch(), 0);
    q.add_scratch(3);
    assert_eq!(q.width(), 2);
    assert_eq!(q.scratch(), 3);
    assert_eq!(q.measure(), 0b11000);
}

#[test]
fn new_truncates_init() {
    let q = QuReg::new(2, 0b111);
    assert_eq!(q.measure(), 0b11);
}

#[test]
fn measure_width_consumes_low_bits() {
    let mut q = QuReg::new(4, 0b1001);
    assert_eq!(q.measure_width(3).unwrap(), 0b001);
    assert_eq!(q.width(), 1);
    assert_eq!(q.measure(), 1);
}

#[test]
fn index_out_of_range() {
    let mut q = QuReg::new(2, 0);
    assert_eq!(q.hadamard(2), Err(QuantumError::IndexOutOfRange));
    assert_eq!(q.cnot(0, 5), Err(QuantumError::IndexOutOfRange));
    assert_eq!(q.measure_bit(7), Err(QuantumError::IndexOutOfRange));
    assert_eq!(q.measure_width(3), Err(QuantumError::IndexOutOfRange));
    assert_eq!(q.walsh(3), Err(QuantumError::IndexOutOfRange));
    assert_eq!(q.measure(), 0);
}

#[test]
fn control_is_target() {
    let mut q = QuReg::new(2, 0b01);
    assert_eq!(q.cnot(1, 1), Err(QuantumError::ControlIsTarget));
    assert_eq!(q.toffoli(1, 0, 0), Err(QuantumError::ControlIsTarget));
    assert_eq!(q.cond_phase(0, 0), Err(QuantumError::ControlIsTarget));
    assert_eq!(q.measure(), 0b01);
}

#[test]
fn malformed_phasor() {
    let mut q = QuReg::new(1, 0);
    let bad = Phasor { re: 1, im: 1, den: 1 };
    assert_eq!(q.rotate_x(0, &bad), Err(QuantumError::MalformedPhasor));
    assert_eq!(q.phaseby(0, &bad), Err(QuantumError::MalformedPhasor));
    assert_eq!(q.measure(), 0);
}

#[test]
fn amplitude_overflow_reported() {
    let mut q = QuReg::new(1, 0);
    let mut saw = false;
    for _ in 0..200 {
        match q.hadamard(0) {
            Ok(()) => {},
            Err(e) => {
                assert_eq!(e, QuantumError::AmplitudeOverflow);
                saw = true;
                break;
            },
        }
    }
    assert!(saw);
}

#[test]
fn capacity_exceeded_reported() {
    let mut a = QuReg::new(11, 0);
    a.walsh(11).unwrap();
    let mut b = QuReg::new(11, 0);
    b.walsh(11).unwrap();
    match a.tensor(b) {
        Ok(_) => panic!("tensor of two full superpositions must exceed capacity"),
        Err(e) => assert_eq!(e, QuantumError::CapacityExceeded),
    }
}

#[test]
fn rotate_quarter_turns() {
    let mut q = QuReg::new(1, 0);
    q.rotate_y(0, &Phasor::quarter()).unwrap();
    assert_eq!(q.measure(), 1);
    let mut q2 = QuReg::new(1, 0);
    q2.rotate_x(0, &Phasor::quarter()).unwrap();
    assert_eq!(q2.measure(), 1);
}

#[test]
fn diagonal_gates_keep_classical_state() {
    let mut q = QuReg::new(2, 0b11);
    let ph = Phasor { re: 3, im: 4, den: 5 };
    q.phase(0, &ph).unwrap();
    q.phaseby(1, &ph).unwrap();
    q.rotate_z(0, &ph).unwrap();
    q.rotate_z(0, &ph.conj()).unwrap();
    q.cond_phase(1, 0).unwrap();
    q.cond_phaseby(1, 0, &ph).unwrap();
    assert_eq!(q.measure(), 0b11);
}

#[test]
fn rotation_superposition_in_range() {
    let mut q = QuReg::new(1, 0);
    let ph = Phasor { re: 3, im: 4, den: 5 };
    q.rotate_y(0, &ph).unwrap();
    assert!(q.measure() < 2);
}

#[test]
fn phasor_helpers() {
    let i = Phasor::identity();
    assert_eq!((i.re, i.im, i.den), (1, 0, 1));
    let qtr = Phasor::quarter();
    assert_eq!((qtr.re, qtr.im, qtr.den), (0, 1, 1));
    let c = Phasor { re: 3, im: 4, den: 5 }.conj();
    assert_eq!((c.re, c.im, c.den), (3, -4, 5));
}

#[test]
fn qft_single_qubit_is_hadamard_pair() {
    let mut q = QuReg::new(1, 0);
    q.qft(1).unwrap();
    q.qft(1).unwrap();
    assert_eq!(q.measure(), 0);
}

#[test]
fn qft_roundtrip_width_two() {
    let mut q = QuReg::new(2, 0b10);
    q.qft(2).unwrap();
    q.qft_inv(2).unwrap();
    assert_eq!(q.measure(), 0b10);
}

#[test]
fn qft_roundtrip_width_three() {
    let mut q = QuReg::new(3, 0b101);
    q.qft(3).unwrap();
    q.qft_inv(3).unwrap();
    assert_eq!(q.measure(), 0b101);
}

#[test]
fn qft_width_out_of_range() {
    let mut q = QuReg::new(2, 0);
    assert_eq!(q.qft(3), Err(QuantumError::IndexOutOfRange));
    assert_eq!(q.qft_inv(3), Err(QuantumError::IndexOutOfRange));
    assert_eq!(q.measure(), 0);
}

#[test]
fn describe_reports_widths() {
    let mut q = QuReg::new(3, 0b101);
    q.add_scratch(2);
    assert_eq!(q.describe(), (3, 2));
}

#[test]
fn measure_deterministic_on_equal_registers() {
    let a = QuReg::new(2, 0b10);
    let b = QuReg::new(2, 0b10);
    assert_eq!(a.measure(), b.measure());
    let mut a2 = QuReg::new(3, 0);
    a2.walsh(3).unwrap();
    let mut b2 = QuReg::new(3, 0);
    b2.walsh(3).unwrap();
    assert_eq!(a2.measure(), b2.measure());
}

#[test]
fn measure_partial_keeps_classical_state() {
    let mut q = QuReg::new(3, 0b101);
    assert_eq!(q.measure_partial(&vec![2]).unwrap(), 0b100);
    assert_eq!(q.measure_partial(&vec![0, 2]).unwrap(), 0b101);
    assert_eq!(q.measure(), 0b101);
}
