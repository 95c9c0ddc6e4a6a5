//! Literal decoding, arithmetic, comparison and rendering through the
//! public machine interface.

use stackvm::machine::{VmError, VmEvent, VM};
use stackvm::value::Value;

const FUEL: u64 = 1_000_000;

fn push_int(buf: &mut Vec<u8>, v: i64) {
    buf.push(0x01);
    buf.push(0x01);
    buf.extend_from_slice(&v.to_le_bytes());
}

fn push_float(buf: &mut Vec<u8>, v: f64) {
    buf.push(0x01);
    buf.push(0x02);
    buf.extend_from_slice(&v.to_le_bytes());
}

fn push_string(buf: &mut Vec<u8>, s: &[u8]) {
    buf.push(0x01);
    buf.push(0x03);
    buf.extend_from_slice(&(s.len() as u32).to_le_bytes());
    buf.extend_from_slice(s);
}

fn push_bool(buf: &mut Vec<u8>, b: bool) {
    buf.push(0x01);
    buf.push(0x04);
    buf.push(if b { 1 } else { 0 });
}

/// Runs both passes and collects every standard-output line of the live
/// pass; the program must end normally.
fn run_collect_output(bytecode: Vec<u8>) -> (VM, Vec<Vec<u8>>) {
    let mut vm = VM::new(bytecode);
    assert_eq!(vm.run(true, FUEL), VmEvent::Done);
    let mut out = Vec::new();
    let mut ev = vm.run(false, FUEL);
    loop {
        match ev {
            VmEvent::Done => break,
            VmEvent::Output { stderr, text } => {
                assert!(!stderr);
                out.push(text);
                ev = vm.resume(FUEL);
            }
            other => panic!("unexpected event: {:?}", other),
        }
    }
    (vm, out)
}

/// Runs both passes and returns the final stack; the program must end
/// normally.
fn run_to_stack(bytecode: Vec<u8>) -> Vec<Value> {
    let mut vm = VM::new(bytecode);
    assert_eq!(vm.run(true, FUEL), VmEvent::Done);
    assert_eq!(vm.run(false, FUEL), VmEvent::Done);
    vm.stack_items()
}

/// Runs both passes and returns the live pass's first event, which must be a
/// fault, together with the machine.
fn run_to_fault(bytecode: Vec<u8>) -> (VM, VmError) {
    let mut vm = VM::new(bytecode);
    vm.run(true, FUEL);
    match vm.run(false, FUEL) {
        VmEvent::Fault { error } => (vm, error),
        other => panic!("expected a fault, got {:?}", other),
    }
}

#[test]
fn integer_literal_displays_same_value() {
    for v in [0i64, 1, -1, 12345, -42, i64::MAX, i64::MIN] {
        let mut buf = Vec::new();
        push_int(&mut buf, v);
        buf.push(0xF0);
        let (_, out) = run_collect_output(buf);
        assert_eq!(out, vec![format!("{}", v).into_bytes()]);
    }
}

#[test]
fn float_literal_keeps_exact_bits() {
    for v in [0.0f64, -0.0, 3.5, -1.25e300, f64::NAN, f64::INFINITY] {
        let mut buf = Vec::new();
        push_float(&mut buf, v);
        buf.push(0xF0);
        let mut vm = VM::new(buf);
        assert_eq!(vm.run(true, FUEL), VmEvent::Done);
        match vm.run(false, FUEL) {
            VmEvent::FloatOutput { stderr, bits } => {
                assert!(!stderr);
                assert_eq!(bits, v.to_bits());
            }
            other => panic!("unexpected event: {:?}", other),
        }
        assert_eq!(vm.resume(FUEL), VmEvent::Done);
    }
}

#[test]
fn string_literal_displays_same_bytes() {
    let mut buf = Vec::new();
    push_string(&mut buf, b"hello");
    buf.push(0xF0);
    let (_, out) = run_collect_output(buf);
    assert_eq!(out, vec![b"hello".to_vec()]);
}

#[test]
fn boolean_literal_displays_words() {
    for (b, text) in [(true, &b"true"[..]), (false, &b"false"[..])] {
        let mut buf = Vec::new();
        push_bool(&mut buf, b);
        buf.push(0xF0);
        let (_, out) = run_collect_output(buf);
        assert_eq!(out, vec![text.to_vec()]);
    }
}

#[test]
fn invalid_boolean_literal_faults() {
    let buf = vec![0x01, 0x04, 0x02];
    let (_, e) = run_to_fault(buf);
    assert_eq!(e, VmError::InvalidBooleanLiteral { byte: 2 });
}

#[test]
fn power_literal_is_two_to_the_n() {
    for (n, expected) in [(0u8, 1i64), (1, 2), (2, 4), (10, 1024), (62, 1i64 << 62)] {
        let buf = vec![0x01, 0x05, n];
        assert_eq!(run_to_stack(buf), vec![Value::Integer { value: expected }]);
    }
}

#[test]
fn power_literal_overflow_edge() {
    // 2^63 does not fit a 64-bit signed integer: the value wraps.
    assert_eq!(
        run_to_stack(vec![0x01, 0x05, 63]),
        vec![Value::Integer { value: i64::MIN }]
    );
    assert_eq!(run_to_stack(vec![0x01, 0x05, 64]), vec![Value::Integer { value: 0 }]);
}

#[test]
fn power_sub_literal_is_two_to_the_n_minus_one() {
    for (n, expected) in [(0u8, 0i64), (1, 1), (2, 3), (62, (1i64 << 62) - 1), (63, i64::MAX)] {
        let buf = vec![0x01, 0x06, n];
        assert_eq!(run_to_stack(buf), vec![Value::Integer { value: expected }]);
    }
    assert_eq!(run_to_stack(vec![0x01, 0x06, 64]), vec![Value::Integer { value: -1 }]);
}

#[test]
fn integer_arithmetic_results() {
    let cases: [(i64, i64, u8, i64); 8] = [
        (2, 3, 0x10, 5),
        (2, 3, 0x11, -1),
        (7, 6, 0x12, 42),
        (7, 2, 0x13, 3),
        (-7, 2, 0x13, -3),
        (7, 3, 0x14, 1),
        (-7, 3, 0x14, -1),
        (i64::MAX, 1, 0x10, i64::MIN),
    ];
    for (a, b, op, expected) in cases {
        let mut buf = Vec::new();
        push_int(&mut buf, a);
        push_int(&mut buf, b);
        buf.push(op);
        assert_eq!(
            run_to_stack(buf),
            vec![Value::Integer { value: expected }],
            "{} op {:#x} {}",
            a,
            op,
            b
        );
    }
}

#[test]
fn string_concat_and_repeat() {
    let mut buf = Vec::new();
    push_string(&mut buf, b"ab");
    push_string(&mut buf, b"cd");
    buf.push(0x10);
    assert_eq!(run_to_stack(buf), vec![Value::Str { bytes: b"abcd".to_vec() }]);

    let mut buf = Vec::new();
    push_string(&mut buf, b"ab");
    push_int(&mut buf, 3);
    buf.push(0x12);
    assert_eq!(run_to_stack(buf), vec![Value::Str { bytes: b"ababab".to_vec() }]);

    let mut buf = Vec::new();
    push_string(&mut buf, b"ab");
    push_int(&mut buf, -1);
    buf.push(0x12);
    let (_, e) = run_to_fault(buf);
    assert_eq!(e, VmError::TypeIncompatible { op: 0x12 });
}

#[test]
fn incompatible_operands_fault() {
    let mut buf = Vec::new();
    push_int(&mut buf, 1);
    push_bool(&mut buf, true);
    buf.push(0x10);
    let (_, e) = run_to_fault(buf);
    assert_eq!(e, VmError::TypeIncompatible { op: 0x10 });
}

#[test]
fn division_by_zero_consumes_only_operands() {
    for op in [0x13u8, 0x14] {
        let mut buf = Vec::new();
        push_int(&mut buf, 1);
        push_int(&mut buf, 8);
        push_int(&mut buf, 0);
        buf.push(op);
        let (vm, e) = run_to_fault(buf);
        assert_eq!(e, VmError::DivisionByZero { op });
        // the two operands are consumed, the rest of the stack stands
        assert_eq!(vm.stack_items(), vec![Value::Integer { value: 1 }]);
    }
}

#[test]
fn float_division_by_zero_faults() {
    for zero in [0.0f64, -0.0] {
        let mut buf = Vec::new();
        push_float(&mut buf, 1.5);
        push_float(&mut buf, zero);
        buf.push(0x13);
        let (vm, e) = run_to_fault(buf);
        assert_eq!(e, VmError::DivisionByZero { op: 0x13 });
        assert_eq!(vm.stack_items(), vec![]);
    }
}

#[test]
fn float_arithmetic_is_delegated() {
    let mut buf = Vec::new();
    push_float(&mut buf, 1.5);
    push_float(&mut buf, 2.25);
    buf.push(0x10);
    let mut vm = VM::new(buf);
    assert_eq!(vm.run(true, FUEL), VmEvent::Done);
    match vm.run(false, FUEL) {
        VmEvent::FloatBin { op, lhs, rhs } => {
            assert_eq!(op, 0x10);
            let sum = f64::from_bits(lhs) + f64::from_bits(rhs);
            assert_eq!(sum, 3.75);
            assert_eq!(vm.resume_float(sum.to_bits(), FUEL), VmEvent::Done);
        }
        other => panic!("unexpected event: {:?}", other),
    }
    assert_eq!(vm.stack_items(), vec![Value::Float { bits: 3.75f64.to_bits() }]);
}

#[test]
fn float_modulo_is_incompatible() {
    let mut buf = Vec::new();
    push_float(&mut buf, 1.5);
    push_float(&mut buf, 2.5);
    buf.push(0x14);
    let (_, e) = run_to_fault(buf);
    assert_eq!(e, VmError::TypeIncompatible { op: 0x14 });
}

#[test]
fn integer_comparisons() {
    let cases: [(i64, i64, u8, bool); 6] = [
        (1, 2, 0x01, false),
        (1, 2, 0x02, true),
        (1, 2, 0x03, true),
        (1, 2, 0x04, false),
        (2, 2, 0x05, true),
        (1, 2, 0x06, false),
    ];
    for (a, b, sel, expected) in cases {
        let mut buf = Vec::new();
        push_int(&mut buf, a);
        push_int(&mut buf, b);
        buf.push(0xD0);
        buf.push(sel);
        assert_eq!(run_to_stack(buf), vec![Value::Boolean { value: expected }]);
    }
}

#[test]
fn string_comparisons_are_lexicographic() {
    let cases: [(&[u8], &[u8], u8, bool); 5] = [
        (b"abc", b"abd", 0x03, true),
        (b"abc", b"abc", 0x01, true),
        (b"abd", b"abc", 0x04, true),
        (b"ab", b"abc", 0x03, true),
        (b"b", b"abc", 0x03, false),
    ];
    for (a, b, sel, expected) in cases {
        let mut buf = Vec::new();
        push_string(&mut buf, a);
        push_string(&mut buf, b);
        buf.push(0xD0);
        buf.push(sel);
        assert_eq!(run_to_stack(buf), vec![Value::Boolean { value: expected }]);
    }
}

#[test]
fn float_comparisons_follow_ieee() {
    let cases: [(f64, f64, u8, bool); 7] = [
        (1.5, 2.5, 0x03, true),
        (-0.0, 0.0, 0x01, true),
        (f64::NAN, 1.0, 0x03, false),
        (f64::NAN, f64::NAN, 0x01, false),
        (f64::NAN, f64::NAN, 0x02, true),
        (f64::NEG_INFINITY, -1.0e308, 0x03, true),
        (2.5, 2.5, 0x06, true),
    ];
    for (a, b, sel, expected) in cases {
        let mut buf = Vec::new();
        push_float(&mut buf, a);
        push_float(&mut buf, b);
        buf.push(0xD0);
        buf.push(sel);
        assert_eq!(
            run_to_stack(buf),
            vec![Value::Boolean { value: expected }],
            "{} sel {:#x} {}",
            a,
            sel,
            b
        );
    }
}

#[test]
fn boolean_ordering_is_unsupported() {
    let mut buf = Vec::new();
    push_bool(&mut buf, false);
    push_bool(&mut buf, true);
    buf.push(0xD0);
    buf.push(0x03);
    let (_, e) = run_to_fault(buf);
    assert_eq!(e, VmError::TypeIncompatible { op: 0xD0 });
}

#[test]
fn slice_of_hello_one_to_four_is_ell() {
    let mut buf = Vec::new();
    push_string(&mut buf, b"hello");
    push_int(&mut buf, 1);
    push_int(&mut buf, 4);
    buf.push(0x20);
    assert_eq!(run_to_stack(buf), vec![Value::Str { bytes: b"ell".to_vec() }]);
}

#[test]
fn slice_with_start_at_or_past_end_is_rejected() {
    for (start, end) in [(3i64, 2i64), (2, 2), (0, 6), (5, 6), (-1, 3)] {
        let mut buf = Vec::new();
        push_string(&mut buf, b"hello");
        push_int(&mut buf, start);
        push_int(&mut buf, end);
        buf.push(0x20);
        let (_, e) = run_to_fault(buf);
        assert_eq!(e, VmError::InvalidSliceBounds, "bounds ({}, {})", start, end);
    }
}

#[test]
fn string_length_is_byte_count() {
    let mut buf = Vec::new();
    push_string(&mut buf, b"hello");
    buf.push(0x21);
    assert_eq!(run_to_stack(buf), vec![Value::Integer { value: 5 }]);
}

#[test]
fn unsupported_comparison_selector_faults() {
    let mut buf = Vec::new();
    push_int(&mut buf, 1);
    push_int(&mut buf, 2);
    buf.push(0xD0);
    buf.push(0x09);
    let (_, e) = run_to_fault(buf);
    assert_eq!(e, VmError::TypeIncompatible { op: 0xD0 });
}

#[test]
fn empty_string_literal_is_allowed() {
    let mut buf = Vec::new();
    push_string(&mut buf, b"");
    buf.push(0x21);
    assert_eq!(run_to_stack(buf), vec![Value::Integer { value: 0 }]);
}
