//! Stack discipline, the store, the two-pass label mechanism, calls,
//! input/output events and decode faults, through the public machine
//! interface.

use stackvm::machine::{VmError, VmEvent, VM};
use stackvm::value::Value;

const FUEL: u64 = 1_000_000;

fn push_int(buf: &mut Vec<u8>, v: i64) {
    buf.push(0x01);
    buf.push(0x01);
    buf.extend_from_slice(&v.to_le_bytes());
}

fn named(buf: &mut Vec<u8>, op: u8, name: &[u8]) {
    buf.push(op);
    buf.push(name.len() as u8);
    buf.extend_from_slice(name);
}

fn run_both(bytecode: Vec<u8>) -> (VM, VmEvent) {
    let mut vm = VM::new(bytecode);
    assert_eq!(vm.run(true, FUEL), VmEvent::Done);
    let ev = vm.run(false, FUEL);
    (vm, ev)
}

#[test]
fn dup_then_pop_restores_stack() {
    let mut buf = Vec::new();
    push_int(&mut buf, 7);
    push_int(&mut buf, 9);
    buf.push(0x04);
    buf.push(0x06);
    let (vm, ev) = run_both(buf);
    assert_eq!(ev, VmEvent::Done);
    assert_eq!(
        vm.stack_items(),
        vec![Value::Integer { value: 7 }, Value::Integer { value: 9 }]
    );
}

#[test]
fn swap_exchanges_and_twice_restores() {
    let mut once = Vec::new();
    push_int(&mut once, 1);
    push_int(&mut once, 2);
    once.push(0x05);
    let (vm, ev) = run_both(once);
    assert_eq!(ev, VmEvent::Done);
    assert_eq!(
        vm.stack_items(),
        vec![Value::Integer { value: 2 }, Value::Integer { value: 1 }]
    );

    let mut twice = Vec::new();
    push_int(&mut twice, 1);
    push_int(&mut twice, 2);
    twice.push(0x05);
    twice.push(0x05);
    let (vm, ev) = run_both(twice);
    assert_eq!(ev, VmEvent::Done);
    assert_eq!(
        vm.stack_items(),
        vec![Value::Integer { value: 1 }, Value::Integer { value: 2 }]
    );
}

#[test]
fn store_then_load_yields_stored_value() {
    let mut buf = Vec::new();
    push_int(&mut buf, 9);
    named(&mut buf, 0x03, b"A");
    named(&mut buf, 0x02, b"A");
    let (vm, ev) = run_both(buf);
    assert_eq!(ev, VmEvent::Done);
    assert_eq!(vm.stack_items(), vec![Value::Integer { value: 9 }]);
    let mem = vm.memory_items();
    assert_eq!(mem.len(), 1);
    assert_eq!(mem[0].0, b"A".to_vec());
    assert_eq!(mem[0].1, Value::Integer { value: 9 });
}

#[test]
fn load_of_absent_key_faults() {
    let mut buf = Vec::new();
    named(&mut buf, 0x02, b"missing");
    let (_, ev) = run_both(buf);
    assert_eq!(ev, VmEvent::Fault { error: VmError::KeyNotFound });
}

#[test]
fn store_persists_across_live_runs() {
    let mut buf = Vec::new();
    push_int(&mut buf, 1);
    named(&mut buf, 0x03, b"A");
    let mut vm = VM::new(buf);
    assert_eq!(vm.run(true, FUEL), VmEvent::Done);
    assert_eq!(vm.run(false, FUEL), VmEvent::Done);
    assert_eq!(vm.run(false, FUEL), VmEvent::Done);
    // the store survives both runs; the last write under the key wins
    let mem = vm.memory_items();
    let last = mem.iter().filter(|e| e.0 == b"A".to_vec()).last().unwrap();
    assert_eq!(last.1, Value::Integer { value: 1 });
}

#[test]
fn forward_jump_reaches_later_label() {
    // a value is pushed, a forward jump skips a second push, and the
    // display prints the first value: the resolution pass made the
    // forward reference resolvable
    let mut buf = Vec::new();
    push_int(&mut buf, 5);
    named(&mut buf, 0xE1, b"A");
    push_int(&mut buf, 6);
    named(&mut buf, 0xE0, b"A");
    buf.push(0xF0);
    let mut vm = VM::new(buf);
    assert_eq!(vm.run(true, FUEL), VmEvent::Done);
    match vm.run(false, FUEL) {
        VmEvent::Output { stderr, text } => {
            assert!(!stderr);
            assert_eq!(text, b"5".to_vec());
        }
        other => panic!("unexpected event: {:?}", other),
    }
    assert_eq!(vm.resume(FUEL), VmEvent::Done);
    assert_eq!(vm.stack_items(), vec![]);
}

#[test]
fn forward_jump_without_resolution_pass_faults() {
    let mut buf = Vec::new();
    named(&mut buf, 0xE1, b"A");
    named(&mut buf, 0xE0, b"A");
    let mut vm = VM::new(buf);
    let ev = vm.run(false, FUEL);
    assert_eq!(ev, VmEvent::Fault { error: VmError::LabelNotFound { op: 0xE1 } });
}

#[test]
fn label_redeclaration_overwrites_silently() {
    let mut buf = Vec::new();
    named(&mut buf, 0xE1, b"A");
    named(&mut buf, 0xE0, b"A");
    push_int(&mut buf, 1);
    named(&mut buf, 0xE0, b"A");
    push_int(&mut buf, 2);
    let (vm, ev) = run_both(buf);
    assert_eq!(ev, VmEvent::Done);
    // the jump lands at the second declaration: only 2 is pushed
    assert_eq!(vm.stack_items(), vec![Value::Integer { value: 2 }]);
}

#[test]
fn conditional_jumps_pop_their_boolean() {
    // jump-if-true taken
    let mut buf = Vec::new();
    buf.push(0x01);
    buf.push(0x04);
    buf.push(0x01);
    named(&mut buf, 0xE2, b"A");
    push_int(&mut buf, 1);
    named(&mut buf, 0xE0, b"A");
    let (vm, ev) = run_both(buf);
    assert_eq!(ev, VmEvent::Done);
    assert_eq!(vm.stack_items(), vec![]);

    // jump-if-false not taken
    let mut buf = Vec::new();
    buf.push(0x01);
    buf.push(0x04);
    buf.push(0x01);
    named(&mut buf, 0xE3, b"A");
    push_int(&mut buf, 1);
    named(&mut buf, 0xE0, b"A");
    let (vm, ev) = run_both(buf);
    assert_eq!(ev, VmEvent::Done);
    assert_eq!(vm.stack_items(), vec![Value::Integer { value: 1 }]);

    // a non-boolean condition is fatal
    let mut buf = Vec::new();
    push_int(&mut buf, 1);
    named(&mut buf, 0xE2, b"A");
    named(&mut buf, 0xE0, b"A");
    let (_, ev) = run_both(buf);
    assert_eq!(ev, VmEvent::Fault { error: VmError::TypeIncompatible { op: 0xE2 } });
}

#[test]
fn call_returns_to_instruction_after_call() {
    let mut buf = Vec::new();
    named(&mut buf, 0xE4, b"f");
    push_int(&mut buf, 42);
    named(&mut buf, 0xE1, b"end");
    named(&mut buf, 0xE0, b"f");
    buf.push(0xE5);
    named(&mut buf, 0xE0, b"end");
    let (vm, ev) = run_both(buf);
    assert_eq!(ev, VmEvent::Done);
    // the push after the call ran exactly once, after the return
    assert_eq!(vm.stack_items(), vec![Value::Integer { value: 42 }]);
}

#[test]
fn return_with_empty_call_stack_faults() {
    let (_, ev) = run_both(vec![0xE5]);
    assert_eq!(ev, VmEvent::Fault { error: VmError::CallStackUnderflow });
}

#[test]
fn stack_underflows_name_the_operation() {
    for (buf, op) in [
        (vec![0x04u8], 0x04u8),
        (vec![0x06], 0x06),
        (vec![0x10], 0x10),
        (vec![0xD0, 0x01], 0xD0),
        (vec![0xF0], 0xF0),
        (vec![0xFF], 0xFF),
    ] {
        let (_, ev) = run_both(buf);
        assert_eq!(ev, VmEvent::Fault { error: VmError::StackUnderflow { op } });
    }
    // swap needs two operands
    let mut buf = Vec::new();
    push_int(&mut buf, 1);
    buf.push(0x05);
    let (_, ev) = run_both(buf);
    assert_eq!(ev, VmEvent::Fault { error: VmError::StackUnderflow { op: 0x05 } });
}

#[test]
fn unknown_opcode_faults_in_both_passes() {
    let mut vm = VM::new(vec![0xAB]);
    assert_eq!(
        vm.run(true, FUEL),
        VmEvent::Fault { error: VmError::UnknownOpcode { op: 0xAB } }
    );
    assert_eq!(
        vm.run(false, FUEL),
        VmEvent::Fault { error: VmError::UnknownOpcode { op: 0xAB } }
    );
}

#[test]
fn unknown_push_type_faults_in_both_passes() {
    let mut vm = VM::new(vec![0x01, 0x07]);
    let expected = VmEvent::Fault { error: VmError::UnknownPushType { tag: 0x07 } };
    assert_eq!(vm.run(true, FUEL), expected);
    assert_eq!(vm.run(false, FUEL), expected);
}

#[test]
fn truncated_operands_fault() {
    for buf in [
        vec![0x01u8],
        vec![0x01, 0x01, 0xAA, 0xBB],
        vec![0x01, 0x03, 0x05, 0x00],
        vec![0x01, 0x03, 0x05, 0x00, 0x00, 0x00, 0x68, 0x69],
        vec![0x02],
        vec![0x03, 0x04, 0x41],
        vec![0xE0, 0x02, 0x41],
        vec![0xD0],
    ] {
        let mut vm = VM::new(buf.clone());
        match vm.run(true, FUEL) {
            VmEvent::Fault { error: VmError::IncompleteInstruction { .. } } => {}
            other => panic!("expected incomplete-instruction for {:?}, got {:?}", buf, other),
        }
    }
}

#[test]
fn exit_hands_back_the_status() {
    let mut buf = Vec::new();
    push_int(&mut buf, 3);
    buf.push(0xFF);
    let (_, ev) = run_both(buf);
    assert_eq!(ev, VmEvent::Exit { code: 3 });

    let mut buf = Vec::new();
    buf.push(0x01);
    buf.push(0x04);
    buf.push(0x01);
    buf.push(0xFF);
    let (_, ev) = run_both(buf);
    assert_eq!(ev, VmEvent::Fault { error: VmError::TypeIncompatible { op: 0xFF } });
}

#[test]
fn input_line_is_trimmed_and_pushed() {
    let buf = vec![0xF2];
    let mut vm = VM::new(buf);
    assert_eq!(vm.run(true, FUEL), VmEvent::Done);
    assert_eq!(vm.run(false, FUEL), VmEvent::Input);
    assert_eq!(vm.resume_input(b"hi\r\n".to_vec(), FUEL), VmEvent::Done);
    assert_eq!(vm.stack_items(), vec![Value::Str { bytes: b"hi".to_vec() }]);
}

#[test]
fn debug_is_skipped_during_resolution() {
    let buf = vec![0x00];
    let mut vm = VM::new(buf);
    assert_eq!(vm.run(true, FUEL), VmEvent::Done);
    assert_eq!(vm.run(false, FUEL), VmEvent::DebugDump);
    assert_eq!(vm.resume(FUEL), VmEvent::Done);
}

#[test]
fn resolution_pass_registers_labels_without_side_effects() {
    let mut buf = Vec::new();
    push_int(&mut buf, 1);
    named(&mut buf, 0x03, b"A");
    named(&mut buf, 0xE0, b"here");
    let mut vm = VM::new(buf);
    assert_eq!(vm.run(true, FUEL), VmEvent::Done);
    assert_eq!(vm.stack_items(), vec![]);
    assert_eq!(vm.memory_items().len(), 0);
    let labels = vm.label_items();
    assert_eq!(labels.len(), 1);
    assert_eq!(labels[0].0, b"here".to_vec());
}

#[test]
fn power_dup_mul_store_load_display_prints_sixteen() {
    let mut buf = Vec::new();
    buf.push(0x01);
    buf.push(0x05);
    buf.push(0x02);
    buf.push(0x04);
    buf.push(0x12);
    named(&mut buf, 0x03, b"A");
    named(&mut buf, 0x02, b"A");
    buf.push(0xF0);
    let mut vm = VM::new(buf);
    assert_eq!(vm.run(true, FUEL), VmEvent::Done);
    match vm.run(false, FUEL) {
        VmEvent::Output { stderr, text } => {
            assert!(!stderr);
            assert_eq!(text, b"16".to_vec());
        }
        other => panic!("unexpected event: {:?}", other),
    }
    assert_eq!(vm.resume(FUEL), VmEvent::Done);
}

#[test]
fn fuel_exhaustion_reports_still_running() {
    // an infinite loop: a label and an unconditional jump back to it
    let mut buf = Vec::new();
    named(&mut buf, 0xE0, b"loop");
    named(&mut buf, 0xE1, b"loop");
    let mut vm = VM::new(buf);
    assert_eq!(vm.run(true, FUEL), VmEvent::Done);
    assert_eq!(vm.run(false, 1000), VmEvent::Ran);
}

#[test]
fn display_stderr_carries_the_flag() {
    let mut buf = Vec::new();
    push_int(&mut buf, 7);
    buf.push(0xF1);
    let mut vm = VM::new(buf);
    assert_eq!(vm.run(true, FUEL), VmEvent::Done);
    assert_eq!(
        vm.run(false, FUEL),
        VmEvent::Output { stderr: true, text: b"7".to_vec() }
    );
    assert_eq!(vm.resume(FUEL), VmEvent::Done);
}

#[test]
fn input_trimming_keeps_inner_whitespace() {
    let mut vm = VM::new(vec![0xF2]);
    assert_eq!(vm.run(true, FUEL), VmEvent::Done);
    assert_eq!(vm.run(false, FUEL), VmEvent::Input);
    assert_eq!(vm.resume_input(b"a b \n\r\n".to_vec(), FUEL), VmEvent::Done);
    assert_eq!(vm.stack_items(), vec![Value::Str { bytes: b"a b ".to_vec() }]);
}
