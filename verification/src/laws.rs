//! Laws of the machine: properties that hold of every program, proved
//! against the transition model.
//!
//! Each lemma speaks about `machine::step_model`, the specification that the
//! executable `VM::step` is proved to implement, so what is shown here holds
//! of the running machine.

use vstd::prelude::*;

verus! {

use crate::codec::{le_bytes_val, wrap_to_i64};
use crate::machine::{
    AbsEvent,
    AbsVm,
    VmError,
    drop_top,
    name_arg,
    name_arg_end,
    name_arg_ok,
    float_bits,
    int_value,
    push_value,
    run_steps,
    step_model,
    with_index,
    OP_CALL,
    OP_DISPLAY_STDOUT,
    OP_DIV,
    OP_DUP,
    OP_JUMP,
    OP_LABEL,
    OP_LOAD,
    OP_MOD,
    OP_POP,
    OP_PUSH,
    OP_RETURN,
    OP_STORE,
    OP_SWAP,
    PUSH_TYPE_BOOLEAN,
    PUSH_TYPE_FLOAT,
    PUSH_TYPE_INTEGER,
    PUSH_TYPE_INTEGER_POWER,
    PUSH_TYPE_INTEGER_POWER_SUB,
    PUSH_TYPE_STRING,
};
use crate::value::{AbsValue, f64_is_zero, render_value};
use vstd::arithmetic::power2::{pow2, lemma2_to64, lemma_pow2_adds, lemma_pow2_pos};
use vstd::arithmetic::div_mod::lemma_fundamental_div_mod;

/// The little-endian byte string of `x` in `len` bytes.
pub open spec fn le_bytes_of(x: nat, len: nat) -> Seq<u8>
    decreases len,
{
    if len == 0 {
        Seq::empty()
    } else {
        seq![(x % 256) as u8] + le_bytes_of(x / 256, (len - 1) as nat)
    }
}

/// Encoding a value little-endian and decoding it again is the identity.
pub proof fn lemma_le_round_trip(x: nat, len: nat)
    requires
        x < pow2(8 * len),
    ensures
        le_bytes_of(x, len).len() == len,
        le_bytes_val(le_bytes_of(x, len)) == x,
    decreases len,
{
    if len == 0 {
        lemma_pow2_pos(0);
        assert(pow2(0) == 1) by {
            lemma2_to64();
        }
    } else {
        lemma_pow2_adds(8, 8 * (len - 1) as nat);
        lemma2_to64();
        assert(8 * len == 8 + 8 * (len - 1));
        assert(x / 256 < pow2(8 * (len - 1) as nat)) by {
            assert(x < 256 * pow2(8 * (len - 1) as nat));
            vstd::arithmetic::div_mod::lemma_multiply_divide_lt(
                x as int,
                256,
                pow2(8 * (len - 1) as nat) as int,
            );
        }
        lemma_le_round_trip(x / 256, (len - 1) as nat);
        let b = le_bytes_of(x, len);
        assert(b.drop_first() =~= le_bytes_of(x / 256, (len - 1) as nat));
        assert(b[0] == (x % 256) as u8);
        lemma_fundamental_div_mod(x as int, 256);
    }
}

/// The 64-bit two's-complement bit pattern of a signed value, as a number.
pub open spec fn i64_bits(v: i64) -> nat {
    if v >= 0 {
        v as nat
    } else {
        (v + 0x1_0000_0000_0000_0000) as nat
    }
}

/// Reducing the bit pattern of `v` recovers `v`.
pub proof fn lemma_i64_bits_round_trip(v: i64)
    ensures
        i64_bits(v) < pow2(64),
        wrap_to_i64(i64_bits(v) as int) == v,
{
    lemma2_to64();
    if v >= 0 {
        assert((v as int) % 0x1_0000_0000_0000_0000 == v as int);
    } else {
        assert((v as int + 0x1_0000_0000_0000_0000) % 0x1_0000_0000_0000_0000 == v as int
            + 0x1_0000_0000_0000_0000);
    }
}

/// The encoding of a push-integer instruction.
pub open spec fn encode_push_integer(v: i64) -> Seq<u8> {
    seq![OP_PUSH, PUSH_TYPE_INTEGER] + le_bytes_of(i64_bits(v), 8)
}

/// The encoding of a push-float instruction, from the IEEE 754 bit pattern.
pub open spec fn encode_push_float(bits: u64) -> Seq<u8> {
    seq![OP_PUSH, PUSH_TYPE_FLOAT] + le_bytes_of(bits as nat, 8)
}

/// The encoding of a push-string instruction.
pub open spec fn encode_push_string(bytes: Seq<u8>) -> Seq<u8> {
    seq![OP_PUSH, PUSH_TYPE_STRING] + le_bytes_of(bytes.len(), 4) + bytes
}

/// The encoding of a push-boolean instruction.
pub open spec fn encode_push_boolean(b: bool) -> Seq<u8> {
    seq![OP_PUSH, PUSH_TYPE_BOOLEAN, if b { 1u8 } else { 0u8 }]
}

/// The bytes `what` stand in `code` at offset `at`.
pub open spec fn has_bytes_at(code: Seq<u8>, at: int, what: Seq<u8>) -> bool {
    0 <= at && at + what.len() <= code.len() && code.subrange(at, at + what.len()) == what
}

/// Indexing into a located byte string.
proof fn lemma_has_bytes_index(code: Seq<u8>, at: int, what: Seq<u8>)
    requires
        has_bytes_at(code, at, what),
    ensures
        forall|k: int| 0 <= k < what.len() ==> code[at + k] == #[trigger] what[k],
{
    assert forall|k: int| 0 <= k < what.len() implies code[at + k] == #[trigger] what[k] by {
        assert(code.subrange(at, at + what.len())[k] == code[at + k]);
    }
}

/// Decoding a pushed integer literal yields exactly the encoded value: the
/// live pass pushes `Integer(v)` and moves the counter past the encoding.
pub proof fn lemma_push_integer_round_trip(s: AbsVm, v: i64)
    requires
        has_bytes_at(s.bytecode, s.index, encode_push_integer(v)),
    ensures
        step_model(s, false) == crate::machine::ran_step(
            push_value(with_index(s, s.index + 10), AbsValue::Integer { value: v }),
        ),
{
    let enc = encode_push_integer(v);
    lemma_i64_bits_round_trip(v);
    lemma_le_round_trip(i64_bits(v), 8);
    lemma_has_bytes_index(s.bytecode, s.index, enc);
    assert(enc[0] == OP_PUSH && enc[1] == PUSH_TYPE_INTEGER);
    assert(s.bytecode[s.index] == OP_PUSH);
    assert(s.bytecode[s.index + 1] == PUSH_TYPE_INTEGER);
    assert(s.bytecode.subrange(s.index + 2, s.index + 10) =~= le_bytes_of(i64_bits(v), 8)) by {
        assert forall|k: int| 0 <= k < 8 implies s.bytecode.subrange(s.index + 2, s.index + 10)[k]
            == le_bytes_of(i64_bits(v), 8)[k] by {
            assert(enc[2 + k] == le_bytes_of(i64_bits(v), 8)[k]);
            assert(s.bytecode[s.index + 2 + k] == enc[2 + k]);
        }
    }
}

/// Decoding a pushed float literal yields exactly the encoded bit pattern.
pub proof fn lemma_push_float_round_trip(s: AbsVm, bits: u64)
    requires
        has_bytes_at(s.bytecode, s.index, encode_push_float(bits)),
    ensures
        step_model(s, false) == crate::machine::ran_step(
            push_value(with_index(s, s.index + 10), AbsValue::Float { bits }),
        ),
{
    let enc = encode_push_float(bits);
    lemma2_to64();
    vstd::arithmetic::power2::lemma2_to64_rest();
    lemma_le_round_trip(bits as nat, 8);
    lemma_has_bytes_index(s.bytecode, s.index, enc);
    assert(enc[0] == OP_PUSH && enc[1] == PUSH_TYPE_FLOAT);
    assert(s.bytecode[s.index] == OP_PUSH);
    assert(s.bytecode[s.index + 1] == PUSH_TYPE_FLOAT);
    assert(s.bytecode.subrange(s.index + 2, s.index + 10) =~= le_bytes_of(bits as nat, 8)) by {
        assert forall|k: int| 0 <= k < 8 implies s.bytecode.subrange(s.index + 2, s.index + 10)[k]
            == le_bytes_of(bits as nat, 8)[k] by {
            assert(enc[2 + k] == le_bytes_of(bits as nat, 8)[k]);
            assert(s.bytecode[s.index + 2 + k] == enc[2 + k]);
        }
    }
}

/// Decoding a pushed string literal yields exactly the encoded bytes.
pub proof fn lemma_push_string_round_trip(s: AbsVm, bytes: Seq<u8>)
    requires
        has_bytes_at(s.bytecode, s.index, encode_push_string(bytes)),
        bytes.len() < 0x1_0000_0000,
    ensures
        step_model(s, false) == crate::machine::ran_step(
            push_value(
                with_index(s, s.index + 6 + bytes.len()),
                AbsValue::Str { bytes },
            ),
        ),
{
    let enc = encode_push_string(bytes);
    lemma2_to64();
    lemma_le_round_trip(bytes.len(), 4);
    lemma_has_bytes_index(s.bytecode, s.index, enc);
    assert(enc[0] == OP_PUSH && enc[1] == PUSH_TYPE_STRING);
    assert(s.bytecode[s.index] == OP_PUSH);
    assert(s.bytecode[s.index + 1] == PUSH_TYPE_STRING);
    assert(s.bytecode.subrange(s.index + 2, s.index + 6) =~= le_bytes_of(bytes.len(), 4)) by {
        assert forall|k: int| 0 <= k < 4 implies s.bytecode.subrange(s.index + 2, s.index + 6)[k]
            == le_bytes_of(bytes.len(), 4)[k] by {
            assert(enc[2 + k] == (seq![OP_PUSH, PUSH_TYPE_STRING] + le_bytes_of(bytes.len(), 4)
                + bytes)[2 + k]);
            assert(s.bytecode[s.index + 2 + k] == enc[2 + k]);
        }
    }
    assert(s.bytecode.subrange(s.index + 6, s.index + 6 + bytes.len()) =~= bytes) by {
        assert forall|k: int| 0 <= k < bytes.len() implies s.bytecode.subrange(
            s.index + 6,
            s.index + 6 + bytes.len(),
        )[k] == bytes[k] by {
            assert(enc[6 + k] == bytes[k]);
            assert(s.bytecode[s.index + 6 + k] == enc[6 + k]);
        }
    }
}

/// Decoding a pushed boolean literal yields exactly the encoded truth value.
pub proof fn lemma_push_boolean_round_trip(s: AbsVm, b: bool)
    requires
        has_bytes_at(s.bytecode, s.index, encode_push_boolean(b)),
    ensures
        step_model(s, false) == crate::machine::ran_step(
            push_value(with_index(s, s.index + 3), AbsValue::Boolean { value: b }),
        ),
{
    let enc = encode_push_boolean(b);
    lemma_has_bytes_index(s.bytecode, s.index, enc);
    assert(s.bytecode[s.index] == OP_PUSH);
    assert(s.bytecode[s.index + 1] == PUSH_TYPE_BOOLEAN);
    assert(s.bytecode[s.index + 2] == enc[2]);
}

/// Displaying a non-float value writes exactly its rendering, so a decoded
/// literal is displayed as the same literal: an integer as its decimal, a
/// string as its own bytes, a boolean as `true` or `false`.
pub proof fn lemma_display_round_trip(s: AbsVm)
    requires
        0 <= s.index < s.bytecode.len(),
        s.bytecode[s.index] == OP_DISPLAY_STDOUT,
        s.stack.len() > 0,
        !(s.stack.last() is Float),
    ensures
        step_model(s, false) == crate::machine::event_step(
            drop_top(with_index(s, s.index + 1), 1),
            AbsEvent::Output { stderr: false, text: render_value(s.stack.last()) },
        ),
{
}

/// A power literal pushes exactly `2^n`, for every exponent up to 62, the
/// largest whose power fits a 64-bit signed integer.
pub proof fn lemma_power_literal(s: AbsVm, n: u8)
    requires
        has_bytes_at(s.bytecode, s.index, seq![OP_PUSH, PUSH_TYPE_INTEGER_POWER, n]),
        n <= 62,
    ensures
        step_model(s, false) == crate::machine::ran_step(
            push_value(
                with_index(s, s.index + 3),
                AbsValue::Integer { value: pow2(n as nat) as i64 },
            ),
        ),
{
    lemma_has_bytes_index(s.bytecode, s.index, seq![OP_PUSH, PUSH_TYPE_INTEGER_POWER, n]);
    lemma2_to64();
    vstd::arithmetic::power2::lemma2_to64_rest();
    assert(pow2(n as nat) <= pow2(62)) by {
        if n < 62 {
            vstd::arithmetic::power2::lemma_pow2_strictly_increases(n as nat, 62);
        }
    }
    crate::codec::lemma_wrap_to_i64_id(pow2(n as nat) as int);
}

/// A power-minus-one literal pushes exactly `2^n - 1`, for every exponent up
/// to 63: at 63 the value is the largest 64-bit signed integer.
pub proof fn lemma_power_sub_literal(s: AbsVm, n: u8)
    requires
        has_bytes_at(s.bytecode, s.index, seq![OP_PUSH, PUSH_TYPE_INTEGER_POWER_SUB, n]),
        n <= 63,
    ensures
        step_model(s, false) == crate::machine::ran_step(
            push_value(
                with_index(s, s.index + 3),
                AbsValue::Integer { value: (pow2(n as nat) - 1) as i64 },
            ),
        ),
{
    lemma_has_bytes_index(s.bytecode, s.index, seq![OP_PUSH, PUSH_TYPE_INTEGER_POWER_SUB, n]);
    lemma2_to64();
    vstd::arithmetic::power2::lemma2_to64_rest();
    assert(pow2(n as nat) <= pow2(63)) by {
        if n < 63 {
            vstd::arithmetic::power2::lemma_pow2_strictly_increases(n as nat, 63);
        }
    }
    lemma_pow2_pos(n as nat);
    crate::codec::lemma_wrap_to_i64_id(pow2(n as nat) as int - 1);
}

/// Duplicate followed by pop restores the stack exactly: after the two
/// instructions the whole state is as before, with the counter moved past
/// them.
pub proof fn lemma_dup_then_pop(s: AbsVm)
    requires
        0 <= s.index,
        s.index + 2 <= s.bytecode.len(),
        s.bytecode[s.index] == OP_DUP,
        s.bytecode[s.index + 1] == OP_POP,
        s.stack.len() > 0,
    ensures
        step_model(s, false).event is Ran,
        step_model(step_model(s, false).state, false).event is Ran,
        step_model(step_model(s, false).state, false).state == with_index(s, s.index + 2),
{
    let s1 = step_model(s, false).state;
    assert(s1.stack.push(s.stack.last()).len() > 0);
    let s2 = step_model(s1, false).state;
    assert(s2.stack =~= s.stack);
}

/// Swap applied twice restores the original stack order: after the two
/// instructions the whole state is as before, with the counter moved past
/// them.
pub proof fn lemma_swap_twice(s: AbsVm)
    requires
        0 <= s.index,
        s.index + 2 <= s.bytecode.len(),
        s.bytecode[s.index] == OP_SWAP,
        s.bytecode[s.index + 1] == OP_SWAP,
        s.stack.len() >= 2,
    ensures
        step_model(s, false).event is Ran,
        step_model(step_model(s, false).state, false).event is Ran,
        step_model(step_model(s, false).state, false).state == with_index(s, s.index + 2),
{
    let s2 = step_model(step_model(s, false).state, false).state;
    assert(s2.stack =~= s.stack);
}

/// Storing under a key and loading it back yields the stored value
/// unchanged: after the two instructions the stack is exactly as before (the
/// value was popped and pushed back) and the store binds the key to it.
pub proof fn lemma_store_then_load(s: AbsVm, key: Seq<u8>)
    requires
        key.len() < 256,
        has_bytes_at(
            s.bytecode,
            s.index,
            seq![OP_STORE, key.len() as u8] + key + seq![OP_LOAD, key.len() as u8] + key,
        ),
        s.stack.len() > 0,
    ensures
        step_model(s, false).event is Ran,
        step_model(step_model(s, false).state, false).event is Ran,
        step_model(step_model(s, false).state, false).state == (AbsVm {
            index: s.index + 2 * (2 + key.len()),
            memory: s.memory.insert(key, s.stack.last()),
            ..s
        }),
{
    let enc = seq![OP_STORE, key.len() as u8] + key + seq![OP_LOAD, key.len() as u8] + key;
    lemma_has_bytes_index(s.bytecode, s.index, enc);
    let k = key.len() as int;
    assert(enc[0] == OP_STORE);
    assert(enc[1] == key.len() as u8);
    assert(s.bytecode[s.index] == OP_STORE);
    let s1 = with_index(s, s.index + 1);
    assert(s.bytecode[s1.index] == key.len() as u8);
    assert(name_arg_ok(s1));
    assert(name_arg(s1) =~= key) by {
        assert forall|j: int| 0 <= j < k implies name_arg(s1)[j] == key[j] by {
            assert(s.bytecode[s.index + 2 + j] == enc[2 + j]);
            assert(enc[2 + j] == key[j]);
        }
    }
    let after_store = step_model(s, false).state;
    assert(after_store.index == s.index + 2 + k);
    assert(after_store.memory == s.memory.insert(key, s.stack.last()));
    assert(s.bytecode[s.index + 2 + k] == enc[2 + k]);
    assert(enc[2 + k] == OP_LOAD);
    let t1 = with_index(after_store, after_store.index + 1);
    assert(s.bytecode[t1.index] == enc[3 + k]);
    assert(enc[3 + k] == key.len() as u8);
    assert(name_arg_ok(t1));
    assert(name_arg(t1) =~= key) by {
        assert forall|j: int| 0 <= j < k implies name_arg(t1)[j] == key[j] by {
            assert(s.bytecode[s.index + 4 + k + j] == enc[4 + k + j]);
            assert(enc[4 + k + j] == key[j]);
        }
    }
    let after_load = step_model(after_store, false).state;
    assert(after_load.stack =~= s.stack) by {
        assert(after_store.stack.push(after_store.memory[key]) =~= s.stack.drop_last().push(
            s.stack.last(),
        ));
        assert(s.stack.drop_last().push(s.stack.last()) =~= s.stack);
    }
}

/// A label declaration registers the label in either pass: the table then
/// binds the name to the offset just past the declaration.  This is what the
/// resolution pass contributes: a label declared anywhere in the buffer,
/// also after a forward jump that names it, is in the table before the live
/// pass begins.
pub proof fn lemma_label_registers(s: AbsVm, resolve: bool)
    requires
        0 <= s.index < s.bytecode.len(),
        s.bytecode[s.index] == OP_LABEL,
        name_arg_ok(with_index(s, s.index + 1)),
    ensures
        step_model(s, resolve).event is Ran,
        step_model(s, resolve).state.labels == s.labels.insert(
            name_arg(with_index(s, s.index + 1)),
            name_arg_end(with_index(s, s.index + 1)),
        ),
        step_model(s, resolve).state.stack == s.stack,
        step_model(s, resolve).state.memory == s.memory,
{
}

/// A jump in the live pass transfers exactly to the registered offset of its
/// label.  Together with `lemma_label_registers` this validates the two-pass
/// design: a forward jump succeeds in the live pass because the resolution
/// pass has already walked the whole buffer.
pub proof fn lemma_jump_transfers(s: AbsVm)
    requires
        0 <= s.index < s.bytecode.len(),
        s.bytecode[s.index] == OP_JUMP,
        name_arg_ok(with_index(s, s.index + 1)),
        s.labels.contains_key(name_arg(with_index(s, s.index + 1))),
    ensures
        step_model(s, false).event is Ran,
        step_model(s, false).state == with_index(
            s,
            s.labels[name_arg(with_index(s, s.index + 1))],
        ),
{
}

/// The resolution pass has no side effect beyond the label table: whatever
/// the instruction, the stack, the store and the call stack are untouched,
/// and no caller event arises.
pub proof fn lemma_resolution_is_pure(s: AbsVm)
    ensures
        step_model(s, true).state.stack == s.stack,
        step_model(s, true).state.memory == s.memory,
        step_model(s, true).state.calls == s.calls,
        step_model(s, true).state.bytecode == s.bytecode,
        step_model(s, true).event is Ran || step_model(s, true).event is Done || step_model(
            s,
            true,
        ).event is Fault,
{
}

/// A call followed at its target by a return resumes execution exactly at
/// the instruction after the call, with the call stack as before.
pub proof fn lemma_call_then_return(s: AbsVm)
    requires
        0 <= s.index < s.bytecode.len(),
        s.bytecode[s.index] == OP_CALL,
        name_arg_ok(with_index(s, s.index + 1)),
        s.labels.contains_key(name_arg(with_index(s, s.index + 1))),
        0 <= s.labels[name_arg(with_index(s, s.index + 1))] < s.bytecode.len(),
        s.bytecode[s.labels[name_arg(with_index(s, s.index + 1))]] == OP_RETURN,
    ensures
        step_model(s, false).event is Ran,
        step_model(step_model(s, false).state, false).event is Ran,
        step_model(step_model(s, false).state, false).state == with_index(
            s,
            name_arg_end(with_index(s, s.index + 1)),
        ),
{
    let s1 = step_model(s, false).state;
    assert(s1.calls.len() > 0);
    let s2 = step_model(s1, false).state;
    assert(s2.calls =~= s.calls);
}

/// An integer division or modulo by zero is rejected: the fault consumes
/// exactly the two operands, pushes nothing, and leaves the store untouched.
pub proof fn lemma_integer_division_by_zero(s: AbsVm, op: u8)
    requires
        0 <= s.index < s.bytecode.len(),
        s.bytecode[s.index] == op,
        op == OP_DIV || op == OP_MOD,
        s.stack.len() >= 2,
        s.stack.last() is Integer,
        int_value(s.stack.last()) == 0,
        s.stack[s.stack.len() - 2] is Integer,
    ensures
        step_model(s, false).event == (AbsEvent::Fault {
            error: VmError::DivisionByZero { op },
        }),
        step_model(s, false).state.stack == s.stack.take(s.stack.len() - 2),
        step_model(s, false).state.memory == s.memory,
{
}

/// A float division by zero (either signed zero) is rejected the same way:
/// the operands are consumed, nothing is pushed, the store is untouched.
pub proof fn lemma_float_division_by_zero(s: AbsVm)
    requires
        0 <= s.index < s.bytecode.len(),
        s.bytecode[s.index] == OP_DIV,
        s.stack.len() >= 2,
        s.stack.last() is Float,
        f64_is_zero(float_bits(s.stack.last())),
        s.stack[s.stack.len() - 2] is Float,
    ensures
        step_model(s, false).event == (AbsEvent::Fault {
            error: VmError::DivisionByZero { op: OP_DIV },
        }),
        step_model(s, false).state.stack == s.stack.take(s.stack.len() - 2),
        step_model(s, false).state.memory == s.memory,
{
}

/// A whole resolution pass has no side effect beyond the label table:
/// however many instructions run, the stack, the store and the call stack
/// are exactly as before the pass.
pub proof fn lemma_resolution_pass_is_pure(s: AbsVm, n: nat)
    ensures
        run_steps(s, true, n).state.stack == s.stack,
        run_steps(s, true, n).state.memory == s.memory,
        run_steps(s, true, n).state.calls == s.calls,
        run_steps(s, true, n).state.bytecode == s.bytecode,
    decreases n,
{
    if n > 0 {
        lemma_resolution_pass_is_pure(s, (n - 1) as nat);
        let prev = run_steps(s, true, (n - 1) as nat);
        if prev.event is Ran {
            lemma_resolution_is_pure(prev.state);
        }
    }
}

/// A located concatenation locates both halves.
proof fn lemma_has_bytes_split(code: Seq<u8>, at: int, a: Seq<u8>, b: Seq<u8>)
    requires
        has_bytes_at(code, at, a + b),
    ensures
        has_bytes_at(code, at, a),
        has_bytes_at(code, at + a.len(), b),
{
    lemma_has_bytes_index(code, at, a + b);
    assert(code.subrange(at, at + a.len()) =~= a) by {
        assert forall|k: int| 0 <= k < a.len() implies code.subrange(at, at + a.len())[k]
            == a[k] by {
            assert((a + b)[k] == a[k]);
            assert(code[at + k] == (a + b)[k]);
        }
    }
    assert(code.subrange(at + a.len(), at + a.len() + b.len()) =~= b) by {
        assert forall|k: int| 0 <= k < b.len() implies code.subrange(
            at + a.len(),
            at + a.len() + b.len(),
        )[k] == b[k] by {
            assert((a + b)[a.len() + k] == b[k]);
            assert(code[at + a.len() + k] == (a + b)[a.len() + k]);
        }
    }
}

/// Decoding an integer literal and then displaying it writes exactly the
/// decimal of the encoded value, and leaves the stack as it was.
#[verifier::rlimit(100)]
pub proof fn lemma_push_integer_then_display(s: AbsVm, v: i64)
    requires
        has_bytes_at(s.bytecode, s.index, encode_push_integer(v) + seq![OP_DISPLAY_STDOUT]),
    ensures
        step_model(s, false).event is Ran,
        step_model(step_model(s, false).state, false).event == (AbsEvent::Output {
            stderr: false,
            text: crate::codec::spec_render_integer(v),
        }),
        step_model(step_model(s, false).state, false).state.stack == s.stack,
{
    lemma_i64_bits_round_trip(v);
    lemma_le_round_trip(i64_bits(v), 8);
    lemma_has_bytes_split(s.bytecode, s.index, encode_push_integer(v), seq![OP_DISPLAY_STDOUT]);
    lemma_push_integer_round_trip(s, v);
    let s1 = step_model(s, false).state;
    lemma_has_bytes_index(s.bytecode, s.index + 10, seq![OP_DISPLAY_STDOUT]);
    assert(seq![OP_DISPLAY_STDOUT][0] == OP_DISPLAY_STDOUT);
    assert(s1.bytecode[s1.index] == OP_DISPLAY_STDOUT);
    lemma_display_round_trip(s1);
    assert(s1.stack.drop_last() =~= s.stack);
}

/// Decoding a string literal and then displaying it writes exactly the
/// encoded bytes, and leaves the stack as it was.
#[verifier::rlimit(100)]
pub proof fn lemma_push_string_then_display(s: AbsVm, bytes: Seq<u8>)
    requires
        has_bytes_at(s.bytecode, s.index, encode_push_string(bytes) + seq![OP_DISPLAY_STDOUT]),
        bytes.len() < 0x1_0000_0000,
    ensures
        step_model(s, false).event is Ran,
        step_model(step_model(s, false).state, false).event == (AbsEvent::Output {
            stderr: false,
            text: bytes,
        }),
        step_model(step_model(s, false).state, false).state.stack == s.stack,
{
    lemma2_to64();
    lemma_le_round_trip(bytes.len(), 4);
    assert(encode_push_string(bytes).len() == 6 + bytes.len());
    lemma_has_bytes_split(s.bytecode, s.index, encode_push_string(bytes), seq![OP_DISPLAY_STDOUT]);
    lemma_push_string_round_trip(s, bytes);
    let s1 = step_model(s, false).state;
    lemma_has_bytes_index(s.bytecode, s.index + 6 + bytes.len(), seq![OP_DISPLAY_STDOUT]);
    assert(seq![OP_DISPLAY_STDOUT][0] == OP_DISPLAY_STDOUT);
    assert(s1.bytecode[s1.index] == OP_DISPLAY_STDOUT);
    lemma_display_round_trip(s1);
    assert(s1.stack.drop_last() =~= s.stack);
}

/// Decoding a boolean literal and then displaying it writes exactly the
/// word `true` or `false`, and leaves the stack as it was.
#[verifier::rlimit(100)]
pub proof fn lemma_push_boolean_then_display(s: AbsVm, b: bool)
    requires
        has_bytes_at(s.bytecode, s.index, encode_push_boolean(b) + seq![OP_DISPLAY_STDOUT]),
    ensures
        step_model(s, false).event is Ran,
        step_model(step_model(s, false).state, false).event == (AbsEvent::Output {
            stderr: false,
            text: render_value(AbsValue::Boolean { value: b }),
        }),
        step_model(step_model(s, false).state, false).state.stack == s.stack,
{
    lemma_has_bytes_split(s.bytecode, s.index, encode_push_boolean(b), seq![OP_DISPLAY_STDOUT]);
    lemma_push_boolean_round_trip(s, b);
    let s1 = step_model(s, false).state;
    lemma_has_bytes_index(s.bytecode, s.index + 3, seq![OP_DISPLAY_STDOUT]);
    assert(seq![OP_DISPLAY_STDOUT][0] == OP_DISPLAY_STDOUT);
    assert(s1.bytecode[s1.index] == OP_DISPLAY_STDOUT);
    lemma_display_round_trip(s1);
    assert(s1.stack.drop_last() =~= s.stack);
}

/// Decoding a float literal and then displaying it hands the caller exactly
/// the encoded bit pattern, and leaves the stack as it was.
#[verifier::rlimit(100)]
pub proof fn lemma_push_float_then_display(s: AbsVm, bits: u64)
    requires
        has_bytes_at(s.bytecode, s.index, encode_push_float(bits) + seq![OP_DISPLAY_STDOUT]),
    ensures
        step_model(s, false).event is Ran,
        step_model(step_model(s, false).state, false).event == (AbsEvent::FloatOutput {
            stderr: false,
            bits,
        }),
        step_model(step_model(s, false).state, false).state.stack == s.stack,
{
    lemma2_to64();
    lemma_le_round_trip(bits as nat, 8);
    lemma_has_bytes_split(s.bytecode, s.index, encode_push_float(bits), seq![OP_DISPLAY_STDOUT]);
    lemma_push_float_round_trip(s, bits);
    let s1 = step_model(s, false).state;
    lemma_has_bytes_index(s.bytecode, s.index + 10, seq![OP_DISPLAY_STDOUT]);
    assert(seq![OP_DISPLAY_STDOUT][0] == OP_DISPLAY_STDOUT);
    assert(s1.bytecode[s1.index] == OP_DISPLAY_STDOUT);
    assert(s1.stack.drop_last() =~= s.stack);
}

/// No instruction removes a label: a binding, once registered, survives
/// every later step (a redeclaration may move it).
pub proof fn lemma_labels_persist(s: AbsVm, resolve: bool, k: Seq<u8>)
    requires
        s.labels.contains_key(k),
    ensures
        step_model(s, resolve).state.labels.contains_key(k),
{
}

/// A label binding survives a whole run, however many instructions it
/// executes.  With `lemma_label_registers` and `lemma_jump_transfers` this
/// is why a forward jump succeeds in the live pass: the resolution pass
/// registered the label, and nothing since has removed it.
pub proof fn lemma_labels_persist_run(s: AbsVm, resolve: bool, k: Seq<u8>, n: nat)
    requires
        s.labels.contains_key(k),
    ensures
        run_steps(s, resolve, n).state.labels.contains_key(k),
    decreases n,
{
    if n > 0 {
        lemma_labels_persist_run(s, resolve, k, (n - 1) as nat);
        let prev = run_steps(s, resolve, (n - 1) as nat);
        if prev.event is Ran {
            lemma_labels_persist(prev.state, resolve, k);
        }
    }
}

} // verus!
