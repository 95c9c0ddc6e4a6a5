//! The virtual machine: instruction decoding, the execution state, and the
//! one-step transition relation.
//!
//! The machine is driven in two passes over the same buffer.  The resolution
//! pass (`resolve == true`) walks every instruction, validating framing and
//! registering labels, without touching the stack or the store.  The live
//! pass performs the side effects.  Work that only the caller can do —
//! printing, reading input, floating-point arithmetic, ending the process —
//! is returned as a `VmEvent`; the caller performs it and resumes.
//!
//! The whole semantics is captured by the specification function
//! `step_model`: executing one instruction is proved to transform the
//! machine's view exactly as `step_model` says.

use vstd::prelude::*;

verus! {

use crate::codec::{
    bytes_eq,
    le_bytes_val,
    le_value,
    lemma_le_bytes_val_bound,
    pow2_sub1_wrapped,
    pow2_wrapped,
    trim_line_ends,
    trim_line_ends_vec,
    u64_as_i64,
    wrap_to_i64,
    copy_range,
    clone_bytes,
};
use crate::value::{
    AbsValue,
    Value,
    add_model,
    compare_model,
    div_model,
    f64_bits_is_zero,
    f64_is_zero,
    modulo_model,
    mul_model,
    render_value,
    sub_model,
};
use vstd::arithmetic::power2::{pow2, lemma2_to64};

pub const OP_DEBUG: u8 = 0x00;

pub const OP_PUSH: u8 = 0x01;

pub const OP_LOAD: u8 = 0x02;

pub const OP_STORE: u8 = 0x03;

pub const OP_DUP: u8 = 0x04;

pub const OP_SWAP: u8 = 0x05;

pub const OP_POP: u8 = 0x06;

pub const OP_ADD: u8 = 0x10;

pub const OP_SUB: u8 = 0x11;

pub const OP_MUL: u8 = 0x12;

pub const OP_DIV: u8 = 0x13;

pub const OP_MOD: u8 = 0x14;

pub const OP_STR_GET_SLICE: u8 = 0x20;

pub const OP_STR_LENGTH: u8 = 0x21;

pub const OP_CMP: u8 = 0xD0;

pub const OP_LABEL: u8 = 0xE0;

pub const OP_JUMP: u8 = 0xE1;

pub const OP_JUMP_IF_TRUE: u8 = 0xE2;

pub const OP_JUMP_IF_FALSE: u8 = 0xE3;

pub const OP_CALL: u8 = 0xE4;

pub const OP_RETURN: u8 = 0xE5;

pub const OP_DISPLAY_STDOUT: u8 = 0xF0;

pub const OP_DISPLAY_STDERR: u8 = 0xF1;

pub const OP_INPUT: u8 = 0xF2;

pub const OP_EXIT: u8 = 0xFF;

pub const PUSH_TYPE_INTEGER: u8 = 0x01;

pub const PUSH_TYPE_FLOAT: u8 = 0x02;

pub const PUSH_TYPE_STRING: u8 = 0x03;

pub const PUSH_TYPE_BOOLEAN: u8 = 0x04;

pub const PUSH_TYPE_INTEGER_POWER: u8 = 0x05;

pub const PUSH_TYPE_INTEGER_POWER_SUB: u8 = 0x06;

/// The fault kinds.  A fault prints a diagnostic (the caller formats it from
/// this value) and halts the current pass at once.
#[derive(Debug, Clone, Copy, PartialEq, Eq)]
pub enum VmError {
    /// A fixed or length-prefixed operand ran past the end of the buffer.
    IncompleteInstruction { op: u8 },
    /// An opcode byte outside the instruction set.
    UnknownOpcode { op: u8 },
    /// A push instruction with an unknown type tag.
    UnknownPushType { tag: u8 },
    /// A boolean literal byte other than 0 or 1.
    InvalidBooleanLiteral { byte: u8 },
    /// A pop from an empty operand stack, naming the operation.
    StackUnderflow { op: u8 },
    /// Operand variants outside the operation's rule table.
    TypeIncompatible { op: u8 },
    /// A load from a key with no binding.
    KeyNotFound,
    /// A control transfer to a label that was never declared.
    LabelNotFound { op: u8 },
    /// A return with an empty call stack.
    CallStackUnderflow,
    /// Slice bounds outside the string, or an empty range.
    InvalidSliceBounds,
    /// A division or modulo with a zero divisor.
    DivisionByZero { op: u8 },
}

/// What one step of the machine hands back to its caller.
#[derive(Debug, PartialEq, Eq)]
pub enum VmEvent {
    /// The instruction completed; execution goes on.
    Ran,
    /// The end of the buffer was reached: the pass is over.
    Done,
    /// A fatal fault: the pass halts here.
    Fault { error: VmError },
    /// The exit instruction ran: the caller should end the process with this
    /// status.
    Exit { code: i64 },
    /// Text to write to standard output, or standard error when `stderr`.
    Output { stderr: bool, text: Vec<u8> },
    /// A floating-point value to format and write; only the caller can
    /// render it.
    FloatOutput { stderr: bool, bits: u64 },
    /// A floating-point arithmetic instruction: the caller computes
    /// `lhs op rhs` on the IEEE 754 bit patterns and resumes with the result.
    FloatBin { op: u8, lhs: u64, rhs: u64 },
    /// The input instruction: the caller reads one line and resumes with it.
    Input,
    /// The debug instruction: the caller may print a diagnostic snapshot.
    DebugDump,
}

/// The mathematical shape of an event.
pub enum AbsEvent {
    Ran,
    Done,
    Fault { error: VmError },
    Exit { code: i64 },
    Output { stderr: bool, text: Seq<u8> },
    FloatOutput { stderr: bool, bits: u64 },
    FloatBin { op: u8, lhs: u64, rhs: u64 },
    Input,
    DebugDump,
}

impl View for VmEvent {
    type V = AbsEvent;

    open spec fn view(&self) -> AbsEvent {
        match self {
            VmEvent::Ran => AbsEvent::Ran,
            VmEvent::Done => AbsEvent::Done,
            VmEvent::Fault { error } => AbsEvent::Fault { error: *error },
            VmEvent::Exit { code } => AbsEvent::Exit { code: *code },
            VmEvent::Output { stderr, text } => AbsEvent::Output {
                stderr: *stderr,
                text: text@,
            },
            VmEvent::FloatOutput { stderr, bits } => AbsEvent::FloatOutput {
                stderr: *stderr,
                bits: *bits,
            },
            VmEvent::FloatBin { op, lhs, rhs } => AbsEvent::FloatBin {
                op: *op,
                lhs: *lhs,
                rhs: *rhs,
            },
            VmEvent::Input => AbsEvent::Input,
            VmEvent::DebugDump => AbsEvent::DebugDump,
        }
    }
}

/// The mathematical shape of the whole machine state.
pub struct AbsVm {
    /// The instruction buffer.
    pub bytecode: Seq<u8>,
    /// The program counter: an offset into the buffer.
    pub index: int,
    /// The variable store: key to value, last write wins.
    pub memory: Map<Seq<u8>, AbsValue>,
    /// The operand stack; the last element is the top.
    pub stack: Seq<AbsValue>,
    /// The label table: name to the offset just past the label's encoding.
    pub labels: Map<Seq<u8>, int>,
    /// The call stack of return offsets; the last element is the innermost.
    pub calls: Seq<int>,
}

/// The state and event that one step yields.
pub struct AbsStep {
    pub state: AbsVm,
    pub event: AbsEvent,
}

/// The view of an operand stack.
pub open spec fn stack_view(s: Seq<Value>) -> Seq<AbsValue> {
    s.map_values(|v: Value| v@)
}

/// The view of a call stack.
pub open spec fn calls_view(s: Seq<usize>) -> Seq<int> {
    s.map_values(|c: usize| c as int)
}

/// The view of the variable store: bindings in order, last write wins.
pub open spec fn mem_view(entries: Seq<(Vec<u8>, Value)>) -> Map<Seq<u8>, AbsValue>
    decreases entries.len(),
{
    if entries.len() == 0 {
        Map::empty()
    } else {
        mem_view(entries.drop_last()).insert(entries.last().0@, entries.last().1@)
    }
}

/// The view of the label table: bindings in order, last write wins.
pub open spec fn label_view(entries: Seq<(Vec<u8>, usize)>) -> Map<Seq<u8>, int>
    decreases entries.len(),
{
    if entries.len() == 0 {
        Map::empty()
    } else {
        label_view(entries.drop_last()).insert(entries.last().0@, entries.last().1 as int)
    }
}

/// A key that matches no binding is absent from the store's view.
proof fn lemma_mem_view_absent(entries: Seq<(Vec<u8>, Value)>, key: Seq<u8>)
    requires
        forall|j: int| 0 <= j < entries.len() ==> #[trigger] entries[j].0@ != key,
    ensures
        !mem_view(entries).contains_key(key),
    decreases entries.len(),
{
    if entries.len() > 0 {
        assert(forall|j: int|
            0 <= j < entries.drop_last().len() ==> #[trigger] entries.drop_last()[j].0@ != key);
        lemma_mem_view_absent(entries.drop_last(), key);
    }
}

/// The store's view binds a key to the value of its last matching entry.
proof fn lemma_mem_view_found(entries: Seq<(Vec<u8>, Value)>, key: Seq<u8>, i: int)
    requires
        0 <= i < entries.len(),
        entries[i].0@ == key,
        forall|j: int| i < j < entries.len() ==> #[trigger] entries[j].0@ != key,
    ensures
        mem_view(entries).contains_key(key),
        mem_view(entries)[key] == entries[i].1@,
    decreases entries.len(),
{
    if i < entries.len() - 1 {
        assert(entries.drop_last()[i] == entries[i]);
        assert(forall|j: int|
            i < j < entries.drop_last().len() ==> #[trigger] entries.drop_last()[j].0@ != key);
        lemma_mem_view_found(entries.drop_last(), key, i);
        assert(entries.last().0@ != key);
    }
}

/// A key that matches no binding is absent from the label table's view.
proof fn lemma_label_view_absent(entries: Seq<(Vec<u8>, usize)>, key: Seq<u8>)
    requires
        forall|j: int| 0 <= j < entries.len() ==> #[trigger] entries[j].0@ != key,
    ensures
        !label_view(entries).contains_key(key),
    decreases entries.len(),
{
    if entries.len() > 0 {
        assert(forall|j: int|
            0 <= j < entries.drop_last().len() ==> #[trigger] entries.drop_last()[j].0@ != key);
        lemma_label_view_absent(entries.drop_last(), key);
    }
}

/// The label table's view binds a name to the offset of its last matching
/// entry.
proof fn lemma_label_view_found(entries: Seq<(Vec<u8>, usize)>, key: Seq<u8>, i: int)
    requires
        0 <= i < entries.len(),
        entries[i].0@ == key,
        forall|j: int| i < j < entries.len() ==> #[trigger] entries[j].0@ != key,
    ensures
        label_view(entries).contains_key(key),
        label_view(entries)[key] == entries[i].1 as int,
    decreases entries.len(),
{
    if i < entries.len() - 1 {
        assert(entries.drop_last()[i] == entries[i]);
        assert(forall|j: int|
            i < j < entries.drop_last().len() ==> #[trigger] entries.drop_last()[j].0@ != key);
        lemma_label_view_found(entries.drop_last(), key, i);
        assert(entries.last().0@ != key);
    }
}

/// Looks a key up in the variable store; the latest binding wins.
fn mem_get(entries: &Vec<(Vec<u8>, Value)>, key: &Vec<u8>) -> (r: Option<Value>)
    ensures
        match r {
            Some(v) => mem_view(entries@).contains_key(key@) && v@ == mem_view(entries@)[key@],
            None => !mem_view(entries@).contains_key(key@),
        },
{
    let mut i: usize = entries.len();
    while i > 0
        invariant
            i <= entries@.len(),
            forall|j: int| i <= j < entries@.len() ==> #[trigger] entries@[j].0@ != key@,
        decreases i,
    {
        i = i - 1;
        let hit = bytes_eq(&entries[i].0, key);
        if hit {
            proof {
                lemma_mem_view_found(entries@, key@, i as int);
            }
            return Some(entries[i].1.duplicate());
        }
    }
    proof {
        lemma_mem_view_absent(entries@, key@);
    }
    None
}

/// Looks a name up in the label table; the latest binding wins.
fn label_get(entries: &Vec<(Vec<u8>, usize)>, key: &Vec<u8>) -> (r: Option<usize>)
    ensures
        match r {
            Some(t) => label_view(entries@).contains_key(key@) && t as int == label_view(
                entries@,
            )[key@],
            None => !label_view(entries@).contains_key(key@),
        },
{
    let mut i: usize = entries.len();
    while i > 0
        invariant
            i <= entries@.len(),
            forall|j: int| i <= j < entries@.len() ==> #[trigger] entries@[j].0@ != key@,
        decreases i,
    {
        i = i - 1;
        let hit = bytes_eq(&entries[i].0, key);
        if hit {
            proof {
                lemma_label_view_found(entries@, key@, i as int);
            }
            return Some(entries[i].1);
        }
    }
    proof {
        lemma_label_view_absent(entries@, key@);
    }
    None
}

/// The virtual machine: an instruction buffer and the state the instructions
/// act on.  The buffer is fixed at construction; the program counter, stack,
/// store, label table and call stack evolve as instructions run.
pub struct VM {
    bytecode: Vec<u8>,
    index: usize,
    memory: Vec<(Vec<u8>, Value)>,
    stack: Vec<Value>,
    labels: Vec<(Vec<u8>, usize)>,
    calls: Vec<usize>,
}

impl View for VM {
    type V = AbsVm;

    closed spec fn view(&self) -> AbsVm {
        AbsVm {
            bytecode: self.bytecode@,
            index: self.index as int,
            memory: mem_view(self.memory@),
            stack: stack_view(self.stack@),
            labels: label_view(self.labels@),
            calls: calls_view(self.calls@),
        }
    }
}

/// Well-formedness of a machine state: the program counter and every
/// recorded offset lie within the buffer.
pub open spec fn abs_wf(s: AbsVm) -> bool {
    &&& 0 <= s.index <= s.bytecode.len()
    &&& forall|k: Seq<u8>| s.labels.contains_key(k) ==> 0 <= #[trigger] s.labels[k]
        <= s.bytecode.len()
    &&& forall|i: int| 0 <= i < s.calls.len() ==> 0 <= #[trigger] s.calls[i] <= s.bytecode.len()
}

impl VM {
    /// Well-formedness: the state the machine preserves across every step.
    pub open spec fn wf(self) -> bool {
        abs_wf(self@)
    }

    /// A fresh machine over a byte buffer: counter at zero, everything else
    /// empty.
    pub fn new(bytecode: Vec<u8>) -> (r: VM)
        ensures
            r.wf(),
            r@.bytecode == bytecode@,
            r@.index == 0,
            r@.memory == Map::<Seq<u8>, AbsValue>::empty(),
            r@.stack == Seq::<AbsValue>::empty(),
            r@.labels == Map::<Seq<u8>, int>::empty(),
            r@.calls == Seq::<int>::empty(),
    {
        let r = VM {
            bytecode,
            index: 0,
            memory: Vec::new(),
            stack: Vec::new(),
            labels: Vec::new(),
            calls: Vec::new(),
        };
        proof {
            assert(stack_view(r.stack@) =~= Seq::<AbsValue>::empty());
            assert(calls_view(r.calls@) =~= Seq::<int>::empty());
        }
        r
    }

    /// The operand stack, bottom first, as copies.
    pub fn stack_items(&self) -> (r: Vec<Value>)
        ensures
            stack_view(r@) == self@.stack,
    {
        let mut out: Vec<Value> = Vec::new();
        let mut i: usize = 0;
        proof {
            assert(stack_view(out@) =~= stack_view(self.stack@).take(0));
        }
        while i < self.stack.len()
            invariant
                i <= self.stack@.len(),
                stack_view(out@) == stack_view(self.stack@).take(i as int),
            decreases self.stack@.len() - i,
        {
            proof {
                assert(stack_view(out@.push(self.stack@[i as int])) =~= stack_view(out@).push(
                    self.stack@[i as int]@,
                ));
                assert(stack_view(self.stack@).take(i + 1) =~= stack_view(self.stack@).take(
                    i as int,
                ).push(stack_view(self.stack@)[i as int]));
            }
            let v = self.stack[i].duplicate();
            proof {
                assert(stack_view(out@).push(v@) =~= stack_view(out@).push(
                    self.stack@[i as int]@,
                ));
            }
            out.push(v);
            i = i + 1;
        }
        proof {
            assert(stack_view(self.stack@).take(self.stack@.len() as int) =~= stack_view(
                self.stack@,
            ));
        }
        out
    }
}

// --- The one-step transition model ------------------------------------------
/// The bit pattern under a float value; zero elsewhere (guarded by `is
/// Float` wherever it is used).
pub open spec fn float_bits(v: AbsValue) -> u64 {
    match v {
        AbsValue::Float { bits } => bits,
        _ => 0,
    }
}

/// The integer under an integer value; zero elsewhere (guarded by `is
/// Integer` wherever it is used).
pub open spec fn int_value(v: AbsValue) -> i64 {
    match v {
        AbsValue::Integer { value } => value,
        _ => 0,
    }
}

/// The boolean under a boolean value; false elsewhere (guarded by `is
/// Boolean` wherever it is used).
pub open spec fn bool_value(v: AbsValue) -> bool {
    match v {
        AbsValue::Boolean { value } => value,
        _ => false,
    }
}

/// The bytes under a string value; empty elsewhere (guarded by `is Str`
/// wherever it is used).
pub open spec fn str_bytes(v: AbsValue) -> Seq<u8> {
    match v {
        AbsValue::Str { bytes } => bytes,
        _ => Seq::empty(),
    }
}

/// A step that completed normally.
pub open spec fn ran_step(s: AbsVm) -> AbsStep {
    AbsStep { state: s, event: AbsEvent::Ran }
}

/// A step that faulted.
pub open spec fn fault_step(s: AbsVm, error: VmError) -> AbsStep {
    AbsStep { state: s, event: AbsEvent::Fault { error } }
}

/// A step that hands work to the caller.
pub open spec fn event_step(s: AbsVm, event: AbsEvent) -> AbsStep {
    AbsStep { state: s, event }
}

/// The state with the program counter moved.
pub open spec fn with_index(s: AbsVm, index: int) -> AbsVm {
    AbsVm { index, ..s }
}

/// The state with a value pushed onto the operand stack.
pub open spec fn push_value(s: AbsVm, v: AbsValue) -> AbsVm {
    AbsVm { stack: s.stack.push(v), ..s }
}

/// The state with the top `n` operands removed.
pub open spec fn drop_top(s: AbsVm, n: int) -> AbsVm {
    AbsVm { stack: s.stack.take(s.stack.len() - n), ..s }
}

/// Whether a 1-byte length prefix and its payload fit in the buffer at the
/// counter.
pub open spec fn name_arg_ok(s: AbsVm) -> bool {
    s.index < s.bytecode.len() && s.index + 1 + s.bytecode[s.index] <= s.bytecode.len()
}

/// The payload of a length-prefixed name argument at the counter.
pub open spec fn name_arg(s: AbsVm) -> Seq<u8> {
    s.bytecode.subrange(s.index + 1, s.index + 1 + s.bytecode[s.index])
}

/// The counter just past a length-prefixed name argument.
pub open spec fn name_arg_end(s: AbsVm) -> int {
    s.index + 1 + s.bytecode[s.index]
}

/// Where the counter stands when a name argument is incomplete: past the
/// length byte if that much was readable.
pub open spec fn name_fault_index(s: AbsVm) -> int {
    if s.index < s.bytecode.len() {
        s.index + 1
    } else {
        s.index
    }
}

/// One push instruction, the counter already past the opcode byte.
pub open spec fn step_push(s: AbsVm, resolve: bool) -> AbsStep {
    let n = s.bytecode.len();
    if s.index >= n {
        fault_step(s, VmError::IncompleteInstruction { op: OP_PUSH })
    } else {
        let tag = s.bytecode[s.index];
        let s1 = with_index(s, s.index + 1);
        if tag == PUSH_TYPE_INTEGER {
            if s1.index + 8 > n {
                fault_step(s1, VmError::IncompleteInstruction { op: OP_PUSH })
            } else {
                let v = wrap_to_i64(
                    le_bytes_val(s.bytecode.subrange(s1.index, s1.index + 8)) as int,
                );
                let s2 = with_index(s1, s1.index + 8);
                if resolve {
                    ran_step(s2)
                } else {
                    ran_step(push_value(s2, AbsValue::Integer { value: v }))
                }
            }
        } else if tag == PUSH_TYPE_FLOAT {
            if s1.index + 8 > n {
                fault_step(s1, VmError::IncompleteInstruction { op: OP_PUSH })
            } else {
                let bits = le_bytes_val(s.bytecode.subrange(s1.index, s1.index + 8)) as u64;
                let s2 = with_index(s1, s1.index + 8);
                if resolve {
                    ran_step(s2)
                } else {
                    ran_step(push_value(s2, AbsValue::Float { bits }))
                }
            }
        } else if tag == PUSH_TYPE_STRING {
            if s1.index + 4 > n {
                fault_step(s1, VmError::IncompleteInstruction { op: OP_PUSH })
            } else {
                let str_len = le_bytes_val(s.bytecode.subrange(s1.index, s1.index + 4)) as int;
                let s2 = with_index(s1, s1.index + 4);
                if s2.index + str_len > n {
                    fault_step(s2, VmError::IncompleteInstruction { op: OP_PUSH })
                } else {
                    let bytes = s.bytecode.subrange(s2.index, s2.index + str_len);
                    let s3 = with_index(s2, s2.index + str_len);
                    if resolve {
                        ran_step(s3)
                    } else {
                        ran_step(push_value(s3, AbsValue::Str { bytes }))
                    }
                }
            }
        } else if tag == PUSH_TYPE_BOOLEAN {
            if s1.index + 1 > n {
                fault_step(s1, VmError::IncompleteInstruction { op: OP_PUSH })
            } else {
                let byte = s.bytecode[s1.index];
                let s2 = with_index(s1, s1.index + 1);
                if resolve {
                    ran_step(s2)
                } else if byte == 0 {
                    ran_step(push_value(s2, AbsValue::Boolean { value: false }))
                } else if byte == 1 {
                    ran_step(push_value(s2, AbsValue::Boolean { value: true }))
                } else {
                    fault_step(s2, VmError::InvalidBooleanLiteral { byte })
                }
            }
        } else if tag == PUSH_TYPE_INTEGER_POWER {
            if s1.index + 1 > n {
                fault_step(s1, VmError::IncompleteInstruction { op: OP_PUSH })
            } else {
                let exponent = s.bytecode[s1.index];
                let s2 = with_index(s1, s1.index + 1);
                if resolve {
                    ran_step(s2)
                } else {
                    let v = wrap_to_i64(pow2(exponent as nat) as int);
                    ran_step(push_value(s2, AbsValue::Integer { value: v }))
                }
            }
        } else if tag == PUSH_TYPE_INTEGER_POWER_SUB {
            if s1.index + 1 > n {
                fault_step(s1, VmError::IncompleteInstruction { op: OP_PUSH })
            } else {
                let exponent = s.bytecode[s1.index];
                let s2 = with_index(s1, s1.index + 1);
                if resolve {
                    ran_step(s2)
                } else {
                    let v = wrap_to_i64(pow2(exponent as nat) as int - 1);
                    ran_step(push_value(s2, AbsValue::Integer { value: v }))
                }
            }
        } else {
            fault_step(s1, VmError::UnknownPushType { tag })
        }
    }
}

/// One load instruction, the counter already past the opcode byte.
pub open spec fn step_load(s: AbsVm, resolve: bool) -> AbsStep {
    if !name_arg_ok(s) {
        fault_step(with_index(s, name_fault_index(s)), VmError::IncompleteInstruction { op: OP_LOAD })
    } else {
        let key = name_arg(s);
        let s2 = with_index(s, name_arg_end(s));
        if resolve {
            ran_step(s2)
        } else if s2.memory.contains_key(key) {
            ran_step(push_value(s2, s2.memory[key]))
        } else {
            fault_step(s2, VmError::KeyNotFound)
        }
    }
}

/// One store instruction, the counter already past the opcode byte.
pub open spec fn step_store(s: AbsVm, resolve: bool) -> AbsStep {
    if !name_arg_ok(s) {
        fault_step(with_index(s, name_fault_index(s)), VmError::IncompleteInstruction { op: OP_STORE })
    } else {
        let key = name_arg(s);
        let s2 = with_index(s, name_arg_end(s));
        if resolve {
            ran_step(s2)
        } else if s2.stack.len() == 0 {
            fault_step(s2, VmError::StackUnderflow { op: OP_STORE })
        } else {
            ran_step(
                AbsVm {
                    stack: s2.stack.drop_last(),
                    memory: s2.memory.insert(key, s2.stack.last()),
                    ..s2
                },
            )
        }
    }
}

/// What an arithmetic opcode computes on two non-float-pair operands.
pub open spec fn arith_result(op: u8, lhs: AbsValue, rhs: AbsValue) -> Option<AbsValue> {
    if op == OP_ADD {
        add_model(lhs, rhs)
    } else if op == OP_SUB {
        sub_model(lhs, rhs)
    } else if op == OP_MUL {
        mul_model(lhs, rhs)
    } else if op == OP_DIV {
        div_model(lhs, rhs)
    } else {
        modulo_model(lhs, rhs)
    }
}

/// One arithmetic instruction (add, sub, mul, div, mod), the counter already
/// past the opcode byte.  A float pair becomes a caller event — except for
/// mod, which no float pair supports, and a float division by zero, which
/// faults like the integer one.
pub open spec fn step_arith(s: AbsVm, op: u8, resolve: bool) -> AbsStep {
    if resolve {
        ran_step(s)
    } else if s.stack.len() == 0 {
        fault_step(s, VmError::StackUnderflow { op })
    } else if s.stack.len() == 1 {
        fault_step(drop_top(s, 1), VmError::StackUnderflow { op })
    } else {
        let rhs = s.stack.last();
        let lhs = s.stack[s.stack.len() - 2];
        let s2 = drop_top(s, 2);
        if lhs is Float && rhs is Float && op != OP_MOD {
            if op == OP_DIV && f64_is_zero(float_bits(rhs)) {
                fault_step(s2, VmError::DivisionByZero { op })
            } else {
                event_step(
                    s2,
                    AbsEvent::FloatBin { op, lhs: float_bits(lhs), rhs: float_bits(rhs) },
                )
            }
        } else if (op == OP_DIV || op == OP_MOD) && lhs is Integer && rhs is Integer && int_value(
            rhs,
        ) == 0 {
            fault_step(s2, VmError::DivisionByZero { op })
        } else {
            match arith_result(op, lhs, rhs) {
                Some(v) => ran_step(push_value(s2, v)),
                None => fault_step(s2, VmError::TypeIncompatible { op }),
            }
        }
    }
}

/// One string-slice instruction: pops end, start and the string, and pushes
/// the byte range `[start, end)`.
pub open spec fn step_str_slice(s: AbsVm, resolve: bool) -> AbsStep {
    let op = OP_STR_GET_SLICE;
    if resolve {
        ran_step(s)
    } else if s.stack.len() == 0 {
        fault_step(s, VmError::StackUnderflow { op })
    } else if !(s.stack.last() is Integer) {
        fault_step(drop_top(s, 1), VmError::TypeIncompatible { op })
    } else if s.stack.len() == 1 {
        fault_step(drop_top(s, 1), VmError::StackUnderflow { op })
    } else if !(s.stack[s.stack.len() - 2] is Integer) {
        fault_step(drop_top(s, 2), VmError::TypeIncompatible { op })
    } else if s.stack.len() == 2 {
        fault_step(drop_top(s, 2), VmError::StackUnderflow { op })
    } else if !(s.stack[s.stack.len() - 3] is Str) {
        fault_step(drop_top(s, 3), VmError::TypeIncompatible { op })
    } else {
        let end = int_value(s.stack.last()) as int;
        let start = int_value(s.stack[s.stack.len() - 2]) as int;
        let bytes = str_bytes(s.stack[s.stack.len() - 3]);
        let s3 = drop_top(s, 3);
        if start < 0 || end < 0 || start >= bytes.len() || end > bytes.len() || start >= end {
            fault_step(s3, VmError::InvalidSliceBounds)
        } else {
            ran_step(push_value(s3, AbsValue::Str { bytes: bytes.subrange(start, end) }))
        }
    }
}

/// One string-length instruction: pops the string and pushes its byte
/// length.
pub open spec fn step_str_length(s: AbsVm, resolve: bool) -> AbsStep {
    let op = OP_STR_LENGTH;
    if resolve {
        ran_step(s)
    } else if s.stack.len() == 0 {
        fault_step(s, VmError::StackUnderflow { op })
    } else if !(s.stack.last() is Str) {
        fault_step(drop_top(s, 1), VmError::TypeIncompatible { op })
    } else {
        let n = str_bytes(s.stack.last()).len();
        ran_step(
            push_value(drop_top(s, 1), AbsValue::Integer { value: wrap_to_i64(n as int) }),
        )
    }
}

/// One comparison instruction, the counter already past the opcode byte:
/// reads the relation selector, pops both operands, pushes the boolean.
pub open spec fn step_cmp(s: AbsVm, resolve: bool) -> AbsStep {
    let op = OP_CMP;
    if s.index >= s.bytecode.len() {
        fault_step(s, VmError::IncompleteInstruction { op })
    } else {
        let cmp_type = s.bytecode[s.index];
        let s1 = with_index(s, s.index + 1);
        if resolve {
            ran_step(s1)
        } else if s1.stack.len() == 0 {
            fault_step(s1, VmError::StackUnderflow { op })
        } else if s1.stack.len() == 1 {
            fault_step(drop_top(s1, 1), VmError::StackUnderflow { op })
        } else {
            let rhs = s1.stack.last();
            let lhs = s1.stack[s1.stack.len() - 2];
            let s2 = drop_top(s1, 2);
            match compare_model(lhs, rhs, cmp_type) {
                Some(b) => ran_step(push_value(s2, AbsValue::Boolean { value: b })),
                None => fault_step(s2, VmError::TypeIncompatible { op }),
            }
        }
    }
}

/// One label declaration, the counter already past the opcode byte: binds
/// the name to the offset just past the declaration, in both passes;
/// redeclaration silently overwrites.
pub open spec fn step_label(s: AbsVm, resolve: bool) -> AbsStep {
    if !name_arg_ok(s) {
        fault_step(with_index(s, name_fault_index(s)), VmError::IncompleteInstruction { op: OP_LABEL })
    } else {
        let name = name_arg(s);
        let end = name_arg_end(s);
        ran_step(AbsVm { index: end, labels: s.labels.insert(name, end), ..s })
    }
}

/// One unconditional jump, the counter already past the opcode byte.
pub open spec fn step_jump(s: AbsVm, resolve: bool) -> AbsStep {
    let op = OP_JUMP;
    if !name_arg_ok(s) {
        fault_step(with_index(s, name_fault_index(s)), VmError::IncompleteInstruction { op })
    } else {
        let name = name_arg(s);
        let s2 = with_index(s, name_arg_end(s));
        if resolve {
            ran_step(s2)
        } else if s2.labels.contains_key(name) {
            ran_step(with_index(s2, s2.labels[name]))
        } else {
            fault_step(s2, VmError::LabelNotFound { op })
        }
    }
}

/// One conditional jump, the counter already past the opcode byte: pops a
/// boolean and transfers when it equals `want`.
pub open spec fn step_jump_if(s: AbsVm, want: bool, resolve: bool) -> AbsStep {
    let op = if want {
        OP_JUMP_IF_TRUE
    } else {
        OP_JUMP_IF_FALSE
    };
    if !name_arg_ok(s) {
        fault_step(with_index(s, name_fault_index(s)), VmError::IncompleteInstruction { op })
    } else {
        let name = name_arg(s);
        let s2 = with_index(s, name_arg_end(s));
        if resolve {
            ran_step(s2)
        } else if s2.stack.len() == 0 {
            fault_step(s2, VmError::StackUnderflow { op })
        } else if !(s2.stack.last() is Boolean) {
            fault_step(drop_top(s2, 1), VmError::TypeIncompatible { op })
        } else {
            let cond = bool_value(s2.stack.last());
            let s3 = drop_top(s2, 1);
            if cond != want {
                ran_step(s3)
            } else if s3.labels.contains_key(name) {
                ran_step(with_index(s3, s3.labels[name]))
            } else {
                fault_step(s3, VmError::LabelNotFound { op })
            }
        }
    }
}

/// One call, the counter already past the opcode byte: records the return
/// offset and transfers to the label.
pub open spec fn step_call(s: AbsVm, resolve: bool) -> AbsStep {
    let op = OP_CALL;
    if !name_arg_ok(s) {
        fault_step(with_index(s, name_fault_index(s)), VmError::IncompleteInstruction { op })
    } else {
        let name = name_arg(s);
        let s2 = with_index(s, name_arg_end(s));
        if resolve {
            ran_step(s2)
        } else if s2.labels.contains_key(name) {
            ran_step(AbsVm { index: s2.labels[name], calls: s2.calls.push(s2.index), ..s2 })
        } else {
            fault_step(s2, VmError::LabelNotFound { op })
        }
    }
}

/// One return: pops the call stack and transfers to the recorded offset.
pub open spec fn step_return(s: AbsVm, resolve: bool) -> AbsStep {
    if resolve {
        ran_step(s)
    } else if s.calls.len() == 0 {
        fault_step(s, VmError::CallStackUnderflow)
    } else {
        ran_step(AbsVm { index: s.calls.last(), calls: s.calls.drop_last(), ..s })
    }
}

/// One display instruction: pops a value and hands its text to the caller; a
/// float is handed as bits for the caller to format.
pub open spec fn step_display(s: AbsVm, stderr: bool, resolve: bool) -> AbsStep {
    let op = if stderr {
        OP_DISPLAY_STDERR
    } else {
        OP_DISPLAY_STDOUT
    };
    if resolve {
        ran_step(s)
    } else if s.stack.len() == 0 {
        fault_step(s, VmError::StackUnderflow { op })
    } else {
        let top = s.stack.last();
        let s1 = drop_top(s, 1);
        if top is Float {
            event_step(s1, AbsEvent::FloatOutput { stderr, bits: float_bits(top) })
        } else {
            event_step(s1, AbsEvent::Output { stderr, text: render_value(top) })
        }
    }
}

/// One exit instruction: pops an integer and hands it to the caller as the
/// process status.
pub open spec fn step_exit(s: AbsVm, resolve: bool) -> AbsStep {
    let op = OP_EXIT;
    if resolve {
        ran_step(s)
    } else if s.stack.len() == 0 {
        fault_step(s, VmError::StackUnderflow { op })
    } else if !(s.stack.last() is Integer) {
        fault_step(drop_top(s, 1), VmError::TypeIncompatible { op })
    } else {
        event_step(drop_top(s, 1), AbsEvent::Exit { code: int_value(s.stack.last()) })
    }
}

/// One step of the machine: at the end of the buffer the pass is done;
/// otherwise the opcode at the counter is decoded and executed.  During the
/// resolution pass every operand is still decoded and validated, but only
/// label declarations take effect.
pub open spec fn step_model(s: AbsVm, resolve: bool) -> AbsStep {
    if s.index >= s.bytecode.len() {
        AbsStep { state: s, event: AbsEvent::Done }
    } else {
        let op = s.bytecode[s.index];
        let s1 = with_index(s, s.index + 1);
        if op == OP_DEBUG {
            if resolve {
                ran_step(s1)
            } else {
                event_step(s1, AbsEvent::DebugDump)
            }
        } else if op == OP_PUSH {
            step_push(s1, resolve)
        } else if op == OP_LOAD {
            step_load(s1, resolve)
        } else if op == OP_STORE {
            step_store(s1, resolve)
        } else if op == OP_DUP {
            step_dup(s1, resolve)
        } else if op == OP_SWAP {
            step_swap(s1, resolve)
        } else if op == OP_POP {
            step_pop(s1, resolve)
        } else if op == OP_ADD || op == OP_SUB || op == OP_MUL || op == OP_DIV || op == OP_MOD {
            step_arith(s1, op, resolve)
        } else if op == OP_STR_GET_SLICE {
            step_str_slice(s1, resolve)
        } else if op == OP_STR_LENGTH {
            step_str_length(s1, resolve)
        } else if op == OP_CMP {
            step_cmp(s1, resolve)
        } else if op == OP_LABEL {
            step_label(s1, resolve)
        } else if op == OP_JUMP {
            step_jump(s1, resolve)
        } else if op == OP_JUMP_IF_TRUE {
            step_jump_if(s1, true, resolve)
        } else if op == OP_JUMP_IF_FALSE {
            step_jump_if(s1, false, resolve)
        } else if op == OP_CALL {
            step_call(s1, resolve)
        } else if op == OP_RETURN {
            step_return(s1, resolve)
        } else if op == OP_DISPLAY_STDOUT {
            step_display(s1, false, resolve)
        } else if op == OP_DISPLAY_STDERR {
            step_display(s1, true, resolve)
        } else if op == OP_INPUT {
            if resolve {
                ran_step(s1)
            } else {
                event_step(s1, AbsEvent::Input)
            }
        } else if op == OP_EXIT {
            step_exit(s1, resolve)
        } else {
            fault_step(s1, VmError::UnknownOpcode { op })
        }
    }
}

// --- Bridging the executable state to the model -----------------------------
/// All fields but the counter agree.
pub open spec fn same_but_index(a: AbsVm, b: AbsVm) -> bool {
    &&& a.bytecode == b.bytecode
    &&& a.memory == b.memory
    &&& a.stack == b.stack
    &&& a.labels == b.labels
    &&& a.calls == b.calls
}

proof fn lemma_stack_push(s: Seq<Value>, v: Value)
    ensures
        stack_view(s.push(v)) == stack_view(s).push(v@),
{
    assert(stack_view(s.push(v)) =~= stack_view(s).push(v@));
}

proof fn lemma_stack_take(s: Seq<Value>, n: int)
    requires
        0 <= n <= s.len(),
    ensures
        stack_view(s.subrange(0, n)) == stack_view(s).take(n),
        stack_view(s).take(n) == stack_view(s).subrange(0, n),
{
    assert(stack_view(s.subrange(0, n)) =~= stack_view(s).take(n));
}

proof fn lemma_calls_push(s: Seq<usize>, c: usize)
    ensures
        calls_view(s.push(c)) == calls_view(s).push(c as int),
{
    assert(calls_view(s.push(c)) =~= calls_view(s).push(c as int));
}

proof fn lemma_calls_drop(s: Seq<usize>)
    requires
        s.len() > 0,
    ensures
        calls_view(s.subrange(0, s.len() - 1)) == calls_view(s).drop_last(),
        s.last() as int == calls_view(s).last(),
{
    assert(calls_view(s.subrange(0, s.len() - 1)) =~= calls_view(s).drop_last());
}

proof fn lemma_mem_push(entries: Seq<(Vec<u8>, Value)>, e: (Vec<u8>, Value))
    ensures
        mem_view(entries.push(e)) == mem_view(entries).insert(e.0@, e.1@),
{
    assert(entries.push(e).drop_last() =~= entries);
    assert(entries.push(e).last() == e);
}

proof fn lemma_label_push(entries: Seq<(Vec<u8>, usize)>, e: (Vec<u8>, usize))
    ensures
        label_view(entries.push(e)) == label_view(entries).insert(e.0@, e.1 as int),
{
    assert(entries.push(e).drop_last() =~= entries);
    assert(entries.push(e).last() == e);
}

impl VM {
    /// Reads one byte at the counter, advancing past it.
    fn take_byte(&mut self) -> (r: Option<u8>)
        ensures
            same_but_index(final(self)@, old(self)@),
            match r {
                Some(b) => old(self)@.index < old(self)@.bytecode.len() && b == old(self)@.bytecode[old(self)@.index] && final(self)@.index == old(self)@.index + 1,
                None => old(self)@.index >= old(self)@.bytecode.len() && final(self)@.index == old(self)@.index,
            },
    {
        if self.index < self.bytecode.len() {
            let b = self.bytecode[self.index];
            self.index = self.index + 1;
            Some(b)
        } else {
            None
        }
    }

    /// Reads `n` bytes at the counter, advancing past them; the counter does
    /// not move when the buffer is short.
    fn take_bytes(&mut self, n: usize) -> (r: Option<Vec<u8>>)
        requires
            old(self)@.index <= old(self)@.bytecode.len(),
        ensures
            same_but_index(final(self)@, old(self)@),
            match r {
                Some(bytes) => old(self)@.index + n <= old(self)@.bytecode.len() && bytes@ == old(self)@.bytecode.subrange(old(self)@.index, old(self)@.index + n) && final(self)@.index
                    == old(self)@.index + n,
                None => old(self)@.index + n > old(self)@.bytecode.len() && final(self)@.index
                    == old(self)@.index,
            },
    {
        if n <= self.bytecode.len() - self.index {
            let bytes = copy_range(&self.bytecode, self.index, self.index + n);
            self.index = self.index + n;
            Some(bytes)
        } else {
            None
        }
    }

    /// Reads a 1-byte length prefix and that many bytes of payload.
    fn take_name(&mut self) -> (r: Option<Vec<u8>>)
        requires
            old(self)@.index <= old(self)@.bytecode.len(),
        ensures
            same_but_index(final(self)@, old(self)@),
            match r {
                Some(name) => name_arg_ok(old(self)@) && name@ == name_arg(old(self)@) && final(self)@.index == name_arg_end(old(self)@),
                None => !name_arg_ok(old(self)@) && final(self)@.index == name_fault_index(
                    old(self)@,
                ),
            },
    {
        let len_byte = match self.take_byte() {
            Some(b) => b,
            None => {
                return None;
            },
        };
        match self.take_bytes(len_byte as usize) {
            Some(name) => Some(name),
            None => None,
        }
    }

    /// One push instruction; the counter is already past the opcode byte.
    fn op_push(&mut self, resolve: bool) -> (ev: VmEvent)
        requires
            abs_wf(old(self)@),
        ensures
            abs_wf(final(self)@),
            final(self)@ == step_push(old(self)@, resolve).state,
            ev@ == step_push(old(self)@, resolve).event,
    {
        let tag = match self.take_byte() {
            Some(b) => b,
            None => {
                return VmEvent::Fault { error: VmError::IncompleteInstruction { op: OP_PUSH } };
            },
        };
        if tag == PUSH_TYPE_INTEGER {
            let bytes = match self.take_bytes(8) {
                Some(b) => b,
                None => {
                    return VmEvent::Fault {
                        error: VmError::IncompleteInstruction { op: OP_PUSH },
                    };
                },
            };
            if resolve {
                return VmEvent::Ran;
            }
            let word = le_value(&bytes);
            let v = u64_as_i64(word);
            proof {
                lemma_le_bytes_val_bound(bytes@);
                lemma2_to64();
                lemma_stack_push(self.stack@, Value::Integer { value: v });
            }
            self.stack.push(Value::Integer { value: v });
            VmEvent::Ran
        } else if tag == PUSH_TYPE_FLOAT {
            let bytes = match self.take_bytes(8) {
                Some(b) => b,
                None => {
                    return VmEvent::Fault {
                        error: VmError::IncompleteInstruction { op: OP_PUSH },
                    };
                },
            };
            if resolve {
                return VmEvent::Ran;
            }
            let bits = le_value(&bytes);
            proof {
                lemma_le_bytes_val_bound(bytes@);
                lemma2_to64();
                lemma_stack_push(self.stack@, Value::Float { bits });
            }
            self.stack.push(Value::Float { bits });
            VmEvent::Ran
        } else if tag == PUSH_TYPE_STRING {
            let len_bytes = match self.take_bytes(4) {
                Some(b) => b,
                None => {
                    return VmEvent::Fault {
                        error: VmError::IncompleteInstruction { op: OP_PUSH },
                    };
                },
            };
            let str_len64 = le_value(&len_bytes);
            proof {
                lemma_le_bytes_val_bound(len_bytes@);
                lemma2_to64();
            }
            let remaining = (self.bytecode.len() - self.index) as u64;
            if str_len64 > remaining {
                return VmEvent::Fault { error: VmError::IncompleteInstruction { op: OP_PUSH } };
            }
            let bytes = match self.take_bytes(str_len64 as usize) {
                Some(b) => b,
                None => {
                    return VmEvent::Fault {
                        error: VmError::IncompleteInstruction { op: OP_PUSH },
                    };
                },
            };
            if resolve {
                return VmEvent::Ran;
            }
            proof {
                lemma_stack_push(self.stack@, Value::Str { bytes });
            }
            self.stack.push(Value::Str { bytes });
            VmEvent::Ran
        } else if tag == PUSH_TYPE_BOOLEAN {
            let byte = match self.take_byte() {
                Some(b) => b,
                None => {
                    return VmEvent::Fault {
                        error: VmError::IncompleteInstruction { op: OP_PUSH },
                    };
                },
            };
            if resolve {
                return VmEvent::Ran;
            }
            if byte == 0 {
                proof {
                    lemma_stack_push(self.stack@, Value::Boolean { value: false });
                }
                self.stack.push(Value::Boolean { value: false });
                VmEvent::Ran
            } else if byte == 1 {
                proof {
                    lemma_stack_push(self.stack@, Value::Boolean { value: true });
                }
                self.stack.push(Value::Boolean { value: true });
                VmEvent::Ran
            } else {
                VmEvent::Fault { error: VmError::InvalidBooleanLiteral { byte } }
            }
        } else if tag == PUSH_TYPE_INTEGER_POWER {
            let exponent = match self.take_byte() {
                Some(b) => b,
                None => {
                    return VmEvent::Fault {
                        error: VmError::IncompleteInstruction { op: OP_PUSH },
                    };
                },
            };
            if resolve {
                return VmEvent::Ran;
            }
            let v = pow2_wrapped(exponent);
            proof {
                lemma_stack_push(self.stack@, Value::Integer { value: v });
            }
            self.stack.push(Value::Integer { value: v });
            VmEvent::Ran
        } else if tag == PUSH_TYPE_INTEGER_POWER_SUB {
            let exponent = match self.take_byte() {
                Some(b) => b,
                None => {
                    return VmEvent::Fault {
                        error: VmError::IncompleteInstruction { op: OP_PUSH },
                    };
                },
            };
            if resolve {
                return VmEvent::Ran;
            }
            let v = pow2_sub1_wrapped(exponent);
            proof {
                lemma_stack_push(self.stack@, Value::Integer { value: v });
            }
            self.stack.push(Value::Integer { value: v });
            VmEvent::Ran
        } else {
            VmEvent::Fault { error: VmError::UnknownPushType { tag } }
        }
    }
}

/// The swap arm of the transition model, shared by the dispatcher and the
/// swap handler.
pub open spec fn step_swap(s: AbsVm, resolve: bool) -> AbsStep {
    if resolve {
        ran_step(s)
    } else if s.stack.len() < 2 {
        fault_step(s, VmError::StackUnderflow { op: OP_SWAP })
    } else {
        let l = s.stack.len();
        ran_step(
            AbsVm {
                stack: s.stack.update(l - 2, s.stack[l - 1]).update(l - 1, s.stack[l - 2]),
                ..s
            },
        )
    }
}

/// The duplicate arm of the transition model.
pub open spec fn step_dup(s: AbsVm, resolve: bool) -> AbsStep {
    if resolve {
        ran_step(s)
    } else if s.stack.len() == 0 {
        fault_step(s, VmError::StackUnderflow { op: OP_DUP })
    } else {
        ran_step(push_value(s, s.stack.last()))
    }
}

/// The pop arm of the transition model.
pub open spec fn step_pop(s: AbsVm, resolve: bool) -> AbsStep {
    if resolve {
        ran_step(s)
    } else if s.stack.len() == 0 {
        fault_step(s, VmError::StackUnderflow { op: OP_POP })
    } else {
        ran_step(drop_top(s, 1))
    }
}

impl VM {
    /// One load instruction; the counter is already past the opcode byte.
    fn op_load(&mut self, resolve: bool) -> (ev: VmEvent)
        requires
            abs_wf(old(self)@),
        ensures
            abs_wf(final(self)@),
            final(self)@ == step_load(old(self)@, resolve).state,
            ev@ == step_load(old(self)@, resolve).event,
    {
        let key = match self.take_name() {
            Some(n) => n,
            None => {
                return VmEvent::Fault { error: VmError::IncompleteInstruction { op: OP_LOAD } };
            },
        };
        if resolve {
            return VmEvent::Ran;
        }
        match mem_get(&self.memory, &key) {
            Some(v) => {
                proof {
                    lemma_stack_push(self.stack@, v);
                }
                self.stack.push(v);
                VmEvent::Ran
            },
            None => VmEvent::Fault { error: VmError::KeyNotFound },
        }
    }

    /// One store instruction; the counter is already past the opcode byte.
    fn op_store(&mut self, resolve: bool) -> (ev: VmEvent)
        requires
            abs_wf(old(self)@),
        ensures
            abs_wf(final(self)@),
            final(self)@ == step_store(old(self)@, resolve).state,
            ev@ == step_store(old(self)@, resolve).event,
    {
        let key = match self.take_name() {
            Some(n) => n,
            None => {
                return VmEvent::Fault { error: VmError::IncompleteInstruction { op: OP_STORE } };
            },
        };
        if resolve {
            return VmEvent::Ran;
        }
        proof {
            if self.stack@.len() > 0 {
                lemma_stack_take(self.stack@, self.stack@.len() - 1);
            }
        }
        let value = match self.stack.pop() {
            Some(v) => v,
            None => {
                return VmEvent::Fault { error: VmError::StackUnderflow { op: OP_STORE } };
            },
        };
        proof {
            lemma_mem_push(self.memory@, (key, value));
        }
        self.memory.push((key, value));
        VmEvent::Ran
    }

    /// One duplicate instruction: pushes a copy of the top of the stack.
    fn op_dup(&mut self, resolve: bool) -> (ev: VmEvent)
        requires
            abs_wf(old(self)@),
        ensures
            abs_wf(final(self)@),
            final(self)@ == step_dup(old(self)@, resolve).state,
            ev@ == step_dup(old(self)@, resolve).event,
    {
        if resolve {
            return VmEvent::Ran;
        }
        if self.stack.len() == 0 {
            return VmEvent::Fault { error: VmError::StackUnderflow { op: OP_DUP } };
        }
        let top = self.stack[self.stack.len() - 1].duplicate();
        proof {
            lemma_stack_push(self.stack@, top);
        }
        self.stack.push(top);
        VmEvent::Ran
    }

    /// One swap instruction: exchanges the top two operands.
    fn op_swap(&mut self, resolve: bool) -> (ev: VmEvent)
        requires
            abs_wf(old(self)@),
        ensures
            abs_wf(final(self)@),
            final(self)@ == step_swap(old(self)@, resolve).state,
            ev@ == step_swap(old(self)@, resolve).event,
    {
        if resolve {
            return VmEvent::Ran;
        }
        if self.stack.len() < 2 {
            return VmEvent::Fault { error: VmError::StackUnderflow { op: OP_SWAP } };
        }
        let ghost s0 = self.stack@;
        let b = match self.stack.pop() {
            Some(v) => v,
            None => {
                return VmEvent::Fault { error: VmError::StackUnderflow { op: OP_SWAP } };
            },
        };
        let a = match self.stack.pop() {
            Some(v) => v,
            None => {
                return VmEvent::Fault { error: VmError::StackUnderflow { op: OP_SWAP } };
            },
        };
        self.stack.push(b);
        self.stack.push(a);
        proof {
            let l = s0.len();
            assert(self.stack@ =~= s0.subrange(0, l - 2).push(s0[l - 1]).push(s0[l - 2]));
            assert(stack_view(self.stack@) =~= stack_view(s0).update(
                l - 2,
                stack_view(s0)[l - 1],
            ).update(l - 1, stack_view(s0)[l - 2]));
        }
        VmEvent::Ran
    }

    /// One pop instruction: discards the top of the stack.
    fn op_pop(&mut self, resolve: bool) -> (ev: VmEvent)
        requires
            abs_wf(old(self)@),
        ensures
            abs_wf(final(self)@),
            final(self)@ == step_pop(old(self)@, resolve).state,
            ev@ == step_pop(old(self)@, resolve).event,
    {
        if resolve {
            return VmEvent::Ran;
        }
        proof {
            if self.stack@.len() > 0 {
                lemma_stack_take(self.stack@, self.stack@.len() - 1);
            }
        }
        match self.stack.pop() {
            Some(_) => VmEvent::Ran,
            None => VmEvent::Fault { error: VmError::StackUnderflow { op: OP_POP } },
        }
    }

    /// One arithmetic instruction; the counter is already past the opcode
    /// byte.
    fn op_arith(&mut self, op: u8, resolve: bool) -> (ev: VmEvent)
        requires
            abs_wf(old(self)@),
            op == OP_ADD || op == OP_SUB || op == OP_MUL || op == OP_DIV || op == OP_MOD,
        ensures
            abs_wf(final(self)@),
            final(self)@ == step_arith(old(self)@, op, resolve).state,
            ev@ == step_arith(old(self)@, op, resolve).event,
    {
        if resolve {
            return VmEvent::Ran;
        }
        let ghost s0 = self.stack@;
        proof {
            if s0.len() > 0 {
                lemma_stack_take(s0, s0.len() - 1);
            }
        }
        let rhs = match self.stack.pop() {
            Some(v) => v,
            None => {
                return VmEvent::Fault { error: VmError::StackUnderflow { op } };
            },
        };
        let lhs = match self.stack.pop() {
            Some(v) => v,
            None => {
                return VmEvent::Fault { error: VmError::StackUnderflow { op } };
            },
        };
        proof {
            assert(self.stack@ =~= s0.subrange(0, s0.len() - 2));
            lemma_stack_take(s0, s0.len() - 2);
            assert(rhs@ == stack_view(s0).last());
            assert(lhs@ == stack_view(s0)[s0.len() - 2]);
        }
        let lf = match &lhs {
            Value::Float { bits } => Some(*bits),
            _ => None,
        };
        let rf = match &rhs {
            Value::Float { bits } => Some(*bits),
            _ => None,
        };
        if lf.is_some() && rf.is_some() && op != OP_MOD {
            let a = lf.unwrap();
            let b = rf.unwrap();
            if op == OP_DIV && f64_bits_is_zero(b) {
                return VmEvent::Fault { error: VmError::DivisionByZero { op } };
            }
            return VmEvent::FloatBin { op, lhs: a, rhs: b };
        }
        let int_zero_rhs = match (&lhs, &rhs) {
            (Value::Integer { value: _ }, Value::Integer { value: r }) => *r == 0,
            _ => false,
        };
        if (op == OP_DIV || op == OP_MOD) && int_zero_rhs {
            return VmEvent::Fault { error: VmError::DivisionByZero { op } };
        }
        let result = if op == OP_ADD {
            lhs.add(&rhs)
        } else if op == OP_SUB {
            lhs.sub(&rhs)
        } else if op == OP_MUL {
            lhs.mul(&rhs)
        } else if op == OP_DIV {
            lhs.div(&rhs)
        } else {
            lhs.modulo(&rhs)
        };
        match result {
            Some(v) => {
                proof {
                    lemma_stack_push(self.stack@, v);
                }
                self.stack.push(v);
                VmEvent::Ran
            },
            None => VmEvent::Fault { error: VmError::TypeIncompatible { op } },
        }
    }
}

impl VM {
    /// One string-slice instruction; the counter is already past the opcode
    /// byte.
    fn op_str_slice(&mut self, resolve: bool) -> (ev: VmEvent)
        requires
            abs_wf(old(self)@),
        ensures
            abs_wf(final(self)@),
            final(self)@ == step_str_slice(old(self)@, resolve).state,
            ev@ == step_str_slice(old(self)@, resolve).event,
    {
        if resolve {
            return VmEvent::Ran;
        }
        let ghost s0 = self.stack@;
        proof {
            if s0.len() > 0 {
                lemma_stack_take(s0, s0.len() - 1);
            }
        }
        let end_v = match self.stack.pop() {
            Some(v) => v,
            None => {
                return VmEvent::Fault { error: VmError::StackUnderflow { op: OP_STR_GET_SLICE } };
            },
        };
        proof {
            assert(end_v@ == stack_view(s0)[s0.len() - 1]);
        }
        let end_i = match end_v {
            Value::Integer { value } => value,
            _ => {
                return VmEvent::Fault {
                    error: VmError::TypeIncompatible { op: OP_STR_GET_SLICE },
                };
            },
        };
        let start_v = match self.stack.pop() {
            Some(v) => v,
            None => {
                return VmEvent::Fault { error: VmError::StackUnderflow { op: OP_STR_GET_SLICE } };
            },
        };
        proof {
            assert(self.stack@ =~= s0.subrange(0, s0.len() - 2));
            lemma_stack_take(s0, s0.len() - 2);
            assert(start_v@ == stack_view(s0)[s0.len() - 2]);
        }
        let start_i = match start_v {
            Value::Integer { value } => value,
            _ => {
                return VmEvent::Fault {
                    error: VmError::TypeIncompatible { op: OP_STR_GET_SLICE },
                };
            },
        };
        let val = match self.stack.pop() {
            Some(v) => v,
            None => {
                return VmEvent::Fault { error: VmError::StackUnderflow { op: OP_STR_GET_SLICE } };
            },
        };
        proof {
            assert(self.stack@ =~= s0.subrange(0, s0.len() - 3));
            lemma_stack_take(s0, s0.len() - 3);
            assert(val@ == stack_view(s0)[s0.len() - 3]);
        }
        let bytes = match val {
            Value::Str { bytes } => bytes,
            _ => {
                return VmEvent::Fault {
                    error: VmError::TypeIncompatible { op: OP_STR_GET_SLICE },
                };
            },
        };
        let n64 = bytes.len() as u64;
        if start_i < 0 || end_i < 0 {
            return VmEvent::Fault { error: VmError::InvalidSliceBounds };
        }
        let su = start_i as u64;
        let eu = end_i as u64;
        if su >= n64 || eu > n64 || su >= eu {
            return VmEvent::Fault { error: VmError::InvalidSliceBounds };
        }
        let slice = copy_range(&bytes, su as usize, eu as usize);
        proof {
            lemma_stack_push(self.stack@, Value::Str { bytes: slice });
        }
        self.stack.push(Value::Str { bytes: slice });
        VmEvent::Ran
    }

    /// One string-length instruction; the counter is already past the opcode
    /// byte.
    fn op_str_length(&mut self, resolve: bool) -> (ev: VmEvent)
        requires
            abs_wf(old(self)@),
        ensures
            abs_wf(final(self)@),
            final(self)@ == step_str_length(old(self)@, resolve).state,
            ev@ == step_str_length(old(self)@, resolve).event,
    {
        if resolve {
            return VmEvent::Ran;
        }
        proof {
            if self.stack@.len() > 0 {
                lemma_stack_take(self.stack@, self.stack@.len() - 1);
            }
        }
        let val = match self.stack.pop() {
            Some(v) => v,
            None => {
                return VmEvent::Fault { error: VmError::StackUnderflow { op: OP_STR_LENGTH } };
            },
        };
        let bytes = match val {
            Value::Str { bytes } => bytes,
            _ => {
                return VmEvent::Fault { error: VmError::TypeIncompatible { op: OP_STR_LENGTH } };
            },
        };
        let n = bytes.len() as u64;
        let v = u64_as_i64(n);
        proof {
            lemma_stack_push(self.stack@, Value::Integer { value: v });
        }
        self.stack.push(Value::Integer { value: v });
        VmEvent::Ran
    }

    /// One comparison instruction; the counter is already past the opcode
    /// byte.
    fn op_cmp(&mut self, resolve: bool) -> (ev: VmEvent)
        requires
            abs_wf(old(self)@),
        ensures
            abs_wf(final(self)@),
            final(self)@ == step_cmp(old(self)@, resolve).state,
            ev@ == step_cmp(old(self)@, resolve).event,
    {
        let cmp_type = match self.take_byte() {
            Some(b) => b,
            None => {
                return VmEvent::Fault { error: VmError::IncompleteInstruction { op: OP_CMP } };
            },
        };
        if resolve {
            return VmEvent::Ran;
        }
        let ghost s0 = self.stack@;
        proof {
            if s0.len() > 0 {
                lemma_stack_take(s0, s0.len() - 1);
            }
        }
        let rhs = match self.stack.pop() {
            Some(v) => v,
            None => {
                return VmEvent::Fault { error: VmError::StackUnderflow { op: OP_CMP } };
            },
        };
        let lhs = match self.stack.pop() {
            Some(v) => v,
            None => {
                return VmEvent::Fault { error: VmError::StackUnderflow { op: OP_CMP } };
            },
        };
        proof {
            assert(self.stack@ =~= s0.subrange(0, s0.len() - 2));
            lemma_stack_take(s0, s0.len() - 2);
            assert(rhs@ == stack_view(s0).last());
            assert(lhs@ == stack_view(s0)[s0.len() - 2]);
        }
        match lhs.compare(&rhs, cmp_type) {
            Some(b) => {
                proof {
                    lemma_stack_push(self.stack@, Value::Boolean { value: b });
                }
                self.stack.push(Value::Boolean { value: b });
                VmEvent::Ran
            },
            None => VmEvent::Fault { error: VmError::TypeIncompatible { op: OP_CMP } },
        }
    }

    /// One label declaration; the counter is already past the opcode byte.
    fn op_label(&mut self, resolve: bool) -> (ev: VmEvent)
        requires
            abs_wf(old(self)@),
        ensures
            abs_wf(final(self)@),
            final(self)@ == step_label(old(self)@, resolve).state,
            ev@ == step_label(old(self)@, resolve).event,
    {
        let name = match self.take_name() {
            Some(n) => n,
            None => {
                return VmEvent::Fault { error: VmError::IncompleteInstruction { op: OP_LABEL } };
            },
        };
        let idx = self.index;
        let ghost key = name@;
        proof {
            lemma_label_push(self.labels@, (name, idx));
        }
        self.labels.push((name, idx));
        proof {
            assert forall|k: Seq<u8>| self@.labels.contains_key(k) implies 0 <= #[trigger] self@.labels[k]
                <= self@.bytecode.len() by {
                if k != key {
                    assert(old(self)@.labels.contains_key(k));
                }
            }
        }
        VmEvent::Ran
    }

    /// One unconditional jump; the counter is already past the opcode byte.
    fn op_jump(&mut self, resolve: bool) -> (ev: VmEvent)
        requires
            abs_wf(old(self)@),
        ensures
            abs_wf(final(self)@),
            final(self)@ == step_jump(old(self)@, resolve).state,
            ev@ == step_jump(old(self)@, resolve).event,
    {
        let name = match self.take_name() {
            Some(n) => n,
            None => {
                return VmEvent::Fault { error: VmError::IncompleteInstruction { op: OP_JUMP } };
            },
        };
        if resolve {
            return VmEvent::Ran;
        }
        match label_get(&self.labels, &name) {
            Some(target) => {
                self.index = target;
                VmEvent::Ran
            },
            None => VmEvent::Fault { error: VmError::LabelNotFound { op: OP_JUMP } },
        }
    }

    /// One conditional jump; the counter is already past the opcode byte.
    fn op_jump_if(&mut self, want: bool, resolve: bool) -> (ev: VmEvent)
        requires
            abs_wf(old(self)@),
        ensures
            abs_wf(final(self)@),
            final(self)@ == step_jump_if(old(self)@, want, resolve).state,
            ev@ == step_jump_if(old(self)@, want, resolve).event,
    {
        let op = if want {
            OP_JUMP_IF_TRUE
        } else {
            OP_JUMP_IF_FALSE
        };
        let name = match self.take_name() {
            Some(n) => n,
            None => {
                return VmEvent::Fault { error: VmError::IncompleteInstruction { op } };
            },
        };
        if resolve {
            return VmEvent::Ran;
        }
        proof {
            if self.stack@.len() > 0 {
                lemma_stack_take(self.stack@, self.stack@.len() - 1);
            }
        }
        let cond_v = match self.stack.pop() {
            Some(v) => v,
            None => {
                return VmEvent::Fault { error: VmError::StackUnderflow { op } };
            },
        };
        let cond = match cond_v {
            Value::Boolean { value } => value,
            _ => {
                return VmEvent::Fault { error: VmError::TypeIncompatible { op } };
            },
        };
        if cond != want {
            return VmEvent::Ran;
        }
        match label_get(&self.labels, &name) {
            Some(target) => {
                self.index = target;
                VmEvent::Ran
            },
            None => VmEvent::Fault { error: VmError::LabelNotFound { op } },
        }
    }

    /// One call; the counter is already past the opcode byte.
    fn op_call(&mut self, resolve: bool) -> (ev: VmEvent)
        requires
            abs_wf(old(self)@),
        ensures
            abs_wf(final(self)@),
            final(self)@ == step_call(old(self)@, resolve).state,
            ev@ == step_call(old(self)@, resolve).event,
    {
        let name = match self.take_name() {
            Some(n) => n,
            None => {
                return VmEvent::Fault { error: VmError::IncompleteInstruction { op: OP_CALL } };
            },
        };
        if resolve {
            return VmEvent::Ran;
        }
        match label_get(&self.labels, &name) {
            Some(target) => {
                let ret = self.index;
                proof {
                    lemma_calls_push(self.calls@, ret);
                }
                self.calls.push(ret);
                self.index = target;
                proof {
                    assert forall|i: int| 0 <= i < self@.calls.len() implies 0 <= #[trigger] self@.calls[i]
                        <= self@.bytecode.len() by {
                        if i < self@.calls.len() - 1 {
                            assert(self@.calls[i] == old(self)@.calls[i]);
                        }
                    }
                }
                VmEvent::Ran
            },
            None => VmEvent::Fault { error: VmError::LabelNotFound { op: OP_CALL } },
        }
    }

    /// One return instruction.
    fn op_return(&mut self, resolve: bool) -> (ev: VmEvent)
        requires
            abs_wf(old(self)@),
        ensures
            abs_wf(final(self)@),
            final(self)@ == step_return(old(self)@, resolve).state,
            ev@ == step_return(old(self)@, resolve).event,
    {
        if resolve {
            return VmEvent::Ran;
        }
        proof {
            if self.calls@.len() > 0 {
                lemma_calls_drop(self.calls@);
                assert(calls_view(self.calls@)[self.calls@.len() - 1] <= self@.bytecode.len());
            }
        }
        let addr = match self.calls.pop() {
            Some(a) => a,
            None => {
                return VmEvent::Fault { error: VmError::CallStackUnderflow };
            },
        };
        self.index = addr;
        proof {
            assert forall|i: int| 0 <= i < self@.calls.len() implies 0 <= #[trigger] self@.calls[i]
                <= self@.bytecode.len() by {
                assert(self@.calls[i] == old(self)@.calls[i]);
            }
        }
        VmEvent::Ran
    }

    /// One display instruction; hands the rendered value, or the float bits,
    /// to the caller.
    fn op_display(&mut self, stderr: bool, resolve: bool) -> (ev: VmEvent)
        requires
            abs_wf(old(self)@),
        ensures
            abs_wf(final(self)@),
            final(self)@ == step_display(old(self)@, stderr, resolve).state,
            ev@ == step_display(old(self)@, stderr, resolve).event,
    {
        let op = if stderr {
            OP_DISPLAY_STDERR
        } else {
            OP_DISPLAY_STDOUT
        };
        if resolve {
            return VmEvent::Ran;
        }
        proof {
            if self.stack@.len() > 0 {
                lemma_stack_take(self.stack@, self.stack@.len() - 1);
            }
        }
        let v = match self.stack.pop() {
            Some(v) => v,
            None => {
                return VmEvent::Fault { error: VmError::StackUnderflow { op } };
            },
        };
        match v {
            Value::Float { bits } => VmEvent::FloatOutput { stderr, bits },
            other => {
                let text = match other.render() {
                    Some(t) => t,
                    None => Vec::new(),
                };
                VmEvent::Output { stderr, text }
            },
        }
    }

    /// One exit instruction: hands the caller the status to end the process
    /// with.
    fn op_exit(&mut self, resolve: bool) -> (ev: VmEvent)
        requires
            abs_wf(old(self)@),
        ensures
            abs_wf(final(self)@),
            final(self)@ == step_exit(old(self)@, resolve).state,
            ev@ == step_exit(old(self)@, resolve).event,
    {
        if resolve {
            return VmEvent::Ran;
        }
        proof {
            if self.stack@.len() > 0 {
                lemma_stack_take(self.stack@, self.stack@.len() - 1);
            }
        }
        let v = match self.stack.pop() {
            Some(v) => v,
            None => {
                return VmEvent::Fault { error: VmError::StackUnderflow { op: OP_EXIT } };
            },
        };
        match v {
            Value::Integer { value } => VmEvent::Exit { code: value },
            _ => VmEvent::Fault { error: VmError::TypeIncompatible { op: OP_EXIT } },
        }
    }

    /// Decodes and executes exactly one instruction, returning what happened.
    /// The machine's new state and the event are exactly what the transition
    /// model says.
    pub fn step(&mut self, resolve: bool) -> (ev: VmEvent)
        requires
            old(self).wf(),
        ensures
            final(self).wf(),
            final(self)@ == step_model(old(self)@, resolve).state,
            ev@ == step_model(old(self)@, resolve).event,
    {
        let op = match self.take_byte() {
            Some(b) => b,
            None => {
                return VmEvent::Done;
            },
        };
        if op == OP_DEBUG {
            if resolve {
                VmEvent::Ran
            } else {
                VmEvent::DebugDump
            }
        } else if op == OP_PUSH {
            self.op_push(resolve)
        } else if op == OP_LOAD {
            self.op_load(resolve)
        } else if op == OP_STORE {
            self.op_store(resolve)
        } else if op == OP_DUP {
            self.op_dup(resolve)
        } else if op == OP_SWAP {
            self.op_swap(resolve)
        } else if op == OP_POP {
            self.op_pop(resolve)
        } else if op == OP_ADD || op == OP_SUB || op == OP_MUL || op == OP_DIV || op == OP_MOD {
            self.op_arith(op, resolve)
        } else if op == OP_STR_GET_SLICE {
            self.op_str_slice(resolve)
        } else if op == OP_STR_LENGTH {
            self.op_str_length(resolve)
        } else if op == OP_CMP {
            self.op_cmp(resolve)
        } else if op == OP_LABEL {
            self.op_label(resolve)
        } else if op == OP_JUMP {
            self.op_jump(resolve)
        } else if op == OP_JUMP_IF_TRUE {
            self.op_jump_if(true, resolve)
        } else if op == OP_JUMP_IF_FALSE {
            self.op_jump_if(false, resolve)
        } else if op == OP_CALL {
            self.op_call(resolve)
        } else if op == OP_RETURN {
            self.op_return(resolve)
        } else if op == OP_DISPLAY_STDOUT {
            self.op_display(false, resolve)
        } else if op == OP_DISPLAY_STDERR {
            self.op_display(true, resolve)
        } else if op == OP_INPUT {
            if resolve {
                VmEvent::Ran
            } else {
                VmEvent::Input
            }
        } else if op == OP_EXIT {
            self.op_exit(resolve)
        } else {
            VmEvent::Fault { error: VmError::UnknownOpcode { op } }
        }
    }
}

// --- Whole-pass execution ---------------------------------------------------
/// `n` iterations of the transition model from `s`.  An iteration whose
/// event is not `Ran` is absorbing: the pass has halted or waits for the
/// caller, and further iterations change nothing.
pub open spec fn run_steps(s: AbsVm, resolve: bool, n: nat) -> AbsStep
    decreases n,
{
    if n == 0 {
        AbsStep { state: s, event: AbsEvent::Ran }
    } else {
        let prev = run_steps(s, resolve, (n - 1) as nat);
        if prev.event is Ran {
            step_model(prev.state, resolve)
        } else {
            prev
        }
    }
}

/// Once an iteration's event is not `Ran`, every later iteration is the
/// same.
pub proof fn lemma_run_steps_absorbs(s: AbsVm, resolve: bool, n: nat, m: nat)
    requires
        n <= m,
        !(run_steps(s, resolve, n).event is Ran),
    ensures
        run_steps(s, resolve, m) == run_steps(s, resolve, n),
    decreases m,
{
    if m > n {
        lemma_run_steps_absorbs(s, resolve, n, (m - 1) as nat);
    }
}

impl VM {
    /// Steps the machine from its current state until the pass halts, work
    /// for the caller arises, or `fuel` instructions have run; the result is
    /// exactly `fuel` iterations of the transition model.
    fn run_loop(&mut self, resolve: bool, fuel: u64) -> (ev: VmEvent)
        requires
            old(self).wf(),
        ensures
            final(self).wf(),
            final(self)@ == run_steps(old(self)@, resolve, fuel as nat).state,
            ev@ == run_steps(old(self)@, resolve, fuel as nat).event,
    {
        let ghost start = self@;
        let mut used: u64 = 0;
        let mut ev = VmEvent::Ran;
        loop
            invariant_except_break
                used <= fuel,
                self.wf(),
                ev@ is Ran,
                (AbsStep { state: self@, event: ev@ }) == run_steps(start, resolve, used as nat),
            ensures
                self.wf(),
                (AbsStep { state: self@, event: ev@ }) == run_steps(start, resolve, fuel as nat),
            decreases fuel - used,
        {
            if used == fuel {
                break;
            }
            let next = self.step(resolve);
            proof {
                assert(run_steps(start, resolve, (used + 1) as nat) == AbsStep {
                    state: self@,
                    event: next@,
                });
            }
            ev = next;
            used = used + 1;
            match &ev {
                VmEvent::Ran => {},
                _ => {
                    proof {
                        lemma_run_steps_absorbs(start, resolve, used as nat, fuel as nat);
                    }
                    break;
                },
            }
        }
        ev
    }

    /// Runs one pass over the buffer: resets the counter to zero, then
    /// executes instructions until the pass halts (`Done`, `Fault` or
    /// `Exit`), the caller must act (`Output`, `FloatOutput`, `FloatBin`,
    /// `Input`, `DebugDump`), or `fuel` instructions have run (`Ran`).
    ///
    /// With `resolve` true this is the resolution pass: labels are
    /// registered and every instruction is decoded and validated, but the
    /// stack and the store are untouched and no caller event arises.  The
    /// stack, store and call stack persist across calls; only the counter is
    /// reset.
    pub fn run(&mut self, resolve: bool, fuel: u64) -> (ev: VmEvent)
        requires
            old(self).wf(),
        ensures
            final(self).wf(),
            final(self)@ == run_steps(with_index(old(self)@, 0), resolve, fuel as nat).state,
            ev@ == run_steps(with_index(old(self)@, 0), resolve, fuel as nat).event,
    {
        self.index = 0;
        self.run_loop(resolve, fuel)
    }

    /// Continues the live pass after an `Output`, `FloatOutput` or
    /// `DebugDump` event, once the caller has performed it.
    pub fn resume(&mut self, fuel: u64) -> (ev: VmEvent)
        requires
            old(self).wf(),
        ensures
            final(self).wf(),
            final(self)@ == run_steps(old(self)@, false, fuel as nat).state,
            ev@ == run_steps(old(self)@, false, fuel as nat).event,
    {
        self.run_loop(false, fuel)
    }

    /// Continues the live pass after a `FloatBin` event: pushes the bit
    /// pattern the caller computed and goes on.
    pub fn resume_float(&mut self, bits: u64, fuel: u64) -> (ev: VmEvent)
        requires
            old(self).wf(),
        ensures
            final(self).wf(),
            final(self)@ == run_steps(
                push_value(old(self)@, AbsValue::Float { bits }),
                false,
                fuel as nat,
            ).state,
            ev@ == run_steps(
                push_value(old(self)@, AbsValue::Float { bits }),
                false,
                fuel as nat,
            ).event,
    {
        proof {
            lemma_stack_push(self.stack@, Value::Float { bits });
        }
        self.stack.push(Value::Float { bits });
        self.run_loop(false, fuel)
    }

    /// Continues the live pass after an `Input` event: pushes the line the
    /// caller read, with trailing line terminators removed, and goes on.
    pub fn resume_input(&mut self, line: Vec<u8>, fuel: u64) -> (ev: VmEvent)
        requires
            old(self).wf(),
        ensures
            final(self).wf(),
            final(self)@ == run_steps(
                push_value(old(self)@, AbsValue::Str { bytes: trim_line_ends(line@) }),
                false,
                fuel as nat,
            ).state,
            ev@ == run_steps(
                push_value(old(self)@, AbsValue::Str { bytes: trim_line_ends(line@) }),
                false,
                fuel as nat,
            ).event,
    {
        let trimmed = trim_line_ends_vec(line);
        proof {
            lemma_stack_push(self.stack@, Value::Str { bytes: trimmed });
        }
        self.stack.push(Value::Str { bytes: trimmed });
        self.run_loop(false, fuel)
    }
}

/// Stores with pairwise equal entries have equal views.
proof fn lemma_mem_view_congruent(a: Seq<(Vec<u8>, Value)>, b: Seq<(Vec<u8>, Value)>)
    requires
        a.len() == b.len(),
        forall|j: int| 0 <= j < a.len() ==> #[trigger] a[j].0@ == b[j].0@ && a[j].1@ == b[j].1@,
    ensures
        mem_view(a) == mem_view(b),
    decreases a.len(),
{
    if a.len() > 0 {
        assert(forall|j: int|
            0 <= j < a.drop_last().len() ==> #[trigger] a.drop_last()[j].0@ == b.drop_last()[j].0@
                && a.drop_last()[j].1@ == b.drop_last()[j].1@);
        lemma_mem_view_congruent(a.drop_last(), b.drop_last());
        assert(a.last().0@ == b.last().0@ && a.last().1@ == b.last().1@);
    }
}

/// Label tables with pairwise equal entries have equal views.
proof fn lemma_label_view_congruent(a: Seq<(Vec<u8>, usize)>, b: Seq<(Vec<u8>, usize)>)
    requires
        a.len() == b.len(),
        forall|j: int| 0 <= j < a.len() ==> #[trigger] a[j].0@ == b[j].0@ && a[j].1 == b[j].1,
    ensures
        label_view(a) == label_view(b),
    decreases a.len(),
{
    if a.len() > 0 {
        assert(forall|j: int|
            0 <= j < a.drop_last().len() ==> #[trigger] a.drop_last()[j].0@ == b.drop_last()[j].0@
                && a.drop_last()[j].1 == b.drop_last()[j].1);
        lemma_label_view_congruent(a.drop_last(), b.drop_last());
        assert(a.last().0@ == b.last().0@ && a.last().1 == b.last().1);
    }
}

impl VM {
    /// The variable store's bindings in insertion order, as copies.
    pub fn memory_items(&self) -> (r: Vec<(Vec<u8>, Value)>)
        ensures
            mem_view(r@) == self@.memory,
    {
        let mut out: Vec<(Vec<u8>, Value)> = Vec::new();
        let mut i: usize = 0;
        while i < self.memory.len()
            invariant
                i <= self.memory@.len(),
                out@.len() == i,
                forall|j: int|
                    0 <= j < i ==> #[trigger] out@[j].0@ == self.memory@[j].0@ && out@[j].1@
                        == self.memory@[j].1@,
            decreases self.memory@.len() - i,
        {
            let key = clone_bytes(&self.memory[i].0);
            let value = self.memory[i].1.duplicate();
            out.push((key, value));
            i = i + 1;
        }
        proof {
            lemma_mem_view_congruent(out@, self.memory@);
        }
        out
    }

    /// The label table's bindings in insertion order, as copies.
    pub fn label_items(&self) -> (r: Vec<(Vec<u8>, usize)>)
        ensures
            label_view(r@) == self@.labels,
    {
        let mut out: Vec<(Vec<u8>, usize)> = Vec::new();
        let mut i: usize = 0;
        while i < self.labels.len()
            invariant
                i <= self.labels@.len(),
                out@.len() == i,
                forall|j: int|
                    0 <= j < i ==> #[trigger] out@[j].0@ == self.labels@[j].0@ && out@[j].1
                        == self.labels@[j].1,
            decreases self.labels@.len() - i,
        {
            let key = clone_bytes(&self.labels[i].0);
            let target = self.labels[i].1;
            out.push((key, target));
            i = i + 1;
        }
        proof {
            lemma_label_view_congruent(out@, self.labels@);
        }
        out
    }
}

} // verus!
