//! A small stack-based bytecode virtual machine.
//!
//! The machine consumes a flat byte buffer of instructions and executes them
//! against an operand stack, a named-variable store, a label table and a call
//! stack.  Execution is driven in two passes: a resolution pass that walks the
//! buffer registering labels and validating instruction framing, and a live
//! pass that performs the actual stack, store and control-flow effects.
//!
//! Everything the machine decides is verified against a mathematical model of
//! one execution step (`machine::step_model`).  Work the machine cannot do by
//! itself — console output, reading a line of input, floating-point
//! arithmetic, ending the process — is handed to the caller as an event, and
//! execution resumes when the caller reports the outcome.

pub mod codec;
pub mod laws;
pub mod machine;
pub mod value;
