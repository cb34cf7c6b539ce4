//! Verified DFA transition tables and their scanners.
//!
//! A [`TransitionTable`] describes a DFA over byte classes. It can be
//! minimized, serialized to a compact little-endian format and decoded again,
//! analysed, and compiled into a [`JitDfa`] whose scanner reports the matches
//! of the accepting states.

mod aho;
mod codegen;
mod dfa;
mod error;
mod laws;
mod scan;
mod table;

pub use codegen::{
    compile_x86_64, patch_rel32, Compiled, NativeImage, ACCEPT_IMM, DATA_START, MAX_JIT_STATES,
    OUTPUT_IMM, PATLEN_IMM, TRANS_IMM,
};
pub use dfa::JitDfa;
pub use error::Error;
pub use scan::{ExecutableBuffer, Match, NO_MATCH};
pub use table::TransitionTable;
