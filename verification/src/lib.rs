//! Interpreter core for a Brainfuck dialect with parallel execution
//! "timelines" and reversible ("time travel") execution.
//!
//! The library is split into:
//! - [`config`]: tape geometry and the overflow / pointer-bound / end-of-input
//!   policies, supplied at engine construction;
//! - [`error`]: load-time and run-time error values;
//! - [`program`]: instructions and the one-pass assembler that resolves
//!   bracket and paren pairs into absolute jump and fork targets;
//! - [`timeline`]: one execution context (tape, active cursor set, counter,
//!   rollback history) and the per-instruction tape operations;
//! - [`engine`]: the multiverse scheduler, which advances every live timeline
//!   by one instruction per tick and applies structural changes between ticks.
//!
//! Input and output are plain byte sequences held by the engine; reading them
//! from and writing them to real ports is a caller's concern.

pub mod config;
pub mod engine;
pub mod error;
pub mod program;
pub mod timeline;
