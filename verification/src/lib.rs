//! A small serial "hello" service for a single-core microcontroller: a
//! single-threaded executor, polling serial I/O and a greeting dialogue, each
//! written as a verified state machine that a thin driver runs.

pub mod app;
pub mod executor;
pub mod utils;
pub mod poll;
