//! Bit-level inspection and toggling of per-core model-specific registers.
//!
//! A register is eight bytes per core. A command line names a register
//! address and any number of bit specifications, each a rectangle of cores
//! and bits to toggle. This library parses both, lays out the order of the
//! read-modify-write cycles, decides every step of the run and renders the
//! registers as text. It performs no input or output of its own: the caller
//! reads and writes the register devices and prints.
//!
//! - [`text`]: digits, unsigned numbers and splitting on a separator
//! - [`parse`]: the register address, index ranges and bit specifications
//! - [`register`]: the register value and the toggle of one bit
//! - [`plan`]: the positions that a list of bit specifications visits
//! - [`engine`]: the run as a state machine of register accesses
//! - [`flip`]: what a run does to the registers, and the run in memory
//! - [`format`]: the binary and hexadecimal rendering

pub mod engine;
pub mod flip;
pub mod format;
pub mod parse;
pub mod plan;
pub mod register;
pub mod text;
