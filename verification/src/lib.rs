//! The memory subsystem of a zero-knowledge virtual machine: a store that
//! tracks every read and write under a monotonically increasing logical
//! clock, reconciles differing access granularities by splitting and merging
//! power-of-two blocks (emitting adapter records as evidence), and finalizes
//! the memory into fixed-size labelled chunks for commitment.

pub mod addr;
pub mod config;
pub mod records;
pub mod heights;
pub mod kvlist;
pub mod equipartition;
pub mod memory;
pub mod adapter;
pub mod controller;
