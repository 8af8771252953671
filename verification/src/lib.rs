//! A verified bytecode interpreter for a subset of an Ethereum-style
//! instruction set. Programs are hex-encoded byte sequences; execution is a
//! fetch-decode-execute loop over a stack of 256-bit words, with exact
//! wrapping, signed, and overflow-safe modular arithmetic semantics.
#![allow(unused_imports)]

pub mod arith;
pub mod codec;
pub mod evm;
pub mod opcode;
pub mod ops;
pub mod word;
