//! A batch extension for an Ethereum-compatible virtual machine.
//!
//! A single top-level call to the batch contract address dispatches an
//! ordered sequence of sub-calls (each with an optional value transfer and
//! calldata) to arbitrary target addresses.  Three modes govern what happens
//! when a sub-call fails: `BatchSome` logs the failure and continues,
//! `BatchSomeUntilFailure` logs it and stops, and `BatchAll` reverts the
//! whole batch.
//!
//! The host virtual machine performs the sub-calls themselves; the library
//! holds the verified logic around them: selector dispatch, calldata
//! decoding and encoding, per-iteration gas reservation, status-log
//! synthesis, cost accounting, and the mode-specific failure policies.

pub mod types;
pub mod engine;
pub mod abi;
