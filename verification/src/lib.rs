//! A verified core for a native-asset transfer service on an EVM-compatible
//! chain.
//!
//! The crate has two components. The amount normalizer turns a human-readable
//! decimal string into an exact integer count of the chain's smallest unit,
//! rejecting malformed, negative and out-of-range inputs. The transfer
//! orchestrator is a strict forward pipeline, modelled as a state machine:
//! a driver performs the chain-facing work (resolving the signer, connecting,
//! querying the balance, submitting, awaiting confirmation) and feeds each
//! result back as an event, while every decision — which stage comes next,
//! which error kind a failure maps to, how the amount and the receiver
//! address are validated — is made here and verified.

pub mod address;
pub mod amount;
pub mod error;
pub mod transfer;
