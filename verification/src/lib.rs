//! Keeps an `authorized_keys`-style file synchronized with public keys
//! published by remote identity sources, without disturbing lines a human
//! administrator manages by hand.
//!
//! The crate holds the reconciliation engine: parsing and resolving source
//! identifiers, splitting and joining the target file's lines, editing the
//! machine-owned managed block, deduplicating fetched keys, and the worker
//! lifecycle state machine. Network and file I/O live outside the crate and
//! hand plain values in and out.
#![verifier::loop_isolation(false)]

pub mod editor;
pub mod keys;
pub mod paths;
pub mod service;
pub mod source;
pub mod text;
