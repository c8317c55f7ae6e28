//! A bounded, searchable history of clipboard events with selective
//! encryption-at-rest, deduplication, pinning and collection tagging.
//!
//! The crate is organised around three verified components:
//! a content store that owns all entry and collection state ([`store`]),
//! a crypto envelope for sensitive text ([`crypto`]),
//! and a capture coordinator that decides what an observed clipboard
//! change becomes ([`monitor`]), together with the shared runtime
//! state both sides mutate ([`state`]).

pub mod models;

pub mod text;

pub mod crypto;

pub mod classify;

pub mod store;

pub mod state;

pub mod commands;

pub mod monitor;

pub mod laws;

pub mod ocr;
