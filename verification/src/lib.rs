//! An encrypted clipboard history store.
//!
//! The crate keeps an ordered, bounded, searchable history of clipboard
//! captures, encrypts every payload at rest under a key held by the operating
//! system's secret service, deduplicates consecutive identical captures, and
//! persists the history through an atomic temp-file-plus-rename protocol.
//! Reading the clipboard, talking to the secret service over the bus, and all
//! other input/output stay with the surrounding application; this crate holds
//! the entity model, the codec, the store and the query engine, each with a
//! verified contract.

pub mod bridge;
pub mod codec;
pub mod disk;
pub mod errors;
pub mod keys;
pub mod search;
pub mod store;
pub mod wire;
