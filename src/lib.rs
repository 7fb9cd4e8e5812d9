//! Composition and commitment of client-side-validated asset transfers.
//!
//! - `select` picks the outputs a transfer spends, largest holdings first.
//! - `compose` turns spent outputs and a distribution into one transition
//!   per contract, with change and blank transitions, drawing every blinding
//!   value from one seeded ChaCha20 stream (`seed`, `blinding`).
//! - `commit` binds the transitions to the spending transaction's inputs,
//!   bundles them per contract and folds the bundles into one multi-protocol
//!   commitment.
//! - `transfer_laws` states and proves what holds of these across calls.
//! - `external` declares what is used of the outside crates.
pub mod types;
pub mod order;
pub mod assignments;
pub mod blinding;
pub mod compose;
pub mod seed;
pub mod transfer_laws;
pub mod external;
pub mod tx_bytes;
pub mod commit;
pub mod select;
pub mod invoice;
