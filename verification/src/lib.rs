//! Core logic of a multi-key blockchain scanner for a cross-chain bridge.
//!
//! The scanner ingests finalized blocks, discovers outputs payable to one of
//! several rotating threshold-signed keys, reports those outputs upstream as
//! batches, tracks completion of expected outbound transactions
//! (Eventualities), and coordinates acknowledgements with an external
//! consensus layer. This crate holds the decisions: the key-lifetime state
//! machine, output ordering and classification, batch assembly, eventuality
//! matching, and the window-bounded scanner state machine. The surrounding
//! I/O (block fetches, batch publication, persistence) is left to callers.

pub mod codec;
pub mod eventuality;
pub mod index;
pub mod lifetime;
pub mod lookup;
pub mod output;
pub mod report;
pub mod runtime;
pub mod scan;
pub mod scanner;

pub use codec::Return;
pub use lifetime::LifetimeStage;
pub use scanner::{Scanner, SchedulerUpdate};
