//! Typed, read-only snapshots of two oracle-program accounts, decoded from the
//! raw bytes that the ledger holds for them.

pub mod attestation_queue;
pub mod buffer_relayer;
pub mod error;
pub mod wire;

pub use attestation_queue::AttestationQueueAccountData;
pub use buffer_relayer::{BufferRelayerAccountData, BufferRelayerRound};
pub use error::AccountError;
