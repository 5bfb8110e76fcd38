//! Host-side state of a smart-rollup kernel: a durable path-addressed store,
//! a sequenced inbox and outbox, and the preimage reveal protocol.

pub mod assoc;
pub mod digest;
pub mod entrypoint;
pub mod error;
pub mod inbox;
pub mod limits;
pub mod metadata;
pub mod path;
pub mod preimage;
pub mod state;
pub mod store;
pub mod ticket;
pub mod transaction;
