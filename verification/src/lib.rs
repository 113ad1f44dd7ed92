//! QRAP node core logic: post-quantum placeholder primitives, fee
//! distribution, UTXO nullifier epochs, Orbital BFT round state machine,
//! data-availability bookkeeping, 256-bit field arithmetic and the
//! framing used on the wire.
pub mod bytes;
pub mod consensus;
pub mod crypto;
pub mod da;
pub mod entries;
pub mod fee;
pub mod fpga;
pub mod field;
pub mod limbs;
pub mod net;
pub mod sim;
pub mod smt;
pub mod stark;
pub mod utxo;
