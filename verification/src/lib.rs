//! A local, encrypted, collection-scoped key-value store. Values live in
//! a process-wide cache and are flushed to disk asynchronously in
//! encrypted form; the collection registry decides which namespace
//! unqualified operations target. Persistence is AES-256-GCM under a
//! single authorization key, with a fresh random nonce per encryption,
//! over canonical JSON documents rendered and parsed by verified code.

pub mod codec;
pub mod crypto;
pub mod errors;
pub mod jsonfmt;
pub mod memory_engine;
pub mod saver;
pub mod store;
