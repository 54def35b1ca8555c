//! Brute-force preimage and collision search over small non-cryptographic
//! digests: digit-vector enumeration of a bounded candidate space, batch
//! planning for a grid of parallel workers, the per-worker evaluation rule and
//! the driver that walks the space batch by batch.

pub mod birthday;
pub mod codec;
pub mod digest;
pub mod driver;
pub mod evaluator;
pub mod planner;
pub mod prefix_search;
pub mod space;
pub mod wire;
pub mod xor32;
