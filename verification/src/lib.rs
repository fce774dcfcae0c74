//! Client-side core of a content-addressed blob transfer protocol.
//!
//! A provider holds blobs addressed by their BLAKE3 hash, and collections:
//! blobs whose bytes decode to an ordered list of `(name, hash)` entries.
//! This crate holds the verified logic of the fetching client: the sparse
//! range model used for resume requests, the wire encoding of requests,
//! collection parsing and path validation, the resume planner, the response
//! state machine, and the transfer driver that stages every blob through a
//! temporary file and commits it with a rename only after its content has
//! been verified against the expected hash.
//!
//! Everything that touches the network or the filesystem lives outside this
//! crate; the driver here consumes plain values (disk snapshots, delivered
//! wire records) and emits an ordered list of filesystem actions for the
//! caller to perform.

pub mod collection;
pub mod disco;
pub mod driver;
pub mod hashing;
pub mod machine;
pub mod planner;
pub mod ranges;
pub mod wire;
