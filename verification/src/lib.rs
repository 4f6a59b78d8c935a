//! Tree-based overlay network (TBON) for distributed counter aggregation.
//!
//! A set of worker processes self-organizes into a bounded-fanout tree rooted
//! at a coordinator. Each worker publishes named numeric counters; the root
//! answers aggregate queries (process count, key enumeration, live value maps,
//! histograms) that fan out through the tree and fold on the way back.
//!
//! This crate holds the verified core: the binary frame codec, the tagged
//! wire protocol, the root's tree view with its pivot policy, the per-node
//! counter store, and the aggregation folds. Socket handling, threads and the
//! HTTP view live outside the library and drive it with plain values.

pub mod aggregate;
pub mod counters;
pub mod errors;
pub mod frame;
pub mod hist;
pub mod model;
pub mod protocol;
pub mod view;
pub mod webroute;
pub mod wire;
