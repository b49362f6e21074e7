//! Sana: an object-storage-native search database for vectors, text and
//! attributes.
//!
//! The library holds the formats, state machines and rules of the engine. It
//! does no I/O: callers read objects, hand the bytes or decoded values to the
//! library, and write back what it returns.

pub mod api;
pub mod arithmetic;
pub mod attr;
pub mod backpressure;
pub mod cache_warm;
pub mod checksum;
pub mod cli;
pub mod codec;
pub mod doc;
pub mod documents;
pub mod error;
pub mod frame;
pub mod hash;
pub mod index_queue;
pub mod indexer;
pub mod maintenance;
pub mod manifest;
pub mod metadata;
pub mod metrics;
pub mod namespace;
pub mod object_store;
pub mod operations;
pub mod order;
pub mod phrase;
pub mod pinning;
pub mod query;
pub mod queue_broker;
pub mod rabitq;
pub mod reader_lease;
pub mod rounding;
pub mod schema;
pub mod seqs;
pub mod sorted;
pub mod sorting;
pub mod sst;
pub mod strings;
pub mod text;
pub mod textmap;
pub mod value;
pub mod vector;
pub mod wal;
