//! An append-only, content-addressed, verifiable log store.
//!
//! * [`neopack`] is the self-describing binary codec that every layer frames
//!   its values with.
//! * [`covering`] is the arithmetic of the post-order numbering of a perfect
//!   tree: which nodes an item completes, which children a node has, which
//!   nodes are the peaks over a number of items.
//! * [`jumpheader`] is the skip list of a log file: the frames that a frame
//!   points back at, and the header that holds the offsets of their headers.
//! * [`key`] is hashing, signing, key agreement and sealing, each done by an
//!   outside library behind a contract.
//! * [`neodisk`] is the log file: frames of compressed records and a footer.
//! * [`message_core`] numbers the messages of one log file and caches the
//!   ones that were read.
//! * [`isocore`] binds three cores under one key: the messages, the nodes of
//!   the hash tree over them, and a signature for every append.
//!
//! Nothing here reads or writes a file: a log is opened from the bytes of
//! its file and hands out the bytes that are to be written.

pub mod covering;
pub mod isocore;
pub mod jumpheader;
pub mod key;
pub mod message_core;
pub mod neodisk;
pub mod neopack;
