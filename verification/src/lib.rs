//! Core of a batch importer: record-aware, byte-budgeted chunking of CSV and
//! NDJSON streams into batches, plus the retry/backoff/skip state machines
//! that govern how batches are delivered to a remote ingestion endpoint.
//!
//! The chunkers never split a logical record and never drop data; the sender
//! state machine bounds the number of delivery attempts and computes the
//! exponential backoff schedule. All of it is verified; network and file I/O
//! live outside this crate and only feed plain values in.

pub mod byte_count;
pub mod chunk;
pub mod mime;
pub mod csv;
pub mod nd_json;
pub mod sender;
