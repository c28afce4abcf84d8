//! Core of a resumable, paged HTTP(S) downloader.
//!
//! The library covers the logic of the downloader: page arithmetic, the
//! durable checksum status store, the resume verifier, the writer, and the
//! orchestration state machine that decides between paged, single-stream,
//! resumed and already-complete downloads. The surrounding I/O (HTTP
//! transport, file handles, memory mapping) lives outside the library and
//! hands it plain values.

pub mod pages;
pub mod status;
pub mod checksum;
pub mod download;
