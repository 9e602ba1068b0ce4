//! A changelog kept as many small dated notes and as one document.
//!
//! `aggregator` gathers the notes of a directory into one document,
//! newest first. `splitter` cuts such a document back into its notes.
//! Both go by the header line that `header` reads and writes.

pub mod aggregator;
pub mod date;
pub mod header;
pub mod names;
pub mod roundtrip;
pub mod splitter;
pub mod text;
