//! A copying garbage collector for packed, cursor-addressed values.
//!
//! All memory the collector touches (nursery halves, chunks and shadow-stack
//! buffers) lives in one byte array; addresses are offsets into it.

pub mod error;
pub mod message;
pub mod cursor;
pub mod info_table;
pub mod nursery;
pub mod shadowstack;
pub mod gc;
pub mod evacuate;
pub mod plain;
