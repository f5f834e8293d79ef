//! Bounds-checked cursors for reading and writing binary data in a borrowed
//! byte buffer. Every operation either succeeds in full or fails with a
//! value, never panics, and nested work can be rolled back.
pub mod bytes;
pub mod laws;
pub mod read;
pub mod write;

pub use read::{ReadCursor, ReadError, TrailingBytes};
pub use write::{WriteCursor, WriteError};
