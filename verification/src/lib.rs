//! A durable message queue kept in one append-only log of binary records.
//!
//! The library works on the log as a byte string: it frames records,
//! finds the first record that has not been consumed, marks it, and
//! compacts the log. Reading and writing the backing file, the clock and
//! the locks belong to the program that uses it.

pub mod codec;
pub mod endian;
pub mod laws;
pub mod store;
