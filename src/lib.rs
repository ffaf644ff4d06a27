//! A small persistent key-value store whose on-disk form is a flat text file
//! holding one `key<TAB>value` record per line.
//!
//! The library is pure: [`codec`] turns text into records and back, and
//! [`store`] holds the in-memory mapping together with the flag that tracks
//! whether it has been written out. Reading and writing the backing file is
//! left to the caller, who hands the write to [`store::Database::flush`] and
//! [`store::Database::teardown`] as a closure.

pub mod records;
pub mod codec;
pub mod store;

pub use codec::CodecError;
pub use store::Database;
