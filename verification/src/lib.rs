//! A byte-level record format with a streaming reader that maps a storage
//! area into records, free regions and corrupt regions, and hands out free
//! space for new records; plus the bookkeeping of a persistent queue built on it.

pub mod parser;
pub mod que;
pub mod reader;
pub mod workers;
