pub mod benchmark;
pub mod config;
pub mod map;
pub mod signal;
