//! Perfetto trace I/O: writing per-thread hardware counter time-series and reading them back.

pub mod packet;
pub mod reader;
pub mod trace;
pub mod wire;
