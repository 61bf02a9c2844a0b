//! Output sinks: what becomes of the samples of each quantum.

pub mod csv;
pub mod matrix;
pub mod null;
pub mod perfetto;
