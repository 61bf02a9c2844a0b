//! The work of the subcommands, apart from input and output.

pub mod evaluate;
pub mod remap;
pub mod report;
pub mod run;
pub mod simulate;
pub mod sweep;
pub mod sweep_trace;
