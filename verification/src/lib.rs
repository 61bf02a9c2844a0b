//! Saccade: a Linux performance profiler that rotates hardware counter slots across quanta to
//! estimate rates for more counters than the hardware can measure at once.
//!
//! This crate is the profiler's verified core. Rates are floating-point numbers; here they are
//! carried as opaque bit patterns or as exact integer ratios, and the arithmetic on them is left
//! to the application.

/// Text building blocks: decimal and hexadecimal numbers, concatenation, lossy decoding.
pub mod text;
/// Stable ordering by integer keys.
pub mod order;
/// Time bins of equal width.
pub mod bins;
/// Perfetto trace writer and rate-time-series reader.
pub mod perfetto;
/// Writing rate and uncertainty tracks of events, without threads.
pub mod perfetto_trace;
/// Hardware event library and lookup.
pub mod event;
/// How `perf` is asked for events.
pub mod perf;
/// Reading the event library out of a listing of events.
pub mod event_library;
/// Raw samples and the records that the kernel side delivers.
pub mod sample;
/// Per-step bundle of raw samples with per-event and per-thread aggregates.
pub mod quantum;
/// Estimates as plain values.
pub mod state;
/// Counter-rotation policies.
pub mod scheduler;
/// Prompts and round-trips for schedulers that ask a language model.
pub mod llm;
/// Output sinks.
pub mod sink;
/// Replacing the event of a counter slot, step by step.
pub mod hardware_counters;
/// Where samples come from: counter readings, or recorded rates.
pub mod source;
/// CSV log of the raw sample stream.
pub mod buffered_output;
/// Synthetic workloads to try a profiler out on.
pub mod workload;
/// Kinds of schedulers and estimators, defaults, and what overrides what.
pub mod config;
/// The decisions of one profiling step.
pub mod profiler;
/// Raw slot readings, added up per event.
pub mod counter_backend;
/// Stepping virtual counters from per-event observations.
pub mod oculomotor;
/// The work of the subcommands.
pub mod commands;
