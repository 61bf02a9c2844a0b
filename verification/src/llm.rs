//! Building prompts for, and talking to, a language model that helps to schedule.

pub mod client;
pub mod latency_profile;
pub mod prompt;
