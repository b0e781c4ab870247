//! Verified core of a latency benchmark harness: CPU-frequency control plans, config values and
//! how config files layer, the starting config and its tables, host facts, band labels, the
//! dither generator, the plans `analyze` and `figures` follow, and the small parsers the command
//! line uses.

pub mod text;
pub mod config;
pub mod freqctl;
pub mod bands;
pub mod dither;
pub mod freq;
pub mod gauge;
pub mod host;
pub mod analyze;
pub mod figures;
pub mod harness;
pub mod init_config;
pub mod layers;
pub mod validate;
pub mod tables;
