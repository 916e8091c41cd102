//! Human-friendly bandwidth parser and formatter.
//!
//! * Parses rates written in free form, such as `2Gbps 340Mbps` or `2.34Gbps`.
//! * Formats rates in the same form: `150.024kbps`, or `150kbps 24bps` with whole numbers only.
//! * The module [`binary_system`] does the same with binary prefixes and bytes per second
//!   (`1kiB/s` in place of `8.192kbps`).
//!
//! What every function returns is stated in its contract over the models in the modules
//! [`grammar`] (parsing) and [`render`] (formatting), and proved.

pub mod binary64;
pub mod binary_system;
pub mod decimal;
pub mod error;
pub mod format;
pub mod grammar;
pub mod joined;
pub mod laws;
pub mod option;
pub mod parser;
pub mod rate;
pub mod render;
pub mod rounding;
pub mod scanner;
pub mod serde;
pub mod spellings;
pub mod units;
pub mod written;

pub use crate::error::Error;
pub use crate::format::{format_bandwidth, FormattedBandwidth};
pub use crate::parser::parse_bandwidth;
pub use crate::rate::Bandwidth;
