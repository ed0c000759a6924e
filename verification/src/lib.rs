//! A benchmark client's verified core: its command-line flags and its
//! server's, the framework table, the HTTP/1.1 request encoder and response
//! reader, what the benchmarks decide between their reads and writes, the
//! process figures read off `/proc`, the statistics the reports carry, and
//! the text those reports are written in.
//!
//! What the library promises across its functions is stated in the public
//! proof functions whose names start with `law_`.

pub mod bench;
pub mod bytes;
pub mod config;
pub mod control;
pub mod double;
pub mod duration;
pub mod flags;
pub mod http;
pub mod numbers;
pub mod procfs;
pub mod report;
pub mod response;
pub mod run;
pub mod server;
pub mod sorting;
pub mod stats;
pub mod text;
