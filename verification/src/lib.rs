//! A log-aggregation store built on a log-structured merge tree.

pub mod bench;
pub mod buffer;
pub mod client;
pub mod codec;
pub mod compare;
pub mod dialog;
pub mod histogram;
pub mod mem_profile;
pub mod metrics;
pub mod profile;
pub mod proto;
pub mod report;
pub mod server;
pub mod storage;
pub mod style;
pub mod text;
pub mod wire;
pub mod wording;
pub mod xtask;
