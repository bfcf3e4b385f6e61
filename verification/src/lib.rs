//! Types and utilities for building Prometheus remote-write request payloads.
//!
//! The pipeline turns exposition-format text into a canonical, sorted
//! [`WriteRequest`], encodes it as a protobuf message, compresses it with
//! raw snappy, and wraps the payload in the transport headers that the
//! remote-write protocol requires.

pub mod canon;
pub mod cli;
pub mod compress;
pub mod encode;
pub mod laws;
pub mod observe;
pub mod order;
pub mod parse;
pub mod request;
pub mod sorting;
pub mod types;

pub use cli::crate_version;
pub use cli::run;
pub use cli::Args;
pub use cli::CliError;
pub use cli::Cmd;
pub use cli::MetricOrFile;
pub use cli::MetricType;
pub use cli::Plan;
pub use compress::EncodeError;
pub use observe::MetricValue;
pub use observe::Observation;
pub use observe::ParseError;
pub use request::HttpRequest;
pub use types::Label;
pub use types::Sample;
pub use types::TimeSeries;
pub use types::WriteRequest;
pub use types::CONTENT_TYPE;
pub use types::HEADER_NAME_REMOTE_WRITE_VERSION;
pub use types::LABEL_NAME;
pub use types::REMOTE_WRITE_VERSION_01;
