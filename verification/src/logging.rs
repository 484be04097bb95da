//! The pluggable logging sink: the `SimLogger` interface invoked from the
//! matching hot path, the tagged event record carried to background writers,
//! and the in-process logging strategies (further strategies that own files,
//! threads or a tracing subscriber live with the driver).

pub mod log_methods;
pub mod logger_trait;
pub mod types;

pub use logger_trait::SimLogger;
pub use types::LoggingMode;
