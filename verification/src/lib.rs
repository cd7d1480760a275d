//! A logging library for Linux whose formatting, filtering and calendar
//! logic is specified and proved with Verus.
//!
//! The library holds what a logger decides and computes: severity levels,
//! per-target filters, calendar timestamps, the plain-text, JSON and syslog
//! record formats, contextual fields, log file rotation plans and the
//! writer's fall-back policy. Queues, threads, sockets and files are driven
//! by the application around it.

pub mod calendar;
pub mod context;
pub mod entry;
pub mod filter;
pub mod json;
pub mod level;
pub mod logger;
pub mod sink;
pub mod syslog;
pub mod text;
pub mod time;

pub use context::ContextStack;
pub use entry::{Field, FieldValue, JsonNumber, LogEntry};
pub use filter::{module_matches, TargetFilter, DEFAULT_FILTER_ENV};
pub use json::write_record;
pub use level::Level;
pub use logger::{
    format_record, Backpressure, LoggerBuilder, LoggerConfig, SinkSource, WriterState,
    DEFAULT_CHANNEL_CAPACITY, DEFAULT_MAX_FILE_SIZE,
};
pub use sink::backup_path;
pub use syslog::{build_packet, level_to_severity, rfc3164_timestamp, sanitize_ident, Facility};
pub use time::{civil_from_days, Timestamp};
