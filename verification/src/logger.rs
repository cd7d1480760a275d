//! Logger configuration, the decisions of the writer, and the plain-text
//! record format.
//!
//! The queue, the writer thread and the sinks themselves do I/O and live
//! outside the verified library; what they decide is here: which records a
//! logger admits, where the writer sends a record after failures, and the
//! bytes a record becomes.

use vstd::prelude::*;
use vstd::utf8::encode_utf8;

use crate::entry::{location_text, LogEntry};
use crate::filter::{lemma_empty_filter_uses_base, parsed_directives, passes, DirectiveView, TargetFilter};
use crate::json::{json_record, write_record};
use crate::level::Level;
use crate::syslog::Facility;
use crate::text::{append_utf8, trim};

verus! {

/// Default capacity of the internal bounded queue.
pub const DEFAULT_CHANNEL_CAPACITY: usize = 8192;

/// Default maximum size of a rotated log file (10 MiB).
pub const DEFAULT_MAX_FILE_SIZE: u64 = 10 * 1024 * 1024;

/// Number of consecutive write failures tolerated before the writer falls
/// back to standard error.
pub const MAX_CONSECUTIVE_WRITE_ERRORS: usize = 8;

/// Strategy applied when the internal bounded queue is full.
#[derive(Debug, Clone, Copy, PartialEq, Eq, Structural)]
pub enum Backpressure {
    /// Block the calling thread until the writer catches up. No records are
    /// ever dropped, at the cost of potentially slowing down callers.
    Block,
    /// Drop the newest record and count it. Callers never block.
    DropNewest,
}

/// Where the logger writes its output; `C` is the type of a caller-provided
/// sink.
#[derive(Debug)]
pub enum SinkSource<C> {
    /// Standard output.
    Stdout,
    /// Standard error.
    Stderr,
    /// A size-rotating file at the path, with `max_size` and `max_backups`.
    File(String, u64, usize),
    /// The local syslog daemon, filing records under the facility.
    Syslog(Facility),
    /// A caller-provided sink.
    Custom(C),
}

/// The settings a logger is built from.
pub struct LoggerConfig<C> {
    /// Minimum level that is recorded (the base level of the filter).
    pub level: Level,
    /// Capacity of the bounded queue.
    pub capacity: usize,
    /// Policy when the queue is full.
    pub backpressure: Backpressure,
    /// Whether records carry their source location.
    pub include_location: bool,
    /// Shift of timestamps relative to UTC, in seconds.
    pub time_offset_seconds: i32,
    /// Whether records are written as JSON objects rather than plain text.
    pub json: bool,
    /// The per-target filter set on the builder, if any.
    pub filter: Option<TargetFilter>,
    /// Whether, without a filter set on the builder, the filter is read
    /// from the environment.
    pub env_filter: bool,
    /// The output destination.
    pub sink: SinkSource<C>,
}

/// The settings of a fresh builder: `Info` threshold, a queue of
/// [`DEFAULT_CHANNEL_CAPACITY`] records, blocking backpressure, source
/// locations on, UTC timestamps, plain text, no filter of its own but the
/// environment's, standard output.
pub open spec fn default_config<C>() -> LoggerConfig<C> {
    LoggerConfig {
        level: Level::Info,
        capacity: DEFAULT_CHANNEL_CAPACITY,
        backpressure: Backpressure::Block,
        include_location: true,
        time_offset_seconds: 0,
        json: false,
        filter: None,
        env_filter: true,
        sink: SinkSource::Stdout,
    }
}

/// Builder for a logger: collects the settings; building opens the sink and
/// starts the writer.
pub struct LoggerBuilder<C> {
    config: LoggerConfig<C>,
}

impl<C> LoggerBuilder<C> {
    /// The settings collected so far.
    pub closed spec fn settings(self) -> LoggerConfig<C> {
        self.config
    }

    /// A builder with the defaults of [`default_config`].
    pub fn new() -> (b: LoggerBuilder<C>)
        ensures
            b.settings() == default_config::<C>(),
    {
        LoggerBuilder {
            config: LoggerConfig {
                level: Level::Info,
                capacity: DEFAULT_CHANNEL_CAPACITY,
                backpressure: Backpressure::Block,
                include_location: true,
                time_offset_seconds: 0,
                json: false,
                filter: None,
                env_filter: true,
                sink: SinkSource::Stdout,
            },
        }
    }

    /// Set the minimum level that will be recorded.
    pub fn level(self, level: Level) -> (b: LoggerBuilder<C>)
        ensures
            b.settings() == (LoggerConfig { level, ..self.settings() }),
    {
        LoggerBuilder { config: LoggerConfig { level, ..self.config } }
    }

    /// Set the capacity of the internal bounded queue.
    pub fn channel_capacity(self, capacity: usize) -> (b: LoggerBuilder<C>)
        ensures
            b.settings() == (LoggerConfig { capacity, ..self.settings() }),
    {
        LoggerBuilder { config: LoggerConfig { capacity, ..self.config } }
    }

    /// Set the policy used when the queue is full.
    pub fn backpressure(self, backpressure: Backpressure) -> (b: LoggerBuilder<C>)
        ensures
            b.settings() == (LoggerConfig { backpressure, ..self.settings() }),
    {
        LoggerBuilder { config: LoggerConfig { backpressure, ..self.config } }
    }

    /// Whether to append the source location (`file:line @ module`) to each
    /// record. Enabled by default.
    pub fn include_location(self, enabled: bool) -> (b: LoggerBuilder<C>)
        ensures
            b.settings() == (LoggerConfig { include_location: enabled, ..self.settings() }),
    {
        LoggerBuilder { config: LoggerConfig { include_location: enabled, ..self.config } }
    }

    /// Shift timestamps by `seconds` relative to UTC (e.g. `19800` for
    /// UTC+05:30). Defaults to `0` (UTC).
    pub fn time_offset_seconds(self, seconds: i32) -> (b: LoggerBuilder<C>)
        ensures
            b.settings() == (LoggerConfig { time_offset_seconds: seconds, ..self.settings() }),
    {
        LoggerBuilder { config: LoggerConfig { time_offset_seconds: seconds, ..self.config } }
    }

    /// Write each record as one flat JSON object per line.
    pub fn json(self) -> (b: LoggerBuilder<C>)
        ensures
            b.settings() == (LoggerConfig { json: true, ..self.settings() }),
    {
        LoggerBuilder { config: LoggerConfig { json: true, ..self.config } }
    }

    /// Apply per-target levels; a filter set here replaces the one of the
    /// environment.
    pub fn filter(self, filter: TargetFilter) -> (b: LoggerBuilder<C>)
        ensures
            b.settings() == (LoggerConfig { filter: Some(filter), ..self.settings() }),
    {
        LoggerBuilder { config: LoggerConfig { filter: Some(filter), ..self.config } }
    }

    /// Do not read the filter from the environment.
    pub fn ignore_env_filter(self) -> (b: LoggerBuilder<C>)
        ensures
            b.settings() == (LoggerConfig { env_filter: false, ..self.settings() }),
    {
        LoggerBuilder { config: LoggerConfig { env_filter: false, ..self.config } }
    }

    /// Write to standard output.
    pub fn to_stdout(self) -> (b: LoggerBuilder<C>)
        ensures
            b.settings() == (LoggerConfig { sink: SinkSource::<C>::Stdout, ..self.settings() }),
    {
        LoggerBuilder { config: LoggerConfig { sink: SinkSource::Stdout, ..self.config } }
    }

    /// Write to standard error.
    pub fn to_stderr(self) -> (b: LoggerBuilder<C>)
        ensures
            b.settings() == (LoggerConfig { sink: SinkSource::<C>::Stderr, ..self.settings() }),
    {
        LoggerBuilder { config: LoggerConfig { sink: SinkSource::Stderr, ..self.config } }
    }

    /// Write to a size-rotating file at `path`. `max_size` is the rotation
    /// threshold in bytes (`0` disables rotation); `max_backups` is how many
    /// numbered backups are kept (`0` truncates in place). Whether the file
    /// can be opened is checked by the caller before.
    pub fn to_file(self, path: String, max_size: u64, max_backups: usize) -> (b: LoggerBuilder<C>)
        ensures
            b.settings() == (LoggerConfig {
                sink: SinkSource::<C>::File(path, max_size, max_backups),
                ..self.settings()
            }),
    {
        LoggerBuilder {
            config: LoggerConfig { sink: SinkSource::File(path, max_size, max_backups), ..self.config },
        }
    }

    /// Write to the local syslog daemon under `facility`.
    pub fn to_syslog(self, facility: Facility) -> (b: LoggerBuilder<C>)
        ensures
            b.settings() == (LoggerConfig { sink: SinkSource::<C>::Syslog(facility), ..self.settings() }),
    {
        LoggerBuilder { config: LoggerConfig { sink: SinkSource::Syslog(facility), ..self.config } }
    }

    /// Use a caller-provided sink.
    pub fn sink(self, sink: C) -> (b: LoggerBuilder<C>)
        ensures
            b.settings() == (LoggerConfig { sink: SinkSource::<C>::Custom(sink), ..self.settings() }),
    {
        LoggerBuilder { config: LoggerConfig { sink: SinkSource::Custom(sink), ..self.config } }
    }

    /// The collected settings, to build the logger from.
    pub fn into_config(self) -> (c: LoggerConfig<C>)
        ensures
            c == self.settings(),
    {
        self.config
    }
}

impl<C> Default for LoggerBuilder<C> {
    fn default() -> (b: LoggerBuilder<C>)
        ensures
            b.settings() == default_config::<C>(),
    {
        LoggerBuilder::new()
    }
}

/// Whether a logger with threshold `threshold` records a record at `level`:
/// neither is `Off` and `level` is at least `threshold`.
pub open spec fn admits(threshold: Level, level: Level) -> bool {
    level != Level::Off && threshold != Level::Off && level.spec_rank() >= threshold.spec_rank()
}

/// Whether records at `level` are recorded by a logger with threshold
/// `threshold`.
pub fn is_level_enabled(threshold: Level, level: Level) -> (r: bool)
    ensures
        r == admits(threshold, level),
{
    level != Level::Off && threshold != Level::Off && level.at_least(threshold)
}

/// Whether a logger enqueues a record at `level`: it is not shut down and
/// its threshold admits the level.
pub fn should_enqueue(closed: bool, threshold: Level, level: Level) -> (r: bool)
    ensures
        r == (!closed && admits(threshold, level)),
{
    !closed && is_level_enabled(threshold, level)
}

/// The directives given by the value of the filter's environment variable:
/// none when it is unset or blank, otherwise the parsed value.
pub open spec fn env_directives(env_value: Option<String>) -> Seq<DirectiveView> {
    match env_value {
        Some(v) => if trim(v@).len() == 0 {
            Seq::empty()
        } else {
            parsed_directives(v@)
        },
        None => Seq::empty(),
    }
}

/// The filter a logger applies: the one set on the builder; without one,
/// the environment's (`env_value`, the variable's value) unless reading it
/// is off; otherwise an empty filter.
pub fn resolve_filter(explicit: Option<TargetFilter>, env_filter: bool, env_value: Option<String>) -> (r:
    TargetFilter)
    ensures
        r@ == match explicit {
            Some(f) => f@,
            None => if env_filter {
                env_directives(env_value)
            } else {
                Seq::empty()
            },
        },
{
    match explicit {
        Some(f) => f,
        None => {
            if env_filter {
                match TargetFilter::from_env_value(env_value) {
                    Some(f) => f,
                    None => TargetFilter::new(),
                }
            } else {
                TargetFilter::new()
            }
        },
    }
}

/// Whether a logger whose threshold is `threshold` and whose filter is
/// `filter` enqueues a record for `target` at `level`: it is not shut down
/// and the filter passes the record, with the threshold as the level of
/// targets no directive covers.
pub fn admits_record(closed: bool, filter: &TargetFilter, threshold: Level, target: &str, level: Level) -> (r:
    bool)
    ensures
        r == (!closed && passes(filter@, target@, level, threshold)),
{
    !closed && filter.enabled(target, level, threshold)
}

/// A logger without per-target directives (none set on the builder, and
/// the environment ignored or blank) admits exactly the records its
/// threshold admits.
pub proof fn lemma_unfiltered_logger_uses_threshold(
    closed: bool,
    target: Seq<char>,
    level: Level,
    threshold: Level,
)
    ensures
        (!closed && passes(Seq::empty(), target, level, threshold)) == (!closed && admits(
            threshold,
            level,
        )),
{
    lemma_empty_filter_uses_base(target, level, threshold);
}

/// The plain-text line of a record, without the newline:
/// `TIMESTAMP [LEVEL] MESSAGE`, then ` (LOCATION)` when locations are on and
/// the record has one.
pub open spec fn plain_record(entry: LogEntry, include_location: bool) -> Seq<char> {
    let location = location_text(entry.file@, entry.line, entry.target@);
    entry.timestamp.text() + " ["@ + entry.level.name() + "] "@ + entry.message@ + (
    if include_location && location.len() > 0 {
        " ("@ + location + ")"@
    } else {
        Seq::empty()
    })
}

/// Plain text carries no structured fields: two records that differ only
/// in their fields (context included) have the same plain-text line.
pub proof fn lemma_plain_text_ignores_fields(a: LogEntry, b: LogEntry, include_location: bool)
    requires
        a.timestamp == b.timestamp,
        a.level == b.level,
        a.message@ == b.message@,
        a.target@ == b.target@,
        a.file@ == b.file@,
        a.line == b.line,
    ensures
        plain_record(a, include_location) == plain_record(b, include_location),
{
}

/// Format a record as plain text into `out` as UTF-8, appending a trailing
/// newline.
pub fn format_record(entry: &LogEntry, include_location: bool, out: &mut Vec<u8>)
    ensures
        final(out)@ == old(out)@ + encode_utf8(plain_record(*entry, include_location)) + seq![10u8],
{
    let mut line = entry.timestamp.to_string();
    line.append(" [");
    line.append(entry.level.as_str());
    line.append("] ");
    line.append(entry.message.as_str());
    if include_location {
        let location = entry.location();
        if !location.as_str().is_empty() {
            line.append(" (");
            line.append(location.as_str());
            line.append(")");
        }
    }
    assert(line@ =~= plain_record(*entry, include_location));
    append_utf8(out, line.as_str());
    out.push(10u8);
}

/// Format a record into `out` as the logger is configured: a JSON object
/// line when `json` holds, otherwise the plain-text line; both end in a
/// newline.
pub fn render_record(entry: &LogEntry, json: bool, include_location: bool, out: &mut Vec<u8>)
    ensures
        final(out)@ == old(out)@ + (if json {
            encode_utf8(json_record(*entry, include_location))
        } else {
            encode_utf8(plain_record(*entry, include_location)) + seq![10u8]
        }),
{
    if json {
        write_record(entry, include_location, out);
    } else {
        format_record(entry, include_location, out);
    }
}

/// Where the writer sends a formatted record.
#[derive(Debug, Clone, Copy, PartialEq, Eq, Structural)]
pub enum Route {
    /// The configured sink.
    Sink,
    /// Standard error, after the sink has failed too often.
    Stderr,
}

/// The writer's record of sink failures.
#[derive(Debug, Clone, Copy, PartialEq, Eq, Structural)]
pub struct WriterState {
    consecutive_errors: usize,
    degraded: bool,
}

/// The writer state after a write to the sink that succeeded (`ok`) or
/// failed: success resets the failure count; a failure counts, and the
/// [`MAX_CONSECUTIVE_WRITE_ERRORS`]-th in a row switches to standard error.
pub open spec fn after_write(errors: int, degraded: bool, ok: bool) -> (int, bool) {
    if ok {
        (0, degraded)
    } else {
        (errors + 1, degraded || errors + 1 >= MAX_CONSECUTIVE_WRITE_ERRORS)
    }
}

impl WriterState {
    /// Number of sink failures since the last success.
    pub closed spec fn errors(self) -> int {
        self.consecutive_errors as int
    }

    /// Whether the writer has switched to standard error for good.
    pub closed spec fn is_degraded(self) -> bool {
        self.degraded
    }

    /// A healthy writer counts fewer failures than the threshold.
    pub open spec fn wf(self) -> bool {
        !self.is_degraded() ==> self.errors() < MAX_CONSECUTIVE_WRITE_ERRORS
    }

    /// A fresh writer: no failures, writing to its sink.
    pub fn new() -> (s: WriterState)
        ensures
            s.errors() == 0,
            !s.is_degraded(),
            s.wf(),
    {
        WriterState { consecutive_errors: 0, degraded: false }
    }

    /// Whether the writer has switched to standard error.
    pub fn degraded(&self) -> (r: bool)
        ensures
            r == self.is_degraded(),
    {
        self.degraded
    }

    /// Where the next record goes: the sink until the writer has degraded,
    /// standard error afterwards.
    pub fn route(&self) -> (r: Route)
        ensures
            r == (if self.is_degraded() { Route::Stderr } else { Route::Sink }),
    {
        if self.degraded {
            Route::Stderr
        } else {
            Route::Sink
        }
    }

    /// Record the outcome of a write to the sink; returns whether this write
    /// switched the writer to standard error (so the switch is announced
    /// once).
    pub fn record_write(&mut self, ok: bool) -> (switched: bool)
        requires
            old(self).wf(),
            !old(self).is_degraded(),
        ensures
            final(self).wf(),
            (final(self).errors(), final(self).is_degraded()) == after_write(
                old(self).errors(),
                old(self).is_degraded(),
                ok,
            ),
            switched == (final(self).is_degraded() && !old(self).is_degraded()),
    {
        if ok {
            self.consecutive_errors = 0;
            false
        } else {
            self.consecutive_errors = self.consecutive_errors + 1;
            if self.consecutive_errors >= MAX_CONSECUTIVE_WRITE_ERRORS {
                self.degraded = true;
                true
            } else {
                false
            }
        }
    }

    /// Record that handling a message panicked: the writer switches to
    /// standard error.
    pub fn record_panic(&mut self)
        ensures
            final(self).is_degraded(),
            final(self).errors() == old(self).errors(),
            final(self).wf(),
    {
        self.degraded = true;
    }
}

/// The state after `n` failed writes in a row from `(errors, degraded)`,
/// writing to the sink only while not degraded.
pub open spec fn after_failures(errors: int, degraded: bool, n: nat) -> (int, bool)
    decreases n,
{
    if n == 0 {
        (errors, degraded)
    } else {
        let prev = after_failures(errors, degraded, (n - 1) as nat);
        if prev.1 {
            prev
        } else {
            after_write(prev.0, prev.1, false)
        }
    }
}

/// A fresh writer keeps using its sink through the first
/// `MAX_CONSECUTIVE_WRITE_ERRORS - 1` failures in a row and falls back to
/// standard error at the next one, for good.
pub proof fn lemma_falls_back_after_repeated_failures(n: nat)
    ensures
        n < MAX_CONSECUTIVE_WRITE_ERRORS ==> after_failures(0, false, n) == (n as int, false),
        n >= MAX_CONSECUTIVE_WRITE_ERRORS ==> after_failures(0, false, n).1,
    decreases n,
{
    if n > 0 {
        lemma_falls_back_after_repeated_failures((n - 1) as nat);
    }
}

/// A success resets the failure count, so failures must be consecutive to
/// cause the fall-back.
pub proof fn lemma_success_resets(errors: int, degraded: bool)
    ensures
        after_write(errors, degraded, true) == (0int, degraded),
{
}

} // verus!
