# xoslog, verified

A logging library for Linux whose decisions and formats are specified and
proved with Verus.

## Layout

- `src/` — the verified library (crate `lib`):
  - `level.rs` — severity levels, their names and parsing;
  - `filter.rs` — per-target filters (`myapp=debug,hyper=warn`): the
    grammar, longest-match lookup and admission;
  - `calendar.rs`, `time.rs` — the proleptic Gregorian calendar, Hinnant's
    day-to-date conversion and RFC 3339 timestamps;
  - `entry.rs`, `context.rs` — records, typed fields and contextual scopes;
  - `json.rs`, `logger.rs`, `syslog.rs` — the JSON, plain-text and RFC 3164
    record formats, the builder settings, admission and the writer's
    fall-back policy;
  - `sink.rs` — size-based rotation plans for log files;
  - `text.rs` — character and decimal helpers.
- `app/` — the running logger around the library: terminal, file and
  syslog sinks, the queue and writer thread, the global logger and macros,
  thread-local scopes and the `XOSLOG` environment variable.
- `tests/` — tests of the library on concrete values.
