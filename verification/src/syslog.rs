//! Syslog (RFC 3164) formatting: priorities, the legacy timestamp, program
//! identities and the datagram a record becomes.

use vstd::prelude::*;
use vstd::utf8::{
    char_is_scalar, decode_utf8, decode_utf8_encode_utf8, encode_scalar, encode_utf8,
    partial_valid_utf8_extend_ascii_block, valid_utf8,
};

use crate::calendar::{days_in_month, leap_days};
use crate::level::Level;
use crate::text::{
    append_utf8, chars_of, decimal, pad_left, push_char, push_decimal, push_padded, string_of, trim, trimmed,
};
use crate::time::Timestamp;

verus! {

/// Maximum size of a legacy syslog datagram (RFC 3164).
pub const MAX_SYSLOG_PACKET: usize = 1024;

/// Syslog facility, as defined in RFC 3164 / `syslog.h`.
///
/// The facility combines with the severity to form the record's priority
/// (`PRI = facility * 8 + severity`).
#[derive(Debug, Clone, Copy, PartialEq, Eq, Structural)]
pub enum Facility {
    /// Kernel messages.
    Kernel,
    /// User-level messages (the default).
    User,
    /// Mail system.
    Mail,
    /// System daemons.
    Daemon,
    /// Security / authorization messages.
    Auth,
    /// Messages generated internally by syslogd.
    Syslog,
    /// Line printer subsystem.
    Lpr,
    /// Network news subsystem.
    News,
    /// UUCP subsystem.
    Uucp,
    /// Clock daemon (cron/at).
    Cron,
    /// Security / authorization messages (private).
    AuthPriv,
    /// FTP daemon.
    Ftp,
    /// Reserved for local use.
    Local0,
    /// Reserved for local use.
    Local1,
    /// Reserved for local use.
    Local2,
    /// Reserved for local use.
    Local3,
    /// Reserved for local use.
    Local4,
    /// Reserved for local use.
    Local5,
    /// Reserved for local use.
    Local6,
    /// Reserved for local use.
    Local7,
}

impl Facility {
    /// The numeric facility code of `syslog.h`.
    pub open spec fn spec_code(self) -> u8 {
        match self {
            Facility::Kernel => 0,
            Facility::User => 1,
            Facility::Mail => 2,
            Facility::Daemon => 3,
            Facility::Auth => 4,
            Facility::Syslog => 5,
            Facility::Lpr => 6,
            Facility::News => 7,
            Facility::Uucp => 8,
            Facility::Cron => 9,
            Facility::AuthPriv => 10,
            Facility::Ftp => 11,
            Facility::Local0 => 16,
            Facility::Local1 => 17,
            Facility::Local2 => 18,
            Facility::Local3 => 19,
            Facility::Local4 => 20,
            Facility::Local5 => 21,
            Facility::Local6 => 22,
            Facility::Local7 => 23,
        }
    }

    /// The numeric facility code.
    #[verifier::when_used_as_spec(spec_code)]
    pub fn code(self) -> (c: u8)
        ensures
            c == self.spec_code(),
    {
        match self {
            Facility::Kernel => 0,
            Facility::User => 1,
            Facility::Mail => 2,
            Facility::Daemon => 3,
            Facility::Auth => 4,
            Facility::Syslog => 5,
            Facility::Lpr => 6,
            Facility::News => 7,
            Facility::Uucp => 8,
            Facility::Cron => 9,
            Facility::AuthPriv => 10,
            Facility::Ftp => 11,
            Facility::Local0 => 16,
            Facility::Local1 => 17,
            Facility::Local2 => 18,
            Facility::Local3 => 19,
            Facility::Local4 => 20,
            Facility::Local5 => 21,
            Facility::Local6 => 22,
            Facility::Local7 => 23,
        }
    }
}

/// The RFC 3164 severity of a level: `debug` (7) for `Trace` and `Debug`,
/// `info` (6), `warning` (4), `err` (3); `Off` maps to `debug`.
pub open spec fn severity_of(level: Level) -> u8 {
    match level {
        Level::Trace | Level::Debug => 7,
        Level::Info => 6,
        Level::Warn => 4,
        Level::Error => 3,
        Level::Off => 7,
    }
}

/// Map a [`Level`] to the RFC 3164 severity code.
pub fn level_to_severity(level: Level) -> (s: u8)
    ensures
        s == severity_of(level),
{
    match level {
        Level::Trace | Level::Debug => 7,
        Level::Info => 6,
        Level::Warn => 4,
        Level::Error => 3,
        Level::Off => 7,
    }
}

/// The priority of a record: `facility * 8 + severity`.
pub open spec fn priority(facility: Facility, level: Level) -> u8 {
    (facility.spec_code() * 8 + severity_of(level)) as u8
}

/// The RFC 3164 abbreviation of month `m`; `Jan` for a month out of range.
pub open spec fn month_abbrev(m: u8) -> Seq<char> {
    if m == 2 {
        "Feb"@
    } else if m == 3 {
        "Mar"@
    } else if m == 4 {
        "Apr"@
    } else if m == 5 {
        "May"@
    } else if m == 6 {
        "Jun"@
    } else if m == 7 {
        "Jul"@
    } else if m == 8 {
        "Aug"@
    } else if m == 9 {
        "Sep"@
    } else if m == 10 {
        "Oct"@
    } else if m == 11 {
        "Nov"@
    } else if m == 12 {
        "Dec"@
    } else {
        "Jan"@
    }
}

fn month_name(m: u8) -> (s: &'static str)
    ensures
        s@ == month_abbrev(m),
{
    if m == 2 {
        "Feb"
    } else if m == 3 {
        "Mar"
    } else if m == 4 {
        "Apr"
    } else if m == 5 {
        "May"
    } else if m == 6 {
        "Jun"
    } else if m == 7 {
        "Jul"
    } else if m == 8 {
        "Aug"
    } else if m == 9 {
        "Sep"
    } else if m == 10 {
        "Oct"
    } else if m == 11 {
        "Nov"
    } else if m == 12 {
        "Dec"
    } else {
        "Jan"
    }
}

/// The RFC 3164 timestamp text `MMM dd HH:MM:SS`, the day padded with a
/// space.
pub open spec fn rfc3164_text(ts: Timestamp) -> Seq<char> {
    month_abbrev(ts.month) + seq![' '] + pad_left(decimal(ts.day as nat), 2, ' ') + seq![' ']
        + pad_left(decimal(ts.hour as nat), 2, '0') + seq![':'] + pad_left(
        decimal(ts.minute as nat),
        2,
        '0',
    ) + seq![':'] + pad_left(decimal(ts.second as nat), 2, '0')
}

/// Format a timestamp as `MMM dd HH:MM:SS` (RFC 3164, day is space padded).
pub fn rfc3164_timestamp(ts: Timestamp) -> (s: String)
    ensures
        s@ == rfc3164_text(ts),
{
    let mut out = String::new();
    out.append(month_name(ts.month));
    push_char(&mut out, ' ');
    push_padded(&mut out, ts.day as u64, 2, ' ');
    push_char(&mut out, ' ');
    push_padded(&mut out, ts.hour as u64, 2, '0');
    push_char(&mut out, ':');
    push_padded(&mut out, ts.minute as u64, 2, '0');
    push_char(&mut out, ':');
    push_padded(&mut out, ts.second as u64, 2, '0');
    assert(out@ =~= rfc3164_text(ts));
    out
}

/// Whether `c` may stand in an RFC 3164 tag: an ASCII letter or digit, `_`,
/// `-` or `.`.
pub open spec fn is_tag_char(c: char) -> bool {
    ('a' <= c && c <= 'z') || ('A' <= c && c <= 'Z') || ('0' <= c && c <= '9') || c == '_' || c
        == '-' || c == '.'
}

/// The program identity used in datagrams: `xoslog` for an empty identity,
/// otherwise each character that may not stand in a tag replaced by `_`.
pub open spec fn sanitized(ident: Seq<char>) -> Seq<char> {
    if ident.len() == 0 {
        "xoslog"@
    } else {
        ident.map_values(|c: char| if is_tag_char(c) { c } else { '_' })
    }
}

/// Restrict a program identity to characters that are safe in an RFC 3164
/// tag: ASCII alphanumerics, `_`, `-` and `.`. Everything else becomes `_`.
pub fn sanitize_ident(ident: String) -> (r: String)
    ensures
        r@ == sanitized(ident@),
{
    let v = crate::text::chars_of(ident.as_str());
    if v.len() == 0 {
        return String::from_str("xoslog");
    }
    let mut out = String::new();
    let mut i: usize = 0;
    while i < v.len()
        invariant
            i <= v@.len(),
            v@ == ident@,
            out@ == v@.take(i as int).map_values(|c: char| if is_tag_char(c) { c } else { '_' }),
        decreases v@.len() - i,
    {
        let c = v[i];
        let ok = ('a' <= c && c <= 'z') || ('A' <= c && c <= 'Z') || ('0' <= c && c <= '9') || c
            == '_' || c == '-' || c == '.';
        push_char(&mut out, if ok { c } else { '_' });
        i = i + 1;
        assert(out@ =~= v@.take(i as int).map_values(|c: char| if is_tag_char(c) { c } else { '_' }));
    }
    assert(v@.take(i as int) =~= v@);
    out
}

/// The hostname a datagram reports, from the content of `/etc/hostname`
/// (`file`) and the `HOSTNAME` variable (`env`): the trimmed file content
/// when it is not blank, else the variable when it is not empty, else
/// `localhost`.
pub open spec fn chosen_hostname(file: Option<Seq<char>>, env: Option<Seq<char>>) -> Seq<char> {
    if file is Some && trim(file->0).len() > 0 {
        trim(file->0)
    } else if env is Some && env->0.len() > 0 {
        env->0
    } else {
        "localhost"@
    }
}

/// Choose the hostname a datagram reports; see [`chosen_hostname`].
pub fn hostname_from(file: Option<String>, env: Option<String>) -> (r: String)
    ensures
        r@ == chosen_hostname(
            match file {
                Some(f) => Some(f@),
                None => None,
            },
            match env {
                Some(e) => Some(e@),
                None => None,
            },
        ),
{
    if let Some(content) = &file {
        let host = trimmed(&chars_of(content.as_str()));
        if host.len() > 0 {
            return string_of(&host);
        }
    }
    if let Some(host) = env {
        if host.as_str().unicode_len() > 0 {
            return host;
        }
    }
    String::from_str("localhost")
}

/// The program identity: `name` (the file name of the program's path)
/// when there is one and it is not empty, else `xoslog`.
pub fn ident_or_default(name: Option<String>) -> (r: String)
    ensures
        r@ == match name {
            Some(n) => if n@.len() > 0 {
                n@
            } else {
                "xoslog"@
            },
            None => "xoslog"@,
        },
{
    match name {
        Some(n) => {
            if n.as_str().unicode_len() > 0 {
                n
            } else {
                String::from_str("xoslog")
            }
        },
        None => String::from_str("xoslog"),
    }
}

/// Where the delivery of one datagram stands: a sink without a socket
/// connects first; a failed send reconnects once and sends again.
#[derive(Debug, Clone, Copy, PartialEq, Eq, Structural)]
pub enum Delivery {
    /// Connecting, before the first send.
    Connecting,
    /// Sending for the first time.
    Sending,
    /// Reconnecting after a failed send.
    Reconnecting,
    /// Sending again after reconnecting.
    Resending,
    /// The datagram was sent.
    Delivered,
    /// The datagram could not be sent.
    Failed,
}

/// The state after the attempt of `state` succeeded (`ok`) or failed.
pub open spec fn delivery_after(state: Delivery, ok: bool) -> Delivery {
    match state {
        Delivery::Connecting => if ok { Delivery::Sending } else { Delivery::Failed },
        Delivery::Sending => if ok { Delivery::Delivered } else { Delivery::Reconnecting },
        Delivery::Reconnecting => if ok { Delivery::Resending } else { Delivery::Failed },
        Delivery::Resending => if ok { Delivery::Delivered } else { Delivery::Failed },
        _ => state,
    }
}

/// Whether a delivery has ended.
pub open spec fn delivery_done(state: Delivery) -> bool {
    state == Delivery::Delivered || state == Delivery::Failed
}

/// The state after the attempts with outcomes `outcomes`, in order.
pub open spec fn delivery_run(state: Delivery, outcomes: Seq<bool>) -> Delivery
    decreases outcomes.len(),
{
    if outcomes.len() == 0 {
        state
    } else {
        delivery_run(delivery_after(state, outcomes[0]), outcomes.drop_first())
    }
}

/// Where a delivery starts: sending when the sink holds a socket,
/// connecting otherwise.
pub fn delivery_start(connected: bool) -> (d: Delivery)
    ensures
        d == (if connected { Delivery::Sending } else { Delivery::Connecting }),
{
    if connected {
        Delivery::Sending
    } else {
        Delivery::Connecting
    }
}

/// The next state of a delivery after its current attempt.
pub fn delivery_next(state: Delivery, ok: bool) -> (d: Delivery)
    ensures
        d == delivery_after(state, ok),
{
    match state {
        Delivery::Connecting => if ok { Delivery::Sending } else { Delivery::Failed },
        Delivery::Sending => if ok { Delivery::Delivered } else { Delivery::Reconnecting },
        Delivery::Reconnecting => if ok { Delivery::Resending } else { Delivery::Failed },
        Delivery::Resending => if ok { Delivery::Delivered } else { Delivery::Failed },
        _ => state,
    }
}

/// A delivery ends after at most four attempts (connect, send, reconnect,
/// send again), so a datagram is sent at most twice.
pub proof fn lemma_delivery_ends(connected: bool, outcomes: Seq<bool>)
    requires
        outcomes.len() >= 4,
    ensures
        delivery_done(
            delivery_run(if connected { Delivery::Sending } else { Delivery::Connecting }, outcomes),
        ),
{
    reveal_with_fuel(delivery_run, 5);
    let s0 = if connected { Delivery::Sending } else { Delivery::Connecting };
    lemma_done_stays(delivery_run(s0, outcomes.take(4)), outcomes.skip(4));
    lemma_run_split(s0, outcomes, 4);
    assert(outcomes.take(4).drop_first().drop_first().drop_first().drop_first().len() == 0);
}

proof fn lemma_done_stays(state: Delivery, outcomes: Seq<bool>)
    requires
        delivery_done(state),
    ensures
        delivery_run(state, outcomes) == state,
    decreases outcomes.len(),
{
    if outcomes.len() > 0 {
        lemma_done_stays(state, outcomes.drop_first());
    }
}

proof fn lemma_run_split(state: Delivery, outcomes: Seq<bool>, k: int)
    requires
        0 <= k <= outcomes.len(),
    ensures
        delivery_run(state, outcomes) == delivery_run(delivery_run(state, outcomes.take(k)), outcomes.skip(k)),
    decreases k,
{
    if k == 0 {
        assert(outcomes.skip(0) =~= outcomes);
        assert(outcomes.take(0) =~= Seq::<bool>::empty());
    } else {
        lemma_run_split(delivery_after(state, outcomes[0]), outcomes.drop_first(), k - 1);
        assert(outcomes.take(k).drop_first() =~= outcomes.drop_first().take(k - 1));
        assert(outcomes.drop_first().skip(k - 1) =~= outcomes.skip(k));
    }
}

/// Facility codes are those of `syslog.h`: no two facilities share a
/// code; `kern` through `ftp` take 0 to 11 in order, and `local0` through
/// `local7` take 16 to 23 in order.
pub proof fn lemma_facility_codes(a: Facility, b: Facility)
    ensures
        a != b ==> a.spec_code() != b.spec_code(),
        0 == Facility::Kernel.spec_code() < Facility::User.spec_code() < Facility::Mail.spec_code()
            < Facility::Daemon.spec_code() < Facility::Auth.spec_code() < Facility::Syslog.spec_code()
            < Facility::Lpr.spec_code() < Facility::News.spec_code() < Facility::Uucp.spec_code()
            < Facility::Cron.spec_code() < Facility::AuthPriv.spec_code() < Facility::Ftp.spec_code()
            == 11,
        16 == Facility::Local0.spec_code() < Facility::Local1.spec_code() < Facility::Local2.spec_code()
            < Facility::Local3.spec_code() < Facility::Local4.spec_code() < Facility::Local5.spec_code()
            < Facility::Local6.spec_code() < Facility::Local7.spec_code() == 23,
{
}

/// The priority of a datagram encodes both halves: a daemon reading it
/// recovers the facility's code as `PRI / 8` and the severity as `PRI % 8`.
pub proof fn lemma_priority_decodes(facility: Facility, level: Level)
    ensures
        priority(facility, level) / 8 == facility.spec_code(),
        priority(facility, level) % 8 == severity_of(level),
        severity_of(level) < 8,
{
}

/// The RFC 3164 month abbreviations are `Jan` to `Dec` in calendar order:
/// months 1 to 12 get distinct abbreviations, `Feb` is the short month,
/// the 30-day months are `Apr`, `Jun`, `Sep` and `Nov`, and a month out of
/// range reads as `Jan`.
pub proof fn lemma_month_abbrevs(m1: u8, m2: u8)
    ensures
        seq![
            month_abbrev(1),
            month_abbrev(2),
            month_abbrev(3),
            month_abbrev(4),
            month_abbrev(5),
            month_abbrev(6),
            month_abbrev(7),
            month_abbrev(8),
            month_abbrev(9),
            month_abbrev(10),
            month_abbrev(11),
            month_abbrev(12),
        ] == seq![
            "Jan"@,
            "Feb"@,
            "Mar"@,
            "Apr"@,
            "May"@,
            "Jun"@,
            "Jul"@,
            "Aug"@,
            "Sep"@,
            "Oct"@,
            "Nov"@,
            "Dec"@,
        ],
        1 <= m1 <= 12 && 1 <= m2 <= 12 && m1 != m2 ==> month_abbrev(m1) != month_abbrev(m2),
        1 <= m1 <= 12 ==> (month_abbrev(m1) == "Feb"@ <==> days_in_month(2001, m1 as int) < 30),
        1 <= m1 <= 12 ==> (days_in_month(2001, m1 as int) == 30 <==> (month_abbrev(m1) == "Apr"@
            || month_abbrev(m1) == "Jun"@ || month_abbrev(m1) == "Sep"@ || month_abbrev(m1)
            == "Nov"@)),
        !(1 <= m1 <= 12) ==> month_abbrev(m1) == "Jan"@,
{
    reveal_strlit("Jan");
    reveal_strlit("Feb");
    reveal_strlit("Mar");
    reveal_strlit("Apr");
    reveal_strlit("May");
    reveal_strlit("Jun");
    reveal_strlit("Jul");
    reveal_strlit("Aug");
    reveal_strlit("Sep");
    reveal_strlit("Oct");
    reveal_strlit("Nov");
    reveal_strlit("Dec");
    assert(leap_days(2001) == 0);
    if 1 <= m1 <= 12 && 1 <= m2 <= 12 && m1 != m2 && month_abbrev(m1) == month_abbrev(m2) {
        let a = month_abbrev(m1);
        let b = month_abbrev(m2);
        assert(a[0] == b[0] && a[1] == b[1] && a[2] == b[2]);
    }
    if 1 <= m1 <= 12 && m1 != 2 && month_abbrev(m1) == "Feb"@ {
        assert(month_abbrev(m1)[0] == 'F');
    }
    if 1 <= m1 <= 12 {
        let a = month_abbrev(m1);
        if a == "Apr"@ {
            assert(a[0] == 'A' && a[1] == 'p' && a[2] == 'r');
        }
        if a == "Jun"@ {
            assert(a[0] == 'J' && a[1] == 'u' && a[2] == 'n');
        }
        if a == "Sep"@ {
            assert(a[0] == 'S' && a[1] == 'e' && a[2] == 'p');
        }
        if a == "Nov"@ {
            assert(a[0] == 'N' && a[1] == 'o' && a[2] == 'v');
        }
    }
}

/// Sanitizing an identity keeps every ASCII letter (of either case), digit,
/// `_`, `-` and `.` in place and turns each other character into `_`, so an
/// identity made only of such characters comes back unchanged; an empty
/// identity becomes `xoslog`.
pub proof fn lemma_sanitize_keeps_safe(ident: Seq<char>)
    ensures
        ident.len() == 0 ==> sanitized(ident) == "xoslog"@,
        ident.len() > 0 ==> sanitized(ident).len() == ident.len(),
        ident.len() > 0 ==> forall|i: int|
            0 <= i < ident.len() ==> {
                let c = ident[i];
                let safe = ('A' <= c && c <= 'Z') || ('a' <= c && c <= 'z') || ('0' <= c && c <= '9')
                    || c == '_' || c == '-' || c == '.';
                #[trigger] sanitized(ident)[i] == if safe {
                    c
                } else {
                    '_'
                }
            },
        ident.len() > 0 && (forall|i: int|
            0 <= i < ident.len() ==> {
                let c = #[trigger] ident[i];
                ('A' <= c && c <= 'Z') || ('a' <= c && c <= 'z') || ('0' <= c && c <= '9') || c == '_'
                    || c == '-' || c == '.'
            }) ==> sanitized(ident) == ident,
{
    if ident.len() > 0 {
        assert(sanitized(ident) =~= ident.map_values(|c: char| if is_tag_char(c) { c } else { '_' }));
        if forall|i: int|
            0 <= i < ident.len() ==> {
                let c = #[trigger] ident[i];
                ('A' <= c && c <= 'Z') || ('a' <= c && c <= 'z') || ('0' <= c && c <= '9') || c == '_'
                    || c == '-' || c == '.'
            } {
            assert(sanitized(ident) =~= ident);
        }
    } else {
        reveal_strlit("xoslog");
    }
}

/// What `String::from_utf8_lossy` makes of `bytes`: the decoded text with
/// each invalid sequence replaced by U+FFFD.
pub uninterp spec fn lossy_decode(bytes: Seq<u8>) -> Seq<char>;

/// `String::from_utf8_lossy`: the text of `bytes`, invalid sequences
/// replaced by U+FFFD. The contract names the result; of it, it states only
/// what std documents plainly, that valid UTF-8 decodes unchanged.
#[verifier::external_body]
fn utf8_lossy(bytes: &[u8]) -> (s: String)
    ensures
        s@ == lossy_decode(bytes@),
        valid_utf8(bytes@) ==> s@ == decode_utf8(bytes@),
{
    String::from_utf8_lossy(bytes).into_owned()
}

/// The RFC 3164 header of a datagram: `<PRI>TIMESTAMP HOSTNAME TAG[PID]: `.
pub open spec fn packet_header(
    facility: Facility,
    hostname: Seq<char>,
    ident: Seq<char>,
    pid: u32,
    level: Level,
    timestamp: Timestamp,
) -> Seq<char> {
    seq!['<'] + decimal(priority(facility, level) as nat) + seq!['>'] + rfc3164_text(timestamp)
        + seq![' '] + hostname + seq![' '] + ident + seq!['['] + decimal(pid as nat) + "]: "@
}

/// The message part of a datagram: `formatted` without one trailing
/// newline, cut to the bytes that fit after a header of `header_len` bytes
/// in a legacy datagram.
pub open spec fn packet_message(formatted: Seq<u8>, header_len: int) -> Seq<u8> {
    let msg = if formatted.len() > 0 && formatted.last() == 10 {
        formatted.drop_last()
    } else {
        formatted
    };
    let budget = packet_budget(header_len);
    msg.take(if msg.len() < budget { msg.len() as int } else { budget })
}

/// The number of bytes in the UTF-8 encoding of `c`.
pub open spec fn utf8_width(c: char) -> int {
    if (c as u32) < 0x80 {
        1
    } else if (c as u32) < 0x800 {
        2
    } else if (c as u32) < 0x10000 {
        3
    } else {
        4
    }
}

/// The longest prefix of `s` whose UTF-8 encoding takes at most `budget`
/// bytes.
pub open spec fn fitting_prefix(s: Seq<char>, budget: int) -> Seq<char>
    decreases s.len(),
{
    if s.len() == 0 || utf8_width(s[0]) > budget {
        Seq::empty()
    } else {
        seq![s[0]] + fitting_prefix(s.drop_first(), budget - utf8_width(s[0]))
    }
}

/// The bytes left for the message after a header of `header_len` bytes in
/// a legacy datagram.
pub open spec fn packet_budget(header_len: int) -> int {
    if header_len < MAX_SYSLOG_PACKET {
        MAX_SYSLOG_PACKET - header_len
    } else {
        0
    }
}

/// The datagram of a record: the header, then the message decoded as
/// `String::from_utf8_lossy` does and cut to the characters that still fit
/// in a legacy datagram, encoded as UTF-8.
pub open spec fn packet_bytes(
    facility: Facility,
    hostname: Seq<char>,
    ident: Seq<char>,
    pid: u32,
    level: Level,
    timestamp: Timestamp,
    formatted: Seq<u8>,
) -> Seq<u8> {
    let header = packet_header(facility, hostname, ident, pid, level, timestamp);
    let header_len = encode_utf8(header).len() as int;
    encode_utf8(
        header + fitting_prefix(
            lossy_decode(packet_message(formatted, header_len)),
            packet_budget(header_len),
        ),
    )
}

/// Build an RFC 3164 datagram from a formatted record.
pub fn build_packet(
    facility: Facility,
    hostname: &str,
    ident: &str,
    pid: u32,
    level: Level,
    timestamp: Timestamp,
    formatted: &[u8],
) -> (p: Vec<u8>)
    ensures
        p@ == packet_bytes(facility, hostname@, ident@, pid, level, timestamp, formatted@),
        ({
            let header = encode_utf8(packet_header(facility, hostname@, ident@, pid, level, timestamp));
            let message = packet_message(formatted@, header.len() as int);
            header.len() <= MAX_SYSLOG_PACKET && valid_utf8(message) ==> p@ == header + message
        }),
        ({
            let header = encode_utf8(packet_header(facility, hostname@, ident@, pid, level, timestamp));
            header.len() <= MAX_SYSLOG_PACKET && (forall|i: int|
                0 <= i < formatted@.len() ==> formatted@[i] < 128) ==> p@ == header + packet_message(
                formatted@,
                header.len() as int,
            )
        }),
        encode_utf8(packet_header(facility, hostname@, ident@, pid, level, timestamp)).len()
            <= MAX_SYSLOG_PACKET ==> p@.len() <= MAX_SYSLOG_PACKET,
{
    let pri = facility.code() * 8 + level_to_severity(level);
    let mut header = String::new();
    push_char(&mut header, '<');
    push_decimal(&mut header, pri as u64);
    push_char(&mut header, '>');
    header.append(rfc3164_timestamp(timestamp).as_str());
    push_char(&mut header, ' ');
    header.append(hostname);
    push_char(&mut header, ' ');
    header.append(ident);
    push_char(&mut header, '[');
    push_decimal(&mut header, pid as u64);
    header.append("]: ");
    assert(header@ =~= packet_header(facility, hostname@, ident@, pid, level, timestamp));
    let header_len = header.as_str().as_bytes().len();
    assert(header_len == encode_utf8(header@).len());
    let mut end = formatted.len();
    if end > 0 && formatted[end - 1] == 10 {
        end = end - 1;
    }
    let ghost trimmed_len = end;
    let budget = MAX_SYSLOG_PACKET.saturating_sub(header_len);
    assert(budget == if header_len < 1024 { 1024 - header_len } else { 0 });
    if end > budget {
        end = budget;
    }
    let mut msg: Vec<u8> = Vec::new();
    let mut i: usize = 0;
    while i < end
        invariant
            end <= formatted@.len(),
            i <= end,
            msg@ == formatted@.take(i as int),
        decreases end - i,
    {
        msg.push(formatted[i]);
        i = i + 1;
        assert(msg@ =~= formatted@.take(i as int));
    }
    proof {
        let m = packet_message(formatted@, encode_utf8(header@).len() as int);
        let trimmed_msg = if formatted@.len() > 0 && formatted@.last() == 10 {
            formatted@.drop_last()
        } else {
            formatted@
        };
        assert(trimmed_msg.len() == trimmed_len);
        assert(msg@ =~= m);
    }
    let text = utf8_lossy(msg.as_slice());
    let kept = fit_text(text.as_str(), budget);
    proof {
        let b = packet_budget(header_len as int);
        lemma_encode_utf8_concat(header@, kept@);
        let m = packet_message(formatted@, header_len as int);
        if header_len <= MAX_SYSLOG_PACKET && (forall|i: int|
            0 <= i < formatted@.len() ==> formatted@[i] < 128) {
            assert forall|i: int| 0 <= i < m.len() implies m[i] < 128 by {
                assert(m[i] == formatted@[i]);
            }
            lemma_ascii_is_valid_utf8(m);
        }
        if header_len <= MAX_SYSLOG_PACKET && valid_utf8(m) {
            decode_utf8_encode_utf8(m);
            lemma_fitting_prefix_whole(text@, b);
        }
    }
    let mut out = header;
    out.append(kept.as_str());
    let mut packet: Vec<u8> = Vec::new();
    append_utf8(&mut packet, out.as_str());
    assert(packet@ =~= packet_bytes(facility, hostname@, ident@, pid, level, timestamp, formatted@));
    packet
}

/// The longest prefix of `text` whose UTF-8 encoding takes at most
/// `budget` bytes: the text cut to whole characters.
pub fn fit_text(text: &str, budget: usize) -> (r: String)
    ensures
        r@ == fitting_prefix(text@, budget as int),
        encode_utf8(r@).len() <= budget,
{
    let chars = chars_of(text);
    let mut kept = String::new();
    let mut used: usize = 0;
    let mut k: usize = 0;
    let ghost b = budget as int;
    let mut full = false;
    assert(chars@.skip(0) =~= chars@);
    assert(chars@.take(0) + fitting_prefix(chars@, b) =~= fitting_prefix(chars@, b));
    while k < chars.len() && !full
        invariant
            full ==> fitting_prefix(chars@.skip(k as int), b - used) == Seq::<char>::empty(),
            b == budget,
            used <= budget,
            k <= chars@.len(),
            kept@ == chars@.take(k as int),
            fitting_prefix(chars@, b) == chars@.take(k as int) + fitting_prefix(
                chars@.skip(k as int),
                b - used,
            ),
        decreases chars@.len() - k + (if full { 0int } else { 1int }),
    {
        let c = chars[k];
        let w = char_width(c);
        assert(chars@.skip(k as int)[0] == c);
        assert(chars@.skip(k as int).drop_first() =~= chars@.skip(k + 1));
        if w > budget - used {
            full = true;
        } else {
            push_char(&mut kept, c);
            used = used + w;
            k = k + 1;
            assert(chars@.take(k as int) =~= chars@.take(k - 1) + seq![c]);
            assert(chars@.take(k - 1) + (seq![c] + fitting_prefix(chars@.skip(k as int), b - used))
                =~= chars@.take(k as int) + fitting_prefix(chars@.skip(k as int), b - used));
        }
    }
    proof {
        if k == chars@.len() {
            assert(chars@.skip(k as int) =~= Seq::<char>::empty());
        }
        assert(chars@.take(k as int) + Seq::<char>::empty() =~= chars@.take(k as int));
        lemma_fitting_prefix_fits(text@, b);
    }
    kept
}

/// The number of bytes in the UTF-8 encoding of `c`.
fn char_width(c: char) -> (w: usize)
    ensures
        w == utf8_width(c),
{
    let u = c as u32;
    if u < 0x80 {
        1
    } else if u < 0x800 {
        2
    } else if u < 0x10000 {
        3
    } else {
        4
    }
}

/// The encoding of a character takes [`utf8_width`] bytes.
proof fn lemma_encode_scalar_width(c: char)
    ensures
        encode_scalar(c as u32).len() == utf8_width(c),
{
    char_is_scalar(c);
}

/// The fitting prefix of `s` encodes in at most `budget` bytes.
proof fn lemma_fitting_prefix_fits(s: Seq<char>, budget: int)
    requires
        budget >= 0,
    ensures
        encode_utf8(fitting_prefix(s, budget)).len() <= budget,
    decreases s.len(),
{
    if s.len() > 0 && utf8_width(s[0]) <= budget {
        let rest = fitting_prefix(s.drop_first(), budget - utf8_width(s[0]));
        lemma_fitting_prefix_fits(s.drop_first(), budget - utf8_width(s[0]));
        lemma_encode_scalar_width(s[0]);
        let p = seq![s[0]] + rest;
        assert(p[0] == s[0]);
        assert(p.drop_first() =~= rest);
    }
}

/// A text whose encoding already fits is its own fitting prefix.
proof fn lemma_fitting_prefix_whole(s: Seq<char>, budget: int)
    requires
        encode_utf8(s).len() <= budget,
    ensures
        fitting_prefix(s, budget) == s,
    decreases s.len(),
{
    if s.len() == 0 {
        assert(s =~= Seq::<char>::empty());
    } else {
        lemma_encode_scalar_width(s[0]);
        lemma_fitting_prefix_whole(s.drop_first(), budget - utf8_width(s[0]));
        assert(seq![s[0]] + s.drop_first() =~= s);
    }
}

/// The UTF-8 encoding of a concatenation is the concatenation of the
/// encodings.
proof fn lemma_encode_utf8_concat(a: Seq<char>, b: Seq<char>)
    ensures
        encode_utf8(a + b) == encode_utf8(a) + encode_utf8(b),
    decreases a.len(),
{
    if a.len() == 0 {
        assert(a + b =~= b);
    } else {
        lemma_encode_utf8_concat(a.drop_first(), b);
        assert((a + b).drop_first() =~= a.drop_first() + b);
        assert((a + b)[0] == a[0]);
    }
}

/// A sequence of ASCII bytes is valid UTF-8.
proof fn lemma_ascii_is_valid_utf8(bytes: Seq<u8>)
    requires
        forall|i: int| 0 <= i < bytes.len() ==> bytes[i] < 128,
    ensures
        valid_utf8(bytes),
{
    assert(valid_utf8(bytes.subrange(0, 0))) by {
        assert(bytes.subrange(0, 0) =~= Seq::<u8>::empty());
    }
    partial_valid_utf8_extend_ascii_block(bytes, 0, bytes.len() as int);
    assert(bytes.subrange(0, bytes.len() as int) =~= bytes);
}

} // verus!
