//! The process lifecycle log: the lines it writes (START, STOP, UNCLEAN,
//! PANIC, each behind an RFC 3339 timestamp) and how a boot decides whether
//! the previous run ended cleanly. Opening and appending to the file is the
//! caller's business; this module only decides what goes in it.

use vstd::prelude::*;
use crate::text::{
    chars_of, copy_range, find_char, find_char_from, is_whitespace, lemma_find_char, lemma_scan,
    not_white, push_char, push_chars, scan, skip_white, white, white_space,
};

verus! {

/// The ASCII digit for `d < 10`.
pub open spec fn digit(d: nat) -> char {
    ((d + 48) as u8) as char
}

/// The decimal digits of `n`, most significant first, without leading zeros.
pub open spec fn decimal(n: nat) -> Seq<char>
    decreases n,
{
    if n < 10 {
        seq![digit(n)]
    } else {
        decimal(n / 10).push(digit(n % 10))
    }
}

/// The number a run of ASCII digits spells.
pub open spec fn digits_value(s: Seq<char>) -> int
    decreases s.len(),
{
    if s.len() == 0 {
        0
    } else {
        10 * digits_value(s.drop_last()) + (s.last() as int - 48)
    }
}

/// Reading back the decimal digits of `n` gives `n`.
pub proof fn lemma_decimal_value(n: nat)
    ensures
        digits_value(decimal(n)) == n,
    decreases n,
{
    if n < 10 {
        let d = decimal(n);
        assert(d.drop_last() =~= Seq::<char>::empty());
        assert(digits_value(d.drop_last()) == 0);
        assert(d.last() == digit(n));
        assert(digit(n) as int == n + 48);
    } else {
        let d = decimal(n);
        lemma_decimal_value(n / 10);
        assert(d.drop_last() =~= decimal(n / 10));
        assert(d.last() == digit(n % 10));
        assert(digit(n % 10) as int == n % 10 + 48);
        assert(digits_value(d) == 10 * digits_value(d.drop_last()) + (d.last() as int - 48));
    }
}

/// The decimal form of `n` is a non-empty run of ASCII digits.
pub proof fn lemma_decimal_digits(n: nat)
    ensures
        decimal(n).len() >= 1,
        forall|i: int| 0 <= i < decimal(n).len() ==> '0' <= #[trigger] decimal(n)[i] <= '9',
    decreases n,
{
    if n >= 10 {
        lemma_decimal_digits(n / 10);
        assert(digit(n % 10) as int == n % 10 + 48);
        assert forall|i: int| 0 <= i < decimal(n).len() implies '0' <= #[trigger] decimal(n)[i] <= '9' by {
            if i < decimal(n / 10).len() {
                assert(decimal(n)[i] == decimal(n / 10)[i]);
            }
        }
    } else {
        assert(digit(n) as int == n + 48);
    }
}

/// Different numbers have different decimal digits.
pub proof fn lemma_decimal_injective(a: nat, b: nat)
    requires
        decimal(a) == decimal(b),
    ensures
        a == b,
{
    lemma_decimal_value(a);
    lemma_decimal_value(b);
}

/// `n` in decimal, padded with leading zeros to at least `width` digits
/// (`format!("{n:0width$}")`).
pub open spec fn padded(n: nat, width: nat) -> Seq<char> {
    let d = decimal(n);
    if d.len() < width {
        Seq::new((width - d.len()) as nat, |i: int| '0') + d
    } else {
        d
    }
}

fn digit_char(d: u64) -> (c: char)
    requires
        d < 10,
    ensures
        c == digit(d as nat),
{
    let b: u8 = (d as u8) + 48;
    b as char
}

/// Number of decimal digits of `n`.
fn decimal_len(n: u64) -> (k: u64)
    ensures
        k == decimal(n as nat).len(),
        1 <= k,
        n >= 10 ==> k <= n / 10 + 1,
        k <= n + 1,
    decreases n,
{
    if n < 10 {
        1
    } else {
        let k = decimal_len(n / 10);
        k + 1
    }
}

/// Appends `n` in decimal.
pub fn push_decimal(out: &mut String, n: u64)
    ensures
        final(out)@ == old(out)@ + decimal(n as nat),
    decreases n,
{
    if n < 10 {
        push_char(out, digit_char(n));
    } else {
        push_decimal(out, n / 10);
        push_char(out, digit_char(n % 10));
        assert(out@ =~= old(out)@ + decimal(n as nat));
    }
}

/// Appends `n` in decimal, zero-padded to `width` digits.
pub fn push_padded(out: &mut String, n: u64, width: usize)
    ensures
        final(out)@ == old(out)@ + padded(n as nat, width as nat),
{
    let k64 = decimal_len(n);
    let ghost start = out@;
    if k64 < width as u64 {
        let k = k64 as usize;
        let mut z: usize = 0;
        while z < width - k
            invariant
                k < width,
                z <= width - k,
                out@ == start + Seq::new(z as nat, |i: int| '0'),
            decreases width - k - z,
        {
            push_char(out, '0');
            assert(out@ =~= start + Seq::new((z + 1) as nat, |i: int| '0'));
            z = z + 1;
        }
    }
    let ghost mid = out@;
    push_decimal(out, n);
    assert(out@ =~= start + padded(n as nat, width as nat));
}

/// Days since 1970-01-01 to (year, month, day) in the proleptic Gregorian
/// calendar: Howard Hinnant's `civil_from_days`, with Euclidean division.
pub open spec fn civil(days: int) -> (int, int, int) {
    let z = days + 719468;
    let era = z / 146097;
    let doe = z - era * 146097;
    let yoe = (doe - doe / 1460 + doe / 36524 - doe / 146096) / 365;
    let doy = doe - (365 * yoe + yoe / 4 - yoe / 100);
    let mp = (5 * doy + 2) / 153;
    let day = doy - (153 * mp + 2) / 5 + 1;
    let month = if mp < 10 {
        mp + 3
    } else {
        mp - 9
    };
    let year = yoe + era * 400 + if month <= 2 {
        1int
    } else {
        0int
    };
    (year, month, day)
}

proof fn lemma_civil_ranges(z: int, era: int, doe: int)
    requires
        era == z / 146097,
        doe == z - era * 146097,
    ensures
        0 <= doe < 146097,
{
    assert(0 <= doe < 146097) by (nonlinear_arith)
        requires
            era == z / 146097,
            doe == z - era * 146097,
    ;
}

/// Days since 1970-01-01 to (year, month, day) in the Gregorian calendar
/// (Howard Hinnant's algorithm). The month is 1 to 12 and the day 1 to 31.
pub fn civil_from_days(days: i64) -> (r: (i64, u32, u32))
    requires
        days <= i64::MAX - 719468,
    ensures
        r.0 == civil(days as int).0,
        r.1 == civil(days as int).1,
        r.2 == civil(days as int).2,
        1 <= r.1 <= 12,
        1 <= r.2 <= 31,
{
    let z: i64 = days + 719468;
    let era: i64 = z.checked_div_euclid(146097).unwrap();
    proof {
        lemma_civil_ranges(z as int, era as int, z - era * 146097);
        assert(-i64::MAX / 146097 - 1 <= era <= i64::MAX / 146097) by (nonlinear_arith)
            requires
                era == z / 146097,
        ;
    }
    let doe: i64 = z - era * 146097;
    assert(0 <= doe / 1460 <= 100) by (nonlinear_arith)
        requires
            0 <= doe < 146097,
    ;
    assert(0 <= doe / 36524 <= 4) by (nonlinear_arith)
        requires
            0 <= doe < 146097,
    ;
    assert(0 <= doe / 146096 <= 1) by (nonlinear_arith)
        requires
            0 <= doe < 146097,
    ;
    let yoe: i64 = (doe - doe / 1460 + doe / 36524 - doe / 146096) / 365;
    assert(0 <= yoe <= 400) by (nonlinear_arith)
        requires
            0 <= doe < 146097,
            yoe == (doe - doe / 1460 + doe / 36524 - doe / 146096) / 365,
            0 <= doe / 1460 <= 100,
            0 <= doe / 36524 <= 4,
            0 <= doe / 146096 <= 1,
    ;
    let doy: i64 = doe - (365 * yoe + yoe / 4 - yoe / 100);
    assert(0 <= doy <= 365) by (nonlinear_arith)
        requires
            0 <= doe < 146097,
            yoe == (doe - doe / 1460 + doe / 36524 - doe / 146096) / 365,
            doy == doe - (365 * yoe + yoe / 4 - yoe / 100),
    ;
    let mp: i64 = (5 * doy + 2) / 153;
    assert(0 <= mp <= 11) by (nonlinear_arith)
        requires
            0 <= doy <= 365,
            mp == (5 * doy + 2) / 153,
    ;
    let day_i: i64 = doy - (153 * mp + 2) / 5 + 1;
    assert(1 <= day_i <= 31) by (nonlinear_arith)
        requires
            0 <= doy <= 365,
            mp == (5 * doy + 2) / 153,
            day_i == doy - (153 * mp + 2) / 5 + 1,
    ;
    let month_i: i64 = if mp < 10 {
        mp + 3
    } else {
        mp - 9
    };
    let year: i64 = yoe + era * 400 + if month_i <= 2 {
        1i64
    } else {
        0i64
    };
    (year, month_i as u32, day_i as u32)
}

/// The RFC 3339 UTC timestamp, to the millisecond, of `secs` seconds and
/// `millis` milliseconds after the Unix epoch.
pub open spec fn timestamp_text(secs: nat, millis: nat) -> Seq<char> {
    let (y, m, d) = civil((secs / 86400) as int);
    let rem = secs % 86400;
    padded(y as nat, 4) + seq!['-'] + padded(m as nat, 2) + seq!['-'] + padded(d as nat, 2) + seq![
        'T',
    ] + padded(rem / 3600, 2) + seq![':'] + padded(rem % 3600 / 60, 2) + seq![':'] + padded(
        rem % 60,
        2,
    ) + seq!['.'] + padded(millis, 3) + seq!['Z']
}

/// `2026-09-24T02:00:01.306Z`: the UTC time `secs` seconds and `millis`
/// milliseconds after the Unix epoch, written without a date crate.
pub fn rfc3339_utc(secs: u64, millis: u32) -> (text: String)
    requires
        millis < 1000,
    ensures
        text@ == timestamp_text(secs as nat, millis as nat),
{
    let days: u64 = secs / 86400;
    let rem: u64 = secs % 86400;
    assert(days <= 213503982334601) by (nonlinear_arith)
        requires
            days == secs / 86400,
            secs <= u64::MAX,
    ;
    let (year, month, day) = civil_from_days(days as i64);
    proof {
        let z = days + 719468;
        let era = z / 146097;
        assert(era >= 4) by (nonlinear_arith)
            requires
                era == z / 146097,
                z >= 719468,
        ;
        lemma_civil_ranges(z, era, z - era * 146097);
    }
    assert(year >= 0);
    let mut out = String::new();
    push_padded(&mut out, year as u64, 4);
    push_char(&mut out, '-');
    push_padded(&mut out, month as u64, 2);
    push_char(&mut out, '-');
    push_padded(&mut out, day as u64, 2);
    push_char(&mut out, 'T');
    push_padded(&mut out, rem / 3600, 2);
    push_char(&mut out, ':');
    push_padded(&mut out, rem % 3600 / 60, 2);
    push_char(&mut out, ':');
    push_padded(&mut out, rem % 60, 2);
    push_char(&mut out, '.');
    push_padded(&mut out, millis as u64, 3);
    push_char(&mut out, 'Z');
    assert(out@ =~= timestamp_text(secs as nat, millis as nat));
    out
}


/// The `n`-th white-space-separated word of `s` from position `from`
/// (`str::split_whitespace().nth(n)`).
pub open spec fn word_at(s: Seq<char>, from: int, n: nat) -> Option<Seq<char>>
    decreases s.len() - from,
{
    let a = scan(s, from, white());
    if from < 0 || a >= s.len() {
        None
    } else {
        let e = scan(s, a, not_white());
        proof {
            lemma_scan(s, from, white());
            lemma_scan(s, a, not_white());
        }
        if n == 0 {
            Some(s.subrange(a, e))
        } else {
            word_at(s, e, (n - 1) as nat)
        }
    }
}

/// A run ended cleanly when its last line's event (the word after the
/// timestamp) is `STOP`; an `UNCLEAN` alone at the end counts too, since
/// the process can die between that line and the next `START`.
pub open spec fn ends_clean(line: Seq<char>) -> bool {
    match word_at(line, 0, 1) {
        Some(w) => w =~= seq!['S', 'T', 'O', 'P'] || w =~= seq!['U', 'N', 'C', 'L', 'E', 'A', 'N'],
        None => false,
    }
}

/// Whether the line (the last one a previous run wrote) marks a clean end.
pub fn is_clean_end(line: &str) -> (r: bool)
    ensures
        r == ends_clean(line@),
{
    let s = chars_of(line);
    let a0 = skip_white(&s, 0);
    proof {
        lemma_scan(s@, 0, white());
    }
    if a0 >= s.len() {
        return false;
    }
    let e0 = skip_word(&s, a0);
    let a1 = skip_white(&s, e0);
    proof {
        lemma_scan(s@, e0 as int, white());
    }
    if a1 >= s.len() {
        return false;
    }
    let e1 = skip_word(&s, a1);
    let n = e1 - a1;
    let w = copy_range(&s, a1, e1);
    let r = (n == 4 && w[0] == 'S' && w[1] == 'T' && w[2] == 'O' && w[3] == 'P') || (n == 7 && w[0]
        == 'U' && w[1] == 'N' && w[2] == 'C' && w[3] == 'L' && w[4] == 'E' && w[5] == 'A' && w[6]
        == 'N');
    proof {
        assert(word_at(s@, e0 as int, 0) == Some(w@));
        let v = w@;
        if v =~= seq!['S', 'T', 'O', 'P'] {
            assert(v[0] == 'S' && v[3] == 'P');
        }
        if v =~= seq!['U', 'N', 'C', 'L', 'E', 'A', 'N'] {
            assert(v[0] == 'U' && v[6] == 'N');
        }
    }
    r
}

/// Index just past the word starting at `a`.
fn skip_word(s: &Vec<char>, a: usize) -> (e: usize)
    requires
        a <= s@.len(),
    ensures
        e == scan(s@, a as int, not_white()),
        a <= e <= s@.len(),
{
    proof {
        lemma_scan(s@, a as int, not_white());
    }
    let mut k = a;
    while k < s.len() && !is_whitespace(s[k])
        invariant
            a <= k <= s@.len(),
            scan(s@, a as int, not_white()) == scan(s@, k as int, not_white()),
        decreases s.len() - k,
    {
        k = k + 1;
    }
    k
}

/// Line breaks become spaces, so one event stays on one line.
pub open spec fn flattened(s: Seq<char>) -> Seq<char> {
    s.map_values(|c: char| if c == '\n' || c == '\r' { ' ' } else { c })
}

/// The text with every `\n` and `\r` replaced by a space.
pub fn one_line(s: &str) -> (r: String)
    ensures
        r@ == flattened(s@),
{
    let v = chars_of(s);
    let mut out = String::new();
    let mut k: usize = 0;
    while k < v.len()
        invariant
            k <= v@.len(),
            out@ == flattened(v@.take(k as int)),
        decreases v.len() - k,
    {
        let c = v[k];
        if c == '\n' || c == '\r' {
            push_char(&mut out, ' ');
        } else {
            push_char(&mut out, c);
        }
        assert(flattened(v@.take(k + 1)) =~= flattened(v@.take(k as int)).push(
            if c == '\n' || c == '\r' { ' ' } else { c },
        ));
        k = k + 1;
    }
    assert(v@.take(v@.len() as int) =~= v@);
    out
}

/// The STOP event of a clean shutdown: the reason and how many sessions
/// were still open.
pub open spec fn stop_event(reason: Seq<char>, open_sessions: nat) -> Seq<char> {
    "STOP motivo="@ + reason + " sessões_abertas="@ + decimal(open_sessions)
}

/// The event that records a clean stop; it must be the last line of a
/// normal run.
pub fn stop(reason: &str, open_sessions: usize) -> (event: String)
    ensures
        event@ == stop_event(reason@, open_sessions as nat),
{
    let mut out = String::new();
    out.append("STOP motivo=");
    out.append(reason);
    out.append(" sessões_abertas=");
    push_decimal(&mut out, open_sessions as u64);
    assert(out@ =~= stop_event(reason@, open_sessions as nat));
    out
}

/// The event a boot records when the previous run ended without a STOP,
/// quoting the last line it left.
pub open spec fn unclean_event(last: Seq<char>) -> Seq<char> {
    "UNCLEAN execução anterior terminou sem STOP (SIGKILL, OOM ou crash); última linha: "@ + last
}

/// The event that opens a run.
pub open spec fn start_event(pid: nat, version: Seq<char>, address: Seq<char>) -> Seq<char> {
    "START pid="@ + decimal(pid) + " versão="@ + version + " endereço="@ + address
}

/// The events a boot records, in order: an UNCLEAN when the log's last
/// line (if the log has one) does not mark a clean end, then the START.
pub open spec fn boot_events_of(
    last: Option<Seq<char>>,
    pid: nat,
    version: Seq<char>,
    address: Seq<char>,
) -> Seq<Seq<char>> {
    let start = seq![start_event(pid, version, address)];
    match last {
        Some(l) => if ends_clean(l) {
            start
        } else {
            seq![unclean_event(l)] + start
        },
        None => start,
    }
}

/// The events to record when the server boots, given the last non-blank
/// line of the log as the previous run left it.
pub fn boot_events(last: Option<&str>, pid: u32, version: &str, address: &str) -> (events: Vec<String>)
    ensures
        events@.map_values(|e: String| e@) == boot_events_of(
            match last {
                Some(l) => Some(l@),
                None => None,
            },
            pid as nat,
            version@,
            address@,
        ),
{
    let mut events: Vec<String> = Vec::new();
    if let Some(l) = last {
        if !is_clean_end(l) {
            let mut e = String::new();
            e.append("UNCLEAN execução anterior terminou sem STOP (SIGKILL, OOM ou crash); última linha: ");
            e.append(l);
            events.push(e);
        }
    }
    let mut start = String::new();
    start.append("START pid=");
    push_decimal(&mut start, pid as u64);
    start.append(" versão=");
    start.append(version);
    start.append(" endereço=");
    start.append(address);
    assert(start@ =~= start_event(pid as nat, version@, address@));
    events.push(start);
    assert(events@.map_values(|e: String| e@) =~= boot_events_of(
        match last {
            Some(l) => Some(l@),
            None => None,
        },
        pid as nat,
        version@,
        address@,
    ));
    events
}

/// The event a panicking thread records: its name, where it panicked, and
/// the message on one line.
pub open spec fn panic_event(thread: Seq<char>, location: Seq<char>, message: Seq<char>) -> Seq<char> {
    "PANIC thread="@ + thread + " em "@ + location + ": "@ + flattened(message)
}

/// The PANIC event for a thread, a source location and a panic message.
pub fn panic_line(thread: &str, location: &str, message: &str) -> (event: String)
    ensures
        event@ == panic_event(thread@, location@, message@),
{
    let mut out = String::new();
    out.append("PANIC thread=");
    out.append(thread);
    out.append(" em ");
    out.append(location);
    out.append(": ");
    let m = one_line(message);
    out.append(m.as_str());
    assert(out@ =~= panic_event(thread@, location@, message@));
    out
}

/// A digit, a date or time separator: nothing a timestamp holds is white
/// space.
pub open spec fn solid(s: Seq<char>) -> bool {
    forall|i: int| 0 <= i < s.len() ==> !white_space(#[trigger] s[i])
}

proof fn lemma_padded_digits(n: nat, width: nat)
    ensures
        padded(n, width).len() >= 1,
        forall|i: int| 0 <= i < padded(n, width).len() ==> '0' <= #[trigger] padded(n, width)[i] <= '9',
{
    lemma_decimal_digits(n);
    let d = decimal(n);
    if d.len() < width {
        let z = Seq::new((width - d.len()) as nat, |i: int| '0');
        assert forall|i: int| 0 <= i < padded(n, width).len() implies '0' <= #[trigger] padded(n, width)[i]
            <= '9' by {
            if i < z.len() {
                assert(padded(n, width)[i] == z[i]);
            } else {
                assert(padded(n, width)[i] == d[i - z.len()]);
            }
        }
    }
}

proof fn lemma_solid_concat(a: Seq<char>, b: Seq<char>)
    requires
        solid(a),
        solid(b),
    ensures
        solid(a + b),
{
    assert forall|i: int| 0 <= i < (a + b).len() implies !white_space(#[trigger] (a + b)[i]) by {
        if i < a.len() {
            assert((a + b)[i] == a[i]);
        } else {
            assert((a + b)[i] == b[i - a.len()]);
        }
    }
}

proof fn lemma_solid_padded(n: nat, width: nat)
    ensures
        solid(padded(n, width)),
{
    lemma_padded_digits(n, width);
    assert forall|i: int| 0 <= i < padded(n, width).len() implies !white_space(#[trigger] padded(n, width)[i]) by {
        let c = padded(n, width)[i];
        assert('0' <= c <= '9');
    }
}

/// A timestamp is a non-empty run of characters none of which is white
/// space.
pub proof fn lemma_timestamp_solid(secs: nat, millis: nat)
    ensures
        timestamp_text(secs, millis).len() >= 1,
        solid(timestamp_text(secs, millis)),
{
    let (y, m, d) = civil((secs / 86400) as int);
    let rem = secs % 86400;
    let p1 = padded(y as nat, 4);
    let p2 = padded(m as nat, 2);
    let p3 = padded(d as nat, 2);
    let p4 = padded(rem / 3600, 2);
    let p5 = padded(rem % 3600 / 60, 2);
    let p6 = padded(rem % 60, 2);
    let p7 = padded(millis, 3);
    lemma_solid_padded(y as nat, 4);
    lemma_solid_padded(m as nat, 2);
    lemma_solid_padded(d as nat, 2);
    lemma_solid_padded(rem / 3600, 2);
    lemma_solid_padded(rem % 3600 / 60, 2);
    lemma_solid_padded(rem % 60, 2);
    lemma_solid_padded(millis, 3);
    lemma_padded_digits(y as nat, 4);
    let dash = seq!['-'];
    let tee = seq!['T'];
    let colon = seq![':'];
    let dot = seq!['.'];
    let zed = seq!['Z'];
    assert(solid(dash));
    assert(solid(tee));
    assert(solid(colon));
    assert(solid(dot));
    assert(solid(zed));
    let t1 = p1 + dash;
    lemma_solid_concat(p1, dash);
    let t2 = t1 + p2;
    lemma_solid_concat(t1, p2);
    let t3 = t2 + dash;
    lemma_solid_concat(t2, dash);
    let t4 = t3 + p3;
    lemma_solid_concat(t3, p3);
    let t5 = t4 + tee;
    lemma_solid_concat(t4, tee);
    let t6 = t5 + p4;
    lemma_solid_concat(t5, p4);
    let t7 = t6 + colon;
    lemma_solid_concat(t6, colon);
    let t8 = t7 + p5;
    lemma_solid_concat(t7, p5);
    let t9 = t8 + colon;
    lemma_solid_concat(t8, colon);
    let t10 = t9 + p6;
    lemma_solid_concat(t9, p6);
    let t11 = t10 + dot;
    lemma_solid_concat(t10, dot);
    let t12 = t11 + p7;
    lemma_solid_concat(t11, p7);
    let t13 = t12 + zed;
    lemma_solid_concat(t12, zed);
    assert(t13 == timestamp_text(secs, millis));
}

/// `scan` stops exactly at `j` when every character before `j` is kept and
/// the one at `j` (if any) is not.
pub proof fn lemma_scan_exact(b: Seq<char>, i: int, j: int, keep: spec_fn(char) -> bool)
    requires
        0 <= i <= j <= b.len(),
        forall|k: int| i <= k < j ==> keep(b[k]),
        j < b.len() ==> !keep(b[j]),
    ensures
        scan(b, i, keep) == j,
    decreases j - i,
{
    if i < j {
        lemma_scan_exact(b, i + 1, j, keep);
    }
}

/// The line a STOP event makes with its timestamp reads as a clean end.
pub proof fn lemma_stop_line_is_clean(ts: Seq<char>, reason: Seq<char>, n: nat)
    requires
        ts.len() >= 1,
        solid(ts),
    ensures
        ends_clean(ts + seq![' '] + stop_event(reason, n)),
{
    reveal_strlit("STOP motivo=");
    let line = ts + seq![' '] + stop_event(reason, n);
    let t = ts.len() as int;
    assert(line[t] == ' ');
    assert(line[t + 1] == 'S');
    assert(line[t + 2] == 'T');
    assert(line[t + 3] == 'O');
    assert(line[t + 4] == 'P');
    assert(line[t + 5] == ' ');
    assert forall|k: int| 0 <= k < t implies #[trigger] line[k] == ts[k] by {}
    lemma_scan_exact(line, 0, 0, white());
    lemma_scan_exact(line, 0, t, not_white());
    lemma_scan_exact(line, t, t + 1, white());
    lemma_scan_exact(line, t + 1, t + 5, not_white());
    lemma_scan(line, 0, white());
    lemma_scan(line, 0, not_white());
    lemma_scan(line, t, white());
    lemma_scan(line, t + 1, not_white());
    assert(line.subrange(t + 1, t + 5) =~= seq!['S', 'T', 'O', 'P']);
    assert(word_at(line, t, 0) == Some(line.subrange(t + 1, t + 5)));
    assert(word_at(line, 0, 1) == word_at(line, t, 0));
}

/// A boot that reported an unclean end and died before its START does not
/// report it again: an UNCLEAN line, last in the log, marks a clean end.
pub proof fn law_an_unclean_end_is_reported_once(secs: nat, millis: nat, last: Seq<char>)
    ensures
        ends_clean(timestamp_text(secs, millis) + seq![' '] + unclean_event(last)),
{
    let ts = timestamp_text(secs, millis);
    lemma_timestamp_solid(secs, millis);
    reveal_strlit("UNCLEAN execução anterior terminou sem STOP (SIGKILL, OOM ou crash); última linha: ");
    let line = ts + seq![' '] + unclean_event(last);
    let t = ts.len() as int;
    assert(line[t] == ' ');
    assert(line[t + 1] == 'U');
    assert(line[t + 2] == 'N');
    assert(line[t + 3] == 'C');
    assert(line[t + 4] == 'L');
    assert(line[t + 5] == 'E');
    assert(line[t + 6] == 'A');
    assert(line[t + 7] == 'N');
    assert(line[t + 8] == ' ');
    assert forall|k: int| 0 <= k < t implies #[trigger] line[k] == ts[k] by {}
    lemma_scan_exact(line, 0, 0, white());
    lemma_scan_exact(line, 0, t, not_white());
    lemma_scan_exact(line, t, t + 1, white());
    lemma_scan_exact(line, t + 1, t + 8, not_white());
    lemma_scan(line, 0, white());
    lemma_scan(line, 0, not_white());
    lemma_scan(line, t, white());
    lemma_scan(line, t + 1, not_white());
    assert(line.subrange(t + 1, t + 8) =~= seq!['U', 'N', 'C', 'L', 'E', 'A', 'N']);
    assert(word_at(line, t, 0) == Some(line.subrange(t + 1, t + 8)));
    assert(word_at(line, 0, 1) == word_at(line, t, 0));
}

/// Where the log ends with a filled line `l` and a line break, after
/// complete lines, that line is the last filled one whatever came before.
proof fn lemma_last_filled_tail(s: Seq<char>, from: int, found: Option<Seq<char>>, p: int, l: Seq<char>)
    requires
        0 <= from <= p <= s.len(),
        p == 0 || s[p - 1] == '\n',
        s.subrange(p, s.len() as int) == l + seq!['\n'],
        !l.contains('\n'),
        l.len() >= 1,
        l.last() != '\r',
        scan(l, 0, white()) < l.len(),
    ensures
        last_filled(s, from, found) == Some(l),
    decreases s.len() + 1 - from,
{
    lemma_find_char(s, '\n', from);
    let e = p + l.len();
    let rest = s.subrange(p, s.len() as int);
    assert(rest.len() == l.len() + 1);
    assert(rest[l.len() as int] == (l + seq!['\n'])[l.len() as int]);
    assert(s[e] == rest[l.len() as int]);
    assert(s[e] == '\n');
    assert forall|k: int| p <= k < e implies s[k] != '\n' by {
        assert(s[k] == rest[k - p]);
        assert(rest[k - p] == (l + seq!['\n'])[k - p]);
        assert(rest[k - p] == l[k - p]);
        if s[k] == '\n' {
            assert(l.contains('\n'));
        }
    }
    if from == p {
        let end = find_char(s, '\n', from)->0;
        assert(end == e);
        assert(s.subrange(p, e) =~= l) by {
            assert forall|k: int| 0 <= k < l.len() implies s.subrange(p, e)[k] == l[k] by {
                assert(s.subrange(p, s.len() as int)[k] == l[k]);
            }
        }
        assert(s[e - 1] == l.last()) by {
            assert(s.subrange(p, s.len() as int)[l.len() - 1] == l[l.len() - 1]);
        }
        assert(e + 1 == s.len()) by {
            assert(s.subrange(p, s.len() as int).len() == l.len() + 1);
        }
        lemma_find_char(s, '\n', e + 1);
        assert(line_text(s, e + 1, s.len() as int) =~= Seq::<char>::empty());
        assert(!is_filled(Seq::<char>::empty()));
        assert(last_filled(s, e + 1, Some(l)) == Some(l));
        assert(line_text(s, from, e) == l);
    } else {
        assert(s[p - 1] == '\n');
        let end = find_char(s, '\n', from)->0;
        assert(from <= end <= p - 1);
        lemma_last_filled_tail(
            s,
            end + 1,
            if is_filled(line_text(s, from, end)) {
                Some(line_text(s, from, end))
            } else {
                found
            },
            p,
            l,
        );
    }
}

/// A run that ends with its STOP line reads as a clean end at the next
/// boot: the last filled line of the log is that STOP line (its line break
/// aside), it marks a clean end, and the boot records only its START. The
/// log before the STOP line is made of whole lines; the reason is one line.
pub proof fn law_a_stop_ends_a_run_cleanly(
    before: Seq<char>,
    secs: nat,
    millis: nat,
    reason: Seq<char>,
    open_sessions: nat,
    pid: nat,
    version: Seq<char>,
    address: Seq<char>,
)
    requires
        before.len() == 0 || before.last() == '\n',
        !reason.contains('\n'),
    ensures
        ({
            let line = log_line(secs, millis, stop_event(reason, open_sessions));
            let shown = timestamp_text(secs, millis) + seq![' '] + stop_event(reason, open_sessions);
            &&& last_filled(before + line, 0, None) == Some(shown)
            &&& ends_clean(shown)
            &&& boot_events_of(Some(shown), pid, version, address) == seq![
                start_event(pid, version, address),
            ]
        }),
{
    reveal_strlit("STOP motivo=");
    reveal_strlit(" sessões_abertas=");
    let ts = timestamp_text(secs, millis);
    lemma_timestamp_solid(secs, millis);
    lemma_stop_line_is_clean(ts, reason, open_sessions);
    let ev = stop_event(reason, open_sessions);
    let shown = ts + seq![' '] + ev;
    let line = log_line(secs, millis, ev);
    let s = before + line;
    let p = before.len() as int;
    assert(line =~= shown + seq!['\n']);
    assert(s.subrange(p, s.len() as int) =~= shown + seq!['\n']);
    if p > 0 {
        assert(s[p - 1] == before.last());
    }
    lemma_decimal_digits(open_sessions);
    let d = decimal(open_sessions);
    assert(shown.last() == d.last()) by {
        assert(ev.last() == d[d.len() - 1]);
    }
    assert(!shown.contains('\n')) by {
        if shown.contains('\n') {
            let k = choose|k: int| 0 <= k < shown.len() && shown[k] == '\n';
            if k < ts.len() {
                assert(shown[k] == ts[k]);
                assert(!white_space(ts[k]));
            } else if k == ts.len() {
            } else {
                let j = k - ts.len() - 1;
                assert(shown[k] == ev[j]);
                let a = "STOP motivo="@;
                let b = " sessões_abertas="@;
                if j < a.len() {
                    assert(ev[j] == a[j]);
                } else if j < a.len() + reason.len() {
                    assert(ev[j] == reason[j - a.len()]);
                    assert(reason.contains('\n'));
                } else if j < a.len() + reason.len() + b.len() {
                    assert(ev[j] == b[j - a.len() - reason.len()]);
                } else {
                    assert(ev[j] == d[j - a.len() - reason.len() - b.len()]);
                }
            }
        }
    }
    assert(shown[0] == ts[0]);
    lemma_scan_exact(shown, 0, 0, white());
    lemma_last_filled_tail(s, 0, None, p, shown);
}

/// The line appended to the log for one event: its timestamp, a space, the
/// event and a line break.
pub open spec fn log_line(secs: nat, millis: nat, event: Seq<char>) -> Seq<char> {
    timestamp_text(secs, millis) + seq![' '] + event + seq!['\n']
}

/// The line that records `event` at the given time.
pub fn record(secs: u64, millis: u32, event: &str) -> (line: String)
    requires
        millis < 1000,
    ensures
        line@ == log_line(secs as nat, millis as nat, event@),
{
    let mut out = rfc3339_utc(secs, millis);
    push_char(&mut out, ' ');
    out.append(event);
    push_char(&mut out, '\n');
    assert(out@ =~= log_line(secs as nat, millis as nat, event@));
    out
}

/// One line of `str::lines`, from `start` to `end`, where a line break or
/// the end of the text stops it: a `\r` just before a line break is not
/// part of the line, while one at the very end of the text is.
pub open spec fn line_text(s: Seq<char>, start: int, end: int) -> Seq<char> {
    if start < end && end < s.len() && s[end - 1] == '\r' {
        s.subrange(start, end - 1)
    } else {
        s.subrange(start, end)
    }
}

/// The line holds something besides white space.
pub open spec fn is_filled(l: Seq<char>) -> bool {
    scan(l, 0, white()) < l.len()
}

/// The last filled line of `s` from `from` on, or `found` when no later line
/// is filled.
pub open spec fn last_filled(s: Seq<char>, from: int, found: Option<Seq<char>>) -> Option<Seq<char>>
    decreases s.len() + 1 - from,
{
    if from < 0 || from > s.len() {
        found
    } else {
        let end = match find_char(s, '\n', from) {
            Some(j) => j,
            None => s.len() as int,
        };
        proof {
            lemma_find_char(s, '\n', from);
        }
        let l = line_text(s, from, end);
        let now = if is_filled(l) {
            Some(l)
        } else {
            found
        };
        if end >= s.len() {
            now
        } else {
            last_filled(s, end + 1, now)
        }
    }
}

/// The last line of the text that is not blank
/// (`lines().rev().find(|l| !l.trim().is_empty())`): what the boot reads
/// from the tail of the log.
pub fn last_line(tail: &str) -> (r: Option<String>)
    ensures
        match r {
            Some(l) => last_filled(tail@, 0, None) == Some(l@),
            None => last_filled(tail@, 0, None) is None,
        },
{
    let s = chars_of(tail);
    let mut found: Option<(usize, usize)> = None;
    let mut from: usize = 0;
    loop
        invariant
            from <= s@.len(),
            s@ == tail@,
            found matches Some(p) ==> p.0 <= p.1 <= s@.len(),
            last_filled(s@, 0, None) == last_filled(
                s@,
                from as int,
                match found {
                    Some(p) => Some(s@.subrange(p.0 as int, p.1 as int)),
                    None => None,
                },
            ),
        decreases s@.len() - from,
    {
        proof {
            lemma_find_char(s@, '\n', from as int);
        }
        let end = match find_char_from(&s, '\n', from) {
            Some(j) => j,
            None => s.len(),
        };
        let stop_at = if from < end && end < s.len() && s[end - 1] == '\r' {
            end - 1
        } else {
            end
        };
        let line = copy_range(&s, from, stop_at);
        assert(line@ == line_text(s@, from as int, end as int));
        let a = skip_white(&line, 0);
        let ghost old_found = match found {
            Some(p) => Some(s@.subrange(p.0 as int, p.1 as int)),
            None => None,
        };
        if a < line.len() {
            found = Some((from, stop_at));
        }
        let ghost now = match found {
            Some(p) => Some(s@.subrange(p.0 as int, p.1 as int)),
            None => None,
        };
        assert(now == (if is_filled(line@) { Some(line@) } else { old_found }));
        if end >= s.len() {
            return match found {
                Some(p) => Some(crate::text::string_from(&s, p.0, p.1)),
                None => None,
            };
        }
        from = end + 1;
    }
}

proof fn lemma_zeros_value(k: nat, d: Seq<char>)
    ensures
        digits_value(Seq::new(k, |i: int| '0') + d) == digits_value(d),
    decreases d.len(), k,
{
    let z = Seq::new(k, |i: int| '0');
    if d.len() == 0 {
        assert(z + d =~= z);
        if k > 0 {
            lemma_zeros_value((k - 1) as nat, Seq::<char>::empty());
            assert(z.drop_last() =~= Seq::new((k - 1) as nat, |i: int| '0') + Seq::<char>::empty());
        }
    } else {
        lemma_zeros_value(k, d.drop_last());
        assert((z + d).drop_last() =~= z + d.drop_last());
        assert((z + d).last() == d.last());
    }
}

proof fn lemma_padded_value(n: nat, width: nat)
    ensures
        digits_value(padded(n, width)) == n,
        decimal(n).len() <= width ==> padded(n, width).len() == width,
{
    lemma_decimal_value(n);
    let d = decimal(n);
    if d.len() < width {
        lemma_zeros_value((width - d.len()) as nat, d);
    }
}

proof fn lemma_decimal_short(n: nat)
    ensures
        n < 10 ==> decimal(n).len() == 1,
        n < 100 ==> decimal(n).len() <= 2,
        n < 1000 ==> decimal(n).len() <= 3,
    decreases n,
{
    if n >= 10 {
        lemma_decimal_short(n / 10);
    }
}

/// The time of day a timestamp shows is the time `secs` falls on: its
/// hour, minute and second fields read back as an hour below 24, a minute
/// and a second below 60 that add up to `secs` modulo a day, and its
/// millisecond field reads back as `millis`. The fields sit at fixed places
/// from the end, `THH:MM:SS.mmmZ`.
pub proof fn law_the_timestamp_shows_the_time_of_day(secs: nat, millis: nat)
    requires
        millis < 1000,
    ensures
        ({
            let t = timestamp_text(secs, millis);
            let l = t.len() as int;
            let h = digits_value(t.subrange(l - 13, l - 11));
            let m = digits_value(t.subrange(l - 10, l - 8));
            let sec = digits_value(t.subrange(l - 7, l - 5));
            &&& l >= 24
            &&& t[l - 14] == 'T'
            &&& t[l - 11] == ':'
            &&& t[l - 8] == ':'
            &&& t[l - 5] == '.'
            &&& t[l - 1] == 'Z'
            &&& 0 <= h < 24
            &&& 0 <= m < 60
            &&& 0 <= sec < 60
            &&& h * 3600 + m * 60 + sec == secs % 86400
            &&& digits_value(t.subrange(l - 4, l - 1)) == millis
        }),
{
    let (y, mo, d) = civil((secs / 86400) as int);
    let rem = secs % 86400;
    let hh = rem / 3600;
    let mm = rem % 3600 / 60;
    let ss = rem % 60;
    lemma_decimal_short(hh);
    lemma_decimal_short(mm);
    lemma_decimal_short(ss);
    lemma_decimal_short(millis);
    lemma_padded_value(hh, 2);
    lemma_padded_value(mm, 2);
    lemma_padded_value(ss, 2);
    lemma_padded_value(millis, 3);
    lemma_padded_value(y as nat, 4);
    lemma_padded_value(mo as nat, 2);
    lemma_padded_value(d as nat, 2);
    lemma_decimal_digits(y as nat);
    lemma_decimal_digits(mo as nat);
    lemma_decimal_digits(d as nat);
    let date = padded(y as nat, 4) + seq!['-'] + padded(mo as nat, 2) + seq!['-'] + padded(d as nat, 2);
    let ph = padded(hh, 2);
    let pm = padded(mm, 2);
    let ps = padded(ss, 2);
    let pms = padded(millis, 3);
    let tail = seq!['T'] + ph + seq![':'] + pm + seq![':'] + ps + seq!['.'] + pms + seq!['Z'];
    let t = timestamp_text(secs, millis);
    assert(t =~= date + tail);
    assert(tail.len() == 14);
    assert(date.len() >= 10);
    let l = t.len() as int;
    let o = date.len() as int;
    assert(l == o + 14);
    assert(t.subrange(l - 13, l - 11) =~= ph);
    assert(t.subrange(l - 10, l - 8) =~= pm);
    assert(t.subrange(l - 7, l - 5) =~= ps);
    assert(t.subrange(l - 4, l - 1) =~= pms);
    assert(t[l - 14] == tail[0]);
    assert(t[l - 11] == tail[3]);
    assert(t[l - 8] == tail[6]);
    assert(t[l - 5] == tail[9]);
    assert(t[l - 1] == tail[13]);
    assert(hh * 3600 + mm * 60 + ss == rem) by (nonlinear_arith)
        requires
            hh == rem / 3600,
            mm == rem % 3600 / 60,
            ss == rem % 60,
    ;
}

} // verus!
