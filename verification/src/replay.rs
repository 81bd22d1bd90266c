//! Source timestamps of replayed log lines: a line may carry its time as a
//! leading Unix number, a leading RFC 3339 time, or (in JSON) a `source_ts_ns`
//! or `timestamp` field. RFC 3339 and JSON are read by chrono and serde_json.
use vstd::prelude::*;
use vstd::utf8::{valid_utf8, decode_utf8, encode_utf8};
use crate::archive::{parse_u64, u64_text};
use crate::text::{push_char, text_eq};

verus! {

/// Where a replayed line's source time is read from.
#[derive(Clone, Copy, Debug, PartialEq, Eq, Structural)]
pub enum TimestampMode {
    /// JSON fields first, then a leading RFC 3339 time.
    Auto,
    /// No source time.
    Off,
    Rfc3339,
    UnixMs,
    UnixNs,
}

/// The configuration spelling of each mode.
pub open spec fn mode_named(s: Seq<char>) -> Option<TimestampMode> {
    if s == "auto"@ {
        Some(TimestampMode::Auto)
    } else if s == "none"@ {
        Some(TimestampMode::Off)
    } else if s == "rfc3339"@ {
        Some(TimestampMode::Rfc3339)
    } else if s == "unix_ms"@ {
        Some(TimestampMode::UnixMs)
    } else if s == "unix_ns"@ {
        Some(TimestampMode::UnixNs)
    } else {
        None
    }
}

/// Reads a configured timestamp mode; `None` for an invalid spelling.
pub fn parse_mode(s: &str) -> (m: Option<TimestampMode>)
    ensures
        m == mode_named(s@),
{
    proof {
        reveal_strlit("auto");
        reveal_strlit("none");
        reveal_strlit("rfc3339");
        reveal_strlit("unix_ms");
        reveal_strlit("unix_ns");
    }
    if text_eq(s, "auto") {
        Some(TimestampMode::Auto)
    } else if text_eq(s, "none") {
        Some(TimestampMode::Off)
    } else if text_eq(s, "rfc3339") {
        Some(TimestampMode::Rfc3339)
    } else if text_eq(s, "unix_ms") {
        Some(TimestampMode::UnixMs)
    } else if text_eq(s, "unix_ns") {
        Some(TimestampMode::UnixNs)
    } else {
        None
    }
}

/// What serde_json reads from `text` as a JSON value: `None` when it is no
/// JSON; else the field `source_ts_ns` when it is an unsigned 64-bit number and
/// the field `timestamp` when it is a string.
pub uninterp spec fn json_time_fields(text: Seq<char>) -> Option<(Option<u64>, Option<Seq<char>>)>;

/// The two time fields of a JSON text (serde_json's `from_str` into a `Value`,
/// then `get` with `as_u64` and `as_str`). The result is named: it depends on
/// the text alone.
#[verifier::external_body]
fn json_fields(text: &str) -> (r: Option<(Option<u64>, Option<String>)>)
    ensures
        match (r, json_time_fields(text@)) {
            (None, None) => true,
            (Some((n, t)), Some((m, u))) => n == m && match (t, u) {
                (Some(x), Some(y)) => x@ == y,
                (None, None) => true,
                _ => false,
            },
            _ => false,
        },
{
    serde_json::from_str::<serde_json::Value>(text).ok().map(
        |v| (v.get("source_ts_ns").and_then(|x| x.as_u64()), v.get("timestamp").and_then(|x| x.as_str()).map(|s| s.to_string())),
    )
}

/// The instant chrono reads from `token` as an RFC 3339 date and time, in
/// nanoseconds since the Unix epoch; `None` when it is no such time or its
/// nanoseconds do not fit in `i64`.
pub uninterp spec fn rfc3339_nanos(token: Seq<char>) -> Option<i64>;

/// chrono's `DateTime::parse_from_rfc3339`, the parsed time taken as
/// `timestamp_nanos_opt`. The result is named: it depends on the token alone.
#[verifier::external_body]
fn rfc3339_instant(token: &str) -> (r: Option<i64>)
    ensures
        r == rfc3339_nanos(token@),
{
    chrono::DateTime::parse_from_rfc3339(token).ok().and_then(|d| d.timestamp_nanos_opt())
}

/// std's `str::from_utf8`: the text of `bytes` when they are valid UTF-8.
#[verifier::external_body]
pub(crate) fn utf8_text(bytes: &[u8]) -> (r: Option<&str>)
    ensures
        r is Some == valid_utf8(bytes@),
        r matches Some(s) ==> s@ == decode_utf8(bytes@),
{
    std::str::from_utf8(bytes).ok()
}

/// Unicode white space, as `str::trim` removes it.
pub open spec fn white_space(c: char) -> bool {
    ('\u{9}' <= c <= '\u{d}') || c == ' ' || c == '\u{85}' || c == '\u{a0}' || c == '\u{1680}' || ('\u{2000}'
        <= c <= '\u{200a}') || c == '\u{2028}' || c == '\u{2029}' || c == '\u{202f}' || c == '\u{205f}' || c
        == '\u{3000}'
}

/// ASCII white space, as `split_ascii_whitespace` separates by it.
pub open spec fn ascii_space(c: char) -> bool {
    c == ' ' || c == '\t' || c == '\n' || c == '\u{c}' || c == '\r'
}

/// The characters a trim removes.
#[derive(Clone, Copy, Debug, PartialEq, Eq)]
pub enum CharClass {
    /// Unicode white space.
    Space,
    /// ASCII white space.
    AsciiSpace,
    /// Square brackets.
    Brackets,
}

/// Whether `c` belongs to the class `k`.
pub open spec fn in_class(k: CharClass, c: char) -> bool {
    match k {
        CharClass::Space => white_space(c),
        CharClass::AsciiSpace => ascii_space(c),
        CharClass::Brackets => bracket(c),
    }
}

/// `s` without its leading characters of class `k`.
pub open spec fn trim_start_by(s: Seq<char>, k: CharClass) -> Seq<char>
    decreases s.len(),
{
    if s.len() > 0 && in_class(k, s[0]) {
        trim_start_by(s.drop_first(), k)
    } else {
        s
    }
}

/// `s` without its trailing characters of class `k`.
pub open spec fn trim_end_by(s: Seq<char>, k: CharClass) -> Seq<char>
    decreases s.len(),
{
    if s.len() > 0 && in_class(k, s.last()) {
        trim_end_by(s.drop_last(), k)
    } else {
        s
    }
}

/// `s` without leading and trailing characters of class `k`.
pub open spec fn trim_by(s: Seq<char>, k: CharClass) -> Seq<char> {
    trim_end_by(trim_start_by(s, k), k)
}

/// The longest prefix of `s` without ASCII white space.
pub open spec fn word(s: Seq<char>) -> Seq<char>
    decreases s.len(),
{
    if s.len() == 0 || ascii_space(s[0]) {
        Seq::empty()
    } else {
        seq![s[0]] + word(s.drop_first())
    }
}

/// The first ASCII-white-space separated word of `s`, if any.
pub open spec fn first_word(s: Seq<char>) -> Option<Seq<char>> {
    let rest = trim_start_by(s, CharClass::AsciiSpace);
    if rest.len() == 0 {
        None
    } else {
        Some(word(rest))
    }
}

/// Whether `c` is a square bracket.
pub open spec fn bracket(c: char) -> bool {
    c == '[' || c == ']'
}

/// The time read from the leading word of `text` (square brackets around it
/// ignored): a Unix time in nanoseconds or milliseconds, or an RFC 3339 time.
pub open spec fn leading_time(text: Seq<char>, mode: TimestampMode) -> Option<u64> {
    match first_word(text) {
        None => None,
        Some(w) => {
            let t = trim_by(w, CharClass::Brackets);
            match mode {
                TimestampMode::UnixNs => u64_text(t),
                TimestampMode::UnixMs => match u64_text(t) {
                    Some(ms) => if ms * 1000000 <= u64::MAX {
                        Some((ms * 1000000) as u64)
                    } else {
                        None
                    },
                    None => None,
                },
                _ => instant_time(rfc3339_nanos(t)),
            }
        },
    }
}

/// An RFC 3339 instant as a source time: the nanoseconds when there is an
/// instant at or after the Unix epoch.
pub open spec fn instant_time(instant: Option<i64>) -> Option<u64> {
    match instant {
        Some(ns) => if ns >= 0 {
            Some(ns as u64)
        } else {
            None
        },
        None => None,
    }
}

/// The source time of a parsed RFC 3339 instant (nanoseconds since the Unix
/// epoch, as the parse gave them): none before the epoch.
pub fn time_of_instant(instant: Option<i64>) -> (r: Option<u64>)
    ensures
        r == instant_time(instant),
{
    match instant {
        Some(ns) => if ns >= 0 {
            Some(ns as u64)
        } else {
            None
        },
        None => None,
    }
}

/// Where a JSON line's source time comes from.
#[derive(Clone, Debug, PartialEq, Eq)]
pub enum JsonTime {
    /// Its `source_ts_ns` field.
    Source(u64),
    /// Its `timestamp` field, trimmed, to be read as RFC 3339.
    Timestamp(String),
    /// Neither: the line is read by its leading word.
    Absent,
}

/// What a line's JSON time fields (as parsed: `None` for no JSON, else the
/// `source_ts_ns` number and the `timestamp` string) say of its source time.
pub fn json_time(fields: Option<(Option<u64>, Option<String>)>) -> (r: JsonTime)
    ensures
        match fields {
            Some((Some(ns), _)) => r == JsonTime::Source(ns),
            Some((None, Some(t))) => r matches JsonTime::Timestamp(x) && x@ == trim_by(t@, CharClass::Space),
            _ => r == JsonTime::Absent,
        },
{
    match fields {
        Some((Some(ns), _)) => JsonTime::Source(ns),
        Some((None, Some(t))) => JsonTime::Timestamp(trim_class(t.as_str(), CharClass::Space)),
        _ => JsonTime::Absent,
    }
}

/// The source time of a replayed line in nanoseconds since the Unix epoch.
/// Nothing without a mode or for text that is not UTF-8; in auto mode a JSON
/// line's `source_ts_ns` field, else its `timestamp` field read as RFC 3339;
/// otherwise the leading word as the mode says.
pub open spec fn line_time(bytes: Seq<u8>, mode: TimestampMode) -> Option<u64> {
    if mode == TimestampMode::Off || !valid_utf8(bytes) {
        None
    } else {
        let text = trim_by(decode_utf8(bytes), CharClass::Space);
        match (mode, json_time_fields(text)) {
            (TimestampMode::Auto, Some((Some(ns), _))) => Some(ns),
            (TimestampMode::Auto, Some((None, Some(t)))) => leading_time(
                trim_by(t, CharClass::Space),
                TimestampMode::Rfc3339,
            ),
            _ => leading_time(text, mode),
        }
    }
}

/// The characters of `s` from `lo` (inclusive) to `hi` (exclusive).
fn chars_between(s: &str, lo: usize, hi: usize) -> (t: String)
    requires
        lo <= hi <= s@.len(),
    ensures
        t@ == s@.subrange(lo as int, hi as int),
{
    let mut t = String::new();
    let mut i = lo;
    while i < hi
        invariant
            lo <= i <= hi,
            hi <= s@.len(),
            t@ == s@.subrange(lo as int, i as int),
        decreases hi - i,
    {
        let c = s.get_char(i);
        push_char(&mut t, c);
        assert(s@.subrange(lo as int, i + 1) =~= s@.subrange(lo as int, i as int).push(c));
        i += 1;
    }
    t
}

proof fn lemma_trim_start_skip(s: Seq<char>, k: CharClass, i: int)
    requires
        0 <= i <= s.len(),
        forall|j: int| 0 <= j < i ==> in_class(k, #[trigger] s[j]),
    ensures
        trim_start_by(s, k) == trim_start_by(s.skip(i), k),
    decreases i,
{
    if i > 0 {
        let t = s.drop_first();
        assert forall|j: int| 0 <= j < i - 1 implies in_class(k, #[trigger] t[j]) by {
            assert(t[j] == s[j + 1]);
        }
        lemma_trim_start_skip(t, k, i - 1);
        assert(t.skip(i - 1) =~= s.skip(i));
        assert(in_class(k, s[0]));
    } else {
        assert(s.skip(0) =~= s);
    }
}

proof fn lemma_trim_end_take(s: Seq<char>, k: CharClass, i: int)
    requires
        0 <= i <= s.len(),
        forall|j: int| i <= j < s.len() ==> in_class(k, #[trigger] s[j]),
    ensures
        trim_end_by(s, k) == trim_end_by(s.take(i), k),
    decreases s.len() - i,
{
    if i < s.len() {
        let t = s.drop_last();
        assert forall|j: int| i <= j < t.len() implies in_class(k, #[trigger] t[j]) by {
            assert(t[j] == s[j]);
        }
        lemma_trim_end_take(t, k, i);
        assert(t.take(i) =~= s.take(i));
        assert(in_class(k, s.last()));
    } else {
        assert(s.take(i) =~= s);
    }
}

/// `s` without leading and trailing characters of class `k`.
fn trim_class(s: &str, k: CharClass) -> (t: String)
    ensures
        t@ == trim_by(s@, k),
{
    let n = s.unicode_len();
    let mut lo: usize = 0;
    while lo < n && is_in_class(k, s.get_char(lo))
        invariant
            lo <= n,
            n == s@.len(),
            forall|j: int| 0 <= j < lo ==> in_class(k, #[trigger] s@[j]),
        decreases n - lo,
    {
        lo += 1;
    }
    proof {
        lemma_trim_start_skip(s@, k, lo as int);
    }
    let mut hi: usize = n;
    while hi > lo && is_in_class(k, s.get_char(hi - 1))
        invariant
            lo <= hi <= n,
            n == s@.len(),
            forall|j: int| hi <= j < n ==> in_class(k, #[trigger] s@[j]),
        decreases hi - lo,
    {
        hi -= 1;
    }
    let t = chars_between(s, lo, hi);
    proof {
        let rest = s@.skip(lo as int);
        if lo < n {
            assert(rest[0] == s@[lo as int]);
            assert(!in_class(k, rest[0]));
        }
        assert(trim_start_by(rest, k) == rest);
        assert forall|j: int| hi - lo <= j < rest.len() implies in_class(k, #[trigger] rest[j]) by {
            assert(rest[j] == s@[lo + j]);
        }
        lemma_trim_end_take(rest, k, hi - lo);
        let kept = rest.take(hi - lo);
        assert(kept =~= s@.subrange(lo as int, hi as int));
        if hi > lo {
            assert(kept.last() == s@[hi - 1]);
            assert(!in_class(k, kept.last()));
        }
        assert(trim_end_by(kept, k) == kept);
    }
    t
}

/// Whether `c` belongs to the class `k`.
fn is_in_class(k: CharClass, c: char) -> (b: bool)
    ensures
        b == in_class(k, c),
{
    match k {
        CharClass::Space => ('\u{9}' <= c && c <= '\u{d}') || c == ' ' || c == '\u{85}' || c == '\u{a0}' || c
            == '\u{1680}' || ('\u{2000}' <= c && c <= '\u{200a}') || c == '\u{2028}' || c == '\u{2029}' || c
            == '\u{202f}' || c == '\u{205f}' || c == '\u{3000}',
        CharClass::AsciiSpace => c == ' ' || c == '\t' || c == '\n' || c == '\u{c}' || c == '\r',
        CharClass::Brackets => c == '[' || c == ']',
    }
}

/// The word at the start of `s` ends at its first ASCII white space.
proof fn lemma_word(s: Seq<char>, m: int)
    requires
        0 <= m <= s.len(),
        forall|j: int| 0 <= j < m ==> !ascii_space(#[trigger] s[j]),
        m == s.len() || ascii_space(s[m]),
    ensures
        word(s) == s.take(m),
    decreases m,
{
    if m > 0 {
        let t = s.drop_first();
        assert forall|j: int| 0 <= j < m - 1 implies !ascii_space(#[trigger] t[j]) by {
            assert(t[j] == s[j + 1]);
        }
        if m < s.len() {
            assert(t[m - 1] == s[m]);
        }
        lemma_word(t, m - 1);
        assert(s.take(m) =~= seq![s[0]] + t.take(m - 1));
    } else {
        assert(s.take(0) =~= Seq::<char>::empty());
    }
}

/// The first ASCII-white-space separated word of `s`.
fn first_word_of(s: &str) -> (w: Option<String>)
    ensures
        match first_word(s@) {
            None => w is None,
            Some(x) => w matches Some(t) && t@ == x,
        },
{
    let n = s.unicode_len();
    let mut lo: usize = 0;
    while lo < n && is_in_class(CharClass::AsciiSpace, s.get_char(lo))
        invariant
            lo <= n,
            n == s@.len(),
            forall|j: int| 0 <= j < lo ==> in_class(CharClass::AsciiSpace, #[trigger] s@[j]),
        decreases n - lo,
    {
        lo += 1;
    }
    let ghost rest = s@.skip(lo as int);
    proof {
        lemma_trim_start_skip(s@, CharClass::AsciiSpace, lo as int);
        if lo < n {
            assert(rest[0] == s@[lo as int]);
        }
        assert(trim_start_by(rest, CharClass::AsciiSpace) == rest);
    }
    if lo == n {
        return None;
    }
    let mut hi: usize = lo;
    while hi < n && !is_in_class(CharClass::AsciiSpace, s.get_char(hi))
        invariant
            lo <= hi <= n,
            n == s@.len(),
            forall|j: int| lo <= j < hi ==> !ascii_space(#[trigger] s@[j]),
        decreases n - hi,
    {
        hi += 1;
    }
    proof {
        assert forall|j: int| 0 <= j < hi - lo implies !ascii_space(#[trigger] rest[j]) by {
            assert(rest[j] == s@[lo + j]);
        }
        if hi < n {
            assert(rest[hi - lo] == s@[hi as int]);
        }
        lemma_word(rest, hi - lo);
        assert(rest.take(hi - lo) =~= s@.subrange(lo as int, hi as int));
    }
    Some(chars_between(s, lo, hi))
}

/// The time read from the leading word of `text`.
fn leading_time_of(text: &str, mode: TimestampMode) -> (r: Option<u64>)
    ensures
        r == leading_time(text@, mode),
{
    let w = match first_word_of(text) {
        None => {
            return None;
        },
        Some(w) => w,
    };
    let t = trim_class(w.as_str(), CharClass::Brackets);
    match mode {
        TimestampMode::UnixNs => parse_u64(t.as_str()),
        TimestampMode::UnixMs => match parse_u64(t.as_str()) {
            Some(ms) => ms.checked_mul(1000000),
            None => None,
        },
        _ => time_of_instant(rfc3339_instant(t.as_str())),
    }
}

/// The source time of a replayed line, in nanoseconds since the Unix epoch.
pub fn line_time_of(bytes: &[u8], mode: TimestampMode) -> (r: Option<u64>)
    ensures
        r == line_time(bytes@, mode),
{
    if mode == TimestampMode::Off {
        return None;
    }
    let text = match utf8_text(bytes) {
        None => {
            return None;
        },
        Some(t) => t,
    };
    let trimmed = trim_class(text, CharClass::Space);
    if mode == TimestampMode::Auto {
        match json_time(json_fields(trimmed.as_str())) {
            JsonTime::Source(ns) => {
                return Some(ns);
            },
            JsonTime::Timestamp(inner) => {
                return leading_time_of(inner.as_str(), TimestampMode::Rfc3339);
            },
            JsonTime::Absent => {},
        }
    }
    leading_time_of(trimmed.as_str(), mode)
}

/// The mode a spelling selects when reading a line: an unknown spelling reads
/// an RFC 3339 time.
pub open spec fn reading_mode(s: Seq<char>) -> TimestampMode {
    match mode_named(s) {
        Some(m) => m,
        None => TimestampMode::Rfc3339,
    }
}

/// The source time of a replayed line under the mode spelled `mode`.
pub fn timestamp(bytes: &[u8], mode: &str) -> (r: Option<u64>)
    ensures
        r == line_time(bytes@, reading_mode(mode@)),
{
    let m = match parse_mode(mode) {
        Some(m) => m,
        None => TimestampMode::Rfc3339,
    };
    line_time_of(bytes, m)
}


/// Law: in auto mode a JSON line whose `source_ts_ns` is an unsigned 64-bit
/// number has that number as its source time, whatever else the line holds;
/// without it, a `timestamp` field is read as an RFC 3339 time.
pub proof fn lemma_auto_json_times(bytes: Seq<u8>, ns: u64, other: Option<Seq<char>>, stamp: Seq<char>)
    requires
        valid_utf8(bytes),
    ensures
        json_time_fields(trim_by(decode_utf8(bytes), CharClass::Space)) == Some((Some(ns), other))
            ==> line_time(bytes, TimestampMode::Auto) == Some(ns),
        json_time_fields(trim_by(decode_utf8(bytes), CharClass::Space)) == Some((None::<u64>, Some(stamp)))
            ==> line_time(bytes, TimestampMode::Auto) == leading_time(trim_by(stamp, CharClass::Space), TimestampMode::Rfc3339),
{
}

} // verus!
