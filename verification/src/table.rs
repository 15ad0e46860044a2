//! Data tables: the records of a CSV file, the numbers and timestamps its
//! fields hold, and the per-column statistics that classify its columns.
//!
//! Splitting the bytes into records is the `csv` crate's work and reading
//! a timestamp `chrono`'s; which fields count as numbers, timestamps or
//! missing, and what is counted, is decided here.
use vstd::prelude::*;
use vstd::string::StrSliceExecFns;
use vstd::utf8::{decode_utf8, valid_utf8};
use crate::inspect::{
    Frequency, count_of, delimiter_for, frequency_of, frequency_spec, is_missing, is_missing_field,
    median_step, positive_gaps, sorted_u64,
};
use crate::json::string_from_utf8;
use crate::quantize::{trim, trimmed_piece, views};
use crate::text::{ascii_lowercase, ascii_lowercase_chars, chars_eq, chars_of};

verus! {

// ---------------------------------------------------------------------------
// Records
// ---------------------------------------------------------------------------

/// The header and the records that the `csv` crate reads from `bytes`
/// (a header row, records of any length, the given delimiter), or `None`
/// where it reports an error.
pub uninterp spec fn csv_table(bytes: Seq<u8>, delimiter: u8) -> Option<(Seq<Seq<char>>, Seq<Seq<Seq<char>>>)>;

/// The fields of each record.
pub open spec fn rows_view(rows: Seq<Vec<String>>) -> Seq<Seq<Seq<char>>> {
    rows.map_values(|r: Vec<String>| views(r@))
}

/// Why a table could not be read, with the reader's message.
#[derive(Debug)]
pub enum CsvFailure {
    /// The header row.
    Header(String),
    /// A record (its position among the records).
    Record(usize, String),
}

/// `csv::Reader::headers` and `csv::Reader::records` over the bytes of a
/// table: the header and every record as owned strings, or the first error.
#[verifier::external_body]
fn read_csv(bytes: &[u8], delimiter: u8) -> (r: Result<(Vec<String>, Vec<Vec<String>>), CsvFailure>)
    ensures
        match r {
            Ok((h, rows)) => csv_table(bytes@, delimiter) == Some((views(h@), rows_view(rows@))),
            Err(_) => csv_table(bytes@, delimiter) is None,
        },
{
    let mut rdr = csv::ReaderBuilder::new().has_headers(true).flexible(true).delimiter(delimiter).from_reader(
        bytes,
    );
    let header = match rdr.headers() {
        Ok(h) => h.iter().map(|f| f.to_string()).collect(),
        Err(e) => return Err(CsvFailure::Header(e.to_string())),
    };
    let mut rows = Vec::new();
    for (i, rec) in rdr.records().enumerate() {
        match rec {
            Ok(r) => rows.push(r.iter().map(|f| f.to_string()).collect()),
            Err(e) => return Err(CsvFailure::Record(i, e.to_string())),
        }
    }
    Ok((header, rows))
}

/// The index of the first newline byte at or after `i` (or the length).
pub open spec fn newline_from(b: Seq<u8>, i: int) -> int
    decreases b.len() - i,
{
    if i < 0 || i >= b.len() {
        b.len() as int
    } else if b[i] == 0x0A {
        i
    } else {
        newline_from(b, i + 1)
    }
}

/// The first line of a file as a line reader returns it: up to and
/// including the first newline.
pub open spec fn first_line(b: Seq<u8>) -> Seq<u8> {
    let nl = newline_from(b, 0);
    if nl < b.len() {
        b.subrange(0, nl + 1)
    } else {
        b
    }
}

/// The delimiter of a table: the one its first line suggests, or the comma
/// where that line is not UTF-8.
pub open spec fn table_delimiter(b: Seq<u8>) -> u8 {
    let l = first_line(b);
    if valid_utf8(l) {
        let cs = decode_utf8(l);
        delimiter_for(count_of(cs, '\t'), count_of(cs, ','), count_of(cs, ';'), count_of(cs, '|'))
    } else {
        0x2C
    }
}

fn first_line_bytes(b: &[u8]) -> (r: Vec<u8>)
    ensures
        r@ == first_line(b@),
{
    let mut out: Vec<u8> = Vec::new();
    let mut i: usize = 0;
    while i < b.len()
        invariant
            i <= b@.len(),
            out@ == b@.subrange(0, i as int),
            newline_from(b@, 0) == newline_from(b@, i as int),
        decreases b@.len() - i,
    {
        out.push(b[i]);
        if b[i] == 0x0A {
            assert(out@ =~= b@.subrange(0, i + 1));
            return out;
        }
        i = i + 1;
        assert(out@ =~= b@.subrange(0, i as int));
    }
    assert(out@ =~= b@);
    out
}

/// The delimiter of a table's bytes (see [`table_delimiter`]).
pub fn delimiter_of(bytes: &[u8]) -> (d: u8)
    ensures
        d == table_delimiter(bytes@),
{
    let line = first_line_bytes(bytes);
    match string_from_utf8(line) {
        Some(s) => crate::inspect::choose_delimiter(s.as_str()),
        None => 0x2C,
    }
}

/// The header and records of a table, read with its own delimiter.
pub fn read_table(bytes: &[u8]) -> (r: Result<(Vec<String>, Vec<Vec<String>>), CsvFailure>)
    ensures
        match r {
            Ok((h, rows)) => csv_table(bytes@, table_delimiter(bytes@)) == Some(
                (views(h@), rows_view(rows@)),
            ),
            Err(_) => csv_table(bytes@, table_delimiter(bytes@)) is None,
        },
{
    let d = delimiter_of(bytes);
    read_csv(bytes, d)
}

/// Every field trimmed: the column names of a table as they are shown
/// and matched.
pub fn trim_all(fields: &[String]) -> (r: Vec<String>)
    ensures
        views(r@) == views(fields@).map_values(|f: Seq<char>| trim(f)),
{
    let mut out: Vec<String> = Vec::new();
    let mut i: usize = 0;
    while i < fields.len()
        invariant
            i <= fields@.len(),
            views(out@) == views(fields@).take(i as int).map_values(|f: Seq<char>| trim(f)),
        decreases fields@.len() - i,
    {
        let ghost before = views(out@);
        out.push(trimmed(fields[i].as_str()));
        assert(views(out@) =~= before.push(trim(fields@[i as int]@)));
        i = i + 1;
        assert(views(fields@).take(i as int) =~= views(fields@).take(i - 1).push(fields@[i - 1]@));
        assert(views(out@) =~= views(fields@).take(i as int).map_values(|f: Seq<char>| trim(f)));
    }
    assert(views(fields@).take(i as int) =~= views(fields@));
    out
}

// ---------------------------------------------------------------------------
// Numbers
// ---------------------------------------------------------------------------

pub open spec fn is_digit(c: char) -> bool {
    '0' <= c && c <= '9'
}

/// The first index from `i` on that does not hold a digit (or the length).
pub open spec fn digits_end(s: Seq<char>, i: int) -> int
    decreases s.len() - i,
{
    if 0 <= i < s.len() && is_digit(s[i]) {
        digits_end(s, i + 1)
    } else {
        i
    }
}

/// `Exp ::= 'e' Sign? Digit+` (either case), from `i` to the end.
pub open spec fn exponent_at(b: Seq<char>, i: int) -> bool {
    let j = if i + 1 < b.len() && (b[i + 1] == '+' || b[i + 1] == '-') {
        i + 2
    } else {
        i + 1
    };
    &&& 0 <= i < b.len()
    &&& (b[i] == 'e' || b[i] == 'E')
    &&& digits_end(b, j) == b.len()
    &&& b.len() > j
}

/// `Number ::= (Digit+ | Digit+ '.' Digit* | Digit* '.' Digit+) Exp?`,
/// read left to right: integer digits, an optional point and fraction
/// digits (at least one digit in all), then the end or an exponent.
pub open spec fn number_text(b: Seq<char>) -> bool {
    let d1 = digits_end(b, 0);
    let has_point = d1 < b.len() && b[d1] == '.';
    let m_end = if has_point {
        digits_end(b, d1 + 1)
    } else {
        d1
    };
    let digits = if has_point {
        d1 + (m_end - d1 - 1)
    } else {
        d1
    };
    digits > 0 && (m_end == b.len() || exponent_at(b, m_end))
}

/// Text that std's `f32` and `f64` `FromStr` accept, by the grammar their
/// documentation gives: `Sign? ('inf' | 'infinity' | 'nan' | Number)`
/// with letters in any case and no surrounding white space.
pub open spec fn float_text(s: Seq<char>) -> bool {
    let body = if s.len() > 0 && (s[0] == '+' || s[0] == '-') {
        s.subrange(1, s.len() as int)
    } else {
        s
    };
    let l = ascii_lowercase(body);
    l == "inf"@ || l == "infinity"@ || l == "nan"@ || number_text(body)
}

fn digits_from(b: &Vec<char>, i: usize) -> (r: usize)
    requires
        i <= b@.len(),
    ensures
        r == digits_end(b@, i as int),
        i <= r <= b@.len(),
{
    let mut j = i;
    while j < b.len() && '0' <= b[j] && b[j] <= '9'
        invariant
            i <= j <= b@.len(),
            digits_end(b@, i as int) == digits_end(b@, j as int),
        decreases b@.len() - j,
    {
        j = j + 1;
    }
    j
}

fn is_number_text(b: &Vec<char>) -> (r: bool)
    ensures
        r == number_text(b@),
{
    let n = b.len();
    let d1 = digits_from(b, 0);
    let has_point = d1 < n && b[d1] == '.';
    let m_end = if has_point {
        digits_from(b, d1 + 1)
    } else {
        d1
    };
    let digits = if has_point {
        d1 + (m_end - d1 - 1)
    } else {
        d1
    };
    if digits == 0 {
        return false;
    }
    if m_end == n {
        return true;
    }
    if b[m_end] != 'e' && b[m_end] != 'E' {
        return false;
    }
    let j = if m_end + 1 < n && (b[m_end + 1] == '+' || b[m_end + 1] == '-') {
        m_end + 2
    } else {
        m_end + 1
    };
    let e = digits_from(b, j);
    e == n && n > j
}

/// Whether `str::parse::<f64>` (or `f32`) accepts `s` (see [`float_text`]).
pub fn is_float_text(s: &str) -> (r: bool)
    ensures
        r == float_text(s@),
{
    let cs = chars_of(s);
    let n = cs.len();
    let start: usize = if n > 0 && (cs[0] == '+' || cs[0] == '-') {
        1
    } else {
        0
    };
    let body = s.substring_char(start, n);
    assert(body@ =~= (if s@.len() > 0 && (s@[0] == '+' || s@[0] == '-') {
        s@.subrange(1, s@.len() as int)
    } else {
        s@
    }));
    let l = ascii_lowercase_chars(body);
    let inf = chars_of("inf");
    let infinity = chars_of("infinity");
    let nan = chars_of("nan");
    if chars_eq(&l, &inf) || chars_eq(&l, &infinity) || chars_eq(&l, &nan) {
        return true;
    }
    let bc = chars_of(body);
    is_number_text(&bc)
}

/// `s` trimmed, as an owned string.
fn trimmed(s: &str) -> (r: String)
    ensures
        r@ == trim(s@),
{
    let cs = chars_of(s);
    let r = trimmed_piece(s, &cs, 0, cs.len());
    assert(s@.subrange(0, s@.len() as int) =~= s@);
    r
}

/// Every header field is a number: such a table has one series per line
/// and no header.
pub fn header_is_numeric(header: &[String]) -> (r: bool)
    ensures
        r == (forall|i: int| 0 <= i < header@.len() ==> float_text(trim(#[trigger] header@[i]@))),
{
    let mut i: usize = 0;
    while i < header.len()
        invariant
            i <= header@.len(),
            forall|q: int| 0 <= q < i ==> float_text(trim(#[trigger] header@[q]@)),
        decreases header@.len() - i,
    {
        let t = trimmed(header[i].as_str());
        if !is_float_text(t.as_str()) {
            return false;
        }
        i = i + 1;
    }
    true
}

// ---------------------------------------------------------------------------
// Timestamps
// ---------------------------------------------------------------------------

/// The instant (seconds and nanoseconds since the epoch) of the RFC 3339
/// timestamp `s`, as chrono's `DateTime::parse_from_rfc3339` reads it.
pub uninterp spec fn rfc3339_instant(s: Seq<char>) -> Option<(i64, u32)>;

/// The instant, read as UTC, of the date and time `s` in the strftime
/// format `fmt`, as chrono's `NaiveDateTime::parse_from_str` reads it.
pub uninterp spec fn datetime_in(s: Seq<char>, fmt: Seq<char>) -> Option<(i64, u32)>;

/// The midnight instant, read as UTC, of the date `s` in the strftime
/// format `fmt`, as chrono's `NaiveDate::parse_from_str` reads it.
pub uninterp spec fn date_in(s: Seq<char>, fmt: Seq<char>) -> Option<(i64, u32)>;

/// `chrono::DateTime::parse_from_rfc3339`, as seconds and nanoseconds
/// since the epoch.
#[verifier::external_body]
fn parse_rfc3339(s: &str) -> (r: Option<(i64, u32)>)
    ensures
        r == rfc3339_instant(s@),
{
    chrono::DateTime::parse_from_rfc3339(s).ok().map(|t| (t.timestamp(), t.timestamp_subsec_nanos()))
}

/// `chrono::NaiveDateTime::parse_from_str`, read as UTC.
#[verifier::external_body]
fn parse_datetime_in(s: &str, fmt: &str) -> (r: Option<(i64, u32)>)
    ensures
        r == datetime_in(s@, fmt@),
{
    chrono::NaiveDateTime::parse_from_str(s, fmt).ok().map(|t| t.and_utc()).map(
        |t| (t.timestamp(), t.timestamp_subsec_nanos()),
    )
}

/// `chrono::NaiveDate::parse_from_str`, at midnight UTC.
#[verifier::external_body]
fn parse_date_in(s: &str, fmt: &str) -> (r: Option<(i64, u32)>)
    ensures
        r == date_in(s@, fmt@),
{
    chrono::NaiveDate::parse_from_str(s, fmt).ok().and_then(|d| d.and_hms_opt(0, 0, 0)).map(
        |t| t.and_utc(),
    ).map(|t| (t.timestamp(), t.timestamp_subsec_nanos()))
}

/// How many timestamp formats are tried after RFC 3339.
pub const NUM_DATETIME_FORMATS: usize = 10;

/// The timestamp formats, in the order they are tried.
pub open spec fn datetime_format(k: int) -> Seq<char> {
    if k == 0 {
        "%Y-%m-%d %H:%M:%S"@
    } else if k == 1 {
        "%Y/%m/%d %H:%M:%S"@
    } else if k == 2 {
        "%Y-%m-%dT%H:%M:%S"@
    } else if k == 3 {
        "%Y-%m-%d %H:%M"@
    } else if k == 4 {
        "%Y/%m/%d %H:%M"@
    } else if k == 5 {
        "%Y-%m-%d"@
    } else if k == 6 {
        "%Y/%m/%d"@
    } else if k == 7 {
        "%m/%d/%Y %H:%M:%S"@
    } else if k == 8 {
        "%m/%d/%Y %H:%M"@
    } else {
        "%m/%d/%Y"@
    }
}

fn format_text(k: usize) -> (r: &'static str)
    requires
        k < NUM_DATETIME_FORMATS,
    ensures
        r@ == datetime_format(k as int),
{
    if k == 0 {
        "%Y-%m-%d %H:%M:%S"
    } else if k == 1 {
        "%Y/%m/%d %H:%M:%S"
    } else if k == 2 {
        "%Y-%m-%dT%H:%M:%S"
    } else if k == 3 {
        "%Y-%m-%d %H:%M"
    } else if k == 4 {
        "%Y/%m/%d %H:%M"
    } else if k == 5 {
        "%Y-%m-%d"
    } else if k == 6 {
        "%Y/%m/%d"
    } else if k == 7 {
        "%m/%d/%Y %H:%M:%S"
    } else if k == 8 {
        "%m/%d/%Y %H:%M"
    } else {
        "%m/%d/%Y"
    }
}

/// A reading of a timestamp: seconds and nanoseconds since the epoch.
pub type Instant = (i64, u32);

/// The first reading among `tries` from `k` on: each entry's reading as a
/// date and time, then as a date.
pub open spec fn first_reading(tries: Seq<(Option<Instant>, Option<Instant>)>, k: int) -> Option<Instant>
    decreases tries.len() - k,
{
    if k < 0 || k >= tries.len() {
        None
    } else if tries[k].0 is Some {
        tries[k].0
    } else if tries[k].1 is Some {
        tries[k].1
    } else {
        first_reading(tries, k + 1)
    }
}

/// The instant chosen from what the readers gave: the RFC 3339 reading,
/// else the first reading by the formats in order.
pub open spec fn chosen_instant(rfc: Option<Instant>, tries: Seq<(Option<Instant>, Option<Instant>)>) -> Option<Instant> {
    if rfc is Some {
        rfc
    } else {
        first_reading(tries, 0)
    }
}

/// What the format readers give for `t`, format by format.
pub open spec fn format_readings(t: Seq<char>) -> Seq<(Option<Instant>, Option<Instant>)> {
    Seq::new(
        NUM_DATETIME_FORMATS as nat,
        |k: int| (datetime_in(t, datetime_format(k)), date_in(t, datetime_format(k))),
    )
}

/// The instant a table field names: trimmed, read as RFC 3339, else by
/// the formats in order; blank fields name none.
pub open spec fn instant_of(s: Seq<char>) -> Option<Instant> {
    let t = trim(s);
    if t.len() == 0 {
        None
    } else {
        chosen_instant(rfc3339_instant(t), format_readings(t))
    }
}

/// The instant chosen from the readings of a field (see [`chosen_instant`]).
pub fn choose_instant(rfc: Option<Instant>, tries: &[(Option<Instant>, Option<Instant>)]) -> (r: Option<Instant>)
    ensures
        r == chosen_instant(rfc, tries@),
{
    if rfc.is_some() {
        return rfc;
    }
    let mut k: usize = 0;
    while k < tries.len()
        invariant
            rfc is None,
            k <= tries@.len(),
            first_reading(tries@, 0) == first_reading(tries@, k as int),
        decreases tries@.len() - k,
    {
        let (a, b) = tries[k];
        assert((a, b) == tries@[k as int]);
        if a.is_some() {
            return a;
        }
        if b.is_some() {
            return b;
        }
        k = k + 1;
    }
    None
}

/// Readings cut off after the first entry that holds one choose as the
/// whole list does.
proof fn lemma_first_reading_prefix(
    p: Seq<(Option<Instant>, Option<Instant>)>,
    full: Seq<(Option<Instant>, Option<Instant>)>,
    k: int,
)
    requires
        p.len() <= full.len(),
        p == full.take(p.len() as int),
        0 <= k <= p.len(),
        k < p.len() || p.len() == full.len(),
        forall|j: int| k <= j < p.len() - 1 ==> (#[trigger] p[j]).0 is None && p[j].1 is None,
        p.len() == full.len() || (p.len() > 0 && (p[p.len() - 1].0 is Some || p[p.len() - 1].1 is Some)),
    ensures
        first_reading(p, k) == first_reading(full, k),
    decreases p.len() - k,
{
    if k < p.len() {
        assert(p[k] == full[k]);
        if p[k].0 is None && p[k].1 is None {
            lemma_first_reading_prefix(p, full, k + 1);
        }
    }
}

/// The instant a field names (see [`instant_of`]).
pub fn try_parse_datetime(s: &str) -> (r: Option<Instant>)
    ensures
        r == instant_of(s@),
{
    let t = trimmed(s);
    let ts = t.as_str();
    if ts.unicode_len() == 0 {
        return None;
    }
    let rfc = parse_rfc3339(ts);
    let ghost full = format_readings(ts@);
    let mut tries: Vec<(Option<Instant>, Option<Instant>)> = Vec::new();
    if rfc.is_none() {
        let mut k: usize = 0;
        let mut done = false;
        while k < NUM_DATETIME_FORMATS && !done
            invariant
                full == format_readings(ts@),
                k <= NUM_DATETIME_FORMATS,
                tries@ == full.take(k as int),
                done ==> k > 0 && (tries@[k - 1].0 is Some || tries@[k - 1].1 is Some),
                forall|j: int| 0 <= j < k - 1 ==> (#[trigger] tries@[j]).0 is None && tries@[j].1 is None,
                !done && k > 0 ==> tries@[k - 1].0 is None && tries@[k - 1].1 is None,
            decreases NUM_DATETIME_FORMATS - k,
        {
            let f = format_text(k);
            let a = parse_datetime_in(ts, f);
            let b = parse_date_in(ts, f);
            done = a.is_some() || b.is_some();
            tries.push((a, b));
            k = k + 1;
            assert(tries@ =~= full.take(k as int));
        }
        proof {
            if !done {
                assert(k == NUM_DATETIME_FORMATS);
                assert(tries@ =~= full);
            }
            lemma_first_reading_prefix(tries@, full, 0);
        }
    }
    choose_instant(rfc, tries.as_slice())
}

// ---------------------------------------------------------------------------
// Column statistics
// ---------------------------------------------------------------------------

/// What a field is counted as.
pub enum FieldKind {
    /// Present and a number.
    Numeric,
    /// Present and a timestamp.
    Datetime,
    /// Missing (blank, `nan` or `null`).
    Missing,
}

/// Whether field `f` counts as `kind`.
pub open spec fn field_is(kind: FieldKind, f: Seq<char>) -> bool {
    match kind {
        FieldKind::Numeric => !is_missing(f) && float_text(trim(f)),
        FieldKind::Datetime => !is_missing(f) && instant_of(trim(f)) is Some,
        FieldKind::Missing => is_missing(f),
    }
}

/// How many of the first `k` records have a field in column `c` that
/// counts as `kind`.
pub open spec fn count_kind(rows: Seq<Seq<Seq<char>>>, c: int, k: int, kind: FieldKind) -> nat
    decreases k,
{
    if k <= 0 || k > rows.len() {
        0
    } else {
        count_kind(rows, c, k - 1, kind) + (if 0 <= c < rows[k - 1].len() && field_is(kind, rows[k - 1][c]) {
            1nat
        } else {
            0nat
        })
    }
}

/// The first three present fields of column `c` among the first `k`
/// records, trimmed.
pub open spec fn samples_of(rows: Seq<Seq<Seq<char>>>, c: int, k: int) -> Seq<Seq<char>>
    decreases k,
{
    if k <= 0 || k > rows.len() {
        Seq::empty()
    } else {
        let s = samples_of(rows, c, k - 1);
        if 0 <= c < rows[k - 1].len() && !is_missing(rows[k - 1][c]) && s.len() < 3 {
            s.push(trim(rows[k - 1][c]))
        } else {
            s
        }
    }
}

proof fn lemma_count_bound(rows: Seq<Seq<Seq<char>>>, c: int, k: int, kind: FieldKind)
    requires
        0 <= k <= rows.len(),
    ensures
        count_kind(rows, c, k, kind) <= k,
    decreases k,
{
    if k > 0 {
        lemma_count_bound(rows, c, k - 1, kind);
    }
}

/// What each column of a table holds, counted over its records.
#[derive(Debug)]
pub struct ColumnStats {
    /// Present fields that are numbers, per column.
    pub numeric: Vec<usize>,
    /// Present fields that are timestamps, per column.
    pub datetime: Vec<usize>,
    /// Missing fields, per column.
    pub missing: Vec<usize>,
    /// The first three present fields, trimmed, per column.
    pub samples: Vec<Vec<String>>,
}

fn column_counts(rows: &[Vec<String>], c: usize) -> (r: (usize, usize, usize))
    ensures
        r.0 == count_kind(rows_view(rows@), c as int, rows@.len() as int, FieldKind::Numeric),
        r.1 == count_kind(rows_view(rows@), c as int, rows@.len() as int, FieldKind::Datetime),
        r.2 == count_kind(rows_view(rows@), c as int, rows@.len() as int, FieldKind::Missing),
{
    let ghost rv = rows_view(rows@);
    let mut num: usize = 0;
    let mut dt: usize = 0;
    let mut miss: usize = 0;
    let mut k: usize = 0;
    while k < rows.len()
        invariant
            rv == rows_view(rows@),
            rv.len() == rows@.len(),
            k <= rows@.len(),
            num == count_kind(rv, c as int, k as int, FieldKind::Numeric),
            dt == count_kind(rv, c as int, k as int, FieldKind::Datetime),
            miss == count_kind(rv, c as int, k as int, FieldKind::Missing),
        decreases rows@.len() - k,
    {
        proof {
            lemma_count_bound(rv, c as int, k as int, FieldKind::Numeric);
            lemma_count_bound(rv, c as int, k as int, FieldKind::Datetime);
            lemma_count_bound(rv, c as int, k as int, FieldKind::Missing);
        }
        let row = &rows[k];
        assert(rv[k as int] == views(row@));
        if c < row.len() {
            let f = row[c].as_str();
            assert(rv[k as int][c as int] == f@);
            if is_missing_field(f) {
                miss = miss + 1;
            } else {
                let t = trimmed(f);
                if is_float_text(t.as_str()) {
                    num = num + 1;
                }
                if try_parse_datetime(t.as_str()).is_some() {
                    dt = dt + 1;
                }
            }
        }
        k = k + 1;
    }
    (num, dt, miss)
}

fn column_samples(rows: &[Vec<String>], c: usize) -> (r: Vec<String>)
    ensures
        views(r@) == samples_of(rows_view(rows@), c as int, rows@.len() as int),
{
    let ghost rv = rows_view(rows@);
    let mut out: Vec<String> = Vec::new();
    let mut k: usize = 0;
    while k < rows.len()
        invariant
            rv == rows_view(rows@),
            rv.len() == rows@.len(),
            k <= rows@.len(),
            views(out@) == samples_of(rv, c as int, k as int),
        decreases rows@.len() - k,
    {
        let row = &rows[k];
        assert(rv[k as int] == views(row@));
        let ghost before = out@;
        if c < row.len() && out.len() < 3 {
            let f = row[c].as_str();
            assert(rv[k as int][c as int] == f@);
            if !is_missing_field(f) {
                out.push(trimmed(f));
                assert(views(out@) =~= views(before).push(trim(f@)));
            }
        }
        k = k + 1;
    }
    out
}

/// Counts and samples of each of the first `num_cols` columns over all
/// records (a record too short for a column counts for nothing there).
pub fn column_stats(rows: &[Vec<String>], num_cols: usize) -> (s: ColumnStats)
    ensures
        s.numeric@ == Seq::new(
            num_cols as nat,
            |c: int| count_kind(rows_view(rows@), c, rows@.len() as int, FieldKind::Numeric) as usize,
        ),
        s.datetime@ == Seq::new(
            num_cols as nat,
            |c: int| count_kind(rows_view(rows@), c, rows@.len() as int, FieldKind::Datetime) as usize,
        ),
        s.missing@ == Seq::new(
            num_cols as nat,
            |c: int| count_kind(rows_view(rows@), c, rows@.len() as int, FieldKind::Missing) as usize,
        ),
        s.samples@.len() == num_cols,
        forall|c: int| 0 <= c < num_cols ==> views(#[trigger] s.samples@[c]@) == samples_of(rows_view(rows@), c, rows@.len() as int),
{
    let ghost rv = rows_view(rows@);
    let ghost n = rows@.len() as int;
    let mut numeric: Vec<usize> = Vec::new();
    let mut datetime: Vec<usize> = Vec::new();
    let mut missing: Vec<usize> = Vec::new();
    let mut samples: Vec<Vec<String>> = Vec::new();
    let mut c: usize = 0;
    while c < num_cols
        invariant
            rv == rows_view(rows@),
            n == rows@.len(),
            c <= num_cols,
            numeric@ == Seq::new(c as nat, |q: int| count_kind(rv, q, n, FieldKind::Numeric) as usize),
            datetime@ == Seq::new(c as nat, |q: int| count_kind(rv, q, n, FieldKind::Datetime) as usize),
            missing@ == Seq::new(c as nat, |q: int| count_kind(rv, q, n, FieldKind::Missing) as usize),
            samples@.len() == c,
            forall|q: int| 0 <= q < c ==> views(#[trigger] samples@[q]@) == samples_of(rv, q, n),
        decreases num_cols - c,
    {
        let (a, b, m) = column_counts(rows, c);
        numeric.push(a);
        datetime.push(b);
        missing.push(m);
        samples.push(column_samples(rows, c));
        c = c + 1;
        assert(numeric@ =~= Seq::new(c as nat, |q: int| count_kind(rv, q, n, FieldKind::Numeric) as usize));
        assert(datetime@ =~= Seq::new(c as nat, |q: int| count_kind(rv, q, n, FieldKind::Datetime) as usize));
        assert(missing@ =~= Seq::new(c as nat, |q: int| count_kind(rv, q, n, FieldKind::Missing) as usize));
    }
    ColumnStats { numeric, datetime, missing, samples }
}

// ---------------------------------------------------------------------------
// Sampling frequency
// ---------------------------------------------------------------------------

/// The instants named by column `col` of the first `k` records, in order
/// (fields that name none are skipped).
pub open spec fn instants_in(rows: Seq<Seq<Seq<char>>>, col: int, k: int) -> Seq<(i64, u32)>
    decreases k,
{
    if k <= 0 || k > rows.len() {
        Seq::empty()
    } else {
        let s = instants_in(rows, col, k - 1);
        if 0 <= col < rows[k - 1].len() && instant_of(rows[k - 1][col]) is Some {
            s.push(instant_of(rows[k - 1][col])->Some_0)
        } else {
            s
        }
    }
}

/// The instants of column `col` over the first `limit` records.
pub fn date_instants(rows: &[Vec<String>], col: usize, limit: usize) -> (r: Vec<(i64, u32)>)
    ensures
        r@ == instants_in(rows_view(rows@), col as int, if limit < rows@.len() { limit as int } else { rows@.len() as int }),
{
    let ghost rv = rows_view(rows@);
    let end = if limit < rows.len() {
        limit
    } else {
        rows.len()
    };
    let mut out: Vec<(i64, u32)> = Vec::new();
    let mut k: usize = 0;
    while k < end
        invariant
            rv == rows_view(rows@),
            rv.len() == rows@.len(),
            end <= rows@.len(),
            k <= end,
            out@ == instants_in(rv, col as int, k as int),
        decreases end - k,
    {
        let row = &rows[k];
        assert(rv[k as int] == views(row@));
        if col < row.len() {
            let f = row[col].as_str();
            assert(rv[k as int][col as int] == f@);
            match try_parse_datetime(f) {
                Some(x) => out.push(x),
                None => {},
            }
        }
        k = k + 1;
    }
    out
}

/// How many records the frequency of a date column is read from.
pub const FREQUENCY_SAMPLE: usize = 50;

/// The sampling frequency, and the seasonal period it suggests, of a date
/// column: from the median non-zero step between the instants of its first
/// [`FREQUENCY_SAMPLE`] records; none where no two differ.
pub fn infer_frequency(rows: &[Vec<String>], col: usize) -> (r: Option<(Frequency, Option<usize>)>)
    ensures
        ({
            let n = if FREQUENCY_SAMPLE < rows@.len() { FREQUENCY_SAMPLE as int } else { rows@.len() as int };
            let ts = instants_in(rows_view(rows@), col as int, n);
            let g = positive_gaps(ts, ts.len() as int);
            &&& g.len() == 0 ==> r is None
            &&& g.len() > 0 ==> exists|s: Seq<u64>|
                #![trigger s.to_multiset()]
                sorted_u64(s) && s.to_multiset() == g.to_multiset() && r == Some(
                    frequency_spec(s[(s.len() / 2) as int]),
                )
        }),
{
    let ts = date_instants(rows, col, FREQUENCY_SAMPLE);
    match median_step(ts.as_slice()) {
        Some(step) => Some(frequency_of(step)),
        None => None,
    }
}

} // verus!

verus! {

// ---------------------------------------------------------------------------
// One series per line
// ---------------------------------------------------------------------------

/// Splitting the first `k` characters of `s` at every `c`: the pieces
/// finished so far and the one under way.
pub open spec fn split_prefix(s: Seq<char>, c: char, k: int) -> (Seq<Seq<char>>, Seq<char>)
    decreases k,
{
    if k <= 0 || k > s.len() {
        (Seq::empty(), Seq::empty())
    } else {
        let (done, cur) = split_prefix(s, c, k - 1);
        if s[k - 1] == c {
            (done.push(cur), Seq::empty())
        } else {
            (done, cur.push(s[k - 1]))
        }
    }
}

/// The pieces of `s` between occurrences of `c`, as `str::split` gives
/// them (one more piece than there are separators).
pub open spec fn pieces(s: Seq<char>, c: char) -> Seq<Seq<char>> {
    let (done, cur) = split_prefix(s, c, s.len() as int);
    done.push(cur)
}

/// A line that holds data: something other than white space, and not a
/// `#` comment.
pub open spec fn is_data_line(l: Seq<char>) -> bool {
    trim(l).len() > 0 && trim(l)[0] != '#'
}

/// The trimmed comma-separated fields of each data line among the first
/// `k` lines.
pub open spec fn data_rows(lines: Seq<Seq<char>>, k: int) -> Seq<Seq<Seq<char>>>
    decreases k,
{
    if k <= 0 || k > lines.len() {
        Seq::empty()
    } else {
        let r = data_rows(lines, k - 1);
        if is_data_line(lines[k - 1]) {
            r.push(pieces(lines[k - 1], ',').map_values(|f: Seq<char>| trim(f)))
        } else {
            r
        }
    }
}

/// The rows of a table with one series per line: the text split at line
/// feeds, lines without data dropped, each remaining line split at commas
/// and its fields trimmed. (A carriage return that ends a line is white
/// space and goes with the trimming.)
pub open spec fn series_rows(text: Seq<char>) -> Seq<Seq<Seq<char>>> {
    let lines = pieces(text, '\n');
    data_rows(lines, lines.len() as int)
}

/// The subranges of `cs` that `ranges` name.
pub open spec fn ranged(cs: Seq<char>, ranges: Seq<(usize, usize)>) -> Seq<Seq<char>> {
    Seq::new(ranges.len(), |j: int| cs.subrange(ranges[j].0 as int, ranges[j].1 as int))
}

/// The ranges of the pieces of `cs[lo..hi]` between occurrences of `c`.
fn split_ranges(cs: &Vec<char>, lo: usize, hi: usize, c: char) -> (r: Vec<(usize, usize)>)
    requires
        lo <= hi <= cs@.len(),
    ensures
        ranged(cs@, r@) == pieces(cs@.subrange(lo as int, hi as int), c),
        forall|j: int| 0 <= j < r@.len() ==> lo <= (#[trigger] r@[j]).0 <= r@[j].1 <= hi,
{
    let ghost sub = cs@.subrange(lo as int, hi as int);
    let mut out: Vec<(usize, usize)> = Vec::new();
    let mut start = lo;
    let mut k = lo;
    while k < hi
        invariant
            sub == cs@.subrange(lo as int, hi as int),
            lo <= start <= k <= hi <= cs@.len(),
            split_prefix(sub, c, k - lo) == (ranged(cs@, out@), cs@.subrange(start as int, k as int)),
            forall|j: int| 0 <= j < out@.len() ==> lo <= (#[trigger] out@[j]).0 <= out@[j].1 <= hi,
        decreases hi - k,
    {
        assert(sub[k - lo] == cs@[k as int]);
        if cs[k] == c {
            let ghost before = ranged(cs@, out@);
            out.push((start, k));
            assert(ranged(cs@, out@) =~= before.push(cs@.subrange(start as int, k as int)));
            k = k + 1;
            start = k;
            assert(cs@.subrange(start as int, k as int) =~= Seq::<char>::empty());
        } else {
            k = k + 1;
            assert(cs@.subrange(start as int, k as int) =~= cs@.subrange(start as int, k - 1).push(cs@[k - 1]));
        }
    }
    let ghost before = ranged(cs@, out@);
    out.push((start, hi));
    assert(ranged(cs@, out@) =~= before.push(cs@.subrange(start as int, hi as int)));
    out
}

/// The rows of a table with one series per line (see [`series_rows`]).
pub fn series_fields(text: &str) -> (r: Vec<Vec<String>>)
    ensures
        r@.map_values(|row: Vec<String>| views(row@)) == series_rows(text@),
{
    let cs = chars_of(text);
    let n = cs.len();
    let lines = split_ranges(&cs, 0, n, '\n');
    let ghost ls = pieces(text@, '\n');
    assert(cs@.subrange(0, n as int) =~= text@);
    let mut out: Vec<Vec<String>> = Vec::new();
    let mut j: usize = 0;
    while j < lines.len()
        invariant
            cs@ == text@,
            n == cs@.len(),
            ls == pieces(text@, '\n'),
            ranged(cs@, lines@) == ls,
            forall|q: int| 0 <= q < lines@.len() ==> 0 <= (#[trigger] lines@[q]).0 <= lines@[q].1 <= n,
            j <= lines@.len(),
            out@.map_values(|row: Vec<String>| views(row@)) == data_rows(ls, j as int),
        decreases lines@.len() - j,
    {
        let (a, b) = lines[j];
        assert((a, b) == lines@[j as int]);
        assert(ls[j as int] == text@.subrange(a as int, b as int));
        let t = trimmed_piece(text, &cs, a, b);
        let tc = chars_of(t.as_str());
        let ghost before = out@.map_values(|row: Vec<String>| views(row@));
        if tc.len() > 0 && tc[0] != '#' {
            let fr = split_ranges(&cs, a, b, ',');
            let mut row: Vec<String> = Vec::new();
            let mut q: usize = 0;
            while q < fr.len()
                invariant
                    cs@ == text@,
                    a <= b <= n == cs@.len(),
                    ranged(cs@, fr@) == pieces(text@.subrange(a as int, b as int), ','),
                    forall|x: int| 0 <= x < fr@.len() ==> a <= (#[trigger] fr@[x]).0 <= fr@[x].1 <= b,
                    q <= fr@.len(),
                    views(row@) == pieces(text@.subrange(a as int, b as int), ',').take(q as int).map_values(
                        |f: Seq<char>| trim(f),
                    ),
                decreases fr@.len() - q,
            {
                let (x, y) = fr[q];
                assert((x, y) == fr@[q as int]);
                let f = trimmed_piece(text, &cs, x, y);
                let ghost pv = pieces(text@.subrange(a as int, b as int), ',');
                assert(pv[q as int] == text@.subrange(x as int, y as int));
                let ghost old_row = views(row@);
                row.push(f);
                assert(views(row@) =~= old_row.push(trim(pv[q as int])));
                assert(pv.take(q + 1) =~= pv.take(q as int).push(pv[q as int]));
                q = q + 1;
                assert(views(row@) =~= pv.take(q as int).map_values(|f: Seq<char>| trim(f)));
            }
            let ghost pv = pieces(text@.subrange(a as int, b as int), ',');
            assert(pv.take(pv.len() as int) =~= pv);
            out.push(row);
            assert(out@.map_values(|row: Vec<String>| views(row@)) =~= before.push(
                pv.map_values(|f: Seq<char>| trim(f)),
            ));
        }
        j = j + 1;
    }
    out
}

/// Every row is as long as the first.
pub fn rows_agree(rows: &[Vec<String>]) -> (r: bool)
    ensures
        r == (forall|i: int| 0 <= i < rows@.len() ==> (#[trigger] rows@[i]).len() == rows@[0].len()),
{
    if rows.len() == 0 {
        return true;
    }
    let w = rows[0].len();
    let mut i: usize = 1;
    while i < rows.len()
        invariant
            0 < rows@.len(),
            w == rows@[0].len(),
            1 <= i <= rows@.len(),
            forall|q: int| 0 <= q < i ==> (#[trigger] rows@[q]).len() == w,
        decreases rows@.len() - i,
    {
        if rows[i].len() != w {
            return false;
        }
        i = i + 1;
    }
    true
}

} // verus!

verus! {

// ---------------------------------------------------------------------------
// Labels of future steps
// ---------------------------------------------------------------------------

/// The text, in `%Y-%m-%d %H:%M:%S`, of the instant `(secs, nanos)` read
/// as a naive UTC date and time and moved by `k` times `step` seconds, as
/// chrono computes it; `None` where chrono refuses a step of that size or
/// the result leaves its range of dates.
pub uninterp spec fn shifted_text(secs: i64, nanos: u32, step: i64, k: i32) -> Option<Seq<char>>;

/// chrono's `DateTime::from_timestamp`, `TimeDelta::try_seconds`,
/// `TimeDelta::checked_mul`, `NaiveDateTime::checked_add_signed` and
/// `format`: the date and time `k` steps of `step` seconds after an
/// instant, as text. The contract claims only that the result is the one
/// named by [`shifted_text`].
#[verifier::external_body]
fn shift_and_format(secs: i64, nanos: u32, step: i64, k: i32) -> (r: Option<String>)
    ensures
        match r {
            Some(t) => shifted_text(secs, nanos, step, k) == Some(t@),
            None => shifted_text(secs, nanos, step, k) is None,
        },
{
    let start = chrono::DateTime::from_timestamp(secs, nanos)?.naive_utc();
    let delta = chrono::TimeDelta::try_seconds(step)?.checked_mul(k)?;
    Some(start.checked_add_signed(delta)?.format("%Y-%m-%d %H:%M:%S").to_string())
}

/// How the `k`-th future step is labelled.
#[derive(Debug)]
pub enum FutureLabel {
    /// A date and time: the last timestamp moved by `k` typical steps.
    At(String),
    /// `k` steps after a last timestamp that names no instant.
    AfterStep(usize),
    /// `k` steps after a history without timestamps.
    Tick(usize),
}

/// The step count as the multiplier of a time step: `k` as an `i32`.
pub open spec fn step_multiplier(k: int) -> i32 {
    #[verifier::truncate] (k as i32)
}

/// The date and time of the `k`-th future step can be written.
pub open spec fn label_fits(last: Option<Instant>, step: Option<i64>, k: int) -> bool {
    match (last, step) {
        (Some(t), Some(s)) => shifted_text(t.0, t.1, s, step_multiplier(k)) is Some,
        _ => true,
    }
}

/// `l` is the label of the `k`-th future step after the last timestamp
/// (`last` its instant, `last_text_empty` whether its text is empty) with
/// typical step `step` in seconds.
pub open spec fn labels_step(l: FutureLabel, last: Option<Instant>, step: Option<i64>, last_text_empty: bool, k: int) -> bool {
    match (last, step) {
        (Some(t), Some(s)) => l matches FutureLabel::At(x) && shifted_text(t.0, t.1, s, step_multiplier(k)) == Some(
            x@,
        ),
        _ => if !last_text_empty {
            l == FutureLabel::AfterStep(k as usize)
        } else {
            l == FutureLabel::Tick(k as usize)
        },
    }
}

/// The label of the `k`-th future step (see [`labels_step`]).
pub fn future_label(last: Option<Instant>, step: Option<i64>, last_text_empty: bool, k: usize) -> (r: FutureLabel)
    requires
        label_fits(last, step, k as int),
    ensures
        labels_step(r, last, step, last_text_empty, k as int),
{
    match (last, step) {
        (Some(t), Some(s)) => {
            let m: i32 = #[verifier::truncate] (k as i32);
            match shift_and_format(t.0, t.1, s, m) {
                Some(x) => FutureLabel::At(x),
                None => FutureLabel::Tick(k),
            }
        },
        _ => if !last_text_empty {
            FutureLabel::AfterStep(k)
        } else {
            FutureLabel::Tick(k)
        },
    }
}

/// The labels of future steps `1..=horizon`, or `None` where the date and
/// time of some step cannot be written.
pub fn future_labels(last: Option<Instant>, step: Option<i64>, last_text_empty: bool, horizon: usize) -> (r: Option<
    Vec<FutureLabel>,
>)
    ensures
        r is None <==> exists|k: int| 1 <= k <= horizon && !#[trigger] label_fits(last, step, k),
        r matches Some(v) ==> v@.len() == horizon && forall|i: int|
            0 <= i < horizon ==> labels_step(#[trigger] v@[i], last, step, last_text_empty, i + 1),
{
    let mut out: Vec<FutureLabel> = Vec::new();
    let mut k: usize = 0;
    while k < horizon
        invariant
            k <= horizon,
            out@.len() == k,
            forall|i: int| 0 <= i < k ==> labels_step(#[trigger] out@[i], last, step, last_text_empty, i + 1),
            forall|j: int| 1 <= j <= k ==> #[trigger] label_fits(last, step, j),
        decreases horizon - k,
    {
        let n = k + 1;
        let fits = match (last, step) {
            (Some(t), Some(s)) => {
                let m: i32 = #[verifier::truncate] (n as i32);
                shift_and_format(t.0, t.1, s, m).is_some()
            },
            _ => true,
        };
        if !fits {
            assert(!label_fits(last, step, n as int));
            return None;
        }
        out.push(future_label(last, step, last_text_empty, n));
        k = n;
    }
    Some(out)
}

} // verus!

verus! {

// ---------------------------------------------------------------------------
// The timestamp layouts
// ---------------------------------------------------------------------------

/// `fmt` holds the directive `%` `c` at `i`.
pub open spec fn directive_at(fmt: Seq<char>, i: int, c: char) -> bool {
    0 <= i && i + 1 < fmt.len() && fmt[i] == '%' && fmt[i + 1] == c
}

/// In `fmt` the month directive comes before the first day directive, and
/// both occur.
pub open spec fn month_before_day(fmt: Seq<char>) -> bool {
    exists|i: int, j: int|
        #![trigger directive_at(fmt, i, 'm'), directive_at(fmt, j, 'd')]
        i < j && directive_at(fmt, i, 'm') && directive_at(fmt, j, 'd') && forall|q: int|
            0 <= q < j ==> !#[trigger] directive_at(fmt, q, 'd')
}

proof fn lemma_month_before_day_at(fmt: Seq<char>, i: int, j: int)
    requires
        i < j,
        directive_at(fmt, i, 'm'),
        directive_at(fmt, j, 'd'),
        forall|q: int| 0 <= q < j ==> !#[trigger] directive_at(fmt, q, 'd'),
    ensures
        month_before_day(fmt),
{
}

/// Every timestamp layout reads the month before the day: the numeric
/// dates of a table are read as year, month, day (or month, day, year),
/// never with day and month swapped. The layouts with the year first read
/// it first.
pub proof fn lemma_layouts_month_before_day()
    ensures
        forall|k: int| 0 <= k < NUM_DATETIME_FORMATS ==> month_before_day(#[trigger] datetime_format(k)),
        forall|k: int|
            0 <= k < 7 ==> directive_at(#[trigger] datetime_format(k), 0, 'Y') && directive_at(datetime_format(k), 3, 'm')
                && directive_at(datetime_format(k), 6, 'd'),
        forall|k: int|
            7 <= k < NUM_DATETIME_FORMATS ==> directive_at(#[trigger] datetime_format(k), 0, 'm') && directive_at(
                datetime_format(k),
                3,
                'd',
            ) && directive_at(datetime_format(k), 6, 'Y'),
{
    reveal_strlit("%Y-%m-%d %H:%M:%S");
    reveal_strlit("%Y/%m/%d %H:%M:%S");
    reveal_strlit("%Y-%m-%dT%H:%M:%S");
    reveal_strlit("%Y-%m-%d %H:%M");
    reveal_strlit("%Y/%m/%d %H:%M");
    reveal_strlit("%Y-%m-%d");
    reveal_strlit("%Y/%m/%d");
    reveal_strlit("%m/%d/%Y %H:%M:%S");
    reveal_strlit("%m/%d/%Y %H:%M");
    reveal_strlit("%m/%d/%Y");
    assert forall|k: int| 0 <= k < NUM_DATETIME_FORMATS implies month_before_day(#[trigger] datetime_format(k)) by {
        let f = datetime_format(k);
        if k < 7 {
            assert forall|q: int| 0 <= q < 6 implies !#[trigger] directive_at(f, q, 'd') by {
                assert(q == 0 || q == 1 || q == 2 || q == 3 || q == 4 || q == 5);
            }
            lemma_month_before_day_at(f, 3, 6);
        } else {
            assert forall|q: int| 0 <= q < 3 implies !#[trigger] directive_at(f, q, 'd') by {
                assert(q == 0 || q == 1 || q == 2);
            }
            lemma_month_before_day_at(f, 0, 3);
        }
    }
}

/// The instant of a field written in the layout `YYYY/MM/DD hh:mm:ss` is
/// what chrono reads from it with `%Y/%m/%d %H:%M:%S` (year, month, day,
/// hour, minute, second), whenever RFC 3339 and the dashed layout
/// `%Y-%m-%d %H:%M:%S` read nothing from it.
pub proof fn lemma_slashed_timestamp(s: Seq<char>)
    requires
        trim(s).len() > 0,
        rfc3339_instant(trim(s)) is None,
        datetime_in(trim(s), "%Y-%m-%d %H:%M:%S"@) is None,
        date_in(trim(s), "%Y-%m-%d %H:%M:%S"@) is None,
        datetime_in(trim(s), "%Y/%m/%d %H:%M:%S"@) is Some,
    ensures
        instant_of(s) == datetime_in(trim(s), "%Y/%m/%d %H:%M:%S"@),
{
    let t = trim(s);
    let rs = format_readings(t);
    assert(rs[0] == (datetime_in(t, "%Y-%m-%d %H:%M:%S"@), date_in(t, "%Y-%m-%d %H:%M:%S"@)));
    assert(rs[1].0 == datetime_in(t, "%Y/%m/%d %H:%M:%S"@));
    assert(first_reading(rs, 0) == first_reading(rs, 1));
}

} // verus!
