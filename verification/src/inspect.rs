//! The decisions of the desktop front end: how a data file is read (its
//! delimiter, which fields are missing, which columns hold dates and which
//! are forecast targets, the sampling frequency), which window of history is
//! forecast from, and how a checkpoint's precision is labelled.
use vstd::prelude::*;
use vstd::multiset::Multiset;
use crate::quantize::{contains, is_white_exec, trim};
use crate::text::{ascii_lowercase, ascii_lowercase_chars, chars_eq, chars_of, str_eq};

verus! {

/// One column of an inspected table.
pub struct ColumnInfo {
    pub name: String,
    pub index: usize,
    pub is_numeric: bool,
    pub is_datetime: bool,
    pub missing_count: usize,
    pub sample_values: Vec<String>,
}

/// What inspecting a table found, and what it proposes.
pub struct CsvInspectionResult {
    pub file_path: String,
    pub total_rows: usize,
    pub total_columns: usize,
    pub columns: Vec<ColumnInfo>,
    pub proposed_date_col: Option<String>,
    pub proposed_target_cols: Vec<String>,
    pub inferred_frequency: Option<String>,
    pub recommended_period: Option<usize>,
    pub preview_headers: Vec<String>,
    pub preview_rows: Vec<Vec<String>>,
    pub is_transposed: bool,
    pub health_note: String,
}

/// A checkpoint offered for selection.
pub struct CheckpointMeta {
    pub name: String,
    pub path: String,
    pub precision: String,
    pub size_desc: String,
    pub is_recommended: bool,
    pub exists: bool,
}

/// A forecast asked for from the front end.
pub struct ForecastRequest {
    pub file_path: String,
    pub target_cols: Vec<String>,
    pub date_col: Option<String>,
    pub horizon: usize,
    pub seasonal_period: Option<usize>,
    pub checkpoint_path: String,
    pub make_positive: bool,
    pub use_symmetric_averaging: bool,
    pub use_boundary_smoothing: bool,
    pub use_robust_znorm: bool,
    pub is_transposed: bool,
}

// ---------------------------------------------------------------------------
// Delimiters and missing fields
// ---------------------------------------------------------------------------

/// How often `c` occurs in `s`.
pub open spec fn count_of(s: Seq<char>, c: char) -> nat {
    s.to_multiset().count(c)
}

/// The delimiter a header line suggests: tab, semicolon or pipe where it is
/// more frequent than the comma and at least as frequent as the others (in
/// that order of preference), else the comma.
pub open spec fn delimiter_for(tabs: nat, commas: nat, semicolons: nat, pipes: nat) -> u8 {
    if tabs > commas && tabs >= semicolons && tabs >= pipes {
        0x09
    } else if semicolons > commas && semicolons >= tabs && semicolons >= pipes {
        0x3B
    } else if pipes > commas && pipes >= tabs && pipes >= semicolons {
        0x7C
    } else {
        0x2C
    }
}

fn count_char(cs: &Vec<char>, c: char) -> (r: usize)
    ensures
        r == count_of(cs@, c),
{
    broadcast use vstd::seq_lib::group_to_multiset_ensures;
    let mut n: usize = 0;
    let mut k: usize = 0;
    assert(cs@.take(0) =~= Seq::<char>::empty());
    while k < cs.len()
        invariant
            k <= cs@.len(),
            n == count_of(cs@.take(k as int), c),
            n <= k,
        decreases cs@.len() - k,
    {
        proof {
            assert(cs@.take(k + 1) =~= cs@.take(k as int).push(cs@[k as int]));
            vstd::seq_lib::lemma_multiset_commutative(cs@.take(k as int), seq![cs@[k as int]]);
            assert(cs@.take(k as int).push(cs@[k as int]) =~= cs@.take(k as int) + seq![cs@[k as int]]);
            assert(seq![cs@[k as int]].to_multiset() =~= Multiset::singleton(cs@[k as int])) by {
                broadcast use vstd::seq_lib::group_to_multiset_ensures;
                assert(seq![cs@[k as int]] =~= Seq::<char>::empty().push(cs@[k as int]));
            }
        }
        if cs[k] == c {
            n = n + 1;
        }
        k = k + 1;
    }
    assert(cs@.take(cs@.len() as int) =~= cs@);
    n
}

/// The delimiter of a table, from its first line.
pub fn choose_delimiter(first_line: &str) -> (d: u8)
    ensures
        d == delimiter_for(
            count_of(first_line@, '\t'),
            count_of(first_line@, ','),
            count_of(first_line@, ';'),
            count_of(first_line@, '|'),
        ),
{
    let cs = chars_of(first_line);
    let tabs = count_char(&cs, '\t');
    let commas = count_char(&cs, ',');
    let semicolons = count_char(&cs, ';');
    let pipes = count_char(&cs, '|');
    if tabs > commas && tabs >= semicolons && tabs >= pipes {
        0x09
    } else if semicolons > commas && semicolons >= tabs && semicolons >= pipes {
        0x3B
    } else if pipes > commas && pipes >= tabs && pipes >= semicolons {
        0x7C
    } else {
        0x2C
    }
}

/// A field counts as missing when it is blank after trimming, or reads
/// `nan` or `null` in any ASCII case.
pub open spec fn is_missing(field: Seq<char>) -> bool {
    let t = trim(field);
    t.len() == 0 || ascii_lowercase(t) == "nan"@ || ascii_lowercase(t) == "null"@
}

pub fn is_missing_field(field: &str) -> (r: bool)
    ensures
        r == is_missing(field@),
{
    let cs = chars_of(field);
    let n = cs.len();
    let mut a: usize = 0;
    while a < n && is_white_exec(cs[a])
        invariant
            cs@ == field@,
            n == cs@.len(),
            a <= n,
            crate::quantize::lead(field@, 0) == crate::quantize::lead(field@, a as int),
        decreases n - a,
    {
        a = a + 1;
    }
    let mut b: usize = n;
    while b > a && is_white_exec(cs[b - 1])
        invariant
            cs@ == field@,
            n == cs@.len(),
            a <= b <= n,
            crate::quantize::trail(field@, n as int) == crate::quantize::trail(field@, b as int),
        decreases b - a,
    {
        b = b - 1;
    }
    proof {
        assert(crate::quantize::lead(field@, a as int) == a);
    }
    if a >= b {
        proof {
            lemma_trim_empty(field@, a as int, b as int);
        }
        return true;
    }
    let t = field.substring_char(a, b);
    proof {
        lemma_trim_range(field@, a as int, b as int);
    }
    let l = ascii_lowercase_chars(t);
    let nan = chars_of("nan");
    let null = chars_of("null");
    chars_eq(&l, &nan) || chars_eq(&l, &null)
}

proof fn lemma_trim_range(p: Seq<char>, a: int, b: int)
    requires
        0 <= a < b <= p.len(),
        crate::quantize::lead(p, 0) == a,
        crate::quantize::trail(p, p.len() as int) == crate::quantize::trail(p, b),
        !crate::quantize::is_white(p[b - 1]),
    ensures
        trim(p) == p.subrange(a, b),
{
    assert(crate::quantize::trail(p, b) == b);
}

proof fn lemma_trim_empty(p: Seq<char>, a: int, b: int)
    requires
        0 <= b <= a <= p.len(),
        crate::quantize::lead(p, 0) == crate::quantize::lead(p, a),
        crate::quantize::lead(p, a) == a,
        crate::quantize::trail(p, p.len() as int) == crate::quantize::trail(p, b),
        b == a,
    ensures
        trim(p).len() == 0,
{
    crate::quantize::lemma_trail(p, b);
}

} // verus!

verus! {

// ---------------------------------------------------------------------------
// Column roles
// ---------------------------------------------------------------------------

/// Unicode lower-casing, as `str::to_lowercase` computes it.
pub uninterp spec fn unicode_lowercase(s: Seq<char>) -> Seq<char>;

/// `str::to_lowercase`: the Unicode lower-case mapping of every character.
#[verifier::external_body]
fn lowercase(s: &str) -> (r: String)
    ensures
        r@ == unicode_lowercase(s@),
{
    s.to_lowercase()
}

/// Lower-cased text that suggests dates: it contains `date`, `time` or
/// `timestamp`.
pub open spec fn date_hint_spec(lowered: Seq<char>) -> bool {
    contains(lowered, "date"@) || contains(lowered, "time"@) || contains(lowered, "timestamp"@)
}

/// A column name that suggests dates: its lower-cased form does.
pub open spec fn suggests_date(name: Seq<char>) -> bool {
    date_hint_spec(unicode_lowercase(name))
}

fn contains_str(hay: &Vec<char>, pat: &str) -> (r: bool)
    ensures
        r == contains(hay@, pat@),
{
    let p = chars_of(pat);
    crate::quantize::contains_chars(hay, &p)
}

/// Whether already lower-cased text suggests dates (see [`date_hint_spec`]).
pub fn date_hint(lowered: &str) -> (r: bool)
    ensures
        r == date_hint_spec(lowered@),
{
    let cs = chars_of(lowered);
    contains_str(&cs, "date") || contains_str(&cs, "time") || contains_str(&cs, "timestamp")
}

pub fn name_suggests_date(name: &str) -> (r: bool)
    ensures
        r == suggests_date(name@),
{
    let l = lowercase(name);
    date_hint(l.as_str())
}

/// The roles the columns of a table get.
pub struct ColumnRoles {
    /// The proposed date column.
    pub date_col: Option<usize>,
    /// The proposed forecast targets, in column order.
    pub targets: Vec<usize>,
    /// Per column: more than half of the rows parse as numbers.
    pub numeric: Vec<bool>,
    /// Per column: more than half of the rows parse as dates.
    pub datetime: Vec<bool>,
}

/// Column `i` is numeric (dates) when more than half of the rows are.
pub open spec fn majority(count: usize, total_rows: usize) -> bool {
    count > total_rows / 2
}

/// Column `i` may be the date column: mostly dates, or named like dates
/// without being mostly numbers.
pub open spec fn date_candidate(names: Seq<Seq<char>>, num: Seq<usize>, dt: Seq<usize>, total: usize, i: int) -> bool {
    majority(dt[i], total) || (suggests_date(names[i]) && !majority(num[i], total))
}

/// The first date candidate from `i` on, or -1.
pub open spec fn first_date(names: Seq<Seq<char>>, num: Seq<usize>, dt: Seq<usize>, total: usize, i: int) -> int
    decreases names.len() - i,
{
    if i < 0 || i >= names.len() {
        -1
    } else if date_candidate(names, num, dt, total, i) {
        i
    } else {
        first_date(names, num, dt, total, i + 1)
    }
}

proof fn lemma_first_date(names: Seq<Seq<char>>, num: Seq<usize>, dt: Seq<usize>, total: usize, i: int)
    requires
        0 <= i,
    ensures
        first_date(names, num, dt, total, i) == -1 || first_date(names, num, dt, total, i) >= i,
    decreases names.len() - i,
{
    if i < names.len() && !date_candidate(names, num, dt, total, i) {
        lemma_first_date(names, num, dt, total, i + 1);
    }
}

/// The roles of the columns: the first date candidate is the date column;
/// every other mostly-numeric column is a target.
pub fn column_roles(names: &[String], numeric_counts: &[usize], datetime_counts: &[usize], total_rows: usize) -> (r: ColumnRoles)
    requires
        numeric_counts@.len() == names@.len(),
        datetime_counts@.len() == names@.len(),
    ensures
        ({
            let ns = crate::quantize::views(names@);
            let d = first_date(ns, numeric_counts@, datetime_counts@, total_rows, 0);
            &&& r.date_col == (if d >= 0 { Some(d as usize) } else { None::<usize> })
            &&& r.numeric@ == Seq::new(names@.len(), |i: int| majority(numeric_counts@[i], total_rows))
            &&& r.datetime@ == Seq::new(names@.len(), |i: int| majority(datetime_counts@[i], total_rows))
            &&& r.targets@ == Seq::new(names@.len(), |i: int| i as usize).filter(
                |i: usize| majority(numeric_counts@[i as int], total_rows) && d != i,
            )
        }),
{
    let ghost ns = crate::quantize::views(names@);
    let ghost d = first_date(ns, numeric_counts@, datetime_counts@, total_rows, 0);
    let ghost idx = Seq::new(names@.len(), |i: int| i as usize);
    let ghost keep = |i: usize| majority(numeric_counts@[i as int], total_rows) && d != i;
    let mut date_col: Option<usize> = None;
    let mut targets: Vec<usize> = Vec::new();
    let mut numeric: Vec<bool> = Vec::new();
    let mut datetime: Vec<bool> = Vec::new();
    let mut i: usize = 0;
    while i < names.len()
        invariant
            numeric_counts@.len() == names@.len(),
            datetime_counts@.len() == names@.len(),
            ns == crate::quantize::views(names@),
            d == first_date(ns, numeric_counts@, datetime_counts@, total_rows, 0),
            idx == Seq::new(names@.len(), |i: int| i as usize),
            keep == (|i: usize| majority(numeric_counts@[i as int], total_rows) && d != i),
            i <= names@.len(),
            date_col is None ==> first_date(ns, numeric_counts@, datetime_counts@, total_rows, 0)
                == first_date(ns, numeric_counts@, datetime_counts@, total_rows, i as int),
            date_col matches Some(c) ==> c == d && c < i,
            numeric@ == Seq::new(i as nat, |q: int| majority(numeric_counts@[q], total_rows)),
            datetime@ == Seq::new(i as nat, |q: int| majority(datetime_counts@[q], total_rows)),
            targets@ == idx.take(i as int).filter(keep),
        decreases names@.len() - i,
    {
        let is_num = numeric_counts[i] > total_rows / 2;
        let is_dt = datetime_counts[i] > total_rows / 2;
        let suggests = name_suggests_date(names[i].as_str());
        proof {
            assert(idx.take(i + 1) =~= idx.take(i as int).push(i as usize));
            idx.take(i as int).lemma_filter_push(i as usize, keep);
            lemma_first_date(ns, numeric_counts@, datetime_counts@, total_rows, i + 1);
            assert(ns[i as int] == names@[i as int]@);
        }
        if date_col.is_none() && (is_dt || (suggests && !is_num)) {
            date_col = Some(i);
        } else if is_num {
            targets.push(i);
        }
        numeric.push(is_num);
        datetime.push(is_dt);
        i = i + 1;
        assert(numeric@ =~= Seq::new(i as nat, |q: int| majority(numeric_counts@[q], total_rows)));
        assert(datetime@ =~= Seq::new(i as nat, |q: int| majority(datetime_counts@[q], total_rows)));
    }
    assert(idx.take(names@.len() as int) =~= idx);
    ColumnRoles { date_col, targets, numeric, datetime }
}

// ---------------------------------------------------------------------------
// Sampling frequency
// ---------------------------------------------------------------------------

/// A sampling frequency recognised from the typical step between dates.
#[derive(Debug, Clone, Copy, PartialEq, Eq, Structural)]
pub enum Frequency {
    FifteenMinutes,
    Hourly,
    Daily,
    Minute,
    Weekly,
    /// Any other step, in seconds.
    Seconds(u64),
}

/// The frequency of a step of `secs` seconds and the seasonal period it
/// suggests.
pub open spec fn frequency_spec(secs: u64) -> (Frequency, Option<usize>) {
    if 800 <= secs <= 1000 {
        (Frequency::FifteenMinutes, Some(96))
    } else if 3500 <= secs <= 3700 {
        (Frequency::Hourly, Some(24))
    } else if 85000 <= secs <= 87000 {
        (Frequency::Daily, Some(7))
    } else if 55 <= secs <= 65 {
        (Frequency::Minute, Some(60))
    } else if 600000 <= secs <= 610000 {
        (Frequency::Weekly, Some(52))
    } else {
        (Frequency::Seconds(secs), None)
    }
}

pub fn frequency_of(secs: u64) -> (r: (Frequency, Option<usize>))
    ensures
        r == frequency_spec(secs),
{
    if 800 <= secs && secs <= 1000 {
        (Frequency::FifteenMinutes, Some(96))
    } else if 3500 <= secs && secs <= 3700 {
        (Frequency::Hourly, Some(24))
    } else if 85000 <= secs && secs <= 87000 {
        (Frequency::Daily, Some(7))
    } else if 55 <= secs && secs <= 65 {
        (Frequency::Minute, Some(60))
    } else if 600000 <= secs && secs <= 610000 {
        (Frequency::Weekly, Some(52))
    } else {
        (Frequency::Seconds(secs), None)
    }
}

/// Nanoseconds since the epoch of an instant given as seconds and
/// nanoseconds.
pub open spec fn instant_ns(t: (i64, u32)) -> int {
    t.0 * 1_000_000_000 + t.1
}

/// The whole seconds between two instants (the difference truncated
/// toward zero, then made positive).
pub open spec fn gap(a: (i64, u32), b: (i64, u32)) -> u64 {
    let d = instant_ns(a) - instant_ns(b);
    let whole = (if d >= 0 { d } else { -d }) / 1_000_000_000;
    #[verifier::truncate] (whole as u64)
}

/// The non-zero gaps between consecutive instants among the first `k`,
/// in order.
pub open spec fn positive_gaps(ts: Seq<(i64, u32)>, k: int) -> Seq<u64>
    decreases k,
{
    if k <= 1 || k > ts.len() {
        Seq::empty()
    } else {
        let rest = positive_gaps(ts, k - 1);
        if gap(ts[k - 1], ts[k - 2]) > 0 {
            rest.push(gap(ts[k - 1], ts[k - 2]))
        } else {
            rest
        }
    }
}

pub open spec fn sorted_u64(s: Seq<u64>) -> bool {
    forall|i: int, j: int| 0 <= i <= j < s.len() ==> s[i] <= s[j]
}

/// Sorts in ascending order.
pub fn sort_u64(v: Vec<u64>) -> (r: Vec<u64>)
    ensures
        sorted_u64(r@),
        r@.to_multiset() == v@.to_multiset(),
{
    broadcast use vstd::seq_lib::group_to_multiset_ensures;
    let mut out: Vec<u64> = Vec::new();
    let mut k: usize = 0;
    assert(v@.take(0) =~= Seq::<u64>::empty());
    while k < v.len()
        invariant
            k <= v@.len(),
            sorted_u64(out@),
            out@.to_multiset() == v@.take(k as int).to_multiset(),
        decreases v@.len() - k,
    {
        let x = v[k];
        let mut pos: usize = out.len();
        while pos > 0 && out[pos - 1] > x
            invariant
                pos <= out@.len(),
                sorted_u64(out@),
                forall|q: int| pos <= q < out@.len() ==> out@[q] > x,
            decreases pos,
        {
            pos = pos - 1;
        }
        let ghost old_out = out@;
        out.insert(pos, x);
        proof {
            vstd::seq_lib::to_multiset_insert(old_out, pos as int, x);
            assert(v@.take(k + 1) =~= v@.take(k as int).push(x));
            vstd::seq_lib::to_multiset_build(v@.take(k as int), x);
            assert forall|i: int, j: int| 0 <= i <= j < out@.len() implies out@[i] <= out@[j] by {
                if j < pos {
                } else if j == pos {
                    if i < pos {
                        assert(pos > 0 ==> old_out[pos - 1] <= x);
                        assert(old_out[i] <= old_out[pos - 1]);
                    }
                } else if i < pos {
                    assert(out@[j] == old_out[j - 1]);
                } else if i == pos {
                    assert(out@[j] == old_out[j - 1]);
                } else {
                    assert(out@[j] == old_out[j - 1]);
                    assert(out@[i] == old_out[i - 1]);
                }
            }
        }
        k = k + 1;
    }
    assert(v@.take(v@.len() as int) =~= v@);
    out
}

/// The typical step of a series of instants: the median of the non-zero
/// gaps between consecutive ones (the upper median for an even count).
pub fn median_step(ts: &[(i64, u32)]) -> (r: Option<u64>)
    ensures
        positive_gaps(ts@, ts@.len() as int).len() == 0 ==> r is None,
        positive_gaps(ts@, ts@.len() as int).len() > 0 ==> exists|s: Seq<u64>|
            #![trigger s.to_multiset()]
            sorted_u64(s) && s.to_multiset() == positive_gaps(ts@, ts@.len() as int).to_multiset() && r
                == Some(s[(s.len() / 2) as int]),
{
    let n = ts.len();
    let mut gaps: Vec<u64> = Vec::new();
    let mut k: usize = 1;
    while k < n
        invariant
            n == ts@.len(),
            1 <= k,
            k <= n || n == 0,
            gaps@ == positive_gaps(ts@, k as int),
        decreases n - k,
    {
        let a = ts[k].0 as i128 * 1_000_000_000 + ts[k].1 as i128;
        let b = ts[k - 1].0 as i128 * 1_000_000_000 + ts[k - 1].1 as i128;
        let d = if a >= b {
            a - b
        } else {
            b - a
        };
        let g: u64 = #[verifier::truncate] ((d / 1_000_000_000) as u64);
        assert(g == gap(ts@[k as int], ts@[k - 1]));
        if g > 0 {
            gaps.push(g);
        }
        k = k + 1;
    }
    proof {
        if n == 0 {
            assert(positive_gaps(ts@, 0) == Seq::<u64>::empty());
        }
    }
    assert(gaps@ == positive_gaps(ts@, n as int));
    let ghost g = gaps@;
    let s = sort_u64(gaps);
    proof {
        broadcast use vstd::seq_lib::group_to_multiset_ensures;
        assert(s@.to_multiset().len() == s@.len());
        assert(g.to_multiset().len() == g.len());
    }
    if s.len() == 0 {
        proof {
            broadcast use vstd::seq_lib::group_to_multiset_ensures;
            assert(s@.to_multiset().len() == 0);
        }
        None
    } else {
        let m = s[s.len() / 2];
        proof {
            broadcast use vstd::seq_lib::group_to_multiset_ensures;
            assert(s@.to_multiset() == positive_gaps(ts@, n as int).to_multiset());
        }
        Some(m)
    }
}

} // verus!

verus! {

// ---------------------------------------------------------------------------
// Windows of history
// ---------------------------------------------------------------------------

/// The most recent points a forecast reads from a table.
pub const MAX_HISTORY_WINDOW: usize = 1024;

/// The points a chart shows of the history.
pub const DISPLAY_HISTORY: usize = 120;

/// The last `min(total, window)` points: their start and their count.
pub fn history_window(total: usize, window: usize) -> (r: (usize, usize))
    ensures
        r.1 == (if total > window { window } else { total }),
        r.0 + r.1 == total,
{
    if total > window {
        (total - window, window)
    } else {
        (0, total)
    }
}

/// Why the series of a table could not be selected.
#[derive(Debug, Clone, Copy, PartialEq, Eq, Structural)]
pub enum SelectError {
    /// Target `.0` names no column.
    MissingColumn(usize),
    /// No target was selected.
    NoTarget,
}

/// The columns of the targets, each the first header equal to it, or why
/// they cannot be selected.
pub open spec fn targets_spec(headers: Seq<Seq<char>>, targets: Seq<Seq<char>>) -> Result<Seq<usize>, SelectError>
    decreases targets.len(),
{
    if targets.len() == 0 {
        Err(SelectError::NoTarget)
    } else {
        targets_from(headers, targets, 0)
    }
}

pub open spec fn targets_from(headers: Seq<Seq<char>>, targets: Seq<Seq<char>>, i: int) -> Result<Seq<usize>, SelectError>
    decreases targets.len() - i,
{
    if i < 0 || i >= targets.len() {
        Ok(Seq::empty())
    } else {
        let c = crate::quantize::arg_index(headers, targets[i], 0);
        if c < 0 {
            Err(SelectError::MissingColumn(i as usize))
        } else {
            match targets_from(headers, targets, i + 1) {
                Ok(rest) => Ok(seq![c as usize] + rest),
                Err(e) => Err(e),
            }
        }
    }
}

fn column_of(headers: &[String], name: &str) -> (r: Option<usize>)
    ensures
        match r {
            Some(i) => i as int == crate::quantize::arg_index(crate::quantize::views(headers@), name@, 0)
                && i < headers@.len(),
            None => crate::quantize::arg_index(crate::quantize::views(headers@), name@, 0) == -1,
        },
{
    let ghost a = crate::quantize::views(headers@);
    let mut i: usize = 0;
    while i < headers.len()
        invariant
            a == crate::quantize::views(headers@),
            a.len() == headers@.len(),
            i <= headers@.len(),
            crate::quantize::arg_index(a, name@, 0) == crate::quantize::arg_index(a, name@, i as int),
        decreases headers@.len() - i,
    {
        if str_eq(headers[i].as_str(), name) {
            return Some(i);
        }
        i = i + 1;
    }
    None
}

proof fn lemma_targets_from_error(headers: Seq<Seq<char>>, targets: Seq<Seq<char>>, i: int, j: int)
    requires
        0 <= i <= j < targets.len(),
        forall|k: int| i <= k < j ==> crate::quantize::arg_index(headers, #[trigger] targets[k], 0) >= 0,
        crate::quantize::arg_index(headers, targets[j], 0) < 0,
    ensures
        targets_from(headers, targets, i) == Err::<Seq<usize>, SelectError>(SelectError::MissingColumn(j as usize)),
    decreases j - i,
{
    if i < j {
        lemma_targets_from_error(headers, targets, i + 1, j);
    }
}

/// The column of each target.
pub fn resolve_targets(headers: &[String], targets: &[String]) -> (r: Result<Vec<usize>, SelectError>)
    ensures
        match targets_spec(crate::quantize::views(headers@), crate::quantize::views(targets@)) {
            Ok(cols) => r matches Ok(v) && v@ == cols,
            Err(e) => r == Err::<Vec<usize>, SelectError>(e),
        },
{
    let ghost hs = crate::quantize::views(headers@);
    let ghost ts = crate::quantize::views(targets@);
    let mut cols: Vec<usize> = Vec::new();
    let mut i: usize = 0;
    while i < targets.len()
        invariant
            hs == crate::quantize::views(headers@),
            ts == crate::quantize::views(targets@),
            ts.len() == targets@.len(),
            i <= targets@.len(),
            cols@.len() == i,
            forall|k: int| 0 <= k < i ==> #[trigger] cols@[k] as int == crate::quantize::arg_index(hs, ts[k], 0)
                && crate::quantize::arg_index(hs, ts[k], 0) >= 0,
        decreases targets@.len() - i,
    {
        match column_of(headers, targets[i].as_str()) {
            Some(c) => {
                cols.push(c);
            },
            None => {
                proof {
                    assert forall|k: int| 0 <= k < i implies crate::quantize::arg_index(
                        hs,
                        #[trigger] ts[k],
                        0,
                    ) >= 0 by {
                        assert(cols@[k] as int == crate::quantize::arg_index(hs, ts[k], 0));
                    }
                    lemma_targets_from_error(hs, ts, 0, i as int);
                }
                return Err(SelectError::MissingColumn(i));
            },
        }
        i = i + 1;
    }
    if i == 0 {
        return Err(SelectError::NoTarget);
    }
    proof {
        lemma_targets_from_ok(hs, ts, 0, cols@);
    }
    Ok(cols)
}

proof fn lemma_targets_from_ok(headers: Seq<Seq<char>>, targets: Seq<Seq<char>>, i: int, cols: Seq<usize>)
    requires
        0 <= i <= targets.len(),
        cols.len() == targets.len(),
        forall|k: int| 0 <= k < targets.len() ==> #[trigger] cols[k] as int == crate::quantize::arg_index(
            headers,
            targets[k],
            0,
        ) && crate::quantize::arg_index(headers, targets[k], 0) >= 0,
    ensures
        targets_from(headers, targets, i) == Ok::<Seq<usize>, SelectError>(cols.subrange(i, cols.len() as int)),
    decreases targets.len() - i,
{
    if i < targets.len() {
        lemma_targets_from_ok(headers, targets, i + 1, cols);
        assert(seq![cols[i]] + cols.subrange(i + 1, cols.len() as int) =~= cols.subrange(i, cols.len() as int));
    } else {
        assert(cols.subrange(i, cols.len() as int) =~= Seq::<usize>::empty());
    }
}

// ---------------------------------------------------------------------------
// Checkpoint precision labels
// ---------------------------------------------------------------------------

/// The precision a checkpoint is shown with.
#[derive(Debug, Clone, Copy, PartialEq, Eq, Structural)]
pub enum PrecisionLabel {
    /// Mixed precision (the `balanced` preset).
    Balanced,
    /// Half precision.
    Half,
    /// Full precision.
    Full,
    /// Not recognised.
    Unknown,
}

/// The label that lower-cased `config.json` text suggests.
pub open spec fn label_from_lowered(l: Seq<char>) -> PrecisionLabel {
    if contains(l, "balanced"@) {
        PrecisionLabel::Balanced
    } else if contains(l, "f16"@) || contains(l, "fp16"@) {
        PrecisionLabel::Half
    } else if contains(l, "f32"@) || contains(l, "fp32"@) {
        PrecisionLabel::Full
    } else {
        PrecisionLabel::Unknown
    }
}

/// The label a `config.json` text suggests (by its lower-cased content).
pub open spec fn label_from_config(text: Seq<char>) -> PrecisionLabel {
    label_from_lowered(unicode_lowercase(text))
}

/// The label of already lower-cased `config.json` text (see
/// [`label_from_lowered`]).
pub fn precision_from_lowered(lowered: &str) -> (r: PrecisionLabel)
    ensures
        r == label_from_lowered(lowered@),
{
    let cs = chars_of(lowered);
    if contains_str(&cs, "balanced") {
        PrecisionLabel::Balanced
    } else if contains_str(&cs, "f16") || contains_str(&cs, "fp16") {
        PrecisionLabel::Half
    } else if contains_str(&cs, "f32") || contains_str(&cs, "fp32") {
        PrecisionLabel::Full
    } else {
        PrecisionLabel::Unknown
    }
}

pub fn precision_from_config(text: &str) -> (r: PrecisionLabel)
    ensures
        r == label_from_config(text@),
{
    let l = lowercase(text);
    precision_from_lowered(l.as_str())
}

/// The label a weight file's size suggests when there is no config:
/// under 700 MiB half precision, under 900 MiB mixed, else full.
pub fn precision_from_size(bytes: u64) -> (r: PrecisionLabel)
    ensures
        r == (if bytes < 700 * 1048576 {
            PrecisionLabel::Half
        } else if bytes < 900 * 1048576 {
            PrecisionLabel::Balanced
        } else {
            PrecisionLabel::Full
        }),
{
    if bytes < 700 * 1048576 {
        PrecisionLabel::Half
    } else if bytes < 900 * 1048576 {
        PrecisionLabel::Balanced
    } else {
        PrecisionLabel::Full
    }
}

} // verus!

verus! {

/// `secs` lies within `tolerance` seconds of `nominal`.
pub open spec fn near(secs: u64, nominal: int, tolerance: int) -> bool {
    nominal - tolerance <= secs && secs <= nominal + tolerance
}

/// What a step's frequency means. A step is named only when it lies near
/// the nominal length of that frequency (15 minutes within 100 s, an hour
/// within 100 s, a day from 1400 s under to 600 s over, a minute within 5 s, a week from
/// 600000 s to 610000 s), and then the seasonal period is the number of
/// such steps in the next larger cycle (a day of quarter hours or of hours,
/// a week of days, an hour of minutes, a year of weeks). Any other step is
/// reported in seconds as it is, with no period.
pub proof fn lemma_frequency_meaning(secs: u64)
    ensures
        ({
            let (f, period) = frequency_spec(secs);
            &&& f == Frequency::FifteenMinutes <==> near(secs, 900, 100)
            &&& f == Frequency::Hourly <==> near(secs, 3600, 100) && !near(secs, 900, 100)
            &&& f == Frequency::Daily <==> 86400 - 1400 <= secs <= 86400 + 600
            &&& f == Frequency::Minute <==> near(secs, 60, 5)
            &&& f == Frequency::Weekly <==> 600000 <= secs <= 610000
            &&& f == Frequency::FifteenMinutes ==> period == Some((24 * 60 / 15) as usize)
            &&& f == Frequency::Hourly ==> period == Some(24usize)
            &&& f == Frequency::Daily ==> period == Some(7usize)
            &&& f == Frequency::Minute ==> period == Some(60usize)
            &&& f == Frequency::Weekly ==> period == Some(52usize)
            &&& f is Seconds ==> f == Frequency::Seconds(secs) && period is None
        }),
{
}

} // verus!

verus! {

/// The delimiter of a header line is a most frequent one of tab, comma,
/// semicolon and pipe; the comma wins whenever it is among the most
/// frequent (so also on a line with none of them), and otherwise the tab
/// wins over the semicolon and the semicolon over the pipe.
pub proof fn lemma_delimiter_most_frequent(tabs: nat, commas: nat, semicolons: nat, pipes: nat)
    ensures
        ({
            let d = delimiter_for(tabs, commas, semicolons, pipes);
            let n = if d == 0x09 {
                tabs
            } else if d == 0x2C {
                commas
            } else if d == 0x3B {
                semicolons
            } else {
                pipes
            };
            &&& d == 0x09 || d == 0x2C || d == 0x3B || d == 0x7C
            &&& n >= tabs && n >= commas && n >= semicolons && n >= pipes
            &&& d == 0x2C <==> (commas >= tabs && commas >= semicolons && commas >= pipes)
            &&& d == 0x3B ==> semicolons > tabs
            &&& d == 0x7C ==> pipes > tabs && pipes > semicolons
        }),
{
}

} // verus!
