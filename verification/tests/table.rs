use timesfm3::inspect::Frequency;
use timesfm3::table::{
    future_label, future_labels, trim_all, FutureLabel,
    choose_instant, rows_agree, series_fields,
    column_stats, date_instants, delimiter_of, header_is_numeric, infer_frequency, is_float_text,
    read_table, try_parse_datetime, CsvFailure, FREQUENCY_SAMPLE,
};

fn strings(list: &[&str]) -> Vec<String> {
    list.iter().map(|s| s.to_string()).collect()
}

fn rows(list: &[&[&str]]) -> Vec<Vec<String>> {
    list.iter().map(|r| strings(r)).collect()
}

const JAN_2_2024: i64 = 1_704_153_600;

#[test]
fn table_delimiter_comes_from_the_first_line() {
    assert_eq!(delimiter_of(b"a;b;c\n1,2,3,4,5\n"), b';');
    assert_eq!(delimiter_of(b"a\tb\n1\t2\n"), b'\t');
    assert_eq!(delimiter_of(b"a|b\n"), b'|');
    assert_eq!(delimiter_of(b"a,b"), b',');
    assert_eq!(delimiter_of(b""), b',');
    // A first line that is not UTF-8 falls back to the comma.
    assert_eq!(delimiter_of(b"a;\xff;b\n"), b',');
}

#[test]
fn tables_read_with_their_own_delimiter() {
    let (header, records) = read_table(b"date;value\n2024-01-01;1.5\n2024-01-02;2\n").unwrap();
    assert_eq!(header, strings(&["date", "value"]));
    assert_eq!(records, rows(&[&["2024-01-01", "1.5"], &["2024-01-02", "2"]]));

    // Records of any length are kept as they are.
    let (header, records) = read_table(b"a,b,c\n1\n1,2,3,4\n").unwrap();
    assert_eq!(header.len(), 3);
    assert_eq!(records, rows(&[&["1"], &["1", "2", "3", "4"]]));

    let (header, records) = read_table(b"").unwrap();
    assert!(header.is_empty());
    assert!(records.is_empty());
}

#[test]
fn unreadable_tables_name_where_they_fail() {
    match read_table(b"a,b\n1,2\n\xff,3\n") {
        Err(CsvFailure::Record(i, _)) => assert_eq!(i, 1),
        _ => panic!("a record that is not UTF-8 is an error"),
    }
    match read_table(b"\xff,b\n1,2\n") {
        Err(CsvFailure::Header(_)) => {}
        _ => panic!("a header that is not UTF-8 is an error"),
    }
}

#[test]
fn float_text_follows_the_std_grammar() {
    for s in ["1", "-2", "+3", "1.5", "1.", ".5", "-.5", "1e5", "1E-3", "2.5e+10", "inf", "-INF",
        "Infinity", "nan", "NaN", "+nan"]
    {
        assert!(is_float_text(s), "{s:?} is a number");
        assert!(s.parse::<f64>().is_ok(), "{s:?} parses");
    }
    for s in ["", ".", "-", "e5", "1e", "1e+", " 1", "1 ", "1,5", "0x10", "abc", "1.2.3", "infin"] {
        assert!(!is_float_text(s), "{s:?} is not a number");
        assert!(s.parse::<f64>().is_err(), "{s:?} does not parse");
    }
}

#[test]
fn numeric_headers_mean_a_transposed_table() {
    assert!(header_is_numeric(&strings(&["1.5", " 2 ", "-3e2"])));
    assert!(header_is_numeric(&[]));
    assert!(!header_is_numeric(&strings(&["1", "value"])));
}

#[test]
fn timestamps_in_the_table_formats() {
    assert_eq!(try_parse_datetime("2024-01-02 03:04:05"), Some((JAN_2_2024 + 11_045, 0)));
    assert_eq!(try_parse_datetime("2024-01-02"), Some((JAN_2_2024, 0)));
    assert_eq!(try_parse_datetime("  2024-01-02\t"), Some((JAN_2_2024, 0)));
    assert_eq!(try_parse_datetime("2024/01/02 03:04"), Some((JAN_2_2024 + 11_040, 0)));
    assert_eq!(try_parse_datetime("2024-01-02T03:04:05"), Some((JAN_2_2024 + 11_045, 0)));
    assert_eq!(try_parse_datetime("01/02/2024"), Some((JAN_2_2024, 0)));
}

#[test]
fn rfc3339_timestamps_keep_offset_and_fraction() {
    assert_eq!(try_parse_datetime("2024-01-02T03:04:05.5Z"), Some((JAN_2_2024 + 11_045, 500_000_000)));
    assert_eq!(try_parse_datetime("2024-01-02T03:04:05+01:00"), Some((JAN_2_2024 + 11_045 - 3_600, 0)));
}

#[test]
fn non_timestamps_name_no_instant() {
    for s in ["", "   ", "hello", "12.5", "2024-13-01", "2024-02-30"] {
        assert_eq!(try_parse_datetime(s), None, "{s:?}");
    }
}

#[test]
fn column_statistics_count_each_kind() {
    let table = rows(&[
        &["2024-01-01", "1.5", ""],
        &["2024-01-02", "x", "NaN"],
        &["2024-01-03", " 7 ", "null"],
        &["oops"],
    ]);
    let s = column_stats(&table, 3);
    assert_eq!(s.numeric, vec![0, 2, 0]);
    assert_eq!(s.datetime, vec![3, 0, 0]);
    assert_eq!(s.missing, vec![0, 0, 3]);
    assert_eq!(s.samples[0], strings(&["2024-01-01", "2024-01-02", "2024-01-03"]));
    assert_eq!(s.samples[1], strings(&["1.5", "x", "7"]));
    assert!(s.samples[2].is_empty());

    let none = column_stats(&table, 0);
    assert!(none.numeric.is_empty() && none.samples.is_empty());
}

#[test]
fn date_instants_skip_fields_without_one() {
    let table = rows(&[&["2024-01-02", "1"], &["later", "2"], &[], &["2024-01-02 01:00", "3"]]);
    assert_eq!(date_instants(&table, 0, 10), vec![(JAN_2_2024, 0), (JAN_2_2024 + 3_600, 0)]);
    assert_eq!(date_instants(&table, 0, 1), vec![(JAN_2_2024, 0)]);
    assert!(date_instants(&table, 1, 10).is_empty());
}

#[test]
fn hourly_dates_give_an_hourly_frequency() {
    let stamps: Vec<String> = (0..30).map(|h| format!("2024-01-{:02} {:02}:00:00", 2 + h / 24, h % 24)).collect();
    let table: Vec<Vec<String>> = stamps.iter().map(|s| vec![s.clone(), "1".to_string()]).collect();
    assert_eq!(infer_frequency(&table, 0), Some((Frequency::Hourly, Some(24))));
    assert_eq!(infer_frequency(&table, 1), None);
}

#[test]
fn frequency_reads_only_the_first_records() {
    // Daily for the sampled records; what lies beyond them is not read.
    let days: Vec<Vec<String>> = (0..FREQUENCY_SAMPLE)
        .map(|k| vec![format!("2020/{:02}/{:02}", 1 + k / 28, 1 + k % 28)])
        .chain((0..100).map(|k| vec![format!("2030-01-01 00:{:02}:00", k % 60)]))
        .collect();
    assert_eq!(infer_frequency(&days, 0), Some((Frequency::Daily, Some(7))));
    // Two equal instants only: no step.
    let same = rows(&[&["2024-01-02"], &["2024-01-02"]]);
    assert_eq!(infer_frequency(&same, 0), None);
}

#[test]
fn readings_choose_rfc3339_then_the_first_format() {
    let a = Some((10i64, 0u32));
    let b = Some((20i64, 5u32));
    assert_eq!(choose_instant(a, &[(b, None)]), a);
    assert_eq!(choose_instant(None, &[(None, None), (None, b), (a, None)]), b);
    assert_eq!(choose_instant(None, &[(a, b)]), a);
    assert_eq!(choose_instant(None, &[(None, None)]), None);
    assert_eq!(choose_instant(None, &[]), None);
}

#[test]
fn series_per_line_are_split_and_trimmed() {
    let text = "# comment\n1, 2,3\r\n\n   \n  #skip\n4,5 ,6\n7";
    assert_eq!(
        series_fields(text),
        vec![strings(&["1", "2", "3"]), strings(&["4", "5", "6"]), strings(&["7"])]
    );
    assert_eq!(series_fields("1,,2\n"), vec![strings(&["1", "", "2"])]);
    assert!(series_fields("").is_empty());
    assert!(series_fields("\n\n# only comments\n").is_empty());
}

#[test]
fn series_rows_agree_in_length() {
    assert!(rows_agree(&[]));
    assert!(rows_agree(&rows(&[&["1", "2"], &["3", "4"]])));
    assert!(!rows_agree(&rows(&[&["1", "2"], &["3"]])));
}

#[test]
fn headers_are_trimmed_field_by_field() {
    assert_eq!(trim_all(&strings(&[" date ", "\tvalue", "", "a b"])), strings(&["date", "value", "", "a b"]));
    assert!(trim_all(&[]).is_empty());
}

fn label_text(l: &FutureLabel) -> String {
    match l {
        FutureLabel::At(t) => t.clone(),
        FutureLabel::AfterStep(k) => format!("+{k}"),
        FutureLabel::Tick(k) => format!("T+{k}"),
    }
}

#[test]
fn future_steps_move_the_last_timestamp() {
    let labels = future_labels(Some((JAN_2_2024, 0)), Some(3_600), false, 3).unwrap();
    let texts: Vec<String> = labels.iter().map(label_text).collect();
    assert_eq!(texts, strings(&["2024-01-02 01:00:00", "2024-01-02 02:00:00", "2024-01-02 03:00:00"]));
    // Daily steps across a month end; the fraction of a second is not shown.
    let labels = future_labels(Some((JAN_2_2024 + 29 * 86_400, 500_000_000)), Some(86_400), true, 2).unwrap();
    assert_eq!(label_text(&labels[1]), "2024-02-02 00:00:00");
    assert!(matches!(future_label(Some((JAN_2_2024, 0)), Some(60), false, 2), FutureLabel::At(t) if t == "2024-01-02 00:02:00"));
}

#[test]
fn future_steps_without_dates_are_counted() {
    let labels = future_labels(None, Some(3_600), false, 2).unwrap();
    assert!(matches!(labels[..], [FutureLabel::AfterStep(1), FutureLabel::AfterStep(2)]));
    let labels = future_labels(Some((JAN_2_2024, 0)), None, false, 1).unwrap();
    assert!(matches!(labels[..], [FutureLabel::AfterStep(1)]));
    let labels = future_labels(None, None, true, 2).unwrap();
    assert!(matches!(labels[..], [FutureLabel::Tick(1), FutureLabel::Tick(2)]));
    assert!(future_labels(Some((JAN_2_2024, 0)), Some(60), false, 0).unwrap().is_empty());
}

#[test]
fn future_steps_beyond_the_calendar_have_no_labels() {
    // A step chrono cannot hold, and a date past its last year.
    assert!(future_labels(Some((JAN_2_2024, 0)), Some(i64::MAX), false, 1).is_none());
    assert!(future_labels(Some((JAN_2_2024, 0)), Some(i64::MAX / 1_000), false, 1).is_none());
    // Without dates the size of the step does not matter.
    assert!(future_labels(None, Some(i64::MAX), false, 1).is_some());
}
