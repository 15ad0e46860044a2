use timesfm3::inspect::{
    choose_delimiter, column_roles, frequency_of, history_window, is_missing_field, median_step,
    date_hint, name_suggests_date, precision_from_config, precision_from_lowered, precision_from_size, resolve_targets, sort_u64,
    Frequency, PrecisionLabel, SelectError, MAX_HISTORY_WINDOW,
};

fn strings(list: &[&str]) -> Vec<String> {
    list.iter().map(|s| s.to_string()).collect()
}

#[test]
fn delimiters_follow_the_header_line() {
    assert_eq!(choose_delimiter("a,b,c"), b',');
    assert_eq!(choose_delimiter("a\tb\tc"), b'\t');
    assert_eq!(choose_delimiter("a;b;c,d"), b';');
    assert_eq!(choose_delimiter("a|b|c"), b'|');
    assert_eq!(choose_delimiter("a\tb;c"), b'\t');
    assert_eq!(choose_delimiter("a;b|c"), b';');
    assert_eq!(choose_delimiter(""), b',');
}

#[test]
fn missing_fields() {
    for f in ["", "  ", "NaN", " nan ", "NULL", "Null\t"] {
        assert!(is_missing_field(f), "{f:?} is missing");
    }
    for f in ["0", "nan1", "n a n", "-"] {
        assert!(!is_missing_field(f), "{f:?} is present");
    }
}

#[test]
fn column_roles_pick_dates_and_targets() {
    let names = strings(&["Date", "OT", "Timestamp", "label", "x"]);
    let numeric = [0, 10, 10, 1, 6];
    let dates = [10, 0, 10, 0, 0];
    let roles = column_roles(&names, &numeric, &dates, 10);
    assert_eq!(roles.date_col, Some(0));
    assert_eq!(roles.targets, vec![1, 2, 4]);
    assert_eq!(roles.numeric, vec![false, true, true, false, true]);
    assert_eq!(roles.datetime, vec![true, false, true, false, false]);
    // A column named like a date that holds numbers is not the date column.
    let roles = column_roles(&strings(&["time_idx", "v"]), &[5, 5], &[0, 0], 5);
    assert_eq!(roles.date_col, None);
    assert_eq!(roles.targets, vec![0, 1]);
    assert!(name_suggests_date("TIME"));
    assert!(!name_suggests_date("value"));
}

#[test]
fn frequencies_and_periods() {
    assert_eq!(frequency_of(900), (Frequency::FifteenMinutes, Some(96)));
    assert_eq!(frequency_of(3600), (Frequency::Hourly, Some(24)));
    assert_eq!(frequency_of(86400), (Frequency::Daily, Some(7)));
    assert_eq!(frequency_of(60), (Frequency::Minute, Some(60)));
    assert_eq!(frequency_of(604800), (Frequency::Weekly, Some(52)));
    assert_eq!(frequency_of(7), (Frequency::Seconds(7), None));
}

#[test]
fn median_of_positive_steps() {
    let secs = |v: &[i64]| -> Vec<(i64, u32)> { v.iter().map(|&s| (s, 0)).collect() };
    assert_eq!(median_step(&[]), None);
    assert_eq!(median_step(&secs(&[5])), None);
    assert_eq!(median_step(&secs(&[5, 5, 5])), None);
    assert_eq!(median_step(&secs(&[0, 3600, 7200, 7200, 14400])), Some(3600));
    assert_eq!(median_step(&secs(&[100, 40, 40, 100, 170])), Some(60));
    assert_eq!(median_step(&secs(&[100, 40, 40, 100, 170, 300])), Some(70));
    assert_eq!(median_step(&secs(&[i64::MIN, i64::MAX])), Some(u64::MAX));
    // Sub-second parts: 1.5 s apart is one whole second, 0.5 s is none.
    assert_eq!(median_step(&[(10, 700_000_000), (12, 200_000_000)]), Some(1));
    assert_eq!(median_step(&[(10, 700_000_000), (11, 200_000_000)]), None);
    assert_eq!(sort_u64(vec![3, 1, 2, 1]), vec![1, 1, 2, 3]);
}

#[test]
fn history_windows() {
    assert_eq!(history_window(5000, MAX_HISTORY_WINDOW), (3976, 1024));
    assert_eq!(history_window(10, MAX_HISTORY_WINDOW), (0, 10));
}

#[test]
fn targets_resolve_to_columns() {
    let headers = strings(&["date", "a", "b", "a"]);
    assert_eq!(resolve_targets(&headers, &strings(&["b", "a"])), Ok(vec![2, 1]));
    assert_eq!(
        resolve_targets(&headers, &strings(&["a", "zz", "q"])),
        Err(SelectError::MissingColumn(1))
    );
    assert_eq!(resolve_targets(&headers, &[]), Err(SelectError::NoTarget));
}

#[test]
fn precision_labels() {
    assert_eq!(precision_from_config("{\"Preset\": \"BALANCED\"}"), PrecisionLabel::Balanced);
    assert_eq!(precision_from_config("{\"precision\": \"f16\"}"), PrecisionLabel::Half);
    assert_eq!(precision_from_config("{\"dtype\": \"FP32\"}"), PrecisionLabel::Full);
    assert_eq!(precision_from_config("{}"), PrecisionLabel::Unknown);
    assert_eq!(precision_from_size(600 * 1048576), PrecisionLabel::Half);
    assert_eq!(precision_from_size(730 * 1048576), PrecisionLabel::Balanced);
    assert_eq!(precision_from_size(1320 * 1048576), PrecisionLabel::Full);
}

#[test]
fn date_hints_in_lowered_names() {
    assert!(date_hint("trade_date"));
    assert!(date_hint("timestamp"));
    assert!(date_hint("runtime"));
    // Already lowered text is taken as it is.
    assert!(!date_hint("DATE"));
    assert!(!date_hint("value"));
    assert!(name_suggests_date("DATE"));
}

#[test]
fn precision_of_lowered_config_text() {
    assert_eq!(precision_from_lowered("{\"preset\": \"balanced\", \"dtype\": \"f16\"}"), PrecisionLabel::Balanced);
    assert_eq!(precision_from_lowered("fp16"), PrecisionLabel::Half);
    assert_eq!(precision_from_lowered("f32"), PrecisionLabel::Full);
    assert_eq!(precision_from_lowered("F16"), PrecisionLabel::Unknown);
    assert_eq!(precision_from_config("F16"), PrecisionLabel::Half);
}
