use weightlog::modes::{PrintStyle, RunMode, entries_to_show, resolve_print_style,
    resolve_run_mode};
use weightlog::timestamp::Timestamp;
use weightlog::weight::WeightT;
use weightlog::weightlog::WeightlogT;

fn ts(year: u32, month: u32, day: u32, hour: u32, minute: u32) -> Timestamp {
    Timestamp { year, month, day, hour, minute }
}

#[test]
fn init_weight_t() {
    let w_none = WeightT::new(1000, None);
    let w_some = WeightT::new(1000, Some(weightlog::clock::now_local()));
    assert!(w_none.age() >= 0 && w_none.age() <= weightlog::weight::MAX_AGE_HOURS);
    assert!(w_some.age() >= 0 && w_none.age() >= 0);
}

#[test]
fn dumb_bmi_calculation() {
    let w = WeightT::new(1000, None);
    assert_eq!(w.bmi(100), 10000);

    // This test case depends on the two decimal truncation in bmi().
    assert_eq!(w.bmi(180), 3086);
}

#[test]
fn init_weightlog_t() {
    let mut log = WeightlogT::new(String::from("Some_file.txt"), None);
    assert!(log.path == "Some_file.txt");

    log.add_weight(1000);
    assert_eq!(log.len(), 1);
}

#[test]
fn parse_inexistent_file() {
    let log = WeightlogT::new(String::from("not_a_file.not_a_file_extension"), None);
    assert_eq!(true, log.is_empty());
}

#[test]
fn misformatted_file_loads_empty() {
    // Three rows, but only two columns: the whole load is abandoned.
    let content = b"some,stuff\nsome,stuff\nsome,stuff".to_vec();
    let log = WeightlogT::new(String::from("rustlog.txt"), Some(content));
    assert!(log.is_empty());
    assert_eq!(log.min, None);
    assert_eq!(log.max, None);
}

#[test]
fn empty_file_is_empty_log() {
    let log = WeightlogT::new(String::from("demo.csv"), Some(Vec::new()));
    assert!(log.is_empty());
    assert_eq!(log.len(), 0);
    assert_eq!(log.min, None);
    assert_eq!(log.max, None);
    assert_eq!(log.log_age(), 0);
}

#[test]
fn missing_file_is_empty_log() {
    let log = WeightlogT::new(String::from("demo.csv"), None);
    assert!(log.is_empty());
    assert_eq!(log.min, None);
    assert_eq!(log.max, None);
}

#[test]
fn two_appends_update_everything() {
    let mut log = WeightlogT::new(String::from("demo.csv"), None);
    let line1 = log.append_at(705, ts(2023, 1, 1, 8, 0));
    let line2 = log.append_at(712, ts(2023, 1, 2, 8, 0));
    assert_eq!(log.len(), 2);
    assert_eq!(log.min, Some(705));
    assert_eq!(log.max, Some(712));
    assert!(line1.ends_with(b",70.5\n"));
    assert!(line2.ends_with(b",71.2\n"));
    assert_eq!(line1, b"2023-01-01,08:00,70.5\n".to_vec());
    assert_eq!(line2, b"2023-01-02,08:00,71.2\n".to_vec());
}

#[test]
fn append_folds_extrema() {
    let mut log = WeightlogT::new(String::from("demo.csv"), None);
    log.append_at(800, ts(2023, 1, 1, 8, 0));
    log.append_at(700, ts(2023, 1, 2, 8, 0));
    log.append_at(750, ts(2023, 1, 3, 8, 0));
    assert_eq!(log.len(), 3);
    assert_eq!(log.min, Some(700));
    assert_eq!(log.max, Some(800));
    assert_eq!(log.weight_list[2].kilo, 750);
}

#[test]
fn open_two_records() {
    let content = b"2023-01-01,08:00,80.0\n2023-01-02,08:00,81.5\n".to_vec();
    let log = WeightlogT::new(String::from("demo.csv"), Some(content));
    assert_eq!(log.len(), 2);
    assert_eq!(log.weight_list[0].kilo, 800);
    assert_eq!(log.weight_list[1].kilo, 815);
    assert_eq!(log.weight_list[0].time, ts(2023, 1, 1, 8, 0));
    assert_eq!(log.weight_list[1].time, ts(2023, 1, 2, 8, 0));
    assert_eq!(log.min, Some(800));
    assert_eq!(log.max, Some(815));
}

#[test]
fn bad_line_empties_log() {
    let log = WeightlogT::new(String::from("demo.csv"), Some(b"bad,line\n".to_vec()));
    assert!(log.is_empty());
    assert_eq!(log.min, None);
    assert_eq!(log.max, None);
}

#[test]
fn one_bad_line_among_good_empties_log() {
    let content = b"2023-01-01,08:00,80.0\nbad,line\n2023-01-02,08:00,81.5\n".to_vec();
    let log = WeightlogT::new(String::from("demo.csv"), Some(content));
    assert!(log.is_empty());
}

#[test]
fn round_trip_written_records() {
    let mut log = WeightlogT::new(String::from("demo.csv"), None);
    let mut file: Vec<u8> = Vec::new();
    file.extend(log.append_at(705, ts(2023, 1, 1, 8, 0)));
    file.extend(log.append_at(712, ts(2024, 2, 29, 23, 59)));
    file.extend(log.append_at(9999, ts(2025, 12, 31, 0, 1)));
    let reopened = WeightlogT::new(String::from("demo.csv"), Some(file));
    assert_eq!(reopened.len(), 3);
    assert_eq!(reopened.weight_list, log.weight_list);
    assert_eq!(reopened.min, log.min);
    assert_eq!(reopened.max, log.max);
}

#[test]
fn open_twice_is_identical() {
    let content = b"2023-01-01,08:00,80.0\n2023-01-02,08:00,81.5\n".to_vec();
    let l1 = WeightlogT::new(String::from("demo.csv"), Some(content.clone()));
    let l2 = WeightlogT::new(String::from("demo.csv"), Some(content));
    assert_eq!(l1.weight_list, l2.weight_list);
    assert_eq!(l1.min, l2.min);
    assert_eq!(l1.max, l2.max);
}

#[test]
fn windowing_selects_trailing_samples() {
    let mut log = WeightlogT::new(String::from("demo.csv"), None);
    log.append_at(700, ts(2023, 1, 1, 8, 0));
    log.append_at(710, ts(2023, 1, 2, 8, 0));
    log.append_at(720, ts(2023, 1, 3, 8, 0));
    let last_two = log.window(Some(2));
    assert_eq!(last_two.len(), 2);
    assert_eq!(last_two[0].kilo, 710);
    assert_eq!(last_two[1].kilo, 720);
    let all = log.window(None);
    assert_eq!(all.len(), 3);
    assert_eq!(all[0].kilo, 700);
    let more_than_len = log.window(Some(10));
    assert_eq!(more_than_len.len(), 3);
    let none_of_them = log.window(Some(0));
    assert_eq!(none_of_them.len(), 0);
}

#[test]
fn table_rows_render_fields() {
    let mut log = WeightlogT::new(String::from("demo.csv"), None);
    log.append_at(705, ts(2023, 1, 1, 8, 0));
    log.append_at(712, ts(2023, 1, 2, 9, 30));
    let rows = log.print_table(Some(1));
    assert_eq!(rows.len(), 1);
    assert_eq!(rows[0].date, b"2023-01-02".to_vec());
    assert_eq!(rows[0].time, b"09:30".to_vec());
    assert_eq!(rows[0].weight, b"71.2".to_vec());
    assert!(rows[0].age_hours >= 0);
}

#[test]
fn human_lines_render() {
    let mut log = WeightlogT::new(String::from("demo.csv"), None);
    log.append_at(705, ts(2023, 1, 1, 8, 0));
    log.append_at(700, ts(2023, 1, 2, 8, 0));
    let ages = vec![24i64, 0i64];
    let lines = log.print_human(&ages);
    assert_eq!(lines.len(), 2);
    assert_eq!(lines[0], b"2023-01-01 08:00 (1.0 days ago) 70.5 kg".to_vec());
    assert_eq!(lines[1], b"2023-01-02 08:00 (0.0 days ago) 70 kg".to_vec());
}

#[test]
fn age_text_rounds_half_up() {
    assert_eq!(weightlog::codec::age_text(0), b"0.0 days ago".to_vec());
    assert_eq!(weightlog::codec::age_text(24), b"1.0 days ago".to_vec());
    assert_eq!(weightlog::codec::age_text(36), b"1.5 days ago".to_vec());
    assert_eq!(weightlog::codec::age_text(23), b"1.0 days ago".to_vec());
    assert_eq!(weightlog::codec::age_text(1), b"0.0 days ago".to_vec());
}

#[test]
fn weight_field_forms() {
    // dotless, trailing dot, leading dot and extra digits are all read;
    // signs, letters and a lone dot are not.
    let good = b"2023-01-01,08:00,80\n".to_vec();
    assert_eq!(WeightlogT::new(String::from("d"), Some(good)).weight_list[0].kilo, 800);
    let trailing = b"2023-01-01,08:00,5.\n".to_vec();
    assert_eq!(WeightlogT::new(String::from("d"), Some(trailing)).weight_list[0].kilo, 50);
    let leading = b"2023-01-01,08:00,.5\n".to_vec();
    assert_eq!(WeightlogT::new(String::from("d"), Some(leading)).weight_list[0].kilo, 5);
    let extra = b"2023-01-01,08:00,80.29\n".to_vec();
    assert_eq!(WeightlogT::new(String::from("d"), Some(extra)).weight_list[0].kilo, 802);
    let lone_dot = b"2023-01-01,08:00,.\n".to_vec();
    assert!(WeightlogT::new(String::from("d"), Some(lone_dot)).is_empty());
    let signed = b"2023-01-01,08:00,-5\n".to_vec();
    assert!(WeightlogT::new(String::from("d"), Some(signed)).is_empty());
    let letters = b"2023-01-01,08:00,abc\n".to_vec();
    assert!(WeightlogT::new(String::from("d"), Some(letters)).is_empty());
    let too_long = b"2023-01-01,08:00,123456789.0\n".to_vec();
    assert!(WeightlogT::new(String::from("d"), Some(too_long)).is_empty());
}

#[test]
fn date_and_time_validation() {
    let bad_day = b"2023-02-30,08:00,80.0\n".to_vec();
    assert!(WeightlogT::new(String::from("d"), Some(bad_day)).is_empty());
    let leap_ok = b"2024-02-29,08:00,80.0\n".to_vec();
    assert_eq!(WeightlogT::new(String::from("d"), Some(leap_ok)).len(), 1);
    let not_leap = b"2023-02-29,08:00,80.0\n".to_vec();
    assert!(WeightlogT::new(String::from("d"), Some(not_leap)).is_empty());
    let bad_hour = b"2023-01-01,25:00,80.0\n".to_vec();
    assert!(WeightlogT::new(String::from("d"), Some(bad_hour)).is_empty());
    let bad_month = b"2023-13-01,08:00,80.0\n".to_vec();
    assert!(WeightlogT::new(String::from("d"), Some(bad_month)).is_empty());
    let short_date = b"2023-1-01,08:00,80.0\n".to_vec();
    assert!(WeightlogT::new(String::from("d"), Some(short_date)).is_empty());
}

#[test]
fn blank_lines_are_skipped() {
    let content = b"\n2023-01-01,08:00,80.0\n\n2023-01-02,08:00,81.5\r\n\n".to_vec();
    let log = WeightlogT::new(String::from("d"), Some(content));
    assert_eq!(log.len(), 2);
    assert_eq!(log.weight_list[1].kilo, 815);
}

#[test]
fn extra_fields_are_ignored() {
    let content = b"2023-01-01,08:00,80.0,note,more\n".to_vec();
    let log = WeightlogT::new(String::from("d"), Some(content));
    assert_eq!(log.len(), 1);
    assert_eq!(log.weight_list[0].kilo, 800);
}

#[test]
fn weight_range_check() {
    assert!(!weightlog::weight_in_range(0));
    assert!(weightlog::weight_in_range(1));
    assert!(weightlog::weight_in_range(9999));
    assert!(!weightlog::weight_in_range(10000));
}

#[test]
fn mode_resolution() {
    assert_eq!(resolve_run_mode(true), RunMode::Input);
    assert_eq!(resolve_run_mode(false), RunMode::Print);
    assert_eq!(resolve_print_style(false, false), PrintStyle::Table);
    assert_eq!(resolve_print_style(false, true), PrintStyle::Plain);
    assert_eq!(resolve_print_style(true, true), PrintStyle::Raw);
    assert_eq!(entries_to_show(true), None);
    assert_eq!(entries_to_show(false), Some(5));
}

#[test]
fn log_age_counts_from_first_sample() {
    let mut log = WeightlogT::new(String::from("d"), None);
    assert_eq!(log.log_age(), 0);
    log.add_weight(800);
    assert!(log.log_age() >= 0);
}
