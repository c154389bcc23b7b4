use window_tracker::report::{
    format_window_title, generate_buckets, order_row, render_report, render_row,
    session_in_bucket,
};
use window_tracker::session::Window;
use window_tracker::text::{force_length, format_hhmm};
use window_tracker::timeparse::{parse_stored_timestamp, ParseError};

fn session(title: &str, start_hhmmss: &str, end_hhmmss: &str) -> Window {
    Window {
        id: 0,
        title: String::from(title),
        start_time: format!("2023-06-05 {}.000000000 +02:00", start_hhmmss),
        end_time: format!("2023-06-05 {}.000000000 +02:00", end_hhmmss),
        category: None,
    }
}

fn default_buckets() -> Vec<u32> {
    generate_buckets(&vec![5, 20, 35, 50])
}

#[test]
fn session_appears_in_exactly_its_buckets() {
    // A session stored as [10:05, 10:35) covers the rows 10:05 and
    // 10:20, not the one before its start nor the one at its end.
    let start = 10 * 3600 + 5 * 60;
    let end = 10 * 3600 + 35 * 60;
    assert!(session_in_bucket(start, end, 10 * 3600 + 5 * 60));
    assert!(session_in_bucket(start, end, 10 * 3600 + 20 * 60));
    assert!(!session_in_bucket(start, end, 9 * 3600 + 50 * 60));
    assert!(!session_in_bucket(start, end, 10 * 3600 + 35 * 60));
}

#[test]
fn report_places_session_in_both_covered_rows() {
    let windows = vec![session("work", "10:05:00", "10:35:00")];
    let rows = render_report(&windows, &default_buckets(), 4).unwrap();
    assert_eq!(rows, vec!["10:05 | work", "10:20 | work"]);
}

#[test]
fn new_title_takes_dropped_column() {
    // Previous row [A, B]; current bucket holds A and C: B's column is
    // filled by C while A keeps column 0.
    let previous = vec![session("alpha", "10:05:00", "10:35:00"), session("beta", "10:05:00", "10:35:00")];
    let current = vec![session("alpha", "10:20:00", "10:50:00"), session("gamma", "10:20:00", "10:50:00")];
    let row = order_row(&previous, current);
    let titles: Vec<&str> = row.iter().map(|w| w.title.as_str()).collect();
    assert_eq!(titles, vec!["alpha", "gamma"]);
}

#[test]
fn stability_carries_across_an_empty_row() {
    // Bucket 10:05 renders [alpha, beta]; 10:20 collects nothing and is
    // skipped; 10:35 collects [beta, alpha] and is reordered to match
    // the last non-empty row, not reset by the gap.
    let windows = vec![
        session("alpha", "10:05:00", "10:20:00"),
        session("beta", "10:05:00", "10:20:00"),
        session("beta", "10:35:00", "10:50:00"),
        session("alpha", "10:35:00", "10:50:00"),
    ];
    let rows = render_report(&windows, &default_buckets(), 5).unwrap();
    assert_eq!(rows, vec!["10:05 | alpha | beta ", "10:35 | alpha | beta "]);
}

#[test]
fn fewer_sessions_than_previous_columns() {
    let previous = vec![session("alpha", "10:05:00", "10:35:00"), session("beta", "10:05:00", "10:35:00")];
    let current = vec![session("beta", "10:20:00", "10:50:00")];
    let row = order_row(&previous, current);
    let titles: Vec<&str> = row.iter().map(|w| w.title.as_str()).collect();
    assert_eq!(titles, vec!["beta"]);
}

#[test]
fn leftover_sessions_append_in_stored_order() {
    let previous = vec![session("alpha", "10:05:00", "10:35:00")];
    let current = vec![
        session("alpha", "10:20:00", "10:50:00"),
        session("beta", "10:20:00", "10:50:00"),
        session("gamma", "10:20:00", "10:50:00"),
    ];
    let row = order_row(&previous, current);
    let titles: Vec<&str> = row.iter().map(|w| w.title.as_str()).collect();
    assert_eq!(titles, vec!["alpha", "beta", "gamma"]);
}

#[test]
fn long_title_is_cut_to_width() {
    let title = String::from("abcdefghijklmnopqrstuvwxyz1234");
    assert_eq!(title.chars().count(), 30);
    let forced = force_length(title, 20);
    assert_eq!(forced, "abcdefghijklmnopqrst");
}

#[test]
fn short_title_pads_with_trailing_spaces() {
    let forced = force_length(String::from("abcde"), 20);
    assert_eq!(forced, "abcde               ");
    assert_eq!(forced.chars().count(), 20);
}

#[test]
fn formatting_replaces_bars_and_colors_categorized_titles() {
    assert_eq!(format_window_title(String::from("a|b"), None, 3), "a-b");
    assert_eq!(
        format_window_title(String::from("a\u{ff5c}b"), None, 3),
        "a-b"
    );
    assert_eq!(
        format_window_title(String::from("mail"), Some(0), 4),
        "\u{1b}[31mmail\u{1b}[0m"
    );
    assert_eq!(
        format_window_title(String::from("mail"), Some(9), 4),
        "\u{1b}[37mmail\u{1b}[0m"
    );
}

#[test]
fn hhmm_labels_are_zero_padded() {
    assert_eq!(format_hhmm(0), "00:00");
    assert_eq!(format_hhmm(10 * 3600 + 5 * 60), "10:05");
    assert_eq!(format_hhmm(23 * 3600 + 59 * 60 + 59), "23:59");
}

#[test]
fn render_row_joins_label_and_cells() {
    let items = vec![session("alpha", "10:20:00", "10:50:00"), session("beta", "10:20:00", "10:50:00")];
    let line = render_row(10 * 3600 + 5 * 60, &items, 5);
    assert_eq!(line, "10:05 | alpha | beta ");
}

#[test]
fn buckets_cover_every_hour_in_order() {
    let buckets = generate_buckets(&vec![5, 20, 35, 50]);
    assert_eq!(buckets.len(), 96);
    assert_eq!(buckets[0], 5 * 60);
    assert_eq!(buckets[1], 20 * 60);
    assert_eq!(buckets[95], 23 * 3600 + 50 * 60);
    assert!(buckets.windows(2).all(|p| p[0] < p[1]));
}

#[test]
fn duplicate_minutes_collapse_in_the_grid() {
    let buckets = generate_buckets(&vec![5, 5]);
    assert_eq!(buckets.len(), 24);
}

#[test]
fn unsorted_minutes_still_give_a_sorted_grid() {
    let buckets = generate_buckets(&vec![50, 5]);
    assert_eq!(buckets[0], 5 * 60);
    assert_eq!(buckets[1], 50 * 60);
    assert_eq!(buckets.len(), 48);
}

#[test]
fn bad_start_time_aborts_the_report() {
    let mut w = session("work", "10:05:00", "10:35:00");
    w.start_time = String::from("not a timestamp");
    let r = render_report(&vec![w], &default_buckets(), 4);
    assert_eq!(r.unwrap_err(), ParseError::BadStartTime);
}

#[test]
fn bad_end_time_aborts_the_report() {
    let mut w = session("work", "10:05:00", "10:35:00");
    w.end_time = String::from("2023-06-05");
    let r = render_report(&vec![w], &default_buckets(), 4);
    assert_eq!(r.unwrap_err(), ParseError::BadEndTime);
}

#[test]
fn stored_timestamps_decode_to_seconds_from_midnight() {
    assert_eq!(
        parse_stored_timestamp("2023-06-05 10:20:00.000000000 +02:00"),
        Some(10 * 3600 + 20 * 60)
    );
    assert_eq!(
        parse_stored_timestamp("2023-06-05 19:50:35.482704600 +02:00"),
        Some(19 * 3600 + 50 * 60 + 35)
    );
    assert_eq!(parse_stored_timestamp("yesterday"), None);
}

#[test]
fn empty_store_renders_no_rows() {
    let rows = render_report(&Vec::new(), &default_buckets(), 4).unwrap();
    assert!(rows.is_empty());
}
