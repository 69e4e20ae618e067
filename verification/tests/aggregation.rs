use commitfreq::bounds::ArgError;
use commitfreq::bounds::Bounds;
use commitfreq::bounds::get_bounds;
use commitfreq::bounds::split_lines;
use commitfreq::date::Date;
use commitfreq::freq::FreqMap;
use commitfreq::freq::count_dates;
use commitfreq::freq::fill_gaps;
use commitfreq::freq::format_date_map;
use commitfreq::freq::get_frequencies;

fn b(s: &str) -> Vec<u8> {
    s.as_bytes().to_vec()
}

fn args(xs: &[&str]) -> Vec<Vec<u8>> {
    xs.iter().map(|x| b(x)).collect()
}

fn some_day() -> Date {
    Date { year: 2024, month: 1, day: 5 }
}

#[test]
fn zero_args_never_fail() {
    // Any argument count other than two keeps the defaults.
    for xs in [
        args(&[]),
        args(&["one"]),
        args(&["a", "b", "c"]),
        args(&["a", "b", "c", "d"]),
    ] {
        let r = get_bounds(&xs, some_day()).expect("defaults apply");
        assert_eq!(r.upper, some_day());
        assert!(r.lower_relative.is_none());
    }
}

#[test]
fn two_args_request_a_window() {
    let r = get_bounds(&args(&["2024-01-10", "3"]), some_day()).unwrap();
    assert_eq!(r.upper, Date { year: 2024, month: 1, day: 10 });
    assert_eq!(r.lower_relative, Some(2));

    let r = get_bounds(&args(&["2024-01-10", "-3"]), some_day()).unwrap();
    assert_eq!(r.lower_relative, Some(-2));

    let r = get_bounds(&args(&["2024-01-10", "0"]), some_day()).unwrap();
    assert_eq!(r.lower_relative, Some(-1));
}

#[test]
fn bad_date_argument_is_fatal() {
    let r = get_bounds(&args(&["bogus", "3"]), some_day());
    assert_eq!(r.err(), Some(ArgError::InvalidDate(b("bogus"))));
}

#[test]
fn bad_number_argument_is_fatal() {
    let r = get_bounds(&args(&["2024-01-10", "x7"]), some_day());
    assert_eq!(r.err(), Some(ArgError::InvalidNumber(b("x7"))));
}

#[test]
fn query_filters_order_the_window_ends() {
    let fwd = get_bounds(&args(&["2024-01-10", "3"]), some_day()).unwrap();
    assert!(fwd.is_usable());
    assert_eq!(
        fwd.query_filters(),
        Some(("2024-01-10".to_string(), "2024-01-12".to_string()))
    );

    let back = get_bounds(&args(&["2024-01-10", "-3"]), some_day()).unwrap();
    assert!(back.is_usable());
    assert_eq!(
        back.query_filters(),
        Some(("2024-01-08".to_string(), "2024-01-10".to_string()))
    );

    let unbounded = get_bounds(&args(&[]), some_day()).unwrap();
    assert!(unbounded.is_usable());
    assert_eq!(unbounded.query_filters(), None);
}

#[test]
fn oversized_windows_are_not_usable() {
    let r = get_bounds(&args(&["2024-01-10", "99999999999"]), some_day()).unwrap();
    assert!(!r.is_usable());
    let r = get_bounds(&args(&["2024-01-10", "-99999999999"]), some_day()).unwrap();
    assert!(!r.is_usable());
}

#[test]
fn unbounded_three_commits() {
    let bounds = Bounds { upper: some_day(), lower_relative: None };
    let raw = b("2024-01-01 10:00:00 +0000\n2024-01-01 11:00:00 +0000\n2024-01-03 09:00:00 +0000");
    assert_eq!(get_frequencies(&bounds, &raw), "2 0 1");
}

#[test]
fn empty_history_prints_nothing_when_unbounded() {
    let bounds = Bounds { upper: some_day(), lower_relative: None };
    assert_eq!(get_frequencies(&bounds, &b("")), "");
}

#[test]
fn forced_window_spans_three_days() {
    let bounds = get_bounds(&args(&["2024-01-10", "3"]), some_day()).unwrap();
    assert!(bounds.is_usable());
    assert_eq!(get_frequencies(&bounds, &b("")), "0 0 0");
}

#[test]
fn negative_days_span_the_same_length() {
    let bounds = get_bounds(&args(&["2024-01-10", "-3"]), some_day()).unwrap();
    assert!(bounds.is_usable());
    assert_eq!(get_frequencies(&bounds, &b("")), "0 0 0");
}

#[test]
fn forced_window_spans_five_days() {
    let bounds = get_bounds(&args(&["2024-01-10", "5"]), some_day()).unwrap();
    assert_eq!(bounds.lower_relative, Some(4));
    assert_eq!(get_frequencies(&bounds, &b("")), "0 0 0 0 0");
}

#[test]
fn window_edges_wrap_sparse_activity() {
    // One commit inside a backward three-day window: the forced ends at
    // 2024-01-08 and 2024-01-10 wrap it.
    let bounds = get_bounds(&args(&["2024-01-10", "-3"]), some_day()).unwrap();
    let raw = b("2024-01-09 12:00:00 +0000");
    assert_eq!(get_frequencies(&bounds, &raw), "0 1 0");
}

#[test]
fn out_of_window_dates_are_dropped() {
    let bounds = get_bounds(&args(&["2024-01-10", "-3"]), some_day()).unwrap();
    // 2024-01-01 lies further than two days from the upper bound.
    let raw = b("2024-01-01 08:00:00 +0000\n2024-01-09 12:00:00 +0000");
    assert_eq!(get_frequencies(&bounds, &raw), "0 1 0");
}

#[test]
fn aggregation_is_idempotent() {
    let bounds = Bounds { upper: some_day(), lower_relative: None };
    let raw = b("2024-01-01 10:00:00 +0000\n2024-01-01 11:00:00 +0000\n2024-01-03 09:00:00 +0000");
    let once = get_frequencies(&bounds, &raw);
    let twice = get_frequencies(&bounds, &raw);
    assert_eq!(once, twice);
}

#[test]
fn malformed_lines_are_dropped_silently() {
    let bounds = Bounds { upper: some_day(), lower_relative: None };
    let raw = b("\n\ngarbage\n2024-01-01 10:00:00 +0000\nnot a date at all\n2024-13-40 x\n\n2024-01-02 09:00:00 +0000\n");
    assert_eq!(get_frequencies(&bounds, &raw), "1 1");
}

#[test]
fn wholly_malformed_history_prints_nothing() {
    let bounds = Bounds { upper: some_day(), lower_relative: None };
    let raw = b("\nnoise\nmore noise\n");
    assert_eq!(get_frequencies(&bounds, &raw), "");
}

#[test]
fn split_lines_keeps_every_segment() {
    let lines = split_lines(&b("a\n\nbc"));
    assert_eq!(lines, vec![b("a"), b(""), b("bc")]);
    let lines = split_lines(&b(""));
    assert_eq!(lines, vec![b("")]);
    let lines = split_lines(&b("x\n"));
    assert_eq!(lines, vec![b("x"), b("")]);
}

#[test]
fn filter_dates_keeps_in_window_days() {
    let bounds = get_bounds(&args(&["2024-01-10", "-3"]), some_day()).unwrap();
    let raw = b("2024-01-12 07:00:00 +0000\n2024-01-09 12:00:00 +0000\n2024-01-01 08:00:00 +0000");
    let days = bounds.filter_dates(&raw);
    // The client-side filter keeps dates within two days of the upper
    // bound in either direction.
    assert_eq!(
        days,
        vec![
            Date { year: 2024, month: 1, day: 12 },
            Date { year: 2024, month: 1, day: 9 },
        ]
    );
}

#[test]
fn counting_accumulates_per_day() {
    let days = vec![
        Date { year: 2024, month: 1, day: 3 },
        Date { year: 2024, month: 1, day: 1 },
        Date { year: 2024, month: 1, day: 3 },
    ];
    let m = count_dates(&days);
    let d1 = Date { year: 2024, month: 1, day: 1 }.day_number();
    let d3 = Date { year: 2024, month: 1, day: 3 }.day_number();
    assert_eq!(m.entries(), &vec![(d1, 1), (d3, 2)]);
}

#[test]
fn fill_gaps_inserts_zero_days() {
    let mut m = FreqMap::new();
    m.increment(5);
    m.increment(8);
    m.increment(8);
    let filled = fill_gaps(&m);
    assert_eq!(filled.entries(), &vec![(5, 1), (6, 0), (7, 0), (8, 2)]);
    assert_eq!(format_date_map(&filled), "1 0 0 2");
}

#[test]
fn fill_gaps_of_empty_map_is_empty() {
    let m = FreqMap::new();
    let filled = fill_gaps(&m);
    assert_eq!(filled.entries().len(), 0);
    assert_eq!(format_date_map(&filled), "");
}

#[test]
fn insert_zero_respects_existing_counts() {
    let mut m = FreqMap::new();
    m.increment(4);
    m.insert_zero(4);
    m.insert_zero(2);
    assert_eq!(m.entries(), &vec![(2, 0), (4, 1)]);
}
