use commitfreq::date::Date;
use commitfreq::date::date_from_ymd;
use commitfreq::date::from_day_number;
use commitfreq::date::max_day_number;
use commitfreq::date::parse_date;
use commitfreq::date::today;
use commitfreq::digits::parse_i64;
use commitfreq::digits::u64_to_string;

fn b(s: &str) -> Vec<u8> {
    s.as_bytes().to_vec()
}

#[test]
fn parse_date_accepts_valid_days() {
    assert_eq!(
        parse_date(&b("2024-01-10")),
        Some(Date { year: 2024, month: 1, day: 10 })
    );
    assert_eq!(
        parse_date(&b("0000-01-01")),
        Some(Date { year: 0, month: 1, day: 1 })
    );
    assert_eq!(
        parse_date(&b("9999-12-31")),
        Some(Date { year: 9999, month: 12, day: 31 })
    );
}

#[test]
fn parse_date_knows_leap_years() {
    assert_eq!(
        parse_date(&b("2024-02-29")),
        Some(Date { year: 2024, month: 2, day: 29 })
    );
    assert_eq!(parse_date(&b("2023-02-29")), None);
    assert_eq!(parse_date(&b("1900-02-29")), None);
    assert_eq!(
        parse_date(&b("2000-02-29")),
        Some(Date { year: 2000, month: 2, day: 29 })
    );
}

#[test]
fn parse_date_rejects_malformed_tokens() {
    assert_eq!(parse_date(&b("")), None);
    assert_eq!(parse_date(&b("2024-1-1")), None);
    assert_eq!(parse_date(&b("2024/01/01")), None);
    assert_eq!(parse_date(&b("2024-13-01")), None);
    assert_eq!(parse_date(&b("2024-00-10")), None);
    assert_eq!(parse_date(&b("2024-04-31")), None);
    assert_eq!(parse_date(&b("2024-01-00")), None);
    assert_eq!(parse_date(&b("not-a-date")), None);
    assert_eq!(parse_date(&b("2024-01-100")), None);
}

#[test]
fn day_numbers_follow_the_calendar() {
    let first = Date { year: 0, month: 1, day: 1 };
    assert_eq!(first.day_number(), 0);
    let epoch = Date { year: 1970, month: 1, day: 1 };
    assert_eq!(epoch.day_number(), 719528);
    let jan2 = Date { year: 0, month: 1, day: 2 };
    assert_eq!(jan2.day_number(), 1);
    let mar1 = Date { year: 0, month: 3, day: 1 };
    assert_eq!(mar1.day_number(), 60);
}

#[test]
fn day_number_round_trips() {
    let samples = [
        Date { year: 2024, month: 1, day: 10 },
        Date { year: 0, month: 1, day: 1 },
        Date { year: 9999, month: 12, day: 31 },
        Date { year: 2000, month: 2, day: 29 },
        Date { year: 1970, month: 1, day: 1 },
    ];
    for d in samples {
        assert_eq!(from_day_number(d.day_number()), d);
    }
    assert_eq!(
        from_day_number(max_day_number()),
        Date { year: 9999, month: 12, day: 31 }
    );
}

#[test]
fn format_ymd_pads_with_zeros() {
    let d = Date { year: 2024, month: 1, day: 10 };
    assert_eq!(d.format_ymd(), "2024-01-10");
    let e = Date { year: 5, month: 3, day: 7 };
    assert_eq!(e.format_ymd(), "0005-03-07");
    let f = Date { year: 987, month: 11, day: 30 };
    assert_eq!(f.format_ymd(), "0987-11-30");
}

#[test]
fn date_from_ymd_validates() {
    assert!(date_from_ymd(2024, 2, 29).is_some());
    assert!(date_from_ymd(2023, 2, 29).is_none());
    assert!(date_from_ymd(-1, 1, 1).is_none());
    assert!(date_from_ymd(10000, 1, 1).is_none());
}

#[test]
fn today_is_a_supported_date() {
    let d = today().expect("the clock lies in the supported span");
    assert!(d.is_valid());
    assert!(d.year >= 2020);
}

#[test]
fn parse_i64_reads_signed_decimals() {
    assert_eq!(parse_i64(&b("0")), Some(0));
    assert_eq!(parse_i64(&b("3")), Some(3));
    assert_eq!(parse_i64(&b("-3")), Some(-3));
    assert_eq!(parse_i64(&b("+42")), Some(42));
    assert_eq!(parse_i64(&b("007")), Some(7));
    assert_eq!(parse_i64(&b("9223372036854775807")), Some(i64::MAX));
    assert_eq!(parse_i64(&b("-9223372036854775808")), Some(i64::MIN));
}

#[test]
fn parse_i64_rejects_junk_and_overflow() {
    assert_eq!(parse_i64(&b("")), None);
    assert_eq!(parse_i64(&b("+")), None);
    assert_eq!(parse_i64(&b("-")), None);
    assert_eq!(parse_i64(&b("12a")), None);
    assert_eq!(parse_i64(&b(" 1")), None);
    assert_eq!(parse_i64(&b("1 ")), None);
    assert_eq!(parse_i64(&b("--3")), None);
    assert_eq!(parse_i64(&b("9223372036854775808")), None);
    assert_eq!(parse_i64(&b("-9223372036854775809")), None);
    assert_eq!(parse_i64(&b("99999999999999999999999999")), None);
}

#[test]
fn u64_to_string_renders_decimals() {
    assert_eq!(u64_to_string(0), "0");
    assert_eq!(u64_to_string(7), "7");
    assert_eq!(u64_to_string(1234567890), "1234567890");
    assert_eq!(u64_to_string(u64::MAX), "18446744073709551615");
}
