use chrono::Local;
use tto::when::{
    describe, describe_format, duration, duration_secs, next_from, future_or_error, normalize, parse, parse_at, remaining, target_of,
    DurationError, Target,
};

#[test]
fn durations() {
    let now = Local::now().timestamp() as u64;
    assert!((parse("2h").unwrap() as i64 - (now + 7200) as i64).abs() <= 1);
    assert!((parse("1h30m").unwrap() as i64 - (now + 5400) as i64).abs() <= 1);
    assert!((parse("45").unwrap() as i64 - (now + 2700) as i64).abs() <= 1);
    assert!(parse("0m").is_err());
    assert!(parse("soon").is_err());
    // Must be an error, never a panic.
    assert!(parse("3000000000000h").is_err());
    assert!(parse("99999999999999999999d").is_err());
}

#[test]
fn named_times_are_in_the_future() {
    let now = Local::now().timestamp() as u64;
    for s in ["tonight", "today", "weekend", "until 07:00", "23:59"] {
        assert!(parse(s).unwrap() > now, "{s}");
    }
    assert!(parse("weekend").unwrap() - now <= 8 * 86400);
}

#[test]
fn duration_values() {
    assert_eq!(duration_secs("90m"), Ok(5400));
    assert_eq!(duration_secs("1d"), Ok(86400));
    assert_eq!(duration_secs("1h30"), Ok(5400));
    assert_eq!(duration_secs("2h2h"), Ok(14400));
    assert_eq!(duration_secs("h"), Err(DurationError::Unreadable));
    assert_eq!(duration_secs("2x"), Err(DurationError::UnknownUnit('x')));
    assert_eq!(duration_secs("3000000000000h"), Err(DurationError::TooLong));
    assert_eq!(duration_secs(""), Err(DurationError::Empty));
    assert_eq!(duration_secs("0"), Err(DurationError::Empty));
    assert_eq!(duration_secs("99999999999999999999"), Err(DurationError::Unreadable));
}

#[test]
fn duration_messages() {
    assert_eq!(duration("2x").unwrap_err(), "unknown unit 'x' in \"2x\"");
    assert_eq!(duration("m").unwrap_err(), "can't read \"m\"");
    assert_eq!(
        duration("0m").unwrap_err(),
        "can't read \"0m\"; try 2h, 90m, until 07:00, tonight, weekend"
    );
    assert_eq!(
        duration("3000000000000h").unwrap_err(),
        "\"3000000000000h\" is longer than time itself; 30 days is the most"
    );
}

#[test]
fn normalizing_requests() {
    assert_eq!(normalize("  Until 07:00 \n"), "07:00");
    assert_eq!(normalize("TONIGHT"), "tonight");
    assert_eq!(normalize("untilx"), "untilx");
}

#[test]
fn targets() {
    assert_eq!(target_of("tonight", None), Ok(Target::Tonight));
    assert_eq!(target_of("rest of today", None), Ok(Target::Today));
    assert_eq!(target_of("weekend", Some((1, 2))), Ok(Target::Weekend));
    assert_eq!(target_of("07:30", Some((7, 30))), Ok(Target::At(7, 30)));
    assert_eq!(target_of("2h", None), Ok(Target::For(7200)));
    assert!(target_of("soon", None).is_err());
}

#[test]
fn past_targets_are_refused() {
    assert_eq!(future_or_error(10, 10), Err("that's in the past".to_string()));
    assert_eq!(future_or_error(11, 10), Ok(11));
}

#[test]
fn remaining_words() {
    assert_eq!(remaining(0), "under a minute");
    assert_eq!(remaining(59), "under a minute");
    assert_eq!(remaining(60), "1m");
    assert_eq!(remaining(3600), "1h");
    assert_eq!(remaining(3600 * 2 + 60 * 5 + 7), "2h 5m");
    assert_eq!(remaining(36000), "10h");
}

#[test]
fn spans_read_at_a_fixed_time() {
    assert_eq!(parse_at("2h", 1_000), Ok(8_200));
    assert_eq!(parse_at(" Until 90M ", 0), Ok(5_400));
    assert_eq!(parse_at("1h30", 100), Ok(5_500));
    assert_eq!(parse_at("soon", 1_000), Err("can't read \"soon\"".to_string()));
    assert_eq!(
        parse_at("0m", 1_000),
        Err("can't read \"0m\"; try 2h, 90m, until 07:00, tonight, weekend".to_string())
    );
    assert_eq!(
        parse_at("3000000000000h", 1_000),
        Err("\"3000000000000h\" is longer than time itself; 30 days is the most".to_string())
    );
}

#[test]
fn named_times_lie_after_the_given_time() {
    let now = Local::now().timestamp();
    for s in ["tonight", "today", "weekend", "07:00"] {
        assert!(parse_at(s, now).unwrap() as i64 > now, "{s}");
    }
}

#[test]
fn describing_an_end() {
    let days = ["Sunday", "Monday", "Tuesday", "Wednesday", "Thursday", "Friday", "Saturday"];
    for until in [0u64, 1_700_000_000, Local::now().timestamp() as u64 + 60] {
        let d = describe(until);
        let b = d.as_bytes();
        assert!(b.len() > 5 && b[2] == b':', "{d}");
        assert!(b[..5].iter().enumerate().all(|(i, c)| i == 2 || c.is_ascii_digit()), "{d}");
        let rest = &d[5..];
        assert!(rest == " today" || days.iter().any(|w| rest == format!(" on {w}")), "{d}");
    }
    assert_eq!(describe(8_000_000_000_000), "?");
}

#[test]
fn spans_add_up() {
    let a = duration_secs("1h").unwrap();
    let b = duration_secs("30m").unwrap();
    assert_eq!(duration_secs("1h30m"), Ok(a + b));
    assert_eq!(duration_secs("2d").unwrap() + duration_secs("45").unwrap(), duration_secs("2d45").unwrap());
}

#[test]
fn the_next_time_chosen() {
    assert_eq!(next_from(100, Some(150), Some(250)), 150);
    assert_eq!(next_from(100, Some(100), Some(250)), 250);
    assert_eq!(next_from(100, Some(50), None), 100);
    assert_eq!(next_from(100, None, Some(250)), 250);
    assert_eq!(next_from(100, None, None), 100);
}

#[test]
fn wording_by_day() {
    assert_eq!(describe_format(700_000, Some(700_000)), "%H:%M today");
    assert_eq!(describe_format(700_001, Some(700_000)), "%H:%M on %A");
    assert_eq!(describe_format(700_001, None), "%H:%M on %A");
}
