use senklot::config::ConfigError;
use senklot::config::Entry;
use senklot::config::Restriction;
use senklot::config::StaticDuration;
use senklot::config::default_interval;
use senklot::config::is_valid_domain;
use senklot::parse::parse_duration;
use senklot::parse::parse_static_duration;
use senklot::parse::parse_time;
use senklot::LocalTime;

fn at(mins: u32) -> LocalTime {
    LocalTime::new(0, mins)
}

#[test]
fn wrapping_window_contains_evening_and_night() {
    let w = StaticDuration { begin: 22 * 60, end: 6 * 60 };
    assert!(w.contains(&at(23 * 60 + 30)));
    assert!(w.contains(&at(2 * 60)));
    assert!(!w.contains(&at(12 * 60)));
}

#[test]
fn daytime_window_contains_noon_only() {
    let w = StaticDuration { begin: 6 * 60, end: 22 * 60 };
    assert!(w.contains(&at(12 * 60)));
    assert!(!w.contains(&at(23 * 60 + 30)));
}

#[test]
fn window_boundaries_are_half_open() {
    let w = StaticDuration { begin: 6 * 60, end: 22 * 60 };
    assert!(w.contains(&at(6 * 60)));
    assert!(!w.contains(&at(22 * 60)));
}

#[test]
fn fractional_hours_give_whole_minutes() {
    assert_eq!(parse_duration("1.5h"), Ok(90));
}

#[test]
fn plain_minutes_parse() {
    assert_eq!(parse_duration("90m"), Ok(90));
}

#[test]
fn sub_minute_precision_is_discarded() {
    assert_eq!(parse_duration("0.016h"), Ok(0));
}

#[test]
fn minute_fractions_are_truncated() {
    assert_eq!(parse_duration("90.9m"), Ok(90));
    assert_eq!(parse_duration("2h"), Ok(120));
    assert_eq!(parse_duration("1.h"), Ok(60));
}

#[test]
fn malformed_durations_are_rejected() {
    assert_eq!(parse_duration(""), Err(ConfigError::BadDuration));
    assert_eq!(parse_duration("h"), Err(ConfigError::BadDuration));
    assert_eq!(parse_duration("12"), Err(ConfigError::BadDuration));
    assert_eq!(parse_duration("1.5x"), Err(ConfigError::BadDuration));
    assert_eq!(parse_duration(".5h"), Err(ConfigError::BadDuration));
    assert_eq!(parse_duration("1..5h"), Err(ConfigError::BadDuration));
}

#[test]
fn times_parse_to_minutes_of_day() {
    assert_eq!(parse_time("00:00"), Ok(0));
    assert_eq!(parse_time("23:30"), Ok(23 * 60 + 30));
    assert_eq!(parse_time("09:05"), Ok(9 * 60 + 5));
}

#[test]
fn bad_times_are_rejected() {
    assert_eq!(parse_time("24:00"), Err(ConfigError::BadTime));
    assert_eq!(parse_time("12:60"), Err(ConfigError::BadTime));
    assert_eq!(parse_time("1:30"), Err(ConfigError::BadTime));
    assert_eq!(parse_time("ab:cd"), Err(ConfigError::BadTime));
    assert_eq!(parse_time("12-30"), Err(ConfigError::BadTime));
}

#[test]
fn windows_parse_both_halves() {
    assert_eq!(
        parse_static_duration("22:00-06:00"),
        Ok(StaticDuration { begin: 22 * 60, end: 6 * 60 })
    );
}

#[test]
fn bad_windows_are_rejected() {
    assert_eq!(parse_static_duration("22:00"), Err(ConfigError::BadWindow));
    assert_eq!(parse_static_duration("22:00+06:00"), Err(ConfigError::BadWindow));
    assert_eq!(parse_static_duration("25:00-06:00"), Err(ConfigError::BadTime));
}

#[test]
fn domains_must_be_tokens() {
    assert!(is_valid_domain("example.com"));
    assert!(!is_valid_domain(""));
    assert!(!is_valid_domain("a b"));
    assert!(!is_valid_domain("a#b"));
    assert!(!is_valid_domain("a\nb"));
}

#[test]
fn entries_reject_bad_domains() {
    let r = Entry::new(
        vec![String::from("ok.example"), String::from("bad domain")],
        Restriction::Static { unlock: vec![] },
    );
    assert!(matches!(r, Err(ConfigError::BadDomain)));
    let r2 = Entry::new(
        vec![String::from("ok.example")],
        Restriction::Dynamic { period: 60, cool_time: 30 },
    );
    assert!(r2.is_ok());
}

#[test]
fn the_default_interval_is_a_minute() {
    assert_eq!(default_interval(), 60);
}
