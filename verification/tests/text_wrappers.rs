use host_lifecycle::dream::slugify;
use host_lifecycle::memory::{parse_date, today, validate_ymd, yaml_escape};
use host_lifecycle::text::trim_exec;

#[test]
fn unicode_whitespace_is_trimmed() {
    let v: Vec<char> = "\u{3000}x y\u{2003}\n".chars().collect();
    assert_eq!(trim_exec(&v), vec!['x', ' ', 'y']);
}

#[test]
fn letters_beyond_ascii_stay_in_a_slug_and_lower() {
    assert_eq!(slugify("Ärger Über Café"), "ärger-über-café");
    assert_eq!(slugify("ABC"), "abc");
}

#[test]
fn a_quoted_value_escapes_its_quotes() {
    assert_eq!(yaml_escape("say \"hi\": now"), "\"say \\\"hi\\\": now\"");
    assert_eq!(yaml_escape("plain"), "plain");
    assert_eq!(yaml_escape(""), "");
}

#[test]
fn a_bad_date_is_named_in_quotes() {
    assert_eq!(validate_ymd("2026-13-01").err().unwrap(), "date \"2026-13-01\": month out of range");
    assert_eq!(validate_ymd("2026-1x-01").err().unwrap(), "date \"2026-1x-01\": month not a number");
    assert_eq!(validate_ymd("2026-01").err().unwrap(), "day");
    assert_eq!(validate_ymd("2026").err().unwrap(), "month");
    assert_eq!(validate_ymd("2026-01-02-03").err().unwrap(), "date \"2026-01-02-03\": extra components");
    assert!(validate_ymd("2026-02-31").is_ok());
    assert_eq!(parse_date(" \"2026-01-02\" ", "2000-01-01").unwrap(), "2026-01-02");
    assert_eq!(parse_date("", "2000-01-01").unwrap(), "2000-01-01");
}

#[test]
fn today_is_a_date() {
    let t = today();
    assert_eq!(t.len(), 10);
    assert!(validate_ymd(&t).is_ok());
    assert!(t.as_str() >= "2024-01-01");
}
