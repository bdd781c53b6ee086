use tasklist::date::{date_from_time, due_from_expr, get_time_left, parse_absolute,
    parse_duration_secs, time_error_message, time_left_label_of, TimeError, TS_MAX};

const DAY: i64 = 86400;
const HOUR: i64 = 3600;
const WEEK: i64 = 604800;

fn now_secs() -> i64 {
    chrono::Utc::now().timestamp()
}

#[test]
fn test_get_time_left() {
    // deterministic labels for an exact difference in seconds
    assert_eq!(time_left_label_of(2 * WEEK + 10), "2w");
    assert_eq!(time_left_label_of(2), "2s");
    assert_eq!(time_left_label_of(0), "0s", "No time left should return 0s");
    assert_eq!(
        time_left_label_of(-(2 * DAY + 10)),
        "-2d",
        "Negative time should be formatted correctly"
    );
    // the clock-relative form, with margins wide enough to be stable
    let now = now_secs();
    assert_eq!(get_time_left(now + 2 * WEEK + 60), "2w");
    assert_eq!(get_time_left(now - 2 * DAY - 60), "-2d");
}

#[test]
fn test_date_from_time() {
    let checks: [(&str, i64); 4] = [
        ("2d", 2 * DAY),
        ("2d 1h 5s", 2 * DAY + HOUR + 5),
        ("2h 5w 10s", 2 * HOUR + 5 * WEEK + 10),
        ("3d -5w 23m", 3 * DAY - 5 * WEEK + 23 * 60),
    ];
    for (expr, offset) in checks.iter() {
        let before = now_secs();
        let got = date_from_time(expr).expect("well-formed expression");
        let after = now_secs();
        assert!(
            before + offset <= got && got <= after + offset,
            "parsing {} should land at now plus its seconds",
            expr
        );
    }
    let bad = date_from_time("2dw 3");
    assert_eq!(
        bad,
        Err(TimeError::Invalid),
        "Parsing with invalid values should return an error"
    );
    assert_eq!(time_error_message(&TimeError::Invalid), "Invalid time format");
}

#[test]
fn due_from_base_is_exact() {
    assert_eq!(due_from_expr(1000, "2d 3h"), Ok(1000 + 2 * DAY + 3 * HOUR));
    assert_eq!(due_from_expr(1000, "1w -1d"), Ok(1000 + WEEK - DAY));
    assert_eq!(due_from_expr(1000, ""), Err(TimeError::Invalid));
    assert_eq!(due_from_expr(1000, "5x"), Err(TimeError::Invalid));
    assert_eq!(due_from_expr(1000, "d"), Err(TimeError::Invalid));
    assert_eq!(due_from_expr(1000, "3d 4"), Err(TimeError::Invalid));
    assert_eq!(due_from_expr(0, "-1s"), Err(TimeError::OutOfRange));
    assert_eq!(due_from_expr(TS_MAX, "1s"), Err(TimeError::OutOfRange));
    assert_eq!(
        time_error_message(&TimeError::OutOfRange),
        "Due date out of range"
    );
}

#[test]
fn duration_parse_sums_tokens() {
    assert_eq!(parse_duration_secs("10s"), Some(10));
    assert_eq!(parse_duration_secs("+2m"), Some(120));
    assert_eq!(parse_duration_secs("-2m"), Some(-120));
    assert_eq!(parse_duration_secs("1w 1d 1h 1m 1s"), Some((WEEK + DAY + HOUR + 61) as i128));
    assert_eq!(parse_duration_secs("1w  1d"), None, "an empty token is malformed");
    assert_eq!(parse_duration_secs("99999w"), Some(99999 * WEEK as i128));
}

#[test]
fn absolute_form_round_trips() {
    // 1700000000 is 2023-11-14 22:13:20 UTC, so 22:13:00 is twenty less
    assert_eq!(parse_absolute("2023-11-14 22:13"), Some(1699999980));
    assert_eq!(parse_absolute("1970-01-01 00:00"), Some(0));
    assert_eq!(parse_absolute("not a date"), None);
}
