use log_reasoner::ingest::LogParser;
use log_reasoner::models::LogLevel;

const MS_2024_01_05T12: i64 = 1_704_456_000_000;

#[test]
fn iso_line_extracts_timestamp_and_level() {
    let p = LogParser::new();
    let e = p.parse_line("2024-01-05T12:00:00Z ERROR conn to 10.0.0.1 failed");
    assert_eq!(e.timestamp, Some(MS_2024_01_05T12));
    assert_eq!(e.level, Some(LogLevel::Error));
    assert_eq!(e.message, "conn to 10.0.0.1 failed");
    assert_eq!(e.raw, "2024-01-05T12:00:00Z ERROR conn to 10.0.0.1 failed");
}

#[test]
fn iso_line_with_offset() {
    let p = LogParser::new();
    let e = p.parse_line("2024-01-05T12:00:00+02:00 WARN y");
    assert_eq!(e.timestamp, Some(MS_2024_01_05T12 - 2 * 3600 * 1000));
    assert_eq!(e.level, Some(LogLevel::Warn));
    assert_eq!(e.message, "y");
}

#[test]
fn iso_line_with_fraction() {
    let p = LogParser::new();
    let e = p.parse_line("2024-01-05T12:00:00.250Z INFO tick");
    assert_eq!(e.timestamp, Some(MS_2024_01_05T12 + 250));
    assert_eq!(e.level, Some(LogLevel::Info));
    assert_eq!(e.message, "tick");
}

#[test]
fn compact_offset_is_not_accepted() {
    // the offset without a colon is matched as timestamp text but the
    // parser rejects it, so the field degrades to absent and the text
    // stays in the message
    let p = LogParser::new();
    let e = p.parse_line("2024-01-05T12:00:00+0200 WARN y");
    assert_eq!(e.timestamp, None);
    assert_eq!(e.level, Some(LogLevel::Warn));
    assert_eq!(e.message, "2024-01-05T12:00:00+0200 y");
}

#[test]
fn space_separated_timestamp_is_utc() {
    let p = LogParser::new();
    let e = p.parse_line("2024-01-05 12:00:00 INFO started");
    assert_eq!(e.timestamp, Some(MS_2024_01_05T12));
    assert_eq!(e.level, Some(LogLevel::Info));
    assert_eq!(e.message, "started");
}

#[test]
fn t_separated_without_zone_has_no_timestamp() {
    let p = LogParser::new();
    let e = p.parse_line("2024-01-05T12:00:00 INFO started");
    assert_eq!(e.timestamp, None);
    // the unparsed timestamp text stays in the message
    assert_eq!(e.message, "2024-01-05T12:00:00 started");
}

#[test]
fn malformed_line_degrades_to_absent_fields() {
    let p = LogParser::new();
    let e = p.parse_line("no structure here at all");
    assert_eq!(e.timestamp, None);
    assert_eq!(e.level, None);
    assert_eq!(e.message, "no structure here at all");
}

#[test]
fn message_whitespace_is_collapsed() {
    let p = LogParser::new();
    let e = p.parse_line("   hello   \t world  ");
    assert_eq!(e.message, "hello world");
}

#[test]
fn clf_line_timestamp_and_status_500() {
    let p = LogParser::new();
    let e = p.parse_line(
        "127.0.0.1 - - [10/Oct/2000:13:55:36 -0700] \"GET /index.html HTTP/1.0\" 500 2326",
    );
    // 2000-10-10 13:55:36 -0700 is 2000-10-10 20:55:36 UTC
    assert_eq!(e.timestamp, Some(971_211_336_000));
    assert_eq!(e.level, Some(LogLevel::Error));
}

#[test]
fn clf_status_404_maps_to_warn() {
    let p = LogParser::new();
    let e = p.parse_line(
        "10.0.0.5 - - [10/Oct/2000:13:55:36 -0700] \"POST /x HTTP/1.0\" 404 17",
    );
    assert_eq!(e.level, Some(LogLevel::Warn));
}

#[test]
fn clf_status_200_maps_to_info() {
    let p = LogParser::new();
    let e = p.parse_line(
        "10.0.0.5 - - [10/Oct/2000:13:55:36 -0700] \"GET / HTTP/1.0\" 200 -",
    );
    assert_eq!(e.level, Some(LogLevel::Info));
}

#[test]
fn explicit_level_beats_clf_inference() {
    let p = LogParser::new();
    let e = p.parse_line(
        "10.0.0.5 - - [10/Oct/2000:13:55:36 -0700] \"GET /debug HTTP/1.0\" 500 1",
    );
    // the request path holds the token DEBUG case-insensitively
    assert_eq!(e.level, Some(LogLevel::Debug));
}

#[test]
fn level_token_case_insensitive() {
    let p = LogParser::new();
    assert_eq!(p.parse_line("warning: disk almost full").level, Some(LogLevel::Warn));
    assert_eq!(p.parse_line("some err happened").level, Some(LogLevel::Error));
    assert_eq!(p.parse_line("trace: enter").level, Some(LogLevel::Trace));
}

#[test]
fn level_token_needs_word_boundaries() {
    let p = LogParser::new();
    assert_eq!(p.parse_line("errors were seen").level, None);
    assert_eq!(p.parse_line("preERROR marker").level, None);
}

#[test]
fn from_str_recognizes_all_tokens() {
    assert_eq!(LogLevel::from_str("ERROR"), Some(LogLevel::Error));
    assert_eq!(LogLevel::from_str("err"), Some(LogLevel::Error));
    assert_eq!(LogLevel::from_str("Warn"), Some(LogLevel::Warn));
    assert_eq!(LogLevel::from_str("WARNING"), Some(LogLevel::Warn));
    assert_eq!(LogLevel::from_str("info"), Some(LogLevel::Info));
    assert_eq!(LogLevel::from_str("Debug"), Some(LogLevel::Debug));
    assert_eq!(LogLevel::from_str("trace"), Some(LogLevel::Trace));
    assert_eq!(LogLevel::from_str("fatal"), None);
    assert_eq!(LogLevel::from_str(""), None);
}

#[test]
fn parse_lines_skips_blank_lines() {
    let p = LogParser::new();
    let lines = vec![
        "".to_string(),
        "2024-01-05T12:00:00Z ERROR a".to_string(),
        "   \t ".to_string(),
        "INFO b".to_string(),
    ];
    let events = p.parse_lines(&lines);
    assert_eq!(events.len(), 2);
    assert_eq!(events[0].message, "a");
    assert_eq!(events[1].message, "b");
}
