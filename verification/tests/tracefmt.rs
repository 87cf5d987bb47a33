//! Trace records.

use turbo_debug_console::screen::{Cell, Rect, TvColor};
use turbo_debug_console::streamview::StreamView;
use turbo_debug_console::tracefmt::{
    level_color, render_line, render_parsed, render_record, time_of_day, FieldValue, JsonValue,
    Record, TraceRenderer,
};

fn plain(cells: &[Cell]) -> String {
    cells.iter().map(|c| c.ch).collect()
}

fn record(json: &str) -> Vec<Cell> {
    render_line(json)
}

#[test]
fn a_full_record_renders_timestamp_level_target_message_and_fields() {
    let json = r#"{"timestamp":"2024-03-01T12:04:01.123456Z","level":"WARN","fields":{"message":"retry","attempt":3},"target":"myapp::db"}"#;
    let out = record(json);
    let text = plain(&out);
    assert_eq!(text, "12:04:01  WARN  myapp::db  retry  attempt=3");
}

#[test]
fn level_colors_are_correct() {
    for (level, expected) in [
        ("ERROR", TvColor::LightRed),
        ("WARN", TvColor::Yellow),
        ("INFO", TvColor::White),
        ("DEBUG", TvColor::LightGray),
        ("TRACE", TvColor::DarkGray),
    ] {
        let json = format!(r#"{{"level":"{level}","fields":{{"message":"x"}}}}"#);
        let out = record(&json);
        assert_eq!(
            out[0].attr.fg, expected,
            "level {level} should render {expected:?}"
        );
    }
}

#[test]
fn levels_are_accepted_case_insensitively() {
    let json = r#"{"level":"warn","fields":{"message":"x"}}"#;
    let out = record(json);
    assert_eq!(out[0].attr.fg, TvColor::Yellow);
    assert_eq!(plain(&out[..4]), "WARN");
}

#[test]
fn timestamp_is_dim_and_reduced_to_time_of_day() {
    let json = r#"{"timestamp":"2024-03-01T12:04:01.123456Z","level":"INFO","fields":{"message":"hi"}}"#;
    let out = record(json);
    assert_eq!(plain(&out[..8]), "12:04:01");
    assert!(out[..8].iter().all(|c| c.attr.fg == TvColor::DarkGray));
}

#[test]
fn an_unparseable_timestamp_is_shown_verbatim() {
    let json = r#"{"timestamp":"not-a-time","level":"INFO","fields":{"message":"hi"}}"#;
    let out = record(json);
    assert!(plain(&out).starts_with("not-a-time"));
}

#[test]
fn missing_timestamp_and_target_still_render() {
    let json = r#"{"level":"INFO","fields":{"message":"hi"}}"#;
    let out = record(json);
    assert_eq!(plain(&out), "INFO  hi");
}

#[test]
fn target_is_light_cyan() {
    let json = r#"{"level":"INFO","target":"myapp::db","fields":{"message":"hi"}}"#;
    let out = record(json);
    let target_cell = out
        .iter()
        .zip(plain(&out).chars())
        .find(|(_, c)| *c == 'm')
        .unwrap()
        .0;
    assert_eq!(target_cell.attr.fg, TvColor::LightCyan);
}

#[test]
fn extra_structured_fields_appear_dim_after_the_message() {
    let json = r#"{"level":"INFO","fields":{"message":"retry","attempt":3,"user":"alice"}}"#;
    let out = record(json);
    let text = plain(&out);
    assert!(text.contains("attempt=3"));
    assert!(text.contains("user=alice"));
    let dim_start = text.find("attempt=3").unwrap();
    assert!(
        out[dim_start..]
            .iter()
            .take_while(|c| c.ch != '\0')
            .all(|c| c.attr.fg == TvColor::DarkGray)
    );
}

#[test]
fn a_non_json_line_renders_verbatim_in_the_default_attribute() {
    let out = render_line("thread 'main' panicked at src/main.rs:1: boom");
    assert_eq!(plain(&out), "thread 'main' panicked at src/main.rs:1: boom");
    assert!(out.iter().all(|c| c.attr.fg == TvColor::LightGray));
}

#[test]
fn json_missing_a_recognized_level_renders_verbatim() {
    let json = r#"{"fields":{"message":"hi"}}"#;
    let out = render_line(json);
    assert_eq!(plain(&out), json);
}

#[test]
fn trace_renderer_buffers_split_lines() {
    let mut r = TraceRenderer::new();
    let mut v = StreamView::new(Rect::new(0, 0, 80, 24));
    let json = b"{\"level\":\"INFO\",\"fields\":{\"message\":\"hi\"}}\n";
    r.feed(&json[..10], &mut v);
    r.feed(&json[10..], &mut v);
    assert_eq!(v.plain_text(), "INFO  hi");
}

#[test]
fn trace_renderer_finish_flushes_a_trailing_partial_line() {
    let mut r = TraceRenderer::new();
    let mut v = StreamView::new(Rect::new(0, 0, 80, 24));
    r.feed(b"no newline here", &mut v);
    r.finish(&mut v);
    assert_eq!(v.plain_text(), "no newline here");
}

fn text(s: &str) -> JsonValue {
    JsonValue::Text(s.to_string())
}

fn record_of(members: Vec<(&str, JsonValue)>) -> Record {
    members.into_iter().map(|(k, v)| (k.to_string(), v)).collect()
}

#[test]
fn a_parsed_record_is_laid_out_in_segments() {
    let members = record_of(vec![
        ("timestamp", text("2024-03-01T12:04:01Z")),
        ("level", text("error")),
        ("target", text("db")),
        (
            "fields",
            JsonValue::Object(vec![
                ("a".to_string(), FieldValue::Json("[1,2]".to_string())),
                ("message".to_string(), FieldValue::Text("m".to_string())),
                ("b".to_string(), FieldValue::Text("x y".to_string())),
            ]),
        ),
    ]);
    let out = render_record(&members).unwrap();
    assert_eq!(plain(&out), "12:04:01  ERROR  db  m  a=[1,2] b=x y");
    let colors: Vec<TvColor> = out.iter().map(|c| c.attr.fg).collect();
    assert_eq!(colors[0], TvColor::DarkGray);
    assert_eq!(colors[8], TvColor::LightGray);
    assert_eq!(colors[10], TvColor::LightRed);
    assert_eq!(colors[17], TvColor::LightCyan);
    assert_eq!(colors[21], TvColor::LightGray);
    assert_eq!(colors[24], TvColor::DarkGray);
    assert!(out.iter().all(|c| c.attr.bg == TvColor::Black));
}

#[test]
fn a_record_needs_a_level_that_is_known() {
    assert_eq!(render_record(&record_of(vec![("level", text("LOUD"))])), None);
    assert_eq!(render_record(&record_of(vec![("level", JsonValue::Other)])), None);
    assert_eq!(render_record(&record_of(vec![])), None);
    let line = "{\"level\":\"LOUD\"}";
    assert_eq!(
        plain(&render_parsed(line, Some(record_of(vec![("level", text("LOUD"))])))),
        line
    );
    assert_eq!(plain(&render_parsed("x", None)), "x");
}

#[test]
fn a_message_that_is_no_string_is_left_out() {
    let members = record_of(vec![
        ("level", text("INFO")),
        (
            "fields",
            JsonValue::Object(vec![("message".to_string(), FieldValue::Json("3".to_string()))]),
        ),
    ]);
    assert_eq!(plain(&render_record(&members).unwrap()), "INFO");
    let members = record_of(vec![("level", text("INFO")), ("timestamp", text("")), ("fields", JsonValue::Other)]);
    assert_eq!(plain(&render_record(&members).unwrap()), "INFO");
}

#[test]
fn times_of_day_are_cut_out_of_timestamps_only() {
    assert_eq!(time_of_day("2024-03-01T12:04:01").as_deref(), Some("12:04:01"));
    assert_eq!(time_of_day("2024-03-01T12:04:01+02:00").as_deref(), Some("12:04:01"));
    assert_eq!(time_of_day("2024-03-01 12:04:01"), None);
    assert_eq!(time_of_day("2024-03-01T12:04:0"), None);
    assert_eq!(time_of_day("2024-03-01T12:04:0x"), None);
    assert_eq!(time_of_day("\u{e9}024-03-01T12:04:01"), None);
}

#[test]
fn level_colors_do_not_depend_on_case() {
    assert_eq!(level_color("TrAcE"), Some(TvColor::DarkGray));
    assert_eq!(level_color("debug"), Some(TvColor::LightGray));
    assert_eq!(level_color("fatal"), None);
    assert_eq!(level_color(""), None);
}

#[test]
fn json_that_is_no_object_renders_verbatim() {
    for line in ["[1]", "\"x\"", "17", "null", "", "  {\"level\":1}", "{\"level\":\"INFO\"} x"] {
        assert_eq!(plain(&render_line(line)), line);
    }
    assert_eq!(plain(&render_line("  {\"level\":\"INFO\"}")), "INFO");
}

#[test]
fn structured_values_keep_their_order_and_json_text() {
    let line = r#"{"level":"INFO","fields":{"z":{"k":[1,null]},"a":true,"message":"m","s":"q\"q"}}"#;
    assert_eq!(
        plain(&render_line(line)),
        "INFO  m  z={\"k\":[1,null]} a=true s=q\"q"
    );
}

#[test]
fn a_trace_stream_may_be_cut_anywhere() {
    let input = "panic: caf\u{e9}\n{\"level\":\"WARN\"}\ntail".as_bytes();
    for cut in 0..input.len() {
        let mut r = TraceRenderer::default();
        let mut v = StreamView::new(Rect::new(0, 0, 80, 24));
        r.feed(&input[..cut], &mut v);
        r.feed(&input[cut..], &mut v);
        assert_eq!(v.plain_text(), "panic: caf\u{e9}\nWARN\ntail");
        r.finish(&mut v);
        r.finish(&mut v);
        assert_eq!(v.plain_text(), "panic: caf\u{e9}\nWARN\ntail");
        assert_eq!(v.line_count(), 3);
    }
}

#[test]
fn ending_a_trace_stream_twice_changes_nothing() {
    let mut r = TraceRenderer::new();
    let mut v = StreamView::new(Rect::new(0, 0, 80, 24));
    r.feed(b"one\ntwo", &mut v);
    r.finish(&mut v);
    assert_eq!(v.plain_text(), "one\ntwo");
    r.finish(&mut v);
    assert_eq!(v.plain_text(), "one\ntwo");
    assert_eq!(v.line_count(), 2);
}
