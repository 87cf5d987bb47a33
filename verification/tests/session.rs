//! Sessions.

use turbo_debug_console::pipeline::RenderOptions;
use turbo_debug_console::proto::StreamKind;
use turbo_debug_console::screen::Rect;
use turbo_debug_console::session::{format_title, Sessions};
use turbo_debug_console::streamview::StreamView;

fn opts() -> RenderOptions {
    RenderOptions {
        use_color: true,
        format_thinking: true,
        format_markdown: true,
    }
}

fn view() -> StreamView {
    StreamView::new(Rect::new(0, 0, 80, 24))
}

#[test]
fn feed_reaches_the_session_view() {
    let mut sessions = Sessions::default();
    sessions.insert(1, "demo".into(), 4242, StreamKind::Tokens, view(), opts());
    sessions.feed(1, b"hello\n");
    assert!(sessions.plain_text(1).unwrap().contains("hello"));
}

#[test]
fn window_title_reflects_connection_state() {
    let mut sessions = Sessions::default();
    sessions.insert(1, "demo".into(), 4242, StreamKind::Tokens, view(), opts());
    assert_eq!(
        sessions.window_title(1).unwrap(),
        "demo :4242 [disconnected]"
    );
    sessions.mark_reconnected(1);
    assert_eq!(sessions.window_title(1).unwrap(), "demo :4242");
    sessions.mark_disconnected(1);
    assert_eq!(
        sessions.window_title(1).unwrap(),
        "demo :4242 [disconnected]"
    );
}

#[test]
fn window_title_omits_a_zero_port() {
    let mut sessions = Sessions::default();
    sessions.insert(1, "anon-1".into(), 0, StreamKind::Tokens, view(), opts());
    assert_eq!(sessions.window_title(1).unwrap(), "anon-1 [disconnected]");
    sessions.mark_reconnected(1);
    assert_eq!(sessions.window_title(1).unwrap(), "anon-1");
}

/// A session's first-ever attach must
/// mark it connected (title stops reading `[disconnected]`) without
/// drawing the "-- reconnected --" rule — that rule announces a
/// genuine rejoin, and would be wrong above the very first line of a
/// brand-new session.
#[test]
fn mark_attached_first_attach_connects_without_a_rule() {
    let mut sessions = Sessions::default();
    sessions.insert(1, "demo".into(), 4242, StreamKind::Tokens, view(), opts());
    sessions.mark_attached(1, false);
    assert_eq!(sessions.window_title(1).unwrap(), "demo :4242");
    assert!(!sessions.plain_text(1).unwrap().contains("reconnected"));
}

/// A genuine reattach (`reattached: true`) both connects and draws the
/// rule, same as `mark_reconnected`.
#[test]
fn mark_attached_reattach_connects_and_draws_a_rule() {
    let mut sessions = Sessions::default();
    sessions.insert(1, "demo".into(), 4242, StreamKind::Tokens, view(), opts());
    sessions.mark_attached(1, true);
    assert_eq!(sessions.window_title(1).unwrap(), "demo :4242");
    assert!(sessions.plain_text(1).unwrap().contains("reconnected"));
}

#[test]
fn mark_reconnected_draws_a_horizontal_rule() {
    let mut sessions = Sessions::default();
    sessions.insert(1, "demo".into(), 4242, StreamKind::Tokens, view(), opts());
    sessions.mark_reconnected(1);
    assert!(sessions.plain_text(1).unwrap().contains("reconnected"));
}

#[test]
fn clear_empties_the_scrollback() {
    let mut sessions = Sessions::default();
    sessions.insert(1, "demo".into(), 4242, StreamKind::Tokens, view(), opts());
    sessions.feed(1, b"hello\n");
    sessions.clear(1);
    assert_eq!(sessions.plain_text(1).unwrap(), "");
}

#[test]
fn remove_drops_the_session() {
    let mut sessions = Sessions::default();
    sessions.insert(1, "demo".into(), 4242, StreamKind::Tokens, view(), opts());
    assert!(sessions.remove(1).is_some());
    assert!(sessions.plain_text(1).is_none());
}

#[test]
fn unknown_id_returns_none_everywhere() {
    let sessions = Sessions::default();
    assert!(sessions.plain_text(99).is_none());
    assert!(sessions.window_title(99).is_none());
}

#[test]
fn a_trace_session_renders_through_tracefmt_not_the_pipeline() {
    let mut sessions = Sessions::default();
    sessions.insert(1, "myapp".into(), 4242, StreamKind::Trace, view(), opts());
    sessions.feed(1, b"{\"level\":\"INFO\",\"fields\":{\"message\":\"hi\"}}\n");
    assert_eq!(sessions.plain_text(1).unwrap(), "INFO  hi");
}

#[test]
fn a_trace_session_window_title_is_tagged() {
    let mut sessions = Sessions::default();
    sessions.insert(1, "myapp".into(), 4242, StreamKind::Trace, view(), opts());
    assert_eq!(
        sessions.window_title(1).unwrap(),
        "[trace] myapp :4242 [disconnected]"
    );
    sessions.mark_reconnected(1);
    assert_eq!(sessions.window_title(1).unwrap(), "[trace] myapp :4242");
}

#[test]
fn titles_are_made_of_name_and_port() {
    assert_eq!(format_title("demo", 4242), "demo :4242");
    assert_eq!(format_title("demo", 0), "demo");
    assert_eq!(format_title("", 65535), " :65535");
}

#[test]
fn a_trace_session_draws_the_rule_on_a_line_of_its_own() {
    let mut sessions = Sessions::default();
    sessions.insert(1, "myapp".into(), 1, StreamKind::Trace, view(), opts());
    sessions.feed(1, b"unfinished");
    sessions.mark_attached(1, true);
    assert_eq!(sessions.plain_text(1).unwrap(), "unfinished\n-- reconnected --");
    sessions.mark_disconnected(1);
    sessions.mark_attached(1, true);
    assert_eq!(
        sessions.plain_text(1).unwrap(),
        "unfinished\n-- reconnected --\n\n-- reconnected --"
    );
}

#[test]
fn losing_a_client_ends_an_unfinished_line() {
    let mut sessions = Sessions::default();
    sessions.insert(1, "a".into(), 1, StreamKind::Trace, view(), opts());
    sessions.insert(2, "b".into(), 2, StreamKind::Trace, view(), opts());
    sessions.mark_attached(1, false);
    sessions.feed(1, b"tail");
    sessions.mark_disconnected(1);
    sessions.feed(1, b"next");
    assert_eq!(sessions.plain_text(1).unwrap(), "tail\nnext");
    assert_eq!(sessions.plain_text(2).unwrap(), "");
    assert!(!sessions.is_connected(1));
    assert!(!sessions.is_connected(99));
}

#[test]
fn a_selection_is_the_whole_scrollback_until_it_is_cleared() {
    let mut sessions = Sessions::default();
    sessions.insert(1, "a".into(), 1, StreamKind::Trace, view(), opts());
    sessions.feed(1, b"one\ntwo\n");
    assert_eq!(sessions.selected_text(1), None);
    sessions.select_all(1);
    assert_eq!(sessions.selected_text(1).unwrap(), "one\ntwo");
    sessions.clear(1);
    assert_eq!(sessions.selected_text(1), None);
    assert_eq!(sessions.selected_text(7), None);
}

#[test]
fn operations_on_an_unknown_session_do_nothing() {
    let mut sessions = Sessions::default();
    sessions.feed(1, b"x");
    sessions.mark_reconnected(1);
    sessions.mark_attached(1, false);
    sessions.mark_disconnected(1);
    sessions.clear(1);
    sessions.select_all(1);
    assert!(sessions.get_mut(1).is_none());
    assert!(sessions.remove(1).is_none());
    assert!(sessions.window_title(1).is_none());
}

#[test]
fn a_session_can_be_acted_on_in_place() {
    let mut sessions = Sessions::default();
    sessions.insert(5, "a".into(), 0, StreamKind::Trace, view(), opts());
    let state = sessions.get_mut(5).unwrap();
    state.connected = true;
    state.feed(b"x");
    state.finish();
    assert_eq!(sessions.window_title(5).unwrap(), "[trace] a");
    assert_eq!(sessions.plain_text(5).unwrap(), "x");
}

#[test]
fn the_transcript_survives_losing_a_client_and_getting_it_back() {
    for kind in [StreamKind::Tokens, StreamKind::Trace] {
        let mut sessions = Sessions::default();
        sessions.insert(1, "demo".into(), 4242, kind, view(), opts());
        sessions.mark_attached(1, false);
        sessions.feed(1, b"first\nsecond\n");
        let before = sessions.plain_text(1).unwrap();
        sessions.mark_disconnected(1);
        sessions.mark_attached(1, true);
        sessions.feed(1, b"third\n");
        let after = sessions.plain_text(1).unwrap();
        assert!(before.starts_with("first\nsecond"), "{before:?}");
        assert!(after.starts_with("first\nsecond"), "{after:?}");
        assert!(after.contains("-- reconnected --"), "{after:?}");
        assert!(after.contains("third"), "{after:?}");
        assert_eq!(sessions.window_title(1).unwrap().contains("disconnected"), false);
    }
}

#[test]
fn a_token_session_draws_the_rule_on_a_line_of_its_own() {
    let mut sessions = Sessions::default();
    sessions.insert(1, "demo".into(), 4242, StreamKind::Tokens, view(), opts());
    sessions.feed(1, b"first\nunfinished");
    sessions.mark_reconnected(1);
    assert_eq!(
        sessions.plain_text(1).unwrap(),
        "first\nunfinished\n-- reconnected --"
    );
}

#[test]
fn the_bytes_of_a_session_may_be_cut_anywhere() {
    let tokens = "<think>so `x`</think>\nan **answer**: \u{6f22}\n```\nlet a = 1;\n```\nlas".as_bytes();
    let trace: &[u8] = b"{\"level\":\"info\",\"fields\":{\"a\":1}}\nno record\n{\"level\":\"warn\"}";
    for (kind, input) in [(StreamKind::Tokens, tokens), (StreamKind::Trace, trace)] {
        let mut sessions = Sessions::default();
        sessions.insert(1, "whole".into(), 1, kind, view(), opts());
        sessions.feed(1, input);
        let open = sessions.plain_text(1);
        sessions.get_mut(1).unwrap().finish();
        for cut in 0..=input.len() {
            sessions.insert(2, "cut".into(), 2, kind, view(), opts());
            sessions.feed(2, &input[..cut]);
            sessions.feed(2, &input[cut..]);
            assert_eq!(sessions.plain_text(2), open, "cut at {cut}");
            sessions.get_mut(2).unwrap().finish();
            assert_eq!(sessions.plain_text(2), sessions.plain_text(1), "cut at {cut}");
        }
    }
}
