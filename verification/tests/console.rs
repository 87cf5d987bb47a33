//! The decisions of the main loop.

use turbo_debug_console::cmd;
use turbo_debug_console::console::{
    file_dialog_bounds, handle_cli_flags, render_options, session_view_bounds, status_line_bounds,
    status_text, tile_window_bounds, CliRequest, CommandAction, Console, ConsoleIntent, Due, Ticks,
    ViewId, CONTROL_PORT, MAX_EVENTS_PER_TICK, REAP_INTERVAL, SESSION_TTL, STATUS_INTERVAL,
};
use turbo_debug_console::proto::StreamKind;
use turbo_debug_console::registry::{ServerEvent, FIRST_CAPTURE_ID};
use turbo_debug_console::screen::Rect;
use turbo_debug_console::streamview::StreamView;

/// Window > Cleanup lights up from `Sessions::is_connected`, the same
/// state a window title reports as `[disconnected]`. A session is
/// disconnected from the moment it is created (the HELLO) until its
/// client dials the data port, so a freshly `Opened` session counts as
/// stale, `Attached` clears it, and `Disconnected` brings it back.
#[test]
fn cleanup_availability_follows_the_session_connect_state() {
    let mut console = Console::default();
    // `decide_server_event` leaves the creation of the session to the
    // caller, who makes a window for it; register the session directly.
    console.sessions.insert(
        1,
        "demo".into(),
        61278,
        StreamKind::Tokens,
        StreamView::new(Rect::new(0, 0, 20, 5)),
        render_options(),
    );
    assert!(
        !console.sessions.is_connected(1),
        "a session whose client has not attached yet is a cleanup candidate"
    );

    console.decide_server_event(ServerEvent::Attached {
        id: 1,
        reattached: false,
    });
    assert!(
        console.sessions.is_connected(1),
        "an attached session is not a cleanup candidate"
    );

    console.decide_server_event(ServerEvent::Disconnected { id: 1 });
    assert!(
        !console.sessions.is_connected(1),
        "a session whose client went away is a cleanup candidate again"
    );
}

#[test]
fn opened_decides_to_create_a_window() {
    let mut console = Console::default();
    let intent = console.decide_server_event(ServerEvent::Opened {
        id: 1,
        name: "demo".into(),
        port: 61278,
        kind: StreamKind::Tokens,
    });
    assert_eq!(
        intent,
        Some(ConsoleIntent::CreateWindow {
            id: 1,
            name: "demo".into(),
            port: 61278,
            kind: StreamKind::Tokens,
        })
    );
}

#[test]
fn opened_carries_the_trace_kind_through() {
    let mut console = Console::default();
    let intent = console.decide_server_event(ServerEvent::Opened {
        id: 1,
        name: "myapp".into(),
        port: 61279,
        kind: StreamKind::Trace,
    });
    assert_eq!(
        intent,
        Some(ConsoleIntent::CreateWindow {
            id: 1,
            name: "myapp".into(),
            port: 61279,
            kind: StreamKind::Trace,
        })
    );
}

#[test]
fn bytes_decides_nothing_but_still_feeds_the_session() {
    let mut console = Console::default();
    console.sessions.insert(
        1,
        "demo".into(),
        4242,
        StreamKind::Tokens,
        test_view(),
        render_options(),
    );
    let intent = console.decide_server_event(ServerEvent::Bytes {
        id: 1,
        data: b"hello\n".to_vec(),
    });
    assert_eq!(intent, None);
    assert!(console.sessions.plain_text(1).unwrap().contains("hello"));
}

#[test]
fn attached_reattach_decides_to_retitle_the_mapped_window() {
    let mut console = Console::default();
    console.sessions.insert(
        1,
        "demo".into(),
        4242,
        StreamKind::Tokens,
        test_view(),
        render_options(),
    );
    let view_id: ViewId = 7;
    console.session_windows.insert(1, view_id);
    console.window_ids.insert(view_id, 1);

    let intent = console.decide_server_event(ServerEvent::Attached {
        id: 1,
        reattached: true,
    });

    assert_eq!(
        intent,
        Some(ConsoleIntent::Retitle {
            view_id,
            title: "demo :4242".into(),
        })
    );
}

/// The ordinary first-attach path (no
/// prior handshake reconnect) must also mark the session connected and
/// retitle its window — not stay stuck reading `[disconnected]` for the
/// entire first connection.
#[test]
fn attached_first_attach_also_decides_to_retitle_the_mapped_window() {
    let mut console = Console::default();
    console.sessions.insert(
        1,
        "demo".into(),
        4242,
        StreamKind::Tokens,
        test_view(),
        render_options(),
    );
    let view_id: ViewId = 8;
    console.session_windows.insert(1, view_id);
    console.window_ids.insert(view_id, 1);

    let intent = console.decide_server_event(ServerEvent::Attached {
        id: 1,
        reattached: false,
    });

    assert_eq!(
        intent,
        Some(ConsoleIntent::Retitle {
            view_id,
            title: "demo :4242".into(),
        })
    );
}

/// `Server::reap`'s 30-minute idle TTL sends `Closed` once per session,
/// and the decision must produce a close-the-window intent — not just
/// drop the bookkeeping maps and leave the window on screen forever.
#[test]
fn closed_decides_to_close_the_mapped_window_and_forgets_it() {
    let mut console = Console::default();
    console.sessions.insert(
        1,
        "demo".into(),
        4242,
        StreamKind::Tokens,
        test_view(),
        render_options(),
    );
    let view_id: ViewId = 9;
    console.session_windows.insert(1, view_id);
    console.window_ids.insert(view_id, 1);

    let intent = console.decide_server_event(ServerEvent::Closed { id: 1 });

    assert_eq!(intent, Some(ConsoleIntent::CloseWindow { view_id }));
    assert!(!console.session_windows.contains_key(&1));
    assert!(!console.window_ids.contains_key(&view_id));
    assert!(console.sessions.plain_text(1).is_none());
}

#[test]
fn closed_with_no_mapped_window_decides_nothing() {
    let mut console = Console::default();
    console.sessions.insert(
        1,
        "demo".into(),
        4242,
        StreamKind::Tokens,
        test_view(),
        render_options(),
    );
    let intent = console.decide_server_event(ServerEvent::Closed { id: 1 });
    assert_eq!(intent, None);
}

fn test_view() -> StreamView {
    StreamView::new(Rect::new(0, 0, 80, 24))
}

#[test]
fn copy_is_available_only_with_a_nonempty_selection() {
    let mut console = Console::default();
    console.sessions.insert(
        1,
        "demo".into(),
        0,
        StreamKind::Tokens,
        test_view(),
        render_options(),
    );
    assert!(!console.can_copy(None), "no focused window");
    assert!(!console.can_copy(Some(1)), "nothing selected yet");

    console.sessions.feed(1, b"hello\n");
    console.sessions.select_all(1);
    assert!(
        console.can_copy(Some(1)),
        "select-all over content is copyable"
    );
}

/// A console with a trace session in window `view_id`.
fn with_window(id: u64, view_id: ViewId) -> Console {
    let mut console = Console::default();
    add_window(&mut console, id, view_id);
    console
}

fn add_window(console: &mut Console, id: u64, view_id: ViewId) {
    console.create_session(
        id,
        format!("s{id}"),
        4000,
        StreamKind::Trace,
        Rect::new(0, 0, 80, 24),
    );
    console.window_created(id, view_id);
}

fn feed(console: &mut Console, id: u64, text: &str) {
    let intent = console.decide_server_event(ServerEvent::Bytes {
        id,
        data: text.as_bytes().to_vec(),
    });
    assert_eq!(intent, None);
}

#[test]
fn a_new_window_says_that_nobody_is_attached_yet() {
    let mut console = Console::default();
    let title = console.create_session(
        1,
        "demo".into(),
        61278,
        StreamKind::Tokens,
        Rect::new(0, 0, 40, 20),
    );
    assert_eq!(title, "demo :61278 [disconnected]");
    assert_eq!(
        console.sessions.get_mut(1).unwrap().view.bounds(),
        Rect::new(0, 0, 38, 18)
    );
}

#[test]
fn events_for_a_session_without_a_window_retitle_nothing() {
    let mut console = Console::default();
    assert_eq!(
        console.decide_server_event(ServerEvent::Attached { id: 1, reattached: true }),
        None
    );
    assert_eq!(console.decide_server_event(ServerEvent::Disconnected { id: 1 }), None);
    console.session_windows.insert(1, 3);
    assert_eq!(console.decide_server_event(ServerEvent::Disconnected { id: 1 }), None);
}

#[test]
fn disconnected_decides_to_retitle_the_mapped_window() {
    let mut console = with_window(1, 7);
    console.decide_server_event(ServerEvent::Attached { id: 1, reattached: false });
    assert_eq!(
        console.decide_server_event(ServerEvent::Disconnected { id: 1 }),
        Some(ConsoleIntent::Retitle {
            view_id: 7,
            title: "[trace] s1 :4000 [disconnected]".into(),
        })
    );
}

#[test]
fn commands_act_on_the_window_on_top() {
    let mut console = with_window(1, 7);
    add_window(&mut console, 2, 8);
    feed(&mut console, 1, "one\ntwo\n");
    feed(&mut console, 2, "other\n");
    assert_eq!(
        console.handle_command(Some(7), cmd::CM_SAVE_AS),
        CommandAction::SaveAs("one\ntwo".into())
    );
    assert_eq!(console.handle_command(Some(7), cmd::CM_COPY), CommandAction::Done);
    assert_eq!(console.handle_command(Some(7), cmd::CM_SELECT_ALL), CommandAction::Done);
    assert_eq!(
        console.handle_command(Some(7), cmd::CM_COPY),
        CommandAction::Copy {
            text: "one\ntwo".into(),
            message: "Copied 2 lines to the clipboard.".into(),
        }
    );
    assert_eq!(console.handle_command(Some(8), cmd::CM_SELECT_ALL), CommandAction::Done);
    assert_eq!(
        console.handle_command(Some(8), cmd::CM_COPY),
        CommandAction::Copy {
            text: "other".into(),
            message: "Copied 1 line to the clipboard.".into(),
        }
    );
    assert_eq!(console.handle_command(Some(7), cmd::CM_CLEAR_WINDOW), CommandAction::Done);
    assert_eq!(console.sessions.plain_text(1).unwrap(), "");
    assert_eq!(console.sessions.plain_text(2).unwrap(), "other");
}

#[test]
fn commands_without_a_stream_window_on_top_do_nothing() {
    let mut console = with_window(1, 7);
    feed(&mut console, 1, "one\n");
    for top in [None, Some(9)] {
        for command in [
            cmd::CM_SAVE_AS,
            cmd::CM_SELECT_ALL,
            cmd::CM_COPY,
            cmd::CM_CLEAR_WINDOW,
            cmd::CM_NEXT,
        ] {
            assert_eq!(console.handle_command(top, command), CommandAction::Done);
        }
    }
    assert_eq!(console.sessions.plain_text(1).unwrap(), "one");
    assert_eq!(console.sessions.selected_text(1), None);
}

#[test]
fn window_commands_are_handed_back() {
    let mut console = Console::default();
    assert_eq!(console.handle_command(None, cmd::CM_OPEN_CAPTURE), CommandAction::OpenCapture);
    assert_eq!(console.handle_command(None, cmd::CM_TILE_WINDOWS), CommandAction::Tile);
    assert_eq!(console.handle_command(None, cmd::CM_CASCADE_WINDOWS), CommandAction::Cascade);
    assert_eq!(
        console.handle_command(None, cmd::CM_CLEANUP),
        CommandAction::CloseWindows(vec![])
    );
}

#[test]
fn cleanup_closes_the_windows_without_a_client() {
    let mut console = with_window(1, 7);
    add_window(&mut console, 2, 8);
    add_window(&mut console, 3, 9);
    console.window_ids.insert(10, 99);
    console.decide_server_event(ServerEvent::Attached { id: 2, reattached: false });
    assert!(console.has_stale_windows());
    let CommandAction::CloseWindows(mut stale) = console.handle_command(None, cmd::CM_CLEANUP)
    else {
        panic!("cleanup closes windows");
    };
    stale.sort_unstable();
    assert_eq!(stale, vec![7, 9, 10]);
}

#[test]
fn commands_are_enabled_when_they_have_something_to_act_on() {
    let mut console = Console::default();
    let off = console.sync_command_state(None, 1);
    assert_eq!(off.len(), 8);
    assert!(off.iter().all(|(_, on)| !on));

    add_window(&mut console, 1, 7);
    feed(&mut console, 1, "x\n");
    console.handle_command(Some(7), cmd::CM_SELECT_ALL);
    assert_eq!(
        console.sync_command_state(Some(7), 2),
        vec![
            (cmd::CM_COPY, true),
            (cmd::CM_NEXT, true),
            (cmd::CM_TILE_WINDOWS, true),
            (cmd::CM_CASCADE_WINDOWS, true),
            (cmd::CM_SAVE_AS, true),
            (cmd::CM_SELECT_ALL, true),
            (cmd::CM_CLEAR_WINDOW, true),
            (cmd::CM_CLEANUP, true),
        ]
    );
    console.decide_server_event(ServerEvent::Attached { id: 1, reattached: false });
    let state = console.sync_command_state(None, 1);
    assert!(state.iter().all(|(_, on)| !on));
}

#[test]
fn closed_windows_are_forgotten_with_their_sessions() {
    let mut console = with_window(1, 7);
    add_window(&mut console, 2, 8);
    let capture = console.open_capture("c".into(), b"x", Rect::new(0, 0, 10, 10));
    console.capture_window_created(capture, 9);
    let mut closed = console.forget_closed_windows(&vec![8]);
    closed.sort_unstable();
    assert_eq!(closed, vec![1, capture]);
    assert!(!console.window_ids.contains_key(&7));
    assert!(!console.window_ids.contains_key(&9));
    assert_eq!(console.window_ids.get(&8), Some(&2));
    assert!(!console.session_windows.contains_key(&1));
    assert_eq!(console.session_windows.get(&2), Some(&8));
    assert!(console.sessions.plain_text(1).is_none());
    assert!(console.sessions.plain_text(capture).is_none());
    assert!(console.sessions.plain_text(2).is_some());
    assert!(console.forget_closed_windows(&vec![8]).is_empty());
}

#[test]
fn a_capture_is_played_into_a_session_of_its_own() {
    let mut console = Console::default();
    let first = console.open_capture("a.txt".into(), b"hello\ntail", Rect::new(0, 0, 40, 20));
    let second = console.open_capture("b.txt".into(), b"", Rect::new(0, 0, 40, 20));
    assert_eq!(first, FIRST_CAPTURE_ID);
    assert_eq!(second, FIRST_CAPTURE_ID + 1);
    let text = console.sessions.plain_text(first).unwrap();
    assert!(text.contains("hello") && text.contains("tail"), "{text:?}");
    assert!(console.sessions.is_connected(first));
    assert_eq!(console.sessions.window_title(first).unwrap(), "a.txt");
    assert!(console.session_windows.is_empty());
}

#[test]
fn bounds_are_worked_out_from_the_screen() {
    assert_eq!(
        tile_window_bounds(Rect::new(0, 1, 80, 24), 2, 1),
        Rect::new(0, 1, 78, 23)
    );
    assert_eq!(session_view_bounds(Rect::new(3, 4, 43, 24)), Rect::new(0, 0, 38, 18));
    assert_eq!(file_dialog_bounds(80, 25), Rect::new(9, 2, 71, 22));
    assert_eq!(file_dialog_bounds(40, 10), Rect::new(0, 0, 40, 10));
    assert_eq!(file_dialog_bounds(63, 21), Rect::new(0, 0, 62, 20));
    assert_eq!(status_line_bounds(80, 25), Rect::new(0, 24, 80, 25));
    assert_eq!(status_text(0), "0 conn");
    assert_eq!(status_text(120), "120 conn");
}

#[test]
fn the_first_flag_that_asks_for_something_decides() {
    let ask = |args: &[&str]| {
        handle_cli_flags(&args.iter().map(|a| a.to_string()).collect::<Vec<String>>())
    };
    assert_eq!(ask(&[]), CliRequest::Run);
    assert_eq!(ask(&["x", "--helpful"]), CliRequest::Run);
    assert_eq!(ask(&["-V"]), CliRequest::Version);
    assert_eq!(ask(&["x", "--version", "-h"]), CliRequest::Version);
    assert_eq!(ask(&["-h", "-V"]), CliRequest::Help);
    assert_eq!(ask(&["--help"]), CliRequest::Help);
}

#[test]
fn periodic_work_comes_due() {
    let mut ticks = Ticks::new(5);
    assert_eq!(ticks.tick(5), Due { reap: false, status: false });
    assert_eq!(ticks.tick(4 + STATUS_INTERVAL), Due { reap: false, status: false });
    assert_eq!(ticks.tick(5 + STATUS_INTERVAL), Due { reap: false, status: true });
    assert_eq!(ticks.tick(6 + STATUS_INTERVAL), Due { reap: false, status: false });
    assert_eq!(ticks.tick(5 + REAP_INTERVAL), Due { reap: false, status: true });
    assert_eq!(ticks.tick(6 + REAP_INTERVAL), Due { reap: true, status: false });
    assert_eq!(ticks.tick(0), Due { reap: false, status: false });
    assert_eq!(SESSION_TTL, 30 * 60 * 1_000_000_000);
    assert_eq!((CONTROL_PORT, MAX_EVENTS_PER_TICK), (7878, 64));
}
