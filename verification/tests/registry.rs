//! The session registry.

use turbo_debug_console::proto::StreamKind;
use turbo_debug_console::registry::{
    is_worth_waiting, no_port_reply, AcceptReply, ControlReply, Server, ServerEvent, SessionId,
    FIRST_CAPTURE_ID, REDIAL_GRACE,
};

const SECOND: u64 = 1_000_000_000;

/// Runs a handshake, binding `port` where one is asked for.
fn hello(server: &mut Server, line: &str, port: u16, now: u64) -> String {
    match server.handle_control(line.as_bytes()) {
        ControlReply::Answer(line) => line,
        ControlReply::BindPort { kind, name } => server.open_session(kind, name, port, now).1,
        ControlReply::Stream { .. } => panic!("{line:?} is a handshake"),
    }
}

fn drain(server: &mut Server) -> Vec<ServerEvent> {
    let mut events = Vec::new();
    while let Some(ev) = server.next_event() {
        events.push(ev);
    }
    events
}

fn opened_id(server: &mut Server) -> SessionId {
    match server.next_event() {
        Some(ServerEvent::Opened { id, .. }) => id,
        other => panic!("expected an opened session, got {other:?}"),
    }
}

fn attach(server: &mut Server, id: SessionId) -> u64 {
    match server.accept(id, false) {
        AcceptReply::Attach { attachment } => attachment,
        other => panic!("expected to attach, got {other:?}"),
    }
}

#[test]
fn hello_allocates_a_data_port_and_opens_a_session() {
    let mut server = Server::bind(7878);
    assert_eq!(server.control_port(), 7878);
    assert_eq!(hello(&mut server, "HELLO 1 tokens alpha\n", 54312, 0), "PORT 54312");
    assert_eq!(
        drain(&mut server),
        vec![ServerEvent::Opened {
            id: 1,
            name: "alpha".to_string(),
            port: 54312,
            kind: StreamKind::Tokens
        }]
    );
    attach(&mut server, 1);
    server.receive(1, b"tokens".to_vec());
    assert_eq!(
        drain(&mut server),
        vec![
            ServerEvent::Attached { id: 1, reattached: false },
            ServerEvent::Bytes { id: 1, data: b"tokens".to_vec() },
        ]
    );
}

#[test]
fn the_same_name_returns_the_same_port_and_reconnects() {
    let mut server = Server::bind(7878);
    let first = hello(&mut server, "HELLO 1 tokens beta", 50001, 0);
    let id = opened_id(&mut server);
    let attachment = attach(&mut server, id);
    server.detach(id, attachment, SECOND);
    drain(&mut server);
    let second = hello(&mut server, "HELLO 1 tokens beta", 50002, 2 * SECOND);
    assert_eq!(first, second, "a known name must keep its port");
    assert!(server.events().is_empty(), "a handshake alone is no attachment");
    attach(&mut server, id);
    assert_eq!(
        drain(&mut server),
        vec![ServerEvent::Attached { id, reattached: true }]
    );
}

#[test]
fn the_ordinary_first_attach_reports_attached_not_reattached() {
    let mut server = Server::bind(7878);
    hello(&mut server, "HELLO 1 tokens first-timer", 50001, 0);
    let id = opened_id(&mut server);
    attach(&mut server, id);
    assert_eq!(
        drain(&mut server),
        vec![ServerEvent::Attached { id, reattached: false }]
    );
}

#[test]
fn a_dropped_data_socket_leaves_the_session_listening() {
    let mut server = Server::bind(7878);
    hello(&mut server, "HELLO 1 trace gamma", 50001, 0);
    let id = opened_id(&mut server);
    let attachment = attach(&mut server, id);
    assert_eq!(server.live_count(), 1);
    server.detach(id, attachment, SECOND);
    assert_eq!(server.live_count(), 0);
    attach(&mut server, id);
    server.receive(id, b"back".to_vec());
    assert_eq!(
        drain(&mut server),
        vec![
            ServerEvent::Attached { id, reattached: false },
            ServerEvent::Disconnected { id },
            ServerEvent::Attached { id, reattached: true },
            ServerEvent::Bytes { id, data: b"back".to_vec() },
        ]
    );
}

#[test]
fn a_second_live_writer_is_refused() {
    let mut server = Server::bind(7878);
    hello(&mut server, "HELLO 1 tokens delta", 50001, 0);
    let id = opened_id(&mut server);
    attach(&mut server, id);
    drain(&mut server);
    assert_eq!(
        server.accept(id, false),
        AcceptReply::Refuse("ERR already attached".to_string())
    );
    assert!(server.events().is_empty());
    assert_eq!(server.live_count(), 1);
}

#[test]
fn bad_names_are_refused_and_the_server_stays_up() {
    let mut server = Server::bind(7878);
    assert_eq!(hello(&mut server, "HELLO 1 tokens ", 50001, 0), "ERR bad name");
    let long = format!("HELLO 1 tokens {}", "x".repeat(65));
    assert_eq!(hello(&mut server, &long, 50001, 0), "ERR bad name");
    assert!(server.events().is_empty());
    assert!(hello(&mut server, "HELLO 1 tokens ok", 50001, 0).starts_with("PORT "));
}

#[test]
fn other_bad_handshakes_are_answered_and_change_nothing() {
    let mut server = Server::bind(7878);
    for (line, answer) in [
        ("HELLO build", "ERR missing protocol version"),
        ("HELLO x tokens build", "ERR bad protocol version"),
        ("HELLO 2 tokens build", "ERR unsupported protocol version 2"),
        ("HELLO 1 build", "ERR missing stream kind"),
        ("HELLO 1 video build", "ERR unknown stream kind video"),
    ] {
        assert_eq!(hello(&mut server, line, 50001, 0), answer);
        assert!(server.events().is_empty());
    }
    assert_eq!(no_port_reply(), "ERR no port");
}

#[test]
fn a_non_hello_first_line_becomes_an_anonymous_session() {
    let mut server = Server::bind(7878);
    let reply = server.handle_control(b"just some tokens\n");
    let ControlReply::Stream { id, attachment } = reply else {
        panic!("got {reply:?}");
    };
    assert_eq!(
        drain(&mut server),
        vec![
            ServerEvent::Opened {
                id,
                name: "anon-1".to_string(),
                port: 0,
                kind: StreamKind::Tokens
            },
            ServerEvent::Attached { id, reattached: false },
            ServerEvent::Bytes { id, data: b"just some tokens\n".to_vec() },
        ]
    );
    assert_eq!(server.live_count(), 1);
    server.detach(id, attachment, 0);
    assert_eq!(drain(&mut server), vec![ServerEvent::Disconnected { id }]);
    server.handle_control("caf\u{e9}".as_bytes());
    let events = drain(&mut server);
    assert!(matches!(&events[0], ServerEvent::Opened { name, .. } if name == "anon-2"));
    assert!(matches!(&events[2], ServerEvent::Bytes { data, .. } if data == "caf\u{e9}".as_bytes()));
}

#[test]
fn a_reconnect_clears_idle_since_so_the_session_never_reaps_while_reused() {
    let mut server = Server::bind(7878);
    let reply = hello(&mut server, "HELLO 1 tokens epsilon", 50001, 0);
    let id = opened_id(&mut server);
    let attachment = attach(&mut server, id);
    server.detach(id, attachment, SECOND);
    assert_eq!(hello(&mut server, "HELLO 1 tokens epsilon", 50002, 2 * SECOND), reply);
    drain(&mut server);
    assert_eq!(server.reap(u64::MAX, 0), Vec::<u16>::new());
    assert!(server.events().is_empty());
    attach(&mut server, id);
}

#[test]
fn reaping_sends_closed_and_releases_the_session_listener_port() {
    let mut server = Server::bind(7878);
    hello(&mut server, "HELLO 1 tokens zeta", 50001, 10);
    let id = opened_id(&mut server);
    assert_eq!(server.reap(10 + SECOND, SECOND), Vec::<u16>::new());
    assert_eq!(server.reap(11 + SECOND, SECOND), vec![50001]);
    assert_eq!(drain(&mut server), vec![ServerEvent::Closed { id }]);
    assert_eq!(server.accept(id, false), AcceptReply::Stop);
    assert_eq!(hello(&mut server, "HELLO 1 tokens zeta", 50002, 0), "PORT 50002");
}

#[test]
fn reaping_takes_only_what_is_over_the_limit() {
    let mut server = Server::bind(7878);
    hello(&mut server, "HELLO 1 tokens old", 50001, 0);
    hello(&mut server, "HELLO 1 tokens busy", 50002, 0);
    hello(&mut server, "HELLO 1 tokens young", 50003, 90);
    drain(&mut server);
    attach(&mut server, 2);
    drain(&mut server);
    assert_eq!(server.reap(100, 50), vec![50001]);
    assert_eq!(drain(&mut server), vec![ServerEvent::Closed { id: 1 }]);
    // A clock that was read before the session lost its client is no reason.
    assert_eq!(server.reap(80, 0), Vec::<u16>::new());
    assert_eq!(hello(&mut server, "HELLO 1 tokens young", 1, 0), "PORT 50003");
    assert_eq!(hello(&mut server, "HELLO 1 tokens busy", 1, 0), "PORT 50002");
}

#[test]
fn close_session_releases_the_port_even_though_the_session_is_still_live() {
    let mut server = Server::bind(7878);
    hello(&mut server, "HELLO 1 tokens closed-window", 50001, 0);
    let id = opened_id(&mut server);
    let attachment = attach(&mut server, id);
    drain(&mut server);
    assert_eq!(server.live_count(), 1);
    assert_eq!(server.close_session(id), Some(50001));
    assert_eq!(server.live_count(), 0, "the session must be gone, not merely idle");
    assert!(server.events().is_empty());
    assert_eq!(server.close_session(id), None);
    assert_eq!(server.accept(id, false), AcceptReply::Stop);
    assert_eq!(
        hello(&mut server, "HELLO 1 tokens closed-window", 50002, 0),
        "PORT 50002",
        "closing a session must not leave it reusable under its old identity"
    );
    let reopened = opened_id(&mut server);
    assert_ne!(reopened, id);
    server.detach(id, attachment, 0);
    assert_eq!(drain(&mut server), vec![ServerEvent::Disconnected { id }]);
}

#[test]
fn close_then_immediate_redial_ends_up_attached_with_one_writer_and_no_spurious_disconnect() {
    let mut server = Server::bind(7878);
    hello(&mut server, "HELLO 1 tokens race", 50001, 0);
    let id = opened_id(&mut server);
    let mut old = attach(&mut server, id);
    for i in 0..20 {
        drain(&mut server);
        // The old connection is gone, but its end has not been noticed yet.
        let AcceptReply::Attach { attachment } = server.accept(id, true) else {
            panic!("redial rejected on iteration {i}");
        };
        server.receive(id, b"marker".to_vec());
        server.detach(id, old, SECOND);
        assert_eq!(
            drain(&mut server),
            vec![
                ServerEvent::Disconnected { id },
                ServerEvent::Attached { id, reattached: true },
                ServerEvent::Bytes { id, data: b"marker".to_vec() },
            ]
        );
        assert_eq!(server.live_count(), 1);
        old = attachment;
    }
    server.detach(id, old, SECOND);
    assert_eq!(drain(&mut server), vec![ServerEvent::Disconnected { id }]);
    server.detach(id, old, SECOND);
    assert!(server.events().is_empty());
}

#[test]
fn an_anonymous_session_becomes_reapable_after_its_connection_ends() {
    let mut server = Server::bind(7878);
    let ControlReply::Stream { id, attachment } = server.handle_control(b"raw bytes\n") else {
        panic!("not a stream");
    };
    drain(&mut server);
    assert_eq!(server.reap(SECOND, 0), Vec::<u16>::new());
    server.detach(id, attachment, SECOND);
    // Nobody listens on port zero, so there is no port to release.
    assert_eq!(server.reap(SECOND + 1, 0), Vec::<u16>::new());
    assert_eq!(
        drain(&mut server),
        vec![ServerEvent::Disconnected { id }, ServerEvent::Closed { id }]
    );
    assert_eq!(server.close_session(id), None);
}

#[test]
fn an_anonymous_session_takes_the_next_name_that_is_free() {
    let mut server = Server::bind(7878);
    hello(&mut server, "HELLO 1 tokens anon-1", 50001, 0);
    hello(&mut server, "HELLO 1 tokens anon-2", 50002, 0);
    hello(&mut server, "HELLO 1 tokens anon-4", 50004, 0);
    let named = opened_id(&mut server);
    drain(&mut server);
    for name in ["anon-3", "anon-5", "anon-6"] {
        assert!(server.has_room_for(b"raw"));
        server.handle_control(b"raw");
        let events = drain(&mut server);
        assert!(matches!(&events[0], ServerEvent::Opened { name: n, port: 0, .. } if n == name));
    }
    attach(&mut server, named);
    assert_eq!(hello(&mut server, "HELLO 1 tokens anon-1", 1, 0), "PORT 50001");
    assert_eq!(hello(&mut server, "HELLO 1 tokens anon-2", 1, 0), "PORT 50002");
    assert_eq!(hello(&mut server, "HELLO 1 tokens anon-4", 1, 0), "PORT 50004");
}

#[test]
fn a_handshake_for_the_name_of_an_anonymous_session_gets_a_port() {
    let mut server = Server::bind(7878);
    let ControlReply::Stream { id, attachment } = server.handle_control(b"raw") else {
        panic!("not a stream");
    };
    drain(&mut server);
    assert!(!server.has_session("anon-1"));
    assert_eq!(hello(&mut server, "HELLO 1 trace anon-1", 50001, 0), "PORT 50001");
    assert!(server.has_session("anon-1"));
    let named = opened_id(&mut server);
    assert_ne!(named, id);
    assert_eq!(hello(&mut server, "HELLO 1 trace anon-1", 50002, 0), "PORT 50001");
    assert_eq!(server.live_count(), 1, "the anonymous stream goes on");
    server.detach(id, attachment, SECOND);
    assert_eq!(drain(&mut server), vec![ServerEvent::Disconnected { id }]);
    assert_eq!(server.close_session(id), None);
    assert_eq!(hello(&mut server, "HELLO 1 trace anon-1", 50002, 0), "PORT 50001");
}

#[test]
fn session_ids_stay_clear_of_capture_ids() {
    let mut server = Server::bind(7878);
    assert!(server.has_session_room() && server.has_attachment_room());
    assert!(server.has_room_for(b"raw") && server.has_room_for(b"HELLO x"));
    hello(&mut server, "HELLO 1 tokens a", 1, 0);
    hello(&mut server, "HELLO 1 tokens b", 2, 0);
    assert_eq!(opened_id(&mut server), 1);
    assert_eq!(opened_id(&mut server), 2);
    assert_eq!(FIRST_CAPTURE_ID, u64::MAX / 2);
}

#[test]
fn a_first_line_that_is_no_text_is_a_stream_too() {
    let mut server = Server::bind(7878);
    let line = b"\xff\xfe\x00binary\n";
    let ControlReply::Stream { id, .. } = server.handle_control(line) else {
        panic!("a line that is no handshake is a stream");
    };
    assert_eq!(
        drain(&mut server).pop(),
        Some(ServerEvent::Bytes { id, data: line.to_vec() })
    );
    assert_eq!(
        server.handle_control(b"HELLO 1 tokens a\xffb\n"),
        ControlReply::Answer("ERR bad name".to_string())
    );
    assert_eq!(drain(&mut server), vec![]);
}

#[test]
fn a_newcomer_waits_for_a_while_before_it_is_refused() {
    let refusal = AcceptReply::Refuse("ERR already attached".to_string());
    assert!(is_worth_waiting(&refusal, 0));
    assert!(is_worth_waiting(&refusal, REDIAL_GRACE - 1));
    assert!(!is_worth_waiting(&refusal, REDIAL_GRACE));
    assert!(!is_worth_waiting(&AcceptReply::Stop, 0));
    assert!(!is_worth_waiting(&AcceptReply::Attach { attachment: 1 }, 0));
}
