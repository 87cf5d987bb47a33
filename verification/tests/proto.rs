//! The handshake.

use turbo_debug_console::proto::{is_hello, parse_handshake, 
    parse_hello, HelloError, StreamKind, NAME_MAX, PROTOCOL_VERSION,
};

#[test]
fn accepts_a_well_formed_tokens_hello() {
    assert_eq!(
        parse_hello("HELLO 1 tokens build-agent").unwrap(),
        (StreamKind::Tokens, "build-agent".to_string())
    );
}

#[test]
fn accepts_a_well_formed_trace_hello() {
    assert_eq!(
        parse_hello("HELLO 1 trace myapp").unwrap(),
        (StreamKind::Trace, "myapp".to_string())
    );
}

#[test]
fn trailing_cr_is_tolerated() {
    assert_eq!(
        parse_hello("HELLO 1 tokens x\r").unwrap(),
        (StreamKind::Tokens, "x".to_string())
    );
}

#[test]
fn a_non_hello_line_is_not_an_error_but_a_raw_stream() {
    assert!(matches!(
        parse_hello("hello there"),
        Err(HelloError::NotHello)
    ));
    assert!(matches!(
        parse_hello("{\"tok\":1}"),
        Err(HelloError::NotHello)
    ));
}

#[test]
fn hello_with_no_version_is_missing_version_not_assumed_v1() {
    assert!(matches!(
        parse_hello("HELLO build-agent"),
        Err(HelloError::MissingVersion)
    ));
}

#[test]
fn non_numeric_version_is_bad_version_not_a_fallback() {
    assert!(matches!(
        parse_hello("HELLO v1 tokens build-agent"),
        Err(HelloError::BadVersion)
    ));
    assert!(matches!(
        parse_hello("HELLO -1 tokens build-agent"),
        Err(HelloError::BadVersion)
    ));
}

#[test]
fn unsupported_version_is_rejected_by_number() {
    assert_eq!(
        parse_hello("HELLO 2 tokens build-agent"),
        Err(HelloError::UnsupportedVersion(2))
    );
    assert_eq!(
        HelloError::UnsupportedVersion(2).wire(),
        "ERR unsupported protocol version 2"
    );
}

/// A two-field `HELLO <version> <name>` is a distinct, honest
/// error — not silently defaulted to `tokens`, and not confused with a
/// bad-name rejection.
#[test]
fn the_old_two_field_form_is_missing_stream_kind() {
    assert_eq!(
        parse_hello("HELLO 1 build-agent"),
        Err(HelloError::MissingStreamKind)
    );
    assert_eq!(
        HelloError::MissingStreamKind.wire(),
        "ERR missing stream kind"
    );
}

#[test]
fn an_unknown_stream_kind_is_rejected_by_name() {
    assert_eq!(
        parse_hello("HELLO 1 bogus build-agent"),
        Err(HelloError::UnknownStreamKind("bogus".to_string()))
    );
    assert_eq!(
        HelloError::UnknownStreamKind("bogus".to_string()).wire(),
        "ERR unknown stream kind bogus"
    );
}

#[test]
fn empty_oversized_and_whitespace_names_are_rejected() {
    assert!(matches!(
        parse_hello("HELLO 1 tokens "),
        Err(HelloError::BadName)
    ));
    assert!(matches!(
        parse_hello("HELLO 1 tokens a b"),
        Err(HelloError::BadName)
    ));
    let long = "x".repeat(65);
    assert!(matches!(
        parse_hello(&format!("HELLO 1 tokens {long}")),
        Err(HelloError::BadName)
    ));
    assert!(parse_hello(&format!("HELLO 1 tokens {}", "x".repeat(64))).is_ok());
}

#[test]
fn non_printable_names_are_rejected() {
    assert!(matches!(
        parse_hello("HELLO 1 tokens na\u{7}me"),
        Err(HelloError::BadName)
    ));
    assert!(matches!(
        parse_hello("HELLO 1 tokens café"),
        Err(HelloError::BadName)
    ));
}

#[test]
fn every_refusal_has_its_wire_line() {
    for (line, wire) in [
        ("not a hello", "ERR not a handshake"),
        ("HELLO 1 tokens ", "ERR bad name"),
        ("HELLO 1", "ERR missing protocol version"),
        ("HELLO  tokens x", "ERR missing protocol version"),
        ("HELLO one tokens x", "ERR bad protocol version"),
        ("HELLO 4294967296 tokens x", "ERR bad protocol version"),
        ("HELLO 4294967295 tokens x", "ERR unsupported protocol version 4294967295"),
        ("HELLO 0 tokens x", "ERR unsupported protocol version 0"),
        ("HELLO 1 x", "ERR missing stream kind"),
        ("HELLO 1 Tokens x", "ERR unknown stream kind Tokens"),
        ("HELLO 1  x", "ERR unknown stream kind "),
    ] {
        assert_eq!(parse_hello(line).unwrap_err().wire(), wire, "{line}");
    }
}

#[test]
fn the_version_is_digits_alone() {
    assert_eq!(
        parse_hello("HELLO 0001 trace x").unwrap(),
        (StreamKind::Trace, "x".to_string())
    );
    assert_eq!(parse_hello("HELLO +1 trace x"), Err(HelloError::BadVersion));
    assert_eq!(parse_hello("HELLO + trace x"), Err(HelloError::BadVersion));
}

#[test]
fn a_handshake_reads_back_with_any_line_end() {
    for end in ["", "\n", "\r\n", "\r\r\n\n"] {
        assert_eq!(
            parse_hello(&format!("HELLO {PROTOCOL_VERSION} trace a~!z{end}")).unwrap(),
            (StreamKind::Trace, "a~!z".to_string())
        );
    }
    assert_eq!(parse_hello("\nHELLO 1 trace x"), Err(HelloError::NotHello));
    assert_eq!(parse_hello("HELLO"), Err(HelloError::NotHello));
}

#[test]
fn kinds_are_parsed_by_their_words() {
    assert_eq!(StreamKind::parse("tokens"), Ok(StreamKind::Tokens));
    assert_eq!(StreamKind::parse("trace"), Ok(StreamKind::Trace));
    assert_eq!(
        StreamKind::parse(""),
        Err(HelloError::UnknownStreamKind(String::new()))
    );
    assert_eq!(NAME_MAX, 64);
}

#[test]
fn the_bytes_of_a_line_say_what_its_text_says() {
    for line in [
        "HELLO 1 trace x\r\n",
        "HELLO 1 tokens caf\u{e9}",
        "HELLO 1 wide\u{6f22} x",
        "HELLO 1",
        "HELLO ",
        "HELLO \n",
        "HELLO",
        "HELL\u{d6} 1 tokens x",
        "",
        "plain",
    ] {
        assert_eq!(parse_handshake(line.as_bytes()), parse_hello(line), "{line:?}");
        assert_eq!(is_hello(line.as_bytes()), line.starts_with("HELLO "));
    }
    assert_eq!(parse_handshake(b"\xffHELLO 1 tokens x"), Err(HelloError::NotHello));
    assert_eq!(parse_handshake(b"HELLO \xff tokens x"), Err(HelloError::BadVersion));
    assert_eq!(
        parse_handshake(b"HELLO 1 \xff x"),
        Err(HelloError::UnknownStreamKind("\u{FFFD}".to_string()))
    );
}
