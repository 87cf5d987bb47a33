//! The `HELLO` handshake.
//!
//! ```text
//! client -> control 7878 :  HELLO <version> <kind> <name>\n
//! server ->              :  PORT <n>\n              (or  ERR <reason>\n)
//! ```
//!
//! `<kind>` is `tokens` or `trace`.
//!
//! A first line that is not a `HELLO` is not an error: the connection is
//! treated as a raw anonymous stream of the `tokens` kind, so
//! `nc host 7878 < capture.txt` works with no ceremony.

use vstd::prelude::*;
use vstd::slice::slice_subrange;
use vstd::string::StringExecFns;

use crate::text::{
    chars_of, decimal_text, decode_lossy, first_index_of, same_chars, same_text, string_of,
};

verus! {

/// Maximum session-name length, in bytes.
pub const NAME_MAX: usize = 64;

/// The protocol version this console speaks. The single source of truth for
/// what a `HELLO` must claim to be accepted.
pub const PROTOCOL_VERSION: u32 = 1;

/// What kind of stream a session renders.
#[derive(Debug, Clone, Copy, PartialEq, Eq, Structural)]
pub enum StreamKind {
    /// A model token stream.
    Tokens,
    /// A stream of JSON-lines trace records.
    Trace,
}

/// Why a line was not a usable `HELLO`.
#[derive(Debug, Clone, PartialEq, Eq)]
pub enum HelloError {
    /// Not a handshake at all: treat the connection as a raw stream.
    NotHello,
    /// A handshake with an unusable name.
    BadName,
    /// A `HELLO` with no version field at all.
    MissingVersion,
    /// A version field that is not a bare non-negative integer.
    BadVersion,
    /// A well-formed version this console does not speak.
    UnsupportedVersion(u32),
    /// `HELLO <version> <name>`: there is no telling whether the missing
    /// field was meant to be a kind or a name.
    MissingStreamKind,
    /// A well-formed kind field that is neither `tokens` nor `trace`.
    UnknownStreamKind(String),
}

/// What a [`HelloError`] stands for.
pub ghost enum HelloFault {
    NotHello,
    BadName,
    MissingVersion,
    BadVersion,
    UnsupportedVersion(u32),
    MissingStreamKind,
    UnknownStreamKind(Seq<char>),
}

impl View for HelloError {
    type V = HelloFault;

    open spec fn view(&self) -> HelloFault {
        match *self {
            HelloError::NotHello => HelloFault::NotHello,
            HelloError::BadName => HelloFault::BadName,
            HelloError::MissingVersion => HelloFault::MissingVersion,
            HelloError::BadVersion => HelloFault::BadVersion,
            HelloError::UnsupportedVersion(v) => HelloFault::UnsupportedVersion(v),
            HelloError::MissingStreamKind => HelloFault::MissingStreamKind,
            HelloError::UnknownStreamKind(k) => HelloFault::UnknownStreamKind(k@),
        }
    }
}

/// The word that stands for a kind in a `HELLO`.
pub open spec fn kind_word(kind: StreamKind) -> Seq<char> {
    match kind {
        StreamKind::Tokens => "tokens"@,
        StreamKind::Trace => "trace"@,
    }
}

/// The kind a word stands for, if it stands for one.
pub open spec fn kind_of(word: Seq<char>) -> Option<StreamKind> {
    if word == "tokens"@ {
        Some(StreamKind::Tokens)
    } else if word == "trace"@ {
        Some(StreamKind::Trace)
    } else {
        None
    }
}

pub open spec fn is_line_end(c: char) -> bool {
    c == '\r' || c == '\n'
}

/// `s` without the carriage returns and line feeds it ends in.
pub open spec fn trim_line_end(s: Seq<char>) -> Seq<char>
    decreases s.len(),
{
    if s.len() > 0 && is_line_end(s.last()) {
        trim_line_end(s.drop_last())
    } else {
        s
    }
}

/// The number a version field claims: decimal digits and nothing else, that
/// fit a `u32`.
pub open spec fn version_number(s: Seq<char>) -> Option<u32> {
    if s.len() > 0 && crate::text::all_digits(s) && crate::text::digits_value(s) <= u32::MAX {
        Some(crate::text::digits_value(s) as u32)
    } else {
        None
    }
}

pub open spec fn is_printable(c: char) -> bool {
    '\x21' <= c <= '\x7e'
}

/// One to [`NAME_MAX`] printable non-space ASCII characters.
pub open spec fn usable_name(name: Seq<char>) -> bool {
    &&& 0 < name.len() <= NAME_MAX
    &&& forall|i: int| 0 <= i < name.len() ==> is_printable(#[trigger] name[i])
}

/// What a handshake line says: the stream kind and the session name, or what
/// is wrong with it.
pub open spec fn hello(line: Seq<char>) -> Result<(StreamKind, Seq<char>), HelloFault> {
    let line = trim_line_end(line);
    if !"HELLO "@.is_prefix_of(line) {
        Err(HelloFault::NotHello)
    } else {
        hello_fields(line.skip("HELLO "@.len() as int))
    }
}

/// What follows the `HELLO `: `<version> <kind> <name>`.
pub open spec fn hello_fields(fields: Seq<char>) -> Result<(StreamKind, Seq<char>), HelloFault> {
    match crate::text::split_once(fields, ' ') {
        None => Err(HelloFault::MissingVersion),
        Some((version, rest)) => if version.len() == 0 {
            Err(HelloFault::MissingVersion)
        } else {
            match version_number(version) {
                None => Err(HelloFault::BadVersion),
                Some(v) => if v != PROTOCOL_VERSION {
                    Err(HelloFault::UnsupportedVersion(v))
                } else {
                    hello_stream(rest)
                },
            }
        },
    }
}

/// The bytes of `HELLO `.
pub open spec fn hello_prefix() -> Seq<u8> {
    seq![0x48u8, 0x45, 0x4c, 0x4c, 0x4f, 0x20]
}

/// A first line that is a handshake, if not a usable one.
pub open spec fn is_handshake(line: Seq<u8>) -> bool {
    hello_prefix().is_prefix_of(line)
}

/// The text of the fields of a handshake.
pub open spec fn fields_text(bytes: Seq<u8>) -> Seq<char> {
    if vstd::utf8::valid_utf8(bytes) {
        vstd::utf8::decode_utf8(bytes)
    } else {
        crate::text::utf8_lossy(bytes)
    }
}

/// What the bytes of a first line say.
pub open spec fn handshake(line: Seq<u8>) -> Result<(StreamKind, Seq<char>), HelloFault> {
    if !is_handshake(line) {
        Err(HelloFault::NotHello)
    } else {
        hello_fields(trim_line_end(fields_text(line.skip(6))))
    }
}

/// What follows the version: `<kind> <name>`.
pub open spec fn hello_stream(rest: Seq<char>) -> Result<(StreamKind, Seq<char>), HelloFault> {
    match crate::text::split_once(rest, ' ') {
        None => Err(HelloFault::MissingStreamKind),
        Some((word, name)) => match kind_of(word) {
            None => Err(HelloFault::UnknownStreamKind(word)),
            Some(kind) => if usable_name(name) {
                Ok((kind, name))
            } else {
                Err(HelloFault::BadName)
            },
        },
    }
}

/// What a parsed handshake says.
pub open spec fn hello_view(r: Result<(StreamKind, String), HelloError>) -> Result<
    (StreamKind, Seq<char>),
    HelloFault,
> {
    match r {
        Ok((kind, name)) => Ok((kind, name@)),
        Err(e) => Err(e@),
    }
}

/// The line that answers a refused handshake, without its newline.
pub open spec fn wire_text(fault: HelloFault) -> Seq<char> {
    match fault {
        HelloFault::NotHello => "ERR not a handshake"@,
        HelloFault::BadName => "ERR bad name"@,
        HelloFault::MissingVersion => "ERR missing protocol version"@,
        HelloFault::BadVersion => "ERR bad protocol version"@,
        HelloFault::UnsupportedVersion(v) => "ERR unsupported protocol version "@
            + crate::text::decimal(v as nat),
        HelloFault::MissingStreamKind => "ERR missing stream kind"@,
        HelloFault::UnknownStreamKind(k) => "ERR unknown stream kind "@ + k,
    }
}

impl StreamKind {
    /// Parses the `<kind>` field of a `HELLO`.
    ///
    /// # Errors
    /// [`HelloError::UnknownStreamKind`] for anything but `tokens` or `trace`.
    pub fn parse(s: &str) -> (r: Result<StreamKind, HelloError>)
        ensures
            match r {
                Ok(kind) => kind_of(s@) == Some(kind),
                Err(e) => kind_of(s@) is None && e@ == HelloFault::UnknownStreamKind(s@),
            },
    {
        proof {
            reveal_strlit("tokens");
            reveal_strlit("trace");
        }
        if same_text(s, "tokens") {
            Ok(StreamKind::Tokens)
        } else if same_text(s, "trace") {
            Ok(StreamKind::Trace)
        } else {
            Err(HelloError::UnknownStreamKind(String::from_str(s)))
        }
    }
}

impl HelloError {
    /// The line to send back, without its newline.
    #[must_use]
    pub fn wire(&self) -> (r: String)
        ensures
            r@ == wire_text(self@),
    {
        match self {
            HelloError::NotHello => String::from_str("ERR not a handshake"),
            HelloError::BadName => String::from_str("ERR bad name"),
            HelloError::MissingVersion => String::from_str("ERR missing protocol version"),
            HelloError::BadVersion => String::from_str("ERR bad protocol version"),
            HelloError::UnsupportedVersion(v) => {
                let mut s: String = String::from_str("ERR unsupported protocol version ");
                s.append(decimal_text(*v as u64).as_str());
                s
            },
            HelloError::MissingStreamKind => String::from_str("ERR missing stream kind"),
            HelloError::UnknownStreamKind(k) => {
                let mut s: String = String::from_str("ERR unknown stream kind ");
                s.append(k.as_str());
                s
            },
        }
    }
}

/// How many characters are left of `chars` once its line end is trimmed.
fn trimmed_len(chars: &[char]) -> (n: usize)
    ensures
        n <= chars@.len(),
        chars@.take(n as int) == trim_line_end(chars@),
{
    let mut n: usize = chars.len();
    assert(chars@.take(n as int) =~= chars@);
    while n > 0 && (chars[n - 1] == '\r' || chars[n - 1] == '\n')
        invariant
            n <= chars@.len(),
            trim_line_end(chars@.take(n as int)) == trim_line_end(chars@),
        decreases n,
    {
        assert(chars@.take(n as int).drop_last() =~= chars@.take(n - 1));
        n -= 1;
    }
    n
}

/// Reads a version field.
fn parse_version(s: &[char]) -> (r: Option<u32>)
    ensures
        r == version_number(s@),
{
    if s.len() == 0 {
        return None;
    }
    let mut value: u64 = 0;
    let mut over: bool = false;
    let mut i: usize = 0;
    assert(s@.take(0) =~= Seq::<char>::empty());
    while i < s.len()
        invariant
            i <= s@.len(),
            crate::text::all_digits(s@.take(i as int)),
            over == (crate::text::digits_value(s@.take(i as int)) > u32::MAX),
            !over ==> value == crate::text::digits_value(s@.take(i as int)),
        decreases s@.len() - i,
    {
        let c: char = s[i];
        let ghost next = s@.take(i + 1);
        assert(next =~= s@.take(i as int).push(c));
        assert(next.drop_last() =~= s@.take(i as int));
        if !('0' <= c && c <= '9') {
            assert(s@[i as int] == c);
            assert(!crate::text::all_digits(s@));
            return None;
        }
        if !over {
            value = value * 10 + ((c as u64) - 48);
            if value > 4294967295 {
                over = true;
            }
        }
        assert(crate::text::all_digits(next));
        i += 1;
    }
    assert(s@.take(i as int) =~= s@);
    if over {
        None
    } else {
        Some(value as u32)
    }
}

/// Whether a name is usable for a session.
fn name_is_usable(name: &[char]) -> (r: bool)
    ensures
        r == usable_name(name@),
{
    if name.len() == 0 || name.len() > NAME_MAX {
        return false;
    }
    let mut i: usize = 0;
    while i < name.len()
        invariant
            i <= name@.len(),
            forall|j: int| 0 <= j < i ==> is_printable(#[trigger] name@[j]),
        decreases name@.len() - i,
    {
        if !('\x21' <= name[i] && name[i] <= '\x7e') {
            assert(!is_printable(name@[i as int]));
            return false;
        }
        i += 1;
    }
    true
}

/// Reads `<kind> <name>`, the part of a handshake after its version.
fn parse_stream(rest: &[char]) -> (r: Result<(StreamKind, String), HelloError>)
    ensures
        hello_view(r) == hello_stream(rest@),
{
    let space: usize = match first_index_of(rest, ' ') {
        Some(i) => i,
        None => {
            return Err(HelloError::MissingStreamKind);
        },
    };
    let end: usize = rest.len();
    let word = slice_subrange(rest, 0, space);
    let name = slice_subrange(rest, space + 1, end);
    assert(word@ =~= rest@.take(space as int));
    assert(name@ =~= rest@.skip(space + 1));
    let kind = match StreamKind::parse(string_of(word).as_str()) {
        Ok(kind) => kind,
        Err(e) => {
            return Err(e);
        },
    };
    if !name_is_usable(name) {
        return Err(HelloError::BadName);
    }
    Ok((kind, string_of(name)))
}

/// Parses one handshake line, returning the stream kind and session name.
///
/// # Errors
/// [`HelloError::NotHello`] when the line has no `HELLO ` prefix;
/// [`HelloError::MissingVersion`] when there is no version field at all;
/// [`HelloError::BadVersion`] when the version field is not a bare
/// non-negative integer; [`HelloError::UnsupportedVersion`] when the version is
/// well-formed but not [`PROTOCOL_VERSION`]; [`HelloError::MissingStreamKind`] when there
/// is no kind field; [`HelloError::UnknownStreamKind`] when the kind is
/// neither `tokens` nor `trace`; [`HelloError::BadName`] when the name is
/// empty, longer than [`NAME_MAX`], or contains anything but printable
/// non-space ASCII.
pub fn parse_hello(line: &str) -> (r: Result<(StreamKind, String), HelloError>)
    ensures
        hello_view(r) == hello(line@),
{
    let all = chars_of(line);
    let n: usize = trimmed_len(all.as_slice());
    let chars = slice_subrange(all.as_slice(), 0, n);
    assert(chars@ =~= trim_line_end(line@));
    let prefix = chars_of("HELLO ");
    let p: usize = prefix.len();
    proof {
        reveal_strlit("HELLO ");
    }
    if n < p || !same_chars(slice_subrange(chars, 0, p), prefix.as_slice()) {
        return Err(HelloError::NotHello);
    }
    let rest = slice_subrange(chars, p, n);
    assert(rest@ =~= chars@.skip(p as int));
    parse_fields(rest)
}

/// Whether the bytes of a first line are a handshake, if not a usable one.
pub fn is_hello(line: &[u8]) -> (r: bool)
    ensures
        r == is_handshake(line@),
{
    let r: bool = line.len() >= 6 && line[0] == 0x48 && line[1] == 0x45 && line[2] == 0x4c
        && line[3] == 0x4c && line[4] == 0x4f && line[5] == 0x20;
    proof {
        if line@.len() >= 6 {
            let start = line@.subrange(0, 6);
            assert(start[0] == line@[0] && start[1] == line@[1] && start[2] == line@[2]);
            assert(start[3] == line@[3] && start[4] == line@[4] && start[5] == line@[5]);
            if r {
                assert(start =~= hello_prefix());
            }
        }
    }
    r
}

/// Parses the bytes of a connection's first line. They need not be text: a
/// line that does not start with `HELLO ` is no handshake whatever it holds,
/// and in the fields of one that does, what is not UTF-8 is read as a
/// replacement character, which is not part of any usable field.
///
/// # Errors
/// Those of [`parse_hello`].
pub fn parse_handshake(line: &[u8]) -> (r: Result<(StreamKind, String), HelloError>)
    ensures
        hello_view(r) == handshake(line@),
{
    if !is_hello(line) {
        return Err(HelloError::NotHello);
    }
    let fields = slice_subrange(line, 6, line.len());
    assert(fields@ =~= line@.skip(6));
    let all = chars_of(decode_lossy(fields).as_str());
    let n: usize = trimmed_len(all.as_slice());
    let chars = slice_subrange(all.as_slice(), 0, n);
    assert(chars@ =~= trim_line_end(all@));
    parse_fields(chars)
}

/// Reads `<version> <kind> <name>`, the part of a handshake after the
/// `HELLO `.
fn parse_fields(rest: &[char]) -> (r: Result<(StreamKind, String), HelloError>)
    ensures
        hello_view(r) == hello_fields(rest@),
{
    let end: usize = rest.len();
    let space: usize = match first_index_of(rest, ' ') {
        Some(i) => i,
        None => {
            return Err(HelloError::MissingVersion);
        },
    };
    let version = slice_subrange(rest, 0, space);
    assert(version@ =~= rest@.take(space as int));
    if space == 0 {
        return Err(HelloError::MissingVersion);
    }
    let number: u32 = match parse_version(version) {
        Some(v) => v,
        None => {
            return Err(HelloError::BadVersion);
        },
    };
    if number != PROTOCOL_VERSION {
        return Err(HelloError::UnsupportedVersion(number));
    }
    let stream = slice_subrange(rest, space + 1, end);
    assert(stream@ =~= rest@.skip(space + 1));
    parse_stream(stream)
}

/// The handshake line for a kind and a name, without its newline.
pub open spec fn hello_line(kind: StreamKind, name: Seq<char>) -> Seq<char> {
    "HELLO 1 "@ + kind_word(kind).push(' ') + name
}

/// Every kind and usable name has a handshake that is accepted as exactly
/// that kind and that name, with or without carriage return and newline.
pub proof fn lemma_hello_round_trip(kind: StreamKind, name: Seq<char>)
    requires
        usable_name(name),
    ensures
        hello(hello_line(kind, name)) == Ok::<_, HelloFault>((kind, name)),
        hello(hello_line(kind, name).push('\n')) == Ok::<_, HelloFault>((kind, name)),
        hello(hello_line(kind, name).push('\r').push('\n')) == Ok::<_, HelloFault>((kind, name)),
{
    reveal_strlit("HELLO ");
    reveal_strlit("HELLO 1 ");
    reveal_strlit("tokens");
    reveal_strlit("trace");
    let line = hello_line(kind, name);
    let word = kind_word(kind);
    assert(line.last() == name.last());
    assert(is_printable(name[name.len() - 1]));
    lemma_line_end_ignored(line, '\n');
    lemma_line_end_ignored(line, '\r');
    lemma_line_end_ignored(line.push('\r'), '\n');
    assert(trim_line_end(line) == line);
    assert("HELLO "@.is_prefix_of(line));
    let rest = line.skip(6);
    let one = seq!['1'];
    assert(rest =~= one.push(' ') + (word.push(' ') + name));
    assert(!one.contains(' '));
    crate::text::lemma_split_once(one, ' ', word.push(' ') + name);
    assert(version_number(one) == Some(1u32)) by {
        assert(one.drop_last() =~= Seq::<char>::empty());
        assert(crate::text::digits_value(one.drop_last()) == 0);
        assert(crate::text::digits_value(one) == 1);
    }
    assert(!word.contains(' '));
    crate::text::lemma_split_once(word, ' ', name);
}

/// A carriage return or newline at the end of a handshake changes nothing.
pub proof fn lemma_line_end_ignored(line: Seq<char>, end: char)
    requires
        is_line_end(end),
    ensures
        hello(line.push(end)) == hello(line),
{
    assert(line.push(end).drop_last() =~= line);
}

proof fn lemma_trim_keeps_start(start: Seq<char>, rest: Seq<char>)
    requires
        start.len() > 0,
        !is_line_end(start.last()),
    ensures
        trim_line_end(start + rest) == start + trim_line_end(rest),
    decreases rest.len(),
{
    let line = start + rest;
    if rest.len() == 0 {
        assert(line =~= start);
        assert(start + trim_line_end(rest) =~= start);
    } else {
        assert(line.last() == rest.last());
        assert(line.drop_last() =~= start + rest.drop_last());
        lemma_trim_keeps_start(start, rest.drop_last());
    }
}

/// A first line that is text says as bytes what it says as text.
pub proof fn lemma_text_says_the_same(line: Seq<char>)
    ensures
        handshake(vstd::utf8::encode_utf8(line)) == hello(line),
{
    reveal_strlit("HELLO ");
    let word = "HELLO "@;
    let bytes = vstd::utf8::encode_utf8(line);
    assert(crate::text::ascii_chars(hello_prefix()) =~= word);
    crate::text::lemma_ascii_prefix(line, hello_prefix());
    if is_handshake(bytes) {
        let rest = line.skip(6);
        assert(line =~= word + rest);
        lemma_trim_keeps_start(word, rest);
        vstd::utf8::encode_utf8_valid_utf8(rest);
        vstd::utf8::encode_utf8_decode_utf8(rest);
        let trimmed = trim_line_end(line);
        assert(trimmed.subrange(0, 6) =~= word);
        assert(trimmed.skip(6) =~= trim_line_end(rest));
    } else if word.is_prefix_of(trim_line_end(line)) {
        lemma_trim_is_a_start(line);
        let trimmed = trim_line_end(line);
        assert(word =~= line.subrange(0, 6)) by {
            assert forall|i: int| 0 <= i < 6 implies word[i] == line[i] by {
                assert(word[i] == trimmed.subrange(0, 6)[i]);
                assert(trimmed[i] == line.subrange(0, trimmed.len() as int)[i]);
            }
        }
    }
}

proof fn lemma_trim_is_a_start(line: Seq<char>)
    ensures
        trim_line_end(line).is_prefix_of(line),
    decreases line.len(),
{
    if line.len() > 0 && is_line_end(line.last()) {
        lemma_trim_is_a_start(line.drop_last());
        let n = trim_line_end(line).len() as int;
        assert(line.subrange(0, n) =~= line.drop_last().subrange(0, n));
    } else {
        assert(line.subrange(0, line.len() as int) =~= line);
    }
}

/// Nothing but a whole handshake is accepted: its version field claims the
/// protocol version, its kind field is the kind's word, and its name field is
/// a usable name.
pub proof fn lemma_accepted_hello_is_whole(line: Seq<char>) -> (version: Seq<char>)
    requires
        hello(line) is Ok,
    ensures
        version_number(version) == Some(PROTOCOL_VERSION),
        usable_name(hello(line)->Ok_0.1),
        trim_line_end(line) == "HELLO "@ + version.push(' ') + kind_word(
            hello(line)->Ok_0.0,
        ).push(' ') + hello(line)->Ok_0.1,
{
    let trimmed = trim_line_end(line);
    let fields = trimmed.skip("HELLO "@.len() as int);
    assert(trimmed =~= "HELLO "@ + fields);
    lemma_split_once_rejoins(fields, ' ');
    let (version, rest) = crate::text::split_once(fields, ' ')->Some_0;
    lemma_split_once_rejoins(rest, ' ');
    let (kind, name) = hello(line)->Ok_0;
    assert(rest == kind_word(kind).push(' ') + name);
    assert("HELLO "@ + (version.push(' ') + (kind_word(kind).push(' ') + name)) =~= "HELLO "@
        + version.push(' ') + kind_word(kind).push(' ') + name);
    version
}

proof fn lemma_split_once_rejoins(s: Seq<char>, sep: char)
    ensures
        match crate::text::split_once(s, sep) {
            Some((head, tail)) => s == head.push(sep) + tail,
            None => true,
        },
{
    s.index_of_first_ensures(sep);
    match s.index_of_first(sep) {
        Some(i) => {
            assert(s =~= s.take(i).push(sep) + s.skip(i + 1));
        },
        None => {},
    }
}

/// Every refusal is answered by a line that starts with `ERR `.
pub proof fn lemma_wire_starts_with_err(fault: HelloFault)
    ensures
        "ERR "@.is_prefix_of(wire_text(fault)),
{
    reveal_strlit("ERR ");
    reveal_strlit("ERR not a handshake");
    reveal_strlit("ERR bad name");
    reveal_strlit("ERR missing protocol version");
    reveal_strlit("ERR bad protocol version");
    reveal_strlit("ERR unsupported protocol version ");
    reveal_strlit("ERR missing stream kind");
    reveal_strlit("ERR unknown stream kind ");
}

/// Every name of one to 64 characters whose codes lie between those of `!` and
/// `~` is accepted as it is, for both kinds, whatever line end follows it.
pub proof fn lemma_every_printable_name_is_accepted(name: Seq<char>)
    requires
        1 <= name.len() <= 64,
        forall|i: int| 0 <= i < name.len() ==> 0x21 <= (#[trigger] name[i]) as int <= 0x7e,
    ensures
        hello("HELLO 1 tokens "@ + name) == Ok::<_, HelloFault>((StreamKind::Tokens, name)),
        hello("HELLO 1 trace "@ + name) == Ok::<_, HelloFault>((StreamKind::Trace, name)),
        hello(("HELLO 1 tokens "@ + name).push('\n')) == Ok::<_, HelloFault>(
            (StreamKind::Tokens, name),
        ),
        hello(("HELLO 1 trace "@ + name).push('\n')) == Ok::<_, HelloFault>(
            (StreamKind::Trace, name),
        ),
        hello(("HELLO 1 tokens "@ + name).push('\r').push('\n')) == Ok::<_, HelloFault>(
            (StreamKind::Tokens, name),
        ),
        hello(("HELLO 1 trace "@ + name).push('\r').push('\n')) == Ok::<_, HelloFault>(
            (StreamKind::Trace, name),
        ),
        handshake(vstd::utf8::encode_utf8(("HELLO 1 tokens "@ + name).push('\n'))) == Ok::<
            _,
            HelloFault,
        >((StreamKind::Tokens, name)),
        handshake(vstd::utf8::encode_utf8(("HELLO 1 trace "@ + name).push('\n'))) == Ok::<
            _,
            HelloFault,
        >((StreamKind::Trace, name)),
{
    reveal_strlit("HELLO 1 ");
    reveal_strlit("HELLO 1 tokens ");
    reveal_strlit("HELLO 1 trace ");
    reveal_strlit("tokens");
    reveal_strlit("trace");
    assert forall|i: int| 0 <= i < name.len() implies is_printable(#[trigger] name[i]) by {
        assert(0x21 <= name[i] as int <= 0x7e);
    }
    lemma_hello_round_trip(StreamKind::Tokens, name);
    lemma_hello_round_trip(StreamKind::Trace, name);
    assert(hello_line(StreamKind::Tokens, name) =~= "HELLO 1 tokens "@ + name);
    assert(hello_line(StreamKind::Trace, name) =~= "HELLO 1 trace "@ + name);
    lemma_text_says_the_same(("HELLO 1 tokens "@ + name).push('\n'));
    lemma_text_says_the_same(("HELLO 1 trace "@ + name).push('\n'));
}

/// Whatever is accepted was asked for: the line is `HELLO`, the number one,
/// the word for the kind and a name of one to 64 characters between `!` and
/// `~`, with one blank between two of them and nothing but carriage returns
/// and newlines behind.
pub proof fn lemma_accepted_line_was_written_out(line: Seq<char>) -> (r: (Seq<char>, Seq<char>))
    requires
        hello(line) is Ok,
    ensures
        ({
            let (version, end) = r;
            let (kind, name) = hello(line)->Ok_0;
            let word = if kind == StreamKind::Tokens {
                " tokens "@
            } else {
                " trace "@
            };
            &&& line == "HELLO "@ + version + word + name + end
            &&& version.len() > 0
            &&& version.last() == '1'
            &&& forall|i: int| 0 <= i < version.len() - 1 ==> #[trigger] version[i] == '0'
            &&& forall|i: int| 0 <= i < end.len() ==> #[trigger] end[i] == '\r' || end[i] == '\n'
            &&& 1 <= name.len() <= 64
            &&& forall|i: int| 0 <= i < name.len() ==> 0x21 <= (#[trigger] name[i]) as int <= 0x7e
        }),
{
    reveal_strlit(" tokens ");
    reveal_strlit(" trace ");
    reveal_strlit("tokens");
    reveal_strlit("trace");
    let version = lemma_accepted_hello_is_whole(line);
    let (kind, name) = hello(line)->Ok_0;
    let end = line.skip(trim_line_end(line).len() as int);
    lemma_trimmed_end(line);
    lemma_number_one(version);
    let word = if kind == StreamKind::Tokens {
        " tokens "@
    } else {
        " trace "@
    };
    assert(word =~= seq![' '] + kind_word(kind).push(' '));
    assert("HELLO "@ + version.push(' ') + kind_word(kind).push(' ') + name + end =~= "HELLO "@
        + version + word + name + end);
    assert forall|i: int| 0 <= i < name.len() implies 0x21 <= (#[trigger] name[i]) as int <= 0x7e by {
        assert(is_printable(name[i]));
    }
    (version, end)
}

proof fn lemma_trimmed_end(line: Seq<char>)
    ensures
        ({
            let end = line.skip(trim_line_end(line).len() as int);
            &&& trim_line_end(line).len() <= line.len()
            &&& line == trim_line_end(line) + end
            &&& forall|i: int| 0 <= i < end.len() ==> #[trigger] end[i] == '\r' || end[i] == '\n'
        }),
    decreases line.len(),
{
    let end = line.skip(trim_line_end(line).len() as int);
    if line.len() > 0 && is_line_end(line.last()) {
        let init = line.drop_last();
        lemma_trimmed_end(init);
        let before = init.skip(trim_line_end(init).len() as int);
        assert(end =~= before.push(line.last()));
        assert(line =~= init.push(line.last()));
        assert(line =~= trim_line_end(line) + end) by {
            assert(trim_line_end(init) + before.push(line.last()) =~= (trim_line_end(init)
                + before).push(line.last()));
        }
        assert forall|i: int| 0 <= i < end.len() implies #[trigger] end[i] == '\r' || end[i]
            == '\n' by {
            if i < before.len() {
                assert(before[i] == end[i]);
            }
        }
    } else {
        assert(line =~= line + end);
    }
}

proof fn lemma_number_one(s: Seq<char>)
    requires
        crate::text::all_digits(s),
        crate::text::digits_value(s) == 1,
    ensures
        s.len() > 0,
        s.last() == '1',
        forall|i: int| 0 <= i < s.len() - 1 ==> #[trigger] s[i] == '0',
{
    let init = s.drop_last();
    assert(crate::text::is_digit(s[s.len() - 1]));
    assert forall|i: int| 0 <= i < init.len() implies crate::text::is_digit(#[trigger] init[i]) by {
        assert(init[i] == s[i]);
    }
    lemma_number_zero(init);
    assert forall|i: int| 0 <= i < s.len() - 1 implies #[trigger] s[i] == '0' by {
        assert(init[i] == s[i]);
    }
}

proof fn lemma_number_zero(s: Seq<char>)
    requires
        crate::text::all_digits(s),
        crate::text::digits_value(s) == 0,
    ensures
        forall|i: int| 0 <= i < s.len() ==> #[trigger] s[i] == '0',
    decreases s.len(),
{
    if s.len() > 0 {
        let init = s.drop_last();
        assert(crate::text::is_digit(s[s.len() - 1]));
        assert forall|i: int| 0 <= i < init.len() implies crate::text::is_digit(
            #[trigger] init[i],
        ) by {
            assert(init[i] == s[i]);
        }
        lemma_number_zero(init);
        assert forall|i: int| 0 <= i < s.len() implies #[trigger] s[i] == '0' by {
            if i < s.len() - 1 {
                assert(init[i] == s[i]);
            }
        }
    }
}

proof fn lemma_untrimmed(start: Seq<char>, rest: Seq<char>)
    requires
        start.len() > 0,
        !is_line_end(start.last()),
        rest.len() > 0 ==> rest.last() != '\r' && rest.last() != '\n',
    ensures
        trim_line_end(start + rest) == start + rest,
{
    if rest.len() > 0 {
        assert((start + rest).last() == rest.last());
    } else {
        assert(start + rest =~= start);
    }
}

/// A line that does not start with `HELLO ` is no handshake, and every other
/// line is one.
pub proof fn lemma_not_a_handshake(line: Seq<char>)
    ensures
        hello(line) == Err::<(StreamKind, Seq<char>), _>(HelloFault::NotHello) <==> !(line.len()
            >= 6 && line[0] == 'H' && line[1] == 'E' && line[2] == 'L' && line[3] == 'L' && line[4]
            == 'O' && line[5] == ' '),
{
    reveal_strlit("HELLO ");
    let word = "HELLO "@;
    lemma_trim_is_a_start(line);
    let trimmed = trim_line_end(line);
    if line.len() >= 6 && line[0] == 'H' && line[1] == 'E' && line[2] == 'L' && line[3] == 'L'
        && line[4] == 'O' && line[5] == ' ' {
        let rest = line.skip(6);
        assert(line =~= word + rest);
        lemma_trim_keeps_start(word, rest);
        assert(trimmed.subrange(0, 6) =~= word);
    } else if word.is_prefix_of(trimmed) {
        assert forall|i: int| 0 <= i < 6 implies word[i] == line[i] by {
            assert(word[i] == trimmed.subrange(0, 6)[i]);
            assert(trimmed[i] == line.subrange(0, trimmed.len() as int)[i]);
        }
    }
}

/// A handshake is refused for the first thing that is wrong with it. Without
/// a blank behind the first field, or with one in front of it, there is no
/// version; a version with anything but digits is a bad one, and so is a
/// number of more than 32 bits; any other number but one is not supported,
/// whatever follows.
pub proof fn lemma_wrong_version_is_refused(version: Seq<char>, rest: Seq<char>, n: nat)
    requires
        !version.contains(' '),
        rest.len() > 0 ==> rest.last() != '\r' && rest.last() != '\n',
    ensures
        version.len() > 0 && version.last() != '\r' && version.last() != '\n' || version.len() == 0
            ==> hello("HELLO "@ + version) == Err::<(StreamKind, Seq<char>), _>(
            HelloFault::MissingVersion,
        ),
        hello("HELLO  "@ + rest) == Err::<(StreamKind, Seq<char>), _>(HelloFault::MissingVersion),
        version.len() > 0 && (exists|i: int|
            0 <= i < version.len() && !('0' <= #[trigger] version[i] <= '9')) ==> hello(
            "HELLO "@ + version.push(' ') + rest,
        ) == Err::<(StreamKind, Seq<char>), _>(HelloFault::BadVersion),
        n != 1 ==> hello("HELLO "@ + crate::text::decimal(n).push(' ') + rest) == Err::<
            (StreamKind, Seq<char>),
            _,
        >(
            if n <= 0xffff_ffff {
                HelloFault::UnsupportedVersion(n as u32)
            } else {
                HelloFault::BadVersion
            },
        ),
{
    reveal_strlit("HELLO ");
    reveal_strlit("HELLO  ");
    let word = "HELLO "@;
    if version.len() == 0 || (version.last() != '\r' && version.last() != '\n') {
        lemma_untrimmed(word, version);
        assert((word + version).subrange(0, 6) =~= word);
        assert((word + version).skip(6) =~= version);
        version.index_of_first_ensures(' ');
    }
    let nothing = Seq::<char>::empty();
    assert("HELLO  "@ + rest =~= word + (nothing.push(' ') + rest));
    lemma_fields(nothing, rest);
    crate::text::lemma_split_once(nothing, ' ', rest);
    assert("HELLO "@ + version.push(' ') + rest =~= word + (version.push(' ') + rest));
    lemma_fields(version, rest);
    crate::text::lemma_split_once(version, ' ', rest);
    if exists|i: int| 0 <= i < version.len() && !('0' <= #[trigger] version[i] <= '9') {
        let i = choose|i: int| 0 <= i < version.len() && !('0' <= #[trigger] version[i] <= '9');
        assert(!crate::text::is_digit(version[i]));
    }
    let number = crate::text::decimal(n);
    crate::text::lemma_decimal_round_trip(n);
    assert(!number.contains(' ')) by {
        if number.contains(' ') {
            let i = choose|i: int| 0 <= i < number.len() && number[i] == ' ';
            assert(crate::text::is_digit(number[i]));
        }
    }
    assert("HELLO "@ + number.push(' ') + rest =~= word + (number.push(' ') + rest));
    lemma_fields(number, rest);
    crate::text::lemma_split_once(number, ' ', rest);
}

proof fn lemma_fields(version: Seq<char>, rest: Seq<char>)
    requires
        rest.len() > 0 ==> rest.last() != '\r' && rest.last() != '\n',
    ensures
        hello("HELLO "@ + (version.push(' ') + rest)) == hello_fields(version.push(' ') + rest),
{
    reveal_strlit("HELLO ");
    let word = "HELLO "@;
    let fields = version.push(' ') + rest;
    assert(fields.last() == if rest.len() > 0 {
        rest.last()
    } else {
        ' '
    });
    lemma_untrimmed(word, fields);
    assert((word + fields).subrange(0, 6) =~= word);
    assert((word + fields).skip(6) =~= fields);
}

/// Behind the version, a field that nothing follows is no kind, and a word
/// other than `tokens` and `trace` is an unknown one.
pub proof fn lemma_wrong_kind_is_refused(word: Seq<char>, name: Seq<char>)
    requires
        !word.contains(' '),
        word.len() > 0 ==> word.last() != '\r' && word.last() != '\n',
        name.len() > 0 ==> name.last() != '\r' && name.last() != '\n',
    ensures
        hello("HELLO 1 "@ + word) == Err::<(StreamKind, Seq<char>), _>(
            HelloFault::MissingStreamKind,
        ),
        word != "tokens"@ && word != "trace"@ ==> hello("HELLO 1 "@ + word.push(' ') + name)
            == Err::<(StreamKind, Seq<char>), _>(HelloFault::UnknownStreamKind(word)),
{
    let rest = word.push(' ') + name;
    lemma_written_out(word);
    lemma_version_one(word);
    word.index_of_first_ensures(' ');
    assert(rest.last() == if name.len() > 0 {
        name.last()
    } else {
        ' '
    });
    lemma_written_out(rest);
    assert("HELLO 1 "@ + word.push(' ') + name =~= "HELLO 1 "@ + rest);
    lemma_version_one(rest);
    crate::text::lemma_split_once(word, ' ', name);
}

proof fn lemma_written_out(rest: Seq<char>)
    ensures
        "HELLO 1 "@ + rest == "HELLO "@ + (seq!['1'].push(' ') + rest),
{
    reveal_strlit("HELLO ");
    reveal_strlit("HELLO 1 ");
    assert("HELLO 1 "@ + rest =~= "HELLO "@ + (seq!['1'].push(' ') + rest));
}

/// A name that is empty, that is longer than 64 characters or that holds a
/// character outside `!` to `~` is refused for both kinds.
pub proof fn lemma_wrong_name_is_refused(name: Seq<char>)
    requires
        name.len() > 0 ==> name.last() != '\r' && name.last() != '\n',
        name.len() == 0 || name.len() > 64 || exists|i: int|
            0 <= i < name.len() && !(0x21 <= (#[trigger] name[i]) as int <= 0x7e),
    ensures
        hello("HELLO 1 tokens "@ + name) == Err::<(StreamKind, Seq<char>), _>(HelloFault::BadName),
        hello("HELLO 1 trace "@ + name) == Err::<(StreamKind, Seq<char>), _>(HelloFault::BadName),
{
    if exists|i: int| 0 <= i < name.len() && !(0x21 <= (#[trigger] name[i]) as int <= 0x7e) {
        let i = choose|i: int|
            0 <= i < name.len() && !(0x21 <= (#[trigger] name[i]) as int <= 0x7e);
        assert(!is_printable(name[i]));
    }
    assert(!usable_name(name));
    lemma_bad_name(StreamKind::Tokens, name);
    lemma_bad_name(StreamKind::Trace, name);
    lemma_kind_in_front(name);
}

proof fn lemma_kind_in_front(name: Seq<char>)
    ensures
        "HELLO 1 tokens "@ + name == "HELLO 1 "@ + ("tokens"@.push(' ') + name),
        "HELLO 1 trace "@ + name == "HELLO 1 "@ + ("trace"@.push(' ') + name),
{
    reveal_strlit("HELLO 1 ");
    reveal_strlit("HELLO 1 tokens ");
    reveal_strlit("HELLO 1 trace ");
    reveal_strlit("tokens");
    reveal_strlit("trace");
    assert("HELLO 1 tokens "@ + name =~= "HELLO 1 "@ + ("tokens"@.push(' ') + name));
    assert("HELLO 1 trace "@ + name =~= "HELLO 1 "@ + ("trace"@.push(' ') + name));
}

proof fn lemma_bad_name(kind: StreamKind, name: Seq<char>)
    requires
        name.len() > 0 ==> name.last() != '\r' && name.last() != '\n',
        !usable_name(name),
    ensures
        hello("HELLO 1 "@ + (kind_word(kind).push(' ') + name)) == Err::<
            (StreamKind, Seq<char>),
            _,
        >(HelloFault::BadName),
{
    reveal_strlit("tokens");
    reveal_strlit("trace");
    let word = kind_word(kind);
    let rest = word.push(' ') + name;
    assert(rest.last() == if name.len() > 0 {
        name.last()
    } else {
        ' '
    });
    lemma_written_out(rest);
    lemma_version_one(rest);
    assert(!word.contains(' '));
    crate::text::lemma_split_once(word, ' ', name);
}

proof fn lemma_version_one(rest: Seq<char>)
    requires
        rest.len() > 0 ==> rest.last() != '\r' && rest.last() != '\n',
    ensures
        hello("HELLO "@ + (seq!['1'].push(' ') + rest)) == hello_stream(rest),
{
    let one = seq!['1'];
    lemma_fields(one, rest);
    assert(!one.contains(' '));
    crate::text::lemma_split_once(one, ' ', rest);
    assert(one.drop_last() =~= Seq::<char>::empty());
    assert(crate::text::digits_value(one.drop_last()) == 0);
    assert(crate::text::digits_value(one) == 1);
}

/// The two kinds have a word each, and no other word stands for a kind.
pub proof fn lemma_kinds_and_their_words(word: Seq<char>)
    ensures
        kind_of(word) == Some(StreamKind::Tokens) <==> word == "tokens"@,
        kind_of(word) == Some(StreamKind::Trace) <==> word == "trace"@,
{
    reveal_strlit("tokens");
    reveal_strlit("trace");
    assert("tokens"@.len() != "trace"@.len());
}

/// A refusal says what was wrong, with the version or the kind that was asked
/// for where that is what is wrong.
pub proof fn lemma_refusals_say_what_is_wrong(v: u32, k: Seq<char>)
    ensures
        wire_text(HelloFault::BadName) == "ERR bad name"@,
        wire_text(HelloFault::MissingVersion) == "ERR missing protocol version"@,
        wire_text(HelloFault::BadVersion) == "ERR bad protocol version"@,
        wire_text(HelloFault::UnsupportedVersion(v)) == "ERR unsupported protocol version "@
            + crate::text::decimal(v as nat),
        wire_text(HelloFault::MissingStreamKind) == "ERR missing stream kind"@,
        wire_text(HelloFault::UnknownStreamKind(k)) == "ERR unknown stream kind "@ + k,
{
}

/// Bytes are a handshake if and only if they start with those of `HELLO `,
/// text or not.
pub proof fn lemma_bytes_of_a_handshake(line: Seq<u8>)
    ensures
        handshake(line) == Err::<(StreamKind, Seq<char>), _>(HelloFault::NotHello) <==> !(line.len()
            >= 6 && line[0] == 0x48 && line[1] == 0x45 && line[2] == 0x4c && line[3] == 0x4c
            && line[4] == 0x4f && line[5] == 0x20),
        is_handshake(line) <==> line.len() >= 6 && line[0] == 0x48 && line[1] == 0x45 && line[2]
            == 0x4c && line[3] == 0x4c && line[4] == 0x4f && line[5] == 0x20,
{
    if line.len() >= 6 {
        let start = line.subrange(0, 6);
        assert(start[0] == line[0] && start[1] == line[1] && start[2] == line[2] && start[3]
            == line[3] && start[4] == line[4] && start[5] == line[5]);
        if line[0] == 0x48 && line[1] == 0x45 && line[2] == 0x4c && line[3] == 0x4c && line[4]
            == 0x4f && line[5] == 0x20 {
            assert(start =~= hello_prefix());
        }
    }
}

/// What a handshake came to is told as it is.
pub proof fn lemma_outcomes_are_told_as_they_are(kind: StreamKind, name: String, v: u32, k: String)
    ensures
        hello_view(Ok((kind, name))) == Ok::<_, HelloFault>((kind, name@)),
        hello_view(Err(HelloError::NotHello)) == Err::<(StreamKind, Seq<char>), _>(
            HelloFault::NotHello,
        ),
        hello_view(Err(HelloError::BadName)) == Err::<(StreamKind, Seq<char>), _>(
            HelloFault::BadName,
        ),
        hello_view(Err(HelloError::MissingVersion)) == Err::<(StreamKind, Seq<char>), _>(
            HelloFault::MissingVersion,
        ),
        hello_view(Err(HelloError::BadVersion)) == Err::<(StreamKind, Seq<char>), _>(
            HelloFault::BadVersion,
        ),
        hello_view(Err(HelloError::UnsupportedVersion(v))) == Err::<(StreamKind, Seq<char>), _>(
            HelloFault::UnsupportedVersion(v),
        ),
        hello_view(Err(HelloError::MissingStreamKind)) == Err::<(StreamKind, Seq<char>), _>(
            HelloFault::MissingStreamKind,
        ),
        hello_view(Err(HelloError::UnknownStreamKind(k))) == Err::<(StreamKind, Seq<char>), _>(
            HelloFault::UnknownStreamKind(k@),
        ),
{
}

} // verus!
