//! Renders JSON-lines trace records to styled cells.
//!
//! One input line (JSON or not) becomes one output line:
//!
//! ```text
//! 12:04:01  WARN  myapp::db  retry  attempt=3
//! └ dim ┘  └level┘ └ cyan ─┘ └msg┘  └ dim ┘
//! ```
//!
//! A line that is not a record is rendered verbatim in the default colours
//! rather than dropped: a producer will eventually emit a panic message or a
//! stray print, and losing it would be worse than showing it unstyled.

use vstd::prelude::*;
use vstd::slice::slice_subrange;
use vstd::string::StringExecFns;

use crate::screen::{push_styled, Attr, Cell, TvColor};
use crate::streamview::StreamView;
use crate::text::{chars_of, decode_lossy, same_text, string_of};

verus! {

/// The value of a structured field: a JSON string, or the JSON text of
/// anything else.
#[derive(Debug, Clone, PartialEq, Eq)]
pub enum FieldValue {
    Text(String),
    Json(String),
}

/// The value of a member of a record: a JSON string, an object with its
/// members in the order they were written, or something else.
#[derive(Debug, Clone, PartialEq, Eq)]
pub enum JsonValue {
    Text(String),
    Object(Vec<(String, FieldValue)>),
    Other,
}

/// The members of a record, in the order they were written.
pub type Record = Vec<(String, JsonValue)>;

pub ghost enum FieldView {
    Text(Seq<char>),
    Json(Seq<char>),
}

pub ghost enum JsonView {
    Text(Seq<char>),
    Object(Seq<(Seq<char>, FieldView)>),
    Other,
}

impl View for FieldValue {
    type V = FieldView;

    open spec fn view(&self) -> FieldView {
        match *self {
            FieldValue::Text(s) => FieldView::Text(s@),
            FieldValue::Json(s) => FieldView::Json(s@),
        }
    }
}

pub open spec fn fields_view(fields: Seq<(String, FieldValue)>) -> Seq<(Seq<char>, FieldView)> {
    fields.map_values(|m: (String, FieldValue)| (m.0@, m.1@))
}

impl View for JsonValue {
    type V = JsonView;

    open spec fn view(&self) -> JsonView {
        match *self {
            JsonValue::Text(s) => JsonView::Text(s@),
            JsonValue::Object(fields) => JsonView::Object(fields_view(fields@)),
            JsonValue::Other => JsonView::Other,
        }
    }
}

pub open spec fn record_view(record: Seq<(String, JsonValue)>) -> Seq<(Seq<char>, JsonView)> {
    record.map_values(|m: (String, JsonValue)| (m.0@, m.1@))
}

/// Text that cannot be a JSON object: it is empty, or its first character is
/// neither white space nor an opening brace.
pub open spec fn is_no_object(line: Seq<char>) -> bool {
    line.len() == 0 || (line[0] != '{' && line[0] != ' ' && line[0] != '\t' && line[0] != '\n'
        && line[0] != '\r')
}

/// What valid JSON text holds: an object with its members, or something else.
#[derive(Debug, Clone, PartialEq, Eq)]
pub enum Parsed {
    Object(Record),
    Other,
}

pub ghost enum ParsedView {
    Object(Seq<(Seq<char>, JsonView)>),
    Other,
}

impl View for Parsed {
    type V = ParsedView;

    open spec fn view(&self) -> ParsedView {
        match *self {
            Parsed::Object(record) => ParsedView::Object(record_view(record@)),
            Parsed::Other => ParsedView::Other,
        }
    }
}

/// What a line holds, as `serde_json` reads it; nothing when the line is not
/// valid JSON.
pub uninterp spec fn parsed(line: Seq<char>) -> Option<ParsedView>;

/// `serde_json::from_str` to a `Value`, and `Value::to_string` for the text of
/// the values shown as JSON: both are functions of the line alone, and one
/// name stands for what the two make of it. An object keeps its members in the
/// order they were written. Only text that starts with white space or an
/// opening brace can be an object.
#[verifier::external_body]
fn parse_json(line: &str) -> (r: Option<Parsed>)
    ensures
        match r {
            Some(value) => parsed(line@) == Some(value@),
            None => parsed(line@) is None,
        },
        is_no_object(line@) ==> !(r matches Some(value) && value@ is Object),
{
    let field = |v: serde_json::Value| match v {
        serde_json::Value::String(s) => FieldValue::Text(s),
        other => FieldValue::Json(other.to_string()),
    };
    let value = |v: serde_json::Value| match v {
        serde_json::Value::String(s) => JsonValue::Text(s),
        serde_json::Value::Object(m) => JsonValue::Object(m.into_iter().map(|(k, v)| (k, field(v))).collect()),
        _ => JsonValue::Other,
    };
    match serde_json::from_str(line) {
        Ok(serde_json::Value::Object(m)) => Some(Parsed::Object(m.into_iter().map(|(k, v)| (k, value(v))).collect())),
        Ok(_) => Some(Parsed::Other),
        _ => None,
    }
}

/// The members of the JSON object a line holds; none when the line is not
/// valid JSON or not an object.
pub open spec fn parsed_record(line: Seq<char>) -> Option<Seq<(Seq<char>, JsonView)>> {
    match parsed(line) {
        Some(ParsedView::Object(record)) => Some(record),
        _ => None,
    }
}

/// Reads the JSON object a line holds.
fn parse_record(line: &str) -> (r: Option<Record>)
    ensures
        match r {
            Some(record) => parsed_record(line@) == Some(record_view(record@)),
            None => parsed_record(line@) is None,
        },
        is_no_object(line@) ==> r is None,
{
    match parse_json(line) {
        Some(Parsed::Object(record)) => Some(record),
        _ => None,
    }
}

/// The value of the first member with a given name.
pub open spec fn lookup<V>(members: Seq<(Seq<char>, V)>, key: Seq<char>) -> Option<V>
    decreases members.len(),
{
    if members.len() == 0 {
        None
    } else if members[0].0 == key {
        Some(members[0].1)
    } else {
        lookup(members.skip(1), key)
    }
}

/// The value of a member that is a JSON string.
pub open spec fn text_member(record: Seq<(Seq<char>, JsonView)>, key: Seq<char>) -> Option<
    Seq<char>,
> {
    match lookup(record, key) {
        Some(JsonView::Text(s)) => Some(s),
        _ => None,
    }
}

pub open spec fn upper_char(c: char) -> char {
    if 'a' <= c <= 'z' {
        (c as int - 32) as char
    } else {
        c
    }
}

/// `s` with its ASCII letters in upper case.
pub open spec fn upper(s: Seq<char>) -> Seq<char> {
    s.map_values(|c: char| upper_char(c))
}

/// The colour a level renders in, whatever case it is written in.
pub open spec fn level_fg(level: Seq<char>) -> Option<TvColor> {
    if upper(level) == "ERROR"@ {
        Some(TvColor::LightRed)
    } else if upper(level) == "WARN"@ {
        Some(TvColor::Yellow)
    } else if upper(level) == "INFO"@ {
        Some(TvColor::White)
    } else if upper(level) == "DEBUG"@ {
        Some(TvColor::LightGray)
    } else if upper(level) == "TRACE"@ {
        Some(TvColor::DarkGray)
    } else {
        None
    }
}

/// `YYYY-MM-DDTHH:MM:SS`, and anything after it.
pub open spec fn is_timestamp(ts: Seq<char>) -> bool {
    &&& ts.len() >= 19
    &&& forall|i: int|
        0 <= i < 19 ==> (if i == 4 || i == 7 {
            #[trigger] ts[i] == '-'
        } else if i == 10 {
            ts[i] == 'T'
        } else if i == 13 || i == 16 {
            ts[i] == ':'
        } else {
            crate::text::is_digit(ts[i])
        })
}

/// A timestamp reduced to its time of day; anything else as it is.
pub open spec fn shown_time(ts: Seq<char>) -> Seq<char> {
    if is_timestamp(ts) {
        ts.subrange(11, 19)
    } else {
        ts
    }
}

/// A further segment of a line, two blanks after what stands before it.
pub open spec fn with_segment(out: Seq<Cell>, text: Seq<char>, fg: TvColor) -> Seq<Cell> {
    let gap = if out.len() > 0 {
        out + crate::screen::styled("  "@, crate::screen::default_attr())
    } else {
        out
    };
    gap + crate::screen::styled(text, Attr { fg, bg: TvColor::Black })
}

pub open spec fn with_optional_segment(
    out: Seq<Cell>,
    text: Option<Seq<char>>,
    fg: TvColor,
) -> Seq<Cell> {
    match text {
        Some(t) => with_segment(out, t, fg),
        None => out,
    }
}

/// A field as it is shown: `key=value`, a string value without its quotes.
pub open spec fn shown_field(field: (Seq<char>, FieldView)) -> Seq<char> {
    field.0.push('=') + match field.1 {
        FieldView::Text(s) => s,
        FieldView::Json(s) => s,
    }
}

/// The fields other than the message as they are shown, with a blank between
/// two of them; none when there is none.
pub open spec fn shown_extra(fields: Seq<(Seq<char>, FieldView)>) -> Option<Seq<char>>
    decreases fields.len(),
{
    if fields.len() == 0 {
        None
    } else {
        let before = shown_extra(fields.drop_last());
        if fields.last().0 == "message"@ {
            before
        } else {
            match before {
                None => Some(shown_field(fields.last())),
                Some(text) => Some(text.push(' ') + shown_field(fields.last())),
            }
        }
    }
}

/// The segments the structured fields of a record add.
pub open spec fn with_fields(out: Seq<Cell>, fields: Seq<(Seq<char>, FieldView)>) -> Seq<Cell> {
    let message = match lookup(fields, "message"@) {
        Some(FieldView::Text(s)) => Some(s),
        _ => None,
    };
    with_optional_segment(
        with_optional_segment(out, message, TvColor::LightGray),
        shown_extra(fields),
        TvColor::DarkGray,
    )
}

/// The line a record becomes; none without a level that is known.
pub open spec fn record_cells(record: Seq<(Seq<char>, JsonView)>) -> Option<Seq<Cell>> {
    match text_member(record, "level"@) {
        None => None,
        Some(level) => match level_fg(level) {
            None => None,
            Some(fg) => {
                let time = match text_member(record, "timestamp"@) {
                    Some(ts) => Some(shown_time(ts)),
                    None => None,
                };
                let out = with_optional_segment(Seq::empty(), time, TvColor::DarkGray);
                let out = with_segment(out, upper(level), fg);
                let out = with_optional_segment(
                    out,
                    text_member(record, "target"@),
                    TvColor::LightCyan,
                );
                match lookup(record, "fields"@) {
                    Some(JsonView::Object(fields)) => Some(with_fields(out, fields)),
                    _ => Some(out),
                }
            },
        },
    }
}

/// A line as it is, in the default colours.
pub open spec fn verbatim(line: Seq<char>) -> Seq<Cell> {
    crate::screen::styled(line, crate::screen::default_attr())
}

/// The cells for a line that may hold a record.
pub open spec fn shown_record(
    line: Seq<char>,
    record: Option<Seq<(Seq<char>, JsonView)>>,
) -> Seq<Cell> {
    match record {
        Some(r) => match record_cells(r) {
            Some(cells) => cells,
            None => verbatim(line),
        },
        None => verbatim(line),
    }
}

/// The cells one line of a trace stream becomes.
pub open spec fn shown_line(line: Seq<char>) -> Seq<Cell> {
    shown_record(line, parsed_record(line))
}

/// The first member of a record with a given name.
fn find_member<'a>(record: &'a Record, key: &str) -> (r: Option<&'a JsonValue>)
    ensures
        match r {
            Some(v) => lookup(record_view(record@), key@) == Some(v@),
            None => lookup(record_view(record@), key@) is None,
        },
{
    let ghost all = record_view(record@);
    let mut i: usize = 0;
    assert(all.skip(0) =~= all);
    while i < record.len()
        invariant
            i <= record@.len(),
            all == record_view(record@),
            lookup(all, key@) == lookup(all.skip(i as int), key@),
        decreases record@.len() - i,
    {
        let m = &record[i];
        assert(all.skip(i as int)[0] == (m.0@, m.1@));
        assert(all.skip(i as int).skip(1) =~= all.skip(i + 1));
        if same_text(m.0.as_str(), key) {
            return Some(&m.1);
        }
        i += 1;
    }
    None
}

/// The first structured field with a given name.
fn find_field<'a>(fields: &'a Vec<(String, FieldValue)>, key: &str) -> (r: Option<&'a FieldValue>)
    ensures
        match r {
            Some(v) => lookup(fields_view(fields@), key@) == Some(v@),
            None => lookup(fields_view(fields@), key@) is None,
        },
{
    let ghost all = fields_view(fields@);
    let mut i: usize = 0;
    assert(all.skip(0) =~= all);
    while i < fields.len()
        invariant
            i <= fields@.len(),
            all == fields_view(fields@),
            lookup(all, key@) == lookup(all.skip(i as int), key@),
        decreases fields@.len() - i,
    {
        let m = &fields[i];
        assert(all.skip(i as int)[0] == (m.0@, m.1@));
        assert(all.skip(i as int).skip(1) =~= all.skip(i + 1));
        if same_text(m.0.as_str(), key) {
            return Some(&m.1);
        }
        i += 1;
    }
    None
}

/// A member of a record that is a JSON string.
fn find_text<'a>(record: &'a Record, key: &str) -> (r: Option<&'a String>)
    ensures
        match r {
            Some(s) => text_member(record_view(record@), key@) == Some(s@),
            None => text_member(record_view(record@), key@) is None,
        },
{
    match find_member(record, key) {
        Some(JsonValue::Text(s)) => Some(s),
        _ => None,
    }
}

/// `s` with its ASCII letters in upper case.
fn to_upper(s: &str) -> (r: String)
    ensures
        r@ == upper(s@),
{
    let chars = chars_of(s);
    let mut out: String = String::new();
    let mut i: usize = 0;
    while i < chars.len()
        invariant
            i <= chars@.len(),
            chars@ == s@,
            out@ == upper(s@).take(i as int),
        decreases chars@.len() - i,
    {
        let c: char = chars[i];
        if 'a' <= c && c <= 'z' {
            let b: u8 = (c as u8) - 32;
            out.push(b as char);
        } else {
            out.push(c);
        }
        i += 1;
        assert(out@ =~= upper(s@).take(i as int));
    }
    assert(out@ =~= upper(s@));
    out
}

/// The colour a level renders in. Levels are written in upper case as a rule;
/// they are accepted in any.
pub fn level_color(level: &str) -> (r: Option<TvColor>)
    ensures
        r == level_fg(level@),
{
    let name = to_upper(level);
    if same_text(name.as_str(), "ERROR") {
        Some(TvColor::LightRed)
    } else if same_text(name.as_str(), "WARN") {
        Some(TvColor::Yellow)
    } else if same_text(name.as_str(), "INFO") {
        Some(TvColor::White)
    } else if same_text(name.as_str(), "DEBUG") {
        Some(TvColor::LightGray)
    } else if same_text(name.as_str(), "TRACE") {
        Some(TvColor::DarkGray)
    } else {
        None
    }
}

/// A timestamp reduced to its time of day: a burst of records comes seconds
/// apart, and a full date on every line is noise. None for anything that is
/// not shaped like one.
pub fn time_of_day(ts: &str) -> (r: Option<String>)
    ensures
        match r {
            Some(t) => is_timestamp(ts@) && t@ == ts@.subrange(11, 19),
            None => !is_timestamp(ts@),
        },
{
    let chars = chars_of(ts);
    if chars.len() < 19 {
        return None;
    }
    let mut i: usize = 0;
    while i < 19
        invariant
            i <= 19 <= chars@.len(),
            chars@ == ts@,
            forall|j: int|
                0 <= j < i ==> (if j == 4 || j == 7 {
                    #[trigger] ts@[j] == '-'
                } else if j == 10 {
                    ts@[j] == 'T'
                } else if j == 13 || j == 16 {
                    ts@[j] == ':'
                } else {
                    crate::text::is_digit(ts@[j])
                }),
        decreases 19 - i,
    {
        let c: char = chars[i];
        let fits: bool = if i == 4 || i == 7 {
            c == '-'
        } else if i == 10 {
            c == 'T'
        } else if i == 13 || i == 16 {
            c == ':'
        } else {
            '0' <= c && c <= '9'
        };
        if !fits {
            assert(ts@[i as int] == c);
            return None;
        }
        i += 1;
    }
    Some(string_of(slice_subrange(chars.as_slice(), 11, 19)))
}

/// Appends a segment, two blanks after what stands before it.
fn push_segment(out: &mut Vec<Cell>, text: &str, fg: TvColor)
    ensures
        final(out)@ == with_segment(old(out)@, text@, fg),
{
    if out.len() > 0 {
        push_styled(out, "  ", Attr::new(TvColor::LightGray, TvColor::Black));
    }
    push_styled(out, text, Attr::new(fg, TvColor::Black));
}

/// The value of a structured field as it is shown: a string reads as it is
/// (`user=alice`), anything else as its JSON text (`attempt=3`).
fn field_value(v: &FieldValue) -> (r: &String)
    ensures
        r@ == (match v@ {
            FieldView::Text(s) => s,
            FieldView::Json(s) => s,
        }),
{
    match v {
        FieldValue::Text(s) => s,
        FieldValue::Json(s) => s,
    }
}

/// The fields other than the message as they are shown.
fn extra_text(fields: &Vec<(String, FieldValue)>) -> (r: Option<String>)
    ensures
        match r {
            Some(t) => shown_extra(fields_view(fields@)) == Some(t@),
            None => shown_extra(fields_view(fields@)) is None,
        },
{
    let ghost all = fields_view(fields@);
    let mut out: String = String::new();
    let mut any: bool = false;
    let mut i: usize = 0;
    assert(all.take(0) =~= Seq::<(Seq<char>, FieldView)>::empty());
    while i < fields.len()
        invariant
            i <= fields@.len(),
            all == fields_view(fields@),
            shown_extra(all.take(i as int)) == (if any {
                Some(out@)
            } else {
                None
            }),
            !any ==> out@.len() == 0,
        decreases fields@.len() - i,
    {
        let m = &fields[i];
        assert(all.take(i + 1).drop_last() =~= all.take(i as int));
        assert(all.take(i + 1).last() == (m.0@, m.1@));
        if !same_text(m.0.as_str(), "message") {
            if any {
                out.push(' ');
            }
            let ghost gap = out@;
            out.append(m.0.as_str());
            out.push('=');
            out.append(field_value(&m.1).as_str());
            assert(out@ =~= gap + shown_field((m.0@, m.1@)));
            assert(!any ==> out@ =~= shown_field((m.0@, m.1@)));
            any = true;
        }
        i += 1;
    }
    assert(all.take(i as int) =~= all);
    if any {
        Some(out)
    } else {
        None
    }
}

/// Appends the segments the structured fields of a record add.
fn push_fields(out: &mut Vec<Cell>, fields: &Vec<(String, FieldValue)>)
    ensures
        final(out)@ == with_fields(old(out)@, fields_view(fields@)),
{
    match find_field(fields, "message") {
        Some(FieldValue::Text(message)) => {
            push_segment(out, message.as_str(), TvColor::LightGray);
        },
        _ => {},
    }
    match extra_text(fields) {
        Some(extra) => {
            push_segment(out, extra.as_str(), TvColor::DarkGray);
        },
        None => {},
    }
}

/// Renders a record: time, level, target, message and the other fields, as
/// far as it has them. None without a level that is known.
pub fn render_record(record: &Record) -> (r: Option<Vec<Cell>>)
    ensures
        match r {
            Some(cells) => record_cells(record_view(record@)) == Some(cells@),
            None => record_cells(record_view(record@)) is None,
        },
{
    let level = match find_text(record, "level") {
        Some(level) => level,
        None => {
            return None;
        },
    };
    let fg = match level_color(level.as_str()) {
        Some(fg) => fg,
        None => {
            return None;
        },
    };
    let mut out: Vec<Cell> = Vec::new();
    match find_text(record, "timestamp") {
        Some(ts) => {
            match time_of_day(ts.as_str()) {
                Some(time) => {
                    push_segment(&mut out, time.as_str(), TvColor::DarkGray);
                },
                None => {
                    push_segment(&mut out, ts.as_str(), TvColor::DarkGray);
                },
            }
        },
        None => {},
    }
    push_segment(&mut out, to_upper(level.as_str()).as_str(), fg);
    match find_text(record, "target") {
        Some(target) => {
            push_segment(&mut out, target.as_str(), TvColor::LightCyan);
        },
        None => {},
    }
    match find_member(record, "fields") {
        Some(JsonValue::Object(fields)) => {
            push_fields(&mut out, fields);
        },
        _ => {},
    }
    Some(out)
}

/// Renders a line given the record it holds, if it holds one.
pub fn render_parsed(line: &str, record: Option<Record>) -> (r: Vec<Cell>)
    ensures
        r@ == shown_record(
            line@,
            match record {
                Some(m) => Some(record_view(m@)),
                None => None,
            },
        ),
{
    if let Some(members) = &record {
        if let Some(cells) = render_record(members) {
            return cells;
        }
    }
    let mut out: Vec<Cell> = Vec::new();
    push_styled(&mut out, line, Attr::new(TvColor::LightGray, TvColor::Black));
    assert(out@ =~= verbatim(line@));
    out
}

/// Renders one line of a trace stream: a record, or -- if the line is not
/// valid JSON, or lacks a level that is known -- the line verbatim in the
/// default colours.
#[must_use]
pub fn render_line(line: &str) -> (r: Vec<Cell>)
    ensures
        r@ == shown_line(line@),
        is_no_object(line@) ==> r@ == verbatim(line@),
{
    render_parsed(line, parse_record(line))
}

/// A trace stream under way: the bytes of the unfinished line, and the view.
#[verifier::ext_equal]
pub ghost struct Tracing {
    pub carry: Seq<u8>,
    pub view: crate::streamview::Scrollback,
}

/// The cells the bytes of a line become.
pub open spec fn shown_bytes(bytes: Seq<u8>) -> Seq<Cell> {
    shown_line(crate::text::utf8_lossy(bytes))
}

/// The bytes of a line that can hold no record.
pub open spec fn is_plain_line(bytes: Seq<u8>) -> bool {
    vstd::utf8::valid_utf8(bytes) && is_no_object(vstd::utf8::decode_utf8(bytes))
}

/// The cells for the bytes of a line shown as it is.
pub open spec fn verbatim_bytes(bytes: Seq<u8>) -> Seq<Cell> {
    verbatim(vstd::utf8::decode_utf8(bytes))
}

impl Tracing {
    pub open spec fn after_byte(self, b: u8) -> Tracing {
        if b == 0x0a {
            Tracing { carry: Seq::empty(), view: self.view.pushed(shown_bytes(self.carry)) }
        } else {
            Tracing { carry: self.carry.push(b), ..self }
        }
    }

    /// Every line that `bytes` completes is in the view.
    pub open spec fn cut(self, bytes: Seq<u8>) -> Tracing
        decreases bytes.len(),
    {
        if bytes.len() == 0 {
            self
        } else {
            self.cut(bytes.drop_last()).after_byte(bytes.last())
        }
    }

    /// The unfinished line is in the view as far as it has arrived.
    pub open spec fn with_partial(self) -> Tracing {
        Tracing { view: self.view.with_partial(shown_bytes(self.carry)), ..self }
    }

    pub open spec fn fed(self, bytes: Seq<u8>) -> Tracing {
        self.cut(bytes).with_partial()
    }

    /// What bytes do whose lines hold no record: each line is shown as it is.
    pub open spec fn cut_verbatim(self, bytes: Seq<u8>) -> Tracing
        decreases bytes.len(),
    {
        if bytes.len() == 0 {
            self
        } else {
            let s = self.cut_verbatim(bytes.drop_last());
            if bytes.last() == 0x0a {
                Tracing { carry: Seq::empty(), view: s.view.pushed(verbatim_bytes(s.carry)) }
            } else {
                Tracing { carry: s.carry.push(bytes.last()), ..s }
            }
        }
    }

    /// No line that `bytes` completes can hold a record.
    pub open spec fn cuts_plain_lines(self, bytes: Seq<u8>) -> bool
        decreases bytes.len(),
    {
        bytes.len() == 0 || (self.cuts_plain_lines(bytes.drop_last()) && (bytes.last() == 0x0a
            ==> is_plain_line(self.cut_verbatim(bytes.drop_last()).carry)))
    }

    /// Where no line of `bytes` can hold a record, what comes after them shows
    /// each line as it is.
    pub open spec fn plain_lines_are_verbatim(self, bytes: Seq<u8>, after: Tracing) -> bool {
        let end = self.cut_verbatim(bytes);
        self.cuts_plain_lines(bytes) && is_plain_line(end.carry) ==> after == (Tracing {
            carry: end.carry,
            view: end.view.with_partial(verbatim_bytes(end.carry)),
        })
    }

    /// The stream is over: an unfinished line becomes a completed one.
    pub open spec fn finished(self) -> Tracing {
        let view = if self.carry.len() > 0 {
            self.view.pushed(shown_bytes(self.carry))
        } else {
            self.view
        };
        Tracing { carry: Seq::empty(), view: view.with_partial(Seq::empty()) }
    }
}

/// Cuts a trace stream into lines and renders each one into the view.
#[derive(Debug)]
pub struct TraceRenderer {
    /// Bytes of the unfinished line.
    carry: Vec<u8>,
}

impl View for TraceRenderer {
    type V = Seq<u8>;

    closed spec fn view(&self) -> Seq<u8> {
        self.carry@
    }
}

impl Default for TraceRenderer {
    fn default() -> (r: TraceRenderer)
        ensures
            r@ == Seq::<u8>::empty(),
    {
        TraceRenderer::new()
    }
}

impl TraceRenderer {
    #[must_use]
    pub fn new() -> (r: TraceRenderer)
        ensures
            r@ == Seq::<u8>::empty(),
    {
        TraceRenderer { carry: Vec::new() }
    }

    /// Pushes stream bytes, emitting a completed line to `view` for every
    /// newline found, and updating the partial line. Lines that cannot hold a
    /// record are shown as they are.
    pub fn feed(&mut self, bytes: &[u8], view: &mut StreamView)
        requires
            old(view).wf(),
        ensures
            final(view).wf(),
            (Tracing { carry: final(self)@, view: final(view)@ }) == (Tracing {
                carry: old(self)@,
                view: old(view)@,
            }).fed(bytes@),
            (Tracing { carry: old(self)@, view: old(view)@ }).plain_lines_are_verbatim(
                bytes@,
                (Tracing { carry: final(self)@, view: final(view)@ }),
            ),
    {
        let ghost start = Tracing { carry: self@, view: view@ };
        let mut i: usize = 0;
        assert(bytes@.take(0) =~= Seq::<u8>::empty());
        while i < bytes.len()
            invariant
                i <= bytes@.len(),
                view.wf(),
                (Tracing { carry: self@, view: view@ }) == start.cut(bytes@.take(i as int)),
                start.cuts_plain_lines(bytes@.take(i as int)) ==> (Tracing {
                    carry: self@,
                    view: view@,
                }) == start.cut_verbatim(bytes@.take(i as int)),
            decreases bytes@.len() - i,
        {
            let b: u8 = bytes[i];
            assert(bytes@.take(i + 1).drop_last() =~= bytes@.take(i as int));
            assert(bytes@.take(i + 1).last() == b);
            if b == 0x0a {
                let line = decode_lossy(self.carry.as_slice());
                let cells = render_line(line.as_str());
                view.push_line(cells.as_slice());
                self.carry.clear();
            } else {
                self.carry.push(b);
            }
            i += 1;
        }
        assert(bytes@.take(i as int) =~= bytes@);
        let line = decode_lossy(self.carry.as_slice());
        let cells = render_line(line.as_str());
        view.set_partial(cells.as_slice());
    }

    /// Ends the stream: flushes an unfinished line as a completed one.
    pub fn finish(&mut self, view: &mut StreamView)
        requires
            old(view).wf(),
        ensures
            final(view).wf(),
            (Tracing { carry: final(self)@, view: final(view)@ }) == (Tracing {
                carry: old(self)@,
                view: old(view)@,
            }).finished(),
    {
        if self.carry.len() > 0 {
            let line = decode_lossy(self.carry.as_slice());
            let cells = render_line(line.as_str());
            view.push_line(cells.as_slice());
            self.carry.clear();
        }
        assert(self@ =~= Seq::<u8>::empty());
        let nothing: Vec<Cell> = Vec::new();
        view.set_partial(nothing.as_slice());
        assert(nothing@ =~= Seq::<Cell>::empty());
    }
}

/// Bytes without a newline gather in the unfinished line.
proof fn lemma_no_newline_gathers(s: Tracing, bytes: Seq<u8>)
    requires
        !bytes.contains(0x0a),
    ensures
        s.cut_verbatim(bytes) == (Tracing { carry: s.carry + bytes, ..s }),
        s.cuts_plain_lines(bytes),
    decreases bytes.len(),
{
    if bytes.len() == 0 {
        assert(s.carry + bytes =~= s.carry);
    } else {
        assert(bytes.last() == bytes[bytes.len() - 1]);
        assert forall|i: int| 0 <= i < bytes.len() - 1 implies bytes.drop_last()[i] != 0x0a by {
            assert(bytes[i] != 0x0a);
        }
        lemma_no_newline_gathers(s, bytes.drop_last());
        assert(s.carry + bytes =~= (s.carry + bytes.drop_last()).push(bytes.last()));
    }
}

/// A line that can hold no record is shown as it is once its newline arrives.
pub proof fn lemma_plain_line_is_shown(s: Tracing, line: Seq<u8>)
    requires
        !line.contains(0x0a),
        is_plain_line(s.carry + line),
    ensures
        s.cuts_plain_lines(line.push(0x0a)),
        s.cut_verbatim(line.push(0x0a)) == (Tracing {
            carry: Seq::empty(),
            view: s.view.pushed(verbatim_bytes(s.carry + line)),
        }),
{
    lemma_no_newline_gathers(s, line);
    assert(line.push(0x0a).drop_last() =~= line);
}

/// Feeding one line after the other does what feeding both in one does.
pub proof fn lemma_verbatim_split(s: Tracing, a: Seq<u8>, b: Seq<u8>)
    ensures
        s.cut_verbatim(a + b) == s.cut_verbatim(a).cut_verbatim(b),
        s.cuts_plain_lines(a + b) <==> s.cuts_plain_lines(a) && s.cut_verbatim(
            a,
        ).cuts_plain_lines(b),
    decreases b.len(),
{
    if b.len() == 0 {
        assert(a + b =~= a);
    } else {
        lemma_verbatim_split(s, a, b.drop_last());
        assert((a + b).drop_last() =~= a + b.drop_last());
    }
}

proof fn lemma_cut_keeps_apart(s: Tracing, partial: Seq<Cell>, bytes: Seq<u8>)
    requires
        s.view.wf(),
    ensures
        s.cut(bytes).view.wf(),
        (Tracing { view: s.view.with_partial(partial), ..s }).cut(bytes) == (Tracing {
            view: s.cut(bytes).view.with_partial(partial),
            ..s.cut(bytes)
        }),
    decreases bytes.len(),
{
    if bytes.len() > 0 {
        lemma_cut_keeps_apart(s, partial, bytes.drop_last());
        let before = s.cut(bytes.drop_last());
        crate::streamview::lemma_partial_stands_apart(
            before.view,
            partial,
            shown_bytes(before.carry),
        );
    }
}

proof fn lemma_cut_split(s: Tracing, a: Seq<u8>, b: Seq<u8>)
    ensures
        s.cut(a + b) == s.cut(a).cut(b),
    decreases b.len(),
{
    if b.len() == 0 {
        assert(a + b =~= a);
    } else {
        lemma_cut_split(s, a, b.drop_last());
        assert((a + b).drop_last() =~= a + b.drop_last());
    }
}

/// How a trace stream is cut into pieces does not matter: feeding two pieces
/// one after the other leaves the renderer and the view as feeding them in
/// one does.
pub proof fn lemma_split_delivery(s: Tracing, a: Seq<u8>, b: Seq<u8>)
    requires
        s.view.wf(),
    ensures
        s.fed(a).fed(b) == s.fed(a + b),
{
    lemma_cut_split(s, a, b);
    let first = s.cut(a);
    let partial = shown_bytes(first.carry);
    lemma_cut_keeps_apart(s, partial, a);
    lemma_cut_keeps_apart(first, partial, b);
    let whole = first.cut(b);
    crate::streamview::lemma_partial_is_replaced(whole.view, partial, shown_bytes(whole.carry));
}

/// Ending a stream twice does what ending it once does.
pub proof fn lemma_finish_is_idempotent(s: Tracing)
    ensures
        s.finished().finished() == s.finished(),
{
    let view = if s.carry.len() > 0 {
        s.view.pushed(shown_bytes(s.carry))
    } else {
        s.view
    };
    crate::streamview::lemma_partial_is_replaced(view, Seq::empty(), Seq::empty());
}

/// A newline puts the line before it into the scrollback, whatever the line
/// holds: no line of a trace stream is dropped.
pub proof fn lemma_every_line_is_shown(s: Tracing)
    requires
        s.view.wf(),
    ensures
        s.after_byte(0x0a).view.lines.last() == crate::streamview::normalized(
            shown_bytes(s.carry),
        ),
        s.after_byte(0x0a).carry.len() == 0,
{
}

/// A record without a level that is known is shown as it was written.
pub proof fn lemma_unknown_level_is_verbatim(
    line: Seq<char>,
    record: Seq<(Seq<char>, JsonView)>,
)
    requires
        match text_member(record, "level"@) {
            Some(level) => level_fg(level) is None,
            None => true,
        },
    ensures
        shown_record(line, Some(record)) == verbatim(line),
{
}

/// A level has the same colour in any case.
pub proof fn lemma_level_case_does_not_matter(level: Seq<char>)
    ensures
        level_fg(upper(level)) == level_fg(level),
{
    assert(upper(upper(level)) =~= upper(level));
}

/// Cutting lines leaves the transcript intact.
proof fn lemma_cut_keeps_the_transcript(s: Tracing, bytes: Seq<u8>)
    requires
        s.view.wf(),
    ensures
        s.cut(bytes).view.wf(),
        s.cut(bytes).view.keeps(s.view),
    decreases bytes.len(),
{
    if bytes.len() == 0 {
        crate::streamview::lemma_new_lines_keep_the_transcript(s.view, Seq::empty());
    } else {
        lemma_cut_keeps_the_transcript(s, bytes.drop_last());
        let before = s.cut(bytes.drop_last());
        let line = shown_bytes(before.carry);
        crate::streamview::lemma_new_lines_keep_the_transcript(before.view, line);
        crate::streamview::lemma_partial_stands_apart(before.view, line, line);
        crate::streamview::lemma_keeping_is_transitive(
            s.view,
            before.view,
            before.view.pushed(line),
        );
    }
}

/// Neither feeding nor ending a trace stream loses a line of the transcript.
pub proof fn lemma_transcript_is_kept(s: Tracing, bytes: Seq<u8>)
    requires
        s.view.wf(),
    ensures
        s.fed(bytes).view.wf(),
        s.fed(bytes).view.keeps(s.view),
        s.finished().view.wf(),
        s.finished().view.keeps(s.view),
{
    lemma_cut_keeps_the_transcript(s, bytes);
    let cut = s.cut(bytes);
    let nothing = Seq::<Cell>::empty();
    crate::streamview::lemma_partial_stands_apart(cut.view, shown_bytes(cut.carry), nothing);
    crate::streamview::lemma_new_lines_keep_the_transcript(cut.view, shown_bytes(cut.carry));
    crate::streamview::lemma_keeping_is_transitive(s.view, cut.view, s.fed(bytes).view);
    let line = shown_bytes(s.carry);
    crate::streamview::lemma_new_lines_keep_the_transcript(s.view, line);
    crate::streamview::lemma_partial_stands_apart(s.view, nothing, line);
    let ended = s.view.pushed(line);
    crate::streamview::lemma_partial_stands_apart(ended, nothing, line);
    crate::streamview::lemma_new_lines_keep_the_transcript(ended, Seq::empty());
    crate::streamview::lemma_keeping_is_transitive(
        s.view,
        ended,
        ended.with_partial(Seq::empty()),
    );
    crate::streamview::lemma_new_lines_keep_the_transcript(s.view, Seq::empty());
}

proof fn lemma_lookup<V>(members: Seq<(Seq<char>, V)>, key: Seq<char>)
    ensures
        match lookup(members, key) {
            Some(v) => exists|i: int|
                0 <= i < members.len() && (#[trigger] members[i]) == (key, v) && forall|j: int|
                    0 <= j < i ==> (#[trigger] members[j]).0 != key,
            None => forall|i: int| 0 <= i < members.len() ==> (#[trigger] members[i]).0 != key,
        },
    decreases members.len(),
{
    if members.len() > 0 && members[0].0 != key {
        let rest = members.skip(1);
        lemma_lookup(rest, key);
        match lookup(members, key) {
            Some(v) => {
                let i = choose|i: int|
                    0 <= i < rest.len() && (#[trigger] rest[i]) == (key, v) && forall|j: int|
                        0 <= j < i ==> (#[trigger] rest[j]).0 != key;
                assert(members[i + 1] == (key, v));
                assert forall|j: int| 0 <= j < i + 1 implies (#[trigger] members[j]).0 != key by {
                    if j > 0 {
                        assert(rest[j - 1] == members[j]);
                    }
                }
            },
            None => {
                assert forall|i: int| 0 <= i < members.len() implies (#[trigger] members[i]).0
                    != key by {
                    if i > 0 {
                        assert(rest[i - 1] == members[i]);
                    }
                }
            },
        }
    } else if members.len() > 0 {
        assert(members[0] == (key, members[0].1));
    }
}

/// The first member called `key`, if there is one, is found; members called
/// otherwise are passed over.
pub proof fn lemma_first_member_is_found<V>(members: Seq<(Seq<char>, V)>, key: Seq<char>, i: int)
    ensures
        0 <= i < members.len() && members[i].0 == key && (forall|j: int|
            0 <= j < i ==> (#[trigger] members[j]).0 != key) ==> lookup(members, key) == Some(
            members[i].1,
        ),
        (forall|j: int| 0 <= j < members.len() ==> (#[trigger] members[j]).0 != key) ==> lookup(
            members,
            key,
        ) is None,
{
    lemma_lookup(members, key);
    if 0 <= i < members.len() && members[i].0 == key && (forall|j: int|
        0 <= j < i ==> (#[trigger] members[j]).0 != key) {
        match lookup(members, key) {
            Some(v) => {
                let k = choose|k: int|
                    0 <= k < members.len() && (#[trigger] members[k]) == (key, v) && forall|
                        j: int,
                    |
                        0 <= j < k ==> (#[trigger] members[j]).0 != key;
                if k < i {
                    assert(members[k].0 != key);
                } else if i < k {
                    assert(members[i].0 != key);
                }
            },
            None => {
                assert(members[i].0 != key);
            },
        }
    }
    if forall|j: int| 0 <= j < members.len() ==> (#[trigger] members[j]).0 != key {
        if lookup(members, key) is Some {
            let v = lookup(members, key)->Some_0;
            let k = choose|k: int|
                0 <= k < members.len() && (#[trigger] members[k]) == (key, v) && forall|j: int|
                    0 <= j < k ==> (#[trigger] members[j]).0 != key;
            assert(members[k].0 == key);
        }
    }
}

/// The first member of a record called `key` is the string `value`; or, where
/// there is no value, it is no string, or there is none.
pub open spec fn says(
    record: Seq<(Seq<char>, JsonView)>,
    key: Seq<char>,
    value: Option<Seq<char>>,
) -> bool {
    match value {
        Some(v) => exists|i: int|
            0 <= i < record.len() && (#[trigger] record[i]) == (key, JsonView::Text(v)) && forall|
                j: int,
            |
                0 <= j < i ==> (#[trigger] record[j]).0 != key,
        None => forall|i: int|
            0 <= i < record.len() && (#[trigger] record[i]).0 == key ==> !(record[i].1 is Text)
                || exists|j: int| 0 <= j < i && (#[trigger] record[j]).0 == key,
    }
}

proof fn lemma_says(
    record: Seq<(Seq<char>, JsonView)>,
    key: Seq<char>,
    value: Option<Seq<char>>,
)
    requires
        says(record, key, value),
    ensures
        text_member(record, key) == value,
{
    lemma_lookup(record, key);
    match value {
        Some(v) => {
            let i = choose|i: int|
                0 <= i < record.len() && (#[trigger] record[i]) == (key, JsonView::Text(v))
                    && forall|j: int| 0 <= j < i ==> (#[trigger] record[j]).0 != key;
            lemma_first_member_is_found(record, key, i);
        },
        None => {
            match lookup(record, key) {
                Some(w) => {
                    let i = choose|i: int|
                        0 <= i < record.len() && (#[trigger] record[i]) == (key, w) && forall|
                            j: int,
                        |
                            0 <= j < i ==> (#[trigger] record[j]).0 != key;
                    assert(record[i].0 == key);
                },
                None => {},
            }
        },
    }
}

/// The structured fields of a record: those of its first member called
/// `fields`, where that is an object, and else none.
pub open spec fn has_fields(
    record: Seq<(Seq<char>, JsonView)>,
    fields: Seq<(Seq<char>, FieldView)>,
) -> bool {
    ||| exists|i: int|
        0 <= i < record.len() && (#[trigger] record[i]) == ("fields"@, JsonView::Object(fields))
            && forall|j: int| 0 <= j < i ==> (#[trigger] record[j]).0 != "fields"@
    ||| fields.len() == 0 && forall|i: int|
        0 <= i < record.len() && (#[trigger] record[i]).0 == "fields"@ ==> !(record[i].1 is Object)
            || exists|j: int| 0 <= j < i && (#[trigger] record[j]).0 == "fields"@
}

/// The message among the structured fields: the first of them called `message`
/// is that string; or, where there is none, it is no string, or not there.
pub open spec fn has_message(
    fields: Seq<(Seq<char>, FieldView)>,
    message: Option<Seq<char>>,
) -> bool {
    match message {
        Some(m) => exists|i: int|
            0 <= i < fields.len() && (#[trigger] fields[i]) == ("message"@, FieldView::Text(m))
                && forall|j: int| 0 <= j < i ==> (#[trigger] fields[j]).0 != "message"@,
        None => forall|i: int|
            0 <= i < fields.len() && (#[trigger] fields[i]).0 == "message"@ ==> !(
            fields[i].1 is Text) || exists|j: int|
                0 <= j < i && (#[trigger] fields[j]).0 == "message"@,
    }
}

/// Words with a blank between two of them.
pub open spec fn spaced(words: Seq<Seq<char>>) -> Seq<char>
    decreases words.len(),
{
    if words.len() == 0 {
        Seq::empty()
    } else if words.len() == 1 {
        words[0]
    } else {
        spaced(words.drop_last()) + seq![' '] + words.last()
    }
}

/// `key=value`.
pub open spec fn assignment(field: (Seq<char>, FieldView)) -> Seq<char> {
    field.0 + seq!['='] + match field.1 {
        FieldView::Text(s) => s,
        FieldView::Json(s) => s,
    }
}

/// The other fields as they stand on the line.
pub open spec fn assignments(fields: Seq<(Seq<char>, FieldView)>) -> Seq<Seq<char>> {
    fields.filter(|f: (Seq<char>, FieldView)| f.0 != "message"@).map_values(
        |f: (Seq<char>, FieldView)| assignment(f),
    )
}

/// Every field but the message is shown as `key=value`, in order, with a blank
/// between two of them.
pub proof fn lemma_every_other_field_is_shown(fields: Seq<(Seq<char>, FieldView)>)
    ensures
        shown_extra(fields) == if assignments(fields).len() == 0 {
            None
        } else {
            Some(spaced(assignments(fields)))
        },
    decreases fields.len(),
{
    reveal(Seq::filter);
    let other = |f: (Seq<char>, FieldView)| f.0 != "message"@;
    let shown = |f: (Seq<char>, FieldView)| assignment(f);
    if fields.len() > 0 {
        let init = fields.drop_last();
        let last = fields.last();
        lemma_every_other_field_is_shown(init);
        assert(shown_field(last) =~= assignment(last));
        if last.0 != "message"@ {
            let before = assignments(init);
            assert(init.filter(other).push(last).map_values(shown) =~= before.push(
                assignment(last),
            ));
            let words = before.push(assignment(last));
            assert(assignments(fields) == words);
            assert(words.drop_last() =~= before);
            if before.len() > 0 {
                assert(spaced(before).push(' ') + assignment(last) =~= spaced(before) + seq![' ']
                    + assignment(last));
            }
        }
    } else {
        assert(assignments(fields).len() == 0);
    }
}

/// `level` is `name`, but for letters in lower case.
pub open spec fn is_spelled(level: Seq<char>, name: Seq<char>) -> bool {
    &&& level.len() == name.len()
    &&& forall|i: int|
        0 <= i < level.len() ==> (#[trigger] level[i]) == name[i] || level[i] as int == name[i] as int
            + 32
}

/// The five levels and their colours.
pub open spec fn is_level(name: Seq<char>, fg: TvColor) -> bool {
    ||| name == "ERROR"@ && fg == TvColor::LightRed
    ||| name == "WARN"@ && fg == TvColor::Yellow
    ||| name == "INFO"@ && fg == TvColor::White
    ||| name == "DEBUG"@ && fg == TvColor::LightGray
    ||| name == "TRACE"@ && fg == TvColor::DarkGray
}

proof fn lemma_upper_case(level: Seq<char>, name: Seq<char>)
    requires
        forall|i: int| 0 <= i < name.len() ==> 'A' <= #[trigger] name[i] <= 'Z',
    ensures
        is_spelled(level, name) <==> upper(level) == name,
{
    if is_spelled(level, name) {
        assert forall|i: int| 0 <= i < level.len() implies upper(level)[i] == name[i] by {
            assert('A' <= name[i] <= 'Z');
            assert(level[i] == name[i] || level[i] as int == name[i] as int + 32);
            assert(upper(level)[i] == upper_char(level[i]));
            if level[i] as int == name[i] as int + 32 {
                assert('a' <= level[i] <= 'z');
                assert((level[i] as int - 32) as char == name[i]);
            }
        }
        assert(upper(level) =~= name);
    }
    if upper(level) == name {
        assert forall|i: int| 0 <= i < level.len() implies (#[trigger] level[i]) == name[i]
            || level[i] as int == name[i] as int + 32 by {
            assert(upper(level)[i] == upper_char(level[i]));
        }
    }
}

proof fn lemma_level_names()
    ensures
        forall|name: Seq<char>, fg: TvColor, i: int|
            #![trigger is_level(name, fg), name[i]]
            is_level(name, fg) && 0 <= i < name.len() ==> 'A' <= name[i] <= 'Z',
        "ERROR"@ != "WARN"@ && "ERROR"@ != "INFO"@ && "ERROR"@ != "DEBUG"@ && "ERROR"@ != "TRACE"@,
        "WARN"@ != "INFO"@ && "WARN"@ != "DEBUG"@ && "WARN"@ != "TRACE"@,
        "INFO"@ != "DEBUG"@ && "INFO"@ != "TRACE"@,
        "DEBUG"@ != "TRACE"@,
        "ERROR"@.len() > 0 && "WARN"@.len() > 0 && "INFO"@.len() > 0 && "DEBUG"@.len() > 0
            && "TRACE"@.len() > 0,
{
    reveal_strlit("ERROR");
    reveal_strlit("WARN");
    reveal_strlit("INFO");
    reveal_strlit("DEBUG");
    reveal_strlit("TRACE");
    assert("ERROR"@[0] == 'E' && "WARN"@[0] == 'W' && "INFO"@[0] == 'I' && "DEBUG"@[0] == 'D'
        && "TRACE"@[0] == 'T');
}

/// A level is known if and only if it is one of the five, in whatever case,
/// and it has the colour of that one.
pub proof fn lemma_levels_and_their_colors(level: Seq<char>, name: Seq<char>, fg: TvColor)
    requires
        is_level(name, fg),
    ensures
        is_spelled(level, name) ==> level_fg(level) == Some(fg) && upper(level) == name,
        level_fg(level) == Some(fg) ==> is_spelled(level, name),
        level_fg(level) is None <==> !is_spelled(level, "ERROR"@) && !is_spelled(level, "WARN"@)
            && !is_spelled(level, "INFO"@) && !is_spelled(level, "DEBUG"@) && !is_spelled(
            level,
            "TRACE"@,
        ),
{
    lemma_level_names();
    assert(is_level("ERROR"@, TvColor::LightRed));
    assert(is_level("WARN"@, TvColor::Yellow));
    assert(is_level("INFO"@, TvColor::White));
    assert(is_level("DEBUG"@, TvColor::LightGray));
    assert(is_level("TRACE"@, TvColor::DarkGray));
    lemma_upper_case(level, "ERROR"@);
    lemma_upper_case(level, "WARN"@);
    lemma_upper_case(level, "INFO"@);
    lemma_upper_case(level, "DEBUG"@);
    lemma_upper_case(level, "TRACE"@);
}

/// A date, a `T` and a time of day, digit by digit, whatever follows.
pub open spec fn is_date_and_time(ts: Seq<char>) -> bool {
    &&& ts.len() >= 19
    &&& ts[4] == '-' && ts[7] == '-' && ts[10] == 'T' && ts[13] == ':' && ts[16] == ':'
    &&& forall|i: int|
        0 <= i < 19 && i != 4 && i != 7 && i != 10 && i != 13 && i != 16 ==> 48 <= (
        #[trigger] ts[i]) as int <= 57
}

/// Of a date and a time the time of day is shown, its eight characters behind
/// the `T`; any other timestamp is shown as it is.
pub proof fn lemma_time_of_day(ts: Seq<char>)
    ensures
        is_timestamp(ts) <==> is_date_and_time(ts),
        is_date_and_time(ts) ==> shown_time(ts) == ts.subrange(11, 19),
        !is_date_and_time(ts) ==> shown_time(ts) == ts,
        ts.len() >= 19 && ts[4] == '-' && ts[7] == '-' && ts[10] == 'T' && ts[13] == ':' && ts[16]
            == ':' && (forall|i: int|
            0 <= i < 19 && i != 4 && i != 7 && i != 10 && i != 13 && i != 16 ==> 48 <= (
            #[trigger] ts[i]) as int <= 57) ==> is_timestamp(ts) && shown_time(ts) == seq![
            ts[11],
            ts[12],
            ts[13],
            ts[14],
            ts[15],
            ts[16],
            ts[17],
            ts[18],
        ],
        ts.len() < 19 || ts[4] != '-' || ts[7] != '-' || ts[10] != 'T' || ts[13] != ':' || ts[16]
            != ':' || (exists|i: int|
            0 <= i < 19 && i != 4 && i != 7 && i != 10 && i != 13 && i != 16 && !(48 <= (
            #[trigger] ts[i]) as int <= 57)) ==> !is_timestamp(ts) && shown_time(ts) == ts,
{
    if is_timestamp(ts) {
        assert(ts[4] == '-' && ts[7] == '-' && ts[10] == 'T' && ts[13] == ':' && ts[16] == ':');
        assert forall|i: int|
            0 <= i < 19 && i != 4 && i != 7 && i != 10 && i != 13 && i != 16 implies 48 <= (
        #[trigger] ts[i]) as int <= 57 by {
            assert(crate::text::is_digit(ts[i]));
        }
    }
    if is_date_and_time(ts) {
        assert forall|i: int| 0 <= i < 19 implies (if i == 4 || i == 7 {
            #[trigger] ts[i] == '-'
        } else if i == 10 {
            ts[i] == 'T'
        } else if i == 13 || i == 16 {
            ts[i] == ':'
        } else {
            crate::text::is_digit(ts[i])
        }) by {}
        assert(ts.subrange(11, 19) =~= seq![
            ts[11],
            ts[12],
            ts[13],
            ts[14],
            ts[15],
            ts[16],
            ts[17],
            ts[18],
        ]);
    }
}

/// Parts of a line, each in its own colour on black, with two blanks in the
/// default colours in front of each but the first.
pub open spec fn laid_out(parts: Seq<(Seq<char>, TvColor)>) -> Seq<Cell>
    decreases parts.len(),
{
    if parts.len() == 0 {
        Seq::empty()
    } else {
        let before = laid_out(parts.drop_last());
        let (text, fg) = parts.last();
        before + (if before.len() > 0 {
            crate::screen::styled(
                seq![' ', ' '],
                Attr { fg: TvColor::LightGray, bg: TvColor::Black },
            )
        } else {
            Seq::empty()
        }) + crate::screen::styled(text, Attr { fg, bg: TvColor::Black })
    }
}

/// A part of a line, if there is one.
pub open spec fn part(text: Option<Seq<char>>, fg: TvColor) -> Seq<(Seq<char>, TvColor)> {
    match text {
        Some(t) => seq![(t, fg)],
        None => Seq::empty(),
    }
}

proof fn lemma_one_part_more(
    parts: Seq<(Seq<char>, TvColor)>,
    text: Option<Seq<char>>,
    fg: TvColor,
)
    ensures
        laid_out(parts + part(text, fg)) == with_optional_segment(laid_out(parts), text, fg),
{
    reveal_strlit("  ");
    let more = parts + part(text, fg);
    match text {
        Some(t) => {
            assert(more.drop_last() =~= parts);
            assert("  "@ =~= seq![' ', ' ']);
            assert(laid_out(more) =~= with_segment(laid_out(parts), t, fg));
        },
        None => {
            assert(more =~= parts);
        },
    }
}

/// A record with a known level is shown as its parts: the time of day, the
/// level in upper case, the target, the message and the other fields, each in
/// its colour, as far as the record has them, with two blanks between two of
/// them. Nothing else of it is shown, and none of these is left out.
pub proof fn lemma_record_is_shown_in_parts(
    record: Seq<(Seq<char>, JsonView)>,
    timestamp: Option<Seq<char>>,
    level: Seq<char>,
    name: Seq<char>,
    fg: TvColor,
    target: Option<Seq<char>>,
    fields: Seq<(Seq<char>, FieldView)>,
    message: Option<Seq<char>>,
)
    requires
        says(record, "level"@, Some(level)),
        is_level(name, fg),
        is_spelled(level, name),
        says(record, "timestamp"@, timestamp),
        says(record, "target"@, target),
        has_fields(record, fields),
        has_message(fields, message),
    ensures
        ({
            let time = match timestamp {
                Some(ts) => Some(
                    if is_date_and_time(ts) {
                        ts.subrange(11, 19)
                    } else {
                        ts
                    },
                ),
                None => None,
            };
            let others = if assignments(fields).len() == 0 {
                None
            } else {
                Some(spaced(assignments(fields)))
            };
            record_cells(record) == Some(
                laid_out(
                    part(time, TvColor::DarkGray) + part(Some(name), fg) + part(
                        target,
                        TvColor::LightCyan,
                    ) + part(message, TvColor::LightGray) + part(others, TvColor::DarkGray),
                ),
            )
        }),
{
    lemma_says(record, "level"@, Some(level));
    lemma_says(record, "timestamp"@, timestamp);
    lemma_says(record, "target"@, target);
    lemma_levels_and_their_colors(level, name, fg);
    lemma_every_other_field_is_shown(fields);
    let time = match timestamp {
        Some(ts) => Some(
            if is_date_and_time(ts) {
                ts.subrange(11, 19)
            } else {
                ts
            },
        ),
        None => None,
    };
    match timestamp {
        Some(ts) => {
            lemma_time_of_day(ts);
        },
        None => {},
    }
    let others = if assignments(fields).len() == 0 {
        None
    } else {
        Some(spaced(assignments(fields)))
    };
    let nothing = Seq::<(Seq<char>, TvColor)>::empty();
    let p1 = part(time, TvColor::DarkGray);
    let p2 = p1 + part(Some(name), fg);
    let p3 = p2 + part(target, TvColor::LightCyan);
    let p4 = p3 + part(message, TvColor::LightGray);
    assert(nothing + p1 =~= p1);
    lemma_one_part_more(nothing, time, TvColor::DarkGray);
    lemma_one_part_more(p1, Some(name), fg);
    lemma_one_part_more(p2, target, TvColor::LightCyan);
    lemma_one_part_more(p3, message, TvColor::LightGray);
    lemma_one_part_more(p4, others, TvColor::DarkGray);
    lemma_fields_of(record, fields, message);
}

proof fn lemma_fields_of(
    record: Seq<(Seq<char>, JsonView)>,
    fields: Seq<(Seq<char>, FieldView)>,
    message: Option<Seq<char>>,
)
    requires
        has_fields(record, fields),
        has_message(fields, message),
    ensures
        match lookup(record, "fields"@) {
            Some(JsonView::Object(f)) => f == fields,
            _ => fields.len() == 0,
        },
        match lookup(fields, "message"@) {
            Some(FieldView::Text(m)) => message == Some(m),
            _ => message is None,
        },
        fields.len() == 0 ==> message is None && assignments(fields).len() == 0,
{
    reveal(Seq::filter);
    lemma_lookup(record, "fields"@);
    lemma_lookup(fields, "message"@);
    if exists|i: int|
        0 <= i < record.len() && (#[trigger] record[i]) == ("fields"@, JsonView::Object(fields))
            && forall|j: int| 0 <= j < i ==> (#[trigger] record[j]).0 != "fields"@ {
        let i = choose|i: int|
            0 <= i < record.len() && (#[trigger] record[i]) == (
                "fields"@,
                JsonView::Object(fields),
            ) && forall|j: int| 0 <= j < i ==> (#[trigger] record[j]).0 != "fields"@;
        lemma_first_member_is_found(record, "fields"@, i);
    } else if lookup(record, "fields"@) is Some {
        let w = lookup(record, "fields"@)->Some_0;
        let i = choose|i: int|
            0 <= i < record.len() && (#[trigger] record[i]) == ("fields"@, w) && forall|j: int|
                0 <= j < i ==> (#[trigger] record[j]).0 != "fields"@;
        assert(record[i].0 == "fields"@);
    }
    match message {
        Some(m) => {
            let i = choose|i: int|
                0 <= i < fields.len() && (#[trigger] fields[i]) == (
                    "message"@,
                    FieldView::Text(m),
                ) && forall|j: int| 0 <= j < i ==> (#[trigger] fields[j]).0 != "message"@;
            lemma_first_member_is_found(fields, "message"@, i);
        },
        None => {
            if lookup(fields, "message"@) is Some {
                let w = lookup(fields, "message"@)->Some_0;
                let i = choose|i: int|
                    0 <= i < fields.len() && (#[trigger] fields[i]) == ("message"@, w) && forall|
                        j: int,
                    |
                        0 <= j < i ==> (#[trigger] fields[j]).0 != "message"@;
                assert(fields[i].0 == "message"@);
            }
        },
    }
}

proof fn lemma_parts_stay(a: Seq<(Seq<char>, TvColor)>, b: Seq<(Seq<char>, TvColor)>)
    ensures
        laid_out(a).is_prefix_of(laid_out(a + b)),
    decreases b.len(),
{
    if b.len() == 0 {
        assert(a + b =~= a);
    } else {
        lemma_parts_stay(a, b.drop_last());
        assert((a + b).drop_last() =~= a + b.drop_last());
        let n = laid_out(a).len() as int;
        assert(laid_out(a) =~= laid_out(a + b).subrange(0, n)) by {
            assert forall|i: int| 0 <= i < n implies laid_out(a)[i] == laid_out(a + b)[i] by {
                assert(laid_out(a)[i] == laid_out(a + b.drop_last()).subrange(0, n)[i]);
            }
        }
    }
}

/// The message of a record is on its line in full and in the default colours,
/// whatever else the record has: it stands at `at`.
pub proof fn lemma_message_is_shown(
    record: Seq<(Seq<char>, JsonView)>,
    timestamp: Option<Seq<char>>,
    level: Seq<char>,
    name: Seq<char>,
    fg: TvColor,
    target: Option<Seq<char>>,
    fields: Seq<(Seq<char>, FieldView)>,
    message: Seq<char>,
) -> (at: int)
    requires
        says(record, "level"@, Some(level)),
        is_level(name, fg),
        is_spelled(level, name),
        says(record, "timestamp"@, timestamp),
        says(record, "target"@, target),
        has_fields(record, fields),
        has_message(fields, Some(message)),
    ensures
        record_cells(record) is Some,
        0 <= at <= at + message.len() <= record_cells(record)->Some_0.len(),
        record_cells(record)->Some_0.subrange(at, at + message.len()) == crate::screen::styled(
            message,
            Attr { fg: TvColor::LightGray, bg: TvColor::Black },
        ),
{
    lemma_record_is_shown_in_parts(
        record,
        timestamp,
        level,
        name,
        fg,
        target,
        fields,
        Some(message),
    );
    let time = match timestamp {
        Some(ts) => Some(
            if is_date_and_time(ts) {
                ts.subrange(11, 19)
            } else {
                ts
            },
        ),
        None => None,
    };
    let others = if assignments(fields).len() == 0 {
        None
    } else {
        Some(spaced(assignments(fields)))
    };
    let before = part(time, TvColor::DarkGray) + part(Some(name), fg) + part(
        target,
        TvColor::LightCyan,
    );
    let here = before + part(Some(message), TvColor::LightGray);
    let rest = part(others, TvColor::DarkGray);
    let shown = crate::screen::styled(
        message,
        Attr { fg: TvColor::LightGray, bg: TvColor::Black },
    );
    assert(here.drop_last() =~= before);
    let at = laid_out(here).len() - message.len();
    assert(laid_out(here).subrange(at, at + message.len()) =~= shown);
    lemma_parts_stay(here, rest);
    let cells = laid_out(here + rest);
    let n = laid_out(here).len() as int;
    assert(cells.subrange(at, at + message.len()) =~= shown) by {
        assert forall|i: int| 0 <= i < message.len() implies cells[at + i] == shown[i] by {
            assert(cells.subrange(0, n)[at + i] == laid_out(here)[at + i]);
            assert(laid_out(here).subrange(at, at + message.len())[i] == shown[i]);
        }
    }
    at
}

/// A line is shown as the record it holds. Where it holds none, or one whose
/// level is missing, no string or none of the five, it is shown as it is.
pub proof fn lemma_what_a_line_becomes(
    line: Seq<char>,
    record: Seq<(Seq<char>, JsonView)>,
    level: Option<Seq<char>>,
)
    requires
        says(record, "level"@, level),
    ensures
        parsed(line) == Some(ParsedView::Object(record)) && record_cells(record) is Some
            ==> shown_line(line) == record_cells(record)->Some_0,
        parsed(line) == Some(ParsedView::Object(record)) && (match level {
            Some(l) => !is_spelled(l, "ERROR"@) && !is_spelled(l, "WARN"@) && !is_spelled(
                l,
                "INFO"@,
            ) && !is_spelled(l, "DEBUG"@) && !is_spelled(l, "TRACE"@),
            None => true,
        }) ==> shown_line(line) == crate::screen::styled(
            line,
            Attr { fg: TvColor::LightGray, bg: TvColor::Black },
        ),
        !(parsed(line) matches Some(ParsedView::Object(_))) ==> shown_line(line)
            == crate::screen::styled(line, Attr { fg: TvColor::LightGray, bg: TvColor::Black }),
{
    lemma_says(record, "level"@, level);
    match level {
        Some(l) => {
            lemma_levels_and_their_colors(l, "ERROR"@, TvColor::LightRed);
        },
        None => {},
    }
}

proof fn lemma_bytes_gather(s: Tracing, bytes: Seq<u8>)
    requires
        !bytes.contains(0x0a),
    ensures
        s.cut(bytes) == (Tracing { carry: s.carry + bytes, ..s }),
    decreases bytes.len(),
{
    if bytes.len() == 0 {
        assert(s.carry + bytes =~= s.carry);
    } else {
        assert(bytes.last() == bytes[bytes.len() - 1]);
        assert forall|i: int| 0 <= i < bytes.len() - 1 implies bytes.drop_last()[i] != 0x0a by {
            assert(bytes[i] != 0x0a);
        }
        lemma_bytes_gather(s, bytes.drop_last());
        assert(s.carry + bytes =~= (s.carry + bytes.drop_last()).push(bytes.last()));
    }
}

/// A line of a trace stream is in the view as soon as its newline arrives, and
/// as the line still streaming in before that; what is left when the stream
/// ends becomes a line of its own.
pub proof fn lemma_lines_reach_the_view(s: Tracing, bytes: Seq<u8>)
    requires
        !bytes.contains(0x0a),
    ensures
        ({
            let line = shown_line(crate::text::utf8_lossy(s.carry + bytes));
            let nothing = shown_line(crate::text::utf8_lossy(Seq::empty()));
            &&& s.fed(bytes) == (Tracing {
                carry: s.carry + bytes,
                view: s.view.with_partial(line),
            })
            &&& s.fed(bytes.push(0x0a)) == (Tracing {
                carry: Seq::empty(),
                view: s.view.pushed(line).with_partial(nothing),
            })
            &&& (s.carry + bytes).len() > 0 ==> s.fed(bytes).finished() == (Tracing {
                carry: Seq::empty(),
                view: s.view.with_partial(line).pushed(line).with_partial(Seq::empty()),
            })
            &&& (s.carry + bytes).len() == 0 ==> s.fed(bytes).finished() == (Tracing {
                carry: Seq::empty(),
                view: s.view.with_partial(line).with_partial(Seq::empty()),
            })
        }),
{
    lemma_bytes_gather(s, bytes);
    assert(bytes.push(0x0a).drop_last() =~= bytes);
}

/// The parts of a record are told as they are, one by one and in order.
pub proof fn lemma_records_as_they_are(
    record: Seq<(String, JsonValue)>,
    fields: Seq<(String, FieldValue)>,
    text: String,
    object: Vec<(String, FieldValue)>,
)
    ensures
        record_view(record).len() == record.len(),
        forall|i: int|
            0 <= i < record.len() ==> #[trigger] record_view(record)[i] == (
                record[i].0@,
                record[i].1@,
            ),
        fields_view(fields).len() == fields.len(),
        forall|i: int|
            0 <= i < fields.len() ==> #[trigger] fields_view(fields)[i] == (
                fields[i].0@,
                fields[i].1@,
            ),
        FieldValue::Text(text)@ == FieldView::Text(text@),
        FieldValue::Json(text)@ == FieldView::Json(text@),
        JsonValue::Text(text)@ == JsonView::Text(text@),
        JsonValue::Object(object)@ == JsonView::Object(fields_view(object@)),
        JsonValue::Other@ == JsonView::Other,
{
}

/// The other fields one by one: none to begin with; the message adds nothing;
/// any other field adds its name, an equals sign and its value, with a blank in
/// front if something stands there already.
pub proof fn lemma_one_field_more(
    fields: Seq<(Seq<char>, FieldView)>,
    key: Seq<char>,
    value: Seq<char>,
    is_text: bool,
)
    ensures
        shown_extra(Seq::empty()) is None,
        ({
            let field = (
                key,
                if is_text {
                    FieldView::Text(value)
                } else {
                    FieldView::Json(value)
                },
            );
            shown_extra(fields.push(field)) == if key == "message"@ {
                shown_extra(fields)
            } else {
                match shown_extra(fields) {
                    None => Some(key + seq!['='] + value),
                    Some(before) => Some(before + seq![' '] + key + seq!['='] + value),
                }
            }
        }),
{
    let field = (
        key,
        if is_text {
            FieldView::Text(value)
        } else {
            FieldView::Json(value)
        },
    );
    assert(fields.push(field).drop_last() =~= fields);
    assert(shown_field(field) =~= key + seq!['='] + value);
    match shown_extra(fields) {
        Some(before) => {
            assert(before.push(' ') + shown_field(field) =~= before + seq![' '] + key + seq!['=']
                + value);
        },
        None => {},
    }
}

/// The line of a record written out. In front the time of day and two blanks,
/// then the level, then the target, the message and the other fields, each
/// behind two blanks, as far as the record has them.
pub proof fn lemma_record_written_out(
    record: Seq<(Seq<char>, JsonView)>,
    timestamp: Option<Seq<char>>,
    level: Seq<char>,
    name: Seq<char>,
    fg: TvColor,
    target: Option<Seq<char>>,
    fields: Seq<(Seq<char>, FieldView)>,
    message: Option<Seq<char>>,
)
    requires
        says(record, "level"@, Some(level)),
        is_level(name, fg),
        is_spelled(level, name),
        says(record, "timestamp"@, timestamp),
        says(record, "target"@, target),
        has_fields(record, fields),
        has_message(fields, message),
    ensures
        ({
            let gap = crate::screen::styled(
                seq![' ', ' '],
                Attr { fg: TvColor::LightGray, bg: TvColor::Black },
            );
            record_cells(record) == Some(
                (match timestamp {
                    Some(ts) => crate::screen::styled(
                        shown_time(ts),
                        Attr { fg: TvColor::DarkGray, bg: TvColor::Black },
                    ) + (if shown_time(ts).len() > 0 {
                        gap
                    } else {
                        Seq::empty()
                    }),
                    None => Seq::empty(),
                }) + crate::screen::styled(name, Attr { fg, bg: TvColor::Black }) + (match target {
                    Some(t) => gap + crate::screen::styled(
                        t,
                        Attr { fg: TvColor::LightCyan, bg: TvColor::Black },
                    ),
                    None => Seq::empty(),
                }) + (match message {
                    Some(m) => gap + crate::screen::styled(
                        m,
                        Attr { fg: TvColor::LightGray, bg: TvColor::Black },
                    ),
                    None => Seq::empty(),
                }) + (match shown_extra(fields) {
                    Some(others) => gap + crate::screen::styled(
                        others,
                        Attr { fg: TvColor::DarkGray, bg: TvColor::Black },
                    ),
                    None => Seq::empty(),
                }),
            )
        }),
{
    reveal_strlit("  ");
    lemma_says(record, "level"@, Some(level));
    lemma_says(record, "timestamp"@, timestamp);
    lemma_says(record, "target"@, target);
    lemma_levels_and_their_colors(level, name, fg);
    lemma_level_names();
    lemma_fields_of(record, fields, message);
    lemma_every_other_field_is_shown(fields);
    assert("  "@ =~= seq![' ', ' ']);
    let gap = crate::screen::styled(
        seq![' ', ' '],
        Attr { fg: TvColor::LightGray, bg: TvColor::Black },
    );
    let front = match timestamp {
        Some(ts) => crate::screen::styled(
            shown_time(ts),
            Attr { fg: TvColor::DarkGray, bg: TvColor::Black },
        ) + (if shown_time(ts).len() > 0 {
            gap
        } else {
            Seq::empty()
        }),
        None => Seq::empty(),
    };
    let a = front + crate::screen::styled(name, Attr { fg, bg: TvColor::Black });
    let time = match timestamp {
        Some(ts) => Some(shown_time(ts)),
        None => None,
    };
    let start = with_optional_segment(Seq::empty(), time, TvColor::DarkGray);
    assert(with_segment(start, name, fg) =~= a);
    assert(a.len() > 0);
    let b = a + (match target {
        Some(t) => gap + crate::screen::styled(
            t,
            Attr { fg: TvColor::LightCyan, bg: TvColor::Black },
        ),
        None => Seq::empty(),
    });
    assert(with_optional_segment(a, target, TvColor::LightCyan) =~= b);
    let c = b + (match message {
        Some(m) => gap + crate::screen::styled(
            m,
            Attr { fg: TvColor::LightGray, bg: TvColor::Black },
        ),
        None => Seq::empty(),
    });
    assert(with_optional_segment(b, message, TvColor::LightGray) =~= c);
    let d = c + (match shown_extra(fields) {
        Some(others) => gap + crate::screen::styled(
            others,
            Attr { fg: TvColor::DarkGray, bg: TvColor::Black },
        ),
        None => Seq::empty(),
    });
    assert(with_optional_segment(c, shown_extra(fields), TvColor::DarkGray) =~= d);
}

} // verus!
