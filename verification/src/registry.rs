//! Named, reconnectable stream sessions.
//!
//! A control connection performs the handshake, and each session gets a data
//! port of its own. A session outlives its data socket, so a client that
//! drops can dial the same port again and rejoin the same window with its
//! transcript intact.
//!
//! What is here decides and keeps the books. The program around it owns the
//! sockets: it reports what happened on them, and does what it is told.
//! Times are nanoseconds on any clock that does not run backwards.

use vstd::prelude::*;
use vstd::string::StringExecFns;

use crate::proto::{is_hello, parse_handshake, HelloError, StreamKind};
use crate::text::{decimal_text, same_text};

verus! {

/// Stable identifier for a session, independent of its name.
pub type SessionId = u64;

/// The first id for windows that show a capture. Sessions are numbered from
/// one up and stay below it.
pub const FIRST_CAPTURE_ID: SessionId = 0x7fff_ffff_ffff_ffff;

/// Something the window side needs to know about.
#[derive(Debug, Clone, PartialEq, Eq)]
pub enum ServerEvent {
    /// A new session exists; open a window for it.
    Opened { id: SessionId, name: String, port: u16, kind: StreamKind },
    /// A client attached to a session, for the first time or again.
    Attached { id: SessionId, reattached: bool },
    /// Stream bytes for a session.
    Bytes { id: SessionId, data: Vec<u8> },
    /// The data socket closed; the session and its port stay alive.
    Disconnected { id: SessionId },
    /// The session sat idle too long and was dropped; close its window.
    Closed { id: SessionId },
}

/// What a [`ServerEvent`] says.
pub ghost enum EventView {
    Opened { id: SessionId, name: Seq<char>, port: u16, kind: StreamKind },
    Attached { id: SessionId, reattached: bool },
    Bytes { id: SessionId, data: Seq<u8> },
    Disconnected { id: SessionId },
    Closed { id: SessionId },
}

impl View for ServerEvent {
    type V = EventView;

    open spec fn view(&self) -> EventView {
        match *self {
            ServerEvent::Opened { id, name, port, kind } => EventView::Opened {
                id,
                name: name@,
                port,
                kind,
            },
            ServerEvent::Attached { id, reattached } => EventView::Attached { id, reattached },
            ServerEvent::Bytes { id, data } => EventView::Bytes { id, data: data@ },
            ServerEvent::Disconnected { id } => EventView::Disconnected { id },
            ServerEvent::Closed { id } => EventView::Closed { id },
        }
    }
}

pub open spec fn event_views(events: Seq<ServerEvent>) -> Seq<EventView> {
    events.map_values(|e: ServerEvent| e@)
}

/// What is to be done with a control connection.
#[derive(Debug, Clone, PartialEq, Eq)]
pub enum ControlReply {
    /// Send this line and hang up.
    Answer(String),
    /// Bind a data port for a new session, then open the session with it.
    BindPort { kind: StreamKind, name: String },
    /// The connection is itself the stream of an anonymous session.
    Stream { id: SessionId, attachment: u64 },
}

pub ghost enum ControlView {
    Answer(Seq<char>),
    BindPort { kind: StreamKind, name: Seq<char> },
    Stream { id: SessionId, attachment: u64 },
}

impl View for ControlReply {
    type V = ControlView;

    open spec fn view(&self) -> ControlView {
        match *self {
            ControlReply::Answer(line) => ControlView::Answer(line@),
            ControlReply::BindPort { kind, name } => ControlView::BindPort { kind, name: name@ },
            ControlReply::Stream { id, attachment } => ControlView::Stream { id, attachment },
        }
    }
}

/// What is to be done with a connection to a session's data port.
#[derive(Debug, Clone, PartialEq, Eq)]
pub enum AcceptReply {
    /// The session is gone: stop listening and release the port.
    Stop,
    /// Send this line and hang up.
    Refuse(String),
    /// Read the stream, under this attachment.
    Attach { attachment: u64 },
}

pub ghost enum AcceptView {
    Stop,
    Refuse(Seq<char>),
    Attach { attachment: u64 },
}

impl View for AcceptReply {
    type V = AcceptView;

    open spec fn view(&self) -> AcceptView {
        match *self {
            AcceptReply::Stop => AcceptView::Stop,
            AcceptReply::Refuse(line) => AcceptView::Refuse(line@),
            AcceptReply::Attach { attachment } => AcceptView::Attach { attachment },
        }
    }
}

/// A session as the server knows it.
#[verifier::ext_equal]
pub ghost struct SessionView {
    pub id: SessionId,
    pub name: Seq<char>,
    /// The data port, or zero for an anonymous session, which has none.
    pub port: u16,
    /// A data socket is attached.
    pub live: bool,
    /// The attachment that is, or was last, in force.
    pub attachment: u64,
    /// A data socket has been attached before.
    pub attached_before: bool,
    /// Since when the session has had no client.
    pub idle_since: Option<u64>,
}

impl SessionView {
    /// The session has been without a client for longer than `ttl`.
    pub open spec fn expired(self, now: u64, ttl: u64) -> bool {
        match self.idle_since {
            Some(since) => !self.live && now - since > ttl,
            None => false,
        }
    }
}

/// The elements of `s` that `keep` holds of, in order.
pub open spec fn select(
    s: Seq<SessionView>,
    keep: spec_fn(SessionView) -> bool,
) -> Seq<SessionView>
    decreases s.len(),
{
    if s.len() == 0 {
        s
    } else if keep(s.last()) {
        select(s.drop_last(), keep).push(s.last())
    } else {
        select(s.drop_last(), keep)
    }
}

/// Where the first element stands that `p` holds of.
pub open spec fn position(s: Seq<SessionView>, p: spec_fn(SessionView) -> bool) -> Option<int>
    decreases s.len(),
{
    if s.len() == 0 {
        None
    } else {
        match position(s.drop_last(), p) {
            Some(i) => Some(i),
            None => if p(s.last()) {
                Some(s.len() - 1)
            } else {
                None
            },
        }
    }
}

/// The session was opened under that name by a handshake. An anonymous session
/// has no data port to offer, so no handshake is about it, whatever its name.
pub open spec fn is_named(name: Seq<char>) -> spec_fn(SessionView) -> bool {
    |s: SessionView| s.name == name && s.port != 0
}

/// Two sessions that can be told apart: by id, and by name where both have a
/// data port.
pub open spec fn are_apart(a: SessionView, b: SessionView) -> bool {
    a.id != b.id && (a.name == b.name ==> a.port == 0 || b.port == 0)
}

pub open spec fn has_id(id: SessionId) -> spec_fn(SessionView) -> bool {
    |s: SessionView| s.id == id
}

pub open spec fn has_other_id(id: SessionId) -> spec_fn(SessionView) -> bool {
    |s: SessionView| s.id != id
}

pub open spec fn is_live() -> spec_fn(SessionView) -> bool {
    |s: SessionView| s.live
}

pub open spec fn is_kept(now: u64, ttl: u64) -> spec_fn(SessionView) -> bool {
    |s: SessionView| !s.expired(now, ttl)
}

pub open spec fn is_expired(now: u64, ttl: u64) -> spec_fn(SessionView) -> bool {
    |s: SessionView| s.expired(now, ttl)
}

/// A `Closed` event for each of the sessions.
pub open spec fn closings(sessions: Seq<SessionView>) -> Seq<EventView> {
    sessions.map_values(|s: SessionView| EventView::Closed { id: s.id })
}

/// The ports among those of the sessions that somebody listens on.
pub open spec fn listened_ports(sessions: Seq<SessionView>) -> Seq<u16>
    decreases sessions.len(),
{
    if sessions.len() == 0 {
        Seq::empty()
    } else if sessions.last().port == 0 {
        listened_ports(sessions.drop_last())
    } else {
        listened_ports(sessions.drop_last()).push(sessions.last().port)
    }
}

/// The answer to a handshake that has a data port.
pub open spec fn port_text(port: u16) -> Seq<char> {
    "PORT "@ + crate::text::decimal(port as nat)
}

pub open spec fn anonymous_name(n: nat) -> Seq<char> {
    "anon-"@ + crate::text::decimal(n)
}

/// Some session has the name of the `n`th anonymous one.
pub open spec fn is_taken(sessions: Seq<SessionView>, n: nat) -> bool {
    exists|i: int| 0 <= i < sessions.len() && (#[trigger] sessions[i]).name == anonymous_name(n)
}

/// `n` is the first number from `from` on whose anonymous name is free.
pub open spec fn is_first_free(sessions: Seq<SessionView>, from: nat, n: nat) -> bool {
    &&& from <= n
    &&& !is_taken(sessions, n)
    &&& forall|k: nat| from <= k < n ==> #[trigger] is_taken(sessions, k)
}

/// What the server knows.
#[verifier::ext_equal]
pub ghost struct Registry {
    pub control_port: u16,
    pub sessions: Seq<SessionView>,
    /// Events nobody has taken yet, oldest first.
    pub events: Seq<EventView>,
    pub next_id: u64,
    pub next_anon: u64,
    pub next_attachment: u64,
}

impl Registry {
    pub open spec fn fresh(control_port: u16) -> Registry {
        Registry {
            control_port,
            sessions: Seq::empty(),
            events: Seq::empty(),
            next_id: 1,
            next_anon: 1,
            next_attachment: 1,
        }
    }

    /// No two sessions share an id, no two with a data port share a name, ids
    /// and attachments are below the next ones, and a session with a client is not idle and has been
    /// attached to.
    pub open spec fn wf(self) -> bool {
        &&& 1 <= self.next_id <= FIRST_CAPTURE_ID
        &&& 1 <= self.next_attachment
        &&& forall|i: int|
            0 <= i < self.sessions.len() ==> {
                &&& 1 <= (#[trigger] self.sessions[i]).id < self.next_id
                &&& self.sessions[i].attachment < self.next_attachment
                &&& self.sessions[i].live ==> self.sessions[i].idle_since is None
                &&& self.sessions[i].live ==> self.sessions[i].attached_before
            }
        &&& forall|i: int, j: int|
            0 <= i < j < self.sessions.len() ==> are_apart(
                #[trigger] self.sessions[i],
                #[trigger] self.sessions[j],
            )
    }

    /// There is a number left for one more session.
    pub open spec fn has_session_room(self) -> bool {
        self.next_id < FIRST_CAPTURE_ID
    }

    /// There is a number left for one more attachment.
    pub open spec fn has_attachment_room(self) -> bool {
        self.next_attachment < u64::MAX
    }

    /// There are numbers left for whatever a first line calls for: none for a
    /// handshake, those of a session, its name and its attachment for an
    /// anonymous stream.
    pub open spec fn has_room_for(self, line: Seq<u8>) -> bool {
        crate::proto::is_handshake(line) || (self.has_session_room() && self.has_attachment_room()
            && self.has_name_room())
    }

    /// There is a free name left for one more anonymous session.
    pub open spec fn has_name_room(self) -> bool {
        self.next_anon + self.sessions.len() < u64::MAX
    }

    /// The number that names the next anonymous session.
    pub open spec fn free_number(self) -> nat {
        choose|n: nat| is_first_free(self.sessions, self.next_anon as nat, n)
    }

    pub open spec fn find_name(self, name: Seq<char>) -> Option<int> {
        position(self.sessions, is_named(name))
    }

    pub open spec fn find_id(self, id: SessionId) -> Option<int> {
        position(self.sessions, has_id(id))
    }

    pub open spec fn with_session(self, s: SessionView) -> Registry {
        Registry { sessions: self.sessions.push(s), ..self }
    }

    pub open spec fn with_event(self, e: EventView) -> Registry {
        Registry { events: self.events.push(e), ..self }
    }

    /// The session at `i` is in demand again.
    pub open spec fn awaited(self, i: int) -> Registry {
        Registry {
            sessions: self.sessions.update(
                i,
                SessionView { idle_since: None, ..self.sessions[i] },
            ),
            ..self
        }
    }

    /// A connection that is no handshake is the stream of a new anonymous
    /// session, named after the next number whose name is free, and the line
    /// already read is part of it.
    pub open spec fn with_anonymous(self, line: Seq<u8>) -> Registry {
        let id = self.next_id;
        let name = anonymous_name(self.free_number());
        Registry {
            next_id: (self.next_id + 1) as u64,
            next_anon: (self.free_number() + 1) as u64,
            next_attachment: (self.next_attachment + 1) as u64,
            ..self.with_session(
                SessionView {
                    id,
                    name,
                    port: 0,
                    live: true,
                    attachment: self.next_attachment,
                    attached_before: true,
                    idle_since: None,
                },
            ).with_event(EventView::Opened { id, name, port: 0, kind: StreamKind::Tokens }).with_event(
                EventView::Attached { id, reattached: false },
            ).with_event(EventView::Bytes { id, data: line })
        }
    }

    /// A control connection sent its first line: what the server knows then,
    /// and what is to be done with the connection.
    pub open spec fn controlled(self, line: Seq<u8>) -> (Registry, ControlView) {
        match crate::proto::handshake(line) {
            Ok((kind, name)) => match self.find_name(name) {
                Some(i) => (
                    self.awaited(i),
                    ControlView::Answer(port_text(self.sessions[i].port)),
                ),
                None => (self, ControlView::BindPort { kind, name }),
            },
            Err(crate::proto::HelloFault::NotHello) => (
                self.with_anonymous(line),
                ControlView::Stream { id: self.next_id, attachment: self.next_attachment },
            ),
            Err(fault) => (self, ControlView::Answer(crate::proto::wire_text(fault))),
        }
    }

    /// A new session with a data port, idle until a client dials it.
    pub open spec fn opened(
        self,
        kind: StreamKind,
        name: Seq<char>,
        port: u16,
        now: u64,
    ) -> Registry {
        let id = self.next_id;
        Registry {
            next_id: (self.next_id + 1) as u64,
            ..self.with_session(
                SessionView {
                    id,
                    name,
                    port,
                    live: false,
                    attachment: 0,
                    attached_before: false,
                    idle_since: Some(now),
                },
            ).with_event(EventView::Opened { id, name, port, kind })
        }
    }

    /// The session at `i` gets a client.
    pub open spec fn attached(self, i: int) -> Registry {
        let s = self.sessions[i];
        Registry {
            next_attachment: (self.next_attachment + 1) as u64,
            sessions: self.sessions.update(
                i,
                SessionView {
                    live: true,
                    attachment: self.next_attachment,
                    attached_before: true,
                    idle_since: None,
                    ..s
                },
            ),
            ..self
        }.with_event(EventView::Attached { id: s.id, reattached: s.attached_before })
    }

    /// A connection came in on a session's data port: what the server knows
    /// then, and what is to be done with the connection. A session has one
    /// writer at a time; one whose writer has gone without being missed yet
    /// loses it first.
    pub open spec fn accepted(self, id: SessionId, writer_gone: bool) -> (Registry, AcceptView) {
        match self.find_id(id) {
            None => (self, AcceptView::Stop),
            Some(i) => if self.sessions[i].live && !writer_gone {
                (self, AcceptView::Refuse("ERR already attached"@))
            } else if self.sessions[i].live {
                (
                    self.with_event(EventView::Disconnected { id }).attached(i),
                    AcceptView::Attach { attachment: self.next_attachment },
                )
            } else {
                (
                    self.attached(i),
                    AcceptView::Attach { attachment: self.next_attachment },
                )
            },
        }
    }

    /// The connection of an attachment ended. One that another has taken the
    /// place of has no say any more.
    pub open spec fn detached(self, id: SessionId, attachment: u64, now: u64) -> Registry {
        match self.find_id(id) {
            None => self.with_event(EventView::Disconnected { id }),
            Some(i) => if self.sessions[i].live && self.sessions[i].attachment == attachment {
                Registry {
                    sessions: self.sessions.update(
                        i,
                        SessionView { live: false, idle_since: Some(now), ..self.sessions[i] },
                    ),
                    ..self
                }.with_event(EventView::Disconnected { id })
            } else {
                self
            },
        }
    }

    /// The sessions without a client for longer than `ttl` are gone, and an
    /// event says so for each.
    pub open spec fn reaped(self, now: u64, ttl: u64) -> Registry {
        Registry {
            sessions: select(self.sessions, is_kept(now, ttl)),
            events: self.events + closings(select(self.sessions, is_expired(now, ttl))),
            ..self
        }
    }

    /// A session is gone, client or not.
    pub open spec fn closed(self, id: SessionId) -> Registry {
        Registry { sessions: select(self.sessions, has_other_id(id)), ..self }
    }
}

proof fn lemma_position(s: Seq<SessionView>, p: spec_fn(SessionView) -> bool)
    ensures
        match position(s, p) {
            Some(i) => 0 <= i < s.len() && p(s[i]) && forall|j: int| 0 <= j < i ==> !p(s[j]),
            None => forall|j: int| 0 <= j < s.len() ==> !p(s[j]),
        },
    decreases s.len(),
{
    if s.len() > 0 {
        lemma_position(s.drop_last(), p);
        assert forall|j: int| 0 <= j < s.len() - 1 implies s.drop_last()[j] == s[j] by {}
    }
}

proof fn lemma_position_found(s: Seq<SessionView>, p: spec_fn(SessionView) -> bool, i: int)
    requires
        0 <= i < s.len(),
        p(s[i]),
        forall|j: int| 0 <= j < i ==> !p(s[j]),
    ensures
        position(s, p) == Some(i),
{
    lemma_position(s, p);
    let k = position(s, p)->Some_0;
    if k < i {
        assert(p(s[k]));
    } else if i < k {
        assert(p(s[i]));
    }
}

/// What is selected comes from the sequence, meets the condition, and keeps
/// what all pairs of it have in common.
proof fn lemma_select(s: Seq<SessionView>, keep: spec_fn(SessionView) -> bool)
    ensures
        select(s, keep).len() <= s.len(),
        forall|i: int|
            0 <= i < select(s, keep).len() ==> s.contains(#[trigger] select(s, keep)[i]) && keep(
                select(s, keep)[i],
            ),
        forall|i: int|
            0 <= i < s.len() && keep(#[trigger] s[i]) ==> select(s, keep).contains(s[i]),
        (forall|i: int, j: int|
            0 <= i < j < s.len() ==> are_apart(#[trigger] s[i], #[trigger] s[j])) ==> (forall|
            i: int,
            j: int,
        |
            0 <= i < j < select(s, keep).len() ==> are_apart(
                #[trigger] select(s, keep)[i],
                #[trigger] select(s, keep)[j],
            )),
    decreases s.len(),
{
    if s.len() > 0 {
        let init = s.drop_last();
        let part = select(init, keep);
        let out = select(s, keep);
        lemma_select(init, keep);
        assert forall|i: int| 0 <= i < out.len() implies s.contains(#[trigger] out[i]) && keep(
            out[i],
        ) by {
            if i < part.len() {
                assert(init.contains(part[i]));
                let k = choose|k: int| 0 <= k < init.len() && init[k] == part[i];
                assert(s[k] == out[i]);
            } else {
                assert(s[s.len() - 1] == out[i]);
            }
        }
        assert forall|i: int| 0 <= i < s.len() && keep(#[trigger] s[i]) implies out.contains(
            s[i],
        ) by {
            if i < s.len() - 1 {
                assert(init[i] == s[i]);
                assert(part.contains(s[i]));
                let k = choose|k: int| 0 <= k < part.len() && part[k] == s[i];
                assert(out[k] == s[i]);
            } else {
                assert(out[out.len() - 1] == s[i]);
            }
        }
        if forall|i: int, j: int|
            0 <= i < j < s.len() ==> are_apart(#[trigger] s[i], #[trigger] s[j]) {
            assert forall|i: int, j: int| 0 <= i < j < init.len() implies are_apart(
                #[trigger] init[i],
                #[trigger] init[j],
            ) by {
                assert(s[i] == init[i] && s[j] == init[j]);
            }
            assert forall|i: int, j: int| 0 <= i < j < out.len() implies are_apart(
                #[trigger] out[i],
                #[trigger] out[j],
            ) by {
                if j < part.len() {
                    assert(part[i] == out[i] && part[j] == out[j]);
                } else {
                    assert(init.contains(part[i]));
                    let k = choose|k: int| 0 <= k < init.len() && init[k] == part[i];
                    assert(s[k] == out[i]);
                    assert(s[s.len() - 1] == out[j]);
                }
            }
        }
    }
}

#[derive(Debug)]
struct Session {
    id: SessionId,
    name: String,
    port: u16,
    live: bool,
    attachment: u64,
    attached_before: bool,
    idle_since: Option<u64>,
}

impl View for Session {
    type V = SessionView;

    closed spec fn view(&self) -> SessionView {
        SessionView {
            id: self.id,
            name: self.name@,
            port: self.port,
            live: self.live,
            attachment: self.attachment,
            attached_before: self.attached_before,
            idle_since: self.idle_since,
        }
    }
}

spec fn session_views(sessions: Seq<Session>) -> Seq<SessionView> {
    sessions.map_values(|s: Session| s@)
}

/// The sessions of a console, and the events it has yet to hear of.
#[derive(Debug)]
pub struct Server {
    control_port: u16,
    sessions: Vec<Session>,
    events: Vec<ServerEvent>,
    next_id: u64,
    next_anon: u64,
    next_attachment: u64,
}

impl View for Server {
    type V = Registry;

    closed spec fn view(&self) -> Registry {
        Registry {
            control_port: self.control_port,
            sessions: session_views(self.sessions@),
            events: event_views(self.events@),
            next_id: self.next_id,
            next_anon: self.next_anon,
            next_attachment: self.next_attachment,
        }
    }
}

impl Server {
    /// A server whose control port is bound, with no session yet.
    pub fn bind(control_port: u16) -> (r: Server)
        ensures
            r@ == Registry::fresh(control_port),
            r@.wf(),
    {
        let r = Server {
            control_port,
            sessions: Vec::new(),
            events: Vec::new(),
            next_id: 1,
            next_anon: 1,
            next_attachment: 1,
        };
        assert(r@ =~= Registry::fresh(control_port));
        r
    }

    /// The port clients send `HELLO` to.
    #[must_use]
    pub fn control_port(&self) -> (r: u16)
        ensures
            r == self@.control_port,
    {
        self.control_port
    }

    /// The events nobody has taken yet, oldest first.
    #[must_use]
    pub fn events(&self) -> (r: &Vec<ServerEvent>)
        ensures
            event_views(r@) == self@.events,
    {
        &self.events
    }

    /// Takes the oldest event, if there is one.
    pub fn next_event(&mut self) -> (r: Option<ServerEvent>)
        ensures
            match r {
                Some(e) => {
                    &&& old(self)@.events.len() > 0
                    &&& e@ == old(self)@.events[0]
                    &&& final(self)@ == (Registry {
                        events: old(self)@.events.skip(1),
                        ..old(self)@
                    })
                },
                None => old(self)@.events.len() == 0 && final(self)@ == old(self)@,
            },
    {
        if self.events.len() == 0 {
            return None;
        }
        let e = self.events.remove(0);
        assert(event_views(self.events@) =~= old(self)@.events.skip(1));
        Some(e)
    }

    /// Whether there is a number left for one more session.
    pub fn has_session_room(&self) -> (r: bool)
        ensures
            r == self@.has_session_room(),
    {
        self.next_id < FIRST_CAPTURE_ID
    }

    /// Whether there is a number left for one more attachment.
    pub fn has_attachment_room(&self) -> (r: bool)
        ensures
            r == self@.has_attachment_room(),
    {
        self.next_attachment < u64::MAX
    }

    /// Whether there are numbers left for whatever a first line calls for.
    pub fn has_room_for(&self, line: &[u8]) -> (r: bool)
        ensures
            r == self@.has_room_for(line@),
    {
        is_hello(line) || (self.has_session_room() && self.has_attachment_room()
            && self.has_name_room())
    }

    /// Whether there is a free name left for one more anonymous session.
    pub fn has_name_room(&self) -> (r: bool)
        ensures
            r == self@.has_name_room(),
    {
        let n: u64 = self.sessions.len() as u64;
        self.next_anon < u64::MAX - n
    }

    /// Whether a session was opened under `name` by a handshake.
    pub fn has_session(&self, name: &str) -> (r: bool)
        ensures
            r == (self@.find_name(name@) is Some),
    {
        self.index_of_name(name).is_some()
    }

    /// Number of sessions with a live data socket.
    #[must_use]
    pub fn live_count(&self) -> (r: usize)
        ensures
            r == select(self@.sessions, is_live()).len(),
            r == self@.sessions.filter(|s: SessionView| s.live).len(),
    {
        let ghost all = self@.sessions;
        let mut n: usize = 0;
        let mut i: usize = 0;
        assert(all.take(0) =~= Seq::<SessionView>::empty());
        while i < self.sessions.len()
            invariant
                i <= self.sessions@.len(),
                n <= i,
                all == session_views(self.sessions@),
                n == select(all.take(i as int), is_live()).len(),
            decreases self.sessions@.len() - i,
        {
            assert(all.take(i + 1).drop_last() =~= all.take(i as int));
            assert(all.take(i + 1).last() == self.sessions@[i as int]@);
            if self.sessions[i].live {
                n += 1;
            }
            i += 1;
        }
        assert(all.take(i as int) =~= all);
        proof {
            lemma_select_is_filter(all, is_live(), |s: SessionView| s.live);
        }
        n
    }

    fn index_of_name(&self, name: &str) -> (r: Option<usize>)
        ensures
            match r {
                Some(i) => self@.find_name(name@) == Some(i as int) && i < self.sessions@.len(),
                None => self@.find_name(name@) is None,
            },
    {
        let ghost all = self@.sessions;
        let mut i: usize = 0;
        while i < self.sessions.len()
            invariant
                i <= self.sessions@.len(),
                all == session_views(self.sessions@),
                all == self@.sessions,
                forall|j: int| 0 <= j < i ==> !is_named(name@)(all[j]),
            decreases self.sessions@.len() - i,
        {
            assert(all[i as int] == self.sessions@[i as int]@);
            if self.sessions[i].port != 0 && same_text(self.sessions[i].name.as_str(), name) {
                proof {
                    lemma_position_found(all, is_named(name@), i as int);
                }
                return Some(i);
            }
            i += 1;
        }
        proof {
            lemma_position(all, is_named(name@));
        }
        None
    }

    fn index_of_id(&self, id: SessionId) -> (r: Option<usize>)
        ensures
            match r {
                Some(i) => self@.find_id(id) == Some(i as int) && i < self.sessions@.len(),
                None => self@.find_id(id) is None,
            },
    {
        let ghost all = self@.sessions;
        let mut i: usize = 0;
        while i < self.sessions.len()
            invariant
                i <= self.sessions@.len(),
                all == session_views(self.sessions@),
                all == self@.sessions,
                forall|j: int| 0 <= j < i ==> !has_id(id)(all[j]),
            decreases self.sessions@.len() - i,
        {
            assert(all[i as int] == self.sessions@[i as int]@);
            if self.sessions[i].id == id {
                proof {
                    lemma_position_found(all, has_id(id), i as int);
                }
                return Some(i);
            }
            i += 1;
        }
        proof {
            lemma_position(all, has_id(id));
        }
        None
    }

    fn send(&mut self, event: ServerEvent)
        ensures
            final(self)@ == old(self)@.with_event(event@),
            final(self).sessions == old(self).sessions,
    {
        self.events.push(event);
        assert(self@ =~= old(self)@.with_event(event@));
    }

    fn enter(&mut self, session: Session)
        ensures
            final(self)@ == old(self)@.with_session(session@),
    {
        let ghost v = session@;
        self.sessions.push(session);
        assert(session_views(self.sessions@) =~= old(self)@.sessions.push(v));
        assert(self@ =~= old(self)@.with_session(v));
    }

    /// Whether some session has the name of the `n`th anonymous one.
    fn is_taken(&self, n: u64) -> (r: bool)
        ensures
            r == is_taken(self@.sessions, n as nat),
    {
        let name = anonymous_text(n);
        let ghost all = self@.sessions;
        let mut i: usize = 0;
        while i < self.sessions.len()
            invariant
                i <= self.sessions@.len(),
                name@ == anonymous_name(n as nat),
                all == session_views(self.sessions@),
                forall|j: int|
                    0 <= j < i ==> (#[trigger] all[j]).name != anonymous_name(n as nat),
            decreases self.sessions@.len() - i,
        {
            assert(all[i as int] == self.sessions@[i as int]@);
            if same_text(self.sessions[i].name.as_str(), name.as_str()) {
                return true;
            }
            i += 1;
        }
        false
    }

    /// The number that names the next anonymous session.
    fn free_number(&self) -> (r: u64)
        requires
            self@.has_name_room(),
        ensures
            r == self@.free_number(),
            r < u64::MAX,
    {
        let ghost all = self@.sessions;
        let ghost from = self@.next_anon as nat;
        proof {
            lemma_free_number(self@);
        }
        let mut n: u64 = self.next_anon;
        while self.is_taken(n)
            invariant
                self@.has_name_room(),
                all == self@.sessions,
                from == self@.next_anon,
                from <= n <= self@.free_number() <= from + all.len(),
                is_first_free(all, from, self@.free_number()),
                forall|k: nat| from <= k < n ==> #[trigger] is_taken(all, k),
            decreases self@.free_number() - n,
        {
            n += 1;
        }
        n
    }

    /// Takes the first line of a control connection. A handshake for a known
    /// name is answered with that session's port, and one for a new name asks
    /// for a port to be bound; a handshake with something wrong in it is
    /// answered with what is wrong. A line that is no handshake belongs to an
    /// anonymous stream, text or not, and is part of it.
    pub fn handle_control(&mut self, line: &[u8]) -> (r: ControlReply)
        requires
            old(self)@.wf(),
            old(self)@.has_room_for(line@),
        ensures
            final(self)@.wf(),
            (final(self)@, r@) == old(self)@.controlled(line@),
    {
        match parse_handshake(line) {
            Ok((kind, name)) => {
                match self.index_of_name(name.as_str()) {
                    Some(i) => {
                        let port: u16 = self.sessions[i].port;
                        assert(self@.sessions[i as int] == self.sessions@[i as int]@);
                        self.sessions[i].idle_since = None;
                        assert(session_views(self.sessions@) =~= old(self)@.awaited(
                            i as int,
                        ).sessions);
                        assert(self@ =~= old(self)@.awaited(i as int));
                        ControlReply::Answer(port_reply(port))
                    },
                    None => ControlReply::BindPort { kind, name },
                }
            },
            Err(HelloError::NotHello) => self.open_anonymous(line),
            Err(e) => ControlReply::Answer(e.wire()),
        }
    }

    /// Opens an anonymous session for a stream that starts with `line`.
    fn open_anonymous(&mut self, line: &[u8]) -> (r: ControlReply)
        requires
            old(self)@.wf(),
            old(self)@.has_session_room(),
            old(self)@.has_attachment_room(),
            old(self)@.has_name_room(),
        ensures
            final(self)@.wf(),
            final(self)@ == old(self)@.with_anonymous(line@),
            r@ == (ControlView::Stream {
                id: old(self)@.next_id,
                attachment: old(self)@.next_attachment,
            }),
    {
        let id: u64 = self.next_id;
        let attachment: u64 = self.next_attachment;
        let number: u64 = self.free_number();
        let name = anonymous_text(number);
        self.next_id = id + 1;
        self.next_anon = number + 1;
        self.next_attachment = attachment + 1;
        let session = Session {
            id,
            name: name.clone(),
            port: 0,
            live: true,
            attachment,
            attached_before: true,
            idle_since: None,
        };
        let ghost before = self@;
        let ghost entered = session@;
        self.enter(session);
        proof {
            lemma_entering_keeps_order(old(self)@, before, entered);
        }
        self.send(ServerEvent::Opened { id, name, port: 0, kind: StreamKind::Tokens });
        self.send(ServerEvent::Attached { id, reattached: false });
        let mut data: Vec<u8> = Vec::new();
        data.extend_from_slice(line);
        assert(data@ =~= line@);
        self.send(ServerEvent::Bytes { id, data });
        assert(self@ =~= old(self)@.with_anonymous(line@));
        ControlReply::Stream { id, attachment }
    }

    /// Opens a session under a new name on a data port that was bound for it,
    /// and returns its id and the answer to its handshake.
    pub fn open_session(&mut self, kind: StreamKind, name: String, port: u16, now: u64) -> (r: (
        SessionId,
        String,
    ))
        requires
            old(self)@.wf(),
            old(self)@.has_session_room(),
            old(self)@.find_name(name@) is None,
            port != 0,
        ensures
            final(self)@.wf(),
            final(self)@ == old(self)@.opened(kind, name@, port, now),
            r.0 == old(self)@.next_id,
            r.1@ == port_text(port),
            r.1@ == "PORT "@ + crate::text::decimal(port as nat),
    {
        let id: u64 = self.next_id;
        self.next_id = id + 1;
        let session = Session {
            id,
            name: name.clone(),
            port,
            live: false,
            attachment: 0,
            attached_before: false,
            idle_since: Some(now),
        };
        let ghost before = self@;
        let ghost entered = session@;
        self.enter(session);
        proof {
            lemma_position(before.sessions, is_named(name@));
            assert forall|i: int| 0 <= i < before.sessions.len() implies (
            #[trigger] before.sessions[i]).name != entered.name || before.sessions[i].port == 0 by {
                assert(!is_named(name@)(before.sessions[i]));
            }
            lemma_entering_keeps_order(old(self)@, before, entered);
        }
        self.send(ServerEvent::Opened { id, name, port, kind });
        assert(self@ =~= old(self)@.opened(kind, entered.name, port, now));
        (id, port_reply(port))
    }

    /// Gives the session at `i` a client.
    fn attach(&mut self, i: usize) -> (r: u64)
        requires
            old(self)@.wf(),
            old(self)@.has_attachment_room(),
            i < old(self).sessions@.len(),
        ensures
            final(self)@.wf(),
            final(self)@ == old(self)@.attached(i as int),
            r == old(self)@.next_attachment,
    {
        let attachment: u64 = self.next_attachment;
        self.next_attachment = attachment + 1;
        assert(self@.sessions[i as int] == self.sessions@[i as int]@);
        let id: u64 = self.sessions[i].id;
        let reattached: bool = self.sessions[i].attached_before;
        self.sessions[i].live = true;
        self.sessions[i].attachment = attachment;
        self.sessions[i].attached_before = true;
        self.sessions[i].idle_since = None;
        self.send(ServerEvent::Attached { id, reattached });
        assert(self@.sessions =~= old(self)@.attached(i as int).sessions);
        assert(self@ =~= old(self)@.attached(i as int));
        attachment
    }

    /// Takes a connection on a session's data port. A session has one writer:
    /// while it has one, another is refused, unless the one it has is known
    /// to be gone, in which case the newcomer takes its place.
    pub fn accept(&mut self, id: SessionId, writer_gone: bool) -> (r: AcceptReply)
        requires
            old(self)@.wf(),
            old(self)@.has_attachment_room(),
        ensures
            final(self)@.wf(),
            (final(self)@, r@) == old(self)@.accepted(id, writer_gone),
    {
        match self.index_of_id(id) {
            None => AcceptReply::Stop,
            Some(i) => {
                assert(self@.sessions[i as int] == self.sessions@[i as int]@);
                let live: bool = self.sessions[i].live;
                if live && !writer_gone {
                    return AcceptReply::Refuse(String::from_str("ERR already attached"));
                }
                if live {
                    self.send(ServerEvent::Disconnected { id });
                }
                let attachment: u64 = self.attach(i);
                AcceptReply::Attach { attachment }
            },
        }
    }

    /// Passes on bytes read from a session's stream.
    pub fn receive(&mut self, id: SessionId, data: Vec<u8>)
        requires
            old(self)@.wf(),
        ensures
            final(self)@.wf(),
            final(self)@ == old(self)@.with_event(EventView::Bytes { id, data: data@ }),
            final(self)@.events == old(self)@.events.push(EventView::Bytes { id, data: data@ }),
            final(self)@.sessions == old(self)@.sessions,
    {
        self.send(ServerEvent::Bytes { id, data });
    }

    /// Ends an attachment, however its connection ended. The session stays,
    /// idle from now on. An attachment that a newer one has taken the place of
    /// ends without a trace.
    pub fn detach(&mut self, id: SessionId, attachment: u64, now: u64)
        requires
            old(self)@.wf(),
        ensures
            final(self)@.wf(),
            final(self)@ == old(self)@.detached(id, attachment, now),
    {
        match self.index_of_id(id) {
            None => {
                self.send(ServerEvent::Disconnected { id });
            },
            Some(i) => {
                assert(self@.sessions[i as int] == self.sessions@[i as int]@);
                if self.sessions[i].live && self.sessions[i].attachment == attachment {
                    self.sessions[i].live = false;
                    self.sessions[i].idle_since = Some(now);
                    assert(session_views(self.sessions@) =~= old(self)@.detached(
                        id,
                        attachment,
                        now,
                    ).sessions);
                    self.send(ServerEvent::Disconnected { id });
                    assert(self@ =~= old(self)@.detached(id, attachment, now));
                }
            },
        }
    }

    /// Drops the sessions that have been without a client for longer than
    /// `ttl`, with an event for each, and returns the data ports they leave
    /// behind: whoever listens on one of them is to stop.
    ///
    /// A session with a client, or one that has been asked for again since it
    /// lost its client, never expires.
    pub fn reap(&mut self, now: u64, ttl: u64) -> (r: Vec<u16>)
        requires
            old(self)@.wf(),
        ensures
            final(self)@.wf(),
            final(self)@ == old(self)@.reaped(now, ttl),
            r@ == listened_ports(select(old(self)@.sessions, is_expired(now, ttl))),
            r@ == old(self)@.sessions.filter(
                |s: SessionView|
                    !s.live && s.port != 0 && (s.idle_since matches Some(since) && now - since
                        > ttl),
            ).map_values(|s: SessionView| s.port),
    {
        let ghost all = self@.sessions;
        let ghost events = self@.events;
        let ghost keep = is_kept(now, ttl);
        let ghost gone = is_expired(now, ttl);
        let mut ports: Vec<u16> = Vec::new();
        let mut before: Vec<Session> = Vec::new();
        std::mem::swap(&mut before, &mut self.sessions);
        let ghost mut done: int = 0;
        assert(all.take(0) =~= Seq::<SessionView>::empty());
        assert(events + closings(Seq::<SessionView>::empty()) =~= events);
        while before.len() > 0
            invariant
                0 <= done <= all.len(),
                keep == is_kept(now, ttl),
                gone == is_expired(now, ttl),
                session_views(before@) == all.skip(done),
                ports@ == listened_ports(select(all.take(done), gone)),
                self@ == (Registry {
                    sessions: select(all.take(done), keep),
                    events: events + closings(select(all.take(done), gone)),
                    ..old(self)@
                }),
            decreases before@.len(),
        {
            let ghost rest = session_views(before@);
            let s = before.remove(0);
            assert(rest[0] == s@);
            assert(rest[0] == all.skip(done)[0]);
            assert(session_views(before@) =~= rest.skip(1));
            assert(rest.skip(1) =~= all.skip(done + 1));
            assert(all.take(done + 1).drop_last() =~= all.take(done));
            let ghost v = s@;
            let ghost expired = select(all.take(done), gone);
            let over: bool = match s.idle_since {
                Some(since) => !s.live && now > since && now - since > ttl,
                None => false,
            };
            if over {
                if s.port != 0 {
                    ports.push(s.port);
                }
                self.send(ServerEvent::Closed { id: s.id });
                assert(expired.push(v).drop_last() =~= expired);
                assert(events + closings(expired.push(v)) =~= (events + closings(expired)).push(
                    EventView::Closed { id: v.id },
                ));
            } else {
                let ghost kept = session_views(self.sessions@);
                self.sessions.push(s);
                assert(session_views(self.sessions@) =~= kept.push(v));
            }
            proof {
                done = done + 1;
                assert(self@ =~= (Registry {
                    sessions: select(all.take(done), keep),
                    events: events + closings(select(all.take(done), gone)),
                    ..old(self)@
                }));
            }
        }
        assert(all.take(done) =~= all);
        proof {
            lemma_selecting_keeps_order(old(self)@, self@, keep);
            lemma_ports_left_behind(all, now, ttl);
        }
        ports
    }

    /// Drops a session, client or not, because its window was closed. Returns
    /// the data port it leaves behind, if it had one: whoever listens on it is
    /// to stop.
    pub fn close_session(&mut self, id: SessionId) -> (r: Option<u16>)
        requires
            old(self)@.wf(),
        ensures
            final(self)@.wf(),
            final(self)@ == old(self)@.closed(id),
            r == match old(self)@.find_id(id) {
                Some(i) => if old(self)@.sessions[i].port == 0 {
                    None
                } else {
                    Some(old(self)@.sessions[i].port)
                },
                None => None,
            },
            forall|i: int|
                0 <= i < old(self)@.sessions.len() && (#[trigger] old(self)@.sessions[i]).id == id
                    ==> r == (if old(self)@.sessions[i].port == 0 {
                    None
                } else {
                    Some(old(self)@.sessions[i].port)
                }),
            (forall|i: int|
                0 <= i < old(self)@.sessions.len() ==> (#[trigger] old(self)@.sessions[i]).id != id)
                ==> r is None,
    {
        let ghost all = self@.sessions;
        match self.index_of_id(id) {
            None => {
                proof {
                    lemma_position(all, has_id(id));
                    lemma_select_all(all, has_other_id(id));
                    assert(self@ =~= old(self)@.closed(id));
                    assert forall|j: int| 0 <= j < all.len() implies (#[trigger] all[j]).id
                        != id by {
                        assert(!has_id(id)(all[j]));
                    }
                }
                None
            },
            Some(i) => {
                proof {
                    lemma_position(all, has_id(id));
                    lemma_select_but_one(all, has_other_id(id), i as int);
                    assert(all[i as int].id == id);
                    assert forall|j: int| 0 <= j < all.len() && (#[trigger] all[j]).id
                        == id implies j == i by {
                        if j < i {
                            assert(are_apart(all[j], all[i as int]));
                        } else if i < j {
                            assert(are_apart(all[i as int], all[j]));
                        }
                    }
                }
                let s = self.sessions.remove(i);
                assert(s@ == all[i as int]);
                assert(session_views(self.sessions@) =~= all.remove(i as int));
                assert(self@ =~= old(self)@.closed(id));
                proof {
                    lemma_selecting_keeps_order(old(self)@, self@, has_other_id(id));
                }
                if s.port == 0 {
                    None
                } else {
                    Some(s.port)
                }
            },
        }
    }
}

proof fn lemma_select_all(s: Seq<SessionView>, keep: spec_fn(SessionView) -> bool)
    requires
        forall|i: int| 0 <= i < s.len() ==> keep(#[trigger] s[i]),
    ensures
        select(s, keep) == s,
    decreases s.len(),
{
    if s.len() > 0 {
        assert forall|i: int| 0 <= i < s.len() - 1 implies keep(#[trigger] s.drop_last()[i]) by {
            assert(keep(s[i]));
        }
        lemma_select_all(s.drop_last(), keep);
        assert(keep(s[s.len() - 1]));
        assert(s.drop_last().push(s.last()) =~= s);
    }
}

proof fn lemma_select_but_one(s: Seq<SessionView>, keep: spec_fn(SessionView) -> bool, k: int)
    requires
        0 <= k < s.len(),
        !keep(s[k]),
        forall|i: int| 0 <= i < s.len() && i != k ==> keep(#[trigger] s[i]),
    ensures
        select(s, keep) == s.remove(k),
    decreases s.len(),
{
    let init = s.drop_last();
    assert forall|i: int| 0 <= i < init.len() && i != k implies keep(#[trigger] init[i]) by {
        assert(keep(s[i]));
    }
    if k == s.len() - 1 {
        lemma_select_all(init, keep);
        assert(s.remove(k) =~= init);
    } else {
        assert(init[k] == s[k]);
        lemma_select_but_one(init, keep, k);
        assert(keep(s[s.len() - 1]));
        assert(s.remove(k) =~= init.remove(k).push(s.last()));
    }
}

/// Dropping sessions keeps the books in order.
proof fn lemma_selecting_keeps_order(
    old_books: Registry,
    books: Registry,
    keep: spec_fn(SessionView) -> bool,
)
    requires
        old_books.wf(),
        books.sessions == select(old_books.sessions, keep),
        books.next_id == old_books.next_id,
        books.next_attachment == old_books.next_attachment,
    ensures
        books.wf(),
{
    lemma_select(old_books.sessions, keep);
    assert forall|i: int| 0 <= i < books.sessions.len() implies {
        &&& 1 <= (#[trigger] books.sessions[i]).id < books.next_id
        &&& books.sessions[i].attachment < books.next_attachment
        &&& books.sessions[i].live ==> books.sessions[i].idle_since is None
            && books.sessions[i].attached_before
    } by {
        assert(old_books.sessions.contains(books.sessions[i]));
    }
}

/// The name of the `n`th anonymous session.
fn anonymous_text(n: u64) -> (r: String)
    ensures
        r@ == anonymous_name(n as nat),
{
    let mut name: String = String::from_str("anon-");
    name.append(decimal_text(n).as_str());
    name
}

/// The answer to a handshake that has a data port.
fn port_reply(port: u16) -> (r: String)
    ensures
        r@ == port_text(port),
{
    let mut line: String = String::from_str("PORT ");
    line.append(decimal_text(port as u64).as_str());
    line
}

/// How long a newcomer on a data port waits for the end of the writer before
/// it to be noticed, in nanoseconds: a client that closes its connection and
/// dials again at once may be there first.
pub const REDIAL_GRACE: u64 = 100_000_000;

/// Whether a connection that got `reply`, `waited` nanoseconds after it came
/// in, is to be offered again rather than refused.
pub fn is_worth_waiting(reply: &AcceptReply, waited: u64) -> (r: bool)
    ensures
        r == (reply@ is Refuse && waited < REDIAL_GRACE),
        r == (reply@ is Refuse && waited < 100 * 1_000_000),
{
    match reply {
        AcceptReply::Refuse(_) => waited < REDIAL_GRACE,
        _ => false,
    }
}

/// The answer to a handshake for which no data port could be bound.
pub fn no_port_reply() -> (r: String)
    ensures
        r@ == "ERR no port"@,
{
    String::from_str("ERR no port")
}

/// Entering a session with a new id, and a new name if it has a data port,
/// keeps the books in order.
proof fn lemma_entering_keeps_order(old_books: Registry, books: Registry, s: SessionView)
    requires
        old_books.wf(),
        books.sessions == old_books.sessions,
        old_books.next_id < books.next_id <= FIRST_CAPTURE_ID,
        old_books.next_attachment <= books.next_attachment,
        old_books.next_id <= s.id < books.next_id,
        s.attachment < books.next_attachment,
        s.live ==> s.idle_since is None && s.attached_before,
        s.port == 0 || forall|i: int|
            0 <= i < books.sessions.len() ==> (#[trigger] books.sessions[i]).name != s.name
                || books.sessions[i].port == 0,
    ensures
        books.with_session(s).wf(),
{
    let all = books.with_session(s).sessions;
    let n = books.sessions.len() as int;
    assert forall|i: int, j: int| 0 <= i < j < all.len() implies are_apart(
        #[trigger] all[i],
        #[trigger] all[j],
    ) by {
        assert(all[i] == books.sessions[i]);
        if j < n {
            assert(all[j] == books.sessions[j]);
        }
    }
}

/// Different numbers name different sessions.
proof fn lemma_anonymous_names_differ(a: nat, b: nat)
    requires
        anonymous_name(a) == anonymous_name(b),
    ensures
        a == b,
{
    let n = "anon-"@.len() as int;
    assert(anonymous_name(a).skip(n) =~= crate::text::decimal(a));
    assert(anonymous_name(b).skip(n) =~= crate::text::decimal(b));
    crate::text::lemma_decimal_round_trip(a);
    crate::text::lemma_decimal_round_trip(b);
}

/// Sessions cannot take more names than there are sessions.
proof fn lemma_some_number_is_free(s: Seq<SessionView>, from: nat) -> (n: nat)
    ensures
        from <= n <= from + s.len(),
        !is_taken(s, n),
    decreases s.len(),
{
    if is_taken(s, from) {
        let i = choose|i: int|
            0 <= i < s.len() && (#[trigger] s[i]).name == anonymous_name(from);
        let rest = s.remove(i);
        let n = lemma_some_number_is_free(rest, from + 1);
        if is_taken(s, n) {
            let j = choose|j: int|
                0 <= j < s.len() && (#[trigger] s[j]).name == anonymous_name(n);
            if j == i {
                lemma_anonymous_names_differ(n, from);
            } else if j < i {
                assert(rest[j] == s[j]);
            } else {
                assert(rest[j - 1] == s[j]);
            }
        }
        n
    } else {
        from
    }
}

proof fn lemma_first_free(s: Seq<SessionView>, from: nat, bound: nat) -> (n: nat)
    requires
        from <= bound,
        !is_taken(s, bound),
    ensures
        is_first_free(s, from, n),
        n <= bound,
    decreases bound - from,
{
    if is_taken(s, from) {
        lemma_first_free(s, from + 1, bound)
    } else {
        from
    }
}

/// The number that names the next anonymous session is the first from the
/// count on whose name no session has, and it is not far: each session is in
/// the way once at most.
pub proof fn lemma_free_number(books: Registry)
    ensures
        is_first_free(books.sessions, books.next_anon as nat, books.free_number()),
        books.free_number() <= books.next_anon + books.sessions.len(),
{
    let from = books.next_anon as nat;
    let free = lemma_some_number_is_free(books.sessions, from);
    let n = lemma_first_free(books.sessions, from, free);
    let m = books.free_number();
    assert(is_first_free(books.sessions, from, m));
    if n < m {
        assert(is_taken(books.sessions, n));
    } else if m < n {
        assert(is_taken(books.sessions, m));
    }
}

/// A known name keeps its port: a handshake for it is answered with the port
/// of its session, tells nobody, opens nothing, and leaves the session as it
/// was but for one thing: it is not idle any more.
pub proof fn lemma_known_name_keeps_its_port(
    books: Registry,
    line: Seq<u8>,
    kind: StreamKind,
    i: int,
)
    requires
        books.wf(),
        0 <= i < books.sessions.len(),
        books.sessions[i].port != 0,
        crate::proto::handshake(line) == Ok::<_, crate::proto::HelloFault>(
            (kind, books.sessions[i].name),
        ),
    ensures
        books.controlled(line).1 == ControlView::Answer(port_text(books.sessions[i].port)),
        books.controlled(line).1 == ControlView::Answer(
            "PORT "@ + crate::text::decimal(books.sessions[i].port as nat),
        ),
        books.controlled(line).0 == books.awaited(i),
        books.controlled(line).0 == (Registry {
            sessions: books.sessions.update(
                i,
                SessionView { idle_since: None, ..books.sessions[i] },
            ),
            ..books
        }),
        books.controlled(line).0.events == books.events,
        books.controlled(line).0.sessions.len() == books.sessions.len(),
        books.controlled(line).0.sessions[i] == (SessionView {
            idle_since: None,
            ..books.sessions[i]
        }),
{
    lemma_position_found(books.sessions, is_named(books.sessions[i].name), i);
}

/// A new name gets a data port: a handshake for a name that no session was
/// opened under asks for a port and changes nothing, and the session opened
/// with that port is the one that every later handshake for the name is
/// answered with. An anonymous session that happens to have the name is in
/// nobody's way.
pub proof fn lemma_new_name_gets_a_port(
    books: Registry,
    line: Seq<u8>,
    kind: StreamKind,
    name: Seq<char>,
    port: u16,
    now: u64,
)
    requires
        books.wf(),
        books.has_session_room(),
        port != 0,
        crate::proto::handshake(line) == Ok::<_, crate::proto::HelloFault>((kind, name)),
        forall|i: int|
            0 <= i < books.sessions.len() ==> (#[trigger] books.sessions[i]).name != name
                || books.sessions[i].port == 0,
    ensures
        books.controlled(line) == (books, ControlView::BindPort { kind, name }),
        ({
            let after = books.opened(kind, name, port, now);
            &&& after.wf()
            &&& forall|i: int|
                0 <= i < books.sessions.len() ==> #[trigger] after.sessions[i]
                    == books.sessions[i]
            &&& after.controlled(line).1 == ControlView::Answer(port_text(port))
            &&& port_text(port) == "PORT "@ + crate::text::decimal(port as nat)
        }),
{
    lemma_position(books.sessions, is_named(name));
    let after = books.opened(kind, name, port, now);
    let n = books.sessions.len() as int;
    lemma_entering_keeps_order(
        books,
        Registry { next_id: (books.next_id + 1) as u64, ..books },
        after.sessions[n],
    );
    assert forall|j: int| 0 <= j < n implies !is_named(name)(after.sessions[j]) by {
        assert(after.sessions[j] == books.sessions[j]);
    }
    lemma_position_found(after.sessions, is_named(name), n);
}

/// No handshake is ever answered with a port that nobody listens on.
pub proof fn lemma_answered_port_is_open(books: Registry, line: Seq<u8>)
    requires
        crate::proto::handshake(line) is Ok,
        books.controlled(line).1 is Answer,
    ensures
        exists|i: int|
            0 <= i < books.sessions.len() && (#[trigger] books.sessions[i]).port != 0
                && books.controlled(line).1 == ControlView::Answer(
                port_text(books.sessions[i].port),
            ),
{
    let name = crate::proto::handshake(line)->Ok_0.1;
    lemma_position(books.sessions, is_named(name));
}

/// A session with a client, or one that has been asked for again, is never
/// reaped, however long it takes.
pub proof fn lemma_session_in_demand_is_never_reaped(
    books: Registry,
    i: int,
    now: u64,
    ttl: u64,
)
    requires
        books.wf(),
        0 <= i < books.sessions.len(),
        books.sessions[i].live || books.sessions[i].idle_since is None,
    ensures
        books.reaped(now, ttl).sessions.contains(books.sessions[i]),
{
    lemma_select(books.sessions, is_kept(now, ttl));
    assert(is_kept(now, ttl)(books.sessions[i]));
}

/// A session that has had no client for longer than the limit is reaped: it is
/// gone, and an event says so.
pub proof fn lemma_idle_session_is_reaped(books: Registry, i: int, now: u64, ttl: u64)
    requires
        books.wf(),
        0 <= i < books.sessions.len(),
        books.sessions[i].expired(now, ttl),
    ensures
        !books.reaped(now, ttl).sessions.contains(books.sessions[i]),
        books.reaped(now, ttl).find_id(books.sessions[i].id) is None,
        books.reaped(now, ttl).events.contains(EventView::Closed { id: books.sessions[i].id }),
{
    let s = books.sessions[i];
    let after = books.reaped(now, ttl);
    lemma_select(books.sessions, is_kept(now, ttl));
    lemma_select(books.sessions, is_expired(now, ttl));
    if after.sessions.contains(s) {
        let k = choose|k: int| 0 <= k < after.sessions.len() && after.sessions[k] == s;
        assert(is_kept(now, ttl)(after.sessions[k]));
    }
    lemma_position(after.sessions, has_id(s.id));
    if after.find_id(s.id) is Some {
        let k = after.find_id(s.id)->Some_0;
        assert(books.sessions.contains(after.sessions[k]));
        let m = choose|m: int| 0 <= m < books.sessions.len() && books.sessions[m]
            == after.sessions[k];
        assert(m == i);
    }
    let expired = select(books.sessions, is_expired(now, ttl));
    assert(is_expired(now, ttl)(s));
    assert(expired.contains(s));
    let k = choose|k: int| 0 <= k < expired.len() && expired[k] == s;
    assert(closings(expired)[k] == EventView::Closed { id: s.id });
    assert(after.events[books.events.len() + k] == EventView::Closed { id: s.id });
}

/// A session has one writer: while it has one that is not gone, another is
/// refused and nothing changes.
pub proof fn lemma_second_writer_is_refused(books: Registry, i: int)
    requires
        books.wf(),
        0 <= i < books.sessions.len(),
        books.sessions[i].live,
    ensures
        books.accepted(books.sessions[i].id, false) == (
            books,
            AcceptView::Refuse("ERR already attached"@),
        ),
{
    lemma_position_found(books.sessions, has_id(books.sessions[i].id), i);
}

/// A client that drops and dials again rejoins its session: same id, same
/// name, same port, and the attachment counts as a return.
pub proof fn lemma_client_rejoins_its_session(books: Registry, i: int, now: u64)
    requires
        books.wf(),
        0 <= i < books.sessions.len(),
        books.sessions[i].live,
    ensures
        ({
            let s = books.sessions[i];
            let dropped = books.detached(s.id, s.attachment, now);
            let (rejoined, reply) = dropped.accepted(s.id, false);
            &&& dropped.sessions[i] == SessionView { live: false, idle_since: Some(now), ..s }
            &&& dropped.events == books.events.push(EventView::Disconnected { id: s.id })
            &&& reply == AcceptView::Attach { attachment: books.next_attachment }
            &&& rejoined.sessions[i] == SessionView { attachment: books.next_attachment, ..s }
            &&& rejoined.events == dropped.events.push(
                EventView::Attached { id: s.id, reattached: true },
            )
        }),
{
    let s = books.sessions[i];
    lemma_position_found(books.sessions, has_id(s.id), i);
    let dropped = books.detached(s.id, s.attachment, now);
    lemma_position_found(dropped.sessions, has_id(s.id), i);
}

/// An attachment that another has taken the place of cannot tear the newer
/// one down: its end changes nothing.
pub proof fn lemma_stale_end_changes_nothing(books: Registry, i: int, now: u64)
    requires
        books.wf(),
        0 <= i < books.sessions.len(),
        books.sessions[i].live,
    ensures
        ({
            let s = books.sessions[i];
            let taken_over = books.accepted(s.id, true).0;
            &&& taken_over.events == books.events.push(
                EventView::Disconnected { id: s.id },
            ).push(EventView::Attached { id: s.id, reattached: s.attached_before })
            &&& taken_over.detached(s.id, s.attachment, now) == taken_over
        }),
{
    let s = books.sessions[i];
    lemma_position_found(books.sessions, has_id(s.id), i);
    let taken_over = books.accepted(s.id, true).0;
    lemma_position_found(taken_over.sessions, has_id(s.id), i);
}

/// A closed session is gone under its id and its name: the port stops, and a
/// handshake for the name of one that had a port asks for a new one.
pub proof fn lemma_closed_session_is_forgotten(
    books: Registry,
    i: int,
    line: Seq<u8>,
    kind: StreamKind,
)
    requires
        books.wf(),
        0 <= i < books.sessions.len(),
        crate::proto::handshake(line) == Ok::<_, crate::proto::HelloFault>(
            (kind, books.sessions[i].name),
        ),
    ensures
        ({
            let s = books.sessions[i];
            let after = books.closed(s.id);
            &&& after.accepted(s.id, false) == (after, AcceptView::Stop)
            &&& s.port != 0 ==> after.controlled(line) == (
                after,
                ControlView::BindPort { kind, name: s.name },
            )
            &&& after.events == books.events
        }),
{
    let s = books.sessions[i];
    let after = books.closed(s.id);
    lemma_select(books.sessions, has_other_id(s.id));
    lemma_position(after.sessions, has_id(s.id));
    if after.find_id(s.id) is Some {
        let k = after.find_id(s.id)->Some_0;
        assert(has_other_id(s.id)(after.sessions[k]));
    }
    lemma_position(after.sessions, is_named(s.name));
    if s.port != 0 && after.find_name(s.name) is Some {
        let k = after.find_name(s.name)->Some_0;
        assert(books.sessions.contains(after.sessions[k]));
        let m = choose|m: int| 0 <= m < books.sessions.len() && books.sessions[m]
            == after.sessions[k];
        assert(has_other_id(s.id)(after.sessions[k]));
        assert(m == i);
    }
}

/// A handshake with something wrong in it is answered with what is wrong, and
/// changes nothing.
pub proof fn lemma_refused_handshake_changes_nothing(
    books: Registry,
    line: Seq<u8>,
    fault: crate::proto::HelloFault,
)
    requires
        crate::proto::handshake(line) == Err::<(StreamKind, Seq<char>), _>(fault),
        fault !is NotHello,
    ensures
        books.controlled(line) == (
            books,
            ControlView::Answer(crate::proto::wire_text(fault)),
        ),
{
}

/// The line that turned out to be no handshake is not lost, whatever bytes it
/// holds: it is the first of the stream, which has a session of its own with a
/// client from the start. No other session is touched, and none has the name
/// of the new one.
pub proof fn lemma_anonymous_stream_keeps_its_first_line(books: Registry, line: Seq<u8>)
    requires
        books.wf(),
        books.has_room_for(line),
        !crate::proto::is_handshake(line),
    ensures
        ({
            let (after, reply) = books.controlled(line);
            let id = books.next_id;
            let name = anonymous_name(books.free_number());
            &&& reply == ControlView::Stream { id, attachment: books.next_attachment }
            &&& after.sessions.drop_last() == books.sessions
            &&& after.sessions.last().id == id && after.sessions.last().live
            &&& after.sessions.last().name == name
            &&& forall|i: int|
                0 <= i < books.sessions.len() ==> (#[trigger] books.sessions[i]).name != name
            &&& after.events == books.events + seq![
                EventView::Opened { id, name, port: 0, kind: StreamKind::Tokens },
                EventView::Attached { id, reattached: false },
                EventView::Bytes { id, data: line },
            ]
        }),
{
    let id = books.next_id;
    let name = anonymous_name(books.free_number());
    lemma_free_number(books);
    let after = books.controlled(line).0;
    assert(after.sessions.drop_last() =~= books.sessions);
    assert(after.events =~= books.events + seq![
        EventView::Opened { id, name, port: 0, kind: StreamKind::Tokens },
        EventView::Attached { id, reattached: false },
        EventView::Bytes { id, data: line },
    ]);
    assert forall|i: int| 0 <= i < books.sessions.len() implies (
    #[trigger] books.sessions[i]).name != name by {
        assert(!is_taken(books.sessions, books.free_number()));
    }
}

/// No session has an id that a capture window could have.
pub proof fn lemma_sessions_stay_below_captures(books: Registry, i: int)
    requires
        books.wf(),
        0 <= i < books.sessions.len(),
    ensures
        books.sessions[i].id < FIRST_CAPTURE_ID,
{
}

/// Selecting is filtering.
proof fn lemma_select_is_filter(
    s: Seq<SessionView>,
    keep: spec_fn(SessionView) -> bool,
    same: spec_fn(SessionView) -> bool,
)
    requires
        forall|x: SessionView| #[trigger] keep(x) == same(x),
    ensures
        select(s, keep) == s.filter(same),
    decreases s.len(),
{
    reveal(Seq::filter);
    if s.len() > 0 {
        lemma_select_is_filter(s.drop_last(), keep, same);
        assert(keep(s.last()) == same(s.last()));
    }
}

proof fn lemma_ports_left_behind(s: Seq<SessionView>, now: u64, ttl: u64)
    ensures
        listened_ports(select(s, is_expired(now, ttl))) == s.filter(
            |s: SessionView|
                !s.live && s.port != 0 && (s.idle_since matches Some(since) && now - since > ttl),
        ).map_values(|s: SessionView| s.port),
    decreases s.len(),
{
    reveal(Seq::filter);
    let leaves = |s: SessionView|
        !s.live && s.port != 0 && (s.idle_since matches Some(since) && now - since > ttl);
    let port = |s: SessionView| s.port;
    if s.len() == 0 {
        assert(s.filter(leaves).map_values(port) =~= Seq::<u16>::empty());
    } else {
        let init = s.drop_last();
        lemma_ports_left_behind(init, now, ttl);
        let gone = select(init, is_expired(now, ttl));
        assert(gone.push(s.last()).drop_last() =~= gone);
        assert(init.filter(leaves).push(s.last()).map_values(port) =~= init.filter(
            leaves,
        ).map_values(port).push(s.last().port));
    }
}

/// What a sweep does, session by session: dropped are those that have no
/// client and lost it, or never had one, more than `ttl` ago, with a `Closed`
/// event for each; all others stay, and nothing else changes.
pub proof fn lemma_what_a_sweep_drops(books: Registry, now: u64, ttl: u64)
    ensures
        books.reaped(now, ttl) == (Registry {
            sessions: books.sessions.filter(
                |s: SessionView|
                    s.live || s.idle_since is None || now - s.idle_since->Some_0 <= ttl,
            ),
            events: books.events + books.sessions.filter(
                |s: SessionView|
                    !s.live && s.idle_since is Some && now - s.idle_since->Some_0 > ttl,
            ).map_values(|s: SessionView| EventView::Closed { id: s.id }),
            ..books
        }),
{
    lemma_select_is_filter(
        books.sessions,
        is_kept(now, ttl),
        |s: SessionView| s.live || s.idle_since is None || now - s.idle_since->Some_0 <= ttl,
    );
    lemma_select_is_filter(
        books.sessions,
        is_expired(now, ttl),
        |s: SessionView| !s.live && s.idle_since is Some && now - s.idle_since->Some_0 > ttl,
    );
    let gone = select(books.sessions, is_expired(now, ttl));
    assert(closings(gone) =~= gone.map_values(|s: SessionView| EventView::Closed { id: s.id }));
}

proof fn lemma_idle_session_is_dropped(books: Registry, i: int, since: u64, now: u64, ttl: u64)
    requires
        books.wf(),
        0 <= i < books.sessions.len(),
        !books.sessions[i].live,
        books.sessions[i].idle_since == Some(since),
        now - since > ttl,
    ensures
        ({
            let s = books.sessions[i];
            let after = books.reaped(now, ttl);
            &&& forall|k: int|
                0 <= k < after.sessions.len() ==> (#[trigger] after.sessions[k]).id != s.id
            &&& after.events.contains(EventView::Closed { id: s.id })
            &&& s.port != 0 ==> books.sessions.filter(
                |x: SessionView|
                    !x.live && x.port != 0 && (x.idle_since matches Some(since) && now - since
                        > ttl),
            ).map_values(|x: SessionView| x.port).contains(s.port)
        }),
{
    let s = books.sessions[i];
    let after = books.reaped(now, ttl);
    lemma_idle_session_is_reaped(books, i, now, ttl);
    lemma_position(after.sessions, has_id(s.id));
    assert forall|k: int| 0 <= k < after.sessions.len() implies (
    #[trigger] after.sessions[k]).id != s.id by {
        assert(!has_id(s.id)(after.sessions[k]));
    }
    let leaves = |x: SessionView|
        !x.live && x.port != 0 && (x.idle_since matches Some(since) && now - since > ttl);
    if s.port != 0 {
        assert(leaves(s));
        books.sessions.lemma_filter_contains(leaves, i);
        let out = books.sessions.filter(leaves);
        let k = choose|k: int| 0 <= k < out.len() && out[k] == s;
        assert(out.map_values(|x: SessionView| x.port)[k] == s.port);
    }
}

/// A session that loses its client is dropped once more than `ttl` has gone
/// by, and not before: at `since` its client goes, and a sweep at `now` leaves
/// no session with its id, says that it is closed and hands back its port among
/// those to release, or leaves it there with its name and its port.
pub proof fn lemma_lost_session_is_swept(books: Registry, i: int, since: u64, now: u64, ttl: u64)
    requires
        books.wf(),
        0 <= i < books.sessions.len(),
        books.sessions[i].live,
    ensures
        ({
            let s = books.sessions[i];
            let lost = books.detached(s.id, s.attachment, since);
            let after = lost.reaped(now, ttl);
            if now - since > ttl {
                &&& forall|k: int|
                    0 <= k < after.sessions.len() ==> (#[trigger] after.sessions[k]).id != s.id
                &&& after.events.contains(EventView::Closed { id: s.id })
                &&& s.port != 0 ==> lost.sessions.filter(
                    |x: SessionView|
                        !x.live && x.port != 0 && (x.idle_since matches Some(since) && now - since
                            > ttl),
                ).map_values(|x: SessionView| x.port).contains(s.port)
            } else {
                after.sessions.contains(
                    SessionView { live: false, idle_since: Some(since), ..s },
                )
            }
        }),
{
    let s = books.sessions[i];
    let lost = books.detached(s.id, s.attachment, since);
    lemma_only_the_writer_in_force_can_leave(books, i, s.attachment, since);
    assert(lost.wf());
    if now - since > ttl {
        lemma_idle_session_is_dropped(lost, i, since, now, ttl);
    } else {
        lemma_select(lost.sessions, is_kept(now, ttl));
        assert(is_kept(now, ttl)(lost.sessions[i]));
    }
}

/// A session that no client ever dialled is dropped in the same way, counted
/// from when it was opened.
pub proof fn lemma_unvisited_session_is_swept(
    books: Registry,
    kind: StreamKind,
    name: Seq<char>,
    port: u16,
    since: u64,
    now: u64,
    ttl: u64,
)
    requires
        books.wf(),
        books.has_session_room(),
        books.find_name(name) is None,
        port != 0,
        now - since > ttl,
    ensures
        ({
            let opened = books.opened(kind, name, port, since);
            let after = opened.reaped(now, ttl);
            &&& forall|k: int|
                0 <= k < after.sessions.len() ==> (#[trigger] after.sessions[k]).id
                    != books.next_id
            &&& after.events.contains(EventView::Closed { id: books.next_id })
            &&& opened.sessions.filter(
                |x: SessionView|
                    !x.live && x.port != 0 && (x.idle_since matches Some(since) && now - since
                        > ttl),
            ).map_values(|x: SessionView| x.port).contains(port)
        }),
{
    let opened = books.opened(kind, name, port, since);
    lemma_position(books.sessions, is_named(name));
    assert forall|i: int| 0 <= i < books.sessions.len() implies (
    #[trigger] books.sessions[i]).name != name || books.sessions[i].port == 0 by {
        assert(!is_named(name)(books.sessions[i]));
    }
    lemma_entering_keeps_order(
        books,
        Registry { next_id: (books.next_id + 1) as u64, ..books },
        opened.sessions.last(),
    );
    lemma_idle_session_is_dropped(opened, books.sessions.len() as int, since, now, ttl);
}

/// A new session stands behind the others under the next id, with the name and
/// the port it was opened with, without a client and idle from now on, and an
/// event says that it was opened.
pub proof fn lemma_new_session_is_entered(
    books: Registry,
    kind: StreamKind,
    name: Seq<char>,
    port: u16,
    now: u64,
)
    requires
        books.has_session_room(),
    ensures
        books.opened(kind, name, port, now) == (Registry {
            sessions: books.sessions.push(
                SessionView {
                    id: books.next_id,
                    name,
                    port,
                    live: false,
                    attachment: 0,
                    attached_before: false,
                    idle_since: Some(now),
                },
            ),
            events: books.events.push(
                EventView::Opened { id: books.next_id, name, port, kind },
            ),
            next_id: (books.next_id + 1) as u64,
            ..books
        }),
{
    assert(books.opened(kind, name, port, now).events =~= books.events.push(
        EventView::Opened { id: books.next_id, name, port, kind },
    ));
}

/// A client that dials a session without one gets it: the session has a
/// client from then on, under an attachment of its own, and an event says
/// whether it had one before. No other session changes.
pub proof fn lemma_caller_gets_a_free_session(books: Registry, i: int, writer_gone: bool)
    requires
        books.wf(),
        books.has_attachment_room(),
        0 <= i < books.sessions.len(),
        !books.sessions[i].live,
    ensures
        ({
            let s = books.sessions[i];
            books.accepted(s.id, writer_gone) == (
                Registry {
                    sessions: books.sessions.update(
                        i,
                        SessionView {
                            id: s.id,
                            name: s.name,
                            port: s.port,
                            live: true,
                            attachment: books.next_attachment,
                            attached_before: true,
                            idle_since: None,
                        },
                    ),
                    events: books.events.push(
                        EventView::Attached { id: s.id, reattached: s.attached_before },
                    ),
                    next_attachment: (books.next_attachment + 1) as u64,
                    ..books
                },
                AcceptView::Attach { attachment: books.next_attachment },
            )
        }),
{
    let s = books.sessions[i];
    lemma_position_found(books.sessions, has_id(s.id), i);
    assert(books.accepted(s.id, writer_gone).0.sessions =~= books.sessions.update(
        i,
        SessionView {
            id: s.id,
            name: s.name,
            port: s.port,
            live: true,
            attachment: books.next_attachment,
            attached_before: true,
            idle_since: None,
        },
    ));
}

/// A client that dials a session whose writer is gone takes its place: the
/// session has the newcomer's attachment from then on.
pub proof fn lemma_newcomer_takes_the_place_of_a_lost_writer(books: Registry, i: int)
    requires
        books.wf(),
        books.has_attachment_room(),
        0 <= i < books.sessions.len(),
        books.sessions[i].live,
    ensures
        ({
            let s = books.sessions[i];
            let (after, reply) = books.accepted(s.id, true);
            &&& reply == AcceptView::Attach { attachment: books.next_attachment }
            &&& after.sessions == books.sessions.update(
                i,
                SessionView { attachment: books.next_attachment, ..s },
            )
            &&& after.next_attachment == books.next_attachment + 1
        }),
{
    let s = books.sessions[i];
    lemma_position_found(books.sessions, has_id(s.id), i);
    assert(books.accepted(s.id, true).0.sessions =~= books.sessions.update(
        i,
        SessionView { attachment: books.next_attachment, ..s },
    ));
}

/// A port whose session is gone takes nobody, and what is heard of a session
/// that is gone changes none of the others.
pub proof fn lemma_unknown_session(
    books: Registry,
    id: SessionId,
    attachment: u64,
    writer_gone: bool,
    now: u64,
)
    requires
        forall|k: int| 0 <= k < books.sessions.len() ==> (#[trigger] books.sessions[k]).id != id,
    ensures
        books.accepted(id, writer_gone) == (books, AcceptView::Stop),
        books.detached(id, attachment, now) == (Registry {
            events: books.events.push(EventView::Disconnected { id }),
            ..books
        }),
        books.closed(id) == books,
{
    lemma_position(books.sessions, has_id(id));
    if books.find_id(id) is Some {
        let k = books.find_id(id)->Some_0;
        assert(has_id(id)(books.sessions[k]));
    }
    lemma_select_all(books.sessions, has_other_id(id));
    assert(books.closed(id) =~= books);
}

/// An attachment ends its session's only while it is the one in force: where
/// the session has no client, or another attachment, its end is no news.
pub proof fn lemma_only_the_writer_in_force_can_leave(
    books: Registry,
    i: int,
    attachment: u64,
    now: u64,
)
    requires
        books.wf(),
        0 <= i < books.sessions.len(),
    ensures
        ({
            let s = books.sessions[i];
            books.detached(s.id, attachment, now) == if s.live && s.attachment == attachment {
                Registry {
                    sessions: books.sessions.update(
                        i,
                        SessionView { live: false, idle_since: Some(now), ..s },
                    ),
                    events: books.events.push(EventView::Disconnected { id: s.id }),
                    ..books
                }
            } else {
                books
            }
        }),
{
    lemma_position_found(books.sessions, has_id(books.sessions[i].id), i);
}

/// Closing a session takes that one out, client or not, and no other.
pub proof fn lemma_closing_takes_one_out(books: Registry, i: int)
    requires
        books.wf(),
        0 <= i < books.sessions.len(),
    ensures
        books.closed(books.sessions[i].id) == (Registry {
            sessions: books.sessions.remove(i),
            ..books
        }),
{
    let id = books.sessions[i].id;
    assert forall|k: int| 0 <= k < books.sessions.len() && k != i implies has_other_id(id)(
        #[trigger] books.sessions[k],
    ) by {
        if k < i {
            assert(are_apart(books.sessions[k], books.sessions[i]));
        } else {
            assert(are_apart(books.sessions[i], books.sessions[k]));
        }
    }
    lemma_select_but_one(books.sessions, has_other_id(id), i);
}

/// An anonymous session is called `anon-` and a number: the first from the
/// count on that makes a name no session has. The count goes on behind it.
pub proof fn lemma_anonymous_sessions_are_numbered(books: Registry, line: Seq<u8>, n: nat)
    requires
        books.wf(),
        books.has_room_for(line),
        !crate::proto::is_handshake(line),
        books.next_anon <= n,
        forall|i: int|
            0 <= i < books.sessions.len() ==> (#[trigger] books.sessions[i]).name != "anon-"@
                + crate::text::decimal(n),
        forall|k: nat|
            books.next_anon <= k < n ==> exists|i: int|
                0 <= i < books.sessions.len() && (#[trigger] books.sessions[i]).name == "anon-"@
                    + #[trigger] crate::text::decimal(k),
    ensures
        ({
            let after = books.controlled(line).0;
            &&& after.sessions == books.sessions.push(
                SessionView {
                    id: books.next_id,
                    name: "anon-"@ + crate::text::decimal(n),
                    port: 0,
                    live: true,
                    attachment: books.next_attachment,
                    attached_before: true,
                    idle_since: None,
                },
            )
            &&& after.next_anon == n + 1
            &&& after.next_id == books.next_id + 1
            &&& after.next_attachment == books.next_attachment + 1
        }),
{
    lemma_free_number(books);
    let m = books.free_number();
    assert forall|k: nat| books.next_anon <= k < n implies #[trigger] is_taken(
        books.sessions,
        k,
    ) by {
        let name = "anon-"@ + crate::text::decimal(k);
        let i = choose|i: int| 0 <= i < books.sessions.len() && (#[trigger] books.sessions[i]).name
            == name;
        assert(books.sessions[i].name == anonymous_name(k));
    }
    assert(!is_taken(books.sessions, n));
    if m < n {
        assert(is_taken(books.sessions, m));
    } else if n < m {
        assert(is_taken(books.sessions, n));
    }
    assert(m == n);
}

/// A new server knows no session and has nothing to tell, and counts from one.
pub proof fn lemma_new_server(control_port: u16)
    ensures
        Registry::fresh(control_port) == (Registry {
            control_port,
            sessions: Seq::empty(),
            events: Seq::empty(),
            next_id: 1,
            next_anon: 1,
            next_attachment: 1,
        }),
{
}

/// There is room as long as there are numbers: ids below those of captures,
/// and 64 bits for attachments and for names. A handshake needs none of them.
pub proof fn lemma_room(books: Registry, line: Seq<u8>)
    ensures
        books.has_session_room() <==> books.next_id < 0x7fff_ffff_ffff_ffff,
        books.has_attachment_room() <==> books.next_attachment < 0xffff_ffff_ffff_ffff,
        books.has_room_for(line) <==> crate::proto::is_handshake(line) || (books.next_id
            < 0x7fff_ffff_ffff_ffff && books.next_attachment < 0xffff_ffff_ffff_ffff
            && books.next_anon + books.sessions.len() < 0xffff_ffff_ffff_ffff),
{
}

/// Replies and events are told as they are.
pub proof fn lemma_replies_and_events_as_they_are(
    id: SessionId,
    name: String,
    port: u16,
    kind: StreamKind,
    attachment: u64,
    reattached: bool,
    data: Vec<u8>,
    line: String,
    events: Seq<ServerEvent>,
)
    ensures
        ControlReply::Answer(line)@ == ControlView::Answer(line@),
        (ControlReply::BindPort { kind, name })@ == (ControlView::BindPort { kind, name: name@ }),
        (ControlReply::Stream { id, attachment })@ == (ControlView::Stream { id, attachment }),
        AcceptReply::Stop@ == AcceptView::Stop,
        AcceptReply::Refuse(line)@ == AcceptView::Refuse(line@),
        (AcceptReply::Attach { attachment })@ == (AcceptView::Attach { attachment }),
        (ServerEvent::Opened { id, name, port, kind })@ == (EventView::Opened {
            id,
            name: name@,
            port,
            kind,
        }),
        (ServerEvent::Attached { id, reattached })@ == (EventView::Attached { id, reattached }),
        (ServerEvent::Bytes { id, data })@ == (EventView::Bytes { id, data: data@ }),
        (ServerEvent::Disconnected { id })@ == (EventView::Disconnected { id }),
        (ServerEvent::Closed { id })@ == (EventView::Closed { id }),
        event_views(events).len() == events.len(),
        forall|i: int| 0 <= i < events.len() ==> #[trigger] event_views(events)[i] == events[i]@,
{
}

} // verus!
