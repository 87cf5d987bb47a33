//! One window per stream session.

use std::collections::hash_map::Entry;
use std::collections::HashMap;

use vstd::prelude::*;
use vstd::string::StringExecFns;

use crate::pipeline::{Pipeline, RenderOptions};
use crate::proto::StreamKind;
use crate::registry::SessionId;
use crate::streamview::StreamView;
use crate::text::decimal_text;
use crate::tracefmt::TraceRenderer;

verus! {

broadcast use vstd::std_specs::hash::group_hash_axioms;

/// A session's renderer. Which one it holds depends on its kind: a trace
/// session has no pipeline, which renders model token streams and is the
/// wrong tool for a log record.
#[derive(Debug)]
pub enum Renderer {
    Tokens(Box<Pipeline>),
    Trace(TraceRenderer),
}

/// What a renderer holds.
pub ghost enum Rendering {
    Tokens(crate::pipeline::Piping),
    Trace(Seq<u8>),
}

impl View for Renderer {
    type V = Rendering;

    open spec fn view(&self) -> Rendering {
        match *self {
            Renderer::Tokens(p) => Rendering::Tokens(p@),
            Renderer::Trace(t) => Rendering::Trace(t@),
        }
    }
}

/// What a session holds.
#[verifier::ext_equal]
pub ghost struct Stream {
    pub name: Seq<char>,
    pub port: u16,
    pub kind: StreamKind,
    pub connected: bool,
    pub view: crate::streamview::Scrollback,
    pub renderer: Rendering,
}

/// `name :port`, or the name alone for port zero, which is no port: anonymous
/// sessions and opened captures have it.
pub open spec fn base_title(name: Seq<char>, port: u16) -> Seq<char> {
    if port == 0 {
        name
    } else {
        name + " :"@ + crate::text::decimal(port as nat)
    }
}

impl Stream {
    pub open spec fn fresh(
        name: Seq<char>,
        port: u16,
        kind: StreamKind,
        view: crate::streamview::Scrollback,
        options: RenderOptions,
    ) -> Stream {
        Stream {
            name,
            port,
            kind,
            connected: false,
            view,
            renderer: match kind {
                StreamKind::Tokens => Rendering::Tokens(crate::pipeline::Piping::fresh(options)),
                StreamKind::Trace => Rendering::Trace(Seq::empty()),
            },
        }
    }

    /// The title of the session's window: its base title, a tag in front for
    /// a trace session, and a mark behind while it has no client.
    pub open spec fn title(self) -> Seq<char> {
        let base = base_title(self.name, self.port);
        let tagged = match self.kind {
            StreamKind::Tokens => base,
            StreamKind::Trace => "[trace] "@ + base,
        };
        if self.connected {
            tagged
        } else {
            tagged + " [disconnected]"@
        }
    }

    /// `bytes` have gone through the session's renderer into its view.
    pub open spec fn fed(self, bytes: Seq<u8>, after: Stream) -> bool {
        &&& after == Stream { view: after.view, renderer: after.renderer, ..self }
        &&& match (self.renderer, after.renderer) {
            (Rendering::Tokens(p), Rendering::Tokens(q)) => p.fed(self.view, bytes, q, after.view),
            (Rendering::Trace(c), Rendering::Trace(d)) => {
                let start = crate::tracefmt::Tracing { carry: c, view: self.view };
                let end = crate::tracefmt::Tracing { carry: d, view: after.view };
                end == start.fed(bytes) && start.plain_lines_are_verbatim(bytes, end)
            },
            _ => false,
        }
    }

    /// The session's stream is over.
    pub open spec fn finished(self, after: Stream) -> bool {
        &&& after == Stream { view: after.view, renderer: after.renderer, ..self }
        &&& match (self.renderer, after.renderer) {
            (Rendering::Tokens(p), Rendering::Tokens(q)) => p.finished(self.view, q, after.view),
            (Rendering::Trace(c), Rendering::Trace(d)) => (crate::tracefmt::Tracing {
                carry: d,
                view: after.view,
            }) == (crate::tracefmt::Tracing { carry: c, view: self.view }).finished(),
            _ => false,
        }
    }

    /// What has been rendered follows from what came in, where that is
    /// reproducible.
    pub open spec fn is_rendered(self) -> bool {
        match self.renderer {
            Rendering::Tokens(p) => p.is_rendered(),
            Rendering::Trace(_) => true,
        }
    }

    /// What came in is rendered the same however it is cut into pieces.
    pub open spec fn is_reproducible(self) -> bool {
        match self.renderer {
            Rendering::Tokens(p) => crate::pipeline::is_reproducible(
                crate::pipeline::heard_text(p.heard),
            ),
            Rendering::Trace(_) => true,
        }
    }

    /// The same session with a client, or without.
    pub open spec fn with_connected(self, connected: bool) -> Stream {
        Stream { connected, ..self }
    }
}

impl Renderer {
    pub open spec fn wf(&self) -> bool {
        match *self {
            Renderer::Tokens(p) => p.wf(),
            Renderer::Trace(_) => true,
        }
    }

    pub open spec fn is_for(&self, kind: StreamKind) -> bool {
        match kind {
            StreamKind::Tokens => *self is Tokens,
            StreamKind::Trace => *self is Trace,
        }
    }

    fn feed(&mut self, bytes: &[u8], view: &mut StreamView)
        requires
            old(self).wf(),
            old(view).wf(),
        ensures
            final(self).wf(),
            final(view).wf(),
            match (old(self)@, final(self)@) {
                (Rendering::Tokens(p), Rendering::Tokens(q)) => p.fed(
                    old(view)@,
                    bytes@,
                    q,
                    final(view)@,
                ),
                (Rendering::Trace(c), Rendering::Trace(d)) => {
                    let start = crate::tracefmt::Tracing { carry: c, view: old(view)@ };
                    let end = crate::tracefmt::Tracing { carry: d, view: final(view)@ };
                    end == start.fed(bytes@) && start.plain_lines_are_verbatim(bytes@, end)
                },
                _ => false,
            },
    {
        match self {
            Renderer::Tokens(p) => p.feed(bytes, view),
            Renderer::Trace(t) => t.feed(bytes, view),
        }
    }

    fn finish(&mut self, view: &mut StreamView)
        requires
            old(self).wf(),
            old(view).wf(),
        ensures
            final(self).wf(),
            final(view).wf(),
            match (old(self)@, final(self)@) {
                (Rendering::Tokens(p), Rendering::Tokens(q)) => p.finished(
                    old(view)@,
                    q,
                    final(view)@,
                ),
                (Rendering::Trace(c), Rendering::Trace(d)) => (crate::tracefmt::Tracing {
                    carry: d,
                    view: final(view)@,
                }) == (crate::tracefmt::Tracing { carry: c, view: old(view)@ }).finished(),
                _ => false,
            },
    {
        match self {
            Renderer::Tokens(p) => p.finish(view),
            Renderer::Trace(t) => t.finish(view),
        }
    }
}

/// One session, as the main loop owns it.
#[derive(Debug)]
pub struct SessionState {
    pub name: String,
    pub port: u16,
    pub view: StreamView,
    pub kind: StreamKind,
    pub renderer: Renderer,
    pub connected: bool,
}

impl View for SessionState {
    type V = Stream;

    open spec fn view(&self) -> Stream {
        Stream {
            name: self.name@,
            port: self.port,
            kind: self.kind,
            connected: self.connected,
            view: self.view@,
            renderer: self.renderer@,
        }
    }
}

impl SessionState {
    /// The session's parts are well formed, and its renderer is the one for
    /// its kind.
    pub open spec fn wf(&self) -> bool {
        &&& self.view.wf()
        &&& self.renderer.wf()
        &&& self.renderer.is_for(self.kind)
    }

    /// Title text for this session's window. A trace session's kind is called
    /// out with a leading tag: the `name :port` shape alone gives no hint that
    /// a window renders log records rather than a token stream.
    #[must_use]
    pub fn window_title(&self) -> (r: String)
        ensures
            r@ == self@.title(),
    {
        let base = format_title(self.name.as_str(), self.port);
        let mut title: String = match self.kind {
            StreamKind::Tokens => base,
            StreamKind::Trace => {
                let mut tagged: String = String::from_str("[trace] ");
                tagged.append(base.as_str());
                tagged
            },
        };
        if !self.connected {
            title.append(" [disconnected]");
        }
        title
    }

    /// Pushes stream bytes through this session's renderer and into its view.
    pub fn feed(&mut self, bytes: &[u8])
        requires
            old(self).wf(),
        ensures
            final(self).wf(),
            old(self)@.fed(bytes@, final(self)@),
    {
        self.renderer.feed(bytes, &mut self.view);
    }

    /// Ends the stream: flushes the renderer and any trailing partial line.
    pub fn finish(&mut self)
        requires
            old(self).wf(),
        ensures
            final(self).wf(),
            old(self)@.finished(final(self)@),
    {
        self.renderer.finish(&mut self.view);
    }
}

/// The `name :port` part of a window title. Port zero is no port and is left
/// out.
#[must_use]
pub fn format_title(name: &str, port: u16) -> (r: String)
    ensures
        r@ == base_title(name@, port),
{
    let mut title: String = String::from_str(name);
    if port != 0 {
        title.append(" :");
        title.append(decimal_text(port as u64).as_str());
    }
    title
}

/// The rule drawn above the output of a client that came back, with its
/// newlines.
pub open spec fn rule_bytes() -> Seq<u8> {
    vstd::utf8::encode_utf8("\n-- reconnected --\n"@)
}

/// The sessions of a map of session states.
pub open spec fn stream_views(inner: Map<SessionId, SessionState>) -> Map<SessionId, Stream> {
    inner.map_values(|s: SessionState| s@)
}

/// `data` has gone through one session, and the others are as they were.
pub open spec fn fed_one(
    before: Map<SessionId, Stream>,
    id: SessionId,
    data: Seq<u8>,
    after: Map<SessionId, Stream>,
) -> bool {
    if before.contains_key(id) {
        &&& after == before.insert(id, after[id])
        &&& before[id].fed(data, after[id])
    } else {
        after == before
    }
}

/// A client has come back to one session, which has the rule drawn, and the
/// others are as they were.
pub open spec fn reconnected_one(
    before: Map<SessionId, Stream>,
    id: SessionId,
    after: Map<SessionId, Stream>,
) -> bool {
    if before.contains_key(id) {
        &&& after == before.insert(id, after[id])
        &&& before[id].with_connected(true).fed(rule_bytes(), after[id])
    } else {
        after == before
    }
}

/// A client has attached to one session, for the first time or again, and the
/// others are as they were.
pub open spec fn attached_one(
    before: Map<SessionId, Stream>,
    id: SessionId,
    reattached: bool,
    after: Map<SessionId, Stream>,
) -> bool {
    if reattached {
        reconnected_one(before, id, after)
    } else if before.contains_key(id) {
        after == before.insert(id, before[id].with_connected(true))
    } else {
        after == before
    }
}

/// One session has lost its client, its stream is over, and the others are as
/// they were.
pub open spec fn disconnected_one(
    before: Map<SessionId, Stream>,
    id: SessionId,
    after: Map<SessionId, Stream>,
) -> bool {
    if before.contains_key(id) {
        &&& after == before.insert(id, after[id])
        &&& before[id].with_connected(false).finished(after[id])
    } else {
        after == before
    }
}

/// All live sessions, keyed by id.
#[derive(Debug)]
pub struct Sessions {
    inner: HashMap<SessionId, SessionState>,
}

impl View for Sessions {
    type V = Map<SessionId, Stream>;

    closed spec fn view(&self) -> Map<SessionId, Stream> {
        stream_views(self.inner@)
    }
}

impl Default for Sessions {
    fn default() -> (r: Sessions)
        ensures
            r.wf(),
            r@ == Map::<SessionId, Stream>::empty(),
    {
        let r = Sessions { inner: HashMap::new() };
        assert(r@ =~= Map::<SessionId, Stream>::empty());
        r
    }
}

impl Sessions {
    /// Every session is well formed.
    pub closed spec fn wf(&self) -> bool {
        forall|id: SessionId|
            self.inner@.contains_key(id) ==> (#[trigger] self.inner@[id]).wf()
    }

    /// Every session's scrollback is well formed.
    pub proof fn lemma_views_are_well_formed(&self)
        requires
            self.wf(),
        ensures
            forall|id: SessionId| #[trigger]
                self@.contains_key(id) ==> self@[id].view.wf(),
    {
        assert forall|id: SessionId| #[trigger] self@.contains_key(id) implies self@[id].view.wf() by {
            assert(self.inner@[id].wf());
        }
    }

    /// What has been rendered in every session follows from what came in.
    pub proof fn lemma_views_are_rendered(&self)
        requires
            self.wf(),
        ensures
            forall|id: SessionId| #[trigger]
                self@.contains_key(id) ==> self@[id].is_rendered(),
    {
        assert forall|id: SessionId| #[trigger] self@.contains_key(id) implies self@[id].is_rendered() by {
            assert(self.inner@[id].wf());
            match self.inner@[id].renderer {
                Renderer::Tokens(p) => {
                    p.lemma_is_rendered();
                },
                Renderer::Trace(_) => {},
            }
        }
    }

    /// Registers a session, without a client yet.
    pub fn insert(
        &mut self,
        id: SessionId,
        name: String,
        port: u16,
        kind: StreamKind,
        view: StreamView,
        opts: RenderOptions,
    )
        requires
            old(self).wf(),
            view.wf(),
        ensures
            final(self).wf(),
            final(self)@ == old(self)@.insert(id, Stream::fresh(name@, port, kind, view@, opts)),
    {
        let renderer = match kind {
            StreamKind::Tokens => Renderer::Tokens(Box::new(Pipeline::new(opts))),
            StreamKind::Trace => Renderer::Trace(TraceRenderer::new()),
        };
        let state = SessionState { name, port, view, kind, renderer, connected: false };
        let ghost shown = state@;
        self.inner.insert(id, state);
        assert(self@ =~= old(self)@.insert(id, shown));
    }

    /// A session to act on, if there is one.
    pub fn get_mut(&mut self, id: SessionId) -> (r: Option<&mut SessionState>)
        requires
            old(self).wf(),
        ensures
            match r {
                Some(s) => {
                    &&& old(self)@.contains_key(id)
                    &&& s@ == old(self)@[id]
                    &&& s.wf()
                    &&& final(self)@ == old(self)@.insert(id, final(s)@)
                    &&& final(s).wf() ==> final(self).wf()
                },
                None => !old(self)@.contains_key(id) && final(self)@ == old(self)@
                    && final(self).wf(),
            },
    {
        match self.inner.entry(id) {
            Entry::Occupied(e) => Some(e.into_mut()),
            Entry::Vacant(_) => None,
        }
    }

    /// Drops a session.
    pub fn remove(&mut self, id: SessionId) -> (r: Option<SessionState>)
        requires
            old(self).wf(),
        ensures
            final(self).wf(),
            final(self)@ == old(self)@.remove(id),
            match r {
                Some(s) => old(self)@.contains_key(id) && s@ == old(self)@[id] && s.wf(),
                None => !old(self)@.contains_key(id),
            },
    {
        let r = self.inner.remove(&id);
        assert(self@ =~= old(self)@.remove(id));
        r
    }

    /// Feeds bytes into a session's renderer and view.
    pub fn feed(&mut self, id: SessionId, data: &[u8])
        requires
            old(self).wf(),
        ensures
            final(self).wf(),
            fed_one(old(self)@, id, data@, final(self)@),
    {
        match self.get_mut(id) {
            Some(s) => {
                s.feed(data);
            },
            None => {},
        }
    }

    /// Marks a session connected and draws a rule announcing a client that
    /// came back.
    pub fn mark_reconnected(&mut self, id: SessionId)
        requires
            old(self).wf(),
        ensures
            final(self).wf(),
            reconnected_one(old(self)@, id, final(self)@),
    {
        match self.get_mut(id) {
            Some(s) => {
                s.connected = true;
                s.feed("\n-- reconnected --\n".as_bytes());
            },
            None => {},
        }
    }

    /// Marks a session connected. The rule is drawn only for a client that
    /// came back, never above the first line of a new session.
    pub fn mark_attached(&mut self, id: SessionId, reattached: bool)
        requires
            old(self).wf(),
        ensures
            final(self).wf(),
            attached_one(old(self)@, id, reattached, final(self)@),
    {
        if reattached {
            self.mark_reconnected(id);
        } else {
            match self.get_mut(id) {
                Some(s) => {
                    s.connected = true;
                },
                None => {},
            }
        }
    }

    /// Marks a session disconnected and ends its stream.
    pub fn mark_disconnected(&mut self, id: SessionId)
        requires
            old(self).wf(),
        ensures
            final(self).wf(),
            disconnected_one(old(self)@, id, final(self)@),
    {
        match self.get_mut(id) {
            Some(s) => {
                s.connected = false;
                s.finish();
            },
            None => {},
        }
    }

    /// Empties one session's scrollback.
    pub fn clear(&mut self, id: SessionId)
        requires
            old(self).wf(),
        ensures
            final(self).wf(),
            final(self)@ == if old(self)@.contains_key(id) {
                old(self)@.insert(
                    id,
                    (Stream { view: old(self)@[id].view.cleared(), ..old(self)@[id] }),
                )
            } else {
                old(self)@
            },
    {
        match self.get_mut(id) {
            Some(s) => {
                s.view.clear();
            },
            None => {},
        }
    }

    /// Selects one session's whole scrollback.
    pub fn select_all(&mut self, id: SessionId)
        requires
            old(self).wf(),
        ensures
            final(self).wf(),
            final(self)@ == if old(self)@.contains_key(id) {
                old(self)@.insert(
                    id,
                    (Stream {
                        view: (crate::streamview::Scrollback {
                            selected: true,
                            ..old(self)@[id].view
                        }),
                        ..old(self)@[id]
                    }),
                )
            } else {
                old(self)@
            },
    {
        match self.get_mut(id) {
            Some(s) => {
                s.view.select_all();
            },
            None => {},
        }
    }

    /// The text of one session's selection, if it has one.
    #[must_use]
    pub fn selected_text(&self, id: SessionId) -> (r: Option<String>)
        ensures
            match r {
                Some(t) => {
                    &&& self@.contains_key(id)
                    &&& self@[id].view.selected
                    &&& t@ == crate::streamview::joined(self@[id].view.shown_lines())
                },
                None => !self@.contains_key(id) || !self@[id].view.selected,
            },
    {
        match self.inner.get(&id) {
            Some(s) => s.view.selected_text(),
            None => None,
        }
    }

    /// Whether a session has a client.
    #[must_use]
    pub fn is_connected(&self, id: SessionId) -> (r: bool)
        ensures
            r == (self@.contains_key(id) && self@[id].connected),
    {
        match self.inner.get(&id) {
            Some(s) => s.connected,
            None => false,
        }
    }

    /// One session's scrollback as plain text, for File > Save As.
    #[must_use]
    pub fn plain_text(&self, id: SessionId) -> (r: Option<String>)
        ensures
            match r {
                Some(t) => self@.contains_key(id) && t@ == crate::streamview::joined(
                    self@[id].view.shown_lines(),
                ),
                None => !self@.contains_key(id),
            },
    {
        match self.inner.get(&id) {
            Some(s) => Some(s.view.plain_text()),
            None => None,
        }
    }

    /// The title a session's window should currently show.
    #[must_use]
    pub fn window_title(&self, id: SessionId) -> (r: Option<String>)
        ensures
            match r {
                Some(t) => self@.contains_key(id) && t@ == self@[id].title(),
                None => !self@.contains_key(id),
            },
    {
        match self.inner.get(&id) {
            Some(s) => Some(s.window_title()),
            None => None,
        }
    }
}

/// The bytes of the rule are a newline and the rule on a line of its own.
proof fn lemma_rule_bytes()
    ensures
        ({
            let text = "-- reconnected --"@;
            let line = vstd::utf8::encode_utf8(text);
            &&& rule_bytes() == Seq::<u8>::empty().push(0x0a) + line.push(0x0a)
            &&& !line.contains(0x0a)
            &&& vstd::utf8::valid_utf8(line)
            &&& vstd::utf8::decode_utf8(line) == text
            &&& crate::tracefmt::is_plain_line(line)
            &&& crate::pipeline::is_unmarked_text("\n-- reconnected --\n"@)
            &&& crate::ansiasm::without_cr(text) == text
        }),
{
    reveal_strlit("\n-- reconnected --\n");
    reveal_strlit("-- reconnected --");
    let text = "-- reconnected --"@;
    let whole = "\n-- reconnected --\n"@;
    let line = vstd::utf8::encode_utf8(text);
    vstd::utf8::is_ascii_chars_encode_utf8(text);
    vstd::utf8::is_ascii_chars_encode_utf8(whole);
    vstd::utf8::encode_utf8_valid_utf8(text);
    vstd::utf8::encode_utf8_decode_utf8(text);
    let nothing = Seq::<u8>::empty();
    assert forall|i: int| 0 <= i < line.len() implies line[i] != 0x0a by {
        assert(text[i] != '\n');
    }
    assert(rule_bytes() =~= nothing.push(0x0a) + line.push(0x0a)) by {
        assert forall|i: int| 0 <= i < rule_bytes().len() implies rule_bytes()[i] == (
        nothing.push(0x0a) + line.push(0x0a))[i] by {
            assert(rule_bytes()[i] == whole[i] as u8);
            if 0 < i < 18 {
                assert(whole[i] == text[i - 1]);
            }
        }
    }
    assert(!text.contains('\r'));
    crate::ansiasm::lemma_without_cr(text);
}

/// The rule announces itself in a trace session: below what stood there, the
/// unfinished line ended, stands the rule on a line of its own.
pub proof fn lemma_rule_is_drawn(before: Stream, carry: Seq<u8>, after: Stream)
    requires
        before.renderer == Rendering::Trace(carry),
        crate::tracefmt::is_plain_line(carry),
        before.fed(rule_bytes(), after),
    ensures
        after.renderer == Rendering::Trace(Seq::empty()),
        after.view == before.view.pushed(crate::tracefmt::verbatim_bytes(carry)).pushed(
            crate::tracefmt::verbatim("-- reconnected --"@),
        ).with_partial(Seq::empty()),
{
    lemma_rule_bytes();
    let line = vstd::utf8::encode_utf8("-- reconnected --"@);
    let nothing = Seq::<u8>::empty();
    let start = crate::tracefmt::Tracing { carry, view: before.view };
    assert(carry + nothing =~= carry);
    crate::tracefmt::lemma_plain_line_is_shown(start, nothing);
    let mid = start.cut_verbatim(nothing.push(0x0a));
    assert(mid.carry + line =~= line);
    crate::tracefmt::lemma_plain_line_is_shown(mid, line);
    crate::tracefmt::lemma_verbatim_split(start, nothing.push(0x0a), line.push(0x0a));
    assert(vstd::utf8::decode_utf8(nothing) =~= Seq::<char>::empty());
    assert(crate::tracefmt::verbatim_bytes(nothing) =~= Seq::<crate::screen::Cell>::empty());
}

/// The rule announces itself in a token session whose text was unmarked so
/// far: below what stood there, the unfinished line ended, stands the rule on
/// a line of its own.
pub proof fn lemma_rule_is_drawn_among_tokens(
    before: Stream,
    p: crate::pipeline::Piping,
    after: Stream,
)
    requires
        before.renderer == Rendering::Tokens(p),
        p.is_plain(),
        p.carry.len() == 0,
        before.fed(rule_bytes(), after),
    ensures
        after.view == before.view.pushed(
            crate::ansiasm::plain_line(p.assembler.carry, p.assembler.pending),
        ).pushed(
            crate::screen::styled("-- reconnected --"@, p.assembler.carry),
        ).with_partial(Seq::empty()),
{
    lemma_rule_bytes();
    let text = "-- reconnected --"@;
    let whole = "\n-- reconnected --\n"@;
    let line = vstd::utf8::encode_utf8(text);
    let nothing = Seq::<u8>::empty();
    assert(p.carry + rule_bytes() =~= rule_bytes());
    vstd::utf8::encode_utf8_valid_utf8(whole);
    vstd::utf8::encode_utf8_decode_utf8(whole);
    crate::text::lemma_valid_is_uncut(rule_bytes());
    let start = p.assembler;
    assert(start.ready =~= Seq::<Seq<crate::screen::Cell>>::empty());
    crate::ansiasm::lemma_plain_split(start, nothing.push(0x0a), line.push(0x0a));
    crate::ansiasm::lemma_plain_line_ends(start, nothing);
    assert(start.pending + nothing =~= start.pending);
    let mid = start.fed_plain(nothing.push(0x0a));
    crate::ansiasm::lemma_plain_line_ends(mid, line);
    assert(mid.pending + line =~= line);
    let end = mid.fed_plain(line.push(0x0a));
    let first = crate::ansiasm::plain_line(start.carry, start.pending);
    let second = crate::ansiasm::plain_line(start.carry, line);
    assert(end.ready =~= seq![first, second]);
    assert(end.ready.drop_last() =~= seq![first]);
    assert(seq![first].drop_last() =~= Seq::<Seq<crate::screen::Cell>>::empty());
    assert(crate::pipeline::pushed_all(before.view, seq![first]) == crate::pipeline::pushed_all(
        before.view,
        seq![first].drop_last(),
    ).pushed(first));
    assert(crate::pipeline::pushed_all(before.view, end.ready) == before.view.pushed(first).pushed(
        second,
    ));
    assert(vstd::utf8::decode_utf8(nothing) =~= Seq::<char>::empty());
    assert(crate::ansiasm::plain_line(start.carry, nothing) =~= Seq::<crate::screen::Cell>::empty());
}

/// A session outlives its client: neither losing one nor getting one back
/// changes its name, its port or its kind, and its window's title says which
/// of the two it was.
pub proof fn lemma_session_outlives_its_client(
    before: Stream,
    lost: Stream,
    back: Stream,
)
    requires
        before.with_connected(false).finished(lost),
        lost.with_connected(true).fed(rule_bytes(), back),
    ensures
        back.name == before.name,
        back.port == before.port,
        back.kind == before.kind,
        lost.title() == back.title() + " [disconnected]"@,
        before.connected ==> back.title() == before.title(),
{
}

/// A session's title says whether it has a client, and what kind it is.
pub proof fn lemma_title_follows_connection(s: Stream)
    ensures
        s.with_connected(false).title() == s.with_connected(true).title() + " [disconnected]"@,
        s.kind == StreamKind::Tokens ==> s.with_connected(true).title() == base_title(
            s.name,
            s.port,
        ),
        s.kind == StreamKind::Trace ==> s.with_connected(true).title() == "[trace] "@
            + base_title(s.name, s.port),
{
}

/// What arrives for a session loses no line of its transcript.
pub proof fn lemma_bytes_keep_the_transcript(before: Stream, bytes: Seq<u8>, after: Stream)
    requires
        before.view.wf(),
        before.fed(bytes, after),
    ensures
        after.view.wf(),
        after.view.keeps(before.view),
{
    match before.renderer {
        Rendering::Tokens(p) => {
            let q = after.renderer->Tokens_0;
            crate::pipeline::lemma_transcript_is_kept(p.display(before.view), q.written_since(p));
        },
        Rendering::Trace(c) => {
            crate::tracefmt::lemma_transcript_is_kept(
                crate::tracefmt::Tracing { carry: c, view: before.view },
                bytes,
            );
        },
    }
}

/// The end of a session's stream loses no line of its transcript.
pub proof fn lemma_end_keeps_the_transcript(before: Stream, after: Stream)
    requires
        before.view.wf(),
        before.finished(after),
    ensures
        after.view.wf(),
        after.view.keeps(before.view),
{
    match before.renderer {
        Rendering::Tokens(p) => {
            let q = after.renderer->Tokens_0;
            crate::pipeline::lemma_transcript_is_kept(p.display(before.view), q.written_since(p));
        },
        Rendering::Trace(c) => {
            crate::tracefmt::lemma_transcript_is_kept(
                crate::tracefmt::Tracing { carry: c, view: before.view },
                Seq::empty(),
            );
        },
    }
}

impl Stream {
    /// One thing that can happen to a session while it lives: it gets or loses
    /// a client, bytes arrive for it, or its stream ends.
    pub open spec fn goes_on_as(self, after: Stream) -> bool {
        ||| after == self.with_connected(after.connected)
        ||| exists|bytes: Seq<u8>| #[trigger] self.fed(bytes, after)
        ||| self.finished(after)
    }
}

/// Each state of a session but the first comes from the one before it.
pub open spec fn is_history(states: Seq<Stream>) -> bool
    decreases states.len(),
{
    states.len() <= 1 || (is_history(states.drop_last()) && states[states.len() - 2].goes_on_as(
        states.last(),
    ))
}

/// The transcript of a session stays intact, whatever arrives for it and
/// however often its client is lost and comes back.
pub proof fn lemma_transcript_is_kept_throughout(states: Seq<Stream>)
    requires
        states.len() > 0,
        is_history(states),
        states[0].view.wf(),
    ensures
        states.last().view.wf(),
        states.last().view.keeps(states[0].view),
        states.last().name == states[0].name,
        states.last().port == states[0].port,
        states.last().kind == states[0].kind,
    decreases states.len(),
{
    crate::streamview::lemma_new_lines_keep_the_transcript(states[0].view, Seq::empty());
    if states.len() > 1 {
        let init = states.drop_last();
        lemma_transcript_is_kept_throughout(init);
        let before = init.last();
        let after = states.last();
        assert(before == states[states.len() - 2]);
        crate::streamview::lemma_new_lines_keep_the_transcript(before.view, Seq::empty());
        if before.finished(after) {
            lemma_end_keeps_the_transcript(before, after);
        } else if exists|bytes: Seq<u8>| #[trigger] before.fed(bytes, after) {
            let bytes = choose|bytes: Seq<u8>| #[trigger] before.fed(bytes, after);
            lemma_bytes_keep_the_transcript(before, bytes, after);
        }
        crate::streamview::lemma_keeping_is_transitive(states[0].view, before.view, after.view);
    }
}

/// How a session's bytes are cut into pieces does not matter: after two pieces
/// its view is what it is after both at once, and so it is once the stream is
/// over. This holds of every trace session, and of a token session whose text
/// is reproducible.
pub proof fn lemma_split_delivery(
    start: Stream,
    a: Seq<u8>,
    mid: Stream,
    b: Seq<u8>,
    end: Stream,
    over: Stream,
    whole: Stream,
    whole_over: Stream,
)
    requires
        start.view.wf(),
        start.is_rendered(),
        start.fed(a, mid),
        mid.fed(b, end),
        end.finished(over),
        start.fed(a + b, whole),
        whole.finished(whole_over),
        whole.is_reproducible(),
    ensures
        end.view == whole.view,
        over.view == whole_over.view,
{
    match (start.renderer, mid.renderer, end.renderer, over.renderer) {
        (
            Rendering::Tokens(p),
            Rendering::Tokens(q),
            Rendering::Tokens(r),
            Rendering::Tokens(o),
        ) => {
            let w = whole.renderer->Tokens_0;
            let x = whole_over.renderer->Tokens_0;
            crate::pipeline::lemma_split_delivery(
                p,
                start.view,
                a,
                q,
                mid.view,
                b,
                r,
                end.view,
                w,
                whole.view,
            );
            crate::pipeline::lemma_split_stream(
                p,
                start.view,
                a,
                q,
                mid.view,
                b,
                r,
                end.view,
                o,
                over.view,
                w,
                whole.view,
                x,
                whole_over.view,
            );
        },
        (Rendering::Trace(c), _, _, _) => {
            crate::tracefmt::lemma_split_delivery(
                crate::tracefmt::Tracing { carry: c, view: start.view },
                a,
                b,
            );
        },
        _ => {},
    }
}

/// The title of a session's window, written out: the name, the port behind a
/// colon where there is one, a tag in front where the session is a trace, and
/// a mark behind while it has no client.
pub proof fn lemma_titles_written_out(s: Stream)
    ensures
        ({
            let port = if s.port == 0 {
                Seq::empty()
            } else {
                " :"@ + crate::text::decimal(s.port as nat)
            };
            let tag = if s.kind == StreamKind::Trace {
                "[trace] "@
            } else {
                Seq::empty()
            };
            let mark = if s.connected {
                Seq::empty()
            } else {
                " [disconnected]"@
            };
            s.title() == tag + s.name + port + mark
        }),
{
    let port = if s.port == 0 {
        Seq::empty()
    } else {
        " :"@ + crate::text::decimal(s.port as nat)
    };
    let tag = if s.kind == StreamKind::Trace {
        "[trace] "@
    } else {
        Seq::empty()
    };
    let mark = if s.connected {
        Seq::empty()
    } else {
        " [disconnected]"@
    };
    assert(s.title() =~= tag + s.name + port + mark);
}

/// A new session is what it was registered as: its name, port and kind, the
/// view it was given as it is, no client, and nothing in its renderer.
pub proof fn lemma_new_session(
    name: Seq<char>,
    port: u16,
    kind: StreamKind,
    view: crate::streamview::Scrollback,
    options: RenderOptions,
)
    ensures
        ({
            let s = Stream::fresh(name, port, kind, view, options);
            &&& s.name == name
            &&& s.port == port
            &&& s.kind == kind
            &&& !s.connected
            &&& s.view == view
            &&& kind == StreamKind::Trace ==> s.renderer == Rendering::Trace(Seq::empty())
            &&& kind == StreamKind::Tokens ==> s.renderer is Tokens && ({
                let p = s.renderer->Tokens_0;
                &&& p.options == options
                &&& p.carry.len() == 0
                &&& p.heard.len() == 0
                &&& p.written.len() == 0
                &&& p.assembler == crate::ansiasm::Assembly::empty()
            })
        }),
{
}

/// What happens to a session happens to it alone: bytes, a client that comes
/// or comes back and a client that goes leave every other session as it was,
/// none is added and none is dropped, and an unknown one is nobody.
pub proof fn lemma_one_session_at_a_time(
    before: Map<SessionId, Stream>,
    id: SessionId,
    other: SessionId,
    data: Seq<u8>,
    reattached: bool,
    after: Map<SessionId, Stream>,
)
    requires
        fed_one(before, id, data, after) || attached_one(before, id, reattached, after)
            || disconnected_one(before, id, after),
    ensures
        after.contains_key(other) == before.contains_key(other),
        other != id && before.contains_key(other) ==> after[other] == before[other],
        !before.contains_key(id) ==> after == before,
{
}

/// A session has a client from when one attaches to when it goes, and its
/// bytes change nothing of that. A first client changes nothing else; one that
/// comes back sees the rule; one that goes ends the stream.
pub proof fn lemma_clients_come_and_go(
    before: Map<SessionId, Stream>,
    id: SessionId,
    data: Seq<u8>,
    fed: Map<SessionId, Stream>,
    first: Map<SessionId, Stream>,
    again: Map<SessionId, Stream>,
    gone: Map<SessionId, Stream>,
)
    requires
        before.contains_key(id),
        fed_one(before, id, data, fed),
        attached_one(before, id, false, first),
        attached_one(before, id, true, again),
        disconnected_one(before, id, gone),
    ensures
        before[id].fed(data, fed[id]),
        fed[id].connected == before[id].connected,
        first[id] == (Stream { connected: true, ..before[id] }),
        again[id].connected,
        (Stream { connected: true, ..before[id] }).fed(
            vstd::utf8::encode_utf8("\n-- reconnected --\n"@),
            again[id],
        ),
        !gone[id].connected,
        (Stream { connected: false, ..before[id] }).finished(gone[id]),
{
}

/// Neither bytes nor the end of a stream change what a session is called,
/// where it listens, what kind it is and whether it has a client.
pub proof fn lemma_streams_change_only_the_view(before: Stream, bytes: Seq<u8>, after: Stream)
    requires
        before.fed(bytes, after) || before.finished(after),
    ensures
        after.name == before.name,
        after.port == before.port,
        after.kind == before.kind,
        after.connected == before.connected,
        after.renderer is Tokens <==> before.renderer is Tokens,
{
}

/// The bytes of a trace session go through the trace renderer, and those of a
/// token session through the token renderer, each with the session's own view.
pub proof fn lemma_each_kind_has_its_renderer(before: Stream, bytes: Seq<u8>, after: Stream)
    requires
        before.fed(bytes, after),
    ensures
        before.renderer matches Rendering::Trace(carry) ==> ({
            let end = (crate::tracefmt::Tracing { carry, view: before.view }).fed(bytes);
            after.renderer == Rendering::Trace(end.carry) && after.view == end.view
        }),
        before.renderer matches Rendering::Tokens(p) ==> (after.renderer matches Rendering::Tokens(
            q,
        ) && p.fed(before.view, bytes, q, after.view)),
{
}

/// The end of a trace session's stream is that of its trace renderer, and the
/// end of a token session's that of its token renderer.
pub proof fn lemma_each_kind_ends_its_own_way(before: Stream, after: Stream)
    requires
        before.finished(after),
    ensures
        before.renderer matches Rendering::Trace(carry) ==> ({
            let end = (crate::tracefmt::Tracing { carry, view: before.view }).finished();
            after.renderer == Rendering::Trace(end.carry) && after.view == end.view
        }),
        before.renderer matches Rendering::Tokens(p) ==> (after.renderer matches Rendering::Tokens(
            q,
        ) && p.finished(before.view, q, after.view)),
{
}

/// A session is told as it is.
pub proof fn lemma_session_as_it_is(s: SessionState)
    ensures
        s@.name == s.name@,
        s@.port == s.port,
        s@.kind == s.kind,
        s@.connected == s.connected,
        s@.view == s.view@,
        s.renderer matches Renderer::Tokens(p) ==> s@.renderer == Rendering::Tokens(p@),
        s.renderer matches Renderer::Trace(t) ==> s@.renderer == Rendering::Trace(t@),
{
}

} // verus!
