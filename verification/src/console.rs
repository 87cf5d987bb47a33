//! The decisions of the main loop: what a server event or a command means for
//! the sessions and their windows. Nothing here touches the desktop; what is
//! to be done to it is handed back.

use std::collections::HashMap;

use vstd::prelude::*;
use vstd::string::StringExecFns;

use crate::cmd;
use crate::cmd::CommandId;
use crate::pipeline::RenderOptions;
use crate::proto::StreamKind;
use crate::registry::{ServerEvent, SessionId, FIRST_CAPTURE_ID};
use crate::screen::{Point, Rect};
use crate::session::{format_title, Sessions};
use crate::streamview::StreamView;
use crate::text::{chars_of, decimal_text, same_text};

verus! {

broadcast use vstd::std_specs::hash::group_hash_axioms;

/// Identifies a window on the desktop.
pub type ViewId = u64;

/// The well-known control port clients send `HELLO` to.
pub const CONTROL_PORT: u16 = 7878;

/// How many server events are handled per turn of the main loop, so that a
/// client streaming faster than the screen can keep up with does not starve
/// keystrokes and redraws.
pub const MAX_EVENTS_PER_TICK: usize = 64;

/// How long a session may sit without a client, in nanoseconds.
pub const SESSION_TTL: u64 = 1_800_000_000_000;

/// How long between two sweeps for idle sessions, in nanoseconds.
pub const REAP_INTERVAL: u64 = 60_000_000_000;

/// How long between two updates of the status line, in nanoseconds.
pub const STATUS_INTERVAL: u64 = 1_000_000_000;

/// The options every pipeline is created with: thinking text and markdown
/// formatting are always on.
pub open spec fn all_on() -> RenderOptions {
    RenderOptions { use_color: true, format_thinking: true, format_markdown: true }
}

/// The options every pipeline is created with: thinking text and markdown
/// formatting are always on.
pub fn render_options() -> (r: RenderOptions)
    ensures
        r == all_on(),
        r.use_color && r.format_thinking && r.format_markdown,
{
    RenderOptions { use_color: true, format_thinking: true, format_markdown: true }
}

/// What a server event means for the desktop: create a window for a session,
/// retitle one, or close one.
#[derive(Debug, Clone, PartialEq, Eq)]
pub enum ConsoleIntent {
    CreateWindow { id: SessionId, name: String, port: u16, kind: StreamKind },
    Retitle { view_id: ViewId, title: String },
    CloseWindow { view_id: ViewId },
}

pub ghost enum IntentView {
    CreateWindow { id: SessionId, name: Seq<char>, port: u16, kind: StreamKind },
    Retitle { view_id: ViewId, title: Seq<char> },
    CloseWindow { view_id: ViewId },
}

impl View for ConsoleIntent {
    type V = IntentView;

    open spec fn view(&self) -> IntentView {
        match *self {
            ConsoleIntent::CreateWindow { id, name, port, kind } => IntentView::CreateWindow {
                id,
                name: name@,
                port,
                kind,
            },
            ConsoleIntent::Retitle { view_id, title } => IntentView::Retitle {
                view_id,
                title: title@,
            },
            ConsoleIntent::CloseWindow { view_id } => IntentView::CloseWindow { view_id },
        }
    }
}

pub open spec fn intent_view(intent: Option<ConsoleIntent>) -> Option<IntentView> {
    match intent {
        Some(i) => Some(i@),
        None => None,
    }
}

/// What is to be done about a command.
#[derive(Debug, Clone, PartialEq, Eq)]
pub enum CommandAction {
    /// Nothing, or nothing more.
    Done,
    /// Ask for a file and write this text to it.
    SaveAs(String),
    /// Put this text on the clipboard and show this message.
    Copy { text: String, message: String },
    /// Ask for a capture to show.
    OpenCapture,
    /// Close these windows.
    CloseWindows(Vec<ViewId>),
    Tile,
    Cascade,
}

/// How many lines a text has: a newline at its end starts no further one.
pub open spec fn text_lines(text: Seq<char>) -> nat
    decreases text.len(),
{
    if text.len() == 0 {
        0
    } else if text.len() == 1 || text[text.len() - 2] == '\n' {
        text_lines(text.drop_last()) + 1
    } else {
        text_lines(text.drop_last())
    }
}

/// The message that confirms a copy.
pub open spec fn copied_message(lines: nat) -> Seq<char> {
    "Copied "@ + crate::text::decimal(lines) + (if lines == 1 {
        " line to the clipboard."@
    } else {
        " lines to the clipboard."@
    })
}

/// The retitling of a session's window, if the session and a window for it
/// are there.
pub open spec fn retitling(
    sessions: Map<SessionId, crate::session::Stream>,
    windows: Map<SessionId, ViewId>,
    id: SessionId,
) -> Option<IntentView> {
    if windows.contains_key(id) && sessions.contains_key(id) {
        Some(IntentView::Retitle { view_id: windows[id], title: sessions[id].title() })
    } else {
        None
    }
}

/// Everything the main loop changes from one turn to the next: the sessions,
/// and which window shows which.
pub struct Console {
    pub sessions: Sessions,
    /// The session each window shows.
    pub window_ids: HashMap<ViewId, SessionId>,
    /// The window of each session that the server knows.
    pub session_windows: HashMap<SessionId, ViewId>,
    /// The id for the next capture window.
    pub next_capture: SessionId,
}

impl Default for Console {
    fn default() -> (r: Console)
        ensures
            r.wf(),
            r.sessions@ == Map::<SessionId, crate::session::Stream>::empty(),
            r.window_ids@ == Map::<ViewId, SessionId>::empty(),
            r.session_windows@ == Map::<SessionId, ViewId>::empty(),
            r.next_capture == FIRST_CAPTURE_ID,
    {
        Console {
            sessions: Sessions::default(),
            window_ids: HashMap::new(),
            session_windows: HashMap::new(),
            next_capture: FIRST_CAPTURE_ID,
        }
    }
}

impl Console {
    /// The sessions are well formed, and the next capture gets an id that no
    /// session of the server's can have.
    pub open spec fn wf(&self) -> bool {
        self.sessions.wf() && self.next_capture >= FIRST_CAPTURE_ID
    }

    /// The session a window shows has a client.
    pub open spec fn is_attended(&self, view_id: ViewId) -> bool {
        let id = self.window_ids@[view_id];
        self.sessions@.contains_key(id) && self.sessions@[id].connected
    }

    /// The windows are as they were.
    pub open spec fn same_windows(&self, other: &Console) -> bool {
        &&& self.window_ids@ == other.window_ids@
        &&& self.session_windows@ == other.session_windows@
        &&& self.next_capture == other.next_capture
    }

    /// What a server event does, and what is to be done to the desktop.
    pub open spec fn decided(
        &self,
        ev: crate::registry::EventView,
        after: &Console,
        intent: Option<IntentView>,
    ) -> bool {
        match ev {
            crate::registry::EventView::Opened { id, name, port, kind } => {
                &&& after.sessions@ == self.sessions@
                &&& after.same_windows(self)
                &&& intent == Some(IntentView::CreateWindow { id, name, port, kind })
            },
            crate::registry::EventView::Attached { id, reattached } => {
                &&& crate::session::attached_one(
                    self.sessions@,
                    id,
                    reattached,
                    after.sessions@,
                )
                &&& after.same_windows(self)
                &&& intent == retitling(after.sessions@, after.session_windows@, id)
            },
            crate::registry::EventView::Bytes { id, data } => {
                &&& crate::session::fed_one(self.sessions@, id, data, after.sessions@)
                &&& after.same_windows(self)
                &&& intent is None
            },
            crate::registry::EventView::Disconnected { id } => {
                &&& crate::session::disconnected_one(self.sessions@, id, after.sessions@)
                &&& after.same_windows(self)
                &&& intent == retitling(after.sessions@, after.session_windows@, id)
            },
            crate::registry::EventView::Closed { id } => {
                &&& after.sessions@ == self.sessions@.remove(id)
                &&& after.session_windows@ == self.session_windows@.remove(id)
                &&& after.next_capture == self.next_capture
                &&& if self.session_windows@.contains_key(id) {
                    let view_id = self.session_windows@[id];
                    &&& after.window_ids@ == self.window_ids@.remove(view_id)
                    &&& intent == Some(IntentView::CloseWindow { view_id })
                } else {
                    &&& after.window_ids@ == self.window_ids@
                    &&& intent is None
                }
            },
        }
    }

    /// Decides what a server event means: keeps the books, and says what (if
    /// anything) is to be done to the desktop.
    pub fn decide_server_event(&mut self, ev: ServerEvent) -> (r: Option<ConsoleIntent>)
        requires
            old(self).wf(),
        ensures
            final(self).wf(),
            old(self).decided(ev@, final(self), intent_view(r)),
    {
        match ev {
            ServerEvent::Opened { id, name, port, kind } => Some(
                ConsoleIntent::CreateWindow { id, name, port, kind },
            ),
            ServerEvent::Attached { id, reattached } => {
                self.sessions.mark_attached(id, reattached);
                self.retitle_intent(id)
            },
            ServerEvent::Bytes { id, data } => {
                self.sessions.feed(id, data.as_slice());
                None
            },
            ServerEvent::Disconnected { id } => {
                self.sessions.mark_disconnected(id);
                self.retitle_intent(id)
            },
            ServerEvent::Closed { id } => {
                let _ = self.sessions.remove(id);
                match self.session_windows.remove(&id) {
                    Some(view_id) => {
                        self.window_ids.remove(&view_id);
                        Some(ConsoleIntent::CloseWindow { view_id })
                    },
                    None => None,
                }
            },
        }
    }

    /// The retitling of a session's window, if it still has one and still has
    /// a title to show.
    fn retitle_intent(&self, id: SessionId) -> (r: Option<ConsoleIntent>)
        ensures
            intent_view(r) == retitling(self.sessions@, self.session_windows@, id),
    {
        let view_id: ViewId = match self.session_windows.get(&id) {
            Some(v) => *v,
            None => {
                return None;
            },
        };
        match self.sessions.window_title(id) {
            Some(title) => Some(ConsoleIntent::Retitle { view_id, title }),
            None => None,
        }
    }

    /// The session a window shows, if it shows one.
    pub open spec fn shown_in(&self, view_id: Option<ViewId>) -> Option<SessionId> {
        match view_id {
            Some(v) => if self.window_ids@.contains_key(v) {
                Some(self.window_ids@[v])
            } else {
                None
            },
            None => None,
        }
    }

    /// The text that is selected in a session: its scrollback, once it has
    /// been selected.
    pub open spec fn selection(&self, id: Option<SessionId>) -> Option<Seq<char>> {
        match id {
            Some(i) => if self.sessions@.contains_key(i) && self.sessions@[i].view.selected {
                Some(crate::streamview::joined(self.sessions@[i].view.shown_lines()))
            } else {
                None
            },
            None => None,
        }
    }

    /// There is something selected to copy.
    pub open spec fn copyable(&self, id: Option<SessionId>) -> bool {
        match self.selection(id) {
            Some(text) => text.len() > 0,
            None => false,
        }
    }

    /// A window shows a session without a client.
    pub open spec fn is_stale(&self, view_id: ViewId) -> bool {
        self.window_ids@.contains_key(view_id) && !self.is_attended(view_id)
    }

    /// The session the window on top shows.
    fn focused(&self, top: Option<ViewId>) -> (r: Option<SessionId>)
        ensures
            r == self.shown_in(top),
    {
        match top {
            Some(v) => match self.window_ids.get(&v) {
                Some(id) => Some(*id),
                None => None,
            },
            None => None,
        }
    }

    /// Whether the focused window has selected text to copy.
    pub fn can_copy(&self, focused_id: Option<SessionId>) -> (r: bool)
        ensures
            r == self.copyable(focused_id),
    {
        match focused_id {
            Some(id) => match self.sessions.selected_text(id) {
                Some(text) => chars_of(text.as_str()).len() > 0,
                None => false,
            },
            None => false,
        }
    }

    /// The windows that show a session without a client, each once.
    pub fn stale_windows(&self) -> (r: Vec<ViewId>)
        ensures
            r@.no_duplicates(),
            forall|v: ViewId| #[trigger] r@.contains(v) <==> self.is_stale(v),
    {
        let keys = keys_of(&self.window_ids);
        let mut out: Vec<ViewId> = Vec::new();
        let mut i: usize = 0;
        while i < keys.len()
            invariant
                i <= keys@.len(),
                keys@.no_duplicates(),
                forall|v: ViewId| #[trigger] keys@.contains(v) <==> self.window_ids@.contains_key(v),
                out@.no_duplicates(),
                forall|v: ViewId| #[trigger]
                    out@.contains(v) <==> keys@.take(i as int).contains(v) && !self.is_attended(v),
            decreases keys@.len() - i,
        {
            let v: ViewId = keys[i];
            let ghost done = keys@.take(i as int);
            let ghost before = out@;
            assert(keys@.contains(v));
            assert(keys@.take(i + 1) =~= done.push(v));
            assert(!done.contains(v));
            let connected: bool = match self.window_ids.get(&v) {
                Some(id) => self.sessions.is_connected(*id),
                None => true,
            };
            assert(connected == self.is_attended(v));
            if !connected {
                assert(!before.contains(v));
                out.push(v);
                assert forall|a: int, b: int| 0 <= a < b < out@.len() implies out@[a] != out@[b] by {
                    assert(before.contains(before[a]));
                }
            }
            proof {
                assert forall|w: ViewId| #[trigger] out@.contains(w) <==> keys@.take(
                    i + 1,
                ).contains(w) && !self.is_attended(w) by {
                    lemma_push_contains(done, v, w);
                    lemma_push_contains(before, v, w);
                }
            }
            i += 1;
        }
        assert(keys@.take(i as int) =~= keys@);
        out
    }

    /// Whether any window shows a session without a client.
    pub fn has_stale_windows(&self) -> (r: bool)
        ensures
            r == exists|v: ViewId| self.is_stale(v),
    {
        let stale = self.stale_windows();
        let r: bool = stale.len() > 0;
        proof {
            if r {
                assert(stale@.contains(stale@[0]));
                assert(self.is_stale(stale@[0]));
            } else {
                assert forall|v: ViewId| !self.is_stale(v) by {
                    assert(!stale@.contains(v));
                }
            }
        }
        r
    }

    /// Which commands have something to act on: Copy needs selected text in
    /// the window on top; Next, Tile and Cascade need more than one window;
    /// Save As, Select All and Clear need a stream window on top; Cleanup
    /// needs a window without a client.
    pub fn sync_command_state(&self, top: Option<ViewId>, tileable: usize) -> (r: Vec<
        (CommandId, bool),
    >)
        ensures
            r@ == seq![
                (cmd::CM_COPY, self.copyable(self.shown_in(top))),
                (cmd::CM_NEXT, tileable > 1),
                (cmd::CM_TILE_WINDOWS, tileable > 1),
                (cmd::CM_CASCADE_WINDOWS, tileable > 1),
                (cmd::CM_SAVE_AS, self.shown_in(top) is Some),
                (cmd::CM_SELECT_ALL, self.shown_in(top) is Some),
                (cmd::CM_CLEAR_WINDOW, self.shown_in(top) is Some),
                (cmd::CM_CLEANUP, exists|v: ViewId| self.is_stale(v)),
            ],
    {
        let focused_id = self.focused(top);
        let any: bool = focused_id.is_some();
        let many: bool = tileable > 1;
        let mut out: Vec<(CommandId, bool)> = Vec::new();
        out.push((cmd::CM_COPY, self.can_copy(focused_id)));
        out.push((cmd::CM_NEXT, many));
        out.push((cmd::CM_TILE_WINDOWS, many));
        out.push((cmd::CM_CASCADE_WINDOWS, many));
        out.push((cmd::CM_SAVE_AS, any));
        out.push((cmd::CM_SELECT_ALL, any));
        out.push((cmd::CM_CLEAR_WINDOW, any));
        out.push((cmd::CM_CLEANUP, self.has_stale_windows()));
        out
    }

    /// The copy of the selection in a session, with its confirmation; nothing
    /// where nothing is selected.
    fn copy_selection(&self, id: SessionId) -> (r: CommandAction)
        ensures
            if self.copyable(Some(id)) {
                r matches CommandAction::Copy { text, message } && text@ == self.selection(
                    Some(id),
                )->Some_0 && message@ == copied_message(text_lines(text@))
            } else {
                r is Done
            },
    {
        match self.sessions.selected_text(id) {
            Some(text) => {
                if chars_of(text.as_str()).len() == 0 {
                    return CommandAction::Done;
                }
                let lines: usize = count_lines(text.as_str());
                let mut message: String = String::from_str("Copied ");
                message.append(decimal_text(lines as u64).as_str());
                if lines == 1 {
                    message.append(" line to the clipboard.");
                } else {
                    message.append(" lines to the clipboard.");
                }
                CommandAction::Copy { text, message }
            },
            None => CommandAction::Done,
        }
    }

    /// Carries out a command on the window on top, and says what is left to
    /// do.
    pub fn handle_command(&mut self, top: Option<ViewId>, command: CommandId) -> (r: CommandAction)
        requires
            old(self).wf(),
        ensures
            final(self).wf(),
            final(self).same_windows(old(self)),
            ({
                let before = old(self).sessions@;
                let focused = old(self).shown_in(top);
                if command == cmd::CM_CLEAR_WINDOW {
                    &&& r is Done
                    &&& final(self).sessions@ == match focused {
                        Some(id) => if before.contains_key(id) {
                            before.insert(
                                id,
                                (crate::session::Stream {
                                    view: before[id].view.cleared(),
                                    ..before[id]
                                }),
                            )
                        } else {
                            before
                        },
                        None => before,
                    }
                } else if command == cmd::CM_SELECT_ALL {
                    &&& r is Done
                    &&& final(self).sessions@ == match focused {
                        Some(id) => if before.contains_key(id) {
                            before.insert(
                                id,
                                (crate::session::Stream {
                                    view: (crate::streamview::Scrollback {
                                        selected: true,
                                        ..before[id].view
                                    }),
                                    ..before[id]
                                }),
                            )
                        } else {
                            before
                        },
                        None => before,
                    }
                } else {
                    &&& final(self).sessions@ == before
                    &&& if command == cmd::CM_SAVE_AS {
                        match focused {
                            Some(id) => if before.contains_key(id) {
                                r matches CommandAction::SaveAs(text) && text@
                                    == crate::streamview::joined(before[id].view.shown_lines())
                            } else {
                                r is Done
                            },
                            None => r is Done,
                        }
                    } else if command == cmd::CM_COPY {
                        if old(self).copyable(focused) {
                            r matches CommandAction::Copy { text, message } && text@ == old(
                                self).selection(focused)->Some_0 && message@ == copied_message(
                                text_lines(text@),
                            )
                        } else {
                            r is Done
                        }
                    } else if command == cmd::CM_OPEN_CAPTURE {
                        r is OpenCapture
                    } else if command == cmd::CM_CLEANUP {
                        r matches CommandAction::CloseWindows(views) && views@.no_duplicates()
                            && forall|v: ViewId| #[trigger]
                            views@.contains(v) <==> old(self).is_stale(v)
                    } else if command == cmd::CM_TILE_WINDOWS {
                        r is Tile
                    } else if command == cmd::CM_CASCADE_WINDOWS {
                        r is Cascade
                    } else {
                        r is Done
                    }
                }
            }),
    {
        let focused_id = self.focused(top);
        if command == cmd::CM_CLEAR_WINDOW {
            if let Some(id) = focused_id {
                self.sessions.clear(id);
            }
            CommandAction::Done
        } else if command == cmd::CM_SAVE_AS {
            match focused_id {
                Some(id) => match self.sessions.plain_text(id) {
                    Some(text) => CommandAction::SaveAs(text),
                    None => CommandAction::Done,
                },
                None => CommandAction::Done,
            }
        } else if command == cmd::CM_SELECT_ALL {
            if let Some(id) = focused_id {
                self.sessions.select_all(id);
            }
            CommandAction::Done
        } else if command == cmd::CM_COPY {
            match focused_id {
                Some(id) => self.copy_selection(id),
                None => CommandAction::Done,
            }
        } else if command == cmd::CM_OPEN_CAPTURE {
            CommandAction::OpenCapture
        } else if command == cmd::CM_CLEANUP {
            CommandAction::CloseWindows(self.stale_windows())
        } else if command == cmd::CM_TILE_WINDOWS {
            CommandAction::Tile
        } else if command == cmd::CM_CASCADE_WINDOWS {
            CommandAction::Cascade
        } else {
            CommandAction::Done
        }
    }

    /// Registers the session behind a window about to be created at `bounds`,
    /// and returns the window's title. The title comes from the session
    /// itself, so a window that no client has attached to yet says so from
    /// the first frame.
    pub fn create_session(
        &mut self,
        id: SessionId,
        name: String,
        port: u16,
        kind: StreamKind,
        bounds: Rect,
    ) -> (r: String)
        requires
            old(self).wf(),
            fits_a_frame(bounds),
        ensures
            final(self).wf(),
            final(self).same_windows(old(self)),
            ({
                let fresh = crate::session::Stream::fresh(
                    name@,
                    port,
                    kind,
                    crate::streamview::Scrollback::empty(inside(bounds)),
                    all_on(),
                );
                &&& final(self).sessions@ == old(self).sessions@.insert(id, fresh)
                &&& r@ == fresh.title()
            }),
    {
        let view = StreamView::new(session_view_bounds(bounds));
        let fallback = format_title(name.as_str(), port);
        self.sessions.insert(id, name, port, kind, view, render_options());
        match self.sessions.window_title(id) {
            Some(title) => title,
            None => fallback,
        }
    }

    /// Notes the window a session of the server's was given.
    pub fn window_created(&mut self, id: SessionId, view_id: ViewId)
        requires
            old(self).wf(),
        ensures
            final(self).wf(),
            final(self).sessions@ == old(self).sessions@,
            final(self).window_ids@ == old(self).window_ids@.insert(view_id, id),
            final(self).session_windows@ == old(self).session_windows@.insert(id, view_id),
            final(self).next_capture == old(self).next_capture,
    {
        self.window_ids.insert(view_id, id);
        self.session_windows.insert(id, view_id);
    }

    /// Notes the window a capture was given. The server knows nothing of it.
    pub fn capture_window_created(&mut self, id: SessionId, view_id: ViewId)
        requires
            old(self).wf(),
        ensures
            final(self).wf(),
            final(self).sessions@ == old(self).sessions@,
            final(self).window_ids@ == old(self).window_ids@.insert(view_id, id),
            final(self).session_windows@ == old(self).session_windows@,
            final(self).next_capture == old(self).next_capture,
    {
        self.window_ids.insert(view_id, id);
    }

    /// Plays a capture into a session of its own, for a window about to be
    /// created at `bounds`, and returns the session's id. A capture is a token
    /// stream that is already over, and counts as connected.
    pub fn open_capture(&mut self, name: String, bytes: &[u8], bounds: Rect) -> (r: SessionId)
        requires
            old(self).wf(),
            fits_a_frame(bounds),
            old(self).next_capture < u64::MAX,
        ensures
            final(self).wf(),
            r == old(self).next_capture,
            r >= FIRST_CAPTURE_ID,
            final(self).next_capture == r + 1,
            final(self).window_ids@ == old(self).window_ids@,
            final(self).session_windows@ == old(self).session_windows@,
            final(self).sessions@ == old(self).sessions@.insert(r, final(self).sessions@[r]),
            exists|played: crate::session::Stream|
                crate::session::Stream::fresh(
                    name@,
                    0,
                    StreamKind::Tokens,
                    crate::streamview::Scrollback::empty(inside(bounds)),
                    all_on(),
                ).with_connected(true).fed(bytes@, played) && #[trigger] played.finished(
                    final(self).sessions@[r],
                ),
    {
        let id: SessionId = self.next_capture;
        self.next_capture = id + 1;
        let view = StreamView::new(session_view_bounds(bounds));
        self.sessions.insert(id, name, 0, StreamKind::Tokens, view, render_options());
        let ghost mut played = self.sessions@[id];
        match self.sessions.get_mut(id) {
            Some(state) => {
                state.connected = true;
                state.feed(bytes);
                proof {
                    played = state@;
                }
                state.finish();
            },
            None => {},
        }
        assert(played.finished(self.sessions@[id]));
        assert(self.sessions@ =~= old(self).sessions@.insert(id, self.sessions@[id]));
        id
    }

    /// Forgets the windows that are no longer among those `present` on the
    /// desktop, and drops the sessions they showed. Returns those sessions:
    /// the server is to close them too, because closing a window says that
    /// nobody wants to watch its stream any more.
    pub fn forget_closed_windows(&mut self, present: &Vec<ViewId>) -> (r: Vec<SessionId>)
        requires
            old(self).wf(),
        ensures
            final(self).wf(),
            final(self).next_capture == old(self).next_capture,
            forall|v: ViewId| #[trigger]
                final(self).window_ids@.contains_key(v) <==> old(self).window_ids@.contains_key(v)
                    && present@.contains(v),
            forall|v: ViewId| #[trigger]
                final(self).window_ids@.contains_key(v) ==> final(self).window_ids@[v] == old(
                    self).window_ids@[v],
            forall|id: SessionId| #[trigger]
                final(self).session_windows@.contains_key(id) <==> old(
                    self).session_windows@.contains_key(id) && present@.contains(
                    old(self).session_windows@[id],
                ),
            forall|id: SessionId| #[trigger]
                final(self).session_windows@.contains_key(id) ==> final(self).session_windows@[id]
                    == old(self).session_windows@[id],
            forall|id: SessionId| #[trigger]
                r@.contains(id) <==> old(self).was_closed(present@, id),
            forall|id: SessionId| #[trigger]
                final(self).sessions@.contains_key(id) <==> old(self).sessions@.contains_key(id)
                    && !r@.contains(id),
            forall|id: SessionId| #[trigger]
                final(self).sessions@.contains_key(id) ==> final(self).sessions@[id] == old(
                    self).sessions@[id],
    {
        let closed = drop_absent_views(&mut self.window_ids, present);
        drop_absent_windows(&mut self.session_windows, present);
        drop_sessions(&mut self.sessions, &closed);
        closed
    }

    /// A session was shown in a window that is not on the desktop any more.
    pub open spec fn was_closed(&self, present: Seq<ViewId>, id: SessionId) -> bool {
        exists|v: ViewId| #[trigger]
            self.window_ids@.contains_key(v) && !present.contains(v) && self.window_ids@[v] == id
    }
}

/// Drops the entries for windows that are not present, and returns the
/// sessions they showed.
fn drop_absent_views(windows: &mut HashMap<ViewId, SessionId>, present: &Vec<ViewId>) -> (r: Vec<
    SessionId,
>)
    ensures
        forall|v: ViewId| #[trigger]
            final(windows)@.contains_key(v) <==> old(windows)@.contains_key(v) && present@.contains(
                v,
            ),
        forall|v: ViewId| #[trigger]
            final(windows)@.contains_key(v) ==> final(windows)@[v] == old(windows)@[v],
        forall|id: SessionId| #[trigger]
            r@.contains(id) <==> exists|v: ViewId| #[trigger]
                old(windows)@.contains_key(v) && !present@.contains(v) && old(windows)@[v] == id,
{
    let keys = keys_of(windows);
    let ghost before = windows@;
    let mut closed: Vec<SessionId> = Vec::new();
    let mut i: usize = 0;
    while i < keys.len()
        invariant
            i <= keys@.len(),
            keys@.no_duplicates(),
            before == old(windows)@,
            forall|v: ViewId| #[trigger] keys@.contains(v) <==> before.contains_key(v),
            forall|v: ViewId| #[trigger]
                windows@.contains_key(v) <==> before.contains_key(v) && !(keys@.take(
                    i as int,
                ).contains(v) && !present@.contains(v)),
            forall|v: ViewId| #[trigger] windows@.contains_key(v) ==> windows@[v] == before[v],
            forall|id: SessionId| #[trigger]
                closed@.contains(id) <==> exists|v: ViewId| #[trigger]
                    keys@.take(i as int).contains(v) && !present@.contains(v) && before[v] == id,
        decreases keys@.len() - i,
    {
        let v: ViewId = keys[i];
        let ghost done = keys@.take(i as int);
        let ghost next = keys@.take(i + 1);
        let ghost closed_before = closed@;
        assert(next =~= done.push(v));
        assert(keys@.contains(v));
        assert(!done.contains(v));
        assert forall|w: ViewId| #[trigger] next.contains(w) <==> done.contains(w) || w == v by {
            lemma_push_contains(done, v, w);
        }
        let here: bool = contains_view(present, v);
        if !here {
            match windows.remove(&v) {
                Some(id) => {
                    closed.push(id);
                    assert(id == before[v]);
                    assert forall|other: SessionId| #[trigger]
                        closed@.contains(other) <==> closed_before.contains(other) || other
                            == id by {
                        lemma_push_contains(closed_before, id, other);
                    }
                },
                None => {},
            }
        }
        assert forall|id: SessionId| #[trigger]
            closed@.contains(id) <==> exists|w: ViewId| #[trigger]
                next.contains(w) && !present@.contains(w) && before[w] == id by {
            if closed_before.contains(id) {
                let w = choose|w: ViewId| #[trigger]
                    done.contains(w) && !present@.contains(w) && before[w] == id;
                assert(next.contains(w));
            }
            if !here && id == before[v] {
                assert(next.contains(v));
            }
            if exists|w: ViewId| #[trigger]
                next.contains(w) && !present@.contains(w) && before[w] == id {
                let w = choose|w: ViewId| #[trigger]
                    next.contains(w) && !present@.contains(w) && before[w] == id;
                if w != v {
                    assert(done.contains(w));
                }
            }
        }
        i += 1;
    }
    assert(keys@.take(i as int) =~= keys@);
    assert forall|id: SessionId| #[trigger]
        closed@.contains(id) <==> exists|v: ViewId| #[trigger]
            before.contains_key(v) && !present@.contains(v) && before[v] == id by {
        if closed@.contains(id) {
            let w = choose|w: ViewId| #[trigger]
                keys@.contains(w) && !present@.contains(w) && before[w] == id;
            assert(before.contains_key(w));
        }
        if exists|v: ViewId| #[trigger]
            before.contains_key(v) && !present@.contains(v) && before[v] == id {
            let w = choose|v: ViewId| #[trigger]
                before.contains_key(v) && !present@.contains(v) && before[v] == id;
            assert(keys@.contains(w));
        }
    }
    closed
}

/// Drops the entries that lead to windows that are not present.
fn drop_absent_windows(windows: &mut HashMap<SessionId, ViewId>, present: &Vec<ViewId>)
    ensures
        forall|id: SessionId| #[trigger]
            final(windows)@.contains_key(id) <==> old(windows)@.contains_key(id)
                && present@.contains(old(windows)@[id]),
        forall|id: SessionId| #[trigger]
            final(windows)@.contains_key(id) ==> final(windows)@[id] == old(windows)@[id],
{
    let keys = keys_of(windows);
    let ghost before = windows@;
    let mut i: usize = 0;
    while i < keys.len()
        invariant
            i <= keys@.len(),
            keys@.no_duplicates(),
            before == old(windows)@,
            forall|id: SessionId| #[trigger] keys@.contains(id) <==> before.contains_key(id),
            forall|id: SessionId| #[trigger]
                windows@.contains_key(id) <==> before.contains_key(id) && !(keys@.take(
                    i as int,
                ).contains(id) && !present@.contains(before[id])),
            forall|id: SessionId| #[trigger] windows@.contains_key(id) ==> windows@[id]
                == before[id],
        decreases keys@.len() - i,
    {
        let id: SessionId = keys[i];
        let ghost done = keys@.take(i as int);
        let ghost next = keys@.take(i + 1);
        assert(next =~= done.push(id));
        assert(keys@.contains(id));
        assert(!done.contains(id));
        assert forall|other: SessionId| #[trigger]
            next.contains(other) <==> done.contains(other) || other == id by {
            lemma_push_contains(done, id, other);
        }
        let here: bool = match windows.get(&id) {
            Some(v) => contains_view(present, *v),
            None => true,
        };
        if !here {
            windows.remove(&id);
        }
        i += 1;
    }
    assert(keys@.take(i as int) =~= keys@);
}

/// Drops sessions.
fn drop_sessions(sessions: &mut Sessions, ids: &Vec<SessionId>)
    requires
        old(sessions).wf(),
    ensures
        final(sessions).wf(),
        forall|id: SessionId| #[trigger]
            final(sessions)@.contains_key(id) <==> old(sessions)@.contains_key(id) && !ids@.contains(
                id,
            ),
        forall|id: SessionId| #[trigger]
            final(sessions)@.contains_key(id) ==> final(sessions)@[id] == old(sessions)@[id],
{
    let ghost before = sessions@;
    let mut i: usize = 0;
    while i < ids.len()
        invariant
            i <= ids@.len(),
            before == old(sessions)@,
            sessions.wf(),
            forall|id: SessionId| #[trigger]
                sessions@.contains_key(id) <==> before.contains_key(id) && !ids@.take(
                    i as int,
                ).contains(id),
            forall|id: SessionId| #[trigger] sessions@.contains_key(id) ==> sessions@[id]
                == before[id],
        decreases ids@.len() - i,
    {
        let id: SessionId = ids[i];
        let ghost done = ids@.take(i as int);
        let ghost next = ids@.take(i + 1);
        assert(next =~= done.push(id));
        assert forall|other: SessionId| #[trigger]
            next.contains(other) <==> done.contains(other) || other == id by {
            lemma_push_contains(done, id, other);
        }
        let _ = sessions.remove(id);
        i += 1;
    }
    assert(ids@.take(i as int) =~= ids@);
}

fn contains_view(views: &Vec<ViewId>, v: ViewId) -> (r: bool)
    ensures
        r == views@.contains(v),
{
    let mut i: usize = 0;
    while i < views.len()
        invariant
            i <= views@.len(),
            forall|j: int| 0 <= j < i ==> views@[j] != v,
        decreases views@.len() - i,
    {
        if views[i] == v {
            assert(views@[i as int] == v);
            return true;
        }
        i += 1;
    }
    false
}

/// The inside of a window's frame, one cell in from the outer bounds on every
/// side, in coordinates of its own.
pub open spec fn inside(bounds: Rect) -> Rect {
    Rect {
        a: Point { x: 0, y: 0 },
        b: Point {
            x: (bounds.spec_width() - 2) as i16,
            y: (bounds.spec_height() - 2) as i16,
        },
    }
}

/// The inside of a window's frame has a size that fits its coordinates.
pub open spec fn fits_a_frame(bounds: Rect) -> bool {
    &&& -0x8000 <= bounds.spec_width() - 2 && bounds.spec_width() <= 0x7fff
    &&& -0x8000 <= bounds.spec_height() - 2 && bounds.spec_height() <= 0x7fff
}

/// Bounds for a session's view, given the window's outer bounds. A window's
/// children are placed inside its frame, in coordinates that start there.
pub fn session_view_bounds(window_bounds: Rect) -> (r: Rect)
    requires
        fits_a_frame(window_bounds),
    ensures
        r == inside(window_bounds),
        r.a.x == 0 && r.a.y == 0,
        r.b.x == window_bounds.b.x - window_bounds.a.x - 2,
        r.b.y == window_bounds.b.y - window_bounds.a.y - 2,
{
    let width: i32 = window_bounds.width() - 2;
    let height: i32 = window_bounds.height() - 2;
    Rect::new(0, 0, width as i16, height as i16)
}

proof fn lemma_push_contains(s: Seq<u64>, a: u64, b: u64)
    ensures
        s.push(a).contains(b) <==> s.contains(b) || a == b,
{
    if s.contains(b) {
        let k = choose|k: int| 0 <= k < s.len() && s[k] == b;
        assert(s.push(a)[k] == b);
    }
    assert(s.push(a)[s.len() as int] == a);
}

/// The keys of a map, each once.
fn keys_of(m: &HashMap<u64, u64>) -> (r: Vec<u64>)
    ensures
        r@.no_duplicates(),
        forall|k: u64| #[trigger] r@.contains(k) <==> m@.contains_key(k),
{
    let mut out: Vec<u64> = Vec::new();
    for k in it: m.keys()
        invariant
            it.seq().unref().to_set() == m@.dom(),
            it.seq().no_duplicates(),
            out@ == it.seq().unref().take(it.index() as int),
            it.index() == it.seq().len() ==> out@ == it.seq().unref(),
    {
        out.push(*k);
        assert(out@ =~= it.seq().unref().take(it.index() as int + 1));
    }
    assert forall|k: u64| #[trigger] out@.contains(k) <==> m@.contains_key(k) by {
        assert(out@.to_set().contains(k) <==> m@.dom().contains(k));
    }
    out
}

/// How many lines a text has.
fn count_lines(text: &str) -> (r: usize)
    ensures
        r == text_lines(text@),
{
    let chars = chars_of(text);
    let mut n: usize = 0;
    let mut i: usize = 0;
    assert(chars@.take(0) =~= Seq::<char>::empty());
    while i < chars.len()
        invariant
            i <= chars@.len(),
            n <= i,
            chars@ == text@,
            n == text_lines(chars@.take(i as int)),
        decreases chars@.len() - i,
    {
        let ghost next = chars@.take(i + 1);
        assert(next.drop_last() =~= chars@.take(i as int));
        if i == 0 || chars[i - 1] == '\n' {
            n += 1;
        }
        i += 1;
    }
    assert(chars@.take(i as int) =~= chars@);
    n
}

/// Bounds for a new stream window: the room windows are tiled in, less the
/// shadow a window casts to the right and below, so that the shadow fits and
/// the title bar is not pushed off the screen to make room for it.
pub fn tile_window_bounds(tile: Rect, shadow_x: i16, shadow_y: i16) -> (r: Rect)
    requires
        -0x8000 <= tile.b.x - shadow_x <= 0x7fff,
        -0x8000 <= tile.b.y - shadow_y <= 0x7fff,
    ensures
        r.a == tile.a,
        r.b.x + shadow_x == tile.b.x,
        r.b.y + shadow_y == tile.b.y,
{
    Rect::new(tile.a.x, tile.a.y, tile.b.x - shadow_x, tile.b.y - shadow_y)
}

pub open spec fn at_most(limit: int, n: int) -> int {
    if n < limit {
        n
    } else {
        limit
    }
}

/// Bounds for a file dialog: centered on the screen, as large as the screen
/// allows up to 62 columns and 20 rows.
pub fn file_dialog_bounds(width: i16, height: i16) -> (r: Rect)
    ensures
        r.spec_width() == at_most(62, width as int),
        r.spec_height() == at_most(20, height as int),
        r.a.x == (width - r.spec_width()) / 2,
        r.a.y == (height - r.spec_height()) / 2,
        r.b.x - r.a.x == if width < 62 {
            width as int
        } else {
            62
        },
        r.b.y - r.a.y == if height < 20 {
            height as int
        } else {
            20
        },
{
    let w: i16 = if width < 62 {
        width
    } else {
        62
    };
    let h: i16 = if height < 20 {
        height
    } else {
        20
    };
    let x: i16 = (width - w) / 2;
    let y: i16 = (height - h) / 2;
    Rect::new(x, y, x + w, y + h)
}

/// Bounds for the status line: the last row of the screen.
pub fn status_line_bounds(width: i16, height: i16) -> (r: Rect)
    requires
        -0x8000 < height,
    ensures
        r.a.x == 0,
        r.b.x == width,
        r.a.y == height - 1,
        r.b.y == height,
{
    Rect::new(0, height - 1, width, height)
}

/// The status line's word on the sessions that have a client.
pub fn status_text(live: usize) -> (r: String)
    ensures
        r@ == crate::text::decimal(live as nat) + " conn"@,
{
    let mut text: String = decimal_text(live as u64);
    text.append(" conn");
    text
}

/// What the command line asks for.
#[derive(Debug, Clone, Copy, PartialEq, Eq, Structural)]
pub enum CliRequest {
    Run,
    Version,
    Help,
}

/// What one argument asks for.
pub open spec fn requested_by(arg: Seq<char>) -> CliRequest {
    if arg == "-V"@ || arg == "--version"@ {
        CliRequest::Version
    } else if arg == "-h"@ || arg == "--help"@ {
        CliRequest::Help
    } else {
        CliRequest::Run
    }
}

/// What the arguments ask for: the first of them that asks for something
/// decides, and where none does the console runs.
pub open spec fn requested(args: Seq<String>) -> CliRequest
    decreases args.len(),
{
    if args.len() == 0 {
        CliRequest::Run
    } else if requested_by(args[0]@) != CliRequest::Run {
        requested_by(args[0]@)
    } else {
        requested(args.skip(1))
    }
}

/// Decides what the command line asks for. The flags for the version and the
/// help are answered before any terminal is set up; everything else is
/// ignored.
pub fn handle_cli_flags(args: &Vec<String>) -> (r: CliRequest)
    ensures
        r == requested(args@),
{
    let mut i: usize = 0;
    assert(args@.skip(0) =~= args@);
    while i < args.len()
        invariant
            i <= args@.len(),
            requested(args@) == requested(args@.skip(i as int)),
        decreases args@.len() - i,
    {
        let arg = args[i].as_str();
        assert(args@.skip(i as int)[0] == args@[i as int]);
        assert(args@.skip(i as int).skip(1) =~= args@.skip(i + 1));
        if same_text(arg, "-V") || same_text(arg, "--version") {
            return CliRequest::Version;
        }
        if same_text(arg, "-h") || same_text(arg, "--help") {
            return CliRequest::Help;
        }
        i += 1;
    }
    CliRequest::Run
}

/// When the periodic work of the main loop was last done.
#[derive(Debug, Clone, Copy, PartialEq, Eq, Structural)]
pub struct Ticks {
    pub last_reap: u64,
    pub last_status: u64,
}

/// The periodic work that is due.
#[derive(Debug, Clone, Copy, PartialEq, Eq, Structural)]
pub struct Due {
    pub reap: bool,
    pub status: bool,
}

impl Ticks {
    pub fn new(now: u64) -> (r: Ticks)
        ensures
            r == (Ticks { last_reap: now, last_status: now }),
    {
        Ticks { last_reap: now, last_status: now }
    }

    /// Says what is due, and counts it as done. Idle sessions are swept for
    /// after more than [`REAP_INTERVAL`], the status line is updated after
    /// [`STATUS_INTERVAL`] or more.
    pub fn tick(&mut self, now: u64) -> (r: Due)
        ensures
            r.reap == (now - old(self).last_reap > REAP_INTERVAL),
            r.status == (now - old(self).last_status >= STATUS_INTERVAL),
            r.reap == (now - old(self).last_reap > 60 * 1_000_000_000),
            r.status == (now - old(self).last_status >= 1_000_000_000),
            final(self).last_reap == if r.reap {
                now
            } else {
                old(self).last_reap
            },
            final(self).last_status == if r.status {
                now
            } else {
                old(self).last_status
            },
    {
        let reap: bool = now > self.last_reap && now - self.last_reap > REAP_INTERVAL;
        let status: bool = now > self.last_status && now - self.last_status >= STATUS_INTERVAL;
        if reap {
            self.last_reap = now;
        }
        if status {
            self.last_status = now;
        }
        Due { reap, status }
    }
}

/// A window's standing follows its session's client: stale while there is
/// none, attended once one has attached, stale again when it is gone.
pub proof fn lemma_cleanup_follows_the_client(
    before: &Console,
    attached: &Console,
    gone: &Console,
    view_id: ViewId,
    reattached: bool,
    shown: Option<IntentView>,
    shown_again: Option<IntentView>,
)
    requires
        before.window_ids@.contains_key(view_id),
        before.sessions@.contains_key(before.window_ids@[view_id]),
        before.decided(
            crate::registry::EventView::Attached { id: before.window_ids@[view_id], reattached },
            attached,
            shown,
        ),
        attached.decided(
            crate::registry::EventView::Disconnected { id: before.window_ids@[view_id] },
            gone,
            shown_again,
        ),
    ensures
        !attached.is_stale(view_id),
        gone.is_stale(view_id),
{
}

/// A session the server has dropped leaves nothing behind that a later command
/// could be attributed to: its state, its window's entry and the entry that
/// leads to the window are gone, and the window is to be closed.
pub proof fn lemma_closed_leaves_no_trace(
    before: &Console,
    after: &Console,
    id: SessionId,
    intent: Option<IntentView>,
)
    requires
        before.session_windows@.contains_key(id),
        before.decided(crate::registry::EventView::Closed { id }, after, intent),
    ensures
        !after.sessions@.contains_key(id),
        !after.session_windows@.contains_key(id),
        !after.window_ids@.contains_key(before.session_windows@[id]),
        intent == Some(IntentView::CloseWindow { view_id: before.session_windows@[id] }),
{
}

/// An event about one session leaves every other session as it is.
pub proof fn lemma_other_sessions_are_untouched(
    before: &Console,
    after: &Console,
    ev: crate::registry::EventView,
    intent: Option<IntentView>,
    id: SessionId,
    other: SessionId,
)
    requires
        before.decided(ev, after, intent),
        id != other,
        match ev {
            crate::registry::EventView::Opened { id: i, .. } => i == id,
            crate::registry::EventView::Attached { id: i, .. } => i == id,
            crate::registry::EventView::Bytes { id: i, .. } => i == id,
            crate::registry::EventView::Disconnected { id: i } => i == id,
            crate::registry::EventView::Closed { id: i } => i == id,
        },
    ensures
        after.sessions@.contains_key(other) == before.sessions@.contains_key(other),
        before.sessions@.contains_key(other) ==> after.sessions@[other] == before.sessions@[other],
{
}

/// A text has as many lines as newlines, and one more if something stands
/// behind the last of them.
pub proof fn lemma_lines_of_a_text(text: Seq<char>)
    ensures
        text_lines(text) == text.filter(|c: char| c == '\n').len() + (if text.len() > 0
            && text.last() != '\n' {
            1int
        } else {
            0
        }),
    decreases text.len(),
{
    reveal(Seq::filter);
    if text.len() > 0 {
        let init = text.drop_last();
        lemma_lines_of_a_text(init);
        if text.len() > 1 {
            assert(init.last() == text[text.len() - 2]);
        }
    }
}

/// The message on a copy says how many lines it was, one line being one line.
pub proof fn lemma_copies_are_counted(lines: nat)
    ensures
        lines == 1 ==> copied_message(lines) == "Copied 1 line to the clipboard."@,
        lines != 1 ==> copied_message(lines) == "Copied "@ + crate::text::decimal(lines)
            + " lines to the clipboard."@,
{
    reveal_strlit("Copied ");
    reveal_strlit(" line to the clipboard.");
    reveal_strlit("Copied 1 line to the clipboard.");
    if lines == 1 {
        assert(crate::text::decimal(1) =~= seq!['1']);
        assert(copied_message(lines) =~= "Copied 1 line to the clipboard."@);
    }
}

/// The first argument that asks for the version or for help decides; where
/// there is none the console runs.
pub proof fn lemma_first_flag_decides(args: Seq<String>, i: int)
    ensures
        (forall|j: int|
            0 <= j < args.len() ==> (#[trigger] args[j])@ != "-V"@ && args[j]@ != "--version"@
                && args[j]@ != "-h"@ && args[j]@ != "--help"@) ==> requested(args)
            == CliRequest::Run,
        0 <= i < args.len() && (forall|j: int|
            0 <= j < i ==> (#[trigger] args[j])@ != "-V"@ && args[j]@ != "--version"@ && args[j]@
                != "-h"@ && args[j]@ != "--help"@) ==> {
            &&& args[i]@ == "-V"@ || args[i]@ == "--version"@ ==> requested(args)
                == CliRequest::Version
            &&& args[i]@ == "-h"@ || args[i]@ == "--help"@ ==> requested(args) == CliRequest::Help
        },
    decreases args.len(),
{
    reveal_strlit("-V");
    reveal_strlit("--version");
    reveal_strlit("-h");
    reveal_strlit("--help");
    assert("-V"@[1] != "-h"@[1]);
    assert("--version"@.len() != "--help"@.len() && "-V"@.len() != "--help"@.len() && "-h"@.len()
        != "--version"@.len());
    if args.len() > 0 {
        let rest = args.skip(1);
        lemma_first_flag_decides(rest, i - 1);
        if forall|j: int|
            0 <= j < args.len() ==> (#[trigger] args[j])@ != "-V"@ && args[j]@ != "--version"@
                && args[j]@ != "-h"@ && args[j]@ != "--help"@ {
            assert(args[0]@ != "-V"@);
            assert forall|j: int| 0 <= j < rest.len() implies (#[trigger] rest[j])@ != "-V"@
                && rest[j]@ != "--version"@ && rest[j]@ != "-h"@ && rest[j]@ != "--help"@ by {
                assert(rest[j] == args[j + 1]);
            }
        }
        if 0 < i < args.len() && (forall|j: int|
            0 <= j < i ==> (#[trigger] args[j])@ != "-V"@ && args[j]@ != "--version"@ && args[j]@
                != "-h"@ && args[j]@ != "--help"@) {
            assert(args[0]@ != "-V"@);
            assert(rest[i - 1] == args[i]);
            assert forall|j: int| 0 <= j < i - 1 implies (#[trigger] rest[j])@ != "-V"@
                && rest[j]@ != "--version"@ && rest[j]@ != "-h"@ && rest[j]@ != "--help"@ by {
                assert(rest[j] == args[j + 1]);
            }
        }
    }
}

/// A session without a client is dropped after half an hour, as the console
/// sweeps, and not before.
pub proof fn lemma_half_an_hour(books: crate::registry::Registry, i: int, since: u64, now: u64)
    requires
        books.wf(),
        0 <= i < books.sessions.len(),
        books.sessions[i].live,
    ensures
        ({
            let s = books.sessions[i];
            let lost = books.detached(s.id, s.attachment, since);
            let after = lost.reaped(now, SESSION_TTL);
            if now - since > 30 * 60 * 1_000_000_000 {
                forall|k: int|
                    0 <= k < after.sessions.len() ==> (#[trigger] after.sessions[k]).id != s.id
            } else {
                after.sessions.contains(
                    crate::registry::SessionView { live: false, idle_since: Some(since), ..s },
                )
            }
        }),
{
    crate::registry::lemma_lost_session_is_swept(books, i, since, now, SESSION_TTL);
}

/// A new session asks for a window under its name, and nothing else happens
/// until the window is there.
pub proof fn lemma_new_session_asks_for_a_window(
    before: &Console,
    after: &Console,
    id: SessionId,
    name: Seq<char>,
    port: u16,
    kind: StreamKind,
    intent: Option<IntentView>,
)
    requires
        before.decided(
            crate::registry::EventView::Opened { id, name, port, kind },
            after,
            intent,
        ),
    ensures
        intent == Some(IntentView::CreateWindow { id, name, port, kind }),
        after.sessions@ == before.sessions@,
        after.window_ids@ == before.window_ids@,
        after.session_windows@ == before.session_windows@,
        after.next_capture == before.next_capture,
{
}

/// A client that comes or goes changes the title of its session's window, if
/// there is one, to what the session is called then, and moves no window.
pub proof fn lemma_window_is_retitled(
    before: &Console,
    after: &Console,
    id: SessionId,
    reattached: bool,
    intent: Option<IntentView>,
)
    requires
        before.decided(
            crate::registry::EventView::Attached { id, reattached },
            after,
            intent,
        ) || before.decided(crate::registry::EventView::Disconnected { id }, after, intent),
    ensures
        before.session_windows@.contains_key(id) && before.sessions@.contains_key(id) ==> intent
            == Some(
            IntentView::Retitle {
                view_id: before.session_windows@[id],
                title: after.sessions@[id].title(),
            },
        ),
        !before.session_windows@.contains_key(id) || !before.sessions@.contains_key(id)
            ==> intent is None,
        after.window_ids@ == before.window_ids@,
        after.session_windows@ == before.session_windows@,
        after.next_capture == before.next_capture,
{
}

/// The bytes of a session go to that session, and nothing is to be done about
/// windows.
pub proof fn lemma_bytes_go_to_their_session(
    before: &Console,
    after: &Console,
    id: SessionId,
    data: Seq<u8>,
    intent: Option<IntentView>,
)
    requires
        before.decided(crate::registry::EventView::Bytes { id, data }, after, intent),
    ensures
        intent is None,
        before.sessions@.contains_key(id) ==> before.sessions@[id].fed(data, after.sessions@[id]),
        after.window_ids@ == before.window_ids@,
        after.session_windows@ == before.session_windows@,
        after.next_capture == before.next_capture,
{
}

/// What can be copied is the text of the session in the window on top, once it
/// has been selected and if there is any.
pub proof fn lemma_what_can_be_copied(c: &Console, view_id: ViewId)
    ensures
        ({
            let id = c.window_ids@[view_id];
            let text = crate::streamview::joined(c.sessions@[id].view.shown_lines());
            c.copyable(c.shown_in(Some(view_id))) <==> c.window_ids@.contains_key(view_id)
                && c.sessions@.contains_key(id) && c.sessions@[id].view.selected && text.len() > 0
        }),
        ({
            let id = c.window_ids@[view_id];
            c.copyable(c.shown_in(Some(view_id))) ==> c.selection(c.shown_in(Some(view_id)))
                == Some(crate::streamview::joined(c.sessions@[id].view.shown_lines()))
        }),
        !c.copyable(c.shown_in(None)),
        c.shown_in(Some(view_id)) is Some <==> c.window_ids@.contains_key(view_id),
        c.window_ids@.contains_key(view_id) ==> c.shown_in(Some(view_id)) == Some(
            c.window_ids@[view_id],
        ),
{
}

/// A window is stale if it shows a session that is gone or has no client.
pub proof fn lemma_what_is_stale(c: &Console, view_id: ViewId)
    ensures
        c.is_stale(view_id) <==> c.window_ids@.contains_key(view_id) && !(c.sessions@.contains_key(
            c.window_ids@[view_id],
        ) && c.sessions@[c.window_ids@[view_id]].connected),
{
}

/// A session counts as closed if it was shown in a window that is not there
/// any more.
pub proof fn lemma_what_was_closed(c: &Console, present: Seq<ViewId>, view_id: ViewId)
    requires
        c.window_ids@.contains_key(view_id),
        !present.contains(view_id),
    ensures
        c.was_closed(present, c.window_ids@[view_id]),
{
}

/// A session all of whose windows are there was not closed.
pub proof fn lemma_what_was_not_closed(c: &Console, present: Seq<ViewId>, id: SessionId)
    requires
        forall|v: ViewId| #[trigger]
            c.window_ids@.contains_key(v) && c.window_ids@[v] == id ==> present.contains(v),
    ensures
        !c.was_closed(present, id),
{
}

/// Clients send their handshakes to port 7878.
pub proof fn lemma_well_known_port()
    ensures
        CONTROL_PORT == 7878,
{
}

/// A session that the server has closed is gone, whether it had a window or
/// not, and its window with it; all other sessions and windows stay.
pub proof fn lemma_closed_session_goes_alone(
    before: &Console,
    after: &Console,
    id: SessionId,
    intent: Option<IntentView>,
)
    requires
        before.decided(crate::registry::EventView::Closed { id }, after, intent),
    ensures
        after.sessions@ == before.sessions@.remove(id),
        after.session_windows@ == before.session_windows@.remove(id),
        before.session_windows@.contains_key(id) ==> {
            &&& after.window_ids@ == before.window_ids@.remove(before.session_windows@[id])
            &&& intent == Some(
                IntentView::CloseWindow { view_id: before.session_windows@[id] },
            )
        },
        !before.session_windows@.contains_key(id) ==> after.window_ids@ == before.window_ids@
            && intent is None,
        after.next_capture == before.next_capture,
{
}

/// Windows are the same if every window shows what it showed, every session
/// has the window it had, and the next capture gets the number it would have
/// got.
pub proof fn lemma_same_windows(a: &Console, b: &Console)
    ensures
        a.same_windows(b) <==> a.window_ids@ == b.window_ids@ && a.session_windows@
            == b.session_windows@ && a.next_capture == b.next_capture,
{
}

/// What is to be done is told as it is.
pub proof fn lemma_intents_as_they_are(
    id: SessionId,
    name: String,
    port: u16,
    kind: StreamKind,
    view_id: ViewId,
    title: String,
)
    ensures
        intent_view(None) is None,
        intent_view(Some(ConsoleIntent::CreateWindow { id, name, port, kind })) == Some(
            IntentView::CreateWindow { id, name: name@, port, kind },
        ),
        intent_view(Some(ConsoleIntent::Retitle { view_id, title })) == Some(
            IntentView::Retitle { view_id, title: title@ },
        ),
        intent_view(Some(ConsoleIntent::CloseWindow { view_id })) == Some(
            IntentView::CloseWindow { view_id },
        ),
{
}

/// The view inside a window starts in its own corner and is two columns and
/// two rows smaller than the window: one for the frame on each side.
pub proof fn lemma_frame_takes_one_cell_all_around(bounds: Rect)
    requires
        fits_a_frame(bounds),
    ensures
        inside(bounds).a == (Point { x: 0, y: 0 }),
        inside(bounds).b.x == bounds.b.x - bounds.a.x - 2,
        inside(bounds).b.y == bounds.b.y - bounds.a.y - 2,
{
}

} // verus!
