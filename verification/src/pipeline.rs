//! Raw stream bytes to styled screen lines.
//!
//! ```text
//! bytes -> StreamRenderer -> TerminalSink -> TokenRenderer<Vec<u8>> -> ANSI
//!       -> AnsiLineAssembler -> cells -> StreamView
//! ```

use trace_stream::render::TokenRenderer;
use trace_stream::viz::StreamRenderer;
use trace_stream::TerminalSink;
use vstd::prelude::*;
use vstd::string::StringExecFns;

use crate::ansiasm::AnsiLineAssembler;
use crate::screen::Cell;
use crate::streamview::StreamView;
use crate::text::{cut_at_end, decode_lossy};

verus! {

/// How a token stream is rendered.
#[derive(Debug, Clone, Copy, PartialEq, Eq, Structural)]
pub struct RenderOptions {
    /// Emit ANSI colour and attribute sequences.
    pub use_color: bool,
    /// Interpret thinking tags and dim thinking text.
    pub format_thinking: bool,
    /// Interpret markdown cues.
    pub format_markdown: bool,
}

/// The streaming renderer for model output, writing into a buffer of bytes.
#[verifier::external_body]
#[derive(Debug)]
pub struct TokenStream {
    inner: StreamRenderer<TerminalSink<Vec<u8>>>,
}

/// What a renderer has been told.
pub ghost enum Heard {
    Text(Seq<char>),
    End,
}

/// The text among what a renderer has been told.
pub open spec fn heard_text(heard: Seq<Heard>) -> Seq<char>
    decreases heard.len(),
{
    if heard.len() == 0 {
        Seq::empty()
    } else {
        match heard.last() {
            Heard::Text(text) => heard_text(heard.drop_last()) + text,
            Heard::End => heard_text(heard.drop_last()),
        }
    }
}

/// A character that means nothing to the renderer: no markup starts with it or
/// ends with it, and it is not a control character that the renderer strips.
pub open spec fn is_unmarked(c: char) -> bool {
    &&& c != '<' && c != '*' && c != '`' && c != '|' && c != '\u{FF5C}'
    &&& c >= ' ' || c == '\t' || c == '\n' || c == '\r'
    &&& c != '\x7f'
}

/// Text the renderer has nothing to do with but pass on.
pub open spec fn is_unmarked_text(text: Seq<char>) -> bool {
    forall|i: int| 0 <= i < text.len() ==> is_unmarked(#[trigger] text[i])
}

/// What a renderer has been told, as one text for each stretch between ends.
pub open spec fn runs(heard: Seq<Heard>) -> Seq<Seq<char>>
    decreases heard.len(),
{
    if heard.len() == 0 {
        seq![Seq::empty()]
    } else {
        match heard.last() {
            Heard::Text(text) => with_text(runs(heard.drop_last()), text),
            Heard::End => runs(heard.drop_last()).push(Seq::empty()),
        }
    }
}

/// The last run goes on with `text`.
pub open spec fn with_text(runs: Seq<Seq<char>>, text: Seq<char>) -> Seq<Seq<char>> {
    runs.drop_last().push(runs.last() + text)
}

pub open spec fn stands_at(text: Seq<char>, part: Seq<char>, i: int) -> bool {
    0 <= i && i + part.len() <= text.len() && text.subrange(i, i + part.len()) == part
}

pub open spec fn holds(text: Seq<char>, part: Seq<char>) -> bool {
    exists|i: int| stands_at(text, part, i)
}

/// Text in which no tool call opens: each way to open one starts with `<`, and
/// is `<tool_call>` or has a full-width bar in it.
pub open spec fn opens_no_call(text: Seq<char>) -> bool {
    !text.contains('<') || (!text.contains('\u{FF5C}') && !holds(text, "<tool_call>"@))
}

/// Text in which no call names `write`, the tool that writes a file, in one of
/// the three ways a call has to name its tool, and in which no thinking ends.
pub open spec fn writes_no_file(text: Seq<char>) -> bool {
    &&& !holds(text, "\"write\""@)
    &&& !holds(text, "=write"@)
    &&& !holds(text, seq!['\u{FF5C}'] + "write"@)
    &&& !holds(text, "</think>"@)
}

/// Text of which the renderer makes the same wherever it runs and however the
/// text is cut into pieces. Such is all text in which no tool call opens, and
/// it may go on with text in which calls write no file and no thinking ends.
pub open spec fn is_reproducible(text: Seq<char>) -> bool {
    exists|n: int|
        0 <= n <= text.len() && opens_no_call(#[trigger] text.take(n)) && writes_no_file(
            text.skip(n),
        )
}

/// What a renderer with these options and tool names writes when it is told
/// these runs of text, with an end between each two.
pub uninterp spec fn rendered(
    options: RenderOptions,
    names: Seq<Seq<char>>,
    runs: Seq<Seq<char>>,
) -> Seq<u8>;

/// What a renderer has been told since it was made, in order.
pub uninterp spec fn told(stream: TokenStream) -> Seq<Heard>;

/// The bytes a renderer has written since it was made.
pub uninterp spec fn written(stream: TokenStream) -> Seq<u8>;

/// The bytes a renderer has written into its buffer and nobody has taken yet.
pub uninterp spec fn unread(stream: TokenStream) -> Seq<u8>;

/// The options and the tool names a renderer was made with.
pub uninterp spec fn made_with(stream: TokenStream) -> (RenderOptions, Seq<Seq<char>>);

pub open spec fn name_views(names: Seq<String>) -> Seq<Seq<char>> {
    names.map_values(|s: String| s@)
}

/// `StreamRenderer::new` over a `TerminalSink` and a `TokenRenderer` with an
/// empty buffer, then `set_tool_names`: the options and names are those given,
/// nothing has been told and nothing has been written yet, which is what a
/// renderer writes that has been told nothing.
#[verifier::external_body]
fn start_stream(opts: RenderOptions, names: Vec<String>) -> (r: TokenStream)
    ensures
        made_with(r) == (opts, name_views(names@)),
        told(r) == Seq::<Heard>::empty(),
        written(r) == Seq::<u8>::empty(),
        written(r) == rendered(opts, name_views(names@), runs(told(r))),
        unread(r) == Seq::<u8>::empty(),
{
    let opts = trace_stream::render::RenderOptions {
        use_color: opts.use_color,
        format_thinking: opts.format_thinking,
        format_markdown: opts.format_markdown,
    };
    let mut inner = StreamRenderer::new(TerminalSink::new(TokenRenderer::new(Vec::new(), opts)));
    inner.set_tool_names(names);
    TokenStream { inner }
}

/// `StreamRenderer::push` renders a further piece of text: the renderer has
/// been told that text, appends what it writes to its buffer, and keeps its
/// options and names. As long as it has been told nothing but text without
/// markup and control characters, it writes that text as it is. As long as the
/// text is reproducible, what it has written follows from its options, its
/// names and the text it was told between ends: it goes through the text
/// character by character, and holds back the start of a tag until it knows
/// whether it is one. What it writes else is not stated: the banner of a call
/// that writes a file says whether the file exists, and a tag that ends
/// thinking is noticed in the middle of a call's parameter only where it comes
/// in one piece.
#[verifier::external_body]
fn render_text(stream: &mut TokenStream, text: &str)
    ensures
        told(*final(stream)) == told(*old(stream)).push(Heard::Text(text@)),
        is_unmarked_text(heard_text(told(*old(stream)))) && is_unmarked_text(text@) ==> written(
            *final(stream),
        ) == written(*old(stream)) + vstd::utf8::encode_utf8(text@),
        is_reproducible(heard_text(told(*final(stream)))) ==> written(*final(stream)) == rendered(
            made_with(*final(stream)).0,
            made_with(*final(stream)).1,
            runs(told(*final(stream))),
        ),
        written(*old(stream)).is_prefix_of(written(*final(stream))),
        unread(*final(stream)) == unread(*old(stream)) + written(*final(stream)).skip(
            written(*old(stream)).len() as int,
        ),
        made_with(*final(stream)) == made_with(*old(stream)),
{
    stream.inner.push(text);
}

/// `StreamRenderer::finish` renders what was held back: the renderer has been
/// told the end, appends what it writes to its buffer, and keeps its options
/// and names. As long as it has been told nothing but text without markup and
/// control characters, nothing was held back and it writes nothing. As long as
/// the text is reproducible, what it has written follows from its options, its
/// names and the text it was told between ends. What it writes else is not
/// stated, for the same reasons.
#[verifier::external_body]
fn render_end(stream: &mut TokenStream)
    ensures
        told(*final(stream)) == told(*old(stream)).push(Heard::End),
        is_unmarked_text(heard_text(told(*old(stream)))) ==> written(*final(stream)) == written(
            *old(stream),
        ),
        is_reproducible(heard_text(told(*final(stream)))) ==> written(*final(stream)) == rendered(
            made_with(*final(stream)).0,
            made_with(*final(stream)).1,
            runs(told(*final(stream))),
        ),
        written(*old(stream)).is_prefix_of(written(*final(stream))),
        unread(*final(stream)) == unread(*old(stream)) + written(*final(stream)).skip(
            written(*old(stream)).len() as int,
        ),
        made_with(*final(stream)) == made_with(*old(stream)),
{
    stream.inner.finish();
}

/// `std::mem::take` on the buffer behind `TokenRenderer::sink_mut`: hands over
/// what has been written and leaves the buffer empty.
#[verifier::external_body]
fn take_rendered(stream: &mut TokenStream) -> (r: Vec<u8>)
    ensures
        r@ == unread(*old(stream)),
        unread(*final(stream)) == Seq::<u8>::empty(),
        told(*final(stream)) == told(*old(stream)),
        written(*final(stream)) == written(*old(stream)),
        made_with(*final(stream)) == made_with(*old(stream)),
{
    std::mem::take(stream.inner.sink_mut().renderer_mut().sink_mut())
}

/// The text read out of bytes, but for the start of a character they end in.
pub open spec fn whole_text(bytes: Seq<u8>) -> Seq<char> {
    crate::text::utf8_lossy(crate::text::uncut(bytes))
}

/// The text of the first `n` bytes, followed by that of the rest with the
/// start of a character left over in front of it, is the text of the whole.
pub open spec fn reads_in_two(bytes: Seq<u8>, n: int) -> bool {
    whole_text(bytes) == whole_text(bytes.take(n)) + whole_text(
        crate::text::cut_char(bytes.take(n)) + bytes.skip(n),
    )
}

/// However bytes are cut in two, their text is the same.
pub open spec fn reads_in_pieces(bytes: Seq<u8>) -> bool {
    forall|n: int| 0 <= n <= bytes.len() ==> #[trigger] reads_in_two(bytes, n)
}

/// An assembler and the view its lines go to.
#[verifier::ext_equal]
pub ghost struct Display {
    pub assembler: crate::ansiasm::Assembly,
    pub view: crate::streamview::Scrollback,
}

/// A view with lines appended one after the other.
pub open spec fn pushed_all(
    view: crate::streamview::Scrollback,
    lines: Seq<Seq<Cell>>,
) -> crate::streamview::Scrollback
    decreases lines.len(),
{
    if lines.len() == 0 {
        view
    } else {
        pushed_all(view, lines.drop_last()).pushed(lines.last())
    }
}

impl Display {
    /// Plain output is in the view as it is, in the one attribute in force.
    pub open spec fn shown_plain(self, plain: Seq<u8>) -> Display {
        let assembler = self.assembler.fed_plain(plain);
        Display {
            assembler: assembler.taken(),
            view: pushed_all(self.view, assembler.ready).with_partial(
                crate::ansiasm::plain_line(assembler.carry, assembler.pending),
            ),
        }
    }

    /// The stream is over, and what was left of it was plain.
    pub open spec fn flushed_plain(self) -> Display {
        if self.assembler.pending.len() > 0 {
            Display {
                assembler: crate::ansiasm::Assembly { pending: Seq::empty(), ..self.assembler },
                view: self.view.pushed(
                    crate::ansiasm::plain_line(self.assembler.carry, self.assembler.pending),
                ).with_partial(Seq::empty()),
            }
        } else {
            Display { view: self.view.with_partial(Seq::empty()), ..self }
        }
    }

    /// No line waits to be taken, and the unfinished one is plain.
    pub open spec fn is_plain(self) -> bool {
        self.assembler.ready.len() == 0 && crate::ansiasm::is_plain(self.assembler.pending)
    }

    /// ANSI output is in the view: its complete lines as lines, the line it
    /// leaves unfinished as the partial line.
    pub open spec fn shown(self, ansi: Seq<u8>) -> Display {
        let assembler = self.assembler.fed(ansi);
        Display {
            assembler: assembler.taken(),
            view: pushed_all(self.view, assembler.ready).with_partial(assembler.line()),
        }
    }

    /// The stream is over: the unfinished line becomes a completed one.
    pub open spec fn flushed(self) -> Display {
        if self.assembler.pending.len() > 0 {
            Display {
                assembler: self.assembler.ended(),
                view: self.view.pushed(self.assembler.line()).with_partial(Seq::empty()),
            }
        } else {
            Display { view: self.view.with_partial(Seq::empty()), ..self }
        }
    }
}

proof fn lemma_pushed_all_concat(
    view: crate::streamview::Scrollback,
    a: Seq<Seq<Cell>>,
    b: Seq<Seq<Cell>>,
)
    ensures
        pushed_all(view, a + b) == pushed_all(pushed_all(view, a), b),
    decreases b.len(),
{
    if b.len() == 0 {
        assert(a + b =~= a);
    } else {
        lemma_pushed_all_concat(view, a, b.drop_last());
        assert((a + b).drop_last() =~= a + b.drop_last());
    }
}

proof fn lemma_pushed_all_stands_apart(
    view: crate::streamview::Scrollback,
    partial: Seq<Cell>,
    lines: Seq<Seq<Cell>>,
)
    requires
        view.wf(),
    ensures
        pushed_all(view, lines).wf(),
        pushed_all(view.with_partial(partial), lines) == pushed_all(view, lines).with_partial(
            partial,
        ),
    decreases lines.len(),
{
    if lines.len() > 0 {
        lemma_pushed_all_stands_apart(view, partial, lines.drop_last());
        crate::streamview::lemma_partial_stands_apart(
            pushed_all(view, lines.drop_last()),
            partial,
            lines.last(),
        );
    }
}

/// How ANSI output is cut into pieces does not matter: showing two pieces one
/// after the other leaves the assembler and the view as showing them in one
/// does.
pub proof fn lemma_split_output(d: Display, a: Seq<u8>, b: Seq<u8>)
    requires
        d.view.wf(),
    ensures
        d.shown(a).shown(b) == d.shown(a + b),
{
    let first = d.assembler.fed(a);
    let second = first.taken().fed(b);
    let whole = d.assembler.fed(a + b);
    crate::ansiasm::lemma_taking_early(d.assembler, a, b);
    assert(second.line() == whole.line());
    lemma_pushed_all_concat(d.view, first.ready, second.ready);
    let after = pushed_all(d.view, first.ready);
    lemma_pushed_all_stands_apart(d.view, first.line(), first.ready);
    lemma_pushed_all_stands_apart(after, first.line(), second.ready);
    crate::streamview::lemma_partial_is_replaced(
        pushed_all(after, second.ready),
        first.line(),
        second.line(),
    );
}

/// Moves ANSI output into a view.
pub fn show_ansi(assembler: &mut AnsiLineAssembler, ansi: &[u8], view: &mut StreamView)
    requires
        old(assembler).wf(),
        old(view).wf(),
    ensures
        final(assembler).wf(),
        final(view).wf(),
        (Display { assembler: final(assembler)@, view: final(view)@ }) == (Display {
            assembler: old(assembler)@,
            view: old(view)@,
        }).shown(ansi@),
        ({
            let before = Display { assembler: old(assembler)@, view: old(view)@ };
            let after = Display { assembler: final(assembler)@, view: final(view)@ };
            before.is_plain() && crate::ansiasm::is_plain(ansi@) ==> after.is_plain() && after
                == before.shown_plain(ansi@)
        }),
        forall|first: Seq<char>, runs: Seq<(crate::screen::Attr, Seq<char>)>|
            !first.contains('\x1b') && crate::ansiasm::are_runs(runs) && old(
                assembler)@.pending.len() == 0 && old(assembler)@.ready.len() == 0 && !(first
                + crate::ansiasm::marked_up(runs)).contains('\n') && !(first
                + crate::ansiasm::marked_up(runs)).contains('\r') && ansi@
                == vstd::utf8::encode_utf8(
                #[trigger] (first + crate::ansiasm::marked_up(runs)),
            ).push(0x0a) ==> final(view)@ == old(view)@.pushed(
                crate::screen::styled(
                    crate::ansiasm::without_cr(first),
                    old(assembler)@.carry,
                ) + crate::ansiasm::run_cells(runs),
            ).with_partial(Seq::empty()),
{
    proof {
        if crate::ansiasm::is_plain(assembler@.pending) && crate::ansiasm::is_plain(ansi@) {
            crate::ansiasm::lemma_plain_bytes(assembler@, ansi@);
        }
    }
    assembler.push(ansi);
    let lines = assembler.take_complete_lines();
    let ghost all = crate::streamview::line_views(lines@);
    let mut i: usize = 0;
    assert(all.take(0) =~= Seq::<Seq<Cell>>::empty());
    while i < lines.len()
        invariant
            i <= lines@.len(),
            all == crate::streamview::line_views(lines@),
            view.wf(),
            view@ == pushed_all(old(view)@, all.take(i as int)),
        decreases lines@.len() - i,
    {
        assert(all.take(i + 1).drop_last() =~= all.take(i as int));
        view.push_line(lines[i].as_slice());
        i += 1;
    }
    assert(all.take(i as int) =~= all);
    let partial = assembler.partial_line();
    let ghost done = view@;
    view.set_partial(partial.as_slice());
    proof {
        assert forall|first: Seq<char>, runs: Seq<(crate::screen::Attr, Seq<char>)>|
            !first.contains('\x1b') && crate::ansiasm::are_runs(runs) && old(
                assembler)@.pending.len() == 0 && old(assembler)@.ready.len() == 0 && !(first
                + crate::ansiasm::marked_up(runs)).contains('\n') && !(first
                + crate::ansiasm::marked_up(runs)).contains('\r') && ansi@
                == vstd::utf8::encode_utf8(
                #[trigger] (first + crate::ansiasm::marked_up(runs)),
            ).push(0x0a) implies view@ == old(view)@.pushed(
            crate::screen::styled(crate::ansiasm::without_cr(first), old(assembler)@.carry)
                + crate::ansiasm::run_cells(runs),
        ).with_partial(Seq::empty()) by {
            let line = crate::screen::styled(
                crate::ansiasm::without_cr(first),
                old(assembler)@.carry,
            ) + crate::ansiasm::run_cells(runs);
            let nothing = Seq::<Seq<Cell>>::empty();
            assert(all =~= nothing.push(line));
            lemma_lines_go_in_one_by_one(old(view)@, nothing, line);
            assert(done == old(view)@.pushed(line));
            let no_bytes = Seq::<u8>::empty();
            assert(assembler@.pending =~= no_bytes);
            assert(vstd::utf8::decode_utf8(no_bytes) =~= Seq::<char>::empty());
            assert(crate::ansiasm::is_plain(no_bytes));
            assert(partial@ =~= Seq::<Cell>::empty());
        }
    }
}

/// Ends the line an assembler holds and moves it into a view.
pub fn flush_ansi(assembler: &mut AnsiLineAssembler, view: &mut StreamView)
    requires
        old(assembler).wf(),
        old(view).wf(),
    ensures
        final(assembler).wf(),
        final(view).wf(),
        (Display { assembler: final(assembler)@, view: final(view)@ }) == (Display {
            assembler: old(assembler)@,
            view: old(view)@,
        }).flushed(),
        ({
            let before = Display { assembler: old(assembler)@, view: old(view)@ };
            let after = Display { assembler: final(assembler)@, view: final(view)@ };
            before.is_plain() ==> after.is_plain() && after == before.flushed_plain()
        }),
{
    match assembler.flush() {
        Some(line) => {
            view.push_line(line.as_slice());
        },
        None => {},
    }
    let nothing: Vec<Cell> = Vec::new();
    view.set_partial(nothing.as_slice());
    assert(nothing@ =~= Seq::<Cell>::empty());
}

/// The names of the tools whose calls are shown as banners.
pub open spec fn tool_table() -> Seq<Seq<char>> {
    seq![
        "EnterWorktree"@,
        "ExitWorktree"@,
        "EnterPlanMode"@,
        "ExitPlanMode"@,
        "read"@,
        "more"@,
        "write"@,
        "list"@,
        "glob"@,
        "edit"@,
        "search"@,
        "bash"@,
        "bash_status"@,
        "bash_stop"@,
        "google_search"@,
        "visit_page"@,
        "mcp_describe"@,
        "mcp_call"@,
        "mcp_list_resources"@,
        "mcp_read_resource"@,
        "skill"@,
        "task"@,
        "ask"@,
        "recall"@,
        "run_code"@,
    ]
}

/// The names of the tools whose calls are shown as banners.
pub fn tool_names() -> (r: Vec<String>)
    ensures
        name_views(r@) == tool_table(),
{
    let mut names: Vec<String> = Vec::new();
    names.push(String::from_str("EnterWorktree"));
    names.push(String::from_str("ExitWorktree"));
    names.push(String::from_str("EnterPlanMode"));
    names.push(String::from_str("ExitPlanMode"));
    names.push(String::from_str("read"));
    names.push(String::from_str("more"));
    names.push(String::from_str("write"));
    names.push(String::from_str("list"));
    names.push(String::from_str("glob"));
    names.push(String::from_str("edit"));
    names.push(String::from_str("search"));
    names.push(String::from_str("bash"));
    names.push(String::from_str("bash_status"));
    names.push(String::from_str("bash_stop"));
    names.push(String::from_str("google_search"));
    names.push(String::from_str("visit_page"));
    names.push(String::from_str("mcp_describe"));
    names.push(String::from_str("mcp_call"));
    names.push(String::from_str("mcp_list_resources"));
    names.push(String::from_str("mcp_read_resource"));
    names.push(String::from_str("skill"));
    names.push(String::from_str("task"));
    names.push(String::from_str("ask"));
    names.push(String::from_str("recall"));
    names.push(String::from_str("run_code"));
    assert(name_views(names@) =~= tool_table());
    names
}

/// What a pipeline holds.
#[verifier::ext_equal]
pub ghost struct Piping {
    /// Trailing bytes of a character that is not whole yet.
    pub carry: Seq<u8>,
    /// What the renderer has been told since it was made.
    pub heard: Seq<Heard>,
    /// What the renderer has written since it was made.
    pub written: Seq<u8>,
    pub options: RenderOptions,
    pub assembler: crate::ansiasm::Assembly,
}

impl Piping {
    pub open spec fn fresh(options: RenderOptions) -> Piping {
        Piping {
            carry: Seq::empty(),
            heard: Seq::empty(),
            written: Seq::empty(),
            options,
            assembler: crate::ansiasm::Assembly::empty(),
        }
    }

    pub open spec fn display(self, view: crate::streamview::Scrollback) -> Display {
        Display { assembler: self.assembler, view }
    }

    /// The renderer has been told nothing but unmarked text, and nothing but
    /// plain output is in the making.
    pub open spec fn is_plain(self) -> bool {
        &&& is_unmarked_text(heard_text(self.heard))
        &&& self.assembler.ready.len() == 0
        &&& crate::ansiasm::is_plain(self.assembler.pending)
    }

    /// What the renderer has written follows from what it was told, where
    /// that is reproducible.
    pub open spec fn is_rendered(self) -> bool {
        is_reproducible(heard_text(self.heard)) ==> self.written == rendered(
            self.options,
            tool_table(),
            runs(self.heard),
        )
    }

    /// What the renderer has written since `before`.
    pub open spec fn written_since(self, before: Piping) -> Seq<u8> {
        self.written.skip(before.written.len() as int)
    }

    /// The renderer has been told the text of `bytes`, and the start of a
    /// character they end in is held back. Valid UTF-8 is read as the
    /// characters it encodes.
    pub open spec fn told_of(self, bytes: Seq<u8>, after: Piping) -> bool {
        let all = self.carry + bytes;
        let text = whole_text(all);
        &&& after.carry == crate::text::cut_char(all)
        &&& reads_in_pieces(all)
        &&& vstd::utf8::valid_utf8(crate::text::uncut(all)) ==> text == vstd::utf8::decode_utf8(
            crate::text::uncut(all),
        )
        &&& after.heard == if text.len() > 0 {
            self.heard.push(Heard::Text(text))
        } else {
            self.heard
        }
    }

    /// `bytes` have gone through: the renderer has been told their text, the
    /// start of a character they end in is held back, and all that the
    /// renderer wrote, whatever it was, is in the view. Nothing is written
    /// where there was no text, unmarked text is in the view as it is, and
    /// what is written goes on to follow from what was told.
    pub open spec fn fed(
        self,
        view: crate::streamview::Scrollback,
        bytes: Seq<u8>,
        after: Piping,
        after_view: crate::streamview::Scrollback,
    ) -> bool {
        let text = whole_text(self.carry + bytes);
        &&& self.told_of(bytes, after)
        &&& after.options == self.options
        &&& self.written.is_prefix_of(after.written)
        &&& text.len() == 0 ==> after.written == self.written
        &&& self.is_rendered() ==> after.is_rendered()
        &&& after.display(after_view) == self.display(view).shown(after.written_since(self))
        &&& self.is_plain() && is_unmarked_text(text) ==> {
            &&& after.is_plain()
            &&& after.written == self.written + vstd::utf8::encode_utf8(text)
            &&& after.display(after_view) == self.display(view).shown_plain(
                vstd::utf8::encode_utf8(text),
            )
        }
    }

    /// The stream is over: the renderer has been told, all that it wrote then,
    /// whatever it was, is in the view, and no line is left unfinished. After
    /// nothing but unmarked text it writes nothing more.
    pub open spec fn finished(
        self,
        view: crate::streamview::Scrollback,
        after: Piping,
        after_view: crate::streamview::Scrollback,
    ) -> bool {
        &&& after.carry == self.carry
        &&& after.heard == self.heard.push(Heard::End)
        &&& after.options == self.options
        &&& self.written.is_prefix_of(after.written)
        &&& after.is_rendered()
        &&& after.display(after_view) == self.display(view).shown(
            after.written_since(self),
        ).flushed()
        &&& self.is_plain() ==> {
            &&& after.is_plain()
            &&& after.written == self.written
            &&& after.display(after_view) == self.display(view).flushed_plain()
        }
    }
}

/// One session's renderer state.
#[derive(Debug)]
pub struct Pipeline {
    stream: TokenStream,
    assembler: AnsiLineAssembler,
    opts: RenderOptions,
    utf8_carry: Vec<u8>,
}

impl View for Pipeline {
    type V = Piping;

    closed spec fn view(&self) -> Piping {
        Piping {
            carry: self.utf8_carry@,
            heard: told(self.stream),
            written: written(self.stream),
            options: self.opts,
            assembler: self.assembler@,
        }
    }
}

impl Pipeline {
    /// The renderer was made with the options in force and the tool table,
    /// what it wrote follows from what it was told, and none of it waits to be
    /// shown.
    pub closed spec fn wf(&self) -> bool {
        &&& self.assembler.wf()
        &&& made_with(self.stream) == (self.opts, tool_table())
        &&& unread(self.stream).len() == 0
        &&& self@.is_rendered()
    }

    /// What the renderer has written follows from what it was told.
    pub proof fn lemma_is_rendered(&self)
        requires
            self.wf(),
        ensures
            self@.is_rendered(),
    {
    }

    #[must_use]
    pub fn new(opts: RenderOptions) -> (r: Pipeline)
        ensures
            r.wf(),
            r@ == Piping::fresh(opts),
    {
        let r = Pipeline {
            stream: start_stream(opts, tool_names()),
            assembler: AnsiLineAssembler::new(),
            opts,
            utf8_carry: Vec::new(),
        };
        assert(r@ =~= Piping::fresh(opts));
        r
    }

    /// Moves whatever the renderer has written into the view.
    fn drain(&mut self, view: &mut StreamView)
        requires
            old(self).assembler.wf(),
            made_with(old(self).stream) == (old(self).opts, tool_table()),
            old(self)@.is_rendered(),
            old(view).wf(),
        ensures
            final(self).wf(),
            final(view).wf(),
            final(self)@.carry == old(self)@.carry,
            final(self)@.heard == old(self)@.heard,
            final(self)@.written == old(self)@.written,
            final(self)@.options == old(self)@.options,
            final(self)@.display(final(view)@) == old(self)@.display(old(view)@).shown(
                unread(old(self).stream),
            ),
            old(self)@.display(old(view)@).is_plain() && crate::ansiasm::is_plain(
                unread(old(self).stream),
            ) ==> final(self)@.display(final(view)@).is_plain() && final(self)@.display(
                final(view)@,
            ) == old(self)@.display(old(view)@).shown_plain(unread(old(self).stream)),
    {
        let ansi = take_rendered(&mut self.stream);
        show_ansi(&mut self.assembler, ansi.as_slice(), view);
    }

    /// Pushes stream bytes through the renderer and into the view.
    ///
    /// The pieces a stream arrives in may cut a character in two; the bytes of
    /// an unfinished character are held until the rest of it arrives.
    pub fn feed(&mut self, bytes: &[u8], view: &mut StreamView)
        requires
            old(self).wf(),
            old(view).wf(),
        ensures
            final(self).wf(),
            final(view).wf(),
            old(self)@.fed(old(view)@, bytes@, final(self)@, final(view)@),
    {
        self.utf8_carry.extend_from_slice(bytes);
        let ghost all = old(self)@.carry + bytes@;
        assert(self.utf8_carry@ =~= all);
        let n: usize = self.utf8_carry.len() - cut_at_end(self.utf8_carry.as_slice());
        let rest = self.utf8_carry.split_off(n);
        assert(self.utf8_carry@ =~= crate::text::uncut(all));
        assert(rest@ =~= crate::text::cut_char(all));
        let text = decode_lossy(self.utf8_carry.as_slice());
        proof {
            assert forall|n: int| 0 <= n <= all.len() implies #[trigger] reads_in_two(all, n) by {
                let a = all.take(n);
                let b = all.skip(n);
                assert(a + b =~= all);
                crate::text::lemma_cut_carries_over(a, b);
                let whole = crate::text::uncut(all);
                let m = crate::text::uncut(a).len() as int;
                assert(whole.take(m) =~= crate::text::uncut(a));
                assert(whole.skip(m) =~= crate::text::uncut(crate::text::cut_char(a) + b));
            }
        }
        self.utf8_carry = rest;
        if !text.as_str().is_empty() {
            render_text(&mut self.stream, text.as_str());
        }
        assert(unread(self.stream) =~= self@.written_since(old(self)@));
        proof {
            lemma_heard_more(old(self)@.heard, text@);
            if old(self)@.is_plain() && is_unmarked_text(text@) {
                lemma_unmarked_bytes(text@);
                let told = heard_text(old(self)@.heard);
                assert forall|i: int| 0 <= i < (told + text@).len() implies is_unmarked(
                    #[trigger] (told + text@)[i],
                ) by {}
                assert(self@.written =~= old(self)@.written + vstd::utf8::encode_utf8(text@));
                assert(unread(self.stream) =~= vstd::utf8::encode_utf8(text@));
            }
        }
        self.drain(view);
    }

    /// Ends the stream: flushes the renderer and the trailing partial line.
    pub fn finish(&mut self, view: &mut StreamView)
        requires
            old(self).wf(),
            old(view).wf(),
        ensures
            final(self).wf(),
            final(view).wf(),
            old(self)@.finished(old(view)@, final(self)@, final(view)@),
    {
        render_end(&mut self.stream);
        assert(unread(self.stream) =~= self@.written_since(old(self)@));
        proof {
            let start = old(self)@.display(old(view)@);
            assert(self@.heard.drop_last() =~= old(self)@.heard);
            if old(self)@.is_plain() {
                assert(unread(self.stream) =~= Seq::<u8>::empty());
                lemma_nothing_shown(start);
            }
        }
        self.drain(view);
        flush_ansi(&mut self.assembler, view);
    }

    /// Rebuilds the renderer with new options. The scrollback already on
    /// screen keeps its old styling; only new bytes use the new options. The
    /// bytes of an unfinished character are kept.
    pub fn set_options(&mut self, opts: RenderOptions, view: &mut StreamView)
        requires
            old(self).wf(),
            old(view).wf(),
        ensures
            final(self).wf(),
            final(view).wf(),
            final(self)@ == (Piping { carry: old(self)@.carry, ..Piping::fresh(opts) }),
            exists|ended: Piping| #[trigger] old(self)@.finished(old(view)@, ended, final(view)@),
    {
        self.finish(view);
        assert(old(self)@.finished(old(view)@, self@, view@));
        let mut carry: Vec<u8> = Vec::new();
        std::mem::swap(&mut carry, &mut self.utf8_carry);
        *self = Pipeline::new(opts);
        self.utf8_carry = carry;
        assert(self@ =~= (Piping { carry: old(self)@.carry, ..Piping::fresh(opts) }));
    }

    /// The options currently in force.
    #[must_use]
    pub fn options(&self) -> (r: RenderOptions)
        ensures
            r == self@.options,
    {
        self.opts
    }
}

/// How a stream is cut into pieces does not matter: after two pieces the
/// renderer has been told what it would have been told after both at once, the
/// same bytes are held back, and all that it wrote is in the view as if it had
/// been written at once. Where the text is reproducible, the renderer has
/// written the same, and the view is the same.
pub proof fn lemma_split_delivery(
    start: Piping,
    start_view: crate::streamview::Scrollback,
    a: Seq<u8>,
    mid: Piping,
    mid_view: crate::streamview::Scrollback,
    b: Seq<u8>,
    end: Piping,
    end_view: crate::streamview::Scrollback,
    whole: Piping,
    whole_view: crate::streamview::Scrollback,
)
    requires
        start_view.wf(),
        start.is_rendered(),
        start.fed(start_view, a, mid, mid_view),
        mid.fed(mid_view, b, end, end_view),
        start.fed(start_view, a + b, whole, whole_view),
    ensures
        heard_text(end.heard) == heard_text(whole.heard),
        runs(end.heard) == runs(whole.heard),
        end.carry == whole.carry,
        end.options == whole.options,
        end.display(end_view) == start.display(start_view).shown(end.written_since(start)),
        whole.display(whole_view) == start.display(start_view).shown(whole.written_since(start)),
        end.written == whole.written ==> end.display(end_view) == whole.display(whole_view),
        is_reproducible(heard_text(whole.heard)) ==> {
            &&& end.written == whole.written
            &&& end.assembler == whole.assembler
            &&& end_view == whole_view
        },
{
    lemma_split_text(start, a, mid, b, end, whole);
    lemma_split_display(start, start_view, mid, mid_view, end, end_view);
}

/// How a stream is cut into pieces does not matter to what is in the view once
/// it is over: where the text is reproducible, the view after two pieces and
/// the end is the view after both at once and the end.
pub proof fn lemma_split_stream(
    start: Piping,
    start_view: crate::streamview::Scrollback,
    a: Seq<u8>,
    mid: Piping,
    mid_view: crate::streamview::Scrollback,
    b: Seq<u8>,
    end: Piping,
    end_view: crate::streamview::Scrollback,
    over: Piping,
    over_view: crate::streamview::Scrollback,
    whole: Piping,
    whole_view: crate::streamview::Scrollback,
    whole_over: Piping,
    whole_over_view: crate::streamview::Scrollback,
)
    requires
        start_view.wf(),
        start.is_rendered(),
        start.fed(start_view, a, mid, mid_view),
        mid.fed(mid_view, b, end, end_view),
        end.finished(end_view, over, over_view),
        start.fed(start_view, a + b, whole, whole_view),
        whole.finished(whole_view, whole_over, whole_over_view),
        is_reproducible(heard_text(whole.heard)),
    ensures
        over.written == whole_over.written,
        over.assembler == whole_over.assembler,
        over_view == whole_over_view,
{
    lemma_split_delivery(
        start,
        start_view,
        a,
        mid,
        mid_view,
        b,
        end,
        end_view,
        whole,
        whole_view,
    );
    assert(over.heard.drop_last() =~= end.heard);
    assert(whole_over.heard.drop_last() =~= whole.heard);
    assert(over.display(over_view) == whole_over.display(whole_over_view));
}

/// Text in which no tool call opens is reproducible, and so is text in which
/// calls write no file and no thinking ends. Text without a `<` opens no call.
pub proof fn lemma_what_is_reproducible(text: Seq<char>)
    ensures
        opens_no_call(text) ==> is_reproducible(text),
        writes_no_file(text) ==> is_reproducible(text),
        !text.contains('<') ==> is_reproducible(text),
{
    let n = text.len() as int;
    let nothing = Seq::<char>::empty();
    reveal_strlit("<tool_call>");
    reveal_strlit("\"write\"");
    reveal_strlit("=write");
    reveal_strlit("</think>");
    assert(text.take(n) =~= text);
    assert(text.skip(n) =~= nothing);
    assert(text.take(0) =~= nothing);
    assert(text.skip(0) =~= text);
    assert(writes_no_file(nothing));
    assert(opens_no_call(nothing));
}

proof fn lemma_split_text(
    start: Piping,
    a: Seq<u8>,
    mid: Piping,
    b: Seq<u8>,
    end: Piping,
    whole: Piping,
)
    requires
        start.told_of(a, mid),
        mid.told_of(b, end),
        start.told_of(a + b, whole),
    ensures
        heard_text(end.heard) == heard_text(whole.heard),
        runs(end.heard) == runs(whole.heard),
        end.carry == whole.carry,
        whole_text(start.carry + (a + b)) == whole_text(start.carry + a) + whole_text(
            mid.carry + b,
        ),
{
    let first = start.carry + a;
    let second = mid.carry + b;
    let all = start.carry + (a + b);
    assert(all =~= first + b);
    assert(all.take(first.len() as int) =~= first);
    assert(all.skip(first.len() as int) =~= b);
    assert(reads_in_two(all, first.len() as int));
    crate::text::lemma_cut_carries_over(first, b);
    lemma_heard_more(start.heard, whole_text(first));
    lemma_heard_more(mid.heard, whole_text(second));
    lemma_heard_more(start.heard, whole_text(all));
    let before = runs(start.heard);
    assert(with_text(with_text(before, whole_text(first)), whole_text(second)) =~= with_text(
        before,
        whole_text(first) + whole_text(second),
    )) by {
        assert(before.last() + whole_text(first) + whole_text(second) =~= before.last() + (
        whole_text(first) + whole_text(second)));
    }
    assert(heard_text(start.heard) + whole_text(first) + whole_text(second) =~= heard_text(
        start.heard,
    ) + (whole_text(first) + whole_text(second)));
}

proof fn lemma_split_display(
    start: Piping,
    start_view: crate::streamview::Scrollback,
    mid: Piping,
    mid_view: crate::streamview::Scrollback,
    end: Piping,
    end_view: crate::streamview::Scrollback,
)
    requires
        start_view.wf(),
        start.written.is_prefix_of(mid.written),
        mid.written.is_prefix_of(end.written),
        mid.display(mid_view) == start.display(start_view).shown(mid.written_since(start)),
        end.display(end_view) == mid.display(mid_view).shown(end.written_since(mid)),
    ensures
        end.display(end_view) == start.display(start_view).shown(end.written_since(start)),
{
    assert(mid.written_since(start) + end.written_since(mid) =~= end.written_since(start));
    lemma_split_output(
        start.display(start_view),
        mid.written_since(start),
        end.written_since(mid),
    );
}

/// Unmarked text is encoded in plain bytes.
proof fn lemma_unmarked_bytes(text: Seq<char>)
    requires
        is_unmarked_text(text),
    ensures
        crate::ansiasm::is_plain(vstd::utf8::encode_utf8(text)),
        text.len() == 0 ==> vstd::utf8::encode_utf8(text).len() == 0,
{
    vstd::utf8::encode_utf8_valid_utf8(text);
    if text.contains(0x1bu8 as char) {
        let i = choose|i: int| 0 <= i < text.len() && text[i] == 0x1bu8 as char;
        assert(is_unmarked(text[i]));
    }
    crate::text::lemma_ascii_not_encoded(text, 0x1b);
}

/// Showing nothing puts the unfinished line in the view, and ending the stream
/// then does what ending it at once does.
proof fn lemma_nothing_shown(d: Display)
    requires
        d.view.wf(),
        d.is_plain(),
    ensures
        d.shown_plain(Seq::empty()).flushed_plain() == d.flushed_plain(),
{
    let line = crate::ansiasm::plain_line(d.assembler.carry, d.assembler.pending);
    let shown = d.shown_plain(Seq::empty());
    let nothing = Seq::<Cell>::empty();
    assert(shown.assembler =~= d.assembler);
    assert(d.assembler.ready =~= Seq::<Seq<Cell>>::empty());
    assert(shown.view == d.view.with_partial(line));
    crate::streamview::lemma_partial_stands_apart(d.view, line, line);
    crate::streamview::lemma_partial_is_replaced(d.view.pushed(line), line, nothing);
    crate::streamview::lemma_partial_is_replaced(d.view, line, nothing);
}

proof fn lemma_heard_more(heard: Seq<Heard>, text: Seq<char>)
    ensures
        heard_text(heard.push(Heard::Text(text))) == heard_text(heard) + text,
        text.len() == 0 ==> heard_text(heard) + text == heard_text(heard),
        runs(heard.push(Heard::Text(text))) == with_text(runs(heard), text),
        text.len() == 0 ==> with_text(runs(heard), text) == runs(heard),
{
    assert(heard.push(Heard::Text(text)).drop_last() =~= heard);
    assert(text.len() == 0 ==> heard_text(heard) + text =~= heard_text(heard));
    if text.len() == 0 {
        assert(runs(heard).last() + text =~= runs(heard).last());
        assert(with_text(runs(heard), text) =~= runs(heard));
    }
}

/// Nothing but the start of a character is ever held back, three bytes at
/// most, and only until the next byte: a stream goes on behind bytes that are
/// no text.
pub proof fn lemma_little_is_held_back(
    before: Piping,
    view: crate::streamview::Scrollback,
    bytes: Seq<u8>,
    after: Piping,
    after_view: crate::streamview::Scrollback,
)
    requires
        before.fed(view, bytes, after, after_view),
    ensures
        after.carry.len() <= 3,
        after.carry.len() > 0 ==> crate::text::is_char_start(after.carry),
        crate::text::uncut(before.carry + bytes) + after.carry == before.carry + bytes,
        heard_text(after.heard) == heard_text(before.heard) + crate::text::utf8_lossy(
            crate::text::uncut(before.carry + bytes),
        ),
{
    let all = before.carry + bytes;
    crate::text::lemma_cut_carries_over(all, Seq::empty());
    lemma_heard_more(before.heard, whole_text(all));
}

/// Whole characters are read in full: valid UTF-8 leaves nothing over.
pub proof fn lemma_valid_text_is_read_in_full(
    before: Piping,
    view: crate::streamview::Scrollback,
    bytes: Seq<u8>,
    after: Piping,
    after_view: crate::streamview::Scrollback,
)
    requires
        before.fed(view, bytes, after, after_view),
        vstd::utf8::valid_utf8(before.carry + bytes),
    ensures
        after.carry == Seq::<u8>::empty(),
        heard_text(after.heard) == heard_text(before.heard) + vstd::utf8::decode_utf8(
            before.carry + bytes,
        ),
{
    crate::text::lemma_valid_is_uncut(before.carry + bytes);
    lemma_heard_more(before.heard, whole_text(before.carry + bytes));
}

/// A line of unmarked text reaches the view as it is, whatever the options:
/// where nothing but unmarked text came before and no line is unfinished, the
/// line's characters are the next line of the scrollback.
pub proof fn lemma_unmarked_line_is_shown(
    before: Piping,
    view: crate::streamview::Scrollback,
    line: Seq<char>,
    after: Piping,
    after_view: crate::streamview::Scrollback,
)
    requires
        before.is_plain(),
        before.carry.len() == 0,
        before.assembler.pending.len() == 0,
        is_unmarked_text(line),
        !line.contains('\n'),
        before.fed(view, vstd::utf8::encode_utf8(line.push('\n')), after, after_view),
    ensures
        after.is_plain(),
        after.carry.len() == 0,
        after.assembler == before.assembler,
        after_view == view.pushed(
            crate::screen::styled(crate::ansiasm::without_cr(line), before.assembler.carry),
        ).with_partial(Seq::empty()),
{
    let text = line.push('\n');
    let bytes = vstd::utf8::encode_utf8(text);
    vstd::utf8::encode_utf8_valid_utf8(text);
    vstd::utf8::encode_utf8_decode_utf8(text);
    vstd::utf8::encode_utf8_valid_utf8(line);
    vstd::utf8::encode_utf8_decode_utf8(line);
    assert(before.carry + bytes =~= bytes);
    crate::text::lemma_valid_is_uncut(bytes);
    crate::text::lemma_ascii_appended(line, 0x0a);
    crate::text::lemma_ascii_not_encoded(line, 0x0a);
    let shown = before.assembler.fed_plain(bytes);
    let start = vstd::utf8::encode_utf8(line);
    assert(bytes =~= start.push(0x0a));
    crate::ansiasm::lemma_plain_line_ends(before.assembler, start);
    assert(before.assembler.pending + start =~= start);
    assert(shown.ready =~= seq![crate::ansiasm::plain_line(before.assembler.carry, start)]);
    assert(shown.ready.drop_last() =~= Seq::<Seq<Cell>>::empty());
    assert(after.assembler =~= before.assembler);
    assert(pushed_all(view, shown.ready) == pushed_all(view, shown.ready.drop_last()).pushed(
        shown.ready.last(),
    ));
    let nothing = Seq::<u8>::empty();
    assert(vstd::utf8::decode_utf8(nothing) =~= Seq::<char>::empty());
    assert(crate::ansiasm::plain_line(before.assembler.carry, nothing) =~= Seq::<Cell>::empty());
}

proof fn lemma_pushed_all_keeps_the_transcript(
    view: crate::streamview::Scrollback,
    lines: Seq<Seq<Cell>>,
)
    requires
        view.wf(),
    ensures
        pushed_all(view, lines).wf(),
        pushed_all(view, lines).keeps(view),
    decreases lines.len(),
{
    if lines.len() == 0 {
        crate::streamview::lemma_new_lines_keep_the_transcript(view, Seq::empty());
    } else {
        lemma_pushed_all_keeps_the_transcript(view, lines.drop_last());
        let before = pushed_all(view, lines.drop_last());
        crate::streamview::lemma_new_lines_keep_the_transcript(before, lines.last());
        crate::streamview::lemma_partial_stands_apart(before, lines.last(), lines.last());
        crate::streamview::lemma_keeping_is_transitive(
            view,
            before,
            before.pushed(lines.last()),
        );
    }
}

/// Whatever the renderer writes, showing it and ending the stream lose no
/// line of the transcript.
pub proof fn lemma_transcript_is_kept(d: Display, ansi: Seq<u8>)
    requires
        d.view.wf(),
    ensures
        d.shown(ansi).view.wf(),
        d.shown(ansi).view.keeps(d.view),
        d.shown(ansi).flushed().view.wf(),
        d.shown(ansi).flushed().view.keeps(d.view),
{
    let fed = d.assembler.fed(ansi);
    let lines = pushed_all(d.view, fed.ready);
    lemma_pushed_all_keeps_the_transcript(d.view, fed.ready);
    crate::streamview::lemma_new_lines_keep_the_transcript(lines, fed.line());
    crate::streamview::lemma_partial_stands_apart(lines, fed.line(), Seq::empty());
    let shown = d.shown(ansi);
    crate::streamview::lemma_keeping_is_transitive(d.view, lines, shown.view);
    let line = shown.assembler.line();
    let nothing = Seq::<Cell>::empty();
    crate::streamview::lemma_new_lines_keep_the_transcript(shown.view, line);
    crate::streamview::lemma_partial_stands_apart(shown.view, nothing, line);
    let ended = shown.view.pushed(line);
    crate::streamview::lemma_partial_stands_apart(ended, nothing, line);
    crate::streamview::lemma_new_lines_keep_the_transcript(ended, nothing);
    crate::streamview::lemma_keeping_is_transitive(
        shown.view,
        ended,
        ended.with_partial(nothing),
    );
    crate::streamview::lemma_new_lines_keep_the_transcript(shown.view, nothing);
    crate::streamview::lemma_keeping_is_transitive(d.view, shown.view, shown.flushed().view);
}

/// Lines go into a view one by one, in order.
pub proof fn lemma_lines_go_in_one_by_one(
    view: crate::streamview::Scrollback,
    lines: Seq<Seq<Cell>>,
    line: Seq<Cell>,
)
    ensures
        pushed_all(view, Seq::empty()) == view,
        pushed_all(view, lines.push(line)) == pushed_all(view, lines).pushed(line),
{
    assert(lines.push(line).drop_last() =~= lines);
}

/// What is shown of ANSI output, and when: without a newline it is the line
/// still streaming in, its newline makes it a line of the scrollback, and the
/// end of the stream does so too, leaving no line unfinished.
pub proof fn lemma_output_reaches_the_view(d: Display, ansi: Seq<u8>)
    requires
        !ansi.contains(0x0a),
        !ansi.contains(0x0d),
        !d.assembler.pending.contains(0x0d),
        d.assembler.ready.len() == 0,
    ensures
        ({
            let pending = d.assembler.pending + ansi;
            let text = crate::text::utf8_lossy(
                pending.take(crate::ansiasm::usable_len(pending)),
            );
            let line = crate::ansiasm::ansi_line(d.assembler.carry, text);
            let shown = d.shown(ansi);
            let broken = d.shown(ansi.push(0x0a));
            let over = shown.flushed();
            let no_text = crate::text::utf8_lossy(Seq::empty());
            &&& shown.view == d.view.with_partial(line)
            &&& shown.assembler == (crate::ansiasm::Assembly { pending, ..d.assembler })
            &&& broken.assembler.pending.len() == 0
            &&& broken.assembler.ready.len() == 0
            &&& broken.view == d.view.pushed(line).with_partial(
                crate::ansiasm::ansi_line(broken.assembler.carry, no_text),
            )
            &&& over.assembler.pending.len() == 0
            &&& pending.len() > 0 ==> over.view == d.view.with_partial(line).pushed(
                line,
            ).with_partial(Seq::empty())
            &&& pending.len() == 0 ==> over.view == d.view.with_partial(line).with_partial(
                Seq::empty(),
            )
            &&& over.view.partial is None
        }),
{
    let nothing = Seq::<Seq<Cell>>::empty();
    crate::ansiasm::lemma_bytes_gather(d.assembler, ansi);
    crate::ansiasm::lemma_newline_ends_the_line(d.assembler, ansi);
    let fed = d.assembler.fed(ansi);
    assert(fed.ready =~= nothing);
    assert(fed.taken() =~= fed);
    let broken = d.assembler.fed(ansi.push(0x0a));
    assert(broken.ready =~= nothing.push(fed.line()));
    lemma_lines_go_in_one_by_one(d.view, nothing, fed.line());
    let no_bytes = Seq::<u8>::empty();
    assert(broken.pending =~= no_bytes);
    no_bytes.index_of_last_ensures(0x1b);
    assert(no_bytes.take(0) =~= no_bytes);
    assert(crate::streamview::normalized(Seq::<Cell>::empty()).len() == 0);
}

/// All that the renderer writes goes into the view, and nothing else does: the
/// view after a piece, and the assembler behind it, are those before it with
/// the bytes shown that the renderer wrote meanwhile.
pub proof fn lemma_view_shows_what_was_written(
    before: Piping,
    view: crate::streamview::Scrollback,
    bytes: Seq<u8>,
    after: Piping,
    after_view: crate::streamview::Scrollback,
)
    requires
        before.fed(view, bytes, after, after_view),
    ensures
        after.written == before.written + after.written.skip(before.written.len() as int),
        ({
            let new = after.written.skip(before.written.len() as int);
            let assembler = before.assembler.fed(new);
            &&& after_view == pushed_all(view, assembler.ready).with_partial(assembler.line())
            &&& after.assembler == assembler.taken()
        }),
        after.options == before.options,
{
    assert(after.written =~= before.written + after.written.skip(before.written.len() as int));
}

/// When a stream is over the renderer is told so, all that it writes then goes
/// into the view, and the view has no unfinished line.
pub proof fn lemma_nothing_is_left_unfinished(
    before: Piping,
    view: crate::streamview::Scrollback,
    after: Piping,
    after_view: crate::streamview::Scrollback,
)
    requires
        before.finished(view, after, after_view),
    ensures
        after.heard == before.heard.push(Heard::End),
        after.carry == before.carry,
        after.options == before.options,
        after.assembler.pending.len() == 0,
        after_view.partial is None,
        ({
            let new = after.written.skip(before.written.len() as int);
            let assembler = before.assembler.fed(new);
            let shown = pushed_all(view, assembler.ready).with_partial(assembler.line());
            &&& assembler.pending.len() == 0 ==> after_view == shown.with_partial(Seq::empty())
            &&& assembler.pending.len() > 0 ==> after_view == shown.pushed(
                assembler.line(),
            ).with_partial(Seq::empty())
        }),
{
    assert(crate::streamview::normalized(Seq::<Cell>::empty()).len() == 0);
}

/// A character that arrives in two pieces is told the renderer once, when it
/// is whole: after the first piece it has been told the text in front of it,
/// after the second the character too, and nothing is held back any more.
pub proof fn lemma_character_in_two_pieces(
    start: Piping,
    start_view: crate::streamview::Scrollback,
    text: Seq<char>,
    c: char,
    k: int,
    mid: Piping,
    mid_view: crate::streamview::Scrollback,
    end: Piping,
    end_view: crate::streamview::Scrollback,
)
    requires
        start.carry.len() == 0,
        0 < k < vstd::utf8::encode_utf8(seq![c]).len(),
        start.fed(
            start_view,
            vstd::utf8::encode_utf8(text) + vstd::utf8::encode_utf8(seq![c]).take(k),
            mid,
            mid_view,
        ),
        mid.fed(mid_view, vstd::utf8::encode_utf8(seq![c]).skip(k), end, end_view),
    ensures
        heard_text(mid.heard) == heard_text(start.heard) + text,
        mid.carry == vstd::utf8::encode_utf8(seq![c]).take(k),
        heard_text(end.heard) == heard_text(start.heard) + text.push(c),
        end.carry.len() == 0,
{
    let whole = vstd::utf8::encode_utf8(seq![c]);
    let first = vstd::utf8::encode_utf8(text) + whole.take(k);
    crate::text::lemma_cut_character_is_held_back(text, c, k);
    assert(start.carry + first =~= first);
    vstd::utf8::encode_utf8_valid_utf8(text);
    vstd::utf8::encode_utf8_decode_utf8(text);
    lemma_heard_more(start.heard, whole_text(first));
    assert(whole_text(first) == text);
    assert(whole.take(k) + whole.skip(k) =~= whole);
    vstd::utf8::encode_utf8_valid_utf8(seq![c]);
    vstd::utf8::encode_utf8_decode_utf8(seq![c]);
    crate::text::lemma_valid_is_uncut(whole);
    lemma_heard_more(mid.heard, whole_text(whole));
    assert(whole_text(whole) == seq![c]);
    assert(heard_text(start.heard) + text + seq![c] =~= heard_text(start.heard) + text.push(c));
}

/// The tools whose calls the renderer is told of.
pub proof fn lemma_tools()
    ensures
        tool_table().len() == 25,
        tool_table().contains("read"@),
        tool_table().contains("more"@),
        tool_table().contains("write"@),
        tool_table().contains("list"@),
        tool_table().contains("glob"@),
        tool_table().contains("edit"@),
        tool_table().contains("search"@),
        tool_table().contains("bash"@),
        tool_table().contains("bash_status"@),
        tool_table().contains("bash_stop"@),
        tool_table().contains("google_search"@),
        tool_table().contains("visit_page"@),
        tool_table().contains("mcp_describe"@),
        tool_table().contains("mcp_call"@),
        tool_table().contains("mcp_list_resources"@),
        tool_table().contains("mcp_read_resource"@),
        tool_table().contains("skill"@),
        tool_table().contains("task"@),
        tool_table().contains("ask"@),
        tool_table().contains("recall"@),
        tool_table().contains("run_code"@),
        tool_table().contains("EnterWorktree"@),
        tool_table().contains("ExitWorktree"@),
        tool_table().contains("EnterPlanMode"@),
        tool_table().contains("ExitPlanMode"@),
{
    let t = tool_table();
    assert(t[0] == "EnterWorktree"@ && t[1] == "ExitWorktree"@ && t[2] == "EnterPlanMode"@ && t[3]
        == "ExitPlanMode"@ && t[4] == "read"@ && t[5] == "more"@ && t[6] == "write"@);
    assert(t[7] == "list"@ && t[8] == "glob"@ && t[9] == "edit"@ && t[10] == "search"@ && t[11]
        == "bash"@ && t[12] == "bash_status"@ && t[13] == "bash_stop"@);
    assert(t[14] == "google_search"@ && t[15] == "visit_page"@ && t[16] == "mcp_describe"@ && t[17]
        == "mcp_call"@ && t[18] == "mcp_list_resources"@ && t[19] == "mcp_read_resource"@);
    assert(t[20] == "skill"@ && t[21] == "task"@ && t[22] == "ask"@ && t[23] == "recall"@ && t[24]
        == "run_code"@);
}

/// A new pipeline has the options it was made with, and has neither been told
/// nor written anything yet.
pub proof fn lemma_new_pipeline(options: RenderOptions)
    ensures
        Piping::fresh(options).options == options,
        Piping::fresh(options).carry.len() == 0,
        Piping::fresh(options).heard.len() == 0,
        Piping::fresh(options).written.len() == 0,
        Piping::fresh(options).assembler == crate::ansiasm::Assembly::empty(),
{
}

} // verus!
