//! The scrollback view.

use std::io;
use std::time::Duration;

use turbo_debug_console::screen::{Attr, Cell, Rect, TvColor};
use turbo_debug_console::streamview::{
    normalize_line, place, Key, StreamView, DEFAULT_MAX_LINES,
};
use turbo_vision::terminal::{Backend, Terminal};
use unicode_width::UnicodeWidthChar;

type TvEvent = turbo_vision::core::event::Event;

/// Paints a view's rows at its bounds. The colours do not matter here.
fn draw(view: &StreamView, terminal: &mut Terminal) {
    let attr = turbo_vision::core::palette::Attr::new(
        turbo_vision::core::palette::TvColor::LightGray,
        turbo_vision::core::palette::TvColor::Black,
    );
    for (y, row) in view.draw().iter().enumerate() {
        let mut buf = turbo_vision::core::draw::DrawBuffer::new(row.len());
        for (x, cell) in row.iter().enumerate() {
            buf.put_char(x, cell.ch, attr);
        }
        turbo_vision::views::view::write_line_to_terminal(
            terminal,
            view.bounds().a.x,
            view.bounds().a.y + i16::try_from(y).unwrap(),
            &buf,
        );
    }
}

fn line(s: &str) -> Vec<Cell> {
    s.chars()
        .map(|c| Cell::new(c, Attr::new(TvColor::LightGray, TvColor::Black)))
        .collect()
}

fn view() -> StreamView {
    StreamView::new(Rect::new(0, 0, 40, 10))
}

/// An in-memory `Backend` for tests: no real TTY, fixed size, no I/O.
/// `Terminal::write_line`/`write_cell` write straight into `Terminal`'s
/// own in-memory buffer, so this stub only needs to satisfy
/// initialization and size queries for `Terminal::with_backend`.
struct FakeBackend {
    width: u16,
    height: u16,
}

impl Backend for FakeBackend {
    fn as_any_mut(&mut self) -> &mut dyn std::any::Any {
        self
    }

    fn init(&mut self) -> io::Result<()> {
        Ok(())
    }

    fn cleanup(&mut self) -> io::Result<()> {
        Ok(())
    }

    fn size(&self) -> io::Result<(u16, u16)> {
        Ok((self.width, self.height))
    }

    fn poll_event(&mut self, _timeout: Duration) -> io::Result<Option<TvEvent>> {
        Ok(None)
    }

    fn write_raw(&mut self, _data: &[u8]) -> io::Result<()> {
        Ok(())
    }

    fn flush(&mut self) -> io::Result<()> {
        Ok(())
    }

    fn show_cursor(&mut self, _x: u16, _y: u16) -> io::Result<()> {
        Ok(())
    }

    fn hide_cursor(&mut self) -> io::Result<()> {
        Ok(())
    }
}

fn fake_terminal(width: u16, height: u16) -> Terminal {
    Terminal::with_backend(Box::new(FakeBackend { width, height }))
        .expect("fake backend never fails to init")
}

/// A `Backend` that records every byte `Terminal::flush` actually sends
/// downstream, via a shared buffer -- the write-through path
/// `FakeBackend` above stubs out. `Terminal::flush` is the one place
/// that decides what physically reaches a real terminal (it does a
/// diffed, escape-coded re-encode of the cell buffer, and knowingly
/// skips `'\0'` filler cells), so a fault specific to *that* encoding is
/// invisible to any test that only inspects `Terminal::read_cell`,
/// which reflects the in-memory cell buffer `write_line` always
/// updates unconditionally.
#[derive(Clone, Default)]
struct RecordingBackend {
    width: u16,
    height: u16,
    output: std::sync::Arc<std::sync::Mutex<Vec<u8>>>,
}

impl Backend for RecordingBackend {
    fn as_any_mut(&mut self) -> &mut dyn std::any::Any {
        self
    }

    fn init(&mut self) -> io::Result<()> {
        Ok(())
    }

    fn cleanup(&mut self) -> io::Result<()> {
        Ok(())
    }

    fn size(&self) -> io::Result<(u16, u16)> {
        Ok((self.width, self.height))
    }

    fn poll_event(&mut self, _timeout: Duration) -> io::Result<Option<TvEvent>> {
        Ok(None)
    }

    fn write_raw(&mut self, data: &[u8]) -> io::Result<()> {
        self.output.lock().unwrap().extend_from_slice(data);
        Ok(())
    }

    fn flush(&mut self) -> io::Result<()> {
        Ok(())
    }

    fn show_cursor(&mut self, _x: u16, _y: u16) -> io::Result<()> {
        Ok(())
    }

    fn hide_cursor(&mut self) -> io::Result<()> {
        Ok(())
    }
}

/// Builds a `Terminal` whose every `flush`-emitted byte lands in the
/// returned buffer, so a test can inspect what actually reaches a real
/// terminal rather than only the in-memory cell buffer.
fn recording_terminal(
    width: u16,
    height: u16,
) -> (Terminal, std::sync::Arc<std::sync::Mutex<Vec<u8>>>) {
    let output = std::sync::Arc::new(std::sync::Mutex::new(Vec::new()));
    let backend = RecordingBackend {
        width,
        height,
        output: output.clone(),
    };
    let terminal =
        Terminal::with_backend(Box::new(backend)).expect("fake backend never fails to init");
    (terminal, output)
}

/// Replays `flush`'s escape-coded byte stream onto a plain grid the way
/// a real terminal would: `ESC[row;colH` repositions the cursor
/// (1-indexed), an SGR color sequence is consumed and ignored, and every
/// other character is placed at the cursor and advances it by its own
/// display width -- 2 for a double-width glyph, 0 for a combining or
/// selector character, exactly as a real terminal renders it (not by
/// our internal one-`Cell`-per-logical-column bookkeeping, which is
/// precisely what could drift from physical reality). Bytes from
/// successive flushes are replayed in order onto the same grid, since a
/// real terminal's screen persists across flushes the same way.
fn replay_onto_grid(bytes: &[u8], grid: &mut [Vec<char>]) {
    let text = std::str::from_utf8(bytes).expect("flush emits valid UTF-8");
    let mut chars = text.chars().peekable();
    let mut row = 0usize;
    let mut col = 0usize;
    while let Some(c) = chars.next() {
        if c == '\u{1b}' && chars.peek() == Some(&'[') {
            chars.next(); // consume '['
            let mut params = String::new();
            let mut final_byte = ' ';
            for pc in chars.by_ref() {
                if pc.is_ascii_digit() || pc == ';' {
                    params.push(pc);
                } else {
                    final_byte = pc;
                    break;
                }
            }
            if final_byte == 'H' {
                let mut parts = params.split(';');
                let r: usize = parts.next().and_then(|p| p.parse().ok()).unwrap_or(1);
                let cix: usize = parts.next().and_then(|p| p.parse().ok()).unwrap_or(1);
                row = r.saturating_sub(1);
                col = cix.saturating_sub(1);
            }
            // An SGR ('m') sequence carries no cursor movement.
            continue;
        }
        let width = c.width().unwrap_or(0);
        if row < grid.len() && col < grid[row].len() {
            grid[row][col] = c;
        }
        col += width;
    }
}

#[test]
fn scrollback_cap_drops_oldest_lines() {
    let mut v = view();
    v.set_max_lines(3);
    for i in 0..5 {
        v.push_line(&line(&i.to_string()));
    }
    assert_eq!(v.line_count(), 3);
    assert_eq!(v.plain_text(), "2\n3\n4");
}

#[test]
fn autoscroll_holds_at_bottom_while_lines_arrive() {
    let mut v = view();
    for i in 0..50 {
        v.push_line(&line(&i.to_string()));
    }
    assert!(v.is_at_bottom());
}

#[test]
fn scrolling_up_releases_autoscroll_and_end_rearms_it() {
    let mut v = view();
    for i in 0..50 {
        v.push_line(&line(&i.to_string()));
    }
    v.scroll_up(5);
    assert!(!v.is_at_bottom());
    v.push_line(&line("new"));
    assert!(
        !v.is_at_bottom(),
        "a new line must not yank a scrolled-back reader to the bottom"
    );
    v.scroll_to_bottom();
    assert!(v.is_at_bottom());
}

#[test]
fn partial_line_is_replaced_not_appended() {
    let mut v = view();
    v.set_partial(&line("par"));
    v.set_partial(&line("part"));
    assert_eq!(v.plain_text(), "part");
    assert_eq!(v.line_count(), 1);
}

#[test]
fn plain_text_strips_attributes() {
    let mut v = view();
    v.push_line(&[Cell::new('x', Attr::new(TvColor::LightRed, TvColor::Blue))]);
    assert_eq!(v.plain_text(), "x");
}

#[test]
fn resize_larger_while_scrolled_back_reclamps_top_to_show_a_full_page() {
    let mut v = StreamView::new(Rect::new(0, 0, 40, 5));
    for i in 0..50 {
        v.push_line(&line(&i.to_string()));
    }
    // Scroll back so `top` sits well below the current max_top()
    // (line_count 50, page 5 -> max_top 45).
    v.scroll_to_top();
    v.scroll_down(40);
    assert!(!v.is_at_bottom());
    let old_top = v.top();
    assert!(old_top < v.max_top());

    // Grow the view a lot: max_top() shrinks to line_count - new_page
    // (50 - 48 = 2), which is now well below the old `top` (40). Left
    // unclamped, that would leave blank rows at the bottom of the
    // viewport even though unshown history sits above.
    v.set_bounds(Rect::new(0, 0, 40, 48));

    assert!(
        v.top() <= v.max_top(),
        "top ({}) must not exceed max_top ({}) after growing",
        v.top(),
        v.max_top()
    );
    let all = v.styled_lines();
    let lines: Vec<&Vec<Cell>> = all.iter().skip(v.top()).take(v.page()).collect();
    assert_eq!(
        lines.len(),
        v.page().min(v.line_count()),
        "a full page of content should be visible after growing"
    );
}

#[test]
fn draw_clips_to_bounds_and_applies_horizontal_offset() {
    let mut v = StreamView::new(Rect::new(2, 1, 8, 4));
    v.push_line(&line("abcdefghij")); // longer than the 6-wide view
    v.push_line(&line("short")); // shorter than the 6-wide view
    v.set_left(2); // horizontal scroll offset

    let mut terminal = fake_terminal(20, 10);
    draw(&v, &mut terminal);

    // Row 0 (bounds.a.y == 1): "abcdefghij" skipped by `left` 2, then
    // clipped to width 6, drawn starting at bounds.a.x == 2.
    for (i, expected) in "cdefgh".chars().enumerate() {
        let cell = terminal
            .read_cell(2 + i16::try_from(i).unwrap_or(i16::MAX), 1)
            .expect("cell within terminal bounds");
        assert_eq!(cell.ch, expected);
    }
    // Nothing is drawn past the view's width (x == 8 is out of bounds).
    assert_eq!(terminal.read_cell(8, 1).unwrap().ch, ' ');

    // Row 1 (bounds.a.y == 2): "short" skipped by `left` 2 -> "ort",
    // padded with the fill space for the remaining 3 columns.
    for (i, expected) in "ort   ".chars().enumerate() {
        let cell = terminal
            .read_cell(2 + i16::try_from(i).unwrap_or(i16::MAX), 2)
            .expect("cell within terminal bounds");
        assert_eq!(cell.ch, expected);
    }

    // Nothing above or below the view's rows was touched.
    assert_eq!(terminal.read_cell(2, 0).unwrap().ch, ' ');
}

/// The exact banner glyph of a tool call: U+1F6E0 HAMMER AND WRENCH followed
/// by U+FE0F VARIATION SELECTOR-16 (the emoji presentation selector).
/// The base character alone is East-Asian-Width `Neutral` (width 1 per
/// `unicode-width`'s plain per-`char` rule) -- it is only the
/// *emoji presentation sequence* (base + U+FE0F) that is double-width,
/// which is exactly the sequence a real tool-call banner sends. `line()`
/// builds one `Cell` per `char` here too, since `.chars()` splits the base
/// and the selector into two separate `char`s.
const WRENCH: &str = "\u{1F6E0}\u{FE0F}";

#[test]
fn wide_character_row_paints_the_correct_total_number_of_columns() {
    // wrench (2 columns) + space + x = 4 columns total.
    let mut v = StreamView::new(Rect::new(0, 0, 10, 4));
    v.push_line(&line(&format!("{WRENCH} x")));
    let mut terminal = fake_terminal(20, 10);
    draw(&v, &mut terminal);

    // Column 0 holds the wrench glyph itself.
    assert_eq!(terminal.read_cell(0, 0).unwrap().ch, '\u{1F6E0}');
    // Column 1 is the wrench's second column: the trailing presentation
    // selector itself, kept (not an invented '\0') because it is a real
    // character.
    assert_eq!(terminal.read_cell(1, 0).unwrap().ch, '\u{FE0F}');
    // The rest of the row lands at its true, width-aware columns.
    assert_eq!(terminal.read_cell(2, 0).unwrap().ch, ' ');
    assert_eq!(terminal.read_cell(3, 0).unwrap().ch, 'x');
    // And the row is blank-padded for the remaining columns of the view.
    for x in 4..10 {
        assert_eq!(terminal.read_cell(x, 0).unwrap().ch, ' ');
    }
}

#[test]
fn text_after_a_wide_character_lands_at_the_right_column() {
    let mut v = StreamView::new(Rect::new(0, 0, 30, 4));
    v.push_line(&line(&format!("{WRENCH} Reading src/dsml.rs")));
    let mut terminal = fake_terminal(30, 10);
    draw(&v, &mut terminal);

    let expected = "\u{1F6E0}\u{FE0F} Reading src/dsml.rs";
    for (i, expected_ch) in expected.chars().enumerate() {
        let cell = terminal
            .read_cell(i16::try_from(i).unwrap(), 0)
            .expect("cell within terminal bounds");
        assert_eq!(cell.ch, expected_ch, "column {i} mismatch");
    }
}

#[test]
fn short_row_is_blank_padded_so_nothing_shows_through_from_beneath() {
    let mut v = StreamView::new(Rect::new(0, 0, 10, 4));
    // First paint a row that fills the whole width...
    v.push_line(&line("XXXXXXXXXX"));
    let mut terminal = fake_terminal(20, 10);
    draw(&v, &mut terminal);
    // ...then a shorter, width-shrinking row should overwrite every
    // column the first row touched, leaving nothing behind.
    v.clear();
    v.push_line(&line(&format!("{WRENCH}hi")));
    draw(&v, &mut terminal);

    assert_eq!(terminal.read_cell(0, 0).unwrap().ch, '\u{1F6E0}');
    assert_eq!(terminal.read_cell(1, 0).unwrap().ch, '\u{FE0F}');
    assert_eq!(terminal.read_cell(2, 0).unwrap().ch, 'h');
    assert_eq!(terminal.read_cell(3, 0).unwrap().ch, 'i');
    for x in 4..10 {
        assert_eq!(
            terminal.read_cell(x, 0).unwrap().ch,
            ' ',
            "column {x} must be blanked, not left over from the previous row"
        );
    }
}

#[test]
fn horizontal_offset_clips_correctly_when_a_wide_character_straddles_the_cut() {
    let mut v = StreamView::new(Rect::new(0, 0, 6, 4));
    v.push_line(&line(&format!("ab{WRENCH}cd"))); // columns: a b [wrench] [spacer] c d
    v.set_left(2); // skip "ab", landing on the wrench's first column
    let mut terminal = fake_terminal(20, 10);
    draw(&v, &mut terminal);

    assert_eq!(terminal.read_cell(0, 0).unwrap().ch, '\u{1F6E0}');
    assert_eq!(terminal.read_cell(1, 0).unwrap().ch, '\u{FE0F}');
    assert_eq!(terminal.read_cell(2, 0).unwrap().ch, 'c');
    assert_eq!(terminal.read_cell(3, 0).unwrap().ch, 'd');

    // Now offset by 3, landing squarely on the spacer half of the
    // wrench: only the lone selector character (zero-advance-width in
    // any real terminal, so it paints as blank on its own) shows at
    // column 0, never half a glyph, and everything after it must still
    // be at its true column.
    v.set_left(3);
    let mut terminal2 = fake_terminal(20, 10);
    draw(&v, &mut terminal2);
    assert_eq!(terminal2.read_cell(0, 0).unwrap().ch, '\u{FE0F}');
    assert_eq!(terminal2.read_cell(1, 0).unwrap().ch, 'c');
    assert_eq!(terminal2.read_cell(2, 0).unwrap().ch, 'd');
}

#[test]
fn plain_text_round_trips_a_wide_character_with_no_padding_artifacts() {
    let mut v = view();
    v.push_line(&line(&format!("{WRENCH} Reading src/dsml.rs")));
    assert_eq!(v.plain_text(), format!("{WRENCH} Reading src/dsml.rs"));
}

/// Two windows: a lower window paints a row
/// containing the real tool-call banner glyph and *flushes* it (not
/// just `draw`s it -- what counts is what `Terminal::flush` sends
/// downstream, invisible to any test that only checks
/// `Terminal::read_cell`, since `write_line` updates the in-memory cell
/// buffer unconditionally regardless of what flush later encodes). A
/// second, unrelated window then opens on top with the same bounds and
/// paints an all-blank row over the identical region, and flushes too.
/// A real terminal's screen must show nothing left over from the first
/// window afterwards.
#[test]
fn a_covering_window_s_flush_fully_blanks_a_row_that_held_a_wide_character() {
    let (mut terminal, output) = recording_terminal(30, 4);
    let mut grid = vec![vec![' '; 30]; 4];

    // Lower window: the real banner line at row 0, drawn and flushed.
    let mut lower = StreamView::new(Rect::new(0, 0, 30, 4));
    lower.push_line(&line(&format!("{WRENCH} Reading src/dsml.rs 1:500...")));
    draw(&lower, &mut terminal);
    terminal
        .flush()
        .expect("flush never fails against a fake backend");
    replay_onto_grid(&output.lock().unwrap(), &mut grid);
    output.lock().unwrap().clear();

    // Upper window: same bounds, no content of its own at all -- opens
    // on top and must blank every column of row 0 that the lower
    // window's banner occupied.
    let upper = StreamView::new(Rect::new(0, 0, 30, 4));
    draw(&upper, &mut terminal);
    terminal
        .flush()
        .expect("flush never fails against a fake backend");
    replay_onto_grid(&output.lock().unwrap(), &mut grid);

    // Row 0 must now be fully blank -- nothing from the lower window's
    // banner may still show through.
    for (col, &ch) in grid[0].iter().enumerate() {
        assert_eq!(
            ch, ' ',
            "row 0 column {col} still shows a leftover character from \
             the window underneath: {grid:?}"
        );
    }
}

#[test]
fn draw_on_zero_height_view_writes_nothing() {
    let mut v = StreamView::new(Rect::new(0, 0, 10, 0));
    v.push_line(&line("hello"));
    let mut terminal = fake_terminal(20, 10);
    draw(&v, &mut terminal);
    for y in 0..10 {
        for x in 0..20 {
            assert_eq!(
                terminal.read_cell(x, y).unwrap().ch,
                ' ',
                "zero-height view must not write any cell"
            );
        }
    }
}

fn cells(s: &str, attr: Attr) -> Vec<Cell> {
    s.chars().map(|c| Cell::new(c, attr)).collect()
}

const PLAIN: Attr = Attr { fg: TvColor::LightGray, bg: TvColor::Black };

#[test]
fn ascii_is_already_laid_out() {
    let row = line("plain ~text!");
    assert_eq!(normalize_line(&row), row);
}

#[test]
fn a_wide_character_gets_a_spacer_in_its_own_attribute() {
    let red = Attr::new(TvColor::Red, TvColor::Blue);
    let row = normalize_line(&cells("a\u{6f22}b", red));
    assert_eq!(row.iter().map(|c| c.ch).collect::<String>(), "a\u{6f22}\0b");
    assert_eq!(row[2].attr, red);
    assert_eq!(normalize_line(&row), row);
}

#[test]
fn laying_out_twice_changes_nothing() {
    for text in [
        "plain",
        "\u{1F6E0}\u{FE0F} x",
        "e\u{301}e",
        "a\u{FE0F}\u{FE0F}b",
        "\u{7}x",
        "\u{7}\u{FE0F}x",
        "\u{6f22}\u{5b57}x",
        "\u{6f22}\0\0x",
        "\u{6f22}\u{301}\0x",
        "\0\u{6f22}\0",
        "\u{231A}\u{FE0E}x\u{231A}",
        "x\u{FE0F}\0\u{6f22}\u{FE0F}",
        "\u{1F6E0}\u{FE0F}\0",
    ] {
        let once = normalize_line(&line(text));
        assert_eq!(normalize_line(&once), once, "{text:?}");
    }
}

#[test]
fn rebuilt_lines_are_shown_as_before() {
    let mut v = view();
    v.push_line(&line("\u{6f22}\u{5b57} \u{1F6E0}\u{FE0F} x\u{FE0F}y"));
    let mut again = view();
    for row in v.styled_lines() {
        again.push_line(&row);
    }
    assert_eq!(again.styled_lines(), v.styled_lines());
    assert_eq!(again.plain_text(), v.plain_text());
}

#[test]
fn characters_without_a_column_are_dropped() {
    let row = normalize_line(&line("e\u{301}\u{200b}\u{7}x"));
    assert_eq!(row.iter().map(|c| c.ch).collect::<String>(), "ex");
    let row = normalize_line(&line("\u{FE0F}x"));
    assert_eq!(row.iter().map(|c| c.ch).collect::<String>(), "x");
}

#[test]
fn there_is_one_cell_for_each_column() {
    for (text, columns) in [
        ("x\u{FE0F}y", 2),
        ("x\u{FE0E}", 1),
        ("\u{1F6E0}\u{FE0F}x", 3),
        ("\u{1F6E0}\u{FE0E}x", 2),
        ("\u{6f22}\u{FE0F}", 2),
        ("e\u{301}\u{200b}", 1),
        ("\u{6f22}\0\0", 3),
    ] {
        assert_eq!(normalize_line(&line(text)).len(), columns, "{text:?}");
    }
    let row = normalize_line(&line("x\u{FE0F}y"));
    assert_eq!(row, line("xy"));
}

#[test]
fn a_character_that_is_narrow_only_with_its_selector_keeps_it() {
    // U+231A WATCH with the text selector is one column wide, without it two.
    let row = normalize_line(&line("\u{231A}\u{FE0E}x"));
    assert_eq!(row.iter().map(|c| c.ch).collect::<String>(), "\u{231A}\u{FE0E}x");
}

#[test]
fn a_character_is_placed_over_its_columns() {
    let c = Cell::new('x', PLAIN);
    let s = Cell::new('\u{FE0F}', PLAIN);
    let gap = Cell::new('\0', PLAIN);
    let other = Cell::new('\0', Attr::new(TvColor::Red, TvColor::Black));
    assert_eq!(place(&[c], 0, 0), (vec![], 1));
    assert_eq!(place(&[c, c], 1, 1), (vec![c], 1));
    assert_eq!(place(&[c, c], 3, 3), (vec![c, gap, gap], 1));
    assert_eq!(place(&[c, other, c], 3, 3), (vec![c, other, gap], 2));
    assert_eq!(place(&[c, other, other], 2, 2), (vec![c, other], 2));
    assert_eq!(place(&[c, s, c], 0, 1), (vec![], 2));
    assert_eq!(place(&[c, s, c], 1, 1), (vec![c], 2));
    assert_eq!(place(&[c, s, c], 1, 2), (vec![c, s], 2));
    assert_eq!(place(&[c, s, c], 2, 1), (vec![c, s], 2));
    assert_eq!(place(&[c, s, other], 3, 1), (vec![c, s, other], 3));
    assert_eq!(place(&[gap, s, c], 1, 0), (vec![gap], 1));
}

#[test]
fn keys_scroll_by_line_and_page() {
    let mut v = view();
    for i in 0..50 {
        v.push_line(&line(&i.to_string()));
    }
    assert_eq!((v.top(), v.max_top(), v.page()), (40, 40, 10));
    assert!(v.handle_event(Key::Up));
    assert_eq!(v.top(), 39);
    assert!(v.handle_event(Key::PageUp));
    assert_eq!(v.top(), 29);
    assert!(v.handle_event(Key::Down));
    assert_eq!(v.top(), 30);
    assert!(!v.is_at_bottom());
    assert!(v.handle_event(Key::PageDown));
    assert_eq!(v.top(), 40);
    assert!(v.is_at_bottom(), "the last page re-arms autoscroll");
    assert!(v.handle_event(Key::Home));
    assert_eq!(v.top(), 0);
    assert!(!v.handle_event(Key::Other));
    assert_eq!(v.top(), 0);
    assert!(v.handle_event(Key::End));
    assert!(v.is_at_bottom());
    v.scroll_up(usize::MAX);
    assert_eq!(v.top(), 0);
    v.scroll_down(usize::MAX);
    assert_eq!(v.top(), 40);
}

#[test]
fn a_reader_keeps_their_place_while_old_lines_are_dropped() {
    let mut v = view();
    v.set_max_lines(20);
    for i in 0..20 {
        v.push_line(&line(&i.to_string()));
    }
    v.scroll_up(4);
    assert_eq!(v.top(), 6);
    v.push_line(&line("new"));
    assert_eq!(v.top(), 5);
    assert_eq!(v.styled_lines()[v.top()], line("6"));
}

#[test]
fn the_scrollback_holds_at_least_one_line() {
    let mut v = view();
    v.set_max_lines(usize::MAX);
    v.push_line(&line("z"));
    v.set_partial(&line("y"));
    assert_eq!(v.line_count(), 2);
    v.set_partial(&[]);
    v.set_max_lines(0);
    v.push_line(&line("a"));
    v.push_line(&line("b"));
    assert_eq!(v.plain_text(), "b");
    assert_eq!(DEFAULT_MAX_LINES, 10_000);
}

#[test]
fn a_partial_line_follows_the_completed_ones_and_can_be_withdrawn() {
    let mut v = view();
    v.push_line(&line("one"));
    v.set_partial(&line("tw"));
    assert_eq!(v.plain_text(), "one\ntw");
    assert_eq!(v.styled_lines(), vec![line("one"), line("tw")]);
    v.push_line(&line("two"));
    assert_eq!(v.plain_text(), "one\ntwo\ntw");
    v.set_partial(&[]);
    assert_eq!(v.line_count(), 2);
    v.clear();
    assert_eq!(v.plain_text(), "");
    assert_eq!(v.line_count(), 0);
}

#[test]
fn a_view_without_width_paints_empty_rows() {
    let mut v = StreamView::new(Rect::new(5, 5, 5, 7));
    v.push_line(&line("hello"));
    assert_eq!(v.draw(), vec![Vec::<Cell>::new(), Vec::new()]);
    let v = StreamView::new(Rect::new(5, 7, 9, 5));
    assert_eq!(v.draw(), Vec::<Vec<Cell>>::new());
    assert_eq!(v.page(), 1);
    assert_eq!(v.bounds(), Rect::new(5, 7, 9, 5));
}
