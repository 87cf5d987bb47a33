//! Where windows and their views land on the desktop.

use std::io;
use std::sync::{Arc, Mutex};
use std::time::Duration;

use turbo_debug_console::console::{session_view_bounds, tile_window_bounds};
use turbo_debug_console::screen::{Attr, Cell, Rect, TvColor};
use turbo_debug_console::streamview::StreamView;
use turbo_vision::terminal::{Backend, Terminal};
use turbo_vision::views::desktop::Desktop;
use turbo_vision::views::view::View;
use turbo_vision::views::window::WindowBuilder;
use unicode_width::UnicodeWidthChar;

type TvEvent = turbo_vision::core::event::Event;
type TvRect = turbo_vision::core::geometry::Rect;

fn own_rect(r: TvRect) -> Rect {
    Rect::new(r.a.x, r.a.y, r.b.x, r.b.y)
}

fn tv_rect(r: Rect) -> TvRect {
    TvRect::new(r.a.x, r.a.y, r.b.x, r.b.y)
}

/// A stream view on the desktop.
struct ShownView(StreamView);

impl ShownView {
    fn new(bounds: TvRect) -> Self {
        Self(StreamView::new(own_rect(bounds)))
    }
}

impl View for ShownView {
    fn bounds(&self) -> TvRect {
        tv_rect(self.0.bounds())
    }
    fn set_bounds(&mut self, bounds: TvRect) {
        self.0.set_bounds(own_rect(bounds));
    }
    fn draw(&mut self, terminal: &mut Terminal) {
        let attr = turbo_vision::core::palette::Attr::new(
            turbo_vision::core::palette::TvColor::LightGray,
            turbo_vision::core::palette::TvColor::Black,
        );
        for (y, row) in self.0.draw().iter().enumerate() {
            let mut buf = turbo_vision::core::draw::DrawBuffer::new(row.len());
            for (x, cell) in row.iter().enumerate() {
                buf.put_char(x, cell.ch, attr);
            }
            turbo_vision::views::view::write_line_to_terminal(
                terminal,
                self.0.bounds().a.x,
                self.0.bounds().a.y + i16::try_from(y).unwrap(),
                &buf,
            );
        }
    }
    fn handle_event(&mut self, _event: &mut TvEvent) {}
    fn get_palette(&self) -> Option<turbo_vision::core::palette::Palette> {
        None
    }
}

/// The exact banner glyph of a tool call: U+1F6E0 HAMMER AND WRENCH followed
/// by U+FE0F VARIATION SELECTOR-16.
const WRENCH: &str = "\u{1F6E0}\u{FE0F}";

fn line(s: &str) -> Vec<Cell> {
    s.chars()
        .map(|c| Cell::new(c, Attr::new(TvColor::LightGray, TvColor::Black)))
        .collect()
}

struct NullBackend;
impl Backend for NullBackend {
    fn as_any_mut(&mut self) -> &mut dyn std::any::Any {
        self
    }
    fn init(&mut self) -> io::Result<()> {
        Ok(())
    }
    fn cleanup(&mut self) -> io::Result<()> {
        Ok(())
    }
    fn size(&self) -> io::Result<(u16, u16)> {
        Ok((80, 25))
    }
    fn poll_event(&mut self, _timeout: Duration) -> io::Result<Option<TvEvent>> {
        Ok(None)
    }
    fn write_raw(&mut self, _data: &[u8]) -> io::Result<()> {
        Ok(())
    }
    fn flush(&mut self) -> io::Result<()> {
        Ok(())
    }
    fn show_cursor(&mut self, _x: u16, _y: u16) -> io::Result<()> {
        Ok(())
    }
    fn hide_cursor(&mut self) -> io::Result<()> {
        Ok(())
    }
}

/// A window whose bounds equal the tile rect returned by
/// `tile_window_bounds` (shadow-shrunk) renders its title on row 0 —
/// not pushed off screen.
#[test]
fn shadow_shrunk_bounds_keep_the_title_bar_on_screen() {
    let mut terminal = Terminal::with_backend(Box::new(NullBackend)).unwrap();
    let mut desktop = Desktop::new(TvRect::new(0, 0, 80, 25));

    let (shadow_x, shadow_y) = turbo_vision::core::state::shadow_size();
    let bounds = tv_rect(tile_window_bounds(own_rect(desktop.bounds()), shadow_x, shadow_y));

    let window = WindowBuilder::new()
        .bounds(bounds)
        .title("demo :61278")
        .build();
    desktop.add(Box::new(window));
    desktop.draw(&mut terminal);

    let row0: String = terminal.buffer()[0].iter().map(|c| c.ch).collect();
    assert!(row0.contains("demo :61278"), "title not on row 0: {row0:?}");
}

/// Without the shadow-shrink, the same window (bounds == full desktop)
/// gets constrained up by one row to make room for its shadow, and the
/// title bar (row 0 of the frame) scrolls off screen entirely. What
/// matters is the window's size versus the shadow, not
/// `Frame`/`set_title`.
#[test]
fn unshrunk_bounds_push_the_title_bar_off_screen() {
    let mut terminal = Terminal::with_backend(Box::new(NullBackend)).unwrap();
    let mut desktop = Desktop::new(TvRect::new(0, 0, 80, 25));

    let window = WindowBuilder::new()
        .bounds(desktop.bounds())
        .title("demo :61278")
        .build();
    desktop.add(Box::new(window));
    desktop.draw(&mut terminal);

    let row0: String = terminal.buffer()[0].iter().map(|c| c.ch).collect();
    assert!(
        !row0.contains("demo :61278"),
        "expected the unshrunk-bounds title to be scrolled off row 0, but found it: {row0:?}"
    );
}

/// A view added to a
/// window's interior must be given bounds relative to the interior —
/// `(0, 0, w - 2, h - 2)` for a window of width `w`, height `h` — so
/// that after `Window::add` its absolute bounds land one row/column
/// inside the frame on every side.
#[test]
fn stream_view_bounds_land_inside_the_frame_not_over_it() {
    let window_bounds = TvRect::new(0, 0, 40, 20);
    let view_bounds = tv_rect(session_view_bounds(own_rect(window_bounds)));
    // Interior-relative: must start at the origin, not the window's.
    assert_eq!(view_bounds, TvRect::new(0, 0, 38, 18));

    let mut window = WindowBuilder::new()
        .bounds(window_bounds)
        .title("demo")
        .build();
    window.add(Box::new(ShownView::new(view_bounds)));

    // After Group::add's relative -> absolute conversion, the child's
    // absolute bounds must be the window bounds inset by one cell of
    // frame on every side (Rect::b is exclusive), not the window's
    // outer bounds.
    let absolute = window.child_at(0).bounds();
    assert_eq!(absolute, TvRect::new(1, 1, 39, 19));
}

/// What happens when the window's *outer* bounds are passed as the child's
/// relative bounds. `Group::add`
/// still offsets the child's top-left by the interior's own origin
/// (`(1, 1)` here), so the left/top edge lands correctly by
/// coincidence, but the child's bottom-right is two
/// cells too large in each dimension, so it overlaps the frame's right
/// and bottom border instead of stopping at the interior's edge.
#[test]
fn outer_bounds_overflow_the_interior_by_the_frame_width() {
    let window_bounds = TvRect::new(0, 0, 40, 20);
    let mut window = WindowBuilder::new()
        .bounds(window_bounds)
        .title("demo")
        .build();
    window.add(Box::new(ShownView::new(window_bounds)));

    let absolute = window.child_at(0).bounds();
    // The interior is (1, 1, 39, 19); the child bounds instead
    // reach to (41, 21) — two cells past the interior on each side.
    assert_eq!(absolute, TvRect::new(1, 1, 41, 21));
    assert!(
        absolute.b.x > 39 && absolute.b.y > 19,
        "expected the outer bounds to overflow the interior (1,1,39,19), got {absolute:?}"
    );
}

/// Records every byte `Terminal::flush` sends downstream, so a test can
/// inspect what actually reaches a real terminal (the diffed,
/// escape-coded re-encode of the cell buffer) rather than only the
/// in-memory buffer `write_line` always updates unconditionally.
#[derive(Clone, Default)]
struct RecordingBackend {
    width: u16,
    height: u16,
    output: Arc<Mutex<Vec<u8>>>,
}

impl Backend for RecordingBackend {
    fn as_any_mut(&mut self) -> &mut dyn std::any::Any {
        self
    }
    fn init(&mut self) -> io::Result<()> {
        Ok(())
    }
    fn cleanup(&mut self) -> io::Result<()> {
        Ok(())
    }
    fn size(&self) -> io::Result<(u16, u16)> {
        Ok((self.width, self.height))
    }
    fn poll_event(&mut self, _timeout: Duration) -> io::Result<Option<TvEvent>> {
        Ok(None)
    }
    fn write_raw(&mut self, data: &[u8]) -> io::Result<()> {
        self.output.lock().unwrap().extend_from_slice(data);
        Ok(())
    }
    fn flush(&mut self) -> io::Result<()> {
        Ok(())
    }
    fn show_cursor(&mut self, _x: u16, _y: u16) -> io::Result<()> {
        Ok(())
    }
    fn hide_cursor(&mut self) -> io::Result<()> {
        Ok(())
    }
}

/// Replays `flush`'s escape-coded byte stream onto a plain grid the way
/// a real terminal would: `ESC[row;colH` repositions the cursor
/// (1-indexed), an SGR color sequence is consumed and ignored, and
/// every other character is placed at the cursor and advances it by
/// its own display width, exactly as a real terminal renders it.
fn replay_onto_grid(bytes: &[u8], grid: &mut [Vec<char>]) {
    let text = std::str::from_utf8(bytes).expect("flush emits valid UTF-8");
    let mut chars = text.chars().peekable();
    let mut row = 0usize;
    let mut col = 0usize;
    while let Some(c) = chars.next() {
        if c == '\u{1b}' && chars.peek() == Some(&'[') {
            chars.next();
            let mut params = String::new();
            let mut final_byte = ' ';
            for pc in chars.by_ref() {
                if pc.is_ascii_digit() || pc == ';' {
                    params.push(pc);
                } else {
                    final_byte = pc;
                    break;
                }
            }
            if final_byte == 'H' {
                let mut parts = params.split(';');
                let r: usize = parts.next().and_then(|p| p.parse().ok()).unwrap_or(1);
                let cix: usize = parts.next().and_then(|p| p.parse().ok()).unwrap_or(1);
                row = r.saturating_sub(1);
                col = cix.saturating_sub(1);
            }
            continue;
        }
        let width = c.width().unwrap_or(0);
        if row < grid.len() && col < grid[row].len() {
            grid[row][col] = c;
        }
        col += width;
    }
}

#[test]
fn a_new_window_s_flush_fully_covers_a_row_that_held_a_wide_character_underneath() {
    let output: Arc<Mutex<Vec<u8>>> = Arc::default();
    let backend = RecordingBackend {
        width: 40,
        height: 12,
        output: output.clone(),
    };
    let mut terminal = Terminal::with_backend(Box::new(backend)).unwrap();
    let mut desktop = Desktop::new(TvRect::new(0, 0, 40, 12));
    let mut grid = vec![vec![' '; 40]; 12];

    // Window A: same bounds every new window gets (no auto-tiling) --
    // interior content: two blank lines, then the real banner line, so
    // the banner sits at interior row 2, beyond window B's two lines.
    let window_bounds = TvRect::new(0, 0, 30, 8);
    let mut window_a = WindowBuilder::new()
        .bounds(window_bounds)
        .title("a")
        .build();
    let mut view_a = ShownView::new(TvRect::new(0, 0, 28, 6));
    view_a.0.push_line(&line(""));
    view_a.0.push_line(&line(""));
    view_a
        .0
        .push_line(&line(&format!("{WRENCH} Reading src/dsml.rs 1:500...")));
    window_a.add(Box::new(view_a));
    desktop.add(Box::new(window_a));

    desktop.draw(&mut terminal);
    terminal.flush().unwrap();
    replay_onto_grid(&output.lock().unwrap(), &mut grid);
    output.lock().unwrap().clear();

    // Window B: identical bounds, opens on top, only two short lines of
    // its own.
    let mut window_b = WindowBuilder::new()
        .bounds(window_bounds)
        .title("b")
        .build();
    let mut view_b = ShownView::new(TvRect::new(0, 0, 28, 6));
    view_b.0.push_line(&line("hi"));
    view_b.0.push_line(&line("there"));
    window_b.add(Box::new(view_b));
    desktop.add(Box::new(window_b));

    desktop.draw(&mut terminal);
    terminal.flush().unwrap();
    replay_onto_grid(&output.lock().unwrap(), &mut grid);

    // Interior row 2 (absolute row 1 + 2 = 3, since the window's
    // interior starts one row inside its own top-left) must be fully
    // blank in window B: nothing from window A's banner may bleed
    // through.
    let absolute_row = usize::try_from(window_bounds.a.y).unwrap() + 1 + 2;
    let interior_x0 = usize::try_from(window_bounds.a.x).unwrap() + 1;
    let interior_x1 = usize::try_from(window_bounds.b.x).unwrap() - 1;
    for col in interior_x0..interior_x1 {
        assert_eq!(
            grid[absolute_row][col], ' ',
            "row {absolute_row} column {col} still shows a leftover \
             character from window A: {:?}",
            grid[absolute_row]
        );
    }
}
