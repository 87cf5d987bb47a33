//! Line assembly.

use turbo_debug_console::ansiasm::{attr_to_sgr, cells_from, trailing_attr, AnsiLineAssembler};
use turbo_debug_console::screen::{Attr, Cell, TvColor};

fn text(cells: &[Cell]) -> String {
    cells.iter().map(|c| c.ch).collect()
}

#[test]
fn splits_on_newline_and_holds_the_tail() {
    let mut a = AnsiLineAssembler::new();
    a.push(b"one\ntwo");
    let lines = a.take_complete_lines();
    assert_eq!(lines.len(), 1);
    assert_eq!(text(&lines[0]), "one");
    assert_eq!(text(&a.partial_line()), "two");
}

#[test]
fn attribute_carries_across_a_line_break() {
    let mut a = AnsiLineAssembler::new();
    a.push(b"\x1b[31mred one\nstill red");
    let lines = a.take_complete_lines();
    assert_eq!(lines[0].last().unwrap().attr.fg, TvColor::Red);
    let partial = a.partial_line();
    assert_eq!(
        partial[0].attr.fg,
        TvColor::Red,
        "SGR state must survive the newline"
    );
}

#[test]
fn byte_at_a_time_matches_whole_delivery() {
    let input = b"\x1b[1;32mgreen\x1b[0m plain\nnext\n";
    let mut whole = AnsiLineAssembler::new();
    whole.push(input);
    let expected = whole.take_complete_lines();

    let mut drip = AnsiLineAssembler::new();
    let mut got = Vec::new();
    for b in input {
        drip.push(&[*b]);
        got.extend(drip.take_complete_lines());
    }
    assert_eq!(got, expected);
}

#[test]
fn escape_split_across_chunks_is_not_shown_as_text() {
    let mut a = AnsiLineAssembler::new();
    a.push(b"x\x1b[3");
    assert_eq!(
        text(&a.partial_line()),
        "x",
        "an incomplete escape must not leak as literal characters"
    );
    a.push(b"1mY");
    assert_eq!(text(&a.partial_line()), "xY");
    assert_eq!(a.partial_line()[1].attr.fg, TvColor::Red);
}

#[test]
fn carriage_return_is_dropped_not_rendered() {
    let mut a = AnsiLineAssembler::new();
    a.push(b"abc\r\n");
    let lines = a.take_complete_lines();
    assert_eq!(text(&lines[0]), "abc");
}

#[test]
fn fence_repaint_replaces_the_line_instead_of_appending_to_it() {
    // The renderer's fence highlighter writes a code line plain, then
    // once it learns the language, repaints it: `\r\x1b[0K` moves the
    // cursor to column 0 and erases to end of line, followed by the
    // syntax-highlighted rewrite. `AnsiParser` has no concept of cursor
    // position or erase-in-line, so without special-casing this exact
    // sequence its "invalid escape" fallback swallows the *next*
    // escape's `m` terminator, silently eating the highlight colors —
    // and without any special-casing at all, the plain and highlighted
    // text would simply concatenate on one line.
    let mut a = AnsiLineAssembler::new();
    a.push(b"fn main() {}\x1b[0m\r\x1b[0K\x1b[38;5;214mfn\x1b[0m main() {}\n");
    let lines = a.take_complete_lines();
    assert_eq!(
        text(&lines[0]),
        "fn main() {}",
        "the plain pre-repaint text must not survive alongside the repaint"
    );
    assert_ne!(
        lines[0][0].attr.fg,
        TvColor::LightGray,
        "the repainted line must carry the highlight color, not the default"
    );
}

#[test]
fn trailing_sgr_after_the_last_char_does_not_bleed_into_the_next_line() {
    // The renderer closes `<think>` with a reset that lands *after* the last
    // visible character on the line, e.g. `...pondering\x1b[0m`. The last
    // cell's attribute predates that reset: carrying it over would let the
    // thinking color bleed onto the next line.
    let mut a = AnsiLineAssembler::new();
    a.push(b"\x1b[38;5;8mpondering\x1b[0m\nplain text\n");
    let lines = a.take_complete_lines();
    assert_eq!(
        lines[1][0].attr.fg,
        TvColor::LightGray,
        "the reset after the last char of line 0 must carry into line 1, \
         not line 0's last cell color"
    );
}

#[test]
fn flush_emits_a_trailing_line_without_a_newline() {
    let mut a = AnsiLineAssembler::new();
    a.push(b"tail");
    assert_eq!(text(&a.flush().unwrap()), "tail");
    assert!(a.flush().is_none(), "flush must be idempotent");
}

#[test]
fn attributes_are_written_as_sgr() {
    assert_eq!(
        attr_to_sgr(Attr::new(TvColor::LightGray, TvColor::Black)),
        "\x1b[38;5;7m\x1b[48;5;0m"
    );
    assert_eq!(
        attr_to_sgr(Attr::new(TvColor::Yellow, TvColor::Blue)),
        "\x1b[38;5;11m\x1b[48;5;4m"
    );
    assert_eq!(
        attr_to_sgr(Attr::new(
            TvColor::Rgb { r: 1, g: 22, b: 255 },
            TvColor::White
        )),
        "\x1b[38;2;1;22;255m\x1b[48;5;15m"
    );
}

#[test]
fn every_named_attribute_carries_over_a_line_break() {
    for fg in 0..16u8 {
        for bg in 0..16u8 {
            let attr = Attr::new(TvColor::from_index(fg), TvColor::from_index(bg));
            let mut a = AnsiLineAssembler::new();
            a.push(attr_to_sgr(attr).as_bytes());
            a.push(b"\nx");
            let partial = a.partial_line();
            assert_eq!(partial, vec![Cell::new('x', attr)]);
        }
    }
}

#[test]
fn bold_becomes_a_brighter_foreground() {
    let mut a = AnsiLineAssembler::new();
    a.push(b"\x1b[1;32mgreen");
    assert!(a.partial_line().iter().all(|c| c.attr.fg == TvColor::LightGreen));
}

#[test]
fn true_colour_is_brought_down_to_a_named_one() {
    let mut a = AnsiLineAssembler::new();
    a.push(b"\x1b[38;2;250;80;80mx");
    assert_eq!(a.partial_line()[0].attr.fg, TvColor::LightRed);
}

#[test]
fn plain_text_keeps_the_default_attribute() {
    let mut a = AnsiLineAssembler::default();
    a.push("caf\u{e9} \u{1f6e0}\nx".as_bytes());
    let lines = a.take_complete_lines();
    assert_eq!(text(&lines[0]), "caf\u{e9} \u{1f6e0}");
    let plain = Attr::new(TvColor::LightGray, TvColor::Black);
    assert!(lines[0].iter().all(|c| c.attr == plain));
    assert_eq!(a.partial_line(), vec![Cell::new('x', plain)]);
}

#[test]
fn invalid_utf8_is_replaced_not_dropped() {
    let mut a = AnsiLineAssembler::new();
    a.push(b"a\xffb");
    assert_eq!(text(&a.partial_line()), "a\u{fffd}b");
}

#[test]
fn an_escape_alone_is_withheld_and_one_without_a_bracket_is_not() {
    let mut a = AnsiLineAssembler::new();
    a.push(b"x\x1b");
    assert_eq!(text(&a.partial_line()), "x");
    a.push(b"Q");
    assert_eq!(text(&a.partial_line()), "xQ");
}

#[test]
fn a_marker_split_over_two_pushes_still_discards_the_line() {
    let mut a = AnsiLineAssembler::new();
    a.push(b"old\r\x1b[");
    a.push(b"0Knew\n");
    assert_eq!(text(&a.take_complete_lines()[0]), "new");
    assert!(a.take_complete_lines().is_empty());
}

#[test]
fn lines_taken_early_are_the_lines_taken_late() {
    let input = b"\x1b[31mone\ntwo\x1b[0m\n\nthree";
    for cut in 0..input.len() {
        let mut whole = AnsiLineAssembler::new();
        whole.push(input);
        let mut parts = AnsiLineAssembler::new();
        parts.push(&input[..cut]);
        let mut got = parts.take_complete_lines();
        parts.push(&input[cut..]);
        got.extend(parts.take_complete_lines());
        assert_eq!(got, whole.take_complete_lines());
        assert_eq!(parts.partial_line(), whole.partial_line());
    }
}

#[test]
fn parsed_characters_become_cells() {
    assert_eq!(
        cells_from(&[('a', 4, 1), ('b', 17, 31)]),
        vec![
            Cell::new('a', Attr::new(TvColor::Red, TvColor::Blue)),
            Cell::new('b', Attr::new(TvColor::Blue, TvColor::White)),
        ]
    );
    let attr = Attr::new(TvColor::Red, TvColor::Blue);
    assert_eq!(trailing_attr(&[Cell::new('a', attr)], Attr::new(TvColor::White, TvColor::Black)), attr);
    assert_eq!(trailing_attr(&[], attr), attr);
}
