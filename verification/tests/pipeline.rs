//! Token streams.

use turbo_debug_console::ansiasm::AnsiLineAssembler;
use turbo_debug_console::pipeline::{flush_ansi, show_ansi, tool_names, Pipeline, RenderOptions};
use turbo_debug_console::screen::{Rect, TvColor};
use turbo_debug_console::streamview::StreamView;

fn opts() -> RenderOptions {
    RenderOptions {
        use_color: true,
        format_thinking: true,
        format_markdown: true,
    }
}

#[test]
fn plain_text_reaches_the_view() {
    let mut p = Pipeline::new(opts());
    let mut v = StreamView::new(Rect::new(0, 0, 80, 24));
    p.feed(b"hello world\n", &mut v);
    assert!(v.plain_text().contains("hello world"));
}

#[test]
fn thinking_text_is_styled_differently_from_visible_text() {
    let mut p = Pipeline::new(opts());
    let mut v = StreamView::new(Rect::new(0, 0, 80, 24));
    p.feed(b"<think>pondering</think>\nanswer\n", &mut v);
    let txt = v.plain_text();
    assert!(txt.contains("pondering"));
    assert!(txt.contains("answer"));
}

/// The real DSML shape, taken verbatim from the template the tools prompt
/// teaches the model: `<｜DSML｜tool_calls>` /
/// `<｜DSML｜invoke name="...">` / `<｜DSML｜parameter ...>`.
const REAL_DSML_READ: &str = "<｜DSML｜tool_calls>\n\
    <｜DSML｜invoke name=\"read\">\n\
    <｜DSML｜parameter name=\"path\" string=\"true\">src/main.rs</｜DSML｜parameter>\n\
    </｜DSML｜invoke>\n\
    </｜DSML｜tool_calls>\n";

#[test]
fn a_dsml_tool_call_becomes_a_banner_not_raw_markup() {
    let mut p = Pipeline::new(opts());
    let mut v = StreamView::new(Rect::new(0, 0, 80, 24));
    p.feed(REAL_DSML_READ.as_bytes(), &mut v);
    let txt = v.plain_text();
    assert!(
        !txt.contains("DSML"),
        "raw DSML must never reach the screen: {txt:?}"
    );
    assert!(
        txt.contains("src/main.rs"),
        "banner should name the path: {txt:?}"
    );
}

/// Invented, non-DSML markup (a bare `<read>` opening a line) must never
/// be silently dispatched as a real tool call — the renderer's
/// detector catches it and reports it as an error instead.
#[test]
fn invented_pseudo_tool_markup_is_rejected_not_dispatched() {
    let mut p = Pipeline::new(opts());
    let mut v = StreamView::new(Rect::new(0, 0, 80, 24));
    p.feed(b"<read>\n<path>src/main.rs</path>\n</read>\n", &mut v);
    let txt = v.plain_text();
    assert!(
        txt.contains("is not a tool call"),
        "invented markup should be rejected with an explanatory banner: {txt:?}"
    );
    assert!(
        !txt.contains("🛠"),
        "a rejected pseudo-call must not also show a dispatch banner: {txt:?}"
    );
}

#[test]
fn a_fenced_code_block_is_colored() {
    let mut p = Pipeline::new(opts());
    let mut v = StreamView::new(Rect::new(0, 0, 80, 24));
    p.feed(b"```rust\nfn main() {}\n```\n", &mut v);
    let attrs: Vec<TvColor> = v
        .styled_lines()
        .iter()
        .flatten()
        .map(|c| c.attr.fg)
        .collect();
    assert!(
        attrs.iter().any(|c| *c != TvColor::LightGray),
        "a highlighted code block must not be uniformly default-colored"
    );
}

#[test]
fn set_options_preserves_a_split_utf8_char() {
    // An em-dash '—' is 3 bytes (0xE2 0x80 0x94). Split it across two
    // `feed` calls with a `set_options` in between: the trailing bytes
    // held in `utf8_carry` must survive the rebuild, not vanish.
    let dash = "—".as_bytes();
    assert_eq!(dash.len(), 3);
    let mut p = Pipeline::new(opts());
    let mut v = StreamView::new(Rect::new(0, 0, 80, 24));
    p.feed(&dash[..1], &mut v);
    p.set_options(opts(), &mut v);
    p.feed(&dash[1..], &mut v);
    p.feed(b"\n", &mut v);
    p.finish(&mut v);
    assert!(
        v.plain_text().contains('—'),
        "the split character must survive set_options intact: {:?}",
        v.plain_text()
    );
}

#[test]
fn split_delivery_matches_whole_delivery() {
    let input = b"# Title\n\nsome **bold** text\n";
    let mut whole_p = Pipeline::new(opts());
    let mut whole_v = StreamView::new(Rect::new(0, 0, 80, 24));
    whole_p.feed(input, &mut whole_v);
    whole_p.finish(&mut whole_v);

    let mut drip_p = Pipeline::new(opts());
    let mut drip_v = StreamView::new(Rect::new(0, 0, 80, 24));
    for b in input {
        drip_p.feed(&[*b], &mut drip_v);
    }
    drip_p.finish(&mut drip_v);

    assert_eq!(drip_v.styled_lines(), whole_v.styled_lines());
}

#[test]
fn the_tool_table_is_complete() {
    let names = tool_names();
    assert_eq!(names.len(), 25);
    assert_eq!(names[0], "EnterWorktree");
    assert_eq!(names[24], "run_code");
}

#[test]
fn options_are_those_last_set() {
    let plain = RenderOptions { use_color: false, format_thinking: false, format_markdown: false };
    let mut p = Pipeline::new(plain);
    let mut v = StreamView::new(Rect::new(0, 0, 80, 24));
    assert_eq!(p.options(), plain);
    p.feed(b"**a**\n", &mut v);
    assert_eq!(v.plain_text(), "**a**");
    p.set_options(opts(), &mut v);
    assert_eq!(p.options(), opts());
    p.feed(b"**b**\n", &mut v);
    p.finish(&mut v);
    assert!(v.plain_text().contains('b'));
    assert!(!v.plain_text().contains("**b**"));
}

#[test]
fn a_character_split_over_two_pieces_is_shown_once_it_is_whole() {
    let dash = "\u{2014}".as_bytes();
    let mut p = Pipeline::new(opts());
    let mut v = StreamView::new(Rect::new(0, 0, 80, 24));
    p.feed(&dash[..2], &mut v);
    assert_eq!(v.plain_text(), "");
    p.feed(&dash[2..], &mut v);
    p.feed(b"\n", &mut v);
    p.finish(&mut v);
    assert!(v.plain_text().contains('\u{2014}'));
}

#[test]
fn ansi_output_may_be_cut_anywhere() {
    let input = b"\x1b[31mone\ntwo\x1b[0m\nthr";
    for cut in 0..input.len() {
        let mut a = AnsiLineAssembler::new();
        let mut v = StreamView::new(Rect::new(0, 0, 80, 24));
        show_ansi(&mut a, &input[..cut], &mut v);
        show_ansi(&mut a, &input[cut..], &mut v);
        assert_eq!(v.plain_text(), "one\ntwo\nthr");
        assert_eq!(v.styled_lines()[1][0].attr.fg, TvColor::Red);
        flush_ansi(&mut a, &mut v);
        flush_ansi(&mut a, &mut v);
        assert_eq!(v.plain_text(), "one\ntwo\nthr");
        assert_eq!(v.line_count(), 3);
    }
}

#[test]
fn a_stream_goes_on_behind_bytes_that_are_no_text() {
    let mut p = Pipeline::new(opts());
    let mut v = StreamView::new(Rect::new(0, 0, 80, 24));
    p.feed(b"\xffabc\n", &mut v);
    assert_eq!(v.plain_text(), "\u{FFFD}abc");
    p.feed(b"de\xe2\x82", &mut v);
    assert_eq!(v.plain_text(), "\u{FFFD}abc\nde");
    p.feed(b"fg\n", &mut v);
    assert_eq!(v.plain_text(), "\u{FFFD}abc\nde\u{FFFD}fg");
}

#[test]
fn bytes_that_are_no_text_may_be_cut_anywhere() {
    let input: &[u8] = b"a\xe2\x82\xac\xe2\xe2\x82b\xf0\x9f\x98\x80\xf4\x90\xed\xa0\xe0\x80\xc0\x80\xf5c\xf0\x9f\n";
    let mut whole_p = Pipeline::new(opts());
    let mut whole_v = StreamView::new(Rect::new(0, 0, 80, 24));
    whole_p.feed(input, &mut whole_v);
    assert_eq!(
        whole_v.plain_text(),
        String::from_utf8_lossy(&input[..input.len() - 1]).replace('\n', "")
    );
    for cut in 0..=input.len() {
        for second in cut..=input.len() {
            let mut p = Pipeline::new(opts());
            let mut v = StreamView::new(Rect::new(0, 0, 80, 24));
            p.feed(&input[..cut], &mut v);
            p.feed(&input[cut..second], &mut v);
            p.feed(&input[second..], &mut v);
            assert_eq!(v.styled_lines(), whole_v.styled_lines(), "{cut} {second}");
        }
    }
}

#[test]
fn unmarked_text_is_shown_as_it_is_whatever_the_options() {
    let text = "# 1. plain_text \t[x](y) ~\u{6f22}\u{e9}> - + = !\r\nnext\nlast";
    for n in 0..8u8 {
        let options = RenderOptions {
            use_color: n & 1 != 0,
            format_thinking: n & 2 != 0,
            format_markdown: n & 4 != 0,
        };
        let mut p = Pipeline::new(options);
        let mut v = StreamView::new(Rect::new(0, 0, 80, 24));
        p.feed(text.as_bytes(), &mut v);
        let shown = v.plain_text();
        assert_eq!(shown, text.replace('\r', "").replace('\t', ""));
        p.finish(&mut v);
        assert_eq!(v.plain_text(), shown);
        for line in v.styled_lines() {
            for cell in line {
                assert_eq!(cell.attr.fg, TvColor::LightGray);
            }
        }
        p.feed(b"\nmore\n", &mut v);
        assert_eq!(v.plain_text(), format!("{shown}\n\nmore"));
    }
}

/// Delivers `text` whole and cut in two at every byte, and holds what is in
/// the view against each other before and after the end of the stream.
fn assert_cut_anywhere(text: &str) {
    let input = text.as_bytes();
    for n in 0..8u8 {
        let options = RenderOptions {
            use_color: n & 1 != 0,
            format_thinking: n & 2 != 0,
            format_markdown: n & 4 != 0,
        };
        let mut whole_p = Pipeline::new(options);
        let mut whole_v = StreamView::new(Rect::new(0, 0, 80, 24));
        whole_p.feed(input, &mut whole_v);
        let before_end = whole_v.styled_lines();
        whole_p.finish(&mut whole_v);
        for cut in 0..=input.len() {
            let mut p = Pipeline::new(options);
            let mut v = StreamView::new(Rect::new(0, 0, 80, 24));
            p.feed(&input[..cut], &mut v);
            p.feed(&input[cut..], &mut v);
            assert_eq!(v.styled_lines(), before_end, "cut at {cut}");
            p.finish(&mut v);
            assert_eq!(v.styled_lines(), whole_v.styled_lines(), "cut at {cut}");
        }
        let mut p = Pipeline::new(options);
        let mut v = StreamView::new(Rect::new(0, 0, 80, 24));
        for b in input {
            p.feed(&[*b], &mut v);
        }
        assert_eq!(v.styled_lines(), before_end);
        p.finish(&mut v);
        assert_eq!(v.styled_lines(), whole_v.styled_lines());
    }
}

#[test]
fn text_without_tags_may_be_cut_anywhere() {
    assert_cut_anywhere("# T\n\nsome **bold**, *slanted* and `code` \u{1b}[31m\n**open\n* item\n");
    assert_cut_anywhere("say:\n```rust\nfn main() { let s = \"x\"; } // end\n```\n| a | b |\n|---|---|\n| 1 | 2 |\nlast `");
    assert_cut_anywhere("\u{ff5c}DSML\u{ff5c} write \u{6f22}\n**\u{e9}**");
}

#[test]
fn thinking_may_be_cut_anywhere() {
    assert_cut_anywhere("<think>pondering **hard** < a\n`</think>`</think>\n\nan **answer** <thin");
    assert_cut_anywhere("a <b> c</think>d<think>e");
    assert_cut_anywhere("<read>\n<path>src/main.rs</path>\n</read>\nafter\n");
}

#[test]
fn calls_that_write_no_file_may_be_cut_anywhere() {
    assert_cut_anywhere(&format!("<think>hm, to write</think>\nso:\n\n{REAL_DSML_READ}now I write **this**\n"));
    assert_cut_anywhere(&REAL_DSML_READ[..REAL_DSML_READ.len() / 2]);
    assert_cut_anywhere(
        "ok\n<tool_call>\n<function=bash>\n<parameter=command>\nls -l\n</parameter>\n</function>\n</tool_call>\n\
         <tool_call>\n<function=search>\n<parameter=query>\na <b\n</parameter>\n</function>\n</tool_call>\nend <tool",
    );
}

#[test]
fn two_streams_with_an_end_between_may_be_cut_anywhere() {
    let first = "<think>one\n".as_bytes();
    let second = "two **three**\n".as_bytes();
    let mut whole_p = Pipeline::new(opts());
    let mut whole_v = StreamView::new(Rect::new(0, 0, 80, 24));
    whole_p.feed(first, &mut whole_v);
    whole_p.finish(&mut whole_v);
    whole_p.feed(second, &mut whole_v);
    whole_p.finish(&mut whole_v);
    for cut in 0..=first.len() {
        for next in 0..=second.len() {
            let mut p = Pipeline::new(opts());
            let mut v = StreamView::new(Rect::new(0, 0, 80, 24));
            p.feed(&first[..cut], &mut v);
            p.feed(&first[cut..], &mut v);
            p.finish(&mut v);
            p.feed(&second[..next], &mut v);
            p.feed(&second[next..], &mut v);
            p.finish(&mut v);
            assert_eq!(v.styled_lines(), whole_v.styled_lines(), "{cut} {next}");
        }
    }
}
