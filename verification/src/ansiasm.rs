//! Line assembly with state, over an ANSI parser that keeps none.

use vstd::prelude::*;
use vstd::slice::slice_subrange;
use vstd::string::StringExecFns;

use crate::screen::{Attr, Cell, TvColor};
use crate::text::{decimal_text, decode_lossy};

verus! {

/// The position of a named colour in ANSI's 256-colour palette, whose order
/// differs from the CGA one. True colour has none and is given zero.
pub open spec fn ansi256_index(color: TvColor) -> u8 {
    match color {
        TvColor::Black => 0,
        TvColor::Red => 1,
        TvColor::Green => 2,
        TvColor::Brown => 3,
        TvColor::Blue => 4,
        TvColor::Magenta => 5,
        TvColor::Cyan => 6,
        TvColor::LightGray => 7,
        TvColor::DarkGray => 8,
        TvColor::LightRed => 9,
        TvColor::LightGreen => 10,
        TvColor::Yellow => 11,
        TvColor::LightBlue => 12,
        TvColor::LightMagenta => 13,
        TvColor::LightCyan => 14,
        TvColor::White => 15,
        TvColor::Rgb { .. } => 0,
    }
}

/// The SGR sequence that selects a colour: 38 selects the foreground, 48 the
/// background.
pub open spec fn sgr_color(kind: u8, color: TvColor) -> Seq<char> {
    match color {
        TvColor::Rgb { r, g, b } => "\x1b["@ + crate::text::decimal(kind as nat) + ";2;"@
            + crate::text::decimal(r as nat) + ";"@ + crate::text::decimal(g as nat) + ";"@
            + crate::text::decimal(b as nat) + "m"@,
        _ => "\x1b["@ + crate::text::decimal(kind as nat) + ";5;"@ + crate::text::decimal(
            ansi256_index(color) as nat,
        ) + "m"@,
    }
}

/// The SGR sequence that reproduces an attribute from a fresh parser state.
pub open spec fn sgr(attr: Attr) -> Seq<char> {
    sgr_color(38, attr.fg) + sgr_color(48, attr.bg)
}

/// `s` without its carriage returns.
pub open spec fn without_cr(s: Seq<char>) -> Seq<char>
    decreases s.len(),
{
    if s.len() == 0 {
        s
    } else if s.last() == '\r' {
        without_cr(s.drop_last())
    } else {
        without_cr(s.drop_last()).push(s.last())
    }
}

/// Text without carriage returns loses nothing.
pub proof fn lemma_without_cr(s: Seq<char>)
    requires
        !s.contains('\r'),
    ensures
        without_cr(s) == s,
    decreases s.len(),
{
    if s.len() > 0 {
        assert(s.last() == s[s.len() - 1]);
        assert forall|i: int| 0 <= i < s.len() - 1 implies s.drop_last()[i] != '\r' by {
            assert(s[i] != '\r');
        }
        lemma_without_cr(s.drop_last());
        assert(s.drop_last().push(s.last()) =~= s);
    }
}

/// A character and the palette positions of its two colours.
pub type Glyph = (char, u8, u8);

/// What `AnsiParser` makes of a line of text with escape sequences.
pub uninterp spec fn parsed_ansi(text: Seq<char>) -> Seq<Glyph>;

pub open spec fn glyph(c: char, attr: Attr) -> Glyph {
    (c, attr.fg.cga_index(), attr.bg.cga_index())
}

/// Text in several attributes one after the other, each selected in front of
/// its part.
pub open spec fn marked_up(runs: Seq<(Attr, Seq<char>)>) -> Seq<char>
    decreases runs.len(),
{
    if runs.len() == 0 {
        Seq::empty()
    } else {
        marked_up(runs.drop_last()) + sgr(runs.last().0) + runs.last().1
    }
}

/// The glyphs of text in several attributes: each character in the attribute
/// of its part, carriage returns left out.
pub open spec fn run_glyphs(runs: Seq<(Attr, Seq<char>)>) -> Seq<Glyph>
    decreases runs.len(),
{
    if runs.len() == 0 {
        Seq::empty()
    } else {
        run_glyphs(runs.drop_last()) + without_cr(runs.last().1).map_values(
            |c: char| glyph(c, runs.last().0),
        )
    }
}

/// The cells of text in several attributes.
pub open spec fn run_cells(runs: Seq<(Attr, Seq<char>)>) -> Seq<Cell>
    decreases runs.len(),
{
    if runs.len() == 0 {
        Seq::empty()
    } else {
        run_cells(runs.drop_last()) + crate::screen::styled(
            without_cr(runs.last().1),
            runs.last().0,
        )
    }
}

/// Attributes of named colours, each with text without escapes.
pub open spec fn are_runs(runs: Seq<(Attr, Seq<char>)>) -> bool {
    forall|i: int|
        0 <= i < runs.len() ==> (#[trigger] runs[i]).0.is_named() && !runs[i].1.contains('\x1b')
}

/// The parser reads `text` as the parts it is made of, if it is made of parts
/// in attributes of named colours.
pub open spec fn parses_in_runs(text: Seq<char>) -> bool {
    forall|runs: Seq<(Attr, Seq<char>)>|
        are_runs(runs) && text == #[trigger] marked_up(runs) ==> parsed_ansi(text) == run_glyphs(
            runs,
        )
}

/// `AnsiParser::parse_line` on a parser with default colours, each cell given
/// as its character and the palette positions of its colours: a function of
/// the text alone. No cell holds an escape or a carriage return. Every colour
/// is a named one, because true colour is brought down to the nearest named
/// colour, so its position says which. After the sequence that selects an
/// attribute of named colours, text without escapes comes out as it is in
/// that attribute, carriage returns left out, until the next such sequence.
#[verifier::external_body]
fn parse_ansi(text: &str) -> (r: Vec<Glyph>)
    ensures
        r@ == parsed_ansi(text@),
        forall|i: int|
            0 <= i < r@.len() ==> (#[trigger] r@[i]).0 != '\x1b' && r@[i].0 != '\r' && r@[i].1 < 16
                && r@[i].2 < 16,
        forall|attr: Attr, plain: Seq<char>|
            attr.is_named() && !plain.contains('\x1b') && text@ == #[trigger] (sgr(attr) + plain)
                ==> r@ == without_cr(plain).map_values(|c: char| glyph(c, attr)),
        forall|runs: Seq<(Attr, Seq<char>)>|
            are_runs(runs) && text@ == #[trigger] marked_up(runs) ==> r@ == run_glyphs(runs),
{
    let cells = turbo_vision::core::ansi::AnsiParser::new().parse_line(text);
    cells.iter().map(|c| (c.ch, c.attr.fg.to_index(), c.attr.bg.to_index())).collect()
}

pub open spec fn glyph_cell(g: Glyph) -> Cell {
    Cell {
        ch: g.0,
        attr: Attr { fg: TvColor::named(g.1), bg: TvColor::named(g.2) },
    }
}

pub open spec fn glyph_cells(glyphs: Seq<Glyph>) -> Seq<Cell> {
    glyphs.map_values(|g: Glyph| glyph_cell(g))
}

/// The cells for a run of parsed characters.
pub fn cells_from(glyphs: &[Glyph]) -> (r: Vec<Cell>)
    ensures
        r@ == glyph_cells(glyphs@),
        r@.len() == glyphs@.len(),
        forall|i: int|
            0 <= i < r@.len() ==> {
                &&& (#[trigger] r@[i]).ch == glyphs@[i].0
                &&& r@[i].attr.fg !is Rgb && r@[i].attr.fg.cga_index() == glyphs@[i].1 % 16
                &&& r@[i].attr.bg !is Rgb && r@[i].attr.bg.cga_index() == glyphs@[i].2 % 16
            },
{
    let mut out: Vec<Cell> = Vec::new();
    let mut i: usize = 0;
    while i < glyphs.len()
        invariant
            i <= glyphs@.len(),
            out@ == glyph_cells(glyphs@).take(i as int),
        decreases glyphs@.len() - i,
    {
        let (ch, fg, bg) = glyphs[i];
        out.push(Cell::new(ch, Attr::new(TvColor::from_index(fg), TvColor::from_index(bg))));
        i += 1;
        assert(out@ =~= glyph_cells(glyphs@).take(i as int));
    }
    assert(out@ =~= glyph_cells(glyphs@));
    proof {
        lemma_each_cell_is_its_own_glyph(glyphs@);
    }
    out
}

/// Every cell of a line is the glyph the parser found at its place and no
/// other: it has that glyph's character and the two named colours at that
/// glyph's places of the palette.
pub proof fn lemma_each_cell_is_its_own_glyph(glyphs: Seq<Glyph>)
    ensures
        glyph_cells(glyphs).len() == glyphs.len(),
        forall|i: int|
            0 <= i < glyphs.len() ==> {
                let cell = #[trigger] glyph_cells(glyphs)[i];
                &&& cell.ch == glyphs[i].0
                &&& cell.attr.fg !is Rgb && cell.attr.fg.cga_index() == glyphs[i].1 % 16
                &&& cell.attr.bg !is Rgb && cell.attr.bg.cga_index() == glyphs[i].2 % 16
            },
{
    assert forall|i: int| 0 <= i < glyphs.len() implies {
        let cell = #[trigger] glyph_cells(glyphs)[i];
        &&& cell.ch == glyphs[i].0
        &&& cell.attr.fg !is Rgb && cell.attr.fg.cga_index() == glyphs[i].1 % 16
        &&& cell.attr.bg !is Rgb && cell.attr.bg.cga_index() == glyphs[i].2 % 16
    } by {
        crate::screen::lemma_color_at_a_place(glyphs[i].1);
        crate::screen::lemma_color_at_a_place(glyphs[i].2);
    }
}

proof fn lemma_run_cells(runs: Seq<(Attr, Seq<char>)>)
    requires
        are_runs(runs),
    ensures
        glyph_cells(run_glyphs(runs)) == run_cells(runs),
    decreases runs.len(),
{
    if runs.len() == 0 {
        assert(glyph_cells(run_glyphs(runs)) =~= run_cells(runs));
    } else {
        let init = runs.drop_last();
        assert forall|i: int| 0 <= i < init.len() implies (#[trigger] init[i]).0.is_named()
            && !init[i].1.contains('\x1b') by {
            assert(init[i] == runs[i]);
        }
        lemma_run_cells(init);
        assert(runs[runs.len() - 1].0.is_named());
        let last = without_cr(runs.last().1);
        lemma_plain_cells(last, runs.last().0);
        let glyphs = last.map_values(|c: char| glyph(c, runs.last().0));
        assert(glyph_cells(run_glyphs(init) + glyphs) =~= glyph_cells(run_glyphs(init))
            + glyph_cells(glyphs));
    }
}

proof fn lemma_runs_joined(a: Seq<(Attr, Seq<char>)>, b: Seq<(Attr, Seq<char>)>)
    ensures
        marked_up(a + b) == marked_up(a) + marked_up(b),
        run_cells(a + b) == run_cells(a) + run_cells(b),
    decreases b.len(),
{
    if b.len() == 0 {
        assert(a + b =~= a);
        assert(marked_up(a) + marked_up(b) =~= marked_up(a));
        assert(run_cells(a) + run_cells(b) =~= run_cells(a));
    } else {
        lemma_runs_joined(a, b.drop_last());
        assert((a + b).drop_last() =~= a + b.drop_last());
        assert((a + b).last() == b.last());
        assert(marked_up(a + b) =~= marked_up(a) + marked_up(b));
        assert(run_cells(a + b) =~= run_cells(a) + run_cells(b));
    }
}

proof fn lemma_one_run(attr: Attr, text: Seq<char>)
    ensures
        marked_up(seq![(attr, text)]) == sgr(attr) + text,
        run_cells(seq![(attr, text)]) == crate::screen::styled(without_cr(text), attr),
{
    let runs = seq![(attr, text)];
    assert(runs.drop_last() =~= Seq::<(Attr, Seq<char>)>::empty());
    assert(marked_up(runs.drop_last()) == Seq::<char>::empty());
    assert(run_cells(runs.drop_last()) == Seq::<Cell>::empty());
    assert(marked_up(runs) =~= sgr(attr) + text);
    assert(run_cells(runs) =~= crate::screen::styled(without_cr(text), attr));
}

/// A line keeps its colours where they are: text in the attribute in force,
/// then text in others, each behind the sequence that selects it, comes out as
/// the first in the attribute in force and each of the others in its own.
pub proof fn lemma_colors_within_a_line(
    carry: Attr,
    first: Seq<char>,
    runs: Seq<(Attr, Seq<char>)>,
)
    requires
        carry.is_named(),
        !first.contains('\x1b'),
        are_runs(runs),
        parses_in_runs(sgr(carry) + (first + marked_up(runs))),
    ensures
        ansi_line(carry, first + marked_up(runs)) == crate::screen::styled(
            without_cr(first),
            carry,
        ) + run_cells(runs),
{
    let head = seq![(carry, first)];
    let all = head + runs;
    lemma_one_run(carry, first);
    lemma_runs_joined(head, runs);
    assert forall|i: int| 0 <= i < all.len() implies (#[trigger] all[i]).0.is_named()
        && !all[i].1.contains('\x1b') by {
        if i > 0 {
            assert(all[i] == runs[i - 1]);
        }
    }
    assert(sgr(carry) + first + marked_up(runs) =~= sgr(carry) + (first + marked_up(runs)));
    assert(sgr(carry) + (first + marked_up(runs)) == marked_up(all));
    lemma_run_cells(all);
}

/// The attribute in force behind text in several attributes: that of the last
/// part.
pub open spec fn end_of_runs(carry: Attr, runs: Seq<(Attr, Seq<char>)>) -> Attr {
    if runs.len() == 0 {
        carry
    } else {
        runs.last().0
    }
}

/// The next line starts in the attribute the last part of this one was in.
proof fn lemma_end_of_runs(carry: Attr, first: Seq<char>, runs: Seq<(Attr, Seq<char>)>)
    requires
        carry.is_named(),
        !first.contains('\x1b'),
        are_runs(runs),
        parses_in_runs(sgr(carry) + ((first + marked_up(runs)).push('X'))),
    ensures
        last_attr(ansi_line(carry, (first + marked_up(runs)).push('X')), carry) == end_of_runs(
            carry,
            runs,
        ),
{
    let text = (first + marked_up(runs)).push('X');
    if runs.len() == 0 {
        let longer = first.push('X');
        assert(text =~= longer + marked_up(runs));
        assert(!longer.contains('\x1b')) by {
            assert forall|i: int| 0 <= i < longer.len() implies longer[i] != '\x1b' by {
                if i < first.len() {
                    assert(first[i] == longer[i]);
                }
            }
        }
        lemma_colors_within_a_line(carry, longer, runs);
        assert(longer.drop_last() =~= first);
        assert(without_cr(longer) == without_cr(first).push('X'));
    } else {
        let (attr, last) = runs.last();
        let longer = last.push('X');
        let more = runs.drop_last().push((attr, longer));
        assert(more.drop_last() =~= runs.drop_last());
        assert(text =~= first + marked_up(more));
        assert(runs[runs.len() - 1] == (attr, last));
        assert(!longer.contains('\x1b')) by {
            assert forall|i: int| 0 <= i < longer.len() implies longer[i] != '\x1b' by {
                if i < last.len() {
                    assert(last[i] == longer[i]);
                }
            }
        }
        assert forall|i: int| 0 <= i < more.len() implies (#[trigger] more[i]).0.is_named()
            && !more[i].1.contains('\x1b') by {
            if i < runs.len() - 1 {
                assert(more[i] == runs[i]);
            }
        }
        lemma_colors_within_a_line(carry, first, more);
        assert(longer.drop_last() =~= last);
        assert(without_cr(longer) == without_cr(last).push('X'));
        let cells = crate::screen::styled(without_cr(longer), attr);
        assert(cells.last().attr == attr);
        assert(ansi_line(carry, text).last() == cells.last());
    }
}

/// Text in several attributes can be shown in full: no escape sequence at its
/// end is cut.
proof fn lemma_marked_up_can_be_shown(first: Seq<char>, runs: Seq<(Attr, Seq<char>)>)
    requires
        !first.contains('\x1b'),
        are_runs(runs),
    ensures
        ({
            let bytes = vstd::utf8::encode_utf8(first + marked_up(runs));
            &&& usable_len(bytes) == bytes.len()
            &&& vstd::utf8::valid_utf8(bytes)
            &&& vstd::utf8::decode_utf8(bytes) == first + marked_up(runs)
        }),
{
    let text = first + marked_up(runs);
    let bytes = vstd::utf8::encode_utf8(text);
    vstd::utf8::encode_utf8_valid_utf8(text);
    vstd::utf8::encode_utf8_decode_utf8(text);
    if runs.len() == 0 {
        assert(text =~= first);
        crate::text::lemma_ascii_not_encoded(first, 0x1b);
        bytes.index_of_last_ensures(0x1b);
    } else {
        let (attr, last) = runs.last();
        assert(runs[runs.len() - 1] == (attr, last));
        let before = first + marked_up(runs.drop_last()) + sgr_color(38, attr.fg);
        let escape = sgr_color(48, attr.bg);
        assert(text =~= before + escape + last);
        crate::text::lemma_encoded_apart(before + escape, last);
        crate::text::lemma_encoded_apart(before, escape);
        crate::text::lemma_ascii_not_encoded(last, 0x1b);
        lemma_selecting_bytes(attr.bg);
        let e = vstd::utf8::encode_utf8(escape);
        lemma_whole_escape_is_shown(
            vstd::utf8::encode_utf8(before),
            e,
            vstd::utf8::encode_utf8(last),
            e.len() - 1,
        );
    }
}

proof fn lemma_selecting_bytes(color: TvColor)
    requires
        color.is_named(),
    ensures
        ({
            let e = vstd::utf8::encode_utf8(sgr_color(48, color));
            &&& e.len() > 2
            &&& e[0] == 0x1b
            &&& e[1] == 0x5b
            &&& e.last() == 0x6d
            &&& forall|i: int| 1 <= i < e.len() ==> e[i] != 0x1b
        }),
{
    reveal_strlit("\x1b[");
    reveal_strlit(";5;");
    reveal_strlit("m");
    let text = sgr_color(48, color);
    let n = ansi256_index(color) as nat;
    crate::text::lemma_decimal_digits(48);
    crate::text::lemma_decimal_digits(n);
    let d = crate::text::decimal(48);
    let k = crate::text::decimal(n);
    assert forall|i: int| 0 <= i < text.len() implies (#[trigger] text[i]) as int <= 0x7f && (i >= 1
        ==> text[i] != '\x1b') by {
        if 2 <= i < 2 + d.len() {
            assert(text[i] == d[i - 2]);
        } else if 5 + d.len() <= i < text.len() - 1 {
            assert(text[i] == k[i - 5 - d.len()]);
        }
    }
    assert(vstd::utf8::is_ascii_chars(text));
    vstd::utf8::is_ascii_chars_encode_utf8(text);
    let e = vstd::utf8::encode_utf8(text);
    assert(text.last() == 'm');
    assert forall|i: int| 1 <= i < e.len() implies e[i] != 0x1b by {
        assert(e[i] == text[i] as u8);
    }
    assert(e[0] == text[0] as u8 && e[1] == text[1] as u8);
    assert(e[e.len() - 1] == text[text.len() - 1] as u8);
}

/// Two colours on a line: text in the attribute in force, the sequence that
/// selects another, and more text, come out as the two texts one after the
/// other, each in its own colours.
pub proof fn lemma_two_colors_on_a_line(
    carry: Attr,
    first: Seq<char>,
    attr: Attr,
    second: Seq<char>,
)
    requires
        carry.is_named(),
        attr.is_named(),
        !first.contains('\x1b'),
        !second.contains('\x1b'),
        !first.contains('\r'),
        !second.contains('\r'),
        parses_in_runs(sgr(carry) + (first + (sgr(attr) + second))),
    ensures
        ({
            let cells = ansi_line(carry, first + (sgr(attr) + second));
            &&& cells.len() == first.len() + second.len()
            &&& forall|i: int|
                0 <= i < cells.len() ==> (#[trigger] cells[i]).ch == (first + second)[i]
                    && cells[i].attr == if i < first.len() {
                    carry
                } else {
                    attr
                }
            &&& cells == crate::screen::styled(first, carry) + crate::screen::styled(second, attr)
        }),
{
    let runs = seq![(attr, second)];
    lemma_one_run(attr, second);
    lemma_colors_within_a_line(carry, first, runs);
    lemma_without_cr(first);
    lemma_without_cr(second);
}

/// Text without escapes comes out as it is, in the attribute selected in
/// front of it.
proof fn lemma_plain_cells(plain: Seq<char>, attr: Attr)
    requires
        attr.is_named(),
    ensures
        glyph_cells(plain.map_values(|c: char| glyph(c, attr))) == crate::screen::styled(
            plain,
            attr,
        ),
{
    crate::screen::lemma_named_color_round_trip(attr.fg);
    crate::screen::lemma_named_color_round_trip(attr.bg);
    assert(glyph_cells(plain.map_values(|c: char| glyph(c, attr))) =~= crate::screen::styled(
        plain,
        attr,
    ));
}

fn push_sgr_color(out: &mut String, kind: u8, color: TvColor)
    ensures
        final(out)@ == old(out)@ + sgr_color(kind, color),
{
    let mut s: String = String::from_str("\x1b[");
    s.append(decimal_text(kind as u64).as_str());
    match color {
        TvColor::Rgb { r, g, b } => {
            s.append(";2;");
            s.append(decimal_text(r as u64).as_str());
            s.append(";");
            s.append(decimal_text(g as u64).as_str());
            s.append(";");
            s.append(decimal_text(b as u64).as_str());
        },
        _ => {
            s.append(";5;");
            s.append(decimal_text(palette_index(color) as u64).as_str());
        },
    }
    s.append("m");
    out.append(s.as_str());
}

fn palette_index(color: TvColor) -> (r: u8)
    ensures
        r == ansi256_index(color),
{
    match color {
        TvColor::Black => 0,
        TvColor::Red => 1,
        TvColor::Green => 2,
        TvColor::Brown => 3,
        TvColor::Blue => 4,
        TvColor::Magenta => 5,
        TvColor::Cyan => 6,
        TvColor::LightGray => 7,
        TvColor::DarkGray => 8,
        TvColor::LightRed => 9,
        TvColor::LightGreen => 10,
        TvColor::Yellow => 11,
        TvColor::LightBlue => 12,
        TvColor::LightMagenta => 13,
        TvColor::LightCyan => 14,
        TvColor::White => 15,
        TvColor::Rgb { .. } => 0,
    }
}

/// The SGR sequence that reproduces `attr` from a fresh parser state.
///
/// The parser starts afresh on every line, so the attribute in force at the
/// end of one line is written out again in front of the next. Escape
/// sequences produce no cells, so the prefix is invisible.
#[must_use]
pub fn attr_to_sgr(attr: Attr) -> (r: String)
    ensures
        r@ == sgr(attr),
{
    let mut s: String = String::new();
    push_sgr_color(&mut s, 38, attr.fg);
    push_sgr_color(&mut s, 48, attr.bg);
    assert(s@ =~= sgr(attr));
    s
}

/// The cells of a line of text that starts in a given attribute.
pub open spec fn ansi_line(carry: Attr, text: Seq<char>) -> Seq<Cell> {
    glyph_cells(parsed_ansi(sgr(carry) + text))
}

/// The attribute of the last cell, or `carry` where there is none.
pub open spec fn last_attr(cells: Seq<Cell>, carry: Attr) -> Attr {
    if cells.len() > 0 {
        cells.last().attr
    } else {
        carry
    }
}

/// The attribute of the last cell, or `carry` where there is none.
pub fn trailing_attr(cells: &[Cell], carry: Attr) -> (r: Attr)
    ensures
        r == last_attr(cells@, carry),
{
    let n: usize = cells.len();
    if n > 0 {
        cells[n - 1].attr
    } else {
        carry
    }
}

/// The bytes a repaint starts with: cursor to column 0, erase to end of line.
pub open spec fn erase_line() -> Seq<u8> {
    seq![0x0du8, 0x1b, 0x5b, 0x30, 0x4b]
}

/// The final byte of a CSI sequence.
pub open spec fn is_final_byte(b: u8) -> bool {
    0x40 <= b <= 0x7e
}

/// An escape sequence that has not reached its end: `ESC` alone, or `ESC [`
/// with no final byte yet.
pub open spec fn is_cut_escape(tail: Seq<u8>) -> bool {
    &&& tail.len() > 0
    &&& tail[0] == 0x1b
    &&& tail.len() == 1 || (tail[1] == 0x5b && forall|i: int|
        2 <= i < tail.len() ==> !is_final_byte(#[trigger] tail[i]))
}

/// How much of `buf` can be shown: all of it, but for an escape sequence at
/// its end that is not complete yet.
pub open spec fn usable_len(buf: Seq<u8>) -> int {
    match buf.index_of_last(0x1b) {
        Some(esc) => if is_cut_escape(buf.skip(esc)) {
            esc
        } else {
            buf.len() as int
        },
        None => buf.len() as int,
    }
}

/// The text of an unfinished line, as far as it can be shown.
pub open spec fn usable_text(pending: Seq<u8>) -> Seq<char> {
    crate::text::utf8_lossy(pending.take(usable_len(pending)))
}

/// Valid UTF-8 without escapes.
pub open spec fn is_plain(bytes: Seq<u8>) -> bool {
    vstd::utf8::valid_utf8(bytes) && !bytes.contains(0x1b)
}

/// The cells of plain bytes in one attribute.
pub open spec fn plain_line(carry: Attr, bytes: Seq<u8>) -> Seq<Cell> {
    crate::screen::styled(without_cr(vstd::utf8::decode_utf8(bytes)), carry)
}

/// What an assembler holds.
#[verifier::ext_equal]
pub ghost struct Assembly {
    /// Bytes received since the last newline.
    pub pending: Seq<u8>,
    /// Attribute in force at the start of `pending`.
    pub carry: Attr,
    /// Complete lines cut but not yet taken.
    pub ready: Seq<Seq<Cell>>,
}

impl Assembly {
    pub open spec fn empty() -> Assembly {
        Assembly {
            pending: Seq::empty(),
            carry: crate::screen::default_attr(),
            ready: Seq::empty(),
        }
    }

    /// The line being assembled, as far as it can be shown.
    pub open spec fn line(self) -> Seq<Cell> {
        ansi_line(self.carry, usable_text(self.pending))
    }

    /// The attribute in force at the end of the line being assembled, which
    /// is that of a character put there.
    pub open spec fn end_attr(self) -> Attr {
        last_attr(ansi_line(self.carry, usable_text(self.pending).push('X')), self.carry)
    }

    /// The line being assembled is over: the next one starts in the attribute
    /// this one ends in.
    pub open spec fn ended(self) -> Assembly {
        Assembly { pending: Seq::empty(), carry: self.end_attr(), ..self }
    }

    pub open spec fn after_byte(self, b: u8) -> Assembly {
        if b == 0x0a {
            Assembly { ready: self.ready.push(self.line()), ..self.ended() }
        } else if erase_line().is_suffix_of(self.pending.push(b)) {
            Assembly { pending: Seq::empty(), ..self }
        } else {
            Assembly { pending: self.pending.push(b), ..self }
        }
    }

    /// Bytes are taken in one after the other.
    pub open spec fn fed(self, bytes: Seq<u8>) -> Assembly
        decreases bytes.len(),
    {
        if bytes.len() == 0 {
            self
        } else {
            self.fed(bytes.drop_last()).after_byte(bytes.last())
        }
    }

    /// The lines cut so far have been taken.
    pub open spec fn taken(self) -> Assembly {
        Assembly { ready: Seq::empty(), ..self }
    }

    /// What plain bytes do: lines are cut at newlines, in the one attribute
    /// in force throughout.
    pub open spec fn fed_plain(self, bytes: Seq<u8>) -> Assembly
        decreases bytes.len(),
    {
        if bytes.len() == 0 {
            self
        } else {
            let s = self.fed_plain(bytes.drop_last());
            if bytes.last() == 0x0a {
                Assembly {
                    pending: Seq::empty(),
                    ready: s.ready.push(plain_line(s.carry, s.pending)),
                    ..s
                }
            } else {
                Assembly { pending: s.pending.push(bytes.last()), ..s }
            }
        }
    }

    /// Every line that `bytes` completes is plain.
    pub open spec fn cuts_plain_lines(self, bytes: Seq<u8>) -> bool
        decreases bytes.len(),
    {
        bytes.len() == 0 || (self.cuts_plain_lines(bytes.drop_last()) && bytes.last() != 0x1b && (
        bytes.last() == 0x0a ==> vstd::utf8::valid_utf8(
            self.fed_plain(bytes.drop_last()).pending,
        )))
    }
}

/// Where the part of `buf` that can be shown ends.
fn complete_len(buf: &[u8]) -> (r: usize)
    ensures
        r == usable_len(buf@),
        r <= buf@.len(),
{
    proof {
        buf@.index_of_last_ensures(0x1b);
    }
    let n: usize = buf.len();
    let mut esc: usize = n;
    while esc > 0 && buf[esc - 1] != 0x1b
        invariant
            esc <= n == buf@.len(),
            forall|j: int| esc <= j < n ==> buf@[j] != 0x1b,
        decreases esc,
    {
        esc -= 1;
    }
    if esc == 0 {
        return n;
    }
    esc -= 1;
    let ghost tail = buf@.skip(esc as int);
    assert(buf@.index_of_last(0x1b) == Some(esc as int));
    if n - esc == 1 {
        return esc;
    }
    if buf[esc + 1] != 0x5b {
        assert(tail[1] == buf@[esc + 1]);
        return n;
    }
    let mut i: usize = esc + 2;
    while i < n
        invariant
            esc + 2 <= i <= n,
            n == buf@.len(),
            tail == buf@.skip(esc as int),
            forall|j: int| 2 <= j < i - esc ==> !is_final_byte(#[trigger] tail[j]),
            buf@.index_of_last(0x1b) == Some(esc as int),
        decreases n - i,
    {
        if 0x40 <= buf[i] && buf[i] <= 0x7e {
            assert(is_final_byte(tail[i - esc]));
            return n;
        }
        i += 1;
    }
    esc
}

/// Bytes with no end of a line and no carriage return among them.
spec fn is_unbroken(bytes: Seq<u8>) -> bool {
    !bytes.contains(0x0a) && !bytes.contains(0x0d)
}

/// `line` has become a completed line, each of its parts in its own colours.
spec fn shows_runs(start: Assembly, line: Seq<u8>, after: Assembly) -> bool {
    forall|first: Seq<char>, runs: Seq<(Attr, Seq<char>)>|
        !first.contains('\x1b') && are_runs(runs) && line == vstd::utf8::encode_utf8(
            #[trigger] (first + marked_up(runs)),
        ) ==> after == (Assembly {
            pending: Seq::empty(),
            carry: end_of_runs(start.carry, runs),
            ready: start.ready.push(
                crate::screen::styled(without_cr(first), start.carry) + run_cells(runs),
            ),
        })
}

/// Feeds a byte stream into the ANSI parser one line at a time, carrying
/// attribute state across line breaks and holding back incomplete input.
///
/// Deliberate limits: a cell carries only a foreground and a background, so
/// bold becomes a brighter foreground and italic is dropped. The repaint
/// marker (cursor to column 0, erase to end of line) is taken as one wherever
/// its bytes appear, and discards what stands before it on the line.
#[derive(Debug)]
pub struct AnsiLineAssembler {
    pending: Vec<u8>,
    carry: Attr,
    ready: Vec<Vec<Cell>>,
}

impl View for AnsiLineAssembler {
    type V = Assembly;

    closed spec fn view(&self) -> Assembly {
        Assembly {
            pending: self.pending@,
            carry: self.carry,
            ready: crate::streamview::line_views(self.ready@),
        }
    }
}

impl AnsiLineAssembler {
    /// The attribute carried over is made of named colours.
    pub open spec fn wf(&self) -> bool {
        self@.carry.is_named()
    }

    #[must_use]
    pub fn new() -> (r: AnsiLineAssembler)
        ensures
            r.wf(),
            r@ == Assembly::empty(),
    {
        let r = AnsiLineAssembler {
            pending: Vec::new(),
            carry: Attr::new(TvColor::LightGray, TvColor::Black),
            ready: Vec::new(),
        };
        assert(r@ =~= Assembly::empty());
        r
    }

    /// The line being assembled, parsed with the carried attribute in front
    /// and `end` behind.
    fn parse_pending(&self, end: &str) -> (r: Vec<Cell>)
        requires
            self.wf(),
            !end@.contains('\x1b'),
        ensures
            r@ == ansi_line(self@.carry, usable_text(self@.pending) + end@),
            forall|i: int| 0 <= i < r@.len() ==> (#[trigger] r@[i]).attr.is_named(),
            is_plain(self@.pending) ==> r@ == crate::screen::styled(
                without_cr(vstd::utf8::decode_utf8(self@.pending) + end@),
                self@.carry,
            ),
            parses_in_runs(sgr(self@.carry) + (usable_text(self@.pending) + end@)),
            vstd::utf8::valid_utf8(self@.pending) && usable_len(self@.pending)
                == self@.pending.len() ==> usable_text(self@.pending) == vstd::utf8::decode_utf8(
                self@.pending,
            ),
    {
        let n: usize = complete_len(self.pending.as_slice());
        let usable = slice_subrange(self.pending.as_slice(), 0, n);
        assert(usable@ =~= self.pending@.take(n as int));
        let text = decode_lossy(usable);
        let mut whole: String = attr_to_sgr(self.carry);
        whole.append(text.as_str());
        whole.append(end);
        assert(whole@ =~= sgr(self.carry) + (text@ + end@));
        let glyphs = parse_ansi(whole.as_str());
        let cells = cells_from(glyphs.as_slice());
        proof {
            if n == self.pending.len() {
                assert(usable@ =~= self.pending@);
            }
            assert forall|i: int| 0 <= i < cells@.len() implies (
            #[trigger] cells@[i]).attr.is_named() by {
                assert(cells@[i] == glyph_cell(glyphs@[i]));
            }
            if is_plain(self@.pending) {
                self.pending@.index_of_last_ensures(0x1b);
                assert(usable@ =~= self.pending@);
                crate::text::lemma_ascii_absent(self.pending@, 0x1b);
                let plain = text@ + end@;
                assert(text@ == vstd::utf8::decode_utf8(self.pending@));
                assert forall|i: int| 0 <= i < plain.len() implies plain[i] != '\x1b' by {
                    if i >= text@.len() {
                        assert(end@[i - text@.len()] == plain[i]);
                    } else {
                        assert(text@[i] == plain[i]);
                    }
                }
                assert(!plain.contains('\x1b'));
                lemma_plain_cells(without_cr(plain), self.carry);
            }
        }
        cells
    }

    /// The line being assembled, as far as it has arrived. An escape sequence
    /// at its end that is not complete yet is withheld.
    #[must_use]
    pub fn partial_line(&self) -> (r: Vec<Cell>)
        requires
            self.wf(),
        ensures
            r@ == self@.line(),
            is_plain(self@.pending) ==> r@ == plain_line(self@.carry, self@.pending),
            parses_in_runs(sgr(self@.carry) + usable_text(self@.pending)),
            forall|first: Seq<char>, runs: Seq<(Attr, Seq<char>)>|
                !first.contains('\x1b') && are_runs(runs) && self@.pending
                    == vstd::utf8::encode_utf8(#[trigger] (first + marked_up(runs))) ==> r@
                    == crate::screen::styled(without_cr(first), self@.carry) + run_cells(runs),
    {
        proof {
            reveal_strlit("");
        }
        let r = self.parse_pending("");
        proof {
            assert(usable_text(self@.pending) + ""@ =~= usable_text(self@.pending));
            let text = vstd::utf8::decode_utf8(self@.pending);
            assert(text + ""@ =~= text);
            assert forall|first: Seq<char>, runs: Seq<(Attr, Seq<char>)>|
                !first.contains('\x1b') && are_runs(runs) && self@.pending
                    == vstd::utf8::encode_utf8(#[trigger] (first + marked_up(runs))) implies r@
                == crate::screen::styled(without_cr(first), self@.carry) + run_cells(runs) by {
                lemma_marked_up_can_be_shown(first, runs);
                lemma_colors_within_a_line(self@.carry, first, runs);
            }
        }
        r
    }

    /// Ends the line being assembled, and returns it.
    fn end_line(&mut self) -> (r: Vec<Cell>)
        requires
            old(self).wf(),
        ensures
            final(self).wf(),
            final(self)@ == old(self)@.ended(),
            r@ == old(self)@.line(),
            is_plain(old(self)@.pending) ==> r@ == plain_line(
                old(self)@.carry,
                old(self)@.pending,
            ) && final(self)@.carry == old(self)@.carry,
            forall|first: Seq<char>, runs: Seq<(Attr, Seq<char>)>|
                !first.contains('\x1b') && are_runs(runs) && old(self)@.pending
                    == vstd::utf8::encode_utf8(#[trigger] (first + marked_up(runs))) ==> r@
                    == crate::screen::styled(without_cr(first), old(self)@.carry) + run_cells(runs),
            forall|first: Seq<char>, runs: Seq<(Attr, Seq<char>)>|
                !first.contains('\x1b') && are_runs(runs) && old(self)@.pending
                    == vstd::utf8::encode_utf8(#[trigger] (first + marked_up(runs)))
                    ==> final(self)@.carry == end_of_runs(old(self)@.carry, runs),
    {
        let line = self.partial_line();
        proof {
            reveal_strlit("X");
        }
        let probe = self.parse_pending("X");
        let carry = trailing_attr(probe.as_slice(), self.carry);
        proof {
            let text = usable_text(self@.pending);
            assert(text + "X"@ =~= text.push('X'));
            let plain = vstd::utf8::decode_utf8(self@.pending);
            assert(plain + "X"@ =~= plain.push('X'));
            assert(plain.push('X').drop_last() =~= plain);
            assert(without_cr(plain.push('X')) == without_cr(plain).push('X'));
            assert forall|first: Seq<char>, runs: Seq<(Attr, Seq<char>)>|
                !first.contains('\x1b') && are_runs(runs) && self@.pending
                    == vstd::utf8::encode_utf8(#[trigger] (first + marked_up(runs))) implies carry
                == end_of_runs(self@.carry, runs) by {
                lemma_marked_up_can_be_shown(first, runs);
                lemma_end_of_runs(self@.carry, first, runs);
            }
        }
        self.carry = carry;
        self.pending.clear();
        assert(self@ =~= old(self)@.ended());
        line
    }

    /// Accepts more stream bytes, cutting any complete lines.
    ///
    /// Plain text comes out as it is, line by line, in the attribute in force.
    pub fn push(&mut self, bytes: &[u8])
        requires
            old(self).wf(),
        ensures
            final(self).wf(),
            final(self)@ == old(self)@.fed(bytes@),
            !old(self)@.pending.contains(0x1b) && old(self)@.cuts_plain_lines(bytes@)
                ==> final(self)@ == old(self)@.fed_plain(bytes@),
            forall|first: Seq<char>, runs: Seq<(Attr, Seq<char>)>|
                !first.contains('\x1b') && are_runs(runs) && old(self)@.pending.len() == 0 && !(
                first + marked_up(runs)).contains('\n') && !(first + marked_up(runs)).contains(
                    '\r',
                ) && bytes@ == vstd::utf8::encode_utf8(
                    #[trigger] (first + marked_up(runs)),
                ).push(0x0a) ==> final(self)@ == (Assembly {
                    pending: Seq::empty(),
                    carry: end_of_runs(old(self)@.carry, runs),
                    ready: old(self)@.ready.push(
                        crate::screen::styled(without_cr(first), old(self)@.carry) + run_cells(
                            runs,
                        ),
                    ),
                }),
    {
        let ghost start = self@;
        let mut i: usize = 0;
        assert(bytes@.take(0) =~= Seq::<u8>::empty());
        while i < bytes.len()
            invariant
                i <= bytes@.len(),
                start == old(self)@,
                self.wf(),
                self@ == start.fed(bytes@.take(i as int)),
                !start.pending.contains(0x1b) && start.cuts_plain_lines(bytes@.take(i as int))
                    ==> self@ == start.fed_plain(bytes@.take(i as int))
                    && !self@.pending.contains(0x1b),
                start.pending.len() == 0 && is_unbroken(bytes@.take(i as int)) ==> self@ == (
                Assembly { pending: bytes@.take(i as int), ..start }),
                start.pending.len() == 0 && i > 0 && bytes@[i - 1] == 0x0a && is_unbroken(
                    bytes@.take(i - 1),
                ) ==> shows_runs(start, bytes@.take(i - 1), self@),
            decreases bytes@.len() - i,
        {
            let b: u8 = bytes[i];
            let ghost before = self@;
            let ghost done = bytes@.take(i as int);
            let ghost next = bytes@.take(i + 1);
            assert(next.drop_last() =~= done);
            assert(next.last() == b);
            if b == 0x0a {
                let line = self.end_line();
                let ghost lines = self.ready@;
                self.ready.push(line);
                assert(crate::streamview::line_views(self.ready@)
                    =~= crate::streamview::line_views(lines).push(line@));
            } else {
                self.pending.push(b);
                if self.at_erase() {
                    self.pending.clear();
                }
            }
            assert(self@ =~= before.after_byte(b));
            proof {
                assert(next =~= done.push(b));
                if start.pending.len() == 0 && is_unbroken(next) {
                    assert(next[i as int] == b);
                    assert forall|j: int| 0 <= j < done.len() implies done[j] != 0x0a && done[j]
                        != 0x0d by {
                        assert(next[j] == done[j]);
                    }
                    if erase_line().is_suffix_of(next) {
                        assert(next.subrange(next.len() - 5, next.len() as int)[0] == 0x0d);
                        assert(next[next.len() - 5] == 0x0d);
                    }
                    assert(self@ =~= (Assembly { pending: next, ..start }));
                }
                if !start.pending.contains(0x1b) && start.cuts_plain_lines(next) {
                    assert(!before.pending.contains(0x1b));
                    let grown = before.pending.push(b);
                    assert forall|j: int| 0 <= j < grown.len() implies grown[j] != 0x1b by {
                        if j < before.pending.len() {
                            assert(grown[j] == before.pending[j]);
                        }
                    }
                    if erase_line().is_suffix_of(grown) {
                        assert(grown.subrange(grown.len() - 5, grown.len() as int)[1] == 0x1b);
                        assert(grown[grown.len() - 4] == 0x1b);
                    }
                    assert(self@ =~= start.fed_plain(next));
                }
            }
            i += 1;
        }
        assert(bytes@.take(i as int) =~= bytes@);
        proof {
            assert forall|first: Seq<char>, runs: Seq<(Attr, Seq<char>)>|
                !first.contains('\x1b') && are_runs(runs) && start.pending.len() == 0 && !(first
                    + marked_up(runs)).contains('\n') && !(first + marked_up(runs)).contains(
                    '\r',
                ) && bytes@ == vstd::utf8::encode_utf8(
                    #[trigger] (first + marked_up(runs)),
                ).push(0x0a) implies self@ == (Assembly {
                pending: Seq::empty(),
                carry: end_of_runs(start.carry, runs),
                ready: start.ready.push(
                    crate::screen::styled(without_cr(first), start.carry) + run_cells(runs),
                ),
            }) by {
                let text = first + marked_up(runs);
                let line = vstd::utf8::encode_utf8(text);
                crate::text::lemma_ascii_not_encoded(text, 0x0a);
                crate::text::lemma_ascii_not_encoded(text, 0x0d);
                assert(bytes@.take(i - 1) =~= line);
                assert(bytes@[i - 1] == 0x0a);
                assert(shows_runs(start, line, self@));
            }
        }
    }

    /// Whether the line being assembled ends in a repaint marker.
    fn at_erase(&self) -> (r: bool)
        ensures
            r == erase_line().is_suffix_of(self@.pending),
    {
        let n: usize = self.pending.len();
        if n < 5 {
            return false;
        }
        let ghost tail = self.pending@.subrange(n - 5, n as int);
        let r: bool = self.pending[n - 5] == 0x0d && self.pending[n - 4] == 0x1b && self.pending[n
            - 3] == 0x5b && self.pending[n - 2] == 0x30 && self.pending[n - 1] == 0x4b;
        proof {
            assert(tail[0] == self.pending@[n - 5]);
            assert(tail[1] == self.pending@[n - 4]);
            assert(tail[2] == self.pending@[n - 3]);
            assert(tail[3] == self.pending@[n - 2]);
            assert(tail[4] == self.pending@[n - 1]);
            if r {
                assert(tail =~= erase_line());
            }
        }
        r
    }

    /// Removes and returns every line cut so far.
    pub fn take_complete_lines(&mut self) -> (r: Vec<Vec<Cell>>)
        requires
            old(self).wf(),
        ensures
            final(self).wf(),
            final(self)@ == old(self)@.taken(),
            crate::streamview::line_views(r@) == old(self)@.ready,
    {
        let mut lines: Vec<Vec<Cell>> = Vec::new();
        std::mem::swap(&mut lines, &mut self.ready);
        assert(self@ =~= old(self)@.taken());
        lines
    }

    /// Emits the line being assembled as final, if there is one. Used when a
    /// stream ends without a trailing newline.
    pub fn flush(&mut self) -> (r: Option<Vec<Cell>>)
        requires
            old(self).wf(),
        ensures
            final(self).wf(),
            match r {
                Some(line) => {
                    &&& old(self)@.pending.len() > 0
                    &&& line@ == old(self)@.line()
                    &&& final(self)@ == old(self)@.ended()
                },
                None => old(self)@.pending.len() == 0 && final(self)@ == old(self)@,
            },
            is_plain(old(self)@.pending) && r is Some ==> r->Some_0@ == plain_line(
                old(self)@.carry,
                old(self)@.pending,
            ) && final(self)@.carry == old(self)@.carry,
            forall|first: Seq<char>, runs: Seq<(Attr, Seq<char>)>|
                !first.contains('\x1b') && are_runs(runs) && r is Some && old(self)@.pending
                    == vstd::utf8::encode_utf8(#[trigger] (first + marked_up(runs)))
                    ==> r->Some_0@ == crate::screen::styled(without_cr(first), old(self)@.carry)
                    + run_cells(runs) && final(self)@.carry == end_of_runs(
                    old(self)@.carry,
                    runs,
                ),
    {
        if self.pending.len() == 0 {
            return None;
        }
        Some(self.end_line())
    }
}

impl Default for AnsiLineAssembler {
    fn default() -> (r: AnsiLineAssembler)
        ensures
            r.wf(),
            r@ == Assembly::empty(),
    {
        AnsiLineAssembler::new()
    }
}

/// How a stream is cut into pieces does not matter: pushing two pieces one
/// after the other does what pushing them in one does.
pub proof fn lemma_split_delivery(s: Assembly, a: Seq<u8>, b: Seq<u8>)
    ensures
        s.fed(a + b) == s.fed(a).fed(b),
    decreases b.len(),
{
    if b.len() == 0 {
        assert(a + b =~= a);
    } else {
        lemma_split_delivery(s, a, b.drop_last());
        assert((a + b).drop_last() =~= a + b.drop_last());
    }
}

/// Lines taken early are the ones that would have been taken late: what is
/// taken between two pushes, followed by what is taken after them, is what is
/// taken after both.
pub proof fn lemma_taking_early(s: Assembly, a: Seq<u8>, b: Seq<u8>)
    ensures
        s.fed(a).ready + s.fed(a).taken().fed(b).ready == s.fed(a + b).ready,
        s.fed(a).taken().fed(b).pending == s.fed(a + b).pending,
        s.fed(a).taken().fed(b).carry == s.fed(a + b).carry,
{
    lemma_split_delivery(s, a, b);
    lemma_ready_is_appended_to(s.fed(a), b);
}

proof fn lemma_ready_is_appended_to(s: Assembly, b: Seq<u8>)
    ensures
        s.ready + s.taken().fed(b).ready == s.fed(b).ready,
        s.taken().fed(b).pending == s.fed(b).pending,
        s.taken().fed(b).carry == s.fed(b).carry,
    decreases b.len(),
{
    if b.len() == 0 {
        assert(s.ready + s.taken().ready =~= s.ready);
    } else {
        lemma_ready_is_appended_to(s, b.drop_last());
        let early = s.taken().fed(b.drop_last());
        assert(s.ready + early.ready.push(early.line()) =~= (s.ready + early.ready).push(
            early.line(),
        ));
    }
}

/// Plain bytes complete plain lines and leave plain bytes behind, whatever
/// pieces they come in.
pub proof fn lemma_plain_bytes(s: Assembly, bytes: Seq<u8>)
    requires
        is_plain(s.pending),
        is_plain(bytes),
    ensures
        s.cuts_plain_lines(bytes),
        is_plain(s.fed_plain(bytes).pending),
{
    vstd::utf8::valid_utf8_concat(s.pending, bytes);
    let nothing = Seq::<u8>::empty();
    assert(s.pending + (bytes + nothing) =~= s.pending + bytes);
    lemma_plain_bytes_before(s, bytes, nothing);
    assert(s.fed_plain(bytes).pending + nothing =~= s.fed_plain(bytes).pending);
}

proof fn lemma_plain_bytes_before(s: Assembly, bytes: Seq<u8>, rest: Seq<u8>)
    requires
        !s.pending.contains(0x1b),
        !bytes.contains(0x1b),
        vstd::utf8::valid_utf8(s.pending + (bytes + rest)),
    ensures
        s.cuts_plain_lines(bytes),
        vstd::utf8::valid_utf8(s.fed_plain(bytes).pending + rest),
        !s.fed_plain(bytes).pending.contains(0x1b),
    decreases bytes.len(),
{
    if bytes.len() == 0 {
        assert(bytes + rest =~= rest);
    } else {
        let b = bytes.last();
        let init = bytes.drop_last();
        let later = seq![b] + rest;
        assert(b == bytes[bytes.len() - 1]);
        assert forall|i: int| 0 <= i < init.len() implies init[i] != 0x1b by {
            assert(init[i] == bytes[i]);
        }
        assert(init + later =~= bytes + rest);
        lemma_plain_bytes_before(s, init, later);
        let before = s.fed_plain(init).pending;
        let whole = before + later;
        if b == 0x0a {
            let n = before.len() as int;
            assert(whole[n] == 0x0a);
            vstd::utf8::is_char_boundary_iff_not_is_continuation_byte(whole, n);
            vstd::utf8::valid_utf8_split(whole, n);
            assert(whole.subrange(0, n) =~= before);
            assert(whole.subrange(n, whole.len() as int) =~= later);
            assert(vstd::utf8::pop_first_scalar(later) =~= rest);
            assert(s.fed_plain(bytes).pending + rest =~= rest);
        } else {
            let grown = before.push(b);
            assert(grown + rest =~= whole);
            assert forall|i: int| 0 <= i < grown.len() implies grown[i] != 0x1b by {
                if i < before.len() {
                    assert(grown[i] == before[i]);
                }
            }
        }
    }
}

/// A plain line ends where its newline arrives, and the next one starts.
pub proof fn lemma_plain_line_ends(s: Assembly, line: Seq<u8>)
    requires
        !line.contains(0x0a),
    ensures
        s.fed_plain(line.push(0x0a)) == (Assembly {
            pending: Seq::empty(),
            ready: s.ready.push(plain_line(s.carry, s.pending + line)),
            ..s
        }),
{
    lemma_gathers_without_newline(s, line);
    assert(line.push(0x0a).drop_last() =~= line);
}

/// Plain bytes do the same in one piece and in two.
pub proof fn lemma_plain_split(s: Assembly, a: Seq<u8>, b: Seq<u8>)
    ensures
        s.fed_plain(a + b) == s.fed_plain(a).fed_plain(b),
    decreases b.len(),
{
    if b.len() == 0 {
        assert(a + b =~= a);
    } else {
        lemma_plain_split(s, a, b.drop_last());
        assert((a + b).drop_last() =~= a + b.drop_last());
    }
}

/// Plain bytes without a newline gather in the unfinished line.
pub proof fn lemma_gathers_without_newline(s: Assembly, bytes: Seq<u8>)
    requires
        !bytes.contains(0x0a),
    ensures
        s.fed_plain(bytes) == (Assembly { pending: s.pending + bytes, ..s }),
    decreases bytes.len(),
{
    if bytes.len() == 0 {
        assert(s.pending + bytes =~= s.pending);
    } else {
        assert(bytes.last() == bytes[bytes.len() - 1]);
        assert forall|i: int| 0 <= i < bytes.len() - 1 implies bytes.drop_last()[i] != 0x0a by {
            assert(bytes[i] != 0x0a);
        }
        lemma_gathers_without_newline(s, bytes.drop_last());
        assert(s.pending + bytes =~= (s.pending + bytes.drop_last()).push(bytes.last()));
    }
}

/// Once a line is ended nothing is left to flush.
pub proof fn lemma_flush_is_idempotent(s: Assembly)
    ensures
        s.ended().pending.len() == 0,
{
}

/// A half-received escape sequence is never shown: the line looks as it did
/// before the sequence began.
pub proof fn lemma_cut_escape_is_withheld(s: Assembly, escape: Seq<u8>)
    requires
        is_cut_escape(escape),
        forall|i: int| 0 < i < escape.len() ==> escape[i] != 0x1b,
        usable_len(s.pending) == s.pending.len(),
    ensures
        (Assembly { pending: s.pending + escape, ..s }).line() == s.line(),
{
    let whole = s.pending + escape;
    let n = s.pending.len() as int;
    whole.index_of_last_ensures(0x1b);
    assert(whole[n] == escape[0]);
    let last = whole.index_of_last(0x1b)->Some_0;
    if last > n {
        assert(whole[last] == escape[last - n]);
    }
    assert(last == n);
    assert(whole.skip(n) =~= escape);
    assert(whole.take(n) =~= s.pending);
    assert(s.pending.take(n) =~= s.pending);
}

/// The attribute at the end of a line is the one the next line starts in, and
/// a line of escapes alone changes it all the same.
pub proof fn lemma_attribute_carries_over(s: Assembly)
    ensures
        s.after_byte(0x0a).carry == s.end_attr(),
        s.after_byte(0x0a).ready.last() == s.line(),
        s.after_byte(0x0a).pending.len() == 0,
{
}

/// A repaint marker discards the line so far.
pub proof fn lemma_repaint_discards_the_line(s: Assembly, before: Seq<u8>)
    requires
        s.pending == before + erase_line().drop_last(),
    ensures
        s.after_byte(erase_line().last()).pending.len() == 0,
        s.after_byte(erase_line().last()).carry == s.carry,
        s.after_byte(erase_line().last()).ready == s.ready,
{
    let grown = s.pending.push(erase_line().last());
    assert(grown =~= before + erase_line());
    assert(grown.subrange(grown.len() - 5, grown.len() as int) =~= erase_line());
}

/// The palette of ANSI is that of the screen with red and blue changed places:
/// a colour's place in one is its place in the other with the bit for one and
/// the bit for four exchanged.
pub proof fn lemma_ansi_palette(color: TvColor)
    requires
        color.is_named(),
    ensures
        ansi256_index(color) % 2 == color.cga_index() / 4 % 2,
        ansi256_index(color) / 2 % 2 == color.cga_index() / 2 % 2,
        ansi256_index(color) / 4 % 2 == color.cga_index() % 2,
        ansi256_index(color) / 8 == color.cga_index() / 8,
{
}

/// The cells of a line are the glyphs the parser finds on it, one for one, in
/// the same order: the same characters, in the named colours at the same
/// places of the palette.
pub proof fn lemma_line_is_what_was_parsed(s: Assembly)
    ensures
        ({
            let text = crate::text::utf8_lossy(s.pending.take(usable_len(s.pending)));
            let glyphs = parsed_ansi(sgr(s.carry) + text);
            &&& s.line() == ansi_line(s.carry, text)
            &&& s.line().len() == glyphs.len()
            &&& forall|i: int|
                0 <= i < glyphs.len() ==> {
                    let cell = #[trigger] s.line()[i];
                    &&& cell.ch == glyphs[i].0
                    &&& cell.attr.fg !is Rgb && cell.attr.fg.cga_index() == glyphs[i].1 % 16
                    &&& cell.attr.bg !is Rgb && cell.attr.bg.cga_index() == glyphs[i].2 % 16
                }
        }),
{
    let text = crate::text::utf8_lossy(s.pending.take(usable_len(s.pending)));
    lemma_each_cell_is_its_own_glyph(parsed_ansi(sgr(s.carry) + text));
}

/// The attribute in force behind cells is that of the last one.
pub proof fn lemma_last_attribute(cells: Seq<Cell>, cell: Cell, carry: Attr)
    ensures
        last_attr(Seq::empty(), carry) == carry,
        last_attr(cells.push(cell), carry) == cell.attr,
{
}

/// Carriage returns, and nothing else, are left out.
pub proof fn lemma_only_carriage_returns_go(s: Seq<char>, c: char)
    ensures
        without_cr(Seq::empty()) == Seq::<char>::empty(),
        c == '\r' ==> without_cr(s.push(c)) == without_cr(s),
        c != '\r' ==> without_cr(s.push(c)) == without_cr(s).push(c),
{
    assert(s.push(c).drop_last() =~= s);
}

/// The sequence that selects true colours, written out.
pub proof fn lemma_true_color_sequence(r: u8, g: u8, b: u8, bg: TvColor)
    requires
        bg.is_named(),
    ensures
        sgr(Attr { fg: TvColor::Rgb { r, g, b }, bg }) == "\x1b[38;2;"@ + crate::text::decimal(
            r as nat,
        ) + ";"@ + crate::text::decimal(g as nat) + ";"@ + crate::text::decimal(b as nat)
            + "m\x1b[48;5;"@ + crate::text::decimal(ansi256_index(bg) as nat) + "m"@,
        sgr(Attr { fg: bg, bg: TvColor::Rgb { r, g, b } }) == "\x1b[38;5;"@ + crate::text::decimal(
            ansi256_index(bg) as nat,
        ) + "m\x1b[48;2;"@ + crate::text::decimal(r as nat) + ";"@ + crate::text::decimal(
            g as nat,
        ) + ";"@ + crate::text::decimal(b as nat) + "m"@,
{
    reveal_strlit("\x1b[");
    reveal_strlit(";5;");
    reveal_strlit(";2;");
    reveal_strlit("m");
    reveal_strlit("\x1b[38;5;");
    reveal_strlit("\x1b[38;2;");
    reveal_strlit("m\x1b[48;5;");
    reveal_strlit("m\x1b[48;2;");
    lemma_tens(38);
    lemma_tens(48);
    assert(sgr(Attr { fg: TvColor::Rgb { r, g, b }, bg }) =~= "\x1b[38;2;"@ + crate::text::decimal(
        r as nat,
    ) + ";"@ + crate::text::decimal(g as nat) + ";"@ + crate::text::decimal(b as nat)
        + "m\x1b[48;5;"@ + crate::text::decimal(ansi256_index(bg) as nat) + "m"@);
    assert(sgr(Attr { fg: bg, bg: TvColor::Rgb { r, g, b } }) =~= "\x1b[38;5;"@
        + crate::text::decimal(ansi256_index(bg) as nat) + "m\x1b[48;2;"@ + crate::text::decimal(
        r as nat,
    ) + ";"@ + crate::text::decimal(g as nat) + ";"@ + crate::text::decimal(b as nat) + "m"@);
}

/// The sequence that selects an attribute of named colours, written out.
pub proof fn lemma_selecting_sequence(attr: Attr)
    requires
        attr.is_named(),
    ensures
        sgr(attr) == "\x1b[38;5;"@ + crate::text::decimal(ansi256_index(attr.fg) as nat)
            + "m\x1b[48;5;"@ + crate::text::decimal(ansi256_index(attr.bg) as nat) + "m"@,
{
    reveal_strlit("\x1b[");
    reveal_strlit(";5;");
    reveal_strlit("m");
    reveal_strlit("\x1b[38;5;");
    reveal_strlit("m\x1b[48;5;");
    lemma_tens(38);
    lemma_tens(48);
    assert(sgr(attr) =~= "\x1b[38;5;"@ + crate::text::decimal(ansi256_index(attr.fg) as nat)
        + "m\x1b[48;5;"@ + crate::text::decimal(ansi256_index(attr.bg) as nat) + "m"@);
}

proof fn lemma_tens(n: nat)
    requires
        10 <= n < 100,
    ensures
        crate::text::decimal(n) == seq![
            crate::text::digit_char((n / 10) as int),
            crate::text::digit_char((n % 10) as int),
        ],
{
    assert(crate::text::decimal(n / 10) == seq![crate::text::digit_char((n / 10) as int)]);
    assert(crate::text::decimal(n) =~= seq![
        crate::text::digit_char((n / 10) as int),
        crate::text::digit_char((n % 10) as int),
    ]);
}

/// Bytes without a newline or a carriage return gather in the unfinished line.
pub proof fn lemma_bytes_gather(s: Assembly, bytes: Seq<u8>)
    requires
        !bytes.contains(0x0a),
        !bytes.contains(0x0d),
        !s.pending.contains(0x0d),
    ensures
        s.fed(bytes) == (Assembly { pending: s.pending + bytes, ..s }),
{
    let whole = s.pending + bytes;
    assert forall|k: int| 0 <= k < whole.len() - 4 implies !(#[trigger] whole[k] == 0x0d && whole[k
        + 1] == 0x1b && whole[k + 2] == 0x5b && whole[k + 3] == 0x30 && whole[k + 4] == 0x4b) by {
        if k < s.pending.len() {
            assert(s.pending[k] == whole[k]);
        } else {
            assert(bytes[k - s.pending.len()] == whole[k]);
        }
    }
    lemma_all_but_a_repaint_gathers(s, bytes);
}

/// Bytes without a newline gather in the unfinished line, carriage returns
/// too, unless they spell out a repaint: a carriage return and the sequence
/// that erases the line.
pub proof fn lemma_all_but_a_repaint_gathers(s: Assembly, bytes: Seq<u8>)
    requires
        !bytes.contains(0x0a),
        ({
            let whole = s.pending + bytes;
            forall|k: int|
                0 <= k < whole.len() - 4 ==> !(#[trigger] whole[k] == 0x0d && whole[k + 1] == 0x1b
                    && whole[k + 2] == 0x5b && whole[k + 3] == 0x30 && whole[k + 4] == 0x4b)
        }),
    ensures
        s.fed(bytes) == (Assembly { pending: s.pending + bytes, ..s }),
    decreases bytes.len(),
{
    if bytes.len() == 0 {
        assert(s.pending + bytes =~= s.pending);
    } else {
        let init = bytes.drop_last();
        let b = bytes.last();
        let whole = s.pending + bytes;
        let less = s.pending + init;
        assert(b == bytes[bytes.len() - 1]);
        assert forall|i: int| 0 <= i < init.len() implies init[i] != 0x0a by {
            assert(init[i] == bytes[i]);
        }
        assert(less.push(b) =~= whole);
        assert forall|k: int| 0 <= k < less.len() - 4 implies !(#[trigger] less[k] == 0x0d && less[k
            + 1] == 0x1b && less[k + 2] == 0x5b && less[k + 3] == 0x30 && less[k + 4] == 0x4b) by {
            assert(whole[k] == less[k] && whole[k + 1] == less[k + 1] && whole[k + 2] == less[k + 2]
                && whole[k + 3] == less[k + 3] && whole[k + 4] == less[k + 4]);
        }
        lemma_all_but_a_repaint_gathers(s, init);
        if erase_line().is_suffix_of(whole) {
            let k = whole.len() - 5;
            let end = whole.subrange(k, whole.len() as int);
            assert(end[0] == whole[k] && end[1] == whole[k + 1] && end[2] == whole[k + 2] && end[3]
                == whole[k + 3] && end[4] == whole[k + 4]);
        }
    }
}

/// A repaint takes back what stood on the line: after a carriage return and
/// the sequence that erases the line, nothing of it is left, the attribute it
/// started in is in force again, and the lines before it are as they were.
pub proof fn lemma_repaint_starts_over(s: Assembly, bytes: Seq<u8>)
    requires
        !bytes.contains(0x0a),
        !bytes.contains(0x0d),
        !s.pending.contains(0x0d),
    ensures
        s.fed(bytes + seq![0x0du8, 0x1b, 0x5b, 0x30, 0x4b]) == (Assembly {
            pending: Seq::empty(),
            ..s
        }),
{
    let start = seq![0x0du8, 0x1b, 0x5b, 0x30];
    let most = bytes + start;
    let all = bytes + seq![0x0du8, 0x1b, 0x5b, 0x30, 0x4b];
    let whole = s.pending + most;
    assert(all.drop_last() =~= most);
    assert(!most.contains(0x0a)) by {
        assert forall|i: int| 0 <= i < most.len() implies most[i] != 0x0a by {
            if i < bytes.len() {
                assert(most[i] == bytes[i]);
            } else {
                assert(most[i] == start[i - bytes.len()]);
            }
        }
    }
    assert forall|k: int| 0 <= k < whole.len() - 4 implies !(#[trigger] whole[k] == 0x0d && whole[k
        + 1] == 0x1b && whole[k + 2] == 0x5b && whole[k + 3] == 0x30 && whole[k + 4] == 0x4b) by {
        if k < s.pending.len() {
            assert(s.pending[k] == whole[k]);
        } else {
            assert(bytes[k - s.pending.len()] == whole[k]);
        }
    }
    lemma_all_but_a_repaint_gathers(s, most);
    let grown = whole.push(0x4b);
    assert(grown.subrange(grown.len() - 5, grown.len() as int) =~= erase_line());
    assert(s.fed(all) =~= (Assembly { pending: Seq::empty(), ..s }));
}

/// A line ends at its newline: what gathered before it and what came with it
/// is one line more, behind those already there, nothing is left over, and the
/// next line starts in the attribute this one ends in.
pub proof fn lemma_newline_ends_the_line(s: Assembly, bytes: Seq<u8>)
    requires
        !bytes.contains(0x0a),
        !bytes.contains(0x0d),
        !s.pending.contains(0x0d),
    ensures
        s.fed(bytes.push(0x0a)) == ({
            let text = crate::text::utf8_lossy(
                (s.pending + bytes).take(usable_len(s.pending + bytes)),
            );
            Assembly {
                pending: Seq::empty(),
                carry: last_attr(ansi_line(s.carry, text.push('X')), s.carry),
                ready: s.ready.push(ansi_line(s.carry, text)),
            }
        }),
{
    lemma_bytes_gather(s, bytes);
    assert(bytes.push(0x0a).drop_last() =~= bytes);
}

/// An escape sequence that has reached its end is not held back: what ends in
/// a whole one and text behind it can be shown in full.
pub proof fn lemma_whole_escape_is_shown(before: Seq<u8>, escape: Seq<u8>, rest: Seq<u8>, k: int)
    requires
        escape.len() > 2,
        escape[0] == 0x1b,
        escape[1] == 0x5b,
        2 <= k < escape.len(),
        0x40 <= escape[k] <= 0x7e,
        forall|i: int| 1 <= i < escape.len() ==> escape[i] != 0x1b,
        !rest.contains(0x1b),
    ensures
        usable_len(before + escape + rest) == (before + escape + rest).len(),
{
    let whole = before + escape + rest;
    let n = before.len() as int;
    whole.index_of_last_ensures(0x1b);
    assert(whole[n] == escape[0]);
    let last = whole.index_of_last(0x1b)->Some_0;
    if last > n {
        if last < n + escape.len() {
            assert(whole[last] == escape[last - n]);
        } else {
            assert(whole[last] == rest[last - n - escape.len()]);
        }
    }
    assert(last == n);
    assert(whole.skip(n)[k] == escape[k]);
    assert(is_final_byte(whole.skip(n)[k]));
}

/// Without an escape everything can be shown. A lone escape at the end, or one
/// with a bracket and no letter or sign after it yet, is held back, and
/// nothing in front of it is; one with anything else is not.
pub proof fn lemma_what_is_held_back(before: Seq<u8>, parameters: Seq<u8>)
    requires
        forall|i: int| 0 <= i < parameters.len() ==> 0x20 <= #[trigger] parameters[i] < 0x40,
    ensures
        !before.contains(0x1b) ==> usable_len(before) == before.len(),
        usable_len(before.push(0x1b)) == before.len(),
        usable_len(before + seq![0x1bu8, 0x5b] + parameters) == before.len(),
        forall|b: u8|
            b != 0x5b && b != 0x1b ==> usable_len(#[trigger] before.push(0x1b).push(b) + parameters)
                == before.len() + 2 + parameters.len(),
{
    let n = before.len() as int;
    before.index_of_last_ensures(0x1b);
    let lone = before.push(0x1b);
    lone.index_of_last_ensures(0x1b);
    assert(lone[n] == 0x1b);
    assert(lone.skip(n).len() == 1);
    let open = before + seq![0x1bu8, 0x5b] + parameters;
    open.index_of_last_ensures(0x1b);
    assert(open[n] == 0x1b);
    let last = open.index_of_last(0x1b)->Some_0;
    if last > n {
        if last == n + 1 {
            assert(open[last] == 0x5b);
        } else {
            assert(open[last] == parameters[last - n - 2]);
        }
    }
    let tail = open.skip(n);
    assert(tail[0] == 0x1b && tail[1] == 0x5b);
    assert forall|i: int| 2 <= i < tail.len() implies !is_final_byte(#[trigger] tail[i]) by {
        assert(tail[i] == parameters[i - 2]);
    }
    assert forall|b: u8| b != 0x5b && b != 0x1b implies usable_len(
        #[trigger] before.push(0x1b).push(b) + parameters,
    ) == before.len() + 2 + parameters.len() by {
        let other = before.push(0x1b).push(b) + parameters;
        other.index_of_last_ensures(0x1b);
        assert(other[n] == 0x1b);
        let at = other.index_of_last(0x1b)->Some_0;
        if at > n {
            if at == n + 1 {
                assert(other[at] == b);
            } else {
                assert(other[at] == parameters[at - n - 2]);
            }
        }
        assert(other.skip(n)[1] == b);
    }
}

/// A new assembler holds nothing, and its first line starts in light gray on
/// black.
pub proof fn lemma_new_assembler()
    ensures
        Assembly::empty() == (Assembly {
            pending: Seq::empty(),
            carry: Attr { fg: TvColor::LightGray, bg: TvColor::Black },
            ready: Seq::empty(),
        }),
{
}

/// Text in several attributes is its parts one after the other, and so are its
/// cells.
pub proof fn lemma_one_part_after_the_other(
    runs: Seq<(Attr, Seq<char>)>,
    attr: Attr,
    text: Seq<char>,
)
    ensures
        marked_up(Seq::empty()) == Seq::<char>::empty(),
        run_cells(Seq::empty()) == Seq::<Cell>::empty(),
        marked_up(runs.push((attr, text))) == marked_up(runs) + sgr(attr) + text,
        run_cells(runs.push((attr, text))) == run_cells(runs) + crate::screen::styled(
            without_cr(text),
            attr,
        ),
{
    assert(runs.push((attr, text)).drop_last() =~= runs);
}

/// Plain text is shown character by character, each in the attribute in force.
pub proof fn lemma_plain_text_is_shown_as_it_is(carry: Attr, text: Seq<char>)
    requires
        !text.contains('\r'),
    ensures
        ({
            let cells = plain_line(carry, vstd::utf8::encode_utf8(text));
            &&& cells.len() == text.len()
            &&& forall|i: int|
                0 <= i < text.len() ==> (#[trigger] cells[i]).ch == text[i] && cells[i].attr
                    == carry
        }),
{
    vstd::utf8::encode_utf8_decode_utf8(text);
    lemma_without_cr(text);
}

} // verus!
