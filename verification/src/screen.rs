//! What the screen is made of: colours, styled cells and rectangles.

use vstd::prelude::*;

verus! {

/// A text-mode colour: one of the sixteen named ones, or true colour.
#[derive(Debug, Clone, Copy, PartialEq, Eq, Structural)]
pub enum TvColor {
    Black,
    Blue,
    Green,
    Cyan,
    Red,
    Magenta,
    Brown,
    LightGray,
    DarkGray,
    LightBlue,
    LightGreen,
    LightCyan,
    LightRed,
    LightMagenta,
    Yellow,
    White,
    Rgb { r: u8, g: u8, b: u8 },
}

impl TvColor {
    /// One of the sixteen named colours.
    pub open spec fn is_named(self) -> bool {
        !(self is Rgb)
    }

    /// The position of a named colour in the CGA palette.
    pub open spec fn cga_index(self) -> u8 {
        match self {
            TvColor::Black => 0,
            TvColor::Blue => 1,
            TvColor::Green => 2,
            TvColor::Cyan => 3,
            TvColor::Red => 4,
            TvColor::Magenta => 5,
            TvColor::Brown => 6,
            TvColor::LightGray => 7,
            TvColor::DarkGray => 8,
            TvColor::LightBlue => 9,
            TvColor::LightGreen => 10,
            TvColor::LightCyan => 11,
            TvColor::LightRed => 12,
            TvColor::LightMagenta => 13,
            TvColor::Yellow => 14,
            TvColor::White => 15,
            TvColor::Rgb { .. } => 0,
        }
    }

    /// The named colour at a position of the CGA palette. Only the low four
    /// bits count.
    pub open spec fn named(n: u8) -> TvColor {
        match n % 16 {
            0 => TvColor::Black,
            1 => TvColor::Blue,
            2 => TvColor::Green,
            3 => TvColor::Cyan,
            4 => TvColor::Red,
            5 => TvColor::Magenta,
            6 => TvColor::Brown,
            7 => TvColor::LightGray,
            8 => TvColor::DarkGray,
            9 => TvColor::LightBlue,
            10 => TvColor::LightGreen,
            11 => TvColor::LightCyan,
            12 => TvColor::LightRed,
            13 => TvColor::LightMagenta,
            14 => TvColor::Yellow,
            _ => TvColor::White,
        }
    }

    /// The named colour at a position of the CGA palette. Only the low four
    /// bits count.
    pub fn from_index(n: u8) -> (r: TvColor)
        ensures
            r == TvColor::named(n),
    {
        match n % 16 {
            0 => TvColor::Black,
            1 => TvColor::Blue,
            2 => TvColor::Green,
            3 => TvColor::Cyan,
            4 => TvColor::Red,
            5 => TvColor::Magenta,
            6 => TvColor::Brown,
            7 => TvColor::LightGray,
            8 => TvColor::DarkGray,
            9 => TvColor::LightBlue,
            10 => TvColor::LightGreen,
            11 => TvColor::LightCyan,
            12 => TvColor::LightRed,
            13 => TvColor::LightMagenta,
            14 => TvColor::Yellow,
            _ => TvColor::White,
        }
    }
}

/// A named colour is found again at its position in the palette.
pub proof fn lemma_named_color_round_trip(color: TvColor)
    requires
        color.is_named(),
    ensures
        TvColor::named(color.cga_index()) == color,
{
}

/// The colours of a cell.
#[derive(Debug, Clone, Copy, PartialEq, Eq, Structural)]
pub struct Attr {
    pub fg: TvColor,
    pub bg: TvColor,
}

impl Attr {
    pub fn new(fg: TvColor, bg: TvColor) -> (r: Attr)
        ensures
            r == (Attr { fg, bg }),
    {
        Attr { fg, bg }
    }

    /// Both colours are named ones.
    pub open spec fn is_named(self) -> bool {
        self.fg.is_named() && self.bg.is_named()
    }
}

/// Light gray on black, the colours of unstyled text.
pub open spec fn default_attr() -> Attr {
    Attr { fg: TvColor::LightGray, bg: TvColor::Black }
}

/// One styled character.
#[derive(Debug, Clone, Copy, PartialEq, Eq, Structural)]
pub struct Cell {
    pub ch: char,
    pub attr: Attr,
}

impl Cell {
    pub fn new(ch: char, attr: Attr) -> (r: Cell)
        ensures
            r == (Cell { ch, attr }),
    {
        Cell { ch, attr }
    }
}

pub open spec fn cell_of(ch: char, attr: Attr) -> Cell {
    Cell { ch, attr }
}

/// A run of text in one attribute, a cell for each character.
pub open spec fn styled(text: Seq<char>, attr: Attr) -> Seq<Cell> {
    text.map_values(|c: char| cell_of(c, attr))
}

/// Appends a run of text in one attribute.
pub fn push_styled(out: &mut Vec<Cell>, text: &str, attr: Attr)
    ensures
        final(out)@ == old(out)@ + styled(text@, attr),
        final(out)@.len() == old(out)@.len() + text@.len(),
        old(out)@.is_prefix_of(final(out)@),
        forall|i: int|
            0 <= i < text@.len() ==> (#[trigger] text@[i]) == final(out)@[old(out)@.len() + i].ch
                && final(out)@[old(out)@.len() + i].attr == attr,
{
    let chars = crate::text::chars_of(text);
    let mut i: usize = 0;
    assert(out@ =~= old(out)@ + styled(text@, attr).take(0));
    while i < chars.len()
        invariant
            i <= chars@.len(),
            chars@ == text@,
            out@ == old(out)@ + styled(text@, attr).take(i as int),
        decreases chars@.len() - i,
    {
        out.push(Cell::new(chars[i], attr));
        i += 1;
        assert(out@ =~= old(out)@ + styled(text@, attr).take(i as int));
    }
    assert(styled(text@, attr).take(i as int) =~= styled(text@, attr));
}

#[derive(Debug, Clone, Copy, PartialEq, Eq, Structural)]
pub struct Point {
    pub x: i16,
    pub y: i16,
}

/// A rectangle of cells: `a` is its top-left corner, `b` lies just outside
/// its bottom-right one.
#[derive(Debug, Clone, Copy, PartialEq, Eq, Structural)]
pub struct Rect {
    pub a: Point,
    pub b: Point,
}

impl Rect {
    pub fn new(x1: i16, y1: i16, x2: i16, y2: i16) -> (r: Rect)
        ensures
            r == (Rect { a: Point { x: x1, y: y1 }, b: Point { x: x2, y: y2 } }),
    {
        Rect { a: Point { x: x1, y: y1 }, b: Point { x: x2, y: y2 } }
    }

    pub open spec fn spec_width(self) -> int {
        self.b.x - self.a.x
    }

    pub open spec fn spec_height(self) -> int {
        self.b.y - self.a.y
    }

    /// Columns from the left edge to the right one; negative when the
    /// rectangle is inside out.
    pub fn width(&self) -> (r: i32)
        ensures
            r == self.spec_width(),
            r == self.b.x - self.a.x,
    {
        self.b.x as i32 - self.a.x as i32
    }

    /// Rows from the top edge to the bottom one; negative when the rectangle
    /// is inside out.
    pub fn height(&self) -> (r: i32)
        ensures
            r == self.spec_height(),
            r == self.b.y - self.a.y,
    {
        self.b.y as i32 - self.a.y as i32
    }
}

/// A run of text has a cell for each character, in its place and in the one
/// attribute.
pub proof fn lemma_styled_cells(text: Seq<char>, attr: Attr)
    ensures
        styled(text, attr).len() == text.len(),
        forall|i: int|
            0 <= i < text.len() ==> (#[trigger] styled(text, attr)[i]).ch == text[i] && styled(
                text,
                attr,
            )[i].attr == attr,
{
}

/// The places of the colours in the palette: blue, green and red count one,
/// two and four, mixed colours their sum, and the bright ones eight more.
pub proof fn lemma_palette_places()
    ensures
        TvColor::Black.cga_index() == 0,
        TvColor::Blue.cga_index() == 1,
        TvColor::Green.cga_index() == 2,
        TvColor::Red.cga_index() == 4,
        TvColor::Cyan.cga_index() == TvColor::Blue.cga_index() + TvColor::Green.cga_index(),
        TvColor::Magenta.cga_index() == TvColor::Blue.cga_index() + TvColor::Red.cga_index(),
        TvColor::Brown.cga_index() == TvColor::Green.cga_index() + TvColor::Red.cga_index(),
        TvColor::LightGray.cga_index() == TvColor::Cyan.cga_index() + TvColor::Red.cga_index(),
        TvColor::DarkGray.cga_index() == TvColor::Black.cga_index() + 8,
        TvColor::LightBlue.cga_index() == TvColor::Blue.cga_index() + 8,
        TvColor::LightGreen.cga_index() == TvColor::Green.cga_index() + 8,
        TvColor::LightCyan.cga_index() == TvColor::Cyan.cga_index() + 8,
        TvColor::LightRed.cga_index() == TvColor::Red.cga_index() + 8,
        TvColor::LightMagenta.cga_index() == TvColor::Magenta.cga_index() + 8,
        TvColor::Yellow.cga_index() == TvColor::Brown.cga_index() + 8,
        TvColor::White.cga_index() == TvColor::LightGray.cga_index() + 8,
{
}

/// The colour at a place of the palette is the named one whose place it is,
/// and places repeat every sixteen.
pub proof fn lemma_color_at_a_place(n: u8)
    ensures
        TvColor::named(n).cga_index() == n % 16,
        TvColor::named(n) !is Rgb,
{
}

/// Unstyled text is light gray on black.
pub proof fn lemma_default_colors()
    ensures
        default_attr() == (Attr { fg: TvColor::LightGray, bg: TvColor::Black }),
{
}

} // verus!
