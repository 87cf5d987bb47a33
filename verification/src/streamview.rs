//! A scrollback view over styled cells, one row of cells per line.

use unicode_width::{UnicodeWidthChar, UnicodeWidthStr};
use vstd::prelude::*;
use vstd::slice::slice_subrange;

use crate::screen::{Attr, Cell, Rect, TvColor};

verus! {

/// A base character immediately followed by U+FE0F (the emoji presentation
/// selector) or U+FE0E (the text presentation selector) forms one
/// presentation sequence whose width can differ from the base character's
/// own width.
pub open spec fn is_selector(c: char) -> bool {
    c == '\u{FE0F}' || c == '\u{FE0E}'
}

/// The columns a character takes on a terminal by itself, as `unicode_width`
/// counts them; none for a control character.
pub uninterp spec fn char_columns(c: char) -> Option<usize>;

/// The columns a string takes on a terminal, as `unicode_width` counts them.
pub uninterp spec fn text_columns(s: Seq<char>) -> usize;

/// `UnicodeWidthChar::width`: a function of the character alone. Printable
/// ASCII is one column wide, and a presentation selector by itself takes
/// none.
#[verifier::external_body]
fn char_width(c: char) -> (r: Option<usize>)
    ensures
        r == char_columns(c),
        ' ' <= c <= '~' ==> r == Some(1usize),
        is_selector(c) ==> r == Some(0usize),
{
    UnicodeWidthChar::width(c)
}

/// `UnicodeWidthStr::width`: a function of the string alone. Two presentation
/// selectors in a row take no column.
#[verifier::external_body]
fn text_width(s: &str) -> (r: usize)
    ensures
        r == text_columns(s@),
        s@.len() == 2 && is_selector(s@[0]) && is_selector(s@[1]) ==> r == 0,
{
    UnicodeWidthStr::width(s)
}

/// A line starts with a presentation sequence: a character and its selector.
pub open spec fn starts_with_sequence(cells: Seq<Cell>) -> bool {
    cells.len() >= 2 && cells[0].ch != '\0' && is_selector(cells[1].ch)
}

/// How many cells the first character of a line comes in, its selector
/// counted.
pub open spec fn head_len(cells: Seq<Cell>) -> int {
    if starts_with_sequence(cells) {
        2
    } else {
        1
    }
}

/// How many columns a character takes without a selector.
pub open spec fn own_columns(c: char) -> usize {
    match char_columns(c) {
        Some(n) => n,
        None => 0,
    }
}

/// How many columns the first character of a line takes, its selector
/// counted. A spacer cell stands for one column.
pub open spec fn head_columns(cells: Seq<Cell>) -> usize {
    if cells[0].ch == '\0' {
        1
    } else if starts_with_sequence(cells) {
        text_columns(seq![cells[0].ch, cells[1].ch])
    } else {
        own_columns(cells[0].ch)
    }
}

/// What is kept of the first character of a line, given the columns it takes
/// with its selector and without. A character that takes no column goes. A
/// selector that does not make its character take a second column goes too,
/// if the character by itself takes the one column the two take together.
pub open spec fn kept_head(cells: Seq<Cell>, columns: usize, alone: usize) -> Seq<Cell> {
    if columns == 0 {
        Seq::empty()
    } else if starts_with_sequence(cells) && columns == 1 && alone == 1 {
        cells.take(1)
    } else {
        cells.take(head_len(cells))
    }
}

/// How many spacers the first character of a line calls for: one for each
/// column beyond the cells it comes in.
pub open spec fn further_columns(cells: Seq<Cell>, columns: usize) -> nat {
    if columns > head_len(cells) {
        (columns - head_len(cells)) as nat
    } else {
        0
    }
}

/// How many spacers stand at `i` and directly behind, `limit` at most.
pub open spec fn spacers_at(cells: Seq<Cell>, i: int, limit: nat) -> nat
    decreases limit,
{
    if limit == 0 || i >= cells.len() || cells[i].ch != '\0' {
        0
    } else {
        1 + spacers_at(cells, i + 1, (limit - 1) as nat)
    }
}

/// How many cells of a line belong to its first character: the cells it comes
/// in, and those of the spacers it calls for that are already there.
pub open spec fn unit_len(cells: Seq<Cell>, columns: usize) -> int {
    head_len(cells) + spacers_at(cells, head_len(cells), further_columns(cells, columns))
}

/// Blank cells behind a character, one for each further column.
pub open spec fn spacers(attr: Attr, n: nat) -> Seq<Cell> {
    Seq::new(n, |i: int| Cell { ch: '\0', attr })
}

/// The first character of a line over the columns it takes: what is kept of
/// it, the spacers already there, and those still missing.
pub open spec fn placed(cells: Seq<Cell>, columns: usize, alone: usize) -> Seq<Cell> {
    let n = unit_len(cells, columns);
    kept_head(cells, columns, alone) + cells.subrange(head_len(cells), n) + spacers(
        cells[0].attr,
        (further_columns(cells, columns) - (n - head_len(cells))) as nat,
    )
}

/// The first character of a line, laid out in columns.
pub open spec fn first_unit(cells: Seq<Cell>) -> Seq<Cell> {
    placed(cells, head_columns(cells), own_columns(cells[0].ch))
}

/// What follows the first character of a line.
pub open spec fn after_unit(cells: Seq<Cell>) -> Seq<Cell> {
    cells.skip(unit_len(cells, head_columns(cells)))
}

proof fn lemma_spacers_at(cells: Seq<Cell>, i: int, limit: nat)
    requires
        0 <= i <= cells.len(),
    ensures
        spacers_at(cells, i, limit) <= limit,
        i + spacers_at(cells, i, limit) <= cells.len(),
        forall|j: int|
            i <= j < i + spacers_at(cells, i, limit) ==> (#[trigger] cells[j]).ch == '\0',
    decreases limit,
{
    if limit > 0 && i < cells.len() && cells[i].ch == '\0' {
        lemma_spacers_at(cells, i + 1, (limit - 1) as nat);
    }
}

proof fn lemma_all_spacers_found(cells: Seq<Cell>, i: int, limit: nat)
    requires
        0 <= i,
        i + limit <= cells.len(),
        forall|j: int| i <= j < i + limit ==> (#[trigger] cells[j]).ch == '\0',
    ensures
        spacers_at(cells, i, limit) == limit,
    decreases limit,
{
    if limit > 0 {
        assert(cells[i].ch == '\0');
        lemma_all_spacers_found(cells, i + 1, (limit - 1) as nat);
    }
}

/// A character takes at least one cell of a line, and no more than there are.
pub proof fn lemma_unit_len(cells: Seq<Cell>, columns: usize)
    requires
        cells.len() > 0,
    ensures
        head_len(cells) <= unit_len(cells, columns) <= cells.len(),
        unit_len(cells, columns) - head_len(cells) <= further_columns(cells, columns),
        forall|j: int|
            head_len(cells) <= j < unit_len(cells, columns) ==> (#[trigger] cells[j]).ch == '\0',
{
    lemma_spacers_at(cells, head_len(cells), further_columns(cells, columns));
}

/// A line of one cell per character, laid out in columns.
pub open spec fn normalized(cells: Seq<Cell>) -> Seq<Cell>
    decreases cells.len(),
{
    if cells.len() == 0 {
        Seq::empty()
    } else {
        proof {
            lemma_unit_len(cells, head_columns(cells));
        }
        first_unit(cells) + normalized(after_unit(cells))
    }
}

/// Every selector that stands where a base character is expected takes no
/// column.
pub open spec fn stray_selectors_vanish(cells: Seq<Cell>) -> bool
    decreases cells.len(),
{
    if cells.len() == 0 {
        true
    } else {
        proof {
            lemma_unit_len(cells, head_columns(cells));
        }
        (is_selector(cells[0].ch) ==> head_columns(cells) == 0) && stray_selectors_vanish(
            after_unit(cells),
        )
    }
}

/// The columns a line takes, each character counted with its selector, and a
/// spacer that belongs to no character as one column.
pub open spec fn line_columns(cells: Seq<Cell>) -> nat
    decreases cells.len(),
{
    if cells.len() == 0 {
        0
    } else {
        proof {
            lemma_unit_len(cells, head_columns(cells));
        }
        head_columns(cells) as nat + line_columns(after_unit(cells))
    }
}

/// A character that takes one column with its selector, and none or several
/// without: a watch (U+231A) as text (U+FE0E), or a control character with a
/// selector. It keeps its selector, because without it it would be laid out
/// in another way.
pub open spec fn needs_its_selector(cells: Seq<Cell>) -> bool {
    starts_with_sequence(cells) && head_columns(cells) == 1 && own_columns(cells[0].ch) != 1
}

/// No character of a line needs a selector to take one column.
pub open spec fn no_selector_needed(cells: Seq<Cell>) -> bool
    decreases cells.len(),
{
    if cells.len() == 0 {
        true
    } else {
        proof {
            lemma_unit_len(cells, head_columns(cells));
        }
        !needs_its_selector(cells) && no_selector_needed(after_unit(cells))
    }
}

/// The characters of a line that stay when it is laid out.
pub open spec fn kept_text(cells: Seq<Cell>) -> Seq<char>
    decreases cells.len(),
{
    if cells.len() == 0 {
        Seq::empty()
    } else {
        proof {
            lemma_unit_len(cells, head_columns(cells));
        }
        line_text(kept_head(cells, head_columns(cells), own_columns(cells[0].ch))) + kept_text(
            after_unit(cells),
        )
    }
}

/// Every character takes a column, and every selector stays.
pub open spec fn all_kept(cells: Seq<Cell>) -> bool
    decreases cells.len(),
{
    if cells.len() == 0 {
        true
    } else {
        proof {
            lemma_unit_len(cells, head_columns(cells));
        }
        kept_head(cells, head_columns(cells), own_columns(cells[0].ch)) == cells.take(
            head_len(cells),
        ) && all_kept(after_unit(cells))
    }
}

/// Printable ASCII throughout.
pub open spec fn is_ascii_line(cells: Seq<Cell>) -> bool {
    forall|i: int| 0 <= i < cells.len() ==> ' ' <= (#[trigger] cells[i]).ch <= '~'
}

/// The text of a line: its characters without the spacers.
pub open spec fn line_text(cells: Seq<Cell>) -> Seq<char>
    decreases cells.len(),
{
    if cells.len() == 0 {
        Seq::empty()
    } else if cells.last().ch == '\0' {
        line_text(cells.drop_last())
    } else {
        line_text(cells.drop_last()).push(cells.last().ch)
    }
}

/// The characters of a line, one per cell.
pub open spec fn line_chars(cells: Seq<Cell>) -> Seq<char> {
    Seq::new(cells.len(), |i: int| cells[i].ch)
}

/// A line laid out in columns holds one cell per column. Left out are lines
/// with a character that takes one column only because of its selector, such
/// as a watch as text: it keeps both its cells.
pub proof fn lemma_one_cell_per_column(cells: Seq<Cell>)
    requires
        no_selector_needed(cells),
    ensures
        normalized(cells).len() == line_columns(cells),
    decreases cells.len(),
{
    if cells.len() > 0 {
        lemma_unit_len(cells, head_columns(cells));
        lemma_one_cell_per_column(after_unit(cells));
    }
}

proof fn lemma_line_text_concat(a: Seq<Cell>, b: Seq<Cell>)
    ensures
        line_text(a + b) == line_text(a) + line_text(b),
    decreases b.len(),
{
    if b.len() == 0 {
        assert(a + b =~= a);
    } else {
        lemma_line_text_concat(a, b.drop_last());
        assert((a + b).drop_last() =~= a + b.drop_last());
    }
}

proof fn lemma_spacers_hold_no_text(cells: Seq<Cell>)
    requires
        forall|i: int| 0 <= i < cells.len() ==> (#[trigger] cells[i]).ch == '\0',
    ensures
        line_text(cells) == Seq::<char>::empty(),
    decreases cells.len(),
{
    if cells.len() > 0 {
        lemma_spacers_hold_no_text(cells.drop_last());
    }
}

proof fn lemma_text_of_full_cells(cells: Seq<Cell>)
    requires
        forall|i: int| 0 <= i < cells.len() ==> (#[trigger] cells[i]).ch != '\0',
    ensures
        line_text(cells) == line_chars(cells),
    decreases cells.len(),
{
    if cells.len() > 0 {
        lemma_text_of_full_cells(cells.drop_last());
        assert(line_chars(cells) =~= line_chars(cells.drop_last()).push(cells.last().ch));
    } else {
        assert(line_chars(cells) =~= Seq::<char>::empty());
    }
}

/// The text of a line laid out in columns is that of the characters that
/// stay, with no padding in it.
pub proof fn lemma_text_is_kept(cells: Seq<Cell>)
    ensures
        line_text(normalized(cells)) == kept_text(cells),
    decreases cells.len(),
{
    if cells.len() > 0 {
        let columns = head_columns(cells);
        let unit = first_unit(cells);
        let head = kept_head(cells, columns, own_columns(cells[0].ch));
        let padding = unit.skip(head.len() as int);
        lemma_unit_len(cells, columns);
        lemma_text_is_kept(after_unit(cells));
        assert(unit =~= head + padding);
        lemma_line_text_concat(unit, normalized(after_unit(cells)));
        lemma_line_text_concat(head, padding);
        lemma_spacers_hold_no_text(padding);
        assert(line_text(unit) =~= line_text(head));
    }
}

/// The text of a line laid out in columns is the line's own text, when every
/// character takes a column and every selector stays. Where the line holds no
/// spacer, that is its characters one by one.
pub proof fn lemma_text_round_trips(cells: Seq<Cell>)
    requires
        all_kept(cells),
    ensures
        line_text(normalized(cells)) == line_text(cells),
        (forall|i: int| 0 <= i < cells.len() ==> (#[trigger] cells[i]).ch != '\0')
            ==> line_text(normalized(cells)) == line_chars(cells),
{
    lemma_text_is_kept(cells);
    lemma_kept_text_is_own(cells);
    if forall|i: int| 0 <= i < cells.len() ==> (#[trigger] cells[i]).ch != '\0' {
        lemma_text_of_full_cells(cells);
    }
}

proof fn lemma_kept_text_is_own(cells: Seq<Cell>)
    requires
        all_kept(cells),
    ensures
        kept_text(cells) == line_text(cells),
    decreases cells.len(),
{
    if cells.len() > 0 {
        let n = head_len(cells);
        let m = unit_len(cells, head_columns(cells));
        lemma_unit_len(cells, head_columns(cells));
        lemma_kept_text_is_own(after_unit(cells));
        let padding = cells.subrange(n, m);
        lemma_spacers_hold_no_text(padding);
        lemma_line_text_concat(cells.take(n), padding);
        lemma_line_text_concat(cells.take(n) + padding, after_unit(cells));
        assert(cells.take(n) + padding + after_unit(cells) =~= cells);
        assert(line_text(cells.take(n)) + line_text(padding) =~= line_text(cells.take(n)));
    }
}

/// A line that has been laid out is laid out again in the same way.
proof fn lemma_normalized_again(cells: Seq<Cell>)
    requires
        stray_selectors_vanish(cells),
    ensures
        normalized(normalized(cells)) == normalized(cells),
        normalized(cells).len() > 0 ==> !is_selector(normalized(cells)[0].ch),
    decreases cells.len(),
{
    if cells.len() > 0 {
        let columns = head_columns(cells);
        let alone = own_columns(cells[0].ch);
        let n = head_len(cells);
        let unit = first_unit(cells);
        let rest = normalized(after_unit(cells));
        let out = unit + rest;
        lemma_unit_len(cells, columns);
        lemma_normalized_again(after_unit(cells));
        if columns == 0 {
            assert(out =~= rest);
        } else {
            let f = further_columns(cells, columns);
            let m = kept_head(cells, columns, alone).len() as int;
            assert(out[0] == cells[0]);
            assert(m == 2 ==> out[1] == cells[1]);
            assert forall|j: int| m <= j < m + f implies (#[trigger] out[j]).ch == '\0' by {
                assert(out[j] == unit[j]);
            }
            assert(m == 1 && f == 0 && out.len() >= 2 ==> out[1] == rest[0]);
            assert(m == 1 && f > 0 ==> out[1].ch == '\0');
            assert(head_len(out) == m);
            assert(m == n ==> head_columns(out) == columns);
            assert(head_columns(out) == columns);
            lemma_all_spacers_found(out, m, f);
            assert(unit_len(out, columns) == m + f);
            assert(first_unit(out) =~= unit);
            assert(after_unit(out) =~= rest);
        }
    }
}

proof fn lemma_ascii_is_kept(cells: Seq<Cell>)
    requires
        is_ascii_line(cells),
        forall|i: int| 0 <= i < cells.len() ==> char_columns((#[trigger] cells[i]).ch) == Some(1usize),
    ensures
        normalized(cells) == cells,
    decreases cells.len(),
{
    if cells.len() > 0 {
        assert(cells[0].ch != '\0');
        assert(cells.len() >= 2 ==> !is_selector(cells[1].ch));
        assert(head_len(cells) == 1);
        let tail = cells.skip(1);
        assert forall|i: int| 0 <= i < tail.len() implies ' ' <= (#[trigger] tail[i]).ch <= '~'
            && char_columns(tail[i].ch) == Some(1usize) by {
            assert(tail[i] == cells[i + 1]);
        }
        lemma_ascii_is_kept(tail);
        lemma_unit_len(cells, head_columns(cells));
        assert(after_unit(cells) =~= tail);
        assert(first_unit(cells) + tail =~= cells);
    } else {
        assert(normalized(cells) =~= cells);
    }
}

/// Lays out the first character of a line, given the columns it takes with
/// its selector and without. Also returns how many cells of the line belong
/// to it.
pub fn place(cells: &[Cell], columns: usize, alone: usize) -> (r: (Vec<Cell>, usize))
    requires
        cells@.len() > 0,
    ensures
        r.0@ == placed(cells@, columns, alone),
        r.1 == unit_len(cells@, columns),
        0 < r.1 <= cells@.len(),
{
    let cell = cells[0];
    let sequence: bool = cell.ch != '\0' && cells.len() >= 2 && (cells[1].ch == '\u{FE0F}'
        || cells[1].ch == '\u{FE0E}');
    let head: usize = if sequence {
        2
    } else {
        1
    };
    let further: usize = if columns > head {
        columns - head
    } else {
        0
    };
    proof {
        lemma_unit_len(cells@, columns);
    }
    let mut out: Vec<Cell> = Vec::new();
    if columns > 0 {
        out.push(cell);
        if sequence && !(columns == 1 && alone == 1) {
            out.push(cells[1]);
        }
    }
    let ghost kept = kept_head(cells@, columns, alone);
    assert(out@ =~= kept);
    let mut n: usize = 0;
    while n < further && n < cells.len() - head && cells[head + n].ch == '\0'
        invariant
            head + n <= cells@.len(),
            n <= further,
            spacers_at(cells@, head as int, further as nat) == n + spacers_at(
                cells@,
                head + n,
                (further - n) as nat,
            ),
            out@ == kept + cells@.subrange(head as int, head + n),
        decreases further - n,
    {
        out.push(cells[head + n]);
        n += 1;
        assert(out@ =~= kept + cells@.subrange(head as int, head + n));
    }
    let ghost found = out@;
    let mut missing: usize = further - n;
    assert(found + spacers(cell.attr, 0) =~= found);
    while missing > 0
        invariant
            missing <= further - n,
            n <= further,
            out@ == found + spacers(cell.attr, (further - n - missing) as nat),
        decreases missing,
    {
        out.push(Cell::new('\0', cell.attr));
        missing -= 1;
        assert(out@ =~= found + spacers(cell.attr, (further - n - missing) as nat));
    }
    (out, head + n)
}

/// Lays a line of one cell per character out in terminal columns, which is
/// what row widths and horizontal scrolling count in.
///
/// A double-width character keeps its character in the first cell and gets a
/// spacer cell (`'\0'`) for each further column. Where the second column comes
/// from a presentation selector, the selector itself is kept: it is a real
/// character, not padding. A zero-width character occupies no column and is
/// dropped, and so is a selector that adds no column to its character.
///
/// Laying out a line that has been laid out changes nothing: a character
/// makes do with the spacers that already stand behind it, and a spacer that
/// belongs to no character stays. A line of printable ASCII is already laid
/// out.
pub fn normalize_line(cells: &[Cell]) -> (r: Vec<Cell>)
    ensures
        r@ == normalized(cells@),
        normalized(r@) == r@,
        is_ascii_line(cells@) ==> r@ == cells@,
{
    let mut out: Vec<Cell> = Vec::new();
    let mut i: usize = 0;
    assert(cells@.skip(0) =~= cells@);
    assert(out@ + normalized(cells@.skip(0)) =~= normalized(cells@));
    while i < cells.len()
        invariant
            i <= cells@.len(),
            normalized(cells@) == out@ + normalized(cells@.skip(i as int)),
            stray_selectors_vanish(cells@.skip(i as int)) ==> stray_selectors_vanish(cells@),
            is_ascii_line(cells@) ==> forall|j: int|
                0 <= j < i ==> char_columns((#[trigger] cells@[j]).ch) == Some(1usize),
        decreases cells@.len() - i,
    {
        let here = slice_subrange(cells, i, cells.len());
        assert(here@ =~= cells@.skip(i as int));
        let cell = here[0];
        let alone: usize = match char_width(cell.ch) {
            Some(w) => w,
            None => 0,
        };
        let mut columns: usize = alone;
        if cell.ch == '\0' {
            columns = 1;
        } else if here.len() >= 2 && (here[1].ch == '\u{FE0F}' || here[1].ch == '\u{FE0E}') {
            let mut seq: String = String::new();
            seq.push(cell.ch);
            seq.push(here[1].ch);
            assert(seq@ =~= seq![cell.ch, here@[1].ch]);
            columns = text_width(seq.as_str());
        }
        assert(columns == head_columns(here@));
        let (mut unit, step) = place(here, columns, alone);
        assert(here@.skip(step as int) =~= cells@.skip(i + step));
        proof {
            if is_ascii_line(cells@) {
                assert(here@[0] == cells@[i as int]);
                assert(here@.len() >= 2 ==> here@[1] == cells@[i + 1]);
                lemma_unit_len(here@, columns);
                assert(step == 1);
            }
        }
        let ghost before = out@;
        let ghost first = unit@;
        out.append(&mut unit);
        assert(before + (first + normalized(after_unit(here@))) =~= (before + first) + normalized(
            after_unit(here@),
        ));
        i += step;
    }
    proof {
        assert(normalized(cells@.skip(i as int)) =~= Seq::<Cell>::empty());
        assert(out@ =~= normalized(cells@));
        if is_ascii_line(cells@) {
            lemma_ascii_is_kept(cells@);
        }
        lemma_normalized_again(cells@);
    }
    out
}

/// Default scrollback depth.
pub const DEFAULT_MAX_LINES: usize = 10_000;

/// The keys a view scrolls on.
#[derive(Debug, Clone, Copy, PartialEq, Eq, Structural)]
pub enum Key {
    Up,
    Down,
    PageUp,
    PageDown,
    Home,
    End,
    Other,
}

/// What a view holds and where in it the reader stands.
#[verifier::ext_equal]
pub ghost struct Scrollback {
    pub bounds: Rect,
    /// Completed lines, oldest first.
    pub lines: Seq<Seq<Cell>>,
    /// The line still streaming in.
    pub partial: Option<Seq<Cell>>,
    pub max_lines: nat,
    /// Index of the topmost displayed line.
    pub top: nat,
    /// Horizontal scroll offset, in columns.
    pub left: nat,
    /// The view follows the tail.
    pub follow: bool,
    /// The whole scrollback is selected.
    pub selected: bool,
}

/// Lines joined by newlines, without their spacers and attributes.
pub open spec fn joined(lines: Seq<Seq<Cell>>) -> Seq<char>
    decreases lines.len(),
{
    if lines.len() == 0 {
        Seq::empty()
    } else if lines.len() == 1 {
        line_text(lines[0])
    } else {
        joined(lines.drop_last()).push('\n') + line_text(lines.last())
    }
}

impl Scrollback {
    /// The scrollback never outgrows its limit, a line still streaming in is
    /// not empty, and a view that follows the tail stands at the bottom.
    pub open spec fn wf(self) -> bool {
        &&& 1 <= self.max_lines
        &&& self.lines.len() <= self.max_lines
        &&& (self.partial matches Some(p) ==> p.len() > 0)
        &&& self.follow ==> self.top == self.max_top()
    }

    /// Visible rows, i.e. the view height.
    pub open spec fn page(self) -> nat {
        if self.bounds.spec_height() > 1 {
            self.bounds.spec_height() as nat
        } else {
            1
        }
    }

    /// All lines, the one still streaming in last.
    pub open spec fn shown_lines(self) -> Seq<Seq<Cell>> {
        match self.partial {
            Some(p) => self.lines.push(p),
            None => self.lines,
        }
    }

    pub open spec fn max_top(self) -> nat {
        if self.shown_lines().len() > self.page() {
            (self.shown_lines().len() - self.page()) as nat
        } else {
            0
        }
    }

    pub open spec fn empty(bounds: Rect) -> Scrollback {
        Scrollback {
            bounds,
            lines: Seq::empty(),
            partial: None,
            max_lines: DEFAULT_MAX_LINES as nat,
            top: 0,
            left: 0,
            follow: true,
            selected: false,
        }
    }

    pub open spec fn at_bottom(self) -> Scrollback {
        Scrollback { top: self.max_top(), follow: true, ..self }
    }

    pub open spec fn at_top(self) -> Scrollback {
        Scrollback { top: 0, follow: false, ..self }
    }

    pub open spec fn settled(self) -> Scrollback {
        if self.follow {
            self.at_bottom()
        } else {
            self
        }
    }

    /// How many lines are over the limit.
    pub open spec fn excess(self) -> nat {
        if self.lines.len() > self.max_lines {
            (self.lines.len() - self.max_lines) as nat
        } else {
            0
        }
    }

    /// The oldest lines over the limit are gone, and the reader stands at the
    /// same line as before.
    pub open spec fn trimmed(self) -> Scrollback {
        Scrollback {
            lines: self.lines.skip(self.excess() as int),
            top: if self.top > self.excess() {
                (self.top - self.excess()) as nat
            } else {
                0
            },
            ..self
        }
    }

    pub open spec fn limited(self, n: nat) -> Scrollback {
        Scrollback {
            max_lines: if n > 1 {
                n
            } else {
                1
            },
            ..self
        }.trimmed()
    }

    /// A completed line is appended.
    pub open spec fn pushed(self, cells: Seq<Cell>) -> Scrollback {
        Scrollback { lines: self.lines.push(normalized(cells)), ..self }.trimmed().settled()
    }

    /// The line still streaming in is replaced.
    pub open spec fn with_partial(self, cells: Seq<Cell>) -> Scrollback {
        Scrollback {
            partial: if normalized(cells).len() == 0 {
                None
            } else {
                Some(normalized(cells))
            },
            ..self
        }.settled()
    }

    pub open spec fn cleared(self) -> Scrollback {
        Scrollback {
            lines: Seq::empty(),
            partial: None,
            top: 0,
            left: 0,
            follow: true,
            selected: false,
            ..self
        }
    }

    pub open spec fn scrolled_up(self, n: nat) -> Scrollback {
        Scrollback {
            top: if self.top > n {
                (self.top - n) as nat
            } else {
                0
            },
            follow: false,
            ..self
        }
    }

    pub open spec fn scrolled_down(self, n: nat) -> Scrollback {
        let top = if self.top + n < self.max_top() {
            self.top + n
        } else {
            self.max_top()
        };
        Scrollback { top, follow: top == self.max_top(), ..self }
    }

    pub open spec fn resized(self, bounds: Rect) -> Scrollback {
        let new = Scrollback { bounds, ..self };
        if self.follow {
            new.at_bottom()
        } else {
            Scrollback {
                top: if self.top < new.max_top() {
                    self.top
                } else {
                    new.max_top()
                },
                ..new
            }
        }
    }

    pub open spec fn after_key(self, key: Key) -> Scrollback {
        match key {
            Key::Up => self.scrolled_up(1),
            Key::Down => self.scrolled_down(1),
            Key::PageUp => self.scrolled_up(self.page()),
            Key::PageDown => self.scrolled_down(self.page()),
            Key::Home => self.at_top(),
            Key::End => self.at_bottom(),
            Key::Other => self,
        }
    }

    /// What stands at a row and column of the view: the cell of the line
    /// scrolled there, or a blank.
    pub open spec fn painted(self, row: int, column: int) -> Cell {
        let line = self.top + row;
        if line < self.shown_lines().len() && self.left + column
            < self.shown_lines()[line].len() {
            self.shown_lines()[line][self.left + column]
        } else {
            Cell { ch: ' ', attr: crate::screen::default_attr() }
        }
    }

    pub open spec fn painted_width(self) -> nat {
        if self.bounds.spec_width() > 0 {
            self.bounds.spec_width() as nat
        } else {
            0
        }
    }

    pub open spec fn painted_height(self) -> nat {
        if self.bounds.spec_height() > 0 {
            self.bounds.spec_height() as nat
        } else {
            0
        }
    }

    pub open spec fn painted_row(self, row: int) -> Seq<Cell> {
        Seq::new(self.painted_width(), |column: int| self.painted(row, column))
    }

    /// Every row of the view, top first.
    pub open spec fn painted_rows(self) -> Seq<Seq<Cell>> {
        Seq::new(self.painted_height(), |row: int| self.painted_row(row))
    }
}

/// The lines of a vector of lines.
pub open spec fn line_views(lines: Seq<Vec<Cell>>) -> Seq<Seq<Cell>> {
    lines.map_values(|line: Vec<Cell>| line@)
}

/// A scrollback of styled lines, with autoscroll that releases when the user
/// scrolls back and re-arms at the bottom.
#[derive(Debug)]
pub struct StreamView {
    bounds: Rect,
    lines: Vec<Vec<Cell>>,
    partial: Option<Vec<Cell>>,
    max_lines: usize,
    top: usize,
    left: usize,
    follow: bool,
    selected: bool,
}

impl View for StreamView {
    type V = Scrollback;

    closed spec fn view(&self) -> Scrollback {
        Scrollback {
            bounds: self.bounds,
            lines: line_views(self.lines@),
            partial: match self.partial {
                Some(p) => Some(p@),
                None => None,
            },
            max_lines: self.max_lines as nat,
            top: self.top as nat,
            left: self.left as nat,
            follow: self.follow,
            selected: self.selected,
        }
    }
}

impl StreamView {
    /// The scrollback is well formed.
    pub open spec fn wf(&self) -> bool {
        self@.wf()
    }

    /// The part of [`Self::wf`] that holds between two steps of an update.
    spec fn sized(&self) -> bool {
        &&& 1 <= self.max_lines
        &&& self.lines@.len() <= self.max_lines
        &&& (self.partial matches Some(p) ==> p@.len() > 0)
    }

    fn bottom(&self) -> (r: usize)
        requires
            self.sized(),
        ensures
            r == self@.max_top(),
    {
        let n: usize = self.lines.len();
        let page: usize = self.page();
        match &self.partial {
            Some(_) => if n >= page {
                n - (page - 1)
            } else {
                0
            },
            None => if n > page {
                n - page
            } else {
                0
            },
        }
    }

    /// Drops the oldest lines over the limit.
    fn trim(&mut self)
        requires
            1 <= old(self).max_lines,
            old(self).partial matches Some(p) ==> p@.len() > 0,
        ensures
            final(self).sized(),
            final(self)@ == old(self)@.trimmed(),
    {
        if self.lines.len() > self.max_lines {
            let excess: usize = self.lines.len() - self.max_lines;
            let kept = self.lines.split_off(excess);
            self.lines = kept;
            self.top = if self.top > excess {
                self.top - excess
            } else {
                0
            };
        }
        assert(self@.lines =~= old(self)@.trimmed().lines);
    }

    /// Stays at the bottom while following the tail.
    fn settle(&mut self)
        requires
            old(self).sized(),
        ensures
            final(self).wf(),
            final(self)@ == old(self)@.settled(),
    {
        if self.follow {
            self.top = self.bottom();
        }
    }

    pub fn new(bounds: Rect) -> (r: StreamView)
        ensures
            r.wf(),
            r@ == Scrollback::empty(bounds),
    {
        let r = StreamView {
            bounds,
            lines: Vec::new(),
            partial: None,
            max_lines: DEFAULT_MAX_LINES,
            top: 0,
            left: 0,
            follow: true,
            selected: false,
        };
        assert(r@ =~= Scrollback::empty(bounds));
        r
    }

    /// Limits the scrollback to `n` lines, dropping the oldest ones over it.
    pub fn set_max_lines(&mut self, n: usize)
        requires
            old(self).wf(),
        ensures
            final(self).wf(),
            final(self)@ == old(self)@.limited(n as nat),
    {
        self.max_lines = if n > 1 {
            n
        } else {
            1
        };
        self.trim();
    }

    /// Appends a completed line.
    pub fn push_line(&mut self, cells: &[Cell])
        requires
            old(self).wf(),
        ensures
            final(self).wf(),
            final(self)@ == old(self)@.pushed(cells@),
    {
        let line = normalize_line(cells);
        self.lines.push(line);
        assert(line_views(self.lines@) =~= old(self)@.lines.push(normalized(cells@)));
        self.trim();
        self.settle();
    }

    /// Replaces the line still streaming in. Called on every repaint while a
    /// line is streaming, so it overwrites rather than appends.
    pub fn set_partial(&mut self, cells: &[Cell])
        requires
            old(self).wf(),
        ensures
            final(self).wf(),
            final(self)@ == old(self)@.with_partial(cells@),
    {
        let line = normalize_line(cells);
        self.partial = if line.len() == 0 {
            None
        } else {
            Some(line)
        };
        self.settle();
    }

    pub fn clear(&mut self)
        requires
            old(self).wf(),
        ensures
            final(self).wf(),
            final(self)@ == old(self)@.cleared(),
    {
        self.lines.clear();
        self.partial = None;
        self.top = 0;
        self.left = 0;
        self.follow = true;
        self.selected = false;
        assert(self@ =~= old(self)@.cleared());
    }

    /// Total displayed lines, the one still streaming in counted.
    #[must_use]
    pub fn line_count(&self) -> (r: usize)
        requires
            self@.shown_lines().len() <= usize::MAX,
        ensures
            r == self@.shown_lines().len(),
    {
        match &self.partial {
            Some(_) => self.lines.len() + 1,
            None => self.lines.len(),
        }
    }

    /// Visible rows, i.e. the view height.
    pub fn page(&self) -> (r: usize)
        ensures
            r == self@.page(),
    {
        let h: i32 = self.bounds.height();
        if h > 1 {
            h as usize
        } else {
            1
        }
    }

    /// The topmost line when the last one is at the bottom of the view.
    pub fn max_top(&self) -> (r: usize)
        requires
            self.wf(),
        ensures
            r == self@.max_top(),
    {
        self.bottom()
    }

    /// Index of the topmost displayed line.
    pub fn top(&self) -> (r: usize)
        ensures
            r == self@.top,
    {
        self.top
    }

    /// Sets the horizontal scroll offset, in columns.
    pub fn set_left(&mut self, left: usize)
        requires
            old(self).wf(),
        ensures
            final(self).wf(),
            final(self)@ == (Scrollback { left: left as nat, ..old(self)@ }),
    {
        self.left = left;
    }

    pub fn scroll_to_bottom(&mut self)
        requires
            old(self).wf(),
        ensures
            final(self).wf(),
            final(self)@ == old(self)@.at_bottom(),
    {
        self.top = self.bottom();
        self.follow = true;
    }

    pub fn scroll_to_top(&mut self)
        requires
            old(self).wf(),
        ensures
            final(self).wf(),
            final(self)@ == old(self)@.at_top(),
    {
        self.top = 0;
        self.follow = false;
    }

    pub fn scroll_up(&mut self, n: usize)
        requires
            old(self).wf(),
        ensures
            final(self).wf(),
            final(self)@ == old(self)@.scrolled_up(n as nat),
    {
        self.top = if self.top > n {
            self.top - n
        } else {
            0
        };
        self.follow = false;
    }

    pub fn scroll_down(&mut self, n: usize)
        requires
            old(self).wf(),
        ensures
            final(self).wf(),
            final(self)@ == old(self)@.scrolled_down(n as nat),
    {
        let max_top: usize = self.max_top();
        self.top = if self.top < max_top && n < max_top - self.top {
            self.top + n
        } else {
            max_top
        };
        self.follow = self.top == max_top;
    }

    /// Whether new lines scroll into view as they arrive.
    #[must_use]
    pub fn is_at_bottom(&self) -> (r: bool)
        ensures
            r == self@.follow,
    {
        self.follow
    }

    /// The whole scrollback with attributes stripped, for File > Save As.
    #[must_use]
    pub fn plain_text(&self) -> (r: String)
        ensures
            r@ == joined(self@.shown_lines()),
    {
        let mut out: String = String::new();
        let ghost all = self@.shown_lines();
        let mut i: usize = 0;
        while i < self.lines.len()
            invariant
                i <= self.lines@.len(),
                all == self@.shown_lines(),
                self@.lines == line_views(self.lines@),
                out@ == joined(all.take(i as int)),
            decreases self.lines@.len() - i,
        {
            assert(all.take(i + 1).drop_last() =~= all.take(i as int));
            assert(all.take(i + 1).last() == self.lines@[i as int]@);
            if i > 0 {
                out.push('\n');
            } else {
                assert(out@ =~= Seq::<char>::empty());
            }
            push_line_text(&mut out, self.lines[i].as_slice());
            i += 1;
            assert(out@ =~= joined(all.take(i as int)));
        }
        match &self.partial {
            Some(p) => {
                assert(all.drop_last() =~= all.take(i as int));
                assert(all.last() == p@);
                if i > 0 {
                    out.push('\n');
                } else {
                    assert(out@ =~= Seq::<char>::empty());
                }
                push_line_text(&mut out, p.as_slice());
                assert(out@ =~= joined(all));
            },
            None => {
                assert(all =~= all.take(i as int));
            },
        }
        out
    }

    /// The whole scrollback with attributes intact.
    #[must_use]
    pub fn styled_lines(&self) -> (r: Vec<Vec<Cell>>)
        ensures
            line_views(r@) == self@.shown_lines(),
    {
        let mut out: Vec<Vec<Cell>> = Vec::new();
        let mut i: usize = 0;
        while i < self.lines.len()
            invariant
                i <= self.lines@.len(),
                line_views(out@) == line_views(self.lines@).take(i as int),
            decreases self.lines@.len() - i,
        {
            let line = copied(self.lines[i].as_slice());
            let ghost before = out@;
            out.push(line);
            i += 1;
            assert(line_views(out@) =~= line_views(before).push(line@));
            assert(line_views(out@) =~= line_views(self.lines@).take(i as int));
        }
        assert(line_views(out@) =~= line_views(self.lines@));
        match &self.partial {
            Some(p) => {
                let line = copied(p.as_slice());
                out.push(line);
                assert(line_views(out@) =~= self@.shown_lines());
            },
            None => {},
        }
        out
    }

    pub fn bounds(&self) -> (r: Rect)
        ensures
            r == self@.bounds,
    {
        self.bounds
    }

    /// Moves or resizes the view. A reader who has scrolled back keeps their
    /// place, as far as a full page can still be shown from it.
    pub fn set_bounds(&mut self, bounds: Rect)
        requires
            old(self).wf(),
        ensures
            final(self).wf(),
            final(self)@ == old(self)@.resized(bounds),
    {
        self.bounds = bounds;
        let bottom: usize = self.bottom();
        if self.follow || self.top > bottom {
            self.top = bottom;
        }
    }

    /// One row of the view.
    fn draw_row(&self, row: usize, width: usize) -> (r: Vec<Cell>)
        requires
            self.sized(),
            width == self@.painted_width(),
        ensures
            r@ == self@.painted_row(row as int),
    {
        let mut out: Vec<Cell> = Vec::new();
        let fill = Attr::new(TvColor::LightGray, TvColor::Black);
        let count: usize = self.lines.len();
        let empty: Vec<Cell> = Vec::new();
        let complete: bool = self.top < count && row < count - self.top;
        let line: &Vec<Cell> = if complete {
            &self.lines[self.top + row]
        } else if self.top <= count && row == count - self.top {
            match &self.partial {
                Some(p) => p,
                None => &empty,
            }
        } else {
            &empty
        };
        let ghost shown = self.top + row < self@.shown_lines().len();
        let ghost state = self@;
        assert(shown ==> line@ == state.shown_lines()[self.top + row]);
        let mut i: usize = 0;
        while i < width
            invariant
                i <= width,
                width == state.painted_width(),
                state == self@,
                shown == (self.top + row < state.shown_lines().len()),
                shown ==> line@ == state.shown_lines()[self.top + row],
                !shown ==> line@.len() == 0,
                fill == crate::screen::default_attr(),
                out@ == state.painted_row(row as int).take(i as int),
            decreases width - i,
        {
            let cell = if self.left < line.len() && i < line.len() - self.left {
                line[self.left + i]
            } else {
                Cell::new(' ', fill)
            };
            assert(cell == state.painted(row as int, i as int));
            out.push(cell);
            i += 1;
            assert(out@ =~= state.painted_row(row as int).take(i as int));
        }
        assert(out@ =~= state.painted_row(row as int));
        out
    }

    /// The rows to paint at the view's bounds, top first: the lines scrolled
    /// into view, clipped to the bounds and padded with blanks. None for a
    /// view without height.
    pub fn draw(&self) -> (r: Vec<Vec<Cell>>)
        requires
            self.wf(),
        ensures
            line_views(r@) == self@.painted_rows(),
            ({
                let all = self@.lines + match self@.partial {
                    Some(p) => seq![p],
                    None => Seq::empty(),
                };
                let height = self@.bounds.b.y - self@.bounds.a.y;
                let width = self@.bounds.b.x - self@.bounds.a.x;
                &&& r@.len() == if height > 0 {
                    height
                } else {
                    0
                }
                &&& forall|row: int|
                    0 <= row < r@.len() ==> (#[trigger] r@[row])@.len() == if width > 0 {
                        width
                    } else {
                        0
                    }
                &&& forall|row: int, column: int|
                    0 <= row < r@.len() && 0 <= column < r@[row]@.len() ==> (
                    #[trigger] r@[row]@[column]) == if self@.top + row < all.len() && self@.left
                        + column < all[self@.top + row].len() {
                        all[self@.top + row][self@.left + column]
                    } else {
                        Cell { ch: ' ', attr: Attr { fg: TvColor::LightGray, bg: TvColor::Black } }
                    }
            }),
    {
        let mut out: Vec<Vec<Cell>> = Vec::new();
        let w: i32 = self.bounds.width();
        let width: usize = if w > 0 {
            w as usize
        } else {
            0
        };
        let h: i32 = self.bounds.height();
        let height: usize = if h > 0 {
            h as usize
        } else {
            0
        };
        let mut row: usize = 0;
        assert(line_views(out@) =~= self@.painted_rows().take(0));
        while row < height
            invariant
                row <= height,
                self.sized(),
                width == self@.painted_width(),
                height == self@.painted_height(),
                line_views(out@) == self@.painted_rows().take(row as int),
            decreases height - row,
        {
            let cells = self.draw_row(row, width);
            let ghost before = out@;
            out.push(cells);
            row += 1;
            assert(line_views(out@) =~= line_views(before).push(cells@));
            assert(line_views(out@) =~= self@.painted_rows().take(row as int));
        }
        assert(line_views(out@) =~= self@.painted_rows());
        proof {
            lemma_all_lines(self@);
            assert forall|row: int| 0 <= row < out@.len() implies (#[trigger] out@[row])@
                == self@.painted_row(row) by {
                assert(line_views(out@)[row] == out@[row]@);
            }
        }
        out
    }

    /// Scrolls on a key. Returns whether the key was one to scroll on.
    pub fn handle_event(&mut self, key: Key) -> (r: bool)
        requires
            old(self).wf(),
        ensures
            final(self).wf(),
            final(self)@ == old(self)@.after_key(key),
            r == (key != Key::Other),
    {
        let page: usize = self.page();
        match key {
            Key::Up => self.scroll_up(1),
            Key::Down => self.scroll_down(1),
            Key::PageUp => self.scroll_up(page),
            Key::PageDown => self.scroll_down(page),
            Key::Home => self.scroll_to_top(),
            Key::End => self.scroll_to_bottom(),
            Key::Other => {
                return false;
            },
        }
        true
    }

    /// Selects the whole scrollback.
    pub fn select_all(&mut self)
        requires
            old(self).wf(),
        ensures
            final(self).wf(),
            final(self)@ == (Scrollback { selected: true, ..old(self)@ }),
    {
        self.selected = true;
    }

    /// The text of the selection, if there is one.
    pub fn selected_text(&self) -> (r: Option<String>)
        ensures
            match r {
                Some(t) => self@.selected && t@ == joined(self@.shown_lines()),
                None => !self@.selected,
            },
    {
        if self.selected {
            Some(self.plain_text())
        } else {
            None
        }
    }
}

/// Appends the text of a line.
fn push_line_text(out: &mut String, cells: &[Cell])
    ensures
        final(out)@ == old(out)@ + line_text(cells@),
{
    let mut i: usize = 0;
    assert(cells@.take(0) =~= Seq::<Cell>::empty());
    assert(out@ =~= old(out)@ + line_text(cells@.take(0)));
    while i < cells.len()
        invariant
            i <= cells@.len(),
            out@ == old(out)@ + line_text(cells@.take(i as int)),
        decreases cells@.len() - i,
    {
        assert(cells@.take(i + 1).drop_last() =~= cells@.take(i as int));
        if cells[i].ch != '\0' {
            out.push(cells[i].ch);
        }
        i += 1;
        assert(out@ =~= old(out)@ + line_text(cells@.take(i as int)));
    }
    assert(cells@.take(i as int) =~= cells@);
}

/// A copy of a line.
fn copied(cells: &[Cell]) -> (r: Vec<Cell>)
    ensures
        r@ == cells@,
{
    let mut out: Vec<Cell> = Vec::new();
    let mut i: usize = 0;
    while i < cells.len()
        invariant
            i <= cells@.len(),
            out@ == cells@.take(i as int),
        decreases cells@.len() - i,
    {
        out.push(cells[i]);
        i += 1;
        assert(out@ =~= cells@.take(i as int));
    }
    assert(out@ =~= cells@);
    out
}

/// While the view follows the tail, a new line leaves it following, with the
/// last line in view.
pub proof fn lemma_autoscroll_holds_at_bottom(s: Scrollback, cells: Seq<Cell>)
    requires
        s.wf(),
        s.follow,
    ensures
        s.pushed(cells).follow,
        s.pushed(cells).top < s.pushed(cells).shown_lines().len() <= s.pushed(cells).top + s.pushed(
            cells,
        ).page(),
        s.pushed(cells).lines.last() == normalized(cells),
{
}

/// A new line does not yank a reader who has scrolled back: the view does not
/// start to follow, and the lines in view stay in view at the same rows, as
/// far as the scrollback still holds them.
pub proof fn lemma_reader_keeps_their_place(s: Scrollback, cells: Seq<Cell>, row: int)
    requires
        s.wf(),
        !s.follow,
        0 <= row,
        s.top + row < s.lines.len(),
    ensures
        !s.pushed(cells).follow,
        s.top > 0 || s.lines.len() < s.max_lines ==> s.pushed(cells).lines[s.pushed(cells).top
            + row] == s.lines[s.top + row],
{
    let grown = Scrollback { lines: s.lines.push(normalized(cells)), ..s };
    assert(grown.excess() <= 1);
}

/// The scrollback holds the newest lines, at most as many as its limit.
pub proof fn lemma_cap_drops_oldest(s: Scrollback, cells: Seq<Cell>)
    requires
        s.wf(),
    ensures
        s.pushed(cells).lines == if s.lines.len() < s.max_lines {
            s.lines.push(normalized(cells))
        } else {
            s.lines.skip(1).push(normalized(cells))
        },
        s.pushed(cells).lines.len() <= s.max_lines,
{
    let all = s.lines.push(normalized(cells));
    if s.lines.len() < s.max_lines {
        assert(all.skip(0) =~= all);
    } else {
        assert(all.skip(1) =~= s.lines.skip(1).push(normalized(cells)));
    }
}

/// Scrolling back releases autoscroll, End re-arms it, and so does scrolling
/// down to the last page.
pub proof fn lemma_scrolling_releases_and_end_rearms(s: Scrollback, n: nat)
    requires
        s.wf(),
    ensures
        !s.scrolled_up(n).follow,
        s.after_key(Key::End).follow,
        s.scrolled_up(n).after_key(Key::End) == s.at_bottom(),
        s.scrolled_up(n).scrolled_down(n).follow <==> s.scrolled_up(n).scrolled_down(n).top
            == s.max_top(),
{
}

/// After a resize a full page is in view, or all lines if they are fewer.
pub proof fn lemma_resize_shows_a_full_page(s: Scrollback, bounds: Rect)
    requires
        s.wf(),
    ensures
        ({
            let r = s.resized(bounds);
            &&& r.top <= r.max_top()
            &&& r.shown_lines().len() >= r.page() ==> r.top + r.page() <= r.shown_lines().len()
            &&& r.shown_lines().len() < r.page() ==> r.top == 0
        }),
{
}

/// Replacing the line still streaming in forgets what it was before.
pub proof fn lemma_partial_is_replaced(s: Scrollback, first: Seq<Cell>, second: Seq<Cell>)
    ensures
        s.with_partial(first).with_partial(second) == s.with_partial(second),
{
}

/// Completed lines and the line still streaming in do not disturb each other:
/// they can come in either order.
pub proof fn lemma_partial_stands_apart(s: Scrollback, partial: Seq<Cell>, line: Seq<Cell>)
    requires
        s.wf(),
    ensures
        s.with_partial(partial).pushed(line) == s.pushed(line).with_partial(partial),
        s.pushed(line).wf(),
        s.with_partial(partial).wf(),
{
    assert(s.with_partial(partial).pushed(line) =~= s.pushed(line).with_partial(partial));
}

impl Scrollback {
    /// The transcript of `before` is intact: its lines are still there, in
    /// front of any new ones, but for the oldest of them where the scrollback
    /// is full.
    pub open spec fn keeps(self, before: Scrollback) -> bool {
        &&& self.max_lines == before.max_lines
        &&& self.lines.len() <= self.max_lines
        &&& exists|gone: int| #[trigger] self.keeps_but(before, gone)
    }

    /// All lines of `before` but the `gone` oldest are there.
    pub open spec fn keeps_but(self, before: Scrollback, gone: int) -> bool {
        &&& 0 <= gone <= before.lines.len()
        &&& before.lines.skip(gone).is_prefix_of(self.lines)
        &&& gone > 0 ==> self.lines.len() == self.max_lines
    }
}

/// New lines and a new partial line leave the transcript intact.
pub proof fn lemma_new_lines_keep_the_transcript(s: Scrollback, cells: Seq<Cell>)
    requires
        s.wf(),
    ensures
        s.keeps(s),
        s.pushed(cells).keeps(s),
        s.with_partial(cells).keeps(s),
{
    assert(s.lines.skip(0) =~= s.lines);
    assert(s.keeps_but(s, 0));
    assert(s.with_partial(cells).keeps_but(s, 0));
    lemma_cap_drops_oldest(s, cells);
    let gone: int = if s.lines.len() < s.max_lines {
        0
    } else {
        1
    };
    assert(s.lines.skip(gone).is_prefix_of(s.pushed(cells).lines));
    assert(s.pushed(cells).keeps_but(s, gone));
}

/// A transcript kept twice over is kept.
pub proof fn lemma_keeping_is_transitive(a: Scrollback, b: Scrollback, c: Scrollback)
    requires
        b.keeps(a),
        c.keeps(b),
    ensures
        c.keeps(a),
{
    let first = choose|gone: int| #[trigger] b.keeps_but(a, gone);
    let second = choose|gone: int| #[trigger] c.keeps_but(b, gone);
    if first + second <= a.lines.len() {
        let kept = a.lines.skip(first + second);
        assert forall|i: int| 0 <= i < kept.len() implies kept[i] == c.lines[i] by {
            assert(a.lines.skip(first)[second + i] == b.lines[second + i]);
            assert(b.lines.skip(second)[i] == c.lines[i]);
        }
        assert(kept =~= c.lines.subrange(0, kept.len() as int));
        assert(c.keeps_but(a, first + second));
    } else {
        assert(a.lines.skip(a.lines.len() as int).is_prefix_of(c.lines));
        assert(c.keeps_but(a, a.lines.len() as int));
    }
}

/// The lines of a view are the completed ones, oldest first, and behind them
/// the one still streaming in, if there is one.
pub proof fn lemma_all_lines(s: Scrollback)
    ensures
        s.shown_lines() == s.lines + match s.partial {
            Some(p) => seq![p],
            None => Seq::empty(),
        },
{
    assert(s.shown_lines() =~= s.lines + match s.partial {
        Some(p) => seq![p],
        None => Seq::empty(),
    });
}

/// What is on the screen at a row is the line scrolled there: row `r` shows
/// the line `top + r` from column `left` on, the line still streaming in
/// counted as the last one, and blanks where there is no line or it has ended.
pub proof fn lemma_row_shows_the_line_scrolled_there(s: Scrollback, row: int, column: int)
    requires
        0 <= row < s.painted_rows().len(),
        0 <= column < s.painted_rows()[row].len(),
    ensures
        s.painted_rows().len() == s.bounds.b.y - s.bounds.a.y,
        s.painted_rows()[row].len() == s.bounds.b.x - s.bounds.a.x,
        ({
            let line = s.top + row;
            let cell = s.painted_rows()[row][column];
            let blank = Cell {
                ch: ' ',
                attr: Attr { fg: TvColor::LightGray, bg: TvColor::Black },
            };
            &&& line < s.lines.len() && s.left + column < s.lines[line].len() ==> cell
                == s.lines[line][s.left + column]
            &&& line < s.lines.len() && s.left + column >= s.lines[line].len() ==> cell == blank
            &&& line == s.lines.len() && s.partial is Some && s.left + column
                < s.partial->Some_0.len() ==> cell == s.partial->Some_0[s.left + column]
            &&& line == s.lines.len() && s.partial is Some && s.left + column
                >= s.partial->Some_0.len() ==> cell == blank
            &&& line == s.lines.len() && s.partial is None ==> cell == blank
            &&& line > s.lines.len() ==> cell == blank
        }),
{
}

/// While a view follows the tail, the newest line is on the screen: on the
/// last row, or on the row behind the other lines where they do not fill it.
pub proof fn lemma_newest_line_is_painted(s: Scrollback, newest: Seq<Cell>, column: int)
    requires
        s.wf(),
        s.follow,
        s.bounds.b.y - s.bounds.a.y >= 1,
        0 <= column < s.bounds.b.x - s.bounds.a.x,
        s.partial == Some(newest) || (s.partial is None && s.lines.len() > 0 && s.lines.last()
            == newest),
    ensures
        ({
            let count = s.lines.len() + if s.partial is Some {
                1int
            } else {
                0
            };
            let height = s.bounds.b.y - s.bounds.a.y;
            let row = if count < height {
                count - 1
            } else {
                height - 1
            };
            &&& row < s.painted_rows().len()
            &&& s.painted_rows()[row].len() == s.bounds.b.x - s.bounds.a.x
            &&& s.left + column < newest.len() ==> s.painted_rows()[row][column]
                == newest[s.left + column]
        }),
{
}

/// Scrolling moves what is on the screen: one line up moves every row down by
/// one, and one line down moves every row up by one, as far as there are
/// lines to scroll to.
pub proof fn lemma_scrolling_moves_the_rows(s: Scrollback, row: int)
    requires
        s.wf(),
        0 <= row,
        row + 1 < s.painted_rows().len(),
    ensures
        s.top > 0 ==> s.scrolled_up(1).painted_rows()[row + 1] == s.painted_rows()[row],
        s.top + (s.bounds.b.y - s.bounds.a.y) < s.lines.len() ==> s.scrolled_down(
            1,
        ).painted_rows()[row] == s.painted_rows()[row + 1],
        s.after_key(Key::Up).painted_rows() == s.scrolled_up(1).painted_rows(),
        s.after_key(Key::Down).painted_rows() == s.scrolled_down(1).painted_rows(),
{
    if s.top > 0 {
        assert(s.scrolled_up(1).painted_rows()[row + 1] =~= s.painted_rows()[row]);
    }
    if s.top + (s.bounds.b.y - s.bounds.a.y) < s.lines.len() {
        assert(s.scrolled_down(1).painted_rows()[row] =~= s.painted_rows()[row + 1]);
    }
}

/// Where each key takes the reader, in lines: a line or a page up, but not
/// above the first line; a line or a page down, but not beyond the last page;
/// to the first line; or to the last page. Only the last page is followed, and
/// nothing but the place changes.
pub proof fn lemma_where_the_keys_lead(s: Scrollback, n: nat)
    requires
        s.wf(),
    ensures
        ({
            let count = s.lines.len() + if s.partial is Some {
                1int
            } else {
                0
            };
            let height = s.bounds.b.y - s.bounds.a.y;
            let page = if height > 1 {
                height
            } else {
                1
            };
            let last = if count > page {
                count - page
            } else {
                0
            };
            let up = if s.top > n {
                s.top - n
            } else {
                0
            };
            let down = if s.top + n < last {
                s.top as int + n
            } else {
                last
            };
            &&& s.max_top() == last
            &&& s.page() == page
            &&& s.scrolled_up(n) == (Scrollback { top: up as nat, follow: false, ..s })
            &&& s.scrolled_down(n) == (Scrollback { top: down as nat, follow: down == last, ..s })
            &&& s.at_top() == (Scrollback { top: 0, follow: false, ..s })
            &&& s.at_bottom() == (Scrollback { top: last as nat, follow: true, ..s })
            &&& n == 1 ==> s.after_key(Key::Up) == s.scrolled_up(n)
            &&& n == 1 ==> s.after_key(Key::Down) == s.scrolled_down(n)
            &&& n == page ==> s.after_key(Key::PageUp) == s.scrolled_up(n)
            &&& n == page ==> s.after_key(Key::PageDown) == s.scrolled_down(n)
            &&& s.after_key(Key::Home) == s.at_top()
            &&& s.after_key(Key::End) == s.at_bottom()
            &&& s.after_key(Key::Other) == s
        }),
{
}

/// A new line is laid out and put behind the others. The oldest line makes
/// room for it where the scrollback is full, and only then; and the reader
/// stays at the line they were at, or at the end if they follow it.
pub proof fn lemma_new_line_comes_last(s: Scrollback, cells: Seq<Cell>)
    requires
        s.wf(),
    ensures
        ({
            let after = s.pushed(cells);
            let full = s.lines.len() == s.max_lines;
            &&& after.lines == (if full {
                s.lines.skip(1)
            } else {
                s.lines
            }).push(normalized(cells))
            &&& after.partial == s.partial
            &&& after.bounds == s.bounds
            &&& after.max_lines == s.max_lines
            &&& after.left == s.left
            &&& after.follow == s.follow
            &&& after.selected == s.selected
            &&& !s.follow ==> after.top == if full && s.top > 0 {
                s.top - 1
            } else {
                s.top as int
            }
            &&& s.follow ==> after.top == after.at_bottom().top
        }),
{
    lemma_cap_drops_oldest(s, cells);
}

/// The line still streaming in is what was last put there, laid out, or none
/// where nothing is left of it. The lines before it stay.
pub proof fn lemma_partial_line_is_shown_last(s: Scrollback, cells: Seq<Cell>)
    requires
        s.wf(),
    ensures
        ({
            let after = s.with_partial(cells);
            &&& after.lines == s.lines
            &&& normalized(cells).len() > 0 ==> after.partial == Some(normalized(cells))
            &&& normalized(cells).len() == 0 ==> after.partial is None
            &&& normalized(cells).len() > 0 ==> after.shown_lines() == s.lines.push(
                normalized(cells),
            )
            &&& normalized(cells).len() == 0 ==> after.shown_lines() == s.lines
            &&& after == Scrollback { partial: after.partial, top: after.top, ..s }
            &&& !s.follow ==> after.top == s.top
            &&& s.follow ==> after.top == after.at_bottom().top
        }),
{
}

/// A smaller limit leaves the newest lines, and the reader at the line they
/// were at as far as it is still there.
pub proof fn lemma_limit_leaves_the_newest(s: Scrollback, n: nat)
    requires
        s.wf(),
    ensures
        ({
            let limit = if n > 1 {
                n as int
            } else {
                1
            };
            let gone = if s.lines.len() > limit {
                s.lines.len() - limit
            } else {
                0
            };
            s.limited(n) == (Scrollback {
                lines: s.lines.skip(gone),
                max_lines: limit as nat,
                top: (if s.top > gone {
                    s.top - gone
                } else {
                    0
                }) as nat,
                ..s
            })
        }),
{
}

/// Clearing a view leaves nothing in it but its place on the screen and its
/// limit, and it follows the tail again.
pub proof fn lemma_clearing_leaves_nothing(s: Scrollback)
    ensures
        s.cleared().lines.len() == 0,
        s.cleared().partial is None,
        s.cleared().top == 0,
        s.cleared().left == 0,
        s.cleared().follow,
        !s.cleared().selected,
        s.cleared().bounds == s.bounds,
        s.cleared().max_lines == s.max_lines,
        joined(s.cleared().shown_lines()).len() == 0,
{
}

/// A resize changes the bounds and, at most, the place: the lines stay, the
/// view goes on following the tail or not as before, and a reader who fits a
/// full page below their place keeps it.
pub proof fn lemma_resize_keeps_the_place(s: Scrollback, bounds: Rect)
    requires
        s.wf(),
    ensures
        ({
            let after = s.resized(bounds);
            &&& after == Scrollback { bounds, top: after.top, ..s }
            &&& s.follow ==> after.top == after.at_bottom().top
            &&& !s.follow && s.top <= after.at_bottom().top ==> after.top == s.top
            &&& !s.follow && s.top > after.at_bottom().top ==> after.top == after.at_bottom().top
        }),
{
}

/// The text of a view is that of its lines with a newline between two of them:
/// a line more adds a newline and its text, and the first adds its text alone.
pub proof fn lemma_text_line_by_line(lines: Seq<Seq<Cell>>, line: Seq<Cell>)
    ensures
        joined(Seq::empty()) == Seq::<char>::empty(),
        lines.len() == 0 ==> joined(lines.push(line)) == line_text(line),
        lines.len() > 0 ==> joined(lines.push(line)) == joined(lines) + seq!['\n'] + line_text(line),
{
    let all = lines.push(line);
    assert(all.drop_last() =~= lines);
    assert(lines.len() > 0 ==> joined(lines).push('\n') + line_text(line) =~= joined(lines)
        + seq!['\n'] + line_text(line));
}

/// The text of a line is its characters in order, the spacers left out.
pub proof fn lemma_text_cell_by_cell(cells: Seq<Cell>, cell: Cell)
    ensures
        line_text(Seq::empty()) == Seq::<char>::empty(),
        cell.ch != '\0' ==> line_text(cells.push(cell)) == line_text(cells).push(cell.ch),
        cell.ch == '\0' ==> line_text(cells.push(cell)) == line_text(cells),
{
    assert(cells.push(cell).drop_last() =~= cells);
}

/// A line is laid out character by character: one that neither a selector nor
/// a spacer stands behind takes its own cell and a spacer in its colours for
/// each column beyond the first, or nothing where it takes no column.
pub proof fn lemma_layout_of_a_character(cells: Seq<Cell>)
    requires
        cells.len() > 0,
        cells[0].ch != '\0',
        cells.len() > 1 ==> cells[1].ch != '\0' && cells[1].ch != '\u{FE0F}' && cells[1].ch
            != '\u{FE0E}',
    ensures
        ({
            let rest = normalized(cells.skip(1));
            let columns = match char_columns(cells[0].ch) {
                Some(n) => n as int,
                None => 0,
            };
            &&& columns == 0 ==> normalized(cells) == rest
            &&& columns > 0 ==> normalized(cells) == seq![cells[0]] + Seq::new(
                (columns - 1) as nat,
                |i: int| Cell { ch: '\0', attr: cells[0].attr },
            ) + rest
        }),
{
    let columns = head_columns(cells);
    lemma_unit_len(cells, columns);
    assert(spacers_at(cells, 1, further_columns(cells, columns)) == 0);
    assert(after_unit(cells) =~= cells.skip(1));
    let rest = normalized(cells.skip(1));
    if columns == 0 {
        assert(first_unit(cells) =~= Seq::<Cell>::empty());
        assert(normalized(cells) =~= rest);
    } else {
        assert(first_unit(cells) =~= seq![cells[0]] + Seq::new(
            (columns - 1) as nat,
            |i: int| Cell { ch: '\0', attr: cells[0].attr },
        ));
    }
}

/// A character and its presentation selector are laid out together, as wide as
/// they are together: both cells stay, but the selector goes where the
/// character takes one column with it and without, and both go where they take
/// none.
pub proof fn lemma_layout_of_a_sequence(cells: Seq<Cell>)
    requires
        cells.len() > 1,
        cells[0].ch != '\0',
        cells[1].ch == '\u{FE0F}' || cells[1].ch == '\u{FE0E}',
        cells.len() > 2 ==> cells[2].ch != '\0',
    ensures
        ({
            let rest = normalized(cells.skip(2));
            let columns = text_columns(seq![cells[0].ch, cells[1].ch]) as int;
            &&& columns == 0 ==> normalized(cells) == rest
            &&& columns == 1 && char_columns(cells[0].ch) == Some(1usize) ==> normalized(cells)
                == seq![cells[0]] + rest
            &&& columns == 1 && char_columns(cells[0].ch) != Some(1usize) ==> normalized(cells)
                == seq![cells[0], cells[1]] + rest
            &&& columns >= 2 ==> normalized(cells) == seq![cells[0], cells[1]] + Seq::new(
                (columns - 2) as nat,
                |i: int| Cell { ch: '\0', attr: cells[0].attr },
            ) + rest
        }),
{
    let columns = head_columns(cells);
    lemma_unit_len(cells, columns);
    assert(spacers_at(cells, 2, further_columns(cells, columns)) == 0);
    assert(after_unit(cells) =~= cells.skip(2));
    let rest = normalized(cells.skip(2));
    if columns == 0 {
        assert(first_unit(cells) =~= Seq::<Cell>::empty());
        assert(normalized(cells) =~= rest);
    } else if columns == 1 {
        if own_columns(cells[0].ch) == 1 {
            assert(first_unit(cells) =~= seq![cells[0]]);
        } else {
            assert(first_unit(cells) =~= seq![cells[0], cells[1]]);
        }
    } else {
        assert(first_unit(cells) =~= seq![cells[0], cells[1]] + Seq::new(
            (columns - 2) as nat,
            |i: int| Cell { ch: '\0', attr: cells[0].attr },
        ));
    }
}

/// A spacer that belongs to no character stays where it is.
pub proof fn lemma_layout_of_a_spacer(cells: Seq<Cell>)
    requires
        cells.len() > 0,
        cells[0].ch == '\0',
    ensures
        normalized(cells) == seq![cells[0]] + normalized(cells.skip(1)),
{
    lemma_unit_len(cells, head_columns(cells));
    assert(after_unit(cells) =~= cells.skip(1));
    assert(first_unit(cells) =~= seq![cells[0]]);
}

/// A new view is empty, follows the tail and holds up to ten thousand lines.
pub proof fn lemma_new_view_is_empty(bounds: Rect)
    ensures
        Scrollback::empty(bounds) == (Scrollback {
            bounds,
            lines: Seq::empty(),
            partial: None,
            max_lines: 10_000,
            top: 0,
            left: 0,
            follow: true,
            selected: false,
        }),
{
}

/// A wide character makes do with the spacers that already stand behind it:
/// where there is one for each of its columns but the first, they and it stay
/// as they are, and the line goes on behind them.
pub proof fn lemma_layout_with_its_spacers(cells: Seq<Cell>, columns: int)
    requires
        1 <= columns <= cells.len(),
        cells[0].ch != '\0',
        char_columns(cells[0].ch) == Some(columns as usize),
        columns <= usize::MAX,
        forall|i: int| 1 <= i < columns ==> (#[trigger] cells[i]).ch == '\0',
        cells.len() > 1 ==> cells[1].ch != '\u{FE0F}' && cells[1].ch != '\u{FE0E}',
    ensures
        normalized(cells) == cells.take(columns) + normalized(cells.skip(columns)),
{
    lemma_unit_len(cells, head_columns(cells));
    lemma_all_spacers_found(cells, 1, (columns - 1) as nat);
    assert(after_unit(cells) =~= cells.skip(columns));
    assert(first_unit(cells) =~= cells.take(columns));
}

/// Lines are looked at one by one, each as the cells it holds.
pub proof fn lemma_line_views(lines: Seq<Vec<Cell>>)
    ensures
        line_views(lines).len() == lines.len(),
        forall|i: int| 0 <= i < lines.len() ==> #[trigger] line_views(lines)[i] == lines[i]@,
{
}

} // verus!
