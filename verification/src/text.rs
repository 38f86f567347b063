//! The geometry of a text held as UTF-16 code units: how offsets into the text
//! correspond to rows and columns.

use vstd::prelude::*;
use vstd::std_specs::iter::IteratorSpec;

verus! {

/// The code unit that ends a row.
pub const NEWLINE: u16 = 10;

/// The row that holds offset `off`: the number of newlines in front of it.
pub open spec fn row_at(text: Seq<u16>, off: int) -> int
    decreases off,
{
    if off <= 0 {
        0
    } else {
        row_at(text, off - 1) + if text[off - 1] == NEWLINE { 1int } else { 0int }
    }
}

/// The offset at which the row that holds offset `off` begins.
pub open spec fn line_start(text: Seq<u16>, off: int) -> int
    decreases off,
{
    if off <= 0 {
        0
    } else if text[off - 1] == NEWLINE {
        off
    } else {
        line_start(text, off - 1)
    }
}

/// The offset at which the row that holds offset `off` ends: that of the next
/// newline at or after `off`, or the length of the text.
pub open spec fn line_end(text: Seq<u16>, off: int) -> int
    decreases text.len() - off,
{
    if off >= text.len() {
        text.len() as int
    } else if off >= 0 && text[off] == NEWLINE {
        off
    } else {
        line_end(text, off + 1)
    }
}

/// The last row of the text.
pub open spec fn max_row(text: Seq<u16>) -> int {
    row_at(text, text.len() as int)
}

/// The offset at which row `row` begins.
pub open spec fn row_start(text: Seq<u16>, row: int) -> int
    decreases row,
{
    if row <= 0 {
        0
    } else {
        line_end(text, row_start(text, row - 1)) + 1
    }
}

/// The number of code units in row `row`, its newline not counted.
pub open spec fn line_len(text: Seq<u16>, row: int) -> int {
    line_end(text, row_start(text, row)) - row_start(text, row)
}

/// No newline stands at the offsets from `from` up to `to`.
pub open spec fn no_newline(text: Seq<u16>, from: int, to: int) -> bool {
    forall|k: int| from <= k < to ==> text[k] != NEWLINE
}

pub proof fn lemma_row_at_bounds(text: Seq<u16>, off: int)
    ensures
        0 <= row_at(text, off),
        off >= 0 ==> row_at(text, off) <= off,
        off <= 0 ==> row_at(text, off) == 0,
    decreases off,
{
    if off > 0 {
        lemma_row_at_bounds(text, off - 1);
    }
}

pub proof fn lemma_row_at_monotone(text: Seq<u16>, a: int, b: int)
    requires
        a <= b,
    ensures
        row_at(text, a) <= row_at(text, b),
    decreases b - a,
{
    if a < b {
        lemma_row_at_monotone(text, a, b - 1);
        lemma_row_at_bounds(text, b - 1);
    }
}


/// What the start of a row is: nothing but the row's own text lies between it
/// and any offset of the row.
pub proof fn lemma_line_start(text: Seq<u16>, off: int)
    requires
        0 <= off,
    ensures
        0 <= line_start(text, off) <= off,
        no_newline(text, line_start(text, off), off),
        row_at(text, line_start(text, off)) == row_at(text, off),
        line_start(text, line_start(text, off)) == line_start(text, off),
        line_start(text, off) == 0 || text[line_start(text, off) - 1] == NEWLINE,
    decreases off,
{
    if off > 0 && text[off - 1] != NEWLINE {
        lemma_line_start(text, off - 1);
    }
}

/// Offsets with no newline between them lie in the same row.
pub proof fn lemma_same_row(text: Seq<u16>, a: int, b: int)
    requires
        0 <= a <= b,
        no_newline(text, a, b),
    ensures
        row_at(text, a) == row_at(text, b),
        line_start(text, a) == line_start(text, b),
    decreases b - a,
{
    if a < b {
        lemma_same_row(text, a, b - 1);
    }
}

/// What the end of a row is: the first newline at or after the offset, or the
/// end of the text.
pub proof fn lemma_line_end(text: Seq<u16>, off: int)
    requires
        0 <= off <= text.len(),
    ensures
        off <= line_end(text, off) <= text.len(),
        no_newline(text, off, line_end(text, off)),
        line_end(text, off) == text.len() || text[line_end(text, off)] == NEWLINE,
    decreases text.len() - off,
{
    if off < text.len() && text[off] != NEWLINE {
        lemma_line_end(text, off + 1);
    }
}

/// The end of a row is the only offset that a newline-free stretch reaches
/// and that is followed by a newline or by nothing.
pub proof fn lemma_line_end_is(text: Seq<u16>, off: int, end: int)
    requires
        0 <= off <= end <= text.len(),
        no_newline(text, off, end),
        end == text.len() || text[end] == NEWLINE,
    ensures
        line_end(text, off) == end,
    decreases end - off,
{
    if off < end {
        lemma_line_end_is(text, off + 1, end);
    }
}

/// Every row up to the last one begins inside the text, at an offset that is
/// the first of that row.
pub proof fn lemma_row_start(text: Seq<u16>, row: int)
    requires
        0 <= row <= max_row(text),
    ensures
        0 <= row_start(text, row) <= text.len(),
        row_at(text, row_start(text, row)) == row,
        line_start(text, row_start(text, row)) == row_start(text, row),
    decreases row,
{
    if row > 0 {
        lemma_row_start(text, row - 1);
        let start = row_start(text, row - 1);
        let end = line_end(text, start);
        lemma_line_end(text, start);
        lemma_same_row(text, start, end);
        if end == text.len() {
            assert(row_at(text, end) == max_row(text));
        }
    }
}

/// The row that holds an offset begins where the row of that number begins.
pub proof fn lemma_line_start_is_row_start(text: Seq<u16>, off: int)
    requires
        0 <= off <= text.len(),
    ensures
        line_start(text, off) == row_start(text, row_at(text, off)),
    decreases off,
{
    if off > 0 {
        lemma_line_start_is_row_start(text, off - 1);
        if text[off - 1] == NEWLINE {
            lemma_line_start(text, off - 1);
            lemma_line_end_is(text, line_start(text, off - 1), off - 1);
            lemma_row_at_bounds(text, off - 1);
        }
    }
}

/// The column of offset `off` in its row.
pub open spec fn column_at(text: Seq<u16>, off: int) -> int {
    off - line_start(text, off)
}

/// The offset of column `column` of row `row`.
pub open spec fn offset_at(text: Seq<u16>, row: int, column: int) -> int {
    row_start(text, row) + column
}

/// Row `row` exists and has a column `column`, which may be the one behind
/// its last code unit.
pub open spec fn in_bounds(text: Seq<u16>, row: int, column: int) -> bool {
    0 <= row <= max_row(text) && 0 <= column <= line_len(text, row)
}

/// The row and column of an offset of the text are in bounds and lead back to
/// the offset.
pub proof fn lemma_position_of_offset(text: Seq<u16>, off: int)
    requires
        0 <= off <= text.len(),
    ensures
        in_bounds(text, row_at(text, off), column_at(text, off)),
        offset_at(text, row_at(text, off), column_at(text, off)) == off,
{
    lemma_row_at_bounds(text, off);
    lemma_row_at_monotone(text, off, text.len() as int);
    lemma_line_start(text, off);
    lemma_line_start_is_row_start(text, off);
    let start = line_start(text, off);
    lemma_line_end(text, off);
    lemma_line_end_is(text, start, line_end(text, off));
}

/// A row and column in bounds have an offset in the text, which leads back to
/// them.
pub proof fn lemma_offset_of_position(text: Seq<u16>, row: int, column: int)
    requires
        in_bounds(text, row, column),
    ensures
        0 <= offset_at(text, row, column) <= text.len(),
        row_at(text, offset_at(text, row, column)) == row,
        column_at(text, offset_at(text, row, column)) == column,
{
    lemma_row_start(text, row);
    let start = row_start(text, row);
    lemma_line_end(text, start);
    lemma_same_row(text, start, start + column);
}

/// Offsets and positions are ordered alike: a later offset lies in a later
/// row, or in the same row at a later column.
pub proof fn lemma_positions_ordered(text: Seq<u16>, a: int, b: int)
    requires
        0 <= a <= b <= text.len(),
    ensures
        row_at(text, a) <= row_at(text, b),
        row_at(text, a) == row_at(text, b) ==> column_at(text, b) - column_at(text, a) == b - a,
{
    lemma_row_at_monotone(text, a, b);
    lemma_line_start_is_row_start(text, a);
    lemma_line_start_is_row_start(text, b);
}


/// A row of the text has a length, which the text can hold.
pub proof fn lemma_line_len(text: Seq<u16>, row: int)
    requires
        0 <= row <= max_row(text),
    ensures
        0 <= line_len(text, row),
        row_start(text, row) + line_len(text, row) <= text.len(),
{
    lemma_row_start(text, row);
    lemma_line_end(text, row_start(text, row));
}

/// The end of the text is the end of its last row.
pub proof fn lemma_last_row(text: Seq<u16>)
    ensures
        0 <= max_row(text) <= text.len(),
        column_at(text, text.len() as int) == line_len(text, max_row(text)),
{
    let len = text.len() as int;
    lemma_row_at_bounds(text, len);
    lemma_line_start(text, len);
    lemma_line_start_is_row_start(text, len);
    lemma_line_end_is(text, line_start(text, len), len);
}

/// The UTF-16 code units of one character: itself where it fits in sixteen
/// bits, else a high and a low surrogate.
pub open spec fn utf16_of_char(c: char) -> Seq<u16> {
    let code = c as u32;
    if code < 0x1_0000 {
        seq![code as u16]
    } else {
        let rest = code - 0x1_0000;
        seq![(0xD800 + rest / 0x400) as u16, (0xDC00 + rest % 0x400) as u16]
    }
}

/// The UTF-16 code units of a string, character by character.
pub open spec fn utf16_of(chars: Seq<char>) -> Seq<u16>
    decreases chars.len(),
{
    if chars.len() == 0 {
        Seq::empty()
    } else {
        utf16_of_char(chars[0]) + utf16_of(chars.drop_first())
    }
}

/// Encodes a string as UTF-16.
pub fn encode_utf16(text: &str) -> (units: Vec<u16>)
    ensures
        units@ == utf16_of(text@),
{
    broadcast use {vstd::string::axiom_spec_iter, vstd::string::next_postcondition};

    let mut units: Vec<u16> = Vec::new();
    let mut chars = text.chars();
    loop
        invariant
            chars.decrease() is Some,
            units@ + utf16_of(chars.remaining()) == utf16_of(text@),
        decreases chars.decrease()->0,
    {
        let ghost before = chars.remaining();
        match chars.next() {
            None => {
                assert(units@ + Seq::<u16>::empty() =~= units@);
                return units;
            },
            Some(c) => {
                let ghost prefix = units@;
                let code: u32 = c as u32;
                if code < 0x1_0000 {
                    units.push(code as u16);
                } else {
                    let rest: u32 = code - 0x1_0000;
                    units.push((0xD800 + rest / 0x400) as u16);
                    units.push((0xDC00 + rest % 0x400) as u16);
                }
                assert(units@ =~= prefix + utf16_of_char(c));
                assert(units@ + utf16_of(chars.remaining()) =~= prefix + utf16_of(before));
            },
        }
    }
}

} // verus!
