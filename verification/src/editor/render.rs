//! What a viewport shows: the window asked for and the frame made for it.

use vstd::prelude::*;
use crate::buffer::Point;
use crate::store::{
    in_order, insert_index, lemma_in_order_apart, lemma_in_order_sorted,
    lemma_insert_index_parts, ResolvedSelection,
};
use crate::text::{line_len, max_row, row_start};

verus! {

/// The window to render, in units of height: where it begins below the top of
/// the text, how high it is, and how high one row is.
#[derive(Clone, Copy, Debug, PartialEq, Eq, Structural)]
pub struct Params {
    pub scroll_top: u32,
    pub height: u32,
    pub line_height: u32,
}

/// One rendering of a window: its first row, the text of its rows, and the
/// selections that reach into it.
pub struct Frame {
    pub first_visible_row: u32,
    pub lines: Vec<Vec<u16>>,
    pub selections: Vec<Selection>,
}

/// A selection as a frame shows it.
#[derive(Clone, Copy, Debug, PartialEq, Eq, Structural)]
pub struct Selection {
    pub start: Point,
    pub end: Point,
    pub reversed: bool,
}

/// What a frame shows of a selection.
pub open spec fn rendered(selection: ResolvedSelection) -> Selection {
    Selection { start: selection.start, end: selection.end, reversed: selection.reversed }
}

/// Where the window begins: at `scroll_top`, but not below the top of the
/// last row.
pub open spec fn clamped_top(params: Params, last_row: int) -> int {
    if params.scroll_top <= last_row * params.line_height {
        params.scroll_top as int
    } else {
        last_row * params.line_height
    }
}

/// The row in which the window begins.
pub open spec fn first_visible_row(params: Params, last_row: int) -> int {
    clamped_top(params, last_row) / (params.line_height as int)
}

/// The row in front of which the window ends: its bottom divided by the
/// height of a row, rounded up, and at most `u32::MAX`.
pub open spec fn end_visible_row(params: Params, last_row: int) -> int {
    let bottom = clamped_top(params, last_row) + params.height;
    let rows = (bottom + params.line_height - 1) / (params.line_height as int);
    if rows <= u32::MAX {
        rows
    } else {
        u32::MAX as int
    }
}

/// The rows of a window over a text whose last row is `last_row`: the first
/// one, and the one in front of which it ends.
pub fn visible_rows(params: Params, last_row: u32) -> (rows: (u32, u32))
    requires
        params.line_height > 0,
    ensures
        rows.0 == first_visible_row(params, last_row as int),
        rows.1 == end_visible_row(params, last_row as int),
        rows.0 <= last_row,
        rows.0 <= rows.1,
{
    let line_height: u64 = params.line_height as u64;
    assert(last_row * line_height <= 0xffff_ffff * 0xffff_ffff) by (nonlinear_arith)
        requires
            0 <= last_row <= 0xffff_ffff,
            0 <= line_height <= 0xffff_ffff,
    ;
    let max_top: u64 = last_row as u64 * line_height;
    let top: u64 = if params.scroll_top as u64 <= max_top {
        params.scroll_top as u64
    } else {
        max_top
    };
    let bottom: u64 = top + params.height as u64;
    let first: u64 = top / line_height;
    let end: u64 = (bottom + line_height - 1) / line_height;
    assert(first <= last_row && first <= end) by (nonlinear_arith)
        requires
            0 <= top <= last_row * line_height,
            top <= bottom,
            line_height > 0,
            first == top / line_height,
            end == (bottom + line_height - 1) / (line_height as int),
    ;
    (first as u32, if end <= 0xffff_ffff { end as u32 } else { 0xffff_ffff })
}

/// The text of row `row`, its newline left out.
pub open spec fn line(text: Seq<u16>, row: int) -> Seq<u16> {
    text.subrange(row_start(text, row), row_start(text, row) + line_len(text, row))
}

/// The number of rows from `first` up to `end` that the text has.
pub open spec fn visible_line_count(text: Seq<u16>, first: int, end: int) -> int {
    let stop = if end <= max_row(text) {
        end
    } else {
        max_row(text) + 1
    };
    if stop > first {
        stop - first
    } else {
        0
    }
}

/// The rows from `first` up to `end`, as far as the text has them.
pub open spec fn visible_lines(text: Seq<u16>, first: int, end: int) -> Seq<Seq<u16>> {
    Seq::new(visible_line_count(text, first, end) as nat, |k: int| line(text, first + k))
}

/// The rows that a frame holds, as sequences of code units.
pub open spec fn lines_of(lines: Seq<Vec<u16>>) -> Seq<Seq<u16>> {
    Seq::new(lines.len(), |i: int| lines[i]@)
}

/// A window that begins at the top of row `first` and is `count` rows high,
/// all of them rows of the text, shows just these rows: it begins in row
/// `first`, ends in front of row `first + count`, and holds `count` lines,
/// each the text of its row. The row in front of which it ends must be one
/// that a `u32` can name.
pub proof fn lemma_window_of_whole_rows(text: Seq<u16>, params: Params, first: int, count: int)
    requires
        params.line_height > 0,
        0 <= first <= max_row(text),
        0 <= count,
        first + count <= max_row(text) + 1,
        first + count <= u32::MAX,
        params.scroll_top == first * params.line_height,
        params.height == count * params.line_height,
    ensures
        first_visible_row(params, max_row(text)) == first,
        end_visible_row(params, max_row(text)) == first + count,
        visible_lines(text, first, first + count).len() == count,
        forall|k: int|
            0 <= k < count ==> #[trigger] visible_lines(text, first, first + count)[k] == line(
                text,
                first + k,
            ),
{
    let height = params.line_height as int;
    let last = max_row(text);
    assert(first * height <= last * height) by (nonlinear_arith)
        requires
            0 <= first <= last,
            height > 0,
    ;
    assert((first * height) / height == first) by (nonlinear_arith)
        requires
            height > 0,
    ;
    assert((first * height + count * height + height - 1) / height == first + count)
        by (nonlinear_arith)
        requires
            height > 0,
    ;
}

/// The selection reaches into the stretch from `start` up to `end`: it
/// begins before `end`, and ends behind `start` or is a cursor that lies at
/// or behind `start`.
pub open spec fn visible(selection: ResolvedSelection, start: Point, end: Point) -> bool {
    &&& start.before(selection.end) || start.before_or_at(selection.start)
    &&& selection.start.before(end)
}

/// What a frame shows of the store: the selections that reach into the
/// stretch from `start` up to `end`, in the order of the store.
pub open spec fn visible_selections(store: Seq<ResolvedSelection>, start: Point, end: Point) -> Seq<
    Selection,
>
    decreases store.len(),
{
    if store.len() == 0 {
        Seq::empty()
    } else if visible(store.last(), start, end) {
        visible_selections(store.drop_last(), start, end).push(rendered(store.last()))
    } else {
        visible_selections(store.drop_last(), start, end)
    }
}

/// The whole store as a frame would show it.
pub open spec fn rendered_all(store: Seq<ResolvedSelection>) -> Seq<Selection> {
    Seq::new(store.len(), |i: int| rendered(store[i]))
}

/// Where the visible selections are those from index `low` up to `high`, the
/// frame shows just these.
pub proof fn lemma_visible_range(
    store: Seq<ResolvedSelection>,
    start: Point,
    end: Point,
    low: int,
    high: int,
)
    requires
        0 <= low <= high <= store.len(),
        forall|i: int|
            0 <= i < store.len() ==> (visible(#[trigger] store[i], start, end) <==> low <= i
                < high),
    ensures
        visible_selections(store, start, end) == rendered_all(store.subrange(low, high)),
    decreases store.len(),
{
    if store.len() == 0 {
        assert(rendered_all(store.subrange(low, high)) =~= Seq::empty());
    } else {
        let front = store.drop_last();
        let last = store.len() - 1;
        assert(store.last() == store[last]);
        assert forall|i: int| 0 <= i < front.len() implies front[i] == store[i] by {}
        if visible(store.last(), start, end) {
            lemma_visible_range(front, start, end, low, high - 1);
            assert(rendered_all(front.subrange(low, high - 1)).push(rendered(store.last()))
                =~= rendered_all(store.subrange(low, high)));
        } else if low == high {
            lemma_visible_range(front, start, end, 0, 0);
            assert(rendered_all(front.subrange(0, 0)) =~= rendered_all(
                store.subrange(low, high),
            ));
        } else {
            lemma_visible_range(front, start, end, low, high);
            assert(rendered_all(front.subrange(low, high)) =~= rendered_all(
                store.subrange(low, high),
            ));
        }
    }
}

/// In a store in order the visible selections stand together. They begin
/// with the one in front of the place at which `start` would enter, if that
/// one ends behind `start`, else at that place; they end in front of the
/// first selection that does not begin before `end`.
pub proof fn lemma_visible_bounds(
    store: Seq<ResolvedSelection>,
    start: Point,
    end: Point,
    found: int,
)
    requires
        in_order(store),
        0 <= found <= store.len(),
        forall|i: int| 0 <= i < found ==> (#[trigger] store[i]).start.before(end),
        forall|i: int| found <= i < store.len() ==> !(#[trigger] store[i]).start.before(end),
    ensures
        ({
            let index = insert_index(store, start);
            let low = if index > 0 && start.before(store[index - 1].end) {
                index - 1
            } else {
                index
            };
            let high = if found < low {
                low
            } else {
                found
            };
            &&& 0 <= index <= store.len()
            &&& forall|i: int|
                0 <= i < store.len() ==> (visible(#[trigger] store[i], start, end) <==> low <= i
                    < high)
        }),
{
    let index = insert_index(store, start);
    assert({
        &&& 0 <= index <= store.len()
        &&& forall|i: int| 0 <= i < index ==> (#[trigger] store[i]).start.before(start)
        &&& forall|i: int| index <= i < store.len() ==> !(#[trigger] store[i]).start.before(start)
    }) by {
        lemma_in_order_sorted(store);
        lemma_insert_index_parts(store, start);
    }
    let low = if index > 0 && start.before(store[index - 1].end) {
        index - 1
    } else {
        index
    };
    let high = if found < low {
        low
    } else {
        found
    };
    assert forall|i: int| 0 <= i < store.len() implies
        (visible(#[trigger] store[i], start, end) <==> low <= i < high)
    by {
        assert(store[i].upright());
        if i < index - 1 {
            lemma_in_order_apart(store, i, index - 1);
        }
        if i < index {
            assert(store[i].start.before(start));
        } else {
            assert(!store[i].start.before(start));
        }
    }
}

} // verus!
