//! The steps of a cursor: one place to the left or right, one row up or down.

use vstd::prelude::*;
use crate::buffer::{end_point, lemma_point_at, point_in_bounds, Buffer, Point};
use crate::buffer::MAX_LEN;
use crate::text::{lemma_last_row, lemma_line_len, line_len, max_row};

verus! {

/// The smaller of a column and a row's length.
pub open spec fn clamp_column(column: u32, len: int) -> u32 {
    if column <= len {
        column
    } else {
        len as u32
    }
}

/// The place in front of `point`: the column before it, else the end of the
/// row above, else `point` itself, at the start of the text.
pub open spec fn left_of(text: Seq<u16>, point: Point) -> Point {
    if point.column > 0 {
        Point { row: point.row, column: (point.column - 1) as u32 }
    } else if point.row > 0 {
        Point { row: (point.row - 1) as u32, column: line_len(text, point.row - 1) as u32 }
    } else {
        point
    }
}

/// The place behind `point`: the column after it, else the start of the row
/// below, else `point` itself, at the end of the text.
pub open spec fn right_of(text: Seq<u16>, point: Point) -> Point {
    if point.column < line_len(text, point.row as int) {
        Point { row: point.row, column: (point.column + 1) as u32 }
    } else if point.row < max_row(text) {
        Point { row: (point.row + 1) as u32, column: 0 }
    } else {
        point
    }
}

/// The column that a vertical step from `point` aims at: the remembered one,
/// else the column of `point`.
pub open spec fn goal_of(point: Point, goal_column: Option<u32>) -> u32 {
    match goal_column {
        Some(column) => column,
        None => point.column,
    }
}

/// The place above `point`: the goal column in the row above, as far as that
/// row reaches, else the start of the text.
pub open spec fn above(text: Seq<u16>, point: Point, goal_column: Option<u32>) -> Point {
    if point.row > 0 {
        Point {
            row: (point.row - 1) as u32,
            column: clamp_column(goal_of(point, goal_column), line_len(text, point.row - 1)),
        }
    } else {
        Point { row: 0, column: 0 }
    }
}

/// The place below `point`: the goal column in the row below, as far as that
/// row reaches, else the end of the text.
pub open spec fn below(text: Seq<u16>, point: Point, goal_column: Option<u32>) -> Point {
    if point.row < max_row(text) {
        Point {
            row: (point.row + 1) as u32,
            column: clamp_column(goal_of(point, goal_column), line_len(text, point.row + 1)),
        }
    } else {
        end_point(text)
    }
}

/// The length of a row of the buffer.
fn row_len(buffer: &Buffer, row: u32) -> (len: u32)
    requires
        buffer.wf(),
        row <= max_row(buffer@.text),
    ensures
        len == line_len(buffer@.text, row as int),
{
    match buffer.len_for_row(row) {
        Ok(len) => len,
        Err(_) => 0,
    }
}

/// One place to the left, across the start of a row, not beyond the start of
/// the text.
pub fn left(buffer: &Buffer, point: Point) -> (next: Point)
    requires
        buffer.wf(),
        point_in_bounds(buffer@.text, point),
    ensures
        next == left_of(buffer@.text, point),
        point_in_bounds(buffer@.text, next),
{
    if point.column > 0 {
        Point { row: point.row, column: point.column - 1 }
    } else if point.row > 0 {
        Point { row: point.row - 1, column: row_len(buffer, point.row - 1) }
    } else {
        point
    }
}

/// One place to the right, across the end of a row, not beyond the end of the
/// text.
pub fn right(buffer: &Buffer, point: Point) -> (next: Point)
    requires
        buffer.wf(),
        point_in_bounds(buffer@.text, point),
    ensures
        next == right_of(buffer@.text, point),
        point_in_bounds(buffer@.text, next),
{
    let len = row_len(buffer, point.row);
    proof {
        if point.row < max_row(buffer@.text) {
            lemma_line_len(buffer@.text, point.row + 1);
        }
    }
    if point.column < len {
        Point { row: point.row, column: point.column + 1 }
    } else if point.row < buffer.max_point().row {
        Point { row: point.row + 1, column: 0 }
    } else {
        point
    }
}

/// One row up, to the goal column as far as the row reaches; from the first
/// row to the start of the text. The goal column is handed back for the next
/// step.
pub fn up(buffer: &Buffer, point: Point, goal_column: Option<u32>) -> (next: (Point, Option<u32>))
    requires
        buffer.wf(),
        point_in_bounds(buffer@.text, point),
    ensures
        next.0 == above(buffer@.text, point, goal_column),
        next.1 == Some(goal_of(point, goal_column)),
        point_in_bounds(buffer@.text, next.0),
{
    let goal: u32 = match goal_column {
        Some(column) => column,
        None => point.column,
    };
    if point.row > 0 {
        let len = row_len(buffer, point.row - 1);
        let column: u32 = if goal <= len { goal } else { len };
        (Point { row: point.row - 1, column }, Some(goal))
    } else {
        (Point { row: 0, column: 0 }, Some(goal))
    }
}

/// One row down, to the goal column as far as the row reaches; from the last
/// row to the end of the text. The goal column is handed back for the next
/// step.
pub fn down(buffer: &Buffer, point: Point, goal_column: Option<u32>) -> (next: (
    Point,
    Option<u32>,
))
    requires
        buffer.wf(),
        point_in_bounds(buffer@.text, point),
    ensures
        next.0 == below(buffer@.text, point, goal_column),
        next.1 == Some(goal_of(point, goal_column)),
        point_in_bounds(buffer@.text, next.0),
{
    let goal: u32 = match goal_column {
        Some(column) => column,
        None => point.column,
    };
    let max_point = buffer.max_point();
    if point.row < max_point.row {
        let len = row_len(buffer, point.row + 1);
        let column: u32 = if goal <= len { goal } else { len };
        (Point { row: point.row + 1, column }, Some(goal))
    } else {
        (max_point, Some(goal))
    }
}

/// A step to the left from the start of the text, and one to the right from
/// its end, stay where they are.
pub proof fn lemma_steps_stop_at_the_ends(text: Seq<u16>)
    requires
        text.len() <= MAX_LEN,
    ensures
        left_of(text, Point { row: 0, column: 0 }) == (Point { row: 0, column: 0 }),
        right_of(text, end_point(text)) == end_point(text),
{
    lemma_point_at(text, text.len() as int);
    lemma_last_row(text);
}

/// A step down and then up comes back to where it began, whatever the length
/// of the row below, and so does a step up and then down; the goal column is
/// the column it began at.
pub proof fn lemma_down_then_up_returns(text: Seq<u16>, point: Point)
    requires
        text.len() <= MAX_LEN,
        point_in_bounds(text, point),
    ensures
        point.row < max_row(text) ==> above(
            text,
            below(text, point, None),
            Some(goal_of(point, None)),
        ) == point,
        point.row > 0 ==> below(text, above(text, point, None), Some(goal_of(point, None)))
            == point,
{
    lemma_last_row(text);
}

/// Vertical steps keep a goal column once it is set: it is handed back
/// unchanged, and a row long enough is entered at that column.
pub proof fn lemma_goal_column_persists(text: Seq<u16>, point: Point, goal: u32)
    ensures
        goal_of(point, Some(goal)) == goal,
        point.row > 0 && goal <= line_len(text, point.row - 1) ==> above(
            text,
            point,
            Some(goal),
        ).column == goal,
        point.row < max_row(text) && goal <= line_len(text, point.row + 1) ==> below(
            text,
            point,
            Some(goal),
        ).column == goal,
{
}

} // verus!
