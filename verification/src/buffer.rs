//! A text buffer with a history of edits, and anchors: positions that keep
//! their place in the text while it is edited.

use vstd::prelude::*;
use core::cmp::Ordering;
use crate::text::{
    column_at, encode_utf16, in_bounds, lemma_line_end, lemma_line_end_is, lemma_line_start,
    lemma_line_start_is_row_start, lemma_offset_of_position, lemma_position_of_offset,
    lemma_positions_ordered, lemma_row_at_bounds, lemma_row_at_monotone,
    lemma_same_row, line_end, line_len, line_start, max_row, no_newline, offset_at, row_at,
    row_start, utf16_of, NEWLINE,
};

verus! {

/// The longest text that a buffer holds, so that every row and column fits in
/// a `u32`.
pub const MAX_LEN: usize = 0xffff_ffff;

/// A row and a column of the text. Points are ordered by row, then by column.
#[derive(Clone, Copy, Debug, PartialEq, Eq, Structural)]
pub struct Point {
    pub row: u32,
    pub column: u32,
}

impl Point {
    /// The point at a row and a column.
    pub fn new(row: u32, column: u32) -> (point: Point)
        ensures
            point == (Point { row, column }),
    {
        Point { row, column }
    }

    /// `self` comes strictly before `other`.
    pub open spec fn before(self, other: Point) -> bool {
        self.row < other.row || (self.row == other.row && self.column < other.column)
    }

    /// `self` comes before `other` or is `other`.
    pub open spec fn before_or_at(self, other: Point) -> bool {
        self.row < other.row || (self.row == other.row && self.column <= other.column)
    }

    /// The later of two points.
    pub open spec fn later(self, other: Point) -> Point {
        if self.before(other) {
            other
        } else {
            self
        }
    }

    /// Whether `self` comes strictly before `other`.
    pub fn lt(&self, other: &Point) -> (r: bool)
        ensures
            r == self.before(*other),
    {
        self.row < other.row || (self.row == other.row && self.column < other.column)
    }

    /// Whether `self` comes before `other` or is `other`.
    pub fn le(&self, other: &Point) -> (r: bool)
        ensures
            r == self.before_or_at(*other),
    {
        self.row < other.row || (self.row == other.row && self.column <= other.column)
    }
}

/// The point at which offset `off` of `text` lies.
pub open spec fn point_at(text: Seq<u16>, off: int) -> Point {
    Point { row: row_at(text, off) as u32, column: column_at(text, off) as u32 }
}

/// `point` names a place in `text`.
pub open spec fn point_in_bounds(text: Seq<u16>, point: Point) -> bool {
    in_bounds(text, point.row as int, point.column as int)
}

/// The offset of `point` in `text`.
pub open spec fn offset_of_point(text: Seq<u16>, point: Point) -> int {
    offset_at(text, point.row as int, point.column as int)
}

/// The last point of `text`.
pub open spec fn end_point(text: Seq<u16>) -> Point {
    point_at(text, text.len() as int)
}

/// Why a request to a buffer failed.
#[derive(Clone, Copy, Debug, PartialEq, Eq, Structural)]
pub enum Error {
    /// An offset, a row or a point lies outside the text.
    OffsetOutOfRange,
    /// An anchor was not made by this buffer.
    InvalidAnchor,
    /// An edit would make the text longer than `MAX_LEN`.
    TextTooLong,
}

/// The side to which an anchor keeps when text is inserted at its place.
#[derive(Clone, Copy, Debug, PartialEq, Eq, Structural)]
pub enum Bias {
    /// The anchor stays in front of the inserted text.
    Left,
    /// The anchor moves behind the inserted text.
    Right,
}

/// The number of edits that a buffer has seen.
#[derive(Clone, Copy, Debug, PartialEq, Eq, Structural)]
pub struct Version(pub usize);

/// One edit: `removed` code units at offset `start` gave way to `inserted`
/// new ones.
pub struct Edit {
    pub start: nat,
    pub removed: nat,
    pub inserted: nat,
}

/// What an anchor records: a place in the text as it was after `revision`
/// edits of the buffer `replica_id`.
pub struct AnchorView {
    pub replica_id: u64,
    pub revision: nat,
    pub offset: nat,
    pub bias: Bias,
}

/// A position in a buffer that keeps its place while the text is edited. Only
/// the buffer that made it can resolve or compare it.
#[derive(Clone, Copy, Debug)]
pub struct Anchor {
    replica_id: u64,
    revision: usize,
    offset: usize,
    bias: Bias,
}

impl View for Anchor {
    type V = AnchorView;

    closed spec fn view(&self) -> AnchorView {
        AnchorView {
            replica_id: self.replica_id,
            revision: self.revision as nat,
            offset: self.offset as nat,
            bias: self.bias,
        }
    }
}

impl Anchor {
    /// The side to which the anchor keeps when text is inserted at its
    /// place.
    pub fn bias(&self) -> (bias: Bias)
        ensures
            bias == self@.bias,
    {
        self.bias
    }
}

/// Where an edit leaves offset `off`. In front of the edit nothing moves;
/// behind it everything moves with the text. An offset inside the removed
/// text, or at the place of an insertion, goes to the side of its bias.
pub open spec fn shift(edit: Edit, off: int, bias: Bias) -> int {
    let end = edit.start + edit.removed;
    match bias {
        Bias::Left => if off <= edit.start {
            off
        } else if off <= end {
            edit.start as int
        } else {
            off - edit.removed + edit.inserted
        },
        Bias::Right => if off < edit.start {
            off
        } else if off < end {
            (edit.start + edit.inserted) as int
        } else {
            off - edit.removed + edit.inserted
        },
    }
}

/// Where the edits from number `from` on leave offset `off`.
pub open spec fn replay(edits: Seq<Edit>, from: int, off: int, bias: Bias) -> int
    decreases edits.len() - from,
{
    if from < 0 || from >= edits.len() {
        off
    } else {
        replay(edits, from + 1, shift(edits[from], off, bias), bias)
    }
}

/// The length of the text after the first `revision` edits of a buffer that
/// began empty.
pub open spec fn len_after(edits: Seq<Edit>, revision: int) -> int
    decreases revision,
{
    if revision <= 0 {
        0
    } else {
        len_after(edits, revision - 1) - edits[revision - 1].removed + edits[revision
            - 1].inserted
    }
}

/// Every edit replaced text that was there, and the text never grew beyond
/// `MAX_LEN`.
pub open spec fn edits_valid(edits: Seq<Edit>) -> bool {
    forall|i: int|
        0 <= i < edits.len() ==> {
            &&& (#[trigger] edits[i]).start + edits[i].removed <= len_after(edits, i)
            &&& len_after(edits, i + 1) <= MAX_LEN
        }
}

/// What a buffer is: its text and the edits that made it.
pub struct BufferView {
    pub replica_id: u64,
    pub text: Seq<u16>,
    pub edits: Seq<Edit>,
}

impl BufferView {
    /// The anchor was made by this buffer, for a place in the text it then
    /// had.
    pub open spec fn owns(self, anchor: AnchorView) -> bool {
        &&& anchor.replica_id == self.replica_id
        &&& anchor.revision <= self.edits.len()
        &&& anchor.offset <= len_after(self.edits, anchor.revision as int)
    }

    /// The offset at which the anchor lies now.
    pub open spec fn offset_of(self, anchor: AnchorView) -> int {
        replay(self.edits, anchor.revision as int, anchor.offset as int, anchor.bias)
    }

    /// The point at which the anchor lies now.
    pub open spec fn point_of(self, anchor: AnchorView) -> Point {
        point_at(self.text, self.offset_of(anchor))
    }

    /// The text is what the edits made, and is not longer than `MAX_LEN`.
    pub open spec fn wf(self) -> bool {
        &&& edits_valid(self.edits)
        &&& len_after(self.edits, self.edits.len() as int) == self.text.len()
        &&& self.text.len() <= MAX_LEN
    }

    /// The anchor that the buffer makes now for offset `offset`.
    pub open spec fn anchor_at(self, offset: int, bias: Bias) -> AnchorView {
        AnchorView {
            replica_id: self.replica_id,
            revision: self.edits.len(),
            offset: offset as nat,
            bias,
        }
    }

    /// The buffer after the text from `start` up to `end` gave way to
    /// `units`.
    pub open spec fn spliced(self, start: int, end: int, units: Seq<u16>) -> BufferView {
        BufferView {
            replica_id: self.replica_id,
            text: self.text.subrange(0, start) + units + self.text.subrange(
                end,
                self.text.len() as int,
            ),
            edits: self.edits.push(
                Edit {
                    start: start as nat,
                    removed: (end - start) as nat,
                    inserted: units.len(),
                },
            ),
        }
    }

    /// An anchor of the buffer lies in the text, at a point that leads back
    /// to its offset.
    pub proof fn lemma_anchor_in_text(self, anchor: AnchorView)
        requires
            self.wf(),
            self.owns(anchor),
        ensures
            0 <= self.offset_of(anchor) <= self.text.len(),
            point_in_bounds(self.text, self.point_of(anchor)),
            offset_of_point(self.text, self.point_of(anchor)) == self.offset_of(anchor),
    {
        lemma_replay_in_range(
            self.edits,
            anchor.revision as int,
            anchor.offset as int,
            anchor.bias,
        );
        lemma_point_at(self.text, self.offset_of(anchor));
    }

    /// Anchors of the buffer are ordered by their points as by their
    /// offsets.
    pub proof fn lemma_anchor_order(self, a: AnchorView, b: AnchorView)
        requires
            self.wf(),
            self.owns(a),
            self.owns(b),
        ensures
            self.point_of(a).before(self.point_of(b)) <==> self.offset_of(a) < self.offset_of(b),
            self.point_of(a) == self.point_of(b) <==> self.offset_of(a) == self.offset_of(b),
            self.point_of(a).before_or_at(self.point_of(b)) <==> self.offset_of(a)
                <= self.offset_of(b),
    {
        self.lemma_anchor_in_text(a);
        self.lemma_anchor_in_text(b);
        lemma_points_ordered(self.text, self.offset_of(a), self.offset_of(b));
        lemma_points_ordered(self.text, self.offset_of(b), self.offset_of(a));
    }

    /// An anchor made now lies where it was made.
    pub proof fn lemma_fresh_anchor(self, offset: int, bias: Bias)
        requires
            self.wf(),
            0 <= offset <= self.text.len(),
        ensures
            self.owns(self.anchor_at(offset, bias)),
            self.offset_of(self.anchor_at(offset, bias)) == offset,
    {
    }

    /// An edit keeps every anchor of the buffer, and leaves it where `shift`
    /// says.
    pub proof fn lemma_edit_keeps_anchor(self, after: BufferView, edit: Edit, anchor: AnchorView)
        requires
            self.owns(anchor),
            after.replica_id == self.replica_id,
            after.edits == self.edits.push(edit),
        ensures
            after.owns(anchor),
            after.offset_of(anchor) == shift(edit, self.offset_of(anchor), anchor.bias),
    {
        lemma_replay_push(
            self.edits,
            edit,
            anchor.revision as int,
            anchor.offset as int,
            anchor.bias,
        );
        lemma_len_after_prefix(self.edits, seq![edit], anchor.revision as int);
        assert(self.edits.push(edit) =~= self.edits + seq![edit]);
    }

    /// An edit does not move an anchor past another of the same bias: what
    /// lay at or before the other still does.
    pub proof fn lemma_edit_keeps_order(
        self,
        after: BufferView,
        edit: Edit,
        a: AnchorView,
        b: AnchorView,
    )
        requires
            self.wf(),
            after.wf(),
            after.replica_id == self.replica_id,
            after.edits == self.edits.push(edit),
            self.owns(a),
            self.owns(b),
            a.bias == b.bias,
            self.point_of(a).before_or_at(self.point_of(b)),
        ensures
            after.owns(a),
            after.owns(b),
            after.point_of(a).before_or_at(after.point_of(b)),
    {
        self.lemma_anchor_order(a, b);
        self.lemma_edit_keeps_anchor(after, edit, a);
        self.lemma_edit_keeps_anchor(after, edit, b);
        lemma_shift_monotone(edit, self.offset_of(a), self.offset_of(b), a.bias);
        after.lemma_anchor_order(a, b);
    }
}

/// The point of an offset of the text has the offset's row and column, is in
/// bounds and leads back to the offset.
pub proof fn lemma_point_at(text: Seq<u16>, off: int)
    requires
        0 <= off <= text.len() <= MAX_LEN,
    ensures
        point_at(text, off).row == row_at(text, off),
        point_at(text, off).column == column_at(text, off),
        point_in_bounds(text, point_at(text, off)),
        offset_of_point(text, point_at(text, off)) == off,
{
    lemma_row_at_bounds(text, off);
    lemma_line_start(text, off);
    lemma_position_of_offset(text, off);
}

/// A point in bounds has an offset in the text, and is the point of that
/// offset.
pub proof fn lemma_offset_of_point(text: Seq<u16>, point: Point)
    requires
        text.len() <= MAX_LEN,
        point_in_bounds(text, point),
    ensures
        0 <= offset_of_point(text, point) <= text.len(),
        point_at(text, offset_of_point(text, point)) == point,
{
    lemma_offset_of_position(text, point.row as int, point.column as int);
}

/// Points of the text are ordered as their offsets are.
pub proof fn lemma_points_ordered(text: Seq<u16>, a: int, b: int)
    requires
        0 <= a <= text.len() <= MAX_LEN,
        0 <= b <= text.len(),
    ensures
        a < b ==> point_at(text, a).before(point_at(text, b)),
        a == b ==> point_at(text, a) == point_at(text, b),
        a <= b ==> point_at(text, a).before_or_at(point_at(text, b)),
{
    lemma_point_at(text, a);
    lemma_point_at(text, b);
    if a <= b {
        lemma_positions_ordered(text, a, b);
    }
}

struct EditRecord {
    start: usize,
    removed: usize,
    inserted: usize,
    old_len: usize,
}

impl EditRecord {
    spec fn edit(self) -> Edit {
        Edit {
            start: self.start as nat,
            removed: self.removed as nat,
            inserted: self.inserted as nat,
        }
    }
}

/// A text of UTF-16 code units, the edits that made it, and the anchors into
/// it.
pub struct Buffer {
    replica_id: u64,
    text: Vec<u16>,
    edits: Vec<EditRecord>,
}

impl View for Buffer {
    type V = BufferView;

    closed spec fn view(&self) -> BufferView {
        BufferView {
            replica_id: self.replica_id,
            text: self.text@,
            edits: Seq::new(self.edits@.len(), |i: int| self.edits@[i].edit()),
        }
    }
}

/// An offset that lay in the text before the edits from `from` on lies in
/// the text after them.
pub proof fn lemma_replay_in_range(edits: Seq<Edit>, from: int, off: int, bias: Bias)
    requires
        edits_valid(edits),
        0 <= from <= edits.len(),
        0 <= off <= len_after(edits, from),
    ensures
        0 <= replay(edits, from, off, bias) <= len_after(edits, edits.len() as int),
    decreases edits.len() - from,
{
    if from < edits.len() {
        let e = edits[from];
        assert(len_after(edits, from + 1) == len_after(edits, from) - e.removed + e.inserted);
        lemma_replay_in_range(edits, from + 1, shift(e, off, bias), bias);
    }
}

/// The length of the text after some edits does not depend on the edits that
/// follow.
pub proof fn lemma_len_after_prefix(edits: Seq<Edit>, more: Seq<Edit>, revision: int)
    requires
        revision <= edits.len(),
    ensures
        len_after(edits + more, revision) == len_after(edits, revision),
    decreases revision,
{
    if revision > 0 {
        lemma_len_after_prefix(edits, more, revision - 1);
    }
}

/// One more edit moves an anchor from where the earlier edits left it to
/// where that edit leaves this place.
pub proof fn lemma_replay_push(edits: Seq<Edit>, edit: Edit, from: int, off: int, bias: Bias)
    requires
        0 <= from <= edits.len(),
    ensures
        replay(edits.push(edit), from, off, bias) == shift(
            edit,
            replay(edits, from, off, bias),
            bias,
        ),
    decreases edits.len() - from,
{
    let longer = edits.push(edit);
    if from < edits.len() {
        assert(longer[from] == edits[from]);
        lemma_replay_push(edits, edit, from + 1, shift(edits[from], off, bias), bias);
    } else {
        assert(longer[from] == edit);
        assert(replay(longer, from + 1, shift(edit, off, bias), bias) == shift(edit, off, bias));
    }
}

/// An edit moves no offset past another: offsets of one bias keep their
/// order.
pub proof fn lemma_shift_monotone(edit: Edit, a: int, b: int, bias: Bias)
    requires
        a <= b,
    ensures
        shift(edit, a, bias) <= shift(edit, b, bias),
{
}

impl Buffer {
    /// The records agree with the edits of the view, and the view is well
    /// formed.
    pub closed spec fn wf(&self) -> bool {
        &&& self@.wf()
        &&& forall|i: int|
            0 <= i < self.edits@.len() ==> (#[trigger] self.edits@[i]).old_len == len_after(
                self@.edits,
                i,
            )
    }

    /// A well-formed buffer has a well-formed view.
    pub proof fn lemma_wf(&self)
        requires
            self.wf(),
        ensures
            self@.wf(),
    {
    }

    /// An empty buffer with the given identity.
    pub fn new(replica_id: u64) -> (buffer: Buffer)
        ensures
            buffer.wf(),
            buffer@ == (BufferView { replica_id, text: Seq::empty(), edits: Seq::empty() }),
    {
        let buffer = Buffer { replica_id, text: Vec::new(), edits: Vec::new() };
        assert(buffer@.edits =~= Seq::empty());
        buffer
    }

    /// The number of code units in the text.
    pub fn len(&self) -> (len: usize)
        requires
            self.wf(),
        ensures
            len == self@.text.len(),
            len <= MAX_LEN,
    {
        self.text.len()
    }

    /// The number of edits that made the text.
    pub fn version(&self) -> (version: Version)
        ensures
            version == Version(self@.edits.len() as usize),
            version.0 == self@.edits.len(),
    {
        Version(self.edits.len())
    }

    /// The point at which an offset lies; `OffsetOutOfRange` for an offset
    /// behind the end of the text.
    pub fn point_for_offset(&self, offset: usize) -> (r: Result<Point, Error>)
        requires
            self.wf(),
        ensures
            r is Ok <==> offset <= self@.text.len(),
            r matches Ok(point) ==> point == point_at(self@.text, offset as int)
                && point_in_bounds(self@.text, point),
            r matches Err(e) ==> e == Error::OffsetOutOfRange,
    {
        if offset > self.text.len() {
            return Err(Error::OffsetOutOfRange);
        }
        let mut row: u32 = 0;
        let mut start: usize = 0;
        let mut i: usize = 0;
        while i < offset
            invariant
                i <= offset <= self.text@.len() <= MAX_LEN,
                row == row_at(self.text@, i as int),
                start == line_start(self.text@, i as int),
                start <= i,
            decreases offset - i,
        {
            proof {
                lemma_row_at_bounds(self.text@, i as int);
            }
            if self.text[i] == NEWLINE {
                row = row + 1;
                start = i + 1;
            }
            i = i + 1;
        }
        proof {
            lemma_position_of_offset(self.text@, offset as int);
        }
        Ok(Point { row, column: (offset - start) as u32 })
    }

    /// The last point of the text.
    pub fn max_point(&self) -> (point: Point)
        requires
            self.wf(),
        ensures
            point == end_point(self@.text),
            point.row == max_row(self@.text),
            point_in_bounds(self@.text, point),
    {
        proof {
            lemma_row_at_bounds(self.text@, self.text@.len() as int);
        }
        match self.point_for_offset(self.text.len()) {
            Ok(point) => point,
            Err(_) => Point { row: 0, column: 0 },
        }
    }

    /// The offset at which a row begins, if the text has that row.
    fn start_of_row(&self, row: u32) -> (r: Option<usize>)
        requires
            self.wf(),
        ensures
            r is Some <==> row <= max_row(self@.text),
            r matches Some(start) ==> start == row_start(self@.text, row as int) && start
                <= self@.text.len(),
    {
        let mut at: u32 = 0;
        let mut i: usize = 0;
        while at < row
            invariant
                i <= self.text@.len() <= MAX_LEN,
                at <= row,
                at == row_at(self.text@, i as int),
                line_start(self.text@, i as int) == i,
            decreases self.text@.len() - i,
        {
            let mut j: usize = i;
            while j < self.text.len() && self.text[j] != NEWLINE
                invariant
                    i <= j <= self.text@.len(),
                    no_newline(self.text@, i as int, j as int),
                decreases self.text@.len() - j,
            {
                j = j + 1;
            }
            proof {
                lemma_same_row(self.text@, i as int, j as int);
            }
            if j == self.text.len() {
                return None;
            }
            proof {
                lemma_row_at_bounds(self.text@, j as int);
            }
            at = at + 1;
            i = j + 1;
        }
        proof {
            lemma_row_at_monotone(self.text@, i as int, self.text@.len() as int);
            lemma_line_start_is_row_start(self.text@, i as int);
        }
        Some(i)
    }

    /// The number of code units in a row, its newline not counted;
    /// `OffsetOutOfRange` for a row that the text does not have.
    pub fn len_for_row(&self, row: u32) -> (r: Result<u32, Error>)
        requires
            self.wf(),
        ensures
            r is Ok <==> row <= max_row(self@.text),
            r matches Ok(len) ==> len == line_len(self@.text, row as int),
            r matches Err(e) ==> e == Error::OffsetOutOfRange,
    {
        match self.start_of_row(row) {
            None => Err(Error::OffsetOutOfRange),
            Some(start) => {
                let mut end: usize = start;
                while end < self.text.len() && self.text[end] != NEWLINE
                    invariant
                        start <= end <= self.text@.len(),
                        no_newline(self.text@, start as int, end as int),
                    decreases self.text@.len() - end,
                {
                    end = end + 1;
                }
                proof {
                    lemma_line_end_is(self.text@, start as int, end as int);
                }
                Ok((end - start) as u32)
            },
        }
    }

    /// The offset of a point; `OffsetOutOfRange` for a point outside the
    /// text.
    pub fn offset_for_point(&self, point: Point) -> (r: Result<usize, Error>)
        requires
            self.wf(),
        ensures
            r is Ok <==> point_in_bounds(self@.text, point),
            r matches Ok(offset) ==> offset == offset_of_point(self@.text, point) && offset
                <= self@.text.len() && point_at(self@.text, offset as int) == point,
            r matches Err(e) ==> e == Error::OffsetOutOfRange,
    {
        match self.start_of_row(point.row) {
            None => Err(Error::OffsetOutOfRange),
            Some(start) => {
                let mut end: usize = start;
                while end < self.text.len() && self.text[end] != NEWLINE && end - start
                    < point.column as usize
                    invariant
                        start <= end <= self.text@.len(),
                        end - start <= point.column,
                        no_newline(self.text@, start as int, end as int),
                    decreases self.text@.len() - end,
                {
                    end = end + 1;
                }
                proof {
                    lemma_line_end(self.text@, start as int);
                    if end - start < point.column {
                        lemma_line_end_is(self.text@, start as int, end as int);
                    } else {
                        assert(end <= line_end(self.text@, start as int));
                        lemma_offset_of_position(
                            self.text@,
                            point.row as int,
                            point.column as int,
                        );
                    }
                }
                if end - start == point.column as usize {
                    Ok(end)
                } else {
                    Err(Error::OffsetOutOfRange)
                }
            },
        }
    }

    /// The text from the start of a row to the end of the text;
    /// `OffsetOutOfRange` for a row that the text does not have.
    pub fn iter_starting_at_row(&self, row: u32) -> (r: Result<&[u16], Error>)
        requires
            self.wf(),
        ensures
            r is Ok <==> row <= max_row(self@.text),
            r matches Ok(units) ==> units@ == self@.text.subrange(
                row_start(self@.text, row as int),
                self@.text.len() as int,
            ) && row_start(self@.text, row as int) <= self@.text.len(),
            r matches Err(e) ==> e == Error::OffsetOutOfRange,
    {
        match self.start_of_row(row) {
            None => Err(Error::OffsetOutOfRange),
            Some(start) => Ok(
                vstd::slice::slice_subrange(self.text.as_slice(), start, self.text.len()),
            ),
        }
    }

    /// An anchor that stays in front of text inserted at its offset;
    /// `OffsetOutOfRange` for an offset behind the end of the text.
    pub fn anchor_before_offset(&self, offset: usize) -> (r: Result<Anchor, Error>)
        requires
            self.wf(),
        ensures
            r is Ok <==> offset <= self@.text.len(),
            r matches Ok(anchor) ==> anchor@ == self@.anchor_at(offset as int, Bias::Left)
                && self@.owns(anchor@) && self@.offset_of(anchor@) == offset,
            r matches Err(e) ==> e == Error::OffsetOutOfRange,
    {
        if offset > self.text.len() {
            Err(Error::OffsetOutOfRange)
        } else {
            Ok(
                Anchor {
                    replica_id: self.replica_id,
                    revision: self.edits.len(),
                    offset,
                    bias: Bias::Left,
                },
            )
        }
    }

    /// An anchor that stays in front of text inserted at its point;
    /// `OffsetOutOfRange` for a point outside the text.
    pub fn anchor_before_point(&self, point: Point) -> (r: Result<Anchor, Error>)
        requires
            self.wf(),
        ensures
            r is Ok <==> point_in_bounds(self@.text, point),
            r matches Ok(anchor) ==> anchor@ == self@.anchor_at(
                offset_of_point(self@.text, point),
                Bias::Left,
            ) && self@.owns(anchor@) && self@.point_of(anchor@) == point,
            r matches Err(e) ==> e == Error::OffsetOutOfRange,
    {
        match self.offset_for_point(point) {
            Err(e) => Err(e),
            Ok(offset) => Ok(
                Anchor {
                    replica_id: self.replica_id,
                    revision: self.edits.len(),
                    offset,
                    bias: Bias::Left,
                },
            ),
        }
    }

    /// An anchor that moves behind text inserted at its point;
    /// `OffsetOutOfRange` for a point outside the text.
    pub fn anchor_after_point(&self, point: Point) -> (r: Result<Anchor, Error>)
        requires
            self.wf(),
        ensures
            r is Ok <==> point_in_bounds(self@.text, point),
            r matches Ok(anchor) ==> anchor@ == self@.anchor_at(
                offset_of_point(self@.text, point),
                Bias::Right,
            ) && self@.owns(anchor@) && self@.point_of(anchor@) == point,
            r matches Err(e) ==> e == Error::OffsetOutOfRange,
    {
        match self.offset_for_point(point) {
            Err(e) => Err(e),
            Ok(offset) => Ok(
                Anchor {
                    replica_id: self.replica_id,
                    revision: self.edits.len(),
                    offset,
                    bias: Bias::Right,
                },
            ),
        }
    }

    /// The offset at which an anchor lies now; `InvalidAnchor` for an anchor
    /// that this buffer did not make.
    pub fn offset_for_anchor(&self, anchor: &Anchor) -> (r: Result<usize, Error>)
        requires
            self.wf(),
        ensures
            r is Ok <==> self@.owns(anchor@),
            r matches Ok(offset) ==> offset == self@.offset_of(anchor@) && offset
                <= self@.text.len(),
            r matches Err(e) ==> e == Error::InvalidAnchor,
    {
        if anchor.replica_id != self.replica_id || anchor.revision > self.edits.len() {
            return Err(Error::InvalidAnchor);
        }
        let len_then: usize = if anchor.revision == self.edits.len() {
            self.text.len()
        } else {
            self.edits[anchor.revision].old_len
        };
        if anchor.offset > len_then {
            return Err(Error::InvalidAnchor);
        }
        let ghost edits = self@.edits;
        let mut offset: usize = anchor.offset;
        let mut i: usize = anchor.revision;
        while i < self.edits.len()
            invariant
                self.wf(),
                edits == self@.edits,
                anchor.revision <= i <= self.edits@.len(),
                offset <= len_after(edits, i as int),
                replay(edits, i as int, offset as int, anchor.bias) == self@.offset_of(anchor@),
            decreases self.edits@.len() - i,
        {
            let record = &self.edits[i];
            proof {
                assert(edits[i as int] == record.edit());
                assert(len_after(edits, i + 1) == len_after(edits, i as int) - record.removed
                    + record.inserted);
            }
            let end: usize = record.start + record.removed;
            offset = match anchor.bias {
                Bias::Left => if offset <= record.start {
                    offset
                } else if offset <= end {
                    record.start
                } else {
                    offset - record.removed + record.inserted
                },
                Bias::Right => if offset < record.start {
                    offset
                } else if offset < end {
                    record.start + record.inserted
                } else {
                    offset - record.removed + record.inserted
                },
            };
            i = i + 1;
        }
        Ok(offset)
    }

    /// The point at which an anchor lies now; `InvalidAnchor` for an anchor
    /// that this buffer did not make.
    pub fn point_for_anchor(&self, anchor: &Anchor) -> (r: Result<Point, Error>)
        requires
            self.wf(),
        ensures
            r is Ok <==> self@.owns(anchor@),
            r matches Ok(point) ==> point == self@.point_of(anchor@) && point_in_bounds(
                self@.text,
                point,
            ),
            r matches Err(e) ==> e == Error::InvalidAnchor,
    {
        match self.offset_for_anchor(anchor) {
            Err(e) => Err(e),
            Ok(offset) => match self.point_for_offset(offset) {
                Ok(point) => Ok(point),
                Err(_) => Err(Error::InvalidAnchor),
            },
        }
    }

    /// Replaces the text from `old_range.start` up to `old_range.end` by
    /// `new_text`, and records the edit. `OffsetOutOfRange` for a range that
    /// is reversed or ends behind the text, `TextTooLong` where the new text
    /// would be longer than `MAX_LEN`; the buffer is then unchanged.
    pub fn splice(&mut self, old_range: core::ops::Range<usize>, new_text: &str) -> (r: Result<
        (),
        Error,
    >)
        requires
            old(self).wf(),
        ensures
            final(self).wf(),
            r is Ok <==> {
                &&& old_range.start <= old_range.end <= old(self)@.text.len()
                &&& old(self)@.text.len() - (old_range.end - old_range.start) + utf16_of(
                    new_text@,
                ).len() <= MAX_LEN
            },
            r is Ok ==> final(self)@ == old(self)@.spliced(
                old_range.start as int,
                old_range.end as int,
                utf16_of(new_text@),
            ),
            r is Err ==> final(self)@ == old(self)@,
            r matches Err(e) ==> (e == Error::OffsetOutOfRange <==> !(old_range.start
                <= old_range.end <= old(self)@.text.len())) && (e == Error::OffsetOutOfRange || e
                == Error::TextTooLong),
    {
        let start: usize = old_range.start;
        let end: usize = old_range.end;
        let old_len: usize = self.text.len();
        if start > end || end > old_len {
            return Err(Error::OffsetOutOfRange);
        }
        let mut units = encode_utf16(new_text);
        let removed: usize = end - start;
        let inserted: usize = units.len();
        if inserted > MAX_LEN - (old_len - removed) {
            return Err(Error::TextTooLong);
        }
        let ghost before = self@;
        let ghost records = self.edits@;
        let mut tail = self.text.split_off(end);
        self.text.truncate(start);
        self.text.append(&mut units);
        self.text.append(&mut tail);
        self.edits.push(EditRecord { start, removed, inserted, old_len });
        proof {
            let edit = Edit {
                start: start as nat,
                removed: removed as nat,
                inserted: inserted as nat,
            };
            let after = self@;
            assert(after.edits =~= before.edits.push(edit));
            assert(after.text =~= before.spliced(
                start as int,
                end as int,
                utf16_of(new_text@),
            ).text);
            assert(before.edits.push(edit) =~= before.edits + seq![edit]);
            assert forall|i: int| 0 <= i <= before.edits.len() implies
                len_after(after.edits, i) == len_after(before.edits, i)
            by {
                lemma_len_after_prefix(before.edits, seq![edit], i);
            }
            assert(len_after(after.edits, after.edits.len() as int) == len_after(
                after.edits,
                before.edits.len() as int,
            ) - edit.removed + edit.inserted);
            assert forall|i: int| 0 <= i < after.edits.len() implies
                (#[trigger] after.edits[i]).start + after.edits[i].removed <= len_after(
                    after.edits,
                    i,
                ) && len_after(after.edits, i + 1) <= MAX_LEN
            by {
                if i < before.edits.len() {
                    assert(after.edits[i] == before.edits[i]);
                }
            }
            assert forall|i: int| 0 <= i < self.edits@.len() implies
                (#[trigger] self.edits@[i]).old_len == len_after(after.edits, i)
            by {
                if i < records.len() {
                    assert(self.edits@[i] == records[i]);
                }
            }
        }
        Ok(())
    }

    /// How two anchors lie to each other now; `InvalidAnchor` where this
    /// buffer did not make both.
    pub fn cmp_anchors(&self, a: &Anchor, b: &Anchor) -> (r: Result<Ordering, Error>)
        requires
            self.wf(),
        ensures
            r is Ok <==> self@.owns(a@) && self@.owns(b@),
            r matches Ok(order) ==> order == order_of(self@.offset_of(a@), self@.offset_of(b@))
                && order == order_of_points(self@.point_of(a@), self@.point_of(b@)),
            r matches Err(e) ==> e == Error::InvalidAnchor,
    {
        let first = self.offset_for_anchor(a);
        let second = self.offset_for_anchor(b);
        match (first, second) {
            (Ok(x), Ok(y)) => {
                proof {
                    self@.lemma_anchor_order(a@, b@);
                }
                if x < y {
                    Ok(Ordering::Less)
                } else if x == y {
                    Ok(Ordering::Equal)
                } else {
                    Ok(Ordering::Greater)
                }
            },
            _ => Err(Error::InvalidAnchor),
        }
    }
}

/// How two offsets lie to each other.
pub open spec fn order_of(a: int, b: int) -> Ordering {
    if a < b {
        Ordering::Less
    } else if a == b {
        Ordering::Equal
    } else {
        Ordering::Greater
    }
}

/// How two points lie to each other.
pub open spec fn order_of_points(a: Point, b: Point) -> Ordering {
    if a.before(b) {
        Ordering::Less
    } else if a == b {
        Ordering::Equal
    } else {
        Ordering::Greater
    }
}

} // verus!
