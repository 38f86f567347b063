//! The editor: a store of selections over a buffer, the motions that change
//! it, and its version.

use vstd::prelude::*;
use core::cmp::Ordering;
use crate::buffer;
use crate::buffer::{
    end_point, lemma_points_ordered, point_in_bounds, Anchor, Bias, Buffer, BufferView, Edit,
    Point,
};
use crate::movement;
use crate::store::{
    absorb, apart, cursor_at, duplicates, each_after, in_order, insert_all, insert_index,
    insert_one, lemma_duplicates_upright, lemma_in_order_sorted, lemma_insert_all,
    lemma_insert_index, lemma_insert_index_parts, lemma_insert_one_sorted, lemma_insert_orders,
    lemma_merge_ordered, lemma_motion_orders, lemma_point_order, merge, ordered, sorted_by_start,
    Motion, ResolvedSelection,
};
use crate::text::{
    lemma_last_row, lemma_line_end_is, lemma_line_len, lemma_line_start,
    lemma_line_start_is_row_start, lemma_row_at_bounds, lemma_row_at_monotone, lemma_row_start,
    line_start, max_row, row_at, row_start, NEWLINE,
};

pub mod render;

verus! {

/// The state of an editor: the number of edits of its buffer, and the number
/// of changes to the selections since the last of them.
#[derive(Clone, Copy, Debug, PartialEq, Eq, Structural)]
pub struct Version(pub buffer::Version, pub usize);

/// What the task that follows the buffer comes to know.
#[derive(Clone, Copy, Debug, PartialEq, Eq, Structural)]
pub enum Event {
    /// The buffer was edited and has this version now.
    Revision(buffer::Version),
    /// The editor is no longer in use.
    Dropped,
}

/// What the task that follows the buffer does next.
#[derive(Clone, Copy, Debug, PartialEq, Eq, Structural)]
pub enum Action {
    /// It makes the editor's new version known and goes on.
    Publish(Version),
    /// It ends.
    Stop,
}

#[derive(Clone, Copy, Debug)]
struct Selection {
    start: Anchor,
    end: Anchor,
    reversed: bool,
    goal_column: Option<u32>,
}

/// The cursors and selections of one view of a buffer, and the version of
/// the view.
///
/// The editor holds anchors, not the buffer: the buffer is handed to each
/// operation, and must be the one that the editor was made for (`attached`).
/// Several editors can so share one buffer. Every operation on the
/// selections leaves the store ordered (`wf`). An edit of the buffer may
/// bring selections to touch, but keeps them in order (`valid`); the next
/// operation merges them.
pub struct Editor {
    version: Version,
    selections: Vec<Selection>,
}

/// The anchor `a` lies strictly before `b`.
fn lies_before(buffer: &Buffer, a: &Anchor, b: &Anchor) -> (r: bool)
    requires
        buffer.wf(),
        buffer@.owns(a@),
        buffer@.owns(b@),
    ensures
        r == buffer@.point_of(a@).before(buffer@.point_of(b@)),
{
    match buffer.cmp_anchors(a, b) {
        Ok(Ordering::Less) => true,
        _ => false,
    }
}

/// The point of an anchor of the buffer.
fn point_of(buffer: &Buffer, anchor: &Anchor) -> (point: Point)
    requires
        buffer.wf(),
        buffer@.owns(anchor@),
    ensures
        point == buffer@.point_of(anchor@),
        point_in_bounds(buffer@.text, point),
{
    match buffer.point_for_anchor(anchor) {
        Ok(point) => point,
        Err(_) => Point { row: 0, column: 0 },
    }
}

/// An anchor in front of a point of the buffer.
fn anchor_at(buffer: &Buffer, point: Point) -> (anchor: Anchor)
    requires
        buffer.wf(),
        point_in_bounds(buffer@.text, point),
    ensures
        buffer@.owns(anchor@),
        buffer@.point_of(anchor@) == point,
        anchor@.bias == Bias::Left,
{
    buffer.anchor_before_point(point).unwrap()
}

impl Selection {
    spec fn resolved(self, buffer: BufferView) -> ResolvedSelection {
        ResolvedSelection {
            start: buffer.point_of(self.start@),
            end: buffer.point_of(self.end@),
            reversed: self.reversed,
            goal_column: self.goal_column,
        }
    }

    spec fn attached(self, buffer: BufferView) -> bool {
        &&& buffer.owns(self.start@)
        &&& buffer.owns(self.end@)
        &&& self.start@.bias == Bias::Left
        &&& self.end@.bias == Bias::Left
    }

    /// The end that moves when the selection is extended.
    fn head(&self) -> (anchor: &Anchor)
        ensures
            *anchor == if self.reversed {
                self.start
            } else {
                self.end
            },
    {
        if self.reversed {
            &self.start
        } else {
            &self.end
        }
    }

    /// The end that stays when the selection is extended.
    fn tail(&self) -> (anchor: &Anchor)
        ensures
            *anchor == if self.reversed {
                self.end
            } else {
                self.start
            },
    {
        if self.reversed {
            &self.end
        } else {
            &self.start
        }
    }

    /// Moves the head to `cursor`. The selection becomes reversed exactly if
    /// the new head lies before the tail.
    fn set_head(&mut self, buffer: &Buffer, cursor: Anchor)
        requires
            buffer.wf(),
            old(self).attached(buffer@),
            buffer@.owns(cursor@),
            cursor@.bias == Bias::Left,
        ensures
            final(self).attached(buffer@),
            final(self).resolved(buffer@) == old(self).resolved(buffer@).with_head(
                buffer@.point_of(cursor@),
            ),
    {
        if lies_before(buffer, &cursor, self.tail()) {
            if !self.reversed {
                core::mem::swap(&mut self.start, &mut self.end);
                self.reversed = true;
            }
            self.start = cursor;
        } else {
            if self.reversed {
                core::mem::swap(&mut self.start, &mut self.end);
                self.reversed = false;
            }
            self.end = cursor;
        }
    }

    /// Collapses to a cursor at `point`.
    fn collapse_to(&mut self, buffer: &Buffer, point: Point, goal_column: Option<u32>)
        requires
            buffer.wf(),
            point_in_bounds(buffer@.text, point),
        ensures
            final(self).attached(buffer@),
            final(self).resolved(buffer@) == cursor_at(point, goal_column),
    {
        let cursor = anchor_at(buffer, point);
        self.start = cursor;
        self.end = cursor;
        self.reversed = false;
        self.goal_column = goal_column;
    }

    /// A selection collapses to its start; a cursor steps to the left.
    fn move_left(&mut self, buffer: &Buffer)
        requires
            buffer.wf(),
            old(self).attached(buffer@),
        ensures
            final(self).attached(buffer@),
            final(self).resolved(buffer@) == old(self).resolved(buffer@).moved_left(buffer@.text),
    {
        let start = point_of(buffer, &self.start);
        let end = point_of(buffer, &self.end);
        if start != end {
            self.end = self.start;
        } else {
            let cursor = anchor_at(buffer, movement::left(buffer, start));
            self.start = cursor;
            self.end = cursor;
        }
        self.reversed = false;
        self.goal_column = None;
    }

    /// A selection collapses to its end; a cursor steps to the right.
    fn move_right(&mut self, buffer: &Buffer)
        requires
            buffer.wf(),
            old(self).attached(buffer@),
        ensures
            final(self).attached(buffer@),
            final(self).resolved(buffer@) == old(self).resolved(buffer@).moved_right(
                buffer@.text,
            ),
    {
        let start = point_of(buffer, &self.start);
        let end = point_of(buffer, &self.end);
        if start != end {
            self.start = self.end;
        } else {
            let cursor = anchor_at(buffer, movement::right(buffer, end));
            self.start = cursor;
            self.end = cursor;
        }
        self.reversed = false;
        self.goal_column = None;
    }

    /// Becomes a cursor one row above the start.
    fn move_up(&mut self, buffer: &Buffer)
        requires
            buffer.wf(),
            old(self).attached(buffer@),
        ensures
            final(self).attached(buffer@),
            final(self).resolved(buffer@) == old(self).resolved(buffer@).moved_up(buffer@.text),
    {
        let start = point_of(buffer, &self.start);
        let end = point_of(buffer, &self.end);
        if start != end {
            self.goal_column = None;
        }
        let (start, goal_column) = movement::up(buffer, start, self.goal_column);
        self.collapse_to(buffer, start, goal_column);
    }

    /// Becomes a cursor one row below the end.
    fn move_down(&mut self, buffer: &Buffer)
        requires
            buffer.wf(),
            old(self).attached(buffer@),
        ensures
            final(self).attached(buffer@),
            final(self).resolved(buffer@) == old(self).resolved(buffer@).moved_down(buffer@.text),
    {
        let start = point_of(buffer, &self.start);
        let end = point_of(buffer, &self.end);
        if start != end {
            self.goal_column = None;
        }
        let (end, goal_column) = movement::down(buffer, end, self.goal_column);
        self.collapse_to(buffer, end, goal_column);
    }

    /// The head steps to the left.
    fn select_left(&mut self, buffer: &Buffer)
        requires
            buffer.wf(),
            old(self).attached(buffer@),
        ensures
            final(self).attached(buffer@),
            final(self).resolved(buffer@) == old(self).resolved(buffer@).selected_left(
                buffer@.text,
            ),
    {
        let head = point_of(buffer, self.head());
        let cursor = anchor_at(buffer, movement::left(buffer, head));
        self.set_head(buffer, cursor);
        self.goal_column = None;
    }

    /// The head steps to the right.
    fn select_right(&mut self, buffer: &Buffer)
        requires
            buffer.wf(),
            old(self).attached(buffer@),
        ensures
            final(self).attached(buffer@),
            final(self).resolved(buffer@) == old(self).resolved(buffer@).selected_right(
                buffer@.text,
            ),
    {
        let head = point_of(buffer, self.head());
        let cursor = anchor_at(buffer, movement::right(buffer, head));
        self.set_head(buffer, cursor);
        self.goal_column = None;
    }

    /// The head steps one row up.
    fn select_up(&mut self, buffer: &Buffer)
        requires
            buffer.wf(),
            old(self).attached(buffer@),
        ensures
            final(self).attached(buffer@),
            final(self).resolved(buffer@) == old(self).resolved(buffer@).selected_up(
                buffer@.text,
            ),
    {
        let head = point_of(buffer, self.head());
        let (head, goal_column) = movement::up(buffer, head, self.goal_column);
        let cursor = anchor_at(buffer, head);
        self.set_head(buffer, cursor);
        self.goal_column = goal_column;
    }

    /// The head steps one row down.
    fn select_down(&mut self, buffer: &Buffer)
        requires
            buffer.wf(),
            old(self).attached(buffer@),
        ensures
            final(self).attached(buffer@),
            final(self).resolved(buffer@) == old(self).resolved(buffer@).selected_down(
                buffer@.text,
            ),
    {
        let head = point_of(buffer, self.head());
        let (head, goal_column) = movement::down(buffer, head, self.goal_column);
        let cursor = anchor_at(buffer, head);
        self.set_head(buffer, cursor);
        self.goal_column = goal_column;
    }

    /// Moves as `motion` says.
    fn apply(&mut self, buffer: &Buffer, motion: Motion)
        requires
            buffer.wf(),
            old(self).attached(buffer@),
        ensures
            final(self).attached(buffer@),
            final(self).resolved(buffer@) == old(self).resolved(buffer@).after(
                buffer@.text,
                motion,
            ),
    {
        match motion {
            Motion::MoveLeft => self.move_left(buffer),
            Motion::MoveRight => self.move_right(buffer),
            Motion::MoveUp => self.move_up(buffer),
            Motion::MoveDown => self.move_down(buffer),
            Motion::SelectLeft => self.select_left(buffer),
            Motion::SelectRight => self.select_right(buffer),
            Motion::SelectUp => self.select_up(buffer),
            Motion::SelectDown => self.select_down(buffer),
        }
    }

    /// The copy of the selection on the row above or below, if it has one.
    fn duplicate(&self, buffer: &Buffer, upwards: bool) -> (copy: Option<Selection>)
        requires
            buffer.wf(),
            self.attached(buffer@),
        ensures
            copy is Some <==> self.resolved(buffer@).duplicate(buffer@.text, upwards) is Some,
            copy matches Some(c) ==> c.attached(buffer@) && Some(c.resolved(buffer@))
                == self.resolved(buffer@).duplicate(buffer@.text, upwards),
    {
        let start = point_of(buffer, &self.start);
        let end = point_of(buffer, &self.end);
        if start.row != end.row {
            return None;
        }
        let row: u32 = if upwards {
            if start.row == 0 {
                return None;
            }
            start.row - 1
        } else {
            if start.row >= buffer.max_point().row {
                return None;
            }
            start.row + 1
        };
        let goal_column: u32 = match self.goal_column {
            Some(column) => column,
            None => end.column,
        };
        let max_column: u32 = buffer.len_for_row(row).unwrap();
        let goal_end: u32 = if goal_column <= max_column {
            goal_column
        } else {
            max_column
        };
        let start_end: u32 = if start == end {
            goal_end
        } else if start.column <= max_column {
            start.column
        } else {
            max_column
        };
        let wanted = if start == end {
            end.column == 0 || goal_end > 0
        } else {
            start_end != goal_end
        };
        if wanted {
            let (first, last) = if start_end <= goal_end {
                (start_end, goal_end)
            } else {
                (goal_end, start_end)
            };
            Some(
                Selection {
                    start: anchor_at(buffer, Point::new(row, first)),
                    end: anchor_at(buffer, Point::new(row, last)),
                    reversed: self.reversed,
                    goal_column: Some(goal_column),
                },
            )
        } else {
            None
        }
    }

    /// The selection as a frame shows it.
    fn render(&self, buffer: &Buffer) -> (shown: render::Selection)
        requires
            buffer.wf(),
            self.attached(buffer@),
        ensures
            shown == render::rendered(self.resolved(buffer@)),
    {
        render::Selection {
            start: point_of(buffer, &self.start),
            end: point_of(buffer, &self.end),
            reversed: self.reversed,
        }
    }
}

/// The selections as they lie in the buffer.
spec fn resolve_all(buffer: BufferView, selections: Seq<Selection>) -> Seq<ResolvedSelection> {
    Seq::new(selections.len(), |i: int| selections[i].resolved(buffer))
}

/// The buffer made every anchor of the selections.
spec fn all_attached(buffer: BufferView, selections: Seq<Selection>) -> bool {
    forall|i: int| 0 <= i < selections.len() ==> (#[trigger] selections[i]).attached(buffer)
}

impl Editor {
    /// The selections as they lie in the buffer, in the order of the store.
    pub closed spec fn resolved(&self, buffer: BufferView) -> Seq<ResolvedSelection> {
        resolve_all(buffer, self.selections@)
    }

    /// The store holds a selection, and the buffer made every anchor of the
    /// store, each to stay in front of text inserted at its place.
    pub closed spec fn attached(&self, buffer: BufferView) -> bool {
        self.selections@.len() > 0 && all_attached(buffer, self.selections@)
    }

    /// What holds of the store at all times, also after the text was edited
    /// under it: it is attached to the buffer, and its selections are in
    /// order, though some may touch.
    pub open spec fn valid(&self, buffer: BufferView) -> bool {
        &&& self.attached(buffer)
        &&& in_order(self.resolved(buffer))
    }

    /// The store's invariant, which holds after every operation of the
    /// editor: it holds a selection, every selection begins where it ends or
    /// before, and ends strictly before the next begins.
    pub open spec fn wf(&self, buffer: BufferView) -> bool {
        &&& self.attached(buffer)
        &&& self.resolved(buffer).len() > 0
        &&& ordered(self.resolved(buffer))
    }

    /// The store stays valid while the buffer is edited: an edit keeps every
    /// anchor and moves none past another.
    pub proof fn lemma_valid_after_edit(&self, before: BufferView, after: BufferView, edit: Edit)
        requires
            before.wf(),
            after.wf(),
            after.replica_id == before.replica_id,
            after.edits == before.edits.push(edit),
        ensures
            self.attached(before) ==> self.attached(after),
            self.valid(before) ==> self.valid(after),
    {
        if self.attached(before) {
            assert forall|i: int| 0 <= i < self.selections@.len() implies
                (#[trigger] self.selections@[i]).attached(after)
            by {
                let selection = self.selections@[i];
                assert(selection.attached(before));
                before.lemma_edit_keeps_anchor(after, edit, selection.start@);
                before.lemma_edit_keeps_anchor(after, edit, selection.end@);
            }
        }
        if self.valid(before) {
            let old_store = self.resolved(before);
            let new_store = self.resolved(after);
            assert forall|i: int| 0 <= i < new_store.len() implies
                (#[trigger] new_store[i]).upright()
            by {
                let selection = self.selections@[i];
                assert(selection.attached(before));
                assert(old_store[i].upright());
                before.lemma_edit_keeps_order(after, edit, selection.start@, selection.end@);
            }
            assert forall|i: int| 0 <= i < new_store.len() - 1 implies
                (#[trigger] new_store[i]).end.before_or_at(new_store[i + 1].start)
            by {
                let selection = self.selections@[i];
                let next = self.selections@[i + 1];
                assert(selection.attached(before));
                assert(next.attached(before));
                assert(old_store[i].end.before_or_at(old_store[i + 1].start));
                before.lemma_edit_keeps_order(after, edit, selection.end@, next.start@);
            }
        }
    }

    /// Whether the store is attached to the buffer.
    pub fn is_attached(&self, buffer: &Buffer) -> (r: bool)
        requires
            buffer.wf(),
        ensures
            r == self.attached(buffer@),
    {
        if self.selections.len() == 0 {
            return false;
        }
        let mut i: usize = 0;
        while i < self.selections.len()
            invariant
                buffer.wf(),
                i <= self.selections@.len(),
                forall|j: int| 0 <= j < i ==> (#[trigger] self.selections@[j]).attached(buffer@),
            decreases self.selections@.len() - i,
        {
            let selection = self.selections[i];
            let owned = buffer.offset_for_anchor(&selection.start).is_ok()
                && buffer.offset_for_anchor(&selection.end).is_ok();
            if !owned || selection.start.bias() != Bias::Left || selection.end.bias()
                != Bias::Left {
                return false;
            }
            i = i + 1;
        }
        true
    }

    /// Whether the store is valid for the buffer: attached to it, with its
    /// selections in order.
    pub fn is_valid(&self, buffer: &Buffer) -> (r: bool)
        requires
            buffer.wf(),
        ensures
            r == self.valid(buffer@),
    {
        if !self.is_attached(buffer) {
            return false;
        }
        let ghost store = self.resolved(buffer@);
        let mut i: usize = 0;
        while i < self.selections.len()
            invariant
                buffer.wf(),
                store == self.resolved(buffer@),
                i <= self.selections@.len(),
                all_attached(buffer@, self.selections@),
                forall|j: int| 0 <= j < i ==> (#[trigger] store[j]).upright(),
                forall|j: int|
                    0 <= j < i && j < store.len() - 1 ==> (#[trigger] store[j]).end.before_or_at(
                        store[j + 1].start,
                    ),
            decreases self.selections@.len() - i,
        {
            let selection = self.selections[i];
            proof {
                assert(store[i as int] == selection.resolved(buffer@));
                lemma_point_order(store[i as int].start, store[i as int].end, store[i as int].end);
            }
            if lies_before(buffer, &selection.end, &selection.start) {
                return false;
            }
            if i + 1 < self.selections.len() {
                let next = self.selections[i + 1];
                proof {
                    assert(store[i + 1] == next.resolved(buffer@));
                    lemma_point_order(store[i as int].end, store[i + 1].start, store[i + 1].start);
                }
                if lies_before(buffer, &next.start, &selection.end) {
                    return false;
                }
            }
            i = i + 1;
        }
        true
    }

    /// The version of the editor.
    pub closed spec fn spec_version(&self) -> Version {
        self.version
    }

    /// The version of the editor.
    #[verifier::when_used_as_spec(spec_version)]
    pub fn version(&self) -> (version: Version)
        ensures
            version == self.version(),
    {
        self.version
    }

    /// An editor for the buffer, with one cursor at the start of the text.
    pub fn new(buffer: &Buffer) -> (editor: Editor)
        requires
            buffer.wf(),
        ensures
            editor.wf(buffer@),
            editor.resolved(buffer@) == seq![cursor_at(Point { row: 0, column: 0 }, None)],
            editor.version() == Version(buffer::Version(buffer@.edits.len() as usize), 0),
    {
        let start = buffer.anchor_before_offset(0).unwrap();
        let end = buffer.anchor_before_offset(0).unwrap();
        let mut selections: Vec<Selection> = Vec::new();
        selections.push(Selection { start, end, reversed: false, goal_column: None });
        let editor = Editor { version: Version(buffer.version(), 0), selections };
        proof {
            assert(buffer@.point_of(start@) == Point { row: 0, column: 0 });
            assert(editor.resolved(buffer@) =~= seq![
                cursor_at(Point { row: 0, column: 0 }, None),
            ]);
        }
        editor
    }

    /// One step of the task that follows the buffer. An edit of the buffer
    /// gives the editor the buffer's version, with no change to the
    /// selections counted since, and this version is to be published. When
    /// the editor is dropped the task is to stop. The selections stay as they
    /// are.
    pub fn observe(&mut self, event: Event) -> (action: Action)
        ensures
            match event {
                Event::Revision(revision) => {
                    &&& final(self).version() == Version(revision, 0)
                    &&& action == Action::Publish(Version(revision, 0))
                },
                Event::Dropped => {
                    &&& final(self).version() == old(self).version()
                    &&& action == Action::Stop
                },
            },
            forall|b: BufferView| final(self).resolved(b) == old(self).resolved(b),
            forall|b: BufferView| final(self).attached(b) == old(self).attached(b),
    {
        match event {
            Event::Revision(revision) => {
                self.version = Version(revision, 0);
                Action::Publish(self.version)
            },
            Event::Dropped => Action::Stop,
        }
    }

    /// Counts one change to the selections.
    fn inc_version(&mut self)
        requires
            old(self).version.1 < usize::MAX,
        ensures
            final(self).version == Version(old(self).version.0, (old(self).version.1 + 1) as usize),
            final(self).selections == old(self).selections,
    {
        self.version = Version(self.version.0, self.version.1 + 1);
    }

    /// The merge pass: from left to right, a selection that begins at or
    /// before the end of the one in front of it is taken out, and the one in
    /// front reaches to the later of the two ends.
    fn merge_selections(&mut self, buffer: &Buffer)
        requires
            buffer.wf(),
            old(self).attached(buffer@),
        ensures
            final(self).attached(buffer@),
            final(self).resolved(buffer@) == merge(old(self).resolved(buffer@)),
            final(self).version == old(self).version,
    {
        let ghost view = buffer@;
        let ghost before = self.selections@;
        proof {
            lemma_merge_ordered(resolve_all(view, before));
        }
        let ghost mut taken: int = 1;
        let mut i: usize = 1;
        proof {
            assert(before.take(1).drop_last() =~= Seq::<Selection>::empty());
            assert(resolve_all(view, before.take(1)).drop_last() =~= Seq::<
                ResolvedSelection,
            >::empty());
            assert(merge(Seq::<ResolvedSelection>::empty()) =~= Seq::empty());
            assert(resolve_all(view, self.selections@.take(1)) =~= merge(
                resolve_all(view, before.take(1)),
            ));
        }
        while i < self.selections.len()
            invariant
                buffer.wf(),
                view == buffer@,
                self.version == old(self).version,
                1 <= i <= self.selections@.len(),
                i <= taken <= before.len(),
                self.selections@.len() - i == before.len() - taken,
                all_attached(view, before),
                all_attached(view, self.selections@),
                resolve_all(view, self.selections@.take(i as int)) == merge(
                    resolve_all(view, before.take(taken)),
                ),
                self.selections@.skip(i as int) == before.skip(taken),
            decreases self.selections@.len() - i,
        {
            let ghost current = self.selections@;
            let ghost merged = resolve_all(view, current.take(i as int));
            let previous = self.selections[i - 1];
            let next = self.selections[i];
            proof {
                assert(next == current.skip(i as int)[0]);
                assert(next == before[taken]);
                assert(merged.last() == previous.resolved(view));
                let longer = resolve_all(view, before.take(taken + 1));
                assert(longer.drop_last() =~= resolve_all(view, before.take(taken)));
                assert(longer.last() == next.resolved(view));
                assert(merge(longer) == absorb(merged, next.resolved(view)));
                lemma_point_order(
                    next.resolved(view).start,
                    previous.resolved(view).end,
                    previous.resolved(view).end,
                );
            }
            if !lies_before(buffer, &previous.end, &next.start) {
                let removed = self.selections.remove(i);
                if lies_before(buffer, &previous.end, &removed.end) {
                    let mut grown = previous;
                    grown.end = removed.end;
                    self.selections.set(i - 1, grown);
                }
                proof {
                    assert forall|j: int| 0 <= j < before.len() - taken - 1 implies
                        (#[trigger] self.selections@.skip(i as int)[j]) == before[taken + 1 + j]
                    by {
                        assert(current.skip(i as int)[j + 1] == before.skip(taken)[j + 1]);
                    }
                    assert(self.selections@.skip(i as int) =~= before.skip(taken + 1));
                    assert(resolve_all(view, self.selections@.take(i as int)) =~= absorb(
                        merged,
                        next.resolved(view),
                    ));
                    taken = taken + 1;
                }
            } else {
                proof {
                    assert forall|j: int| 0 <= j < before.len() - taken - 1 implies
                        (#[trigger] self.selections@.skip(i + 1)[j]) == before[taken + 1 + j]
                    by {
                        assert(current.skip(i as int)[j + 1] == before.skip(taken)[j + 1]);
                    }
                    assert(self.selections@.skip(i + 1) =~= before.skip(taken + 1));
                    assert(resolve_all(view, self.selections@.take(i + 1)) =~= absorb(
                        merged,
                        next.resolved(view),
                    ));
                    taken = taken + 1;
                }
                i = i + 1;
            }
        }
        proof {
            assert(self.selections@.take(i as int) =~= self.selections@);
            assert(before.take(taken) =~= before);
        }
    }

    /// Moves every selection as `motion` says, merges what has come to touch,
    /// and counts the change.
    fn move_selections(&mut self, buffer: &Buffer, motion: Motion)
        requires
            buffer.wf(),
            old(self).attached(buffer@),
            old(self).version().1 < usize::MAX,
        ensures
            final(self).attached(buffer@),
            final(self).resolved(buffer@) == merge(
                each_after(old(self).resolved(buffer@), buffer@.text, motion),
            ),
            final(self).wf(buffer@),
            final(self).version() == Version(
                old(self).version().0,
                (old(self).version().1 + 1) as usize,
            ),
    {
        let ghost view = buffer@;
        let ghost before = self.selections@;
        let count: usize = self.selections.len();
        let mut i: usize = 0;
        while i < count
            invariant
                buffer.wf(),
                view == buffer@,
                self.version == old(self).version,
                i <= count,
                count == before.len(),
                self.selections@.len() == count,
                all_attached(view, before),
                all_attached(view, self.selections@),
                forall|j: int|
                    0 <= j < i ==> (#[trigger] self.selections@[j]).resolved(view)
                        == before[j].resolved(view).after(view.text, motion),
                forall|j: int| i <= j < count ==> (#[trigger] self.selections@[j]) == before[j],
            decreases count - i,
        {
            let mut selection = self.selections[i];
            selection.apply(buffer, motion);
            self.selections.set(i, selection);
            i = i + 1;
        }
        proof {
            assert(resolve_all(view, self.selections@) =~= each_after(
                resolve_all(view, before),
                view.text,
                motion,
            ));
            lemma_motion_orders(resolve_all(view, before), view.text, motion);
        }
        self.merge_selections(buffer);
        self.inc_version();
    }

    /// Every selection collapses to its start, and every cursor steps to the
    /// left. What then touches is merged, and the change is counted.
    pub fn move_left(&mut self, buffer: &Buffer)
        requires
            buffer.wf(),
            old(self).attached(buffer@),
            old(self).version().1 < usize::MAX,
        ensures
            final(self).wf(buffer@),
            final(self).resolved(buffer@) == merge(
                each_after(old(self).resolved(buffer@), buffer@.text, Motion::MoveLeft),
            ),
            final(self).version() == Version(
                old(self).version().0,
                (old(self).version().1 + 1) as usize,
            ),
    {
        self.move_selections(buffer, Motion::MoveLeft);
    }

    /// The head of every selection steps to the left. What then touches is
    /// merged, and the change is counted.
    pub fn select_left(&mut self, buffer: &Buffer)
        requires
            buffer.wf(),
            old(self).attached(buffer@),
            old(self).version().1 < usize::MAX,
        ensures
            final(self).wf(buffer@),
            final(self).resolved(buffer@) == merge(
                each_after(old(self).resolved(buffer@), buffer@.text, Motion::SelectLeft),
            ),
            final(self).version() == Version(
                old(self).version().0,
                (old(self).version().1 + 1) as usize,
            ),
    {
        self.move_selections(buffer, Motion::SelectLeft);
    }

    /// Every selection collapses to its end, and every cursor steps to the
    /// right. What then touches is merged, and the change is counted.
    pub fn move_right(&mut self, buffer: &Buffer)
        requires
            buffer.wf(),
            old(self).attached(buffer@),
            old(self).version().1 < usize::MAX,
        ensures
            final(self).wf(buffer@),
            final(self).resolved(buffer@) == merge(
                each_after(old(self).resolved(buffer@), buffer@.text, Motion::MoveRight),
            ),
            final(self).version() == Version(
                old(self).version().0,
                (old(self).version().1 + 1) as usize,
            ),
    {
        self.move_selections(buffer, Motion::MoveRight);
    }

    /// The head of every selection steps to the right. What then touches is
    /// merged, and the change is counted.
    pub fn select_right(&mut self, buffer: &Buffer)
        requires
            buffer.wf(),
            old(self).attached(buffer@),
            old(self).version().1 < usize::MAX,
        ensures
            final(self).wf(buffer@),
            final(self).resolved(buffer@) == merge(
                each_after(old(self).resolved(buffer@), buffer@.text, Motion::SelectRight),
            ),
            final(self).version() == Version(
                old(self).version().0,
                (old(self).version().1 + 1) as usize,
            ),
    {
        self.move_selections(buffer, Motion::SelectRight);
    }

    /// Every selection becomes a cursor one row above its start. What then
    /// touches is merged, and the change is counted.
    pub fn move_up(&mut self, buffer: &Buffer)
        requires
            buffer.wf(),
            old(self).attached(buffer@),
            old(self).version().1 < usize::MAX,
        ensures
            final(self).wf(buffer@),
            final(self).resolved(buffer@) == merge(
                each_after(old(self).resolved(buffer@), buffer@.text, Motion::MoveUp),
            ),
            final(self).version() == Version(
                old(self).version().0,
                (old(self).version().1 + 1) as usize,
            ),
    {
        self.move_selections(buffer, Motion::MoveUp);
    }

    /// The head of every selection steps one row up. What then touches is
    /// merged, and the change is counted.
    pub fn select_up(&mut self, buffer: &Buffer)
        requires
            buffer.wf(),
            old(self).attached(buffer@),
            old(self).version().1 < usize::MAX,
        ensures
            final(self).wf(buffer@),
            final(self).resolved(buffer@) == merge(
                each_after(old(self).resolved(buffer@), buffer@.text, Motion::SelectUp),
            ),
            final(self).version() == Version(
                old(self).version().0,
                (old(self).version().1 + 1) as usize,
            ),
    {
        self.move_selections(buffer, Motion::SelectUp);
    }

    /// Every selection becomes a cursor one row below its end. What then
    /// touches is merged, and the change is counted.
    pub fn move_down(&mut self, buffer: &Buffer)
        requires
            buffer.wf(),
            old(self).attached(buffer@),
            old(self).version().1 < usize::MAX,
        ensures
            final(self).wf(buffer@),
            final(self).resolved(buffer@) == merge(
                each_after(old(self).resolved(buffer@), buffer@.text, Motion::MoveDown),
            ),
            final(self).version() == Version(
                old(self).version().0,
                (old(self).version().1 + 1) as usize,
            ),
    {
        self.move_selections(buffer, Motion::MoveDown);
    }

    /// The head of every selection steps one row down. What then touches is
    /// merged, and the change is counted.
    pub fn select_down(&mut self, buffer: &Buffer)
        requires
            buffer.wf(),
            old(self).attached(buffer@),
            old(self).version().1 < usize::MAX,
        ensures
            final(self).wf(buffer@),
            final(self).resolved(buffer@) == merge(
                each_after(old(self).resolved(buffer@), buffer@.text, Motion::SelectDown),
            ),
            final(self).version() == Version(
                old(self).version().0,
                (old(self).version().1 + 1) as usize,
            ),
    {
        self.move_selections(buffer, Motion::SelectDown);
    }

    /// Where a selection that begins at `target` enters the store, found by
    /// halving.
    fn insert_position(&self, buffer: &Buffer, target: &Anchor) -> (index: usize)
        requires
            buffer.wf(),
            all_attached(buffer@, self.selections@),
            buffer@.owns(target@),
        ensures
            index <= self.selections@.len(),
            sorted_by_start(self.resolved(buffer@)) ==> index == insert_index(
                self.resolved(buffer@),
                buffer@.point_of(target@),
            ),
    {
        let ghost view = buffer@;
        let ghost store = self.resolved(view);
        let ghost point = view.point_of(target@);
        let mut low: usize = 0;
        let mut high: usize = self.selections.len();
        while low < high
            invariant
                buffer.wf(),
                view == buffer@,
                store == self.resolved(view),
                point == view.point_of(target@),
                view.owns(target@),
                all_attached(view, self.selections@),
                low <= high <= self.selections@.len(),
                sorted_by_start(store) ==> forall|i: int|
                    0 <= i < low ==> (#[trigger] store[i]).start.before(point),
                sorted_by_start(store) ==> forall|i: int|
                    high <= i < store.len() ==> !(#[trigger] store[i]).start.before(point),
            decreases high - low,
        {
            let middle: usize = low + (high - low) / 2;
            let probe = self.selections[middle];
            proof {
                reveal(sorted_by_start);
                assert(store[middle as int] == probe.resolved(view));
            }
            if lies_before(buffer, &probe.start, target) {
                proof {
                    if sorted_by_start(store) {
                        assert forall|i: int| 0 <= i < middle + 1 implies
                            (#[trigger] store[i]).start.before(point)
                        by {
                            assert(store[i].start.before_or_at(store[middle as int].start));
                        }
                    }
                }
                low = middle + 1;
            } else {
                proof {
                    if sorted_by_start(store) {
                        assert forall|i: int| middle <= i < store.len() implies
                            !(#[trigger] store[i]).start.before(point)
                        by {
                            assert(store[middle as int].start.before_or_at(store[i].start));
                        }
                    }
                }
                high = middle;
            }
        }
        proof {
            if sorted_by_start(store) {
                lemma_insert_index(store, point, low as int);
            }
        }
        low
    }

    /// Enters one selection into the store, at its place.
    fn insert_selection(&mut self, buffer: &Buffer, selection: Selection)
        requires
            buffer.wf(),
            all_attached(buffer@, old(self).selections@),
            selection.attached(buffer@),
        ensures
            all_attached(buffer@, final(self).selections@),
            final(self).selections@.len() == old(self).selections@.len() + 1,
            sorted_by_start(old(self).resolved(buffer@)) ==> {
                &&& final(self).resolved(buffer@) == insert_one(
                    old(self).resolved(buffer@),
                    selection.resolved(buffer@),
                )
                &&& sorted_by_start(final(self).resolved(buffer@))
            },
            final(self).version == old(self).version,
    {
        let ghost view = buffer@;
        let ghost before = self.selections@;
        let index = self.insert_position(buffer, &selection.start);
        self.selections.insert(index, selection);
        proof {
            if sorted_by_start(resolve_all(view, before)) {
                lemma_insert_one_sorted(resolve_all(view, before), selection.resolved(view));
                assert(resolve_all(view, self.selections@) =~= insert_one(
                    resolve_all(view, before),
                    selection.resolved(view),
                ));
            }
        }
    }

    /// Enters selections into the store, one after the other.
    fn insert_selections(&mut self, buffer: &Buffer, more: &Vec<Selection>)
        requires
            buffer.wf(),
            all_attached(buffer@, old(self).selections@),
            all_attached(buffer@, more@),
        ensures
            all_attached(buffer@, final(self).selections@),
            final(self).selections@.len() >= old(self).selections@.len(),
            sorted_by_start(old(self).resolved(buffer@)) ==> final(self).resolved(buffer@)
                == insert_all(old(self).resolved(buffer@), resolve_all(buffer@, more@)),
            final(self).version == old(self).version,
    {
        let ghost view = buffer@;
        let ghost before = resolve_all(view, self.selections@);
        let mut k: usize = 0;
        while k < more.len()
            invariant
                buffer.wf(),
                view == buffer@,
                self.version == old(self).version,
                k <= more@.len(),
                all_attached(view, more@),
                all_attached(view, self.selections@),
                self.selections@.len() >= old(self).selections@.len(),
                sorted_by_start(before) ==> {
                    &&& sorted_by_start(resolve_all(view, self.selections@))
                    &&& resolve_all(view, self.selections@) == insert_all(
                        before,
                        resolve_all(view, more@.take(k as int)),
                    )
                },
            decreases more@.len() - k,
        {
            proof {
                let longer = resolve_all(view, more@.take(k + 1));
                assert(longer.drop_last() =~= resolve_all(view, more@.take(k as int)));
                assert(longer.last() == more@[k as int].resolved(view));
            }
            self.insert_selection(buffer, more[k]);
            k = k + 1;
        }
        proof {
            assert(more@.take(k as int) =~= more@);
        }
    }

    /// The copies of the store's selections on the rows above or below.
    fn duplicate_selections(&self, buffer: &Buffer, upwards: bool) -> (copies: Vec<Selection>)
        requires
            buffer.wf(),
            all_attached(buffer@, self.selections@),
        ensures
            all_attached(buffer@, copies@),
            resolve_all(buffer@, copies@) == duplicates(
                self.resolved(buffer@),
                buffer@.text,
                upwards,
            ),
    {
        let ghost view = buffer@;
        let mut copies: Vec<Selection> = Vec::new();
        let mut i: usize = 0;
        proof {
            assert(resolve_all(view, self.selections@.take(0)) =~= Seq::empty());
            assert(resolve_all(view, copies@) =~= Seq::empty());
        }
        while i < self.selections.len()
            invariant
                buffer.wf(),
                view == buffer@,
                i <= self.selections@.len(),
                all_attached(view, self.selections@),
                all_attached(view, copies@),
                resolve_all(view, copies@) == duplicates(
                    resolve_all(view, self.selections@.take(i as int)),
                    view.text,
                    upwards,
                ),
            decreases self.selections@.len() - i,
        {
            let ghost found = resolve_all(view, copies@);
            proof {
                let longer = resolve_all(view, self.selections@.take(i + 1));
                assert(longer.drop_last() =~= resolve_all(view, self.selections@.take(i as int)));
                assert(longer.last() == self.selections@[i as int].resolved(view));
            }
            match self.selections[i].duplicate(buffer, upwards) {
                Some(copy) => {
                    copies.push(copy);
                    proof {
                        assert(resolve_all(view, copies@) =~= found.push(copy.resolved(view)));
                    }
                },
                None => {},
            }
            i = i + 1;
        }
        proof {
            assert(self.selections@.take(i as int) =~= self.selections@);
        }
        copies
    }

    /// Copies the selections to the rows above or below, merges and counts
    /// the change.
    fn add_selections(&mut self, buffer: &Buffer, upwards: bool)
        requires
            buffer.wf(),
            old(self).attached(buffer@),
            old(self).version().1 < usize::MAX,
        ensures
            final(self).attached(buffer@),
            apart(final(self).resolved(buffer@)),
            old(self).valid(buffer@) ==> final(self).resolved(buffer@) == merge(
                insert_all(
                    old(self).resolved(buffer@),
                    duplicates(old(self).resolved(buffer@), buffer@.text, upwards),
                ),
            ),
            old(self).valid(buffer@) ==> final(self).wf(buffer@),
            final(self).version() == Version(
                old(self).version().0,
                (old(self).version().1 + 1) as usize,
            ),
    {
        let ghost before = self.resolved(buffer@);
        proof {
            if in_order(before) {
                lemma_in_order_sorted(before);
            }
        }
        let copies = self.duplicate_selections(buffer, upwards);
        self.insert_selections(buffer, &copies);
        proof {
            if in_order(before) {
                lemma_duplicates_upright(before, buffer@.text, upwards);
                lemma_insert_all(before, resolve_all(buffer@, copies@));
            }
            lemma_merge_ordered(self.resolved(buffer@));
        }
        self.merge_selections(buffer);
        self.inc_version();
    }

    /// Adds a selection from `start` to `end`, which enters the store at the
    /// place of its start; merges what then touches, and counts the change.
    /// In a valid store this leaves the store ordered.
    pub fn add_selection(&mut self, buffer: &Buffer, start: Point, end: Point)
        requires
            buffer.wf(),
            old(self).attached(buffer@),
            start.before_or_at(end),
            point_in_bounds(buffer@.text, start),
            point_in_bounds(buffer@.text, end),
            old(self).version().1 < usize::MAX,
        ensures
            final(self).attached(buffer@),
            apart(final(self).resolved(buffer@)),
            old(self).valid(buffer@) ==> final(self).wf(buffer@),
            old(self).valid(buffer@) ==> final(self).resolved(buffer@) == merge(
                insert_one(
                    old(self).resolved(buffer@),
                    ResolvedSelection { start, end, reversed: false, goal_column: None },
                ),
            ),
            final(self).version() == Version(
                old(self).version().0,
                (old(self).version().1 + 1) as usize,
            ),
    {
        let ghost before = self.resolved(buffer@);
        let selection = Selection {
            start: anchor_at(buffer, start),
            end: anchor_at(buffer, end),
            reversed: false,
            goal_column: None,
        };
        proof {
            if in_order(before) {
                lemma_in_order_sorted(before);
                lemma_insert_orders(before, selection.resolved(buffer@));
            }
        }
        self.insert_selection(buffer, selection);
        proof {
            lemma_merge_ordered(self.resolved(buffer@));
        }
        self.merge_selections(buffer);
        self.inc_version();
    }

    /// Copies every selection of one row to the row above, merges what then
    /// touches, and counts the change. Only the row next to a selection is
    /// tried. A copy lies between the column of the start and the goal
    /// column, beginning at the lesser of the two. In a valid store this
    /// leaves the store ordered.
    pub fn add_selection_above(&mut self, buffer: &Buffer)
        requires
            buffer.wf(),
            old(self).attached(buffer@),
            old(self).version().1 < usize::MAX,
        ensures
            final(self).attached(buffer@),
            apart(final(self).resolved(buffer@)),
            old(self).valid(buffer@) ==> final(self).resolved(buffer@) == merge(
                insert_all(
                    old(self).resolved(buffer@),
                    duplicates(old(self).resolved(buffer@), buffer@.text, true),
                ),
            ),
            old(self).valid(buffer@) ==> final(self).wf(buffer@),
            final(self).version() == Version(
                old(self).version().0,
                (old(self).version().1 + 1) as usize,
            ),
    {
        self.add_selections(buffer, true);
    }

    /// Copies every selection of one row to the row below, merges what then
    /// touches, and counts the change. Only the row next to a selection is
    /// tried. A copy lies between the column of the start and the goal
    /// column, beginning at the lesser of the two. In a valid store this
    /// leaves the store ordered.
    pub fn add_selection_below(&mut self, buffer: &Buffer)
        requires
            buffer.wf(),
            old(self).attached(buffer@),
            old(self).version().1 < usize::MAX,
        ensures
            final(self).attached(buffer@),
            apart(final(self).resolved(buffer@)),
            old(self).valid(buffer@) ==> final(self).resolved(buffer@) == merge(
                insert_all(
                    old(self).resolved(buffer@),
                    duplicates(old(self).resolved(buffer@), buffer@.text, false),
                ),
            ),
            old(self).valid(buffer@) ==> final(self).wf(buffer@),
            final(self).version() == Version(
                old(self).version().0,
                (old(self).version().1 + 1) as usize,
            ),
    {
        self.add_selections(buffer, false);
    }

    /// The store as a frame would show all of it.
    pub fn render_selections(&self, buffer: &Buffer) -> (shown: Vec<render::Selection>)
        requires
            buffer.wf(),
            self.attached(buffer@),
        ensures
            shown@ == render::rendered_all(self.resolved(buffer@)),
    {
        let mut shown: Vec<render::Selection> = Vec::new();
        let mut i: usize = 0;
        while i < self.selections.len()
            invariant
                buffer.wf(),
                i <= self.selections@.len(),
                all_attached(buffer@, self.selections@),
                shown@ == render::rendered_all(self.resolved(buffer@).take(i as int)),
            decreases self.selections@.len() - i,
        {
            shown.push(self.selections[i].render(buffer));
            proof {
                assert(shown@ =~= render::rendered_all(self.resolved(buffer@).take(i + 1)));
            }
            i = i + 1;
        }
        proof {
            assert(self.resolved(buffer@).take(i as int) =~= self.resolved(buffer@));
        }
        shown
    }

    /// A selection of the store begins at or before the end of the text.
    proof fn lemma_starts_in_text(&self, buffer: BufferView, i: int)
        requires
            buffer.wf(),
            all_attached(buffer, self.selections@),
            0 <= i < self.selections@.len(),
        ensures
            self.selections@[i].resolved(buffer).start.before_or_at(end_point(buffer.text)),
    {
        let anchor = self.selections@[i].start@;
        buffer.lemma_anchor_in_text(anchor);
        lemma_points_ordered(buffer.text, buffer.offset_of(anchor), buffer.text.len() as int);
    }

    /// The indices, from the first up to the second, of the selections that
    /// reach into the stretch from `start` up to `end`.
    fn query_selections(&self, buffer: &Buffer, start: Point, end: Point) -> (range: (
        usize,
        usize,
    ))
        requires
            buffer.wf(),
            self.attached(buffer@),
            point_in_bounds(buffer@.text, start),
            end.before_or_at(end_point(buffer@.text)) ==> point_in_bounds(buffer@.text, end),
        ensures
            range.0 <= range.1 <= self.selections@.len(),
            self.valid(buffer@) ==> forall|i: int|
                0 <= i < self.selections@.len() ==> (render::visible(
                    #[trigger] self.resolved(buffer@)[i],
                    start,
                    end,
                ) <==> range.0 <= i < range.1),
    {
        let ghost view = buffer@;
        let ghost store = self.resolved(view);
        proof {
            if in_order(store) {
                lemma_in_order_sorted(store);
            }
        }
        let start_anchor = anchor_at(buffer, start);
        let index = self.insert_position(buffer, &start_anchor);
        let low: usize = if index > 0 && lies_before(
            buffer,
            &start_anchor,
            &self.selections[index - 1].end,
        ) {
            index - 1
        } else {
            index
        };
        proof {
            if index > 0 {
                assert(store[index - 1] == self.selections@[index - 1].resolved(view));
            }
        }
        let max_point = buffer.max_point();
        let found: usize = if max_point.lt(&end) {
            proof {
                assert forall|i: int| 0 <= i < store.len() implies
                    (#[trigger] store[i]).start.before(end)
                by {
                    assert(store[i] == self.selections@[i].resolved(view));
                    buffer.lemma_wf();
                    self.lemma_starts_in_text(view, i);
                }
            }
            self.selections.len()
        } else {
            let end_anchor = buffer.anchor_after_point(end).unwrap();
            proof {
                if in_order(store) {
                    lemma_insert_index_parts(store, end);
                }
            }
            self.insert_position(buffer, &end_anchor)
        };
        let high: usize = if found < low {
            low
        } else {
            found
        };
        proof {
            if in_order(store) {
                render::lemma_visible_bounds(store, start, end, found as int);
            }
        }
        (low, high)
    }

    /// The frame for the rows from `first` up to `end`, where `first` is at
    /// most the last row of the text: the text of these rows as far as the
    /// text has them and, of a valid store, the selections that reach into
    /// them.
    pub fn render_rows(&self, buffer: &Buffer, first: u32, end: u32) -> (frame: render::Frame)
        requires
            buffer.wf(),
            self.attached(buffer@),
            first <= max_row(buffer@.text),
        ensures
            frame.first_visible_row == first,
            render::lines_of(frame.lines@) == render::visible_lines(
                buffer@.text,
                first as int,
                end as int,
            ),
            self.valid(buffer@) ==> frame.selections@ == render::visible_selections(
                self.resolved(buffer@),
                Point { row: first, column: 0 },
                Point { row: end, column: 0 },
            ),
    {
        let ghost view = buffer@;
        let ghost text = view.text;
        let units = buffer.iter_starting_at_row(first).unwrap();
        let ghost base = row_start(text, first as int);
        proof {
            buffer.lemma_wf();
            lemma_row_start(text, first as int);
        }
        let mut lines: Vec<Vec<u16>> = Vec::new();
        let mut current: Vec<u16> = Vec::new();
        let mut row: u32 = first;
        let mut i: usize = 0;
        while i < units.len() && row < end
            invariant
                buffer.wf(),
                view == buffer@,
                text == view.text,
                text.len() <= buffer::MAX_LEN,
                0 <= base <= text.len(),
                units@ == text.subrange(base, text.len() as int),
                i <= units@.len(),
                first <= row,
                row <= end || row == first,
                row == row_at(text, base + i),
                lines@.len() == row - first,
                forall|k: int|
                    0 <= k < lines@.len() ==> (#[trigger] lines@[k])@ == render::line(
                        text,
                        first + k,
                    ),
                current@ == text.subrange(line_start(text, base + i), base + i),
            decreases units@.len() - i,
        {
            let unit = units[i];
            let ghost at = base + i;
            proof {
                assert(unit == text[at]);
                lemma_line_start(text, at);
                lemma_line_start_is_row_start(text, at);
                lemma_row_at_bounds(text, at + 1);
            }
            if unit == NEWLINE {
                proof {
                    lemma_line_end_is(text, line_start(text, at), at);
                }
                lines.push(current);
                current = Vec::new();
                row = row + 1;
                proof {
                    assert(current@ =~= text.subrange(at + 1, at + 1));
                }
            } else {
                current.push(unit);
                proof {
                    assert(current@ =~= text.subrange(line_start(text, at + 1), at + 1));
                }
            }
            i = i + 1;
        }
        proof {
            lemma_row_at_monotone(text, base + i, text.len() as int);
            lemma_last_row(text);
            lemma_line_start_is_row_start(text, text.len() as int);
        }
        if row < end {
            proof {
                assert(current@ =~= render::line(text, row as int));
            }
            lines.push(current);
        }
        proof {
            assert(lines@.len() == render::visible_line_count(text, first as int, end as int));
            assert(render::lines_of(lines@) =~= render::visible_lines(
                text,
                first as int,
                end as int,
            ));
            lemma_line_len(text, first as int);
        }
        let start_point = Point::new(first, 0);
        let end_point = Point::new(end, 0);
        proof {
            if end <= max_row(text) {
                lemma_line_len(text, end as int);
            } else {
                lemma_row_at_bounds(text, text.len() as int);
            }
        }
        let (low, high) = self.query_selections(buffer, start_point, end_point);
        let mut selections: Vec<render::Selection> = Vec::new();
        let mut k: usize = low;
        while k < high
            invariant
                buffer.wf(),
                low <= k <= high <= self.selections@.len(),
                all_attached(buffer@, self.selections@),
                selections@ == render::rendered_all(
                    self.resolved(buffer@).subrange(low as int, k as int),
                ),
            decreases high - k,
        {
            selections.push(self.selections[k].render(buffer));
            proof {
                assert(selections@ =~= render::rendered_all(
                    self.resolved(buffer@).subrange(low as int, k + 1),
                ));
            }
            k = k + 1;
        }
        proof {
            if self.valid(buffer@) {
                render::lemma_visible_range(
                    self.resolved(buffer@),
                    start_point,
                    end_point,
                    low as int,
                    high as int,
                );
            }
        }
        render::Frame { first_visible_row: first, lines, selections }
    }

    /// The frame for a window: its first row, the text of its rows as far as
    /// the text has them and, of a valid store, the selections that reach
    /// into them. A window that begins below the last row is moved up to it.
    pub fn render(&self, buffer: &Buffer, params: render::Params) -> (frame: render::Frame)
        requires
            buffer.wf(),
            self.attached(buffer@),
            params.line_height > 0,
        ensures
            frame.first_visible_row == render::first_visible_row(
                params,
                max_row(buffer@.text),
            ),
            render::lines_of(frame.lines@) == render::visible_lines(
                buffer@.text,
                render::first_visible_row(params, max_row(buffer@.text)),
                render::end_visible_row(params, max_row(buffer@.text)),
            ),
            self.valid(buffer@) ==> frame.selections@ == render::visible_selections(
                self.resolved(buffer@),
                Point { row: frame.first_visible_row, column: 0 },
                Point {
                    row: render::end_visible_row(params, max_row(buffer@.text)) as u32,
                    column: 0,
                },
            ),
    {
        let (first, end) = render::visible_rows(params, buffer.max_point().row);
        self.render_rows(buffer, first, end)
    }
}

} // verus!
