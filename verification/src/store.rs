//! The selection store as a sequence of selections laid out in the text:
//! what it means for it to be ordered, and what merging does to it.

use vstd::prelude::*;
use crate::buffer::{end_point, point_in_bounds, Point, MAX_LEN};
use crate::movement::{
    above, below, clamp_column, goal_of, left_of, lemma_down_then_up_returns,
    lemma_steps_stop_at_the_ends, right_of,
};
use crate::text::{line_len, max_row};

verus! {

/// A selection as it lies in the text: the points of its two ends, which of
/// them is its head, and the column that vertical steps aim at.
pub struct ResolvedSelection {
    pub start: Point,
    pub end: Point,
    pub reversed: bool,
    pub goal_column: Option<u32>,
}

impl ResolvedSelection {
    /// A cursor: nothing lies between the two ends.
    pub open spec fn is_empty(self) -> bool {
        self.start == self.end
    }

    /// The end that moves when the selection is extended.
    pub open spec fn head(self) -> Point {
        if self.reversed {
            self.start
        } else {
            self.end
        }
    }

    /// The end that stays when the selection is extended.
    pub open spec fn tail(self) -> Point {
        if self.reversed {
            self.end
        } else {
            self.start
        }
    }

    /// The selection with its head at `head` and its tail where it was: it is
    /// reversed exactly if the new head lies before the tail.
    pub open spec fn with_head(self, head: Point) -> ResolvedSelection {
        if head.before(self.tail()) {
            ResolvedSelection {
                start: head,
                end: self.tail(),
                reversed: true,
                goal_column: self.goal_column,
            }
        } else {
            ResolvedSelection {
                start: self.tail(),
                end: head,
                reversed: false,
                goal_column: self.goal_column,
            }
        }
    }

    /// The selection with another goal column.
    pub open spec fn with_goal(self, goal_column: Option<u32>) -> ResolvedSelection {
        ResolvedSelection {
            start: self.start,
            end: self.end,
            reversed: self.reversed,
            goal_column,
        }
    }

    /// The selection with its end at `end`.
    pub open spec fn with_end(self, end: Point) -> ResolvedSelection {
        ResolvedSelection {
            start: self.start,
            end,
            reversed: self.reversed,
            goal_column: self.goal_column,
        }
    }

    /// `point` lies in the selection, its two ends included.
    pub open spec fn covers(self, point: Point) -> bool {
        self.start.before_or_at(point) && point.before_or_at(self.end)
    }

    /// The selection begins where it ends or before.
    pub open spec fn upright(self) -> bool {
        self.start.before_or_at(self.end)
    }
}

/// The ways in which every selection of the store is moved at once.
#[derive(Clone, Copy, Debug, PartialEq, Eq, Structural)]
pub enum Motion {
    MoveLeft,
    MoveRight,
    MoveUp,
    MoveDown,
    SelectLeft,
    SelectRight,
    SelectUp,
    SelectDown,
}

impl ResolvedSelection {
    /// A selection collapses to its start; a cursor steps to the left. The
    /// goal column is forgotten.
    pub open spec fn moved_left(self, text: Seq<u16>) -> ResolvedSelection {
        if self.is_empty() {
            cursor_at(left_of(text, self.start), None)
        } else {
            cursor_at(self.start, None)
        }
    }

    /// A selection collapses to its end; a cursor steps to the right. The
    /// goal column is forgotten.
    pub open spec fn moved_right(self, text: Seq<u16>) -> ResolvedSelection {
        if self.is_empty() {
            cursor_at(right_of(text, self.end), None)
        } else {
            cursor_at(self.end, None)
        }
    }

    /// The goal column that a vertical move starts with: that of a cursor,
    /// none for a selection that is not empty.
    pub open spec fn goal_for_move(self) -> Option<u32> {
        if self.is_empty() {
            self.goal_column
        } else {
            None
        }
    }

    /// A cursor one row above the start, which remembers the goal column.
    pub open spec fn moved_up(self, text: Seq<u16>) -> ResolvedSelection {
        cursor_at(
            above(text, self.start, self.goal_for_move()),
            Some(goal_of(self.start, self.goal_for_move())),
        )
    }

    /// A cursor one row below the end, which remembers the goal column.
    pub open spec fn moved_down(self, text: Seq<u16>) -> ResolvedSelection {
        cursor_at(
            below(text, self.end, self.goal_for_move()),
            Some(goal_of(self.end, self.goal_for_move())),
        )
    }

    /// The head steps to the left; the goal column is forgotten.
    pub open spec fn selected_left(self, text: Seq<u16>) -> ResolvedSelection {
        self.with_head(left_of(text, self.head())).with_goal(None)
    }

    /// The head steps to the right; the goal column is forgotten.
    pub open spec fn selected_right(self, text: Seq<u16>) -> ResolvedSelection {
        self.with_head(right_of(text, self.head())).with_goal(None)
    }

    /// The head steps one row up and remembers the goal column.
    pub open spec fn selected_up(self, text: Seq<u16>) -> ResolvedSelection {
        self.with_head(above(text, self.head(), self.goal_column)).with_goal(
            Some(goal_of(self.head(), self.goal_column)),
        )
    }

    /// The head steps one row down and remembers the goal column.
    pub open spec fn selected_down(self, text: Seq<u16>) -> ResolvedSelection {
        self.with_head(below(text, self.head(), self.goal_column)).with_goal(
            Some(goal_of(self.head(), self.goal_column)),
        )
    }

    /// The selection after one motion.
    pub open spec fn after(self, text: Seq<u16>, motion: Motion) -> ResolvedSelection {
        match motion {
            Motion::MoveLeft => self.moved_left(text),
            Motion::MoveRight => self.moved_right(text),
            Motion::MoveUp => self.moved_up(text),
            Motion::MoveDown => self.moved_down(text),
            Motion::SelectLeft => self.selected_left(text),
            Motion::SelectRight => self.selected_right(text),
            Motion::SelectUp => self.selected_up(text),
            Motion::SelectDown => self.selected_down(text),
        }
    }

    /// The copy of a selection of one row on row `row`, if there is one. It
    /// lies between two columns: that of the start and that of the goal,
    /// which is the remembered column or else that of the end, each as far as
    /// the row reaches. The copy begins at the lesser of the two and ends at
    /// the greater. A cursor is copied unless it would land at column 0
    /// without having been there; a range is copied unless it would be empty.
    pub open spec fn duplicate_on(self, text: Seq<u16>, row: int) -> Option<ResolvedSelection> {
        let goal = goal_of(self.end, self.goal_column);
        let len = line_len(text, row);
        let goal_column = clamp_column(goal, len);
        let start_column = if self.is_empty() {
            goal_column
        } else {
            clamp_column(self.start.column, len)
        };
        let wanted = if self.is_empty() {
            self.end.column == 0 || goal_column > 0
        } else {
            start_column != goal_column
        };
        if wanted {
            Some(
                ResolvedSelection {
                    start: Point {
                        row: row as u32,
                        column: if start_column <= goal_column {
                            start_column
                        } else {
                            goal_column
                        },
                    },
                    end: Point {
                        row: row as u32,
                        column: if start_column <= goal_column {
                            goal_column
                        } else {
                            start_column
                        },
                    },
                    reversed: self.reversed,
                    goal_column: Some(goal),
                },
            )
        } else {
            None
        }
    }

    /// The copy on the row above: none for a selection of several rows, nor
    /// for one on the first row.
    pub open spec fn duplicate_above(self, text: Seq<u16>) -> Option<ResolvedSelection> {
        if self.start.row != self.end.row || self.start.row == 0 {
            None
        } else {
            self.duplicate_on(text, self.start.row - 1)
        }
    }

    /// The copy on the row below: none for a selection of several rows, nor
    /// for one on the last row.
    pub open spec fn duplicate_below(self, text: Seq<u16>) -> Option<ResolvedSelection> {
        if self.start.row != self.end.row || self.start.row >= max_row(text) {
            None
        } else {
            self.duplicate_on(text, self.start.row + 1)
        }
    }

    /// The copy on the row above or below.
    pub open spec fn duplicate(self, text: Seq<u16>, upwards: bool) -> Option<ResolvedSelection> {
        if upwards {
            self.duplicate_above(text)
        } else {
            self.duplicate_below(text)
        }
    }
}

/// Every selection of the store after one motion.
pub open spec fn each_after(store: Seq<ResolvedSelection>, text: Seq<u16>, motion: Motion) -> Seq<
    ResolvedSelection,
> {
    Seq::new(store.len(), |i: int| store[i].after(text, motion))
}

/// The copies of the store's selections on the rows above or below, in the
/// order of the store.
pub open spec fn duplicates(store: Seq<ResolvedSelection>, text: Seq<u16>, upwards: bool) -> Seq<
    ResolvedSelection,
>
    decreases store.len(),
{
    if store.len() == 0 {
        Seq::empty()
    } else {
        match store.last().duplicate(text, upwards) {
            Some(copy) => duplicates(store.drop_last(), text, upwards).push(copy),
            None => duplicates(store.drop_last(), text, upwards),
        }
    }
}

/// A cursor at `point`.
pub open spec fn cursor_at(point: Point, goal_column: Option<u32>) -> ResolvedSelection {
    ResolvedSelection { start: point, end: point, reversed: false, goal_column }
}

/// Every selection begins where it ends or before.
pub open spec fn all_upright(store: Seq<ResolvedSelection>) -> bool {
    forall|i: int| 0 <= i < store.len() ==> (#[trigger] store[i]).upright()
}

/// Every selection ends strictly before the next one begins, so that no two
/// touch.
pub open spec fn apart(store: Seq<ResolvedSelection>) -> bool {
    forall|i: int|
        0 <= i < store.len() - 1 ==> (#[trigger] store[i]).end.before(store[i + 1].start)
}

/// The store's invariant: every selection begins where it ends or before,
/// and ends strictly before the next one begins.
pub open spec fn ordered(store: Seq<ResolvedSelection>) -> bool {
    all_upright(store) && apart(store)
}

/// What the store keeps of its invariant while the text is edited under it:
/// every selection begins where it ends or before, and ends where the next
/// one begins or before. Selections may have come to touch; none overlaps
/// another or has changed places with it.
pub open spec fn in_order(store: Seq<ResolvedSelection>) -> bool {
    &&& all_upright(store)
    &&& forall|i: int|
        0 <= i < store.len() - 1 ==> (#[trigger] store[i]).end.before_or_at(store[i + 1].start)
}

/// The selections stand in the order of their starts.
#[verifier::opaque]
pub open spec fn sorted_by_start(store: Seq<ResolvedSelection>) -> bool {
    forall|i: int, j: int|
        0 <= i <= j < store.len() ==> (#[trigger] store[i]).start.before_or_at(
            (#[trigger] store[j]).start,
        )
}

/// Some selection of the store covers `point`.
pub open spec fn covered(store: Seq<ResolvedSelection>, point: Point) -> bool {
    exists|i: int| 0 <= i < store.len() && (#[trigger] store[i]).covers(point)
}

/// One step of the merge pass. A selection that begins at or before the end
/// of the last merged one is absorbed: the last one reaches to the later of
/// the two ends. Any other selection is kept.
pub open spec fn absorb(merged: Seq<ResolvedSelection>, next: ResolvedSelection) -> Seq<
    ResolvedSelection,
> {
    if merged.len() > 0 && next.start.before_or_at(merged.last().end) {
        merged.update(merged.len() - 1, merged.last().with_end(merged.last().end.later(next.end)))
    } else {
        merged.push(next)
    }
}

/// The merge pass over the whole store, from left to right.
pub open spec fn merge(store: Seq<ResolvedSelection>) -> Seq<ResolvedSelection>
    decreases store.len(),
{
    if store.len() == 0 {
        store
    } else {
        absorb(merge(store.drop_last()), store.last())
    }
}

/// Where a selection that begins at `start` enters the store: behind the
/// selections that begin before `start`, in front of one that begins there.
pub open spec fn insert_index(store: Seq<ResolvedSelection>, start: Point) -> int
    decreases store.len(),
{
    if store.len() == 0 || !store[0].start.before(start) {
        0
    } else {
        1 + insert_index(store.drop_first(), start)
    }
}

/// The store with one more selection, at its place.
pub open spec fn insert_one(store: Seq<ResolvedSelection>, selection: ResolvedSelection) -> Seq<
    ResolvedSelection,
> {
    store.insert(insert_index(store, selection.start), selection)
}

/// The store with more selections, entered one after the other.
pub open spec fn insert_all(store: Seq<ResolvedSelection>, more: Seq<ResolvedSelection>) -> Seq<
    ResolvedSelection,
>
    decreases more.len(),
{
    if more.len() == 0 {
        store
    } else {
        insert_one(insert_all(store, more.drop_last()), more.last())
    }
}

/// The order of points is total and transitive.
pub proof fn lemma_point_order(a: Point, b: Point, c: Point)
    ensures
        a.before(b) || a == b || b.before(a),
        a.before_or_at(b) <==> !b.before(a),
        a.before_or_at(b) <==> a.before(b) || a == b,
        a.before(b) && b.before_or_at(c) ==> a.before(c),
        a.before_or_at(b) && b.before(c) ==> a.before(c),
        a.before_or_at(b) && b.before_or_at(c) ==> a.before_or_at(c),
{
}

/// The place at which a selection enters is the one index that has only
/// earlier starts in front of it and none behind it.
pub proof fn lemma_insert_index(store: Seq<ResolvedSelection>, start: Point, index: int)
    requires
        0 <= index <= store.len(),
        forall|i: int| 0 <= i < index ==> (#[trigger] store[i]).start.before(start),
        forall|i: int| index <= i < store.len() ==> !(#[trigger] store[i]).start.before(start),
    ensures
        insert_index(store, start) == index,
    decreases index,
{
    if index > 0 {
        let rest = store.drop_first();
        assert(store[0].start.before(start));
        assert forall|i: int| 0 <= i < index - 1 implies
            (#[trigger] rest[i]).start.before(start)
        by {
            assert(rest[i] == store[i + 1]);
        }
        assert forall|i: int| index - 1 <= i < rest.len() implies
            !(#[trigger] rest[i]).start.before(start)
        by {
            assert(rest[i] == store[i + 1]);
        }
        lemma_insert_index(rest, start, index - 1);
    } else if store.len() > 0 {
        assert(!store[0].start.before(start));
    }
}

/// In a store that stands in the order of its starts, the place at which a
/// selection enters parts the earlier starts from the others.
pub proof fn lemma_insert_index_parts(store: Seq<ResolvedSelection>, start: Point)
    requires
        sorted_by_start(store),
    ensures
        0 <= insert_index(store, start) <= store.len(),
        forall|i: int|
            0 <= i < insert_index(store, start) ==> (#[trigger] store[i]).start.before(start),
        forall|i: int|
            insert_index(store, start) <= i < store.len() ==> !(#[trigger] store[i]).start.before(
            start),
    decreases store.len(),
{
    reveal(sorted_by_start);
    if store.len() > 0 && store[0].start.before(start) {
        let rest = store.drop_first();
        assert forall|i: int, j: int| 0 <= i <= j < rest.len() implies
            (#[trigger] rest[i]).start.before_or_at((#[trigger] rest[j]).start)
        by {
            assert(rest[i] == store[i + 1]);
            assert(rest[j] == store[j + 1]);
        }
        lemma_insert_index_parts(rest, start);
        let index = insert_index(store, start);
        assert forall|i: int| 0 <= i < index implies (#[trigger] store[i]).start.before(start) by {
            if i > 0 {
                assert(rest[i - 1] == store[i]);
            }
        }
        assert forall|i: int| index <= i < store.len() implies
            !(#[trigger] store[i]).start.before(start)
        by {
            assert(rest[i - 1] == store[i]);
        }
    } else {
        assert forall|i: int| 0 <= i < store.len() implies
            !(#[trigger] store[i]).start.before(start)
        by {
            assert(store[0].start.before_or_at(store[i].start));
        }
    }
}

/// In a store that stands in the order of its starts, a selection enters so
/// that the order holds with it.
pub proof fn lemma_insert_one_sorted(store: Seq<ResolvedSelection>, selection: ResolvedSelection)
    requires
        sorted_by_start(store),
    ensures
        0 <= insert_index(store, selection.start) <= store.len(),
        sorted_by_start(insert_one(store, selection)),
        insert_one(store, selection).len() == store.len() + 1,
{
    reveal(sorted_by_start);
    let start = selection.start;
    lemma_insert_index_parts(store, start);
    let index = insert_index(store, start);
    let longer = insert_one(store, selection);
    assert forall|i: int, j: int| 0 <= i <= j < longer.len() implies
        (#[trigger] longer[i]).start.before_or_at((#[trigger] longer[j]).start)
    by {
        if i < index && j < index {
            assert(longer[i] == store[i] && longer[j] == store[j]);
        } else if i < index && j == index {
            assert(longer[i] == store[i]);
        } else if i < index {
            assert(longer[i] == store[i] && longer[j] == store[j - 1]);
        } else if i == index && j == index {
        } else if i == index {
            assert(longer[j] == store[j - 1]);
        } else {
            assert(longer[i] == store[i - 1] && longer[j] == store[j - 1]);
        }
    }
}

/// The merge pass leaves a store in which nothing touches: each selection
/// ends strictly before the next begins. It keeps at least one selection of a
/// store that had one, and adds none. Where every selection was upright, the
/// outcome is ordered.
pub proof fn lemma_merge_ordered(store: Seq<ResolvedSelection>)
    ensures
        merge(store).len() <= store.len(),
        store.len() > 0 ==> merge(store).len() > 0,
        apart(merge(store)),
        all_upright(store) ==> ordered(merge(store)),
    decreases store.len(),
{
    if store.len() > 0 {
        let front = store.drop_last();
        lemma_merge_ordered(front);
        let merged = merge(front);
        let next = store.last();
        let out = absorb(merged, next);
        assert(out == merge(store));
        if all_upright(store) {
            assert forall|i: int| 0 <= i < front.len() implies (#[trigger] front[i]).upright() by {
                assert(front[i] == store[i]);
            }
            assert(next.upright());
        }
    }
}

/// The number of selections that the merge pass takes out of the store:
/// those that begin at or before the end that the selections in front of
/// them have reached.
pub open spec fn absorbed(store: Seq<ResolvedSelection>) -> nat
    decreases store.len(),
{
    if store.len() == 0 {
        0
    } else {
        let merged = merge(store.drop_last());
        absorbed(store.drop_last()) + if merged.len() > 0 && store.last().start.before_or_at(
            merged.last().end,
        ) {
            1nat
        } else {
            0nat
        }
    }
}

/// The merge pass shortens the store by the number of selections that it
/// absorbs.
pub proof fn lemma_merge_len(store: Seq<ResolvedSelection>)
    ensures
        merge(store).len() + absorbed(store) == store.len(),
    decreases store.len(),
{
    if store.len() > 0 {
        lemma_merge_len(store.drop_last());
    }
}

/// A selection that the merge pass keeps is one of the store's, with its
/// start, its direction and its goal column; only its end may have moved, to
/// the end of a selection of the store.
pub proof fn lemma_merge_keeps(store: Seq<ResolvedSelection>, i: int)
    requires
        0 <= i < merge(store).len(),
    ensures
        exists|k: int, e: int|
            0 <= k < store.len() && 0 <= e < store.len() && merge(store)[i] == (
            #[trigger] store[k]).with_end((#[trigger] store[e]).end),
    decreases store.len(),
{
    let front = store.drop_last();
    let merged = merge(front);
    let next = store.last();
    let last = store.len() - 1;
    assert(merge(store) == absorb(merged, next));
    assert(store[last] == next);
    if merged.len() > 0 && next.start.before_or_at(merged.last().end) {
        lemma_merge_keeps(front, i);
        let (k, e) = choose|k: int, e: int|
            0 <= k < front.len() && 0 <= e < front.len() && merged[i] == (
            #[trigger] front[k]).with_end((#[trigger] front[e]).end);
        assert(front[k] == store[k] && front[e] == store[e]);
        if i == merged.len() - 1 && merged.last().end.before(next.end) {
            assert(merge(store)[i] == store[k].with_end(store[last].end));
        } else {
            assert(merge(store)[i] == store[k].with_end(store[e].end));
        }
    } else if i == merged.len() {
        assert(merge(store)[i] == store[last].with_end(store[last].end));
    } else {
        lemma_merge_keeps(front, i);
        let (k, e) = choose|k: int, e: int|
            0 <= k < front.len() && 0 <= e < front.len() && merged[i] == (
            #[trigger] front[k]).with_end((#[trigger] front[e]).end);
        assert(front[k] == store[k] && front[e] == store[e]);
        assert(merge(store)[i] == store[k].with_end(store[e].end));
    }
}

/// The merge pass changes nothing in an ordered store.
pub proof fn lemma_merge_of_ordered(store: Seq<ResolvedSelection>)
    requires
        ordered(store),
    ensures
        merge(store) == store,
    decreases store.len(),
{
    if store.len() > 0 {
        let front = store.drop_last();
        assert forall|i: int| 0 <= i < front.len() implies (#[trigger] front[i]).upright() by {
            assert(front[i] == store[i]);
        }
        assert forall|i: int| 0 <= i < front.len() - 1 implies
            (#[trigger] front[i]).end.before(front[i + 1].start)
        by {
            assert(front[i] == store[i]);
            assert(front[i + 1] == store[i + 1]);
        }
        lemma_merge_of_ordered(front);
        if front.len() > 0 {
            assert(front.last() == store[store.len() - 2]);
        }
        assert(front.push(store.last()) =~= store);
    }
}

/// A copy begins where it ends or before, on one row, whatever column the
/// selection remembers as its goal.
pub proof fn lemma_duplicate_upright(selection: ResolvedSelection, text: Seq<u16>, upwards: bool)
    ensures
        selection.duplicate(text, upwards) matches Some(copy) ==> copy.upright() && copy.start.row
            == copy.end.row,
{
}

/// All copies of a store begin where they end or before.
pub proof fn lemma_duplicates_upright(
    store: Seq<ResolvedSelection>,
    text: Seq<u16>,
    upwards: bool,
)
    ensures
        all_upright(duplicates(store, text, upwards)),
        duplicates(store, text, upwards).len() <= store.len(),
    decreases store.len(),
{
    if store.len() > 0 {
        lemma_duplicates_upright(store.drop_last(), text, upwards);
        lemma_duplicate_upright(store.last(), text, upwards);
    }
}

/// Wherever the head is put, on either side of the tail, the selection
/// begins where it ends or before, with the tail where it was.
pub proof fn lemma_with_head_upright(selection: ResolvedSelection, head: Point)
    ensures
        selection.with_head(head).upright(),
        selection.with_head(head).head() == head,
        selection.with_head(head).tail() == selection.tail(),
{
}

/// Whatever the motion, the selection that comes out begins where it ends or
/// before.
pub proof fn lemma_motion_upright(selection: ResolvedSelection, text: Seq<u16>, motion: Motion)
    ensures
        selection.after(text, motion).upright(),
{
}

/// Whatever the store and the motion, the store is ordered once every
/// selection has moved and the merge pass has run.
pub proof fn lemma_motion_orders(store: Seq<ResolvedSelection>, text: Seq<u16>, motion: Motion)
    ensures
        ordered(merge(each_after(store, text, motion))),
        merge(each_after(store, text, motion)).len() <= store.len(),
        store.len() > 0 ==> merge(each_after(store, text, motion)).len() > 0,
{
    let moved = each_after(store, text, motion);
    assert forall|i: int| 0 <= i < moved.len() implies (#[trigger] moved[i]).upright() by {
        lemma_motion_upright(store[i], text, motion);
    }
    lemma_merge_ordered(moved);
}

/// A store in order is ordered once an upright selection has entered it and
/// the merge pass has run.
pub proof fn lemma_insert_orders(store: Seq<ResolvedSelection>, selection: ResolvedSelection)
    requires
        in_order(store),
        selection.upright(),
    ensures
        ordered(merge(insert_one(store, selection))),
{
    lemma_in_order_sorted(store);
    lemma_insert_all(store, seq![selection]);
    assert(seq![selection].drop_last() =~= Seq::empty());
    assert(insert_all(store, Seq::empty()) == store);
    assert(insert_all(store, seq![selection]) == insert_one(store, selection));
    lemma_merge_ordered(insert_one(store, selection));
}

/// The merge pass does its work at once: run again, it changes nothing.
pub proof fn lemma_merge_twice(store: Seq<ResolvedSelection>)
    requires
        all_upright(store),
    ensures
        merge(merge(store)) == merge(store),
{
    lemma_merge_ordered(store);
    lemma_merge_of_ordered(merge(store));
}

/// A store in order stands in the order of its starts.
pub proof fn lemma_in_order_sorted(store: Seq<ResolvedSelection>)
    requires
        in_order(store),
    ensures
        sorted_by_start(store),
{
    reveal(sorted_by_start);
    assert forall|i: int, j: int| 0 <= i <= j < store.len() implies
        (#[trigger] store[i]).start.before_or_at((#[trigger] store[j]).start)
    by {
        lemma_in_order_apart(store, i, j);
    }
}

/// In a store in order a selection ends where a later one begins or before;
/// in an ordered store, strictly before.
pub proof fn lemma_in_order_apart(store: Seq<ResolvedSelection>, i: int, j: int)
    requires
        in_order(store),
        0 <= i <= j < store.len(),
    ensures
        store[i].start.before_or_at(store[j].start),
        i < j ==> store[i].end.before_or_at(store[j].start),
        i < j && ordered(store) ==> store[i].end.before(store[j].start),
    decreases j - i,
{
    if i < j {
        lemma_in_order_apart(store, i, j - 1);
        assert(store[j - 1].upright());
        assert(store[j - 1].end.before_or_at(store[j].start));
        if ordered(store) {
            assert(store[j - 1].end.before(store[j].start));
        }
    }
}

/// Entering upright selections into a store of upright selections that
/// stands in the order of its starts gives such a store again.
pub proof fn lemma_insert_all(store: Seq<ResolvedSelection>, more: Seq<ResolvedSelection>)
    requires
        sorted_by_start(store),
    ensures
        sorted_by_start(insert_all(store, more)),
        insert_all(store, more).len() == store.len() + more.len(),
        all_upright(store) && all_upright(more) ==> all_upright(insert_all(store, more)),
    decreases more.len(),
{
    if more.len() > 0 {
        let front = more.drop_last();
        lemma_insert_all(store, front);
        let entered = insert_all(store, front);
        lemma_insert_one_sorted(entered, more.last());
        if all_upright(store) && all_upright(more) {
            assert forall|i: int| 0 <= i < front.len() implies (#[trigger] front[i]).upright() by {
                assert(front[i] == more[i]);
            }
            assert(more.last().upright());
            let out = insert_one(entered, more.last());
            let index = insert_index(entered, more.last().start);
            assert forall|i: int| 0 <= i < out.len() implies (#[trigger] out[i]).upright() by {
                if i < index {
                    assert(out[i] == entered[i]);
                } else if i > index {
                    assert(out[i] == entered[i - 1]);
                }
            }
        }
    }
}

/// Two selections touch or overlap: each begins where the other ends or
/// before.
pub open spec fn touches(a: ResolvedSelection, b: ResolvedSelection) -> bool {
    a.start.before_or_at(b.end) && b.start.before_or_at(a.end)
}

/// The number of selections of the store that touch or overlap `selection`.
pub open spec fn touching(store: Seq<ResolvedSelection>, selection: ResolvedSelection) -> nat
    decreases store.len(),
{
    if store.len() == 0 {
        0
    } else {
        touching(store.drop_last(), selection) + if touches(store.last(), selection) {
            1nat
        } else {
            0nat
        }
    }
}

/// The merge pass keeps what the store covers: a point lies in a selection of
/// the merged store exactly if it lay in one before. The store must stand in
/// the order of its starts, with every selection upright.
pub proof fn lemma_merge_covers(store: Seq<ResolvedSelection>, point: Point)
    requires
        sorted_by_start(store),
        all_upright(store),
    ensures
        covered(merge(store), point) <==> covered(store, point),
        store.len() > 0 ==> merge(store).len() > 0 && exists|k: int|
            0 <= k < store.len() && merge(store).last().start == (#[trigger] store[k]).start,
    decreases store.len(),
{
    reveal(sorted_by_start);
    if store.len() > 0 {
        let front = store.drop_last();
        let next = store.last();
        let last = store.len() - 1;
        assert forall|i: int| 0 <= i < front.len() implies
            front[i] == store[i] by {} assert(sorted_by_start(front))
        by {
            assert forall|i: int, j: int| 0 <= i <= j < front.len() implies
                (#[trigger] front[i]).start.before_or_at((#[trigger] front[j]).start)
            by {
                assert(store[i].start.before_or_at(store[j].start));
            }
        }
        assert(all_upright(front)) by {
            assert forall|i: int| 0 <= i < front.len() implies (#[trigger] front[i]).upright() by {
                assert(store[i].upright());
            }
        }
        lemma_merge_covers(front, point);
        let merged = merge(front);
        let out = absorb(merged, next);
        assert(out == merge(store));
        assert(next == store[last]);
        assert(next.upright());
        // what the store covers is what its front covers, and its last selection
        assert(covered(store, point) <==> covered(front, point) || next.covers(point)) by {
            if covered(store, point) {
                let i = choose|i: int| 0 <= i < store.len() && (#[trigger] store[i]).covers(point);
                if i < last {
                    assert(front[i].covers(point));
                }
            }
            if covered(front, point) {
                let i = choose|i: int| 0 <= i < front.len() && (#[trigger] front[i]).covers(point);
                assert(store[i].covers(point));
            }
        }
        if merged.len() > 0 && next.start.before_or_at(merged.last().end) {
            let old_last = merged.last();
            let top = merged.len() - 1;
            let k = choose|k: int|
                0 <= k < front.len() && merged.last().start == (#[trigger] front[k]).start;
            assert(store[k].start.before_or_at(store[last].start));
            assert(out[top].start == store[k].start);
            assert(out[top].covers(point) <==> old_last.covers(point) || next.covers(point));
            if covered(out, point) {
                let i = choose|i: int| 0 <= i < out.len() && (#[trigger] out[i]).covers(point);
                if i < top {
                    assert(merged[i].covers(point));
                }
            }
            if covered(merged, point) {
                let i = choose|i: int| 0 <= i < merged.len() && (#[trigger] merged[i]).covers(
                    point,
                );
                if i < top {
                    assert(out[i].covers(point));
                } else {
                    assert(out[top].covers(point));
                }
            }
            if next.covers(point) {
                assert(out[top].covers(point));
            }
        } else {
            let top = merged.len() as int;
            assert(out[top] == next);
            assert(out.last().start == store[last].start);
            if covered(out, point) {
                let i = choose|i: int| 0 <= i < out.len() && (#[trigger] out[i]).covers(point);
                if i < top {
                    assert(merged[i].covers(point));
                }
            }
            if covered(merged, point) {
                let i = choose|i: int| 0 <= i < merged.len() && (#[trigger] merged[i]).covers(
                    point,
                );
                assert(out[i].covers(point));
            }
            if next.covers(point) {
                assert(out[top].covers(point));
            }
        }
    }
}

/// A selection that enters an ordered store and is merged takes nothing from
/// what the store covers and adds only what it covers itself.
pub proof fn lemma_insert_covers(
    store: Seq<ResolvedSelection>,
    selection: ResolvedSelection,
    point: Point,
)
    requires
        in_order(store),
        selection.upright(),
    ensures
        covered(merge(insert_one(store, selection)), point) <==> covered(store, point)
            || selection.covers(point),
{
    lemma_in_order_sorted(store);
    lemma_insert_one_sorted(store, selection);
    let index = insert_index(store, selection.start);
    let longer = insert_one(store, selection);
    assert(all_upright(longer)) by {
        assert forall|i: int| 0 <= i < longer.len() implies (#[trigger] longer[i]).upright() by {
            if i < index {
                assert(longer[i] == store[i]);
            } else if i > index {
                assert(longer[i] == store[i - 1]);
            }
        }
    }
    lemma_merge_covers(longer, point);
    if covered(longer, point) {
        let i = choose|i: int| 0 <= i < longer.len() && (#[trigger] longer[i]).covers(point);
        if i < index {
            assert(store[i].covers(point));
        } else if i > index {
            assert(store[i - 1].covers(point));
        }
    }
    if covered(store, point) {
        let i = choose|i: int| 0 <= i < store.len() && (#[trigger] store[i]).covers(point);
        if i < index {
            assert(longer[i].covers(point));
        } else {
            assert(longer[i + 1] == store[i]);
            assert(longer[i + 1].covers(point));
        }
    }
    if selection.covers(point) {
        assert(longer[index].covers(point));
    }
}

/// Where no selection of the store touches `selection`, none is counted.
proof fn lemma_touching_none(store: Seq<ResolvedSelection>, selection: ResolvedSelection)
    requires
        forall|i: int| 0 <= i < store.len() ==> !touches(#[trigger] store[i], selection),
    ensures
        touching(store, selection) == 0,
    decreases store.len(),
{
    if store.len() > 0 {
        let front = store.drop_last();
        assert forall|i: int| 0 <= i < front.len() implies
            !touches(#[trigger] front[i], selection)
        by {
            assert(front[i] == store[i]);
        }
        lemma_touching_none(front, selection);
        assert(!touches(store[store.len() - 1], selection));
    }
}

/// The front of an ordered store is ordered.
proof fn lemma_ordered_take(store: Seq<ResolvedSelection>, count: int)
    requires
        ordered(store),
        0 <= count <= store.len(),
    ensures
        ordered(store.take(count)),
{
    let front = store.take(count);
    assert forall|i: int| 0 <= i < front.len() implies (#[trigger] front[i]).upright() by {
        assert(front[i] == store[i]);
        assert(store[i].upright());
    }
    assert forall|i: int| 0 <= i < front.len() - 1 implies
        (#[trigger] front[i]).end.before(front[i + 1].start)
    by {
        assert(front[i] == store[i]);
        assert(front[i + 1] == store[i + 1]);
        assert(store[i].end.before(store[i + 1].start));
    }
}

/// How far the merge pass has come in a store that `selection` has entered,
/// when it has seen the selection and the first `done` of the others. Its
/// length is told by how many of these the selection touches. Either the
/// last merged selection still reaches to the end of `selection` or beyond,
/// and ends where it or one of those already seen ends; or the pass has left
/// the selection behind, and the last merged selection is the last one seen.
spec fn pass_state(
    store: Seq<ResolvedSelection>,
    selection: ResolvedSelection,
    done: int,
    merged: Seq<ResolvedSelection>,
) -> bool {
    &&& merged.len() > 0
    &&& merged.len() + touching(store.take(done), selection) == done + 1
    &&& {
        ||| {
            &&& selection.end.before_or_at(merged.last().end)
            &&& merged.last().end == selection.end || exists|i: int|
                0 <= i < done && merged.last().end == (#[trigger] store[i]).end
        }
        ||| {
            &&& done > 0
            &&& merged.last() == store[done - 1]
            &&& selection.end.before(store[done - 1].start)
        }
    }
}

proof fn lemma_pass_state(store: Seq<ResolvedSelection>, selection: ResolvedSelection, done: int)
    requires
        ordered(store),
        selection.upright(),
        insert_index(store, selection.start) <= done <= store.len(),
    ensures
        pass_state(store, selection, done, merge(insert_one(store, selection).take(done + 1))),
    decreases done,
{
    let index = insert_index(store, selection.start);
    let longer = insert_one(store, selection);
    assert({
        &&& 0 <= index <= store.len()
        &&& forall|i: int| 0 <= i < index ==> (#[trigger] store[i]).start.before(selection.start)
        &&& forall|i: int|
            index <= i < store.len() ==> !(#[trigger] store[i]).start.before(selection.start)
    }) by {
        lemma_in_order_sorted(store);
        lemma_insert_index_parts(store, selection.start);
    }
    if done == index {
        let front = store.take(index);
        assert(longer.take(index + 1).drop_last() =~= front);
        assert(longer.take(index + 1).last() == selection);
        lemma_ordered_take(store, index);
        lemma_merge_of_ordered(front);
        let out = absorb(front, selection);
        assert(merge(longer.take(index + 1)) == out);
        if index > 0 {
            assert(front.drop_last() =~= store.take(index - 1));
            assert(front.last() == store[index - 1]);
            assert(store[index - 1].start.before(selection.start));
            assert forall|i: int| 0 <= i < index - 1 implies
                !touches(#[trigger] store.take(index - 1)[i], selection)
            by {
                lemma_in_order_apart(store, i, index - 1);
            }
            lemma_touching_none(store.take(index - 1), selection);
            if selection.start.before_or_at(store[index - 1].end) {
                assert(touches(store[index - 1], selection));
                let end = store[index - 1].end.later(selection.end);
                assert(out.last().end == end);
                if end != selection.end {
                    assert(out.last().end == store[index - 1].end);
                }
            } else {
                assert(out.last() == selection);
            }
        } else {
            assert(out.last() == selection);
        }
    } else {
        let seen = done - 1;
        lemma_pass_state(store, selection, seen);
        let merged = merge(longer.take(seen + 1));
        let next = store[seen];
        assert(longer.take(done + 1).drop_last() =~= longer.take(seen + 1));
        assert(longer.take(done + 1).last() == next);
        let out = absorb(merged, next);
        assert(merge(longer.take(done + 1)) == out);
        assert(store.take(done).drop_last() =~= store.take(seen));
        assert(store.take(done).last() == next);
        assert(!next.start.before(selection.start));
        assert(next.upright());
        assert(touches(next, selection) <==> next.start.before_or_at(selection.end));
        let last = merged.last();
        if seen > 0 && last == store[seen - 1] && selection.end.before(store[seen - 1].start) {
            lemma_in_order_apart(store, seen - 1, seen);
            assert(store[seen - 1].upright());
            assert(out == merged.push(next));
            assert(out.last() == store[done - 1]);
        } else {
            assert(selection.end.before_or_at(last.end));
            if next.start.before_or_at(last.end) {
                if last.end != selection.end {
                    let i = choose|i: int| 0 <= i < seen && last.end == (#[trigger] store[i]).end;
                    lemma_in_order_apart(store, i, seen);
                    assert(false);
                }
                let end = last.end.later(next.end);
                assert(out.last().end == end);
                if end != selection.end {
                    if end == next.end {
                        assert(out.last().end == store[seen].end);
                    }
                }
            } else {
                assert(out == merged.push(next));
                assert(out.last() == store[done - 1]);
            }
        }
    }
}

/// What the merge pass has left behind stays as it is: only the last merged
/// selection can still grow.
pub proof fn lemma_merge_settled(store: Seq<ResolvedSelection>, done: int, i: int)
    requires
        0 <= done <= store.len(),
        0 <= i < merge(store.take(done)).len() - 1,
    ensures
        i < merge(store).len(),
        merge(store)[i] == merge(store.take(done))[i],
    decreases store.len() - done,
{
    if done == store.len() {
        assert(store.take(done) =~= store);
    } else {
        let longer = store.take(done + 1);
        assert(longer.drop_last() =~= store.take(done));
        assert(merge(longer) == absorb(merge(store.take(done)), longer.last()));
        lemma_merge_settled(store, done + 1, i);
    }
}

/// A selection of an ordered store that the entering selection does not
/// touch is in the store afterwards as it was: with its start, its end, its
/// direction and its goal column.
pub proof fn lemma_insert_keeps_untouched(
    store: Seq<ResolvedSelection>,
    selection: ResolvedSelection,
    i: int,
)
    requires
        ordered(store),
        selection.upright(),
        0 <= i < store.len(),
        !touches(store[i], selection),
    ensures
        exists|j: int|
            0 <= j < merge(insert_one(store, selection)).len() && #[trigger] merge(
                insert_one(store, selection),
            )[j] == store[i],
{
    let index = insert_index(store, selection.start);
    let longer = insert_one(store, selection);
    let kept = store[i];
    assert({
        &&& 0 <= index <= store.len()
        &&& forall|k: int| 0 <= k < index ==> (#[trigger] store[k]).start.before(selection.start)
        &&& forall|k: int|
            index <= k < store.len() ==> !(#[trigger] store[k]).start.before(selection.start)
    }) by {
        lemma_in_order_sorted(store);
        lemma_insert_index_parts(store, selection.start);
    }
    assert(kept.upright());
    // where the selection stands in the longer store, and that the pass keeps it
    let place = if i < index {
        i
    } else {
        i + 1
    };
    assert(longer[place] == kept);
    let upto = merge(longer.take(place + 1));
    assert(upto.len() > 0 && upto.last() == kept) by {
        if i < index {
            assert(longer.take(i + 1) =~= store.take(i + 1));
            lemma_ordered_take(store, i + 1);
            lemma_merge_of_ordered(store.take(i + 1));
        } else {
            lemma_pass_state(store, selection, i);
            let merged = merge(longer.take(i + 1));
            assert(longer.take(i + 2).drop_last() =~= longer.take(i + 1));
            assert(longer.take(i + 2).last() == kept);
            assert(upto == absorb(merged, kept));
            assert(!kept.start.before(selection.start));
            assert(selection.end.before(kept.start));
            if i > 0 && merged.last() == store[i - 1] && selection.end.before(
                store[i - 1].start,
            ) {
                lemma_in_order_apart(store, i - 1, i);
            } else if merged.last().end != selection.end {
                let k = choose|k: int| 0 <= k < i && merged.last().end == (#[trigger] store[k]).end;
                lemma_in_order_apart(store, k, i);
            }
            assert(!kept.start.before_or_at(merged.last().end));
        }
    }
    if place + 1 == longer.len() {
        assert(longer.take(place + 1) =~= longer);
        assert(merge(longer)[upto.len() - 1] == kept);
    } else {
        // the next selection begins behind it, so the pass goes on past it
        let next = longer[place + 1];
        assert(kept.end.before(next.start)) by {
            if place + 1 == index {
                assert(next == selection);
                assert(store[i].start.before(selection.start));
            } else {
                assert(next == store[i + 1]);
                assert(store[i].end.before(store[i + 1].start));
            }
        }
        assert(longer.take(place + 2).drop_last() =~= longer.take(place + 1));
        assert(longer.take(place + 2).last() == next);
        assert(merge(longer.take(place + 2)) == upto.push(next));
        lemma_merge_settled(longer, place + 2, upto.len() - 1);
        assert(merge(longer)[upto.len() - 1] == kept);
    }
}

/// A selection that enters an ordered store absorbs, or is absorbed with,
/// just the selections that it touches: after the merge the store holds one
/// selection more than before, less the number of those it touched.
pub proof fn lemma_insert_absorbs(store: Seq<ResolvedSelection>, selection: ResolvedSelection)
    requires
        ordered(store),
        selection.upright(),
    ensures
        merge(insert_one(store, selection)).len() + touching(store, selection) == store.len()
            + 1,
{
    lemma_in_order_sorted(store);
    lemma_insert_one_sorted(store, selection);
    lemma_pass_state(store, selection, store.len() as int);
    assert(insert_one(store, selection).take(store.len() as int + 1) =~= insert_one(
        store,
        selection,
    ));
    assert(store.take(store.len() as int) =~= store);
}

/// A store of one cursor after one motion is a store of one selection, which
/// the merge pass leaves alone.
pub proof fn lemma_lone_cursor(cursor: ResolvedSelection, text: Seq<u16>, motion: Motion)
    ensures
        merge(each_after(seq![cursor], text, motion)) == seq![cursor.after(text, motion)],
{
    let moved = seq![cursor.after(text, motion)];
    assert(each_after(seq![cursor], text, motion) =~= moved);
    lemma_motion_upright(cursor, text, motion);
    lemma_merge_of_ordered(moved);
}

/// A lone cursor at the start of the text stays there however often it is
/// moved to the left, and one at the end of the text however often it is
/// moved to the right.
pub proof fn lemma_cursor_stops_at_the_ends(text: Seq<u16>, goal_column: Option<u32>)
    requires
        text.len() <= MAX_LEN,
    ensures
        merge(
            each_after(
                seq![cursor_at(Point { row: 0, column: 0 }, goal_column)],
                text,
                Motion::MoveLeft,
            ),
        ) == seq![cursor_at(Point { row: 0, column: 0 }, None)],
        merge(each_after(seq![cursor_at(end_point(text), goal_column)], text, Motion::MoveRight))
            == seq![cursor_at(end_point(text), None)],
{
    lemma_steps_stop_at_the_ends(text);
    lemma_lone_cursor(cursor_at(Point { row: 0, column: 0 }, goal_column), text, Motion::MoveLeft);
    lemma_lone_cursor(cursor_at(end_point(text), goal_column), text, Motion::MoveRight);
}

/// A lone cursor that is moved down and then up is back where it was, also
/// where the row below is shorter than its column; it then remembers that
/// column as its goal.
pub proof fn lemma_cursor_down_then_up(text: Seq<u16>, point: Point)
    requires
        text.len() <= MAX_LEN,
        point_in_bounds(text, point),
        point.row < max_row(text),
    ensures
        merge(
            each_after(
                merge(each_after(seq![cursor_at(point, None)], text, Motion::MoveDown)),
                text,
                Motion::MoveUp,
            ),
        ) == seq![cursor_at(point, Some(point.column))],
{
    let cursor = cursor_at(point, None);
    lemma_lone_cursor(cursor, text, Motion::MoveDown);
    lemma_lone_cursor(cursor.after(text, Motion::MoveDown), text, Motion::MoveUp);
    lemma_down_then_up_returns(text, point);
}

} // verus!
