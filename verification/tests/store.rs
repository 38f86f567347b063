use xray_core::buffer::{Buffer, Point, Version as BufferVersion};
use xray_core::editor::render::Selection;
use xray_core::editor::{Action, Editor, Event, Version};

fn buffer_of(text: &str) -> Buffer {
    let mut buffer = Buffer::new(1);
    buffer.splice(0..0, text).unwrap();
    buffer
}

fn cursor(row: u32, column: u32) -> Selection {
    range((row, column), (row, column))
}

fn range(start: (u32, u32), end: (u32, u32)) -> Selection {
    Selection {
        start: Point::new(start.0, start.1),
        end: Point::new(end.0, end.1),
        reversed: false,
    }
}

fn reversed(start: (u32, u32), end: (u32, u32)) -> Selection {
    Selection {
        start: Point::new(start.0, start.1),
        end: Point::new(end.0, end.1),
        reversed: true,
    }
}

fn is_ordered(store: &[Selection]) -> bool {
    store.iter().all(|s| s.start.le(&s.end))
        && store.windows(2).all(|pair| pair[0].end.lt(&pair[1].start))
}

fn covers(store: &[Selection], point: Point) -> bool {
    store.iter().any(|s| s.start.le(&point) && point.le(&s.end))
}

fn all_points(buffer: &Buffer) -> Vec<Point> {
    (0..=buffer.len())
        .map(|offset| buffer.point_for_offset(offset).unwrap())
        .collect()
}

#[test]
fn test_new_editor_has_one_cursor() {
    let buffer = buffer_of("abc\ndef");
    let editor = Editor::new(&buffer);
    assert_eq!(editor.render_selections(&buffer), vec![cursor(0, 0)]);
    assert_eq!(editor.version(), Version(BufferVersion(1), 0));
    assert!(editor.is_attached(&buffer));
    assert!(editor.is_valid(&buffer));
}

#[test]
fn test_every_operation_counts_once() {
    let buffer = buffer_of("abc\ndef\nghi");
    let mut editor = Editor::new(&buffer);
    let mut expected = 0;
    editor.move_right(&buffer);
    expected += 1;
    assert_eq!(editor.version(), Version(BufferVersion(1), expected));
    editor.select_right(&buffer);
    editor.select_down(&buffer);
    editor.select_left(&buffer);
    editor.select_up(&buffer);
    expected += 4;
    assert_eq!(editor.version(), Version(BufferVersion(1), expected));
    editor.move_down(&buffer);
    editor.move_up(&buffer);
    editor.move_left(&buffer);
    expected += 3;
    assert_eq!(editor.version(), Version(BufferVersion(1), expected));
    editor.add_selection(&buffer, Point::new(2, 0), Point::new(2, 1));
    editor.add_selection_above(&buffer);
    editor.add_selection_below(&buffer);
    expected += 3;
    assert_eq!(editor.version(), Version(BufferVersion(1), expected));
}

#[test]
fn test_buffer_change_resets_the_count() {
    let mut buffer = buffer_of("abc");
    let mut editor = Editor::new(&buffer);
    editor.move_right(&buffer);
    editor.move_right(&buffer);
    assert_eq!(editor.version(), Version(BufferVersion(1), 2));
    buffer.splice(0..0, "x").unwrap();
    assert_eq!(
        editor.observe(Event::Revision(buffer.version())),
        Action::Publish(Version(BufferVersion(2), 0))
    );
    assert_eq!(editor.version(), Version(BufferVersion(2), 0));
    assert_eq!(editor.render_selections(&buffer), vec![cursor(0, 3)]);
    editor.move_left(&buffer);
    assert_eq!(editor.version(), Version(BufferVersion(2), 1));
}

#[test]
fn test_wrap_across_an_empty_line() {
    let buffer = buffer_of("abc\n\ndef");
    let mut editor = Editor::new(&buffer);
    for _ in 0..3 {
        editor.move_right(&buffer);
    }
    assert_eq!(editor.render_selections(&buffer), vec![cursor(0, 3)]);
    editor.move_right(&buffer);
    assert_eq!(editor.render_selections(&buffer), vec![cursor(1, 0)]);
}

#[test]
fn test_moves_stop_at_the_ends() {
    let buffer = buffer_of("abc\n\ndef");
    let mut editor = Editor::new(&buffer);
    for _ in 0..5 {
        editor.move_left(&buffer);
        assert_eq!(editor.render_selections(&buffer), vec![cursor(0, 0)]);
    }
    for _ in 0..8 {
        editor.move_right(&buffer);
    }
    for _ in 0..5 {
        editor.move_right(&buffer);
        assert_eq!(editor.render_selections(&buffer), vec![cursor(2, 3)]);
    }
}

#[test]
fn test_goal_column_survives_a_short_line() {
    let buffer = buffer_of("abcdef\nab\nabcdef");
    let mut editor = Editor::new(&buffer);
    for _ in 0..5 {
        editor.move_right(&buffer);
    }
    editor.move_down(&buffer);
    assert_eq!(editor.render_selections(&buffer), vec![cursor(1, 2)]);
    editor.move_up(&buffer);
    assert_eq!(editor.render_selections(&buffer), vec![cursor(0, 5)]);
    editor.move_down(&buffer);
    editor.move_down(&buffer);
    assert_eq!(editor.render_selections(&buffer), vec![cursor(2, 5)]);
    editor.move_up(&buffer);
    editor.move_up(&buffer);
    assert_eq!(editor.render_selections(&buffer), vec![cursor(0, 5)]);

    // a horizontal move forgets the goal
    editor.move_down(&buffer);
    editor.move_left(&buffer);
    editor.move_down(&buffer);
    assert_eq!(editor.render_selections(&buffer), vec![cursor(2, 1)]);
}

#[test]
fn test_set_head_reverses() {
    let buffer = buffer_of("abcdef");
    let mut editor = Editor::new(&buffer);
    for _ in 0..3 {
        editor.move_right(&buffer);
    }
    editor.select_left(&buffer);
    editor.select_left(&buffer);
    assert_eq!(editor.render_selections(&buffer), vec![reversed((0, 1), (0, 3))]);
    for _ in 0..2 {
        editor.select_right(&buffer);
    }
    assert_eq!(editor.render_selections(&buffer), vec![cursor(0, 3)]);
    editor.select_right(&buffer);
    assert_eq!(editor.render_selections(&buffer), vec![range((0, 3), (0, 4))]);
    for _ in 0..3 {
        editor.select_left(&buffer);
    }
    assert_eq!(editor.render_selections(&buffer), vec![reversed((0, 1), (0, 3))]);
}

#[test]
fn test_moved_selections_merge() {
    let buffer = buffer_of("abcdef\nabcdef");
    let mut editor = Editor::new(&buffer);
    editor.add_selection(&buffer, Point::new(0, 2), Point::new(0, 2));
    editor.add_selection(&buffer, Point::new(0, 4), Point::new(0, 5));
    editor.add_selection(&buffer, Point::new(1, 1), Point::new(1, 1));
    assert_eq!(
        editor.render_selections(&buffer),
        vec![cursor(0, 0), cursor(0, 2), range((0, 4), (0, 5)), cursor(1, 1)]
    );
    // the head of every selection steps to the left
    editor.select_left(&buffer);
    assert_eq!(
        editor.render_selections(&buffer),
        vec![
            cursor(0, 0),
            reversed((0, 1), (0, 2)),
            cursor(0, 4),
            reversed((1, 0), (1, 1))
        ]
    );
    // the second selection comes to touch the first and is absorbed by it:
    // the merged selection keeps the direction of the first
    editor.select_left(&buffer);
    assert_eq!(
        editor.render_selections(&buffer),
        vec![
            range((0, 0), (0, 2)),
            reversed((0, 3), (0, 4)),
            reversed((0, 6), (1, 1))
        ]
    );
    editor.select_left(&buffer);
    assert_eq!(
        editor.render_selections(&buffer),
        vec![
            range((0, 0), (0, 1)),
            reversed((0, 2), (0, 4)),
            reversed((0, 5), (1, 1))
        ]
    );
    editor.move_left(&buffer);
    assert_eq!(
        editor.render_selections(&buffer),
        vec![cursor(0, 0), cursor(0, 2), cursor(0, 5)]
    );
    // cursors that land on one place become one
    editor.move_up(&buffer);
    assert_eq!(editor.render_selections(&buffer), vec![cursor(0, 0)]);
}

#[test]
fn test_vertical_moves_merge() {
    let buffer = buffer_of("abcdef\n\nabcdef");
    let mut editor = Editor::new(&buffer);
    editor.add_selection(&buffer, Point::new(0, 3), Point::new(0, 3));
    editor.add_selection(&buffer, Point::new(0, 5), Point::new(0, 5));
    editor.move_down(&buffer);
    assert_eq!(editor.render_selections(&buffer), vec![cursor(1, 0)]);
    // the merged cursor keeps what the first one remembered
    editor.move_down(&buffer);
    assert_eq!(editor.render_selections(&buffer), vec![cursor(2, 0)]);
}

#[test]
fn test_store_is_ordered_after_every_operation() {
    let buffer = buffer_of("abcdef\nab\n\nabcd\nabcdefgh");
    let mut editor = Editor::new(&buffer);
    editor.add_selection(&buffer, Point::new(0, 2), Point::new(0, 4));
    editor.add_selection(&buffer, Point::new(1, 1), Point::new(3, 1));
    editor.add_selection(&buffer, Point::new(4, 0), Point::new(4, 0));
    editor.add_selection(&buffer, Point::new(4, 3), Point::new(4, 8));
    let operations: Vec<fn(&mut Editor, &Buffer)> = vec![
        Editor::select_right,
        Editor::select_down,
        Editor::select_left,
        Editor::select_left,
        Editor::select_up,
        Editor::select_up,
        Editor::move_right,
        Editor::add_selection_below,
        Editor::move_down,
        Editor::select_left,
        Editor::add_selection_above,
        Editor::move_up,
        Editor::move_left,
        Editor::select_down,
        Editor::select_down,
        Editor::move_left,
    ];
    for operation in operations {
        operation(&mut editor, &buffer);
        let store = editor.render_selections(&buffer);
        assert!(!store.is_empty());
        assert!(is_ordered(&store), "{:?}", store);
        assert!(editor.is_valid(&buffer));
    }
}

#[test]
fn test_added_selection_absorbs_what_it_touches() {
    let buffer = buffer_of("abcdefghijklmnopqrstuvwxyz");
    let build = || {
        let mut editor = Editor::new(&buffer);
        editor.move_right(&buffer);
        editor.add_selection(&buffer, Point::new(0, 3), Point::new(0, 5));
        editor.add_selection(&buffer, Point::new(0, 8), Point::new(0, 8));
        editor.add_selection(&buffer, Point::new(0, 10), Point::new(0, 14));
        editor.add_selection(&buffer, Point::new(0, 20), Point::new(0, 22));
        editor
    };
    let before = build().render_selections(&buffer);
    assert_eq!(
        before,
        vec![
            cursor(0, 1),
            range((0, 3), (0, 5)),
            cursor(0, 8),
            range((0, 10), (0, 14)),
            range((0, 20), (0, 22))
        ]
    );
    let cases: Vec<((u32, u32), Vec<Selection>)> = vec![
        // touches nothing
        (
            (6, 7),
            vec![
                cursor(0, 1),
                range((0, 3), (0, 5)),
                range((0, 6), (0, 7)),
                cursor(0, 8),
                range((0, 10), (0, 14)),
                range((0, 20), (0, 22)),
            ],
        ),
        // touches the end of one
        (
            (5, 7),
            vec![
                cursor(0, 1),
                range((0, 3), (0, 7)),
                cursor(0, 8),
                range((0, 10), (0, 14)),
                range((0, 20), (0, 22)),
            ],
        ),
        // touches the start of one
        (
            (15, 20),
            vec![
                cursor(0, 1),
                range((0, 3), (0, 5)),
                cursor(0, 8),
                range((0, 10), (0, 14)),
                range((0, 15), (0, 22)),
            ],
        ),
        // lies inside one
        (
            (11, 12),
            vec![
                cursor(0, 1),
                range((0, 3), (0, 5)),
                cursor(0, 8),
                range((0, 10), (0, 14)),
                range((0, 20), (0, 22)),
            ],
        ),
        // reaches over three
        (
            (4, 10),
            vec![cursor(0, 1), range((0, 3), (0, 14)), range((0, 20), (0, 22))],
        ),
        // reaches over all
        ((0, 26), vec![range((0, 0), (0, 26))]),
        // a cursor on a cursor
        (
            (8, 8),
            vec![
                cursor(0, 1),
                range((0, 3), (0, 5)),
                cursor(0, 8),
                range((0, 10), (0, 14)),
                range((0, 20), (0, 22)),
            ],
        ),
    ];
    for ((from, to), expected) in cases {
        let mut editor = build();
        let added = range((0, from), (0, to));
        editor.add_selection(&buffer, added.start, added.end);
        let after = editor.render_selections(&buffer);
        assert_eq!(after, expected);
        assert!(is_ordered(&after));
        // one more selection, less those that the new one touched
        let touched = before
            .iter()
            .filter(|s| s.start.le(&added.end) && added.start.le(&s.end))
            .count();
        assert_eq!(after.len() + touched, before.len() + 1);
        // what is covered is what was covered, and the new selection
        for point in all_points(&buffer) {
            assert_eq!(
                covers(&after, point),
                covers(&before, point) || covers(&[added], point)
            );
        }
    }
}

#[test]
fn test_add_selection_above_existing_selections() {
    let buffer = buffer_of("abcdef\nabcdef\nabcdef");
    let mut editor = Editor::new(&buffer);
    editor.add_selection(&buffer, Point::new(0, 1), Point::new(0, 3));
    editor.add_selection(&buffer, Point::new(1, 1), Point::new(1, 3));
    editor.add_selection(&buffer, Point::new(2, 1), Point::new(2, 3));
    let before = vec![
        cursor(0, 0),
        range((0, 1), (0, 3)),
        range((1, 1), (1, 3)),
        range((2, 1), (2, 3)),
    ];
    assert_eq!(editor.render_selections(&buffer), before);
    // every copy falls on a selection that is there, and is merged with it
    editor.add_selection_above(&buffer);
    assert_eq!(editor.render_selections(&buffer), before);

    // with nothing on the row above, the copy is new
    let mut editor = Editor::new(&buffer);
    editor.add_selection(&buffer, Point::new(2, 1), Point::new(2, 3));
    editor.add_selection_above(&buffer);
    assert_eq!(
        editor.render_selections(&buffer),
        vec![cursor(0, 0), range((1, 1), (1, 3)), range((2, 1), (2, 3))]
    );
    editor.add_selection_above(&buffer);
    assert_eq!(
        editor.render_selections(&buffer),
        vec![
            cursor(0, 0),
            range((0, 1), (0, 3)),
            range((1, 1), (1, 3)),
            range((2, 1), (2, 3))
        ]
    );
}

#[test]
fn test_copies_on_shorter_rows() {
    let buffer = buffer_of("ab\nabcdef\nabc\n\nabcdef");
    // a range is cut to the row, and dropped where nothing is left of it
    let mut editor = Editor::new(&buffer);
    editor.move_down(&buffer);
    editor.move_right(&buffer);
    for _ in 0..4 {
        editor.select_right(&buffer);
    }
    assert_eq!(editor.render_selections(&buffer), vec![range((1, 1), (1, 5))]);
    editor.add_selection_above(&buffer);
    editor.add_selection_below(&buffer);
    assert_eq!(
        editor.render_selections(&buffer),
        vec![range((0, 1), (0, 2)), range((1, 1), (1, 5)), range((2, 1), (2, 3))]
    );
    // the copy on row 2 aims at the column of the first selection, but
    // the row below it is empty
    editor.add_selection_below(&buffer);
    assert_eq!(
        editor.render_selections(&buffer),
        vec![range((0, 1), (0, 2)), range((1, 1), (1, 5)), range((2, 1), (2, 3))]
    );

    // a cursor is copied to an empty row only from column 0
    let mut editor = Editor::new(&buffer);
    editor.add_selection(&buffer, Point::new(4, 0), Point::new(4, 0));
    editor.add_selection(&buffer, Point::new(4, 2), Point::new(4, 2));
    editor.add_selection_above(&buffer);
    assert_eq!(
        editor.render_selections(&buffer),
        vec![cursor(0, 0), cursor(3, 0), cursor(4, 0), cursor(4, 2)]
    );
    // nothing is copied from the first row upwards or the last row downwards
    let mut editor = Editor::new(&buffer);
    editor.add_selection(&buffer, Point::new(4, 2), Point::new(4, 2));
    editor.add_selection_above(&buffer);
    editor.add_selection_below(&buffer);
    assert_eq!(
        editor.render_selections(&buffer),
        vec![cursor(0, 0), cursor(1, 0), cursor(4, 2)]
    );
}

#[test]
fn test_copy_with_a_goal_in_front_of_the_start() {
    let buffer = buffer_of("abcd\nabcd");
    let mut editor = Editor::new(&buffer);
    editor.move_down(&buffer);
    editor.move_right(&buffer);
    editor.move_right(&buffer);
    editor.select_left(&buffer);
    // on the last row the head jumps to the end of the text and remembers
    // the column it came from
    editor.select_down(&buffer);
    assert_eq!(editor.render_selections(&buffer), vec![range((1, 2), (1, 4))]);
    // the copy lies between the start column and the goal column, which is
    // the lesser of the two
    editor.add_selection_above(&buffer);
    assert_eq!(
        editor.render_selections(&buffer),
        vec![range((0, 1), (0, 2)), range((1, 2), (1, 4))]
    );
    assert!(editor.is_valid(&buffer));
    assert!(is_ordered(&editor.render_selections(&buffer)));

    // a head that jumped to the end of the text from a column in front of
    // the tail: the copy lies between the goal column and the start column
    let buffer = buffer_of("abcdef\nabcdef");
    let mut editor = Editor::new(&buffer);
    editor.move_down(&buffer);
    for _ in 0..4 {
        editor.move_right(&buffer);
    }
    editor.select_left(&buffer);
    editor.select_left(&buffer);
    editor.select_down(&buffer);
    assert_eq!(editor.render_selections(&buffer), vec![range((1, 4), (1, 6))]);
    editor.add_selection_above(&buffer);
    assert_eq!(
        editor.render_selections(&buffer),
        vec![range((0, 2), (0, 4)), range((1, 4), (1, 6))]
    );
    assert!(editor.is_valid(&buffer));

    // a reversed selection without a goal aims at the column of its end
    let buffer = buffer_of("abcdef\nabcdef\nabc");
    let mut editor = Editor::new(&buffer);
    editor.move_down(&buffer);
    for _ in 0..4 {
        editor.move_right(&buffer);
    }
    editor.select_left(&buffer);
    editor.select_left(&buffer);
    assert_eq!(editor.render_selections(&buffer), vec![reversed((1, 2), (1, 4))]);
    editor.add_selection_above(&buffer);
    assert_eq!(
        editor.render_selections(&buffer),
        vec![reversed((0, 2), (0, 4)), reversed((1, 2), (1, 4))]
    );
    // row 2 is shorter than the start column: the copy is cut to it
    editor.add_selection_below(&buffer);
    assert_eq!(
        editor.render_selections(&buffer),
        vec![
            reversed((0, 2), (0, 4)),
            reversed((1, 2), (1, 4)),
            reversed((2, 2), (2, 3))
        ]
    );
    assert!(editor.is_valid(&buffer));
}

#[test]
fn test_selections_follow_edits() {
    let mut buffer = buffer_of("abcdef\nghijkl");
    let mut editor = Editor::new(&buffer);
    editor.add_selection(&buffer, Point::new(0, 2), Point::new(0, 4));
    editor.add_selection(&buffer, Point::new(1, 1), Point::new(1, 3));
    editor.move_right(&buffer);
    editor.add_selection(&buffer, Point::new(0, 0), Point::new(0, 1));
    editor.add_selection(&buffer, Point::new(1, 1), Point::new(1, 3));
    assert_eq!(
        editor.render_selections(&buffer),
        vec![range((0, 0), (0, 1)), cursor(0, 4), range((1, 1), (1, 3))]
    );

    buffer.splice(2..2, "XY\n").unwrap();
    assert!(editor.is_valid(&buffer));
    assert_eq!(
        editor.render_selections(&buffer),
        vec![range((0, 0), (0, 1)), cursor(1, 2), range((2, 1), (2, 3))]
    );

    // removing the text between two selections lets them touch; the next
    // operation merges them
    buffer.splice(1..7, "").unwrap();
    assert!(editor.is_valid(&buffer));
    assert_eq!(
        editor.render_selections(&buffer),
        vec![range((0, 0), (0, 1)), cursor(0, 1), range((1, 1), (1, 3))]
    );
    editor.select_right(&buffer);
    assert_eq!(
        editor.render_selections(&buffer),
        vec![range((0, 0), (0, 2)), range((1, 1), (1, 4))]
    );
}

#[test]
fn test_editor_of_another_buffer() {
    let buffer = buffer_of("abc");
    let other = {
        let mut other = Buffer::new(2);
        other.splice(0..0, "abc").unwrap();
        other
    };
    let editor = Editor::new(&buffer);
    assert!(editor.is_attached(&buffer));
    assert!(!editor.is_attached(&other));
    assert!(!editor.is_valid(&other));
}
