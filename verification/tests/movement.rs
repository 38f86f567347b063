use xray_core::buffer::{Buffer, Point};
use xray_core::movement::{down, left, right, up};

fn buffer_of(text: &str) -> Buffer {
    let mut buffer = Buffer::new(1);
    buffer.splice(0..0, text).unwrap();
    buffer
}

#[test]
fn test_left_and_right() {
    let buffer = buffer_of("abc\n\ndef");
    assert_eq!(left(&buffer, Point::new(0, 2)), Point::new(0, 1));
    assert_eq!(left(&buffer, Point::new(1, 0)), Point::new(0, 3));
    assert_eq!(left(&buffer, Point::new(2, 0)), Point::new(1, 0));
    assert_eq!(right(&buffer, Point::new(0, 2)), Point::new(0, 3));
    assert_eq!(right(&buffer, Point::new(0, 3)), Point::new(1, 0));
    assert_eq!(right(&buffer, Point::new(1, 0)), Point::new(2, 0));
}

#[test]
fn test_steps_stop_at_the_ends() {
    let buffer = buffer_of("abc\n\ndef");
    let mut point = Point::new(0, 0);
    for _ in 0..3 {
        point = left(&buffer, point);
        assert_eq!(point, Point::new(0, 0));
    }
    let mut point = buffer.max_point();
    for _ in 0..3 {
        point = right(&buffer, point);
        assert_eq!(point, Point::new(2, 3));
    }
    let empty = Buffer::new(1);
    assert_eq!(left(&empty, Point::new(0, 0)), Point::new(0, 0));
    assert_eq!(right(&empty, Point::new(0, 0)), Point::new(0, 0));
    assert_eq!(up(&empty, Point::new(0, 0), None), (Point::new(0, 0), Some(0)));
    assert_eq!(down(&empty, Point::new(0, 0), None), (Point::new(0, 0), Some(0)));
}

#[test]
fn test_up_and_down() {
    let buffer = buffer_of("abcdef\nab\nabcd");
    assert_eq!(down(&buffer, Point::new(0, 5), None), (Point::new(1, 2), Some(5)));
    assert_eq!(down(&buffer, Point::new(1, 2), Some(5)), (Point::new(2, 4), Some(5)));
    assert_eq!(down(&buffer, Point::new(1, 2), None), (Point::new(2, 2), Some(2)));
    assert_eq!(down(&buffer, Point::new(2, 1), None), (Point::new(2, 4), Some(1)));
    assert_eq!(down(&buffer, Point::new(2, 4), Some(1)), (Point::new(2, 4), Some(1)));
    assert_eq!(up(&buffer, Point::new(2, 4), None), (Point::new(1, 2), Some(4)));
    assert_eq!(up(&buffer, Point::new(1, 2), Some(4)), (Point::new(0, 4), Some(4)));
    assert_eq!(up(&buffer, Point::new(0, 4), Some(4)), (Point::new(0, 0), Some(4)));
    assert_eq!(up(&buffer, Point::new(0, 3), None), (Point::new(0, 0), Some(3)));
}

#[test]
fn test_down_then_up_returns() {
    let buffer = buffer_of("abcdef\nab\n\nabcd");
    for row in 0..3 {
        let len = buffer.len_for_row(row).unwrap();
        for column in 0..=len {
            let point = Point::new(row, column);
            let (below, goal) = down(&buffer, point, None);
            assert_eq!(goal, Some(column));
            assert_eq!(up(&buffer, below, goal), (point, Some(column)));
        }
    }
    // across a shorter row and an empty one, and back
    let start = Point::new(0, 4);
    let (a, goal) = down(&buffer, start, None);
    let (b, goal) = down(&buffer, a, goal);
    let (c, goal) = down(&buffer, b, goal);
    assert_eq!((a, b, c), (Point::new(1, 2), Point::new(2, 0), Point::new(3, 4)));
    let (b, goal) = up(&buffer, c, goal);
    let (a, goal) = up(&buffer, b, goal);
    let (back, goal) = up(&buffer, a, goal);
    assert_eq!((b, a, back), (Point::new(2, 0), Point::new(1, 2), start));
    assert_eq!(goal, Some(4));
}
