use rand::{Rng, SeedableRng, StdRng};
use xray_core::buffer::{Bias, Buffer, Point};
use xray_core::editor::render::Selection;
use xray_core::editor::{Editor, Event};

const LETTERS: &[&str] = &["a", "b", "\n", "c", "\n", "de", "f\ng", ""];

fn random_text(rng: &mut StdRng, pieces: usize) -> String {
    let mut text = String::new();
    for _ in 0..pieces {
        text.push_str(LETTERS[rng.gen_range(0, LETTERS.len())]);
    }
    text
}

fn lines_of(text: &[u16]) -> Vec<Vec<u16>> {
    text.split(|unit| *unit == 10).map(|line| line.to_vec()).collect()
}

fn point_in(text: &[u16], offset: usize) -> Point {
    let row = text[..offset].iter().filter(|unit| **unit == 10).count();
    let start = text[..offset]
        .iter()
        .rposition(|unit| *unit == 10)
        .map_or(0, |at| at + 1);
    Point::new(row as u32, (offset - start) as u32)
}

fn shifted(offset: usize, bias: Bias, start: usize, end: usize, inserted: usize) -> usize {
    match bias {
        Bias::Left => {
            if offset <= start {
                offset
            } else if offset <= end {
                start
            } else {
                offset - (end - start) + inserted
            }
        }
        Bias::Right => {
            if offset < start {
                offset
            } else if offset < end {
                start + inserted
            } else {
                offset - (end - start) + inserted
            }
        }
    }
}

fn is_ordered(store: &[Selection]) -> bool {
    store.iter().all(|s| s.start.le(&s.end))
        && store.windows(2).all(|pair| pair[0].end.lt(&pair[1].start))
}

#[test]
fn test_random_edits_against_a_plain_text() {
    for seed in 0..20 {
        let mut rng = StdRng::from_seed(&[seed]);
        let mut buffer = Buffer::new(1);
        let mut text: Vec<u16> = Vec::new();
        let mut anchors = Vec::new();
        for _ in 0..40 {
            // the buffer agrees with the plain text
            assert_eq!(buffer.len(), text.len());
            assert_eq!(buffer.iter_starting_at_row(0).unwrap(), &text[..]);
            let lines = lines_of(&text);
            assert_eq!(buffer.max_point().row as usize, lines.len() - 1);
            for (row, line) in lines.iter().enumerate() {
                assert_eq!(buffer.len_for_row(row as u32), Ok(line.len() as u32));
            }
            for offset in 0..=text.len() {
                let point = point_in(&text, offset);
                assert_eq!(buffer.point_for_offset(offset), Ok(point));
                assert_eq!(buffer.offset_for_point(point), Ok(offset));
            }
            for (anchor, offset, _) in anchors.iter() {
                assert_eq!(buffer.offset_for_anchor(anchor), Ok(*offset));
                assert_eq!(buffer.point_for_anchor(anchor), Ok(point_in(&text, *offset)));
            }

            // new anchors
            for _ in 0..3 {
                let offset = rng.gen_range(0, text.len() + 1);
                if rng.gen() {
                    let anchor = buffer.anchor_before_offset(offset).unwrap();
                    anchors.push((anchor, offset, Bias::Left));
                } else {
                    let point = point_in(&text, offset);
                    let anchor = buffer.anchor_after_point(point).unwrap();
                    anchors.push((anchor, offset, Bias::Right));
                }
            }

            // an edit
            let start = rng.gen_range(0, text.len() + 1);
            let end = rng.gen_range(start, (start + 4).min(text.len()) + 1);
            let new_text = random_text(&mut rng, 3);
            let units: Vec<u16> = new_text.encode_utf16().collect();
            buffer.splice(start..end, &new_text).unwrap();
            text.splice(start..end, units.iter().cloned());
            for (_, offset, bias) in anchors.iter_mut() {
                *offset = shifted(*offset, *bias, start, end, units.len());
            }
        }
    }
}

#[test]
fn test_random_operations_keep_the_store_ordered() {
    let operations: Vec<fn(&mut Editor, &Buffer)> = vec![
        Editor::move_left,
        Editor::move_right,
        Editor::move_up,
        Editor::move_down,
        Editor::select_left,
        Editor::select_right,
        Editor::select_up,
        Editor::select_down,
    ];
    for seed in 0..30 {
        let mut rng = StdRng::from_seed(&[seed, 7]);
        let mut buffer = Buffer::new(1);
        let mut editor = Editor::new(&buffer);
        buffer.splice(0..0, &random_text(&mut rng, 30)).unwrap();
        for step in 0..120 {
            let choice = rng.gen_range(0, operations.len() + 3);
            if choice < operations.len() {
                operations[choice](&mut editor, &buffer);
            } else if choice == operations.len() {
                let a = rng.gen_range(0, buffer.len() + 1);
                let b = rng.gen_range(a, buffer.len() + 1);
                let start = buffer.point_for_offset(a).unwrap();
                let end = buffer.point_for_offset(b).unwrap();
                assert!(editor.is_valid(&buffer));
                {
                    let before = editor.render_selections(&buffer);
                    editor.add_selection(&buffer, start, end);
                    let after = editor.render_selections(&buffer);
                    // the store covers what it covered, and the new selection
                    for offset in 0..=buffer.len() {
                        let point = buffer.point_for_offset(offset).unwrap();
                        let covered = |store: &[Selection]| {
                            store.iter().any(|s| s.start.le(&point) && point.le(&s.end))
                        };
                        assert_eq!(
                            covered(&after),
                            covered(&before) || (start.le(&point) && point.le(&end))
                        );
                    }
                }
            } else if choice == operations.len() + 1 {
                // an edit under the selections keeps them in order
                assert!(editor.is_valid(&buffer));
                let start = rng.gen_range(0, buffer.len() + 1);
                let end = rng.gen_range(start, (start + 3).min(buffer.len()) + 1);
                buffer.splice(start..end, &random_text(&mut rng, 2)).unwrap();
                editor.observe(Event::Revision(buffer.version()));
                assert!(editor.is_valid(&buffer));
                continue;
            } else {
                if rng.gen() {
                    editor.add_selection_above(&buffer);
                } else {
                    editor.add_selection_below(&buffer);
                }
            }
            let store = editor.render_selections(&buffer);
            assert!(!store.is_empty());
            assert!(is_ordered(&store), "seed {} step {}: {:?}", seed, step, store);
            assert!(editor.is_valid(&buffer));
            for selection in store.iter() {
                assert!(buffer.offset_for_point(selection.start).is_ok());
                assert!(buffer.offset_for_point(selection.end).is_ok());
            }
        }
    }
}

#[test]
fn test_random_frames_against_the_store() {
    for seed in 0..20 {
        let mut rng = StdRng::from_seed(&[seed, 11]);
        let mut buffer = Buffer::new(1);
        let mut editor = Editor::new(&buffer);
        buffer.splice(0..0, &random_text(&mut rng, 40)).unwrap();
        for _ in 0..6 {
            let a = rng.gen_range(0, buffer.len() + 1);
            let b = rng.gen_range(a, (a + 5).min(buffer.len()) + 1);
            let start = buffer.point_for_offset(a).unwrap();
            let end = buffer.point_for_offset(b).unwrap();
            editor.add_selection(&buffer, start, end);
        }
        let text = buffer.iter_starting_at_row(0).unwrap().to_vec();
        let lines = lines_of(&text);
        let store = editor.render_selections(&buffer);
        let max_row = buffer.max_point().row;
        for _ in 0..30 {
            let first = rng.gen_range(0, max_row + 1);
            let end = rng.gen_range(0, max_row + 4);
            let frame = editor.render_rows(&buffer, first, end);
            assert_eq!(frame.first_visible_row, first);
            let stop = (end as usize).min(lines.len());
            let expected: Vec<Vec<u16>> = if stop > first as usize {
                lines[first as usize..stop].to_vec()
            } else {
                Vec::new()
            };
            assert_eq!(frame.lines, expected);
            let top = Point::new(first, 0);
            let bottom = Point::new(end, 0);
            let shown: Vec<Selection> = store
                .iter()
                .filter(|s| (top.lt(&s.end) || top.le(&s.start)) && s.start.lt(&bottom))
                .cloned()
                .collect();
            assert_eq!(frame.selections, shown);
        }
    }
}
