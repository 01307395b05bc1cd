use onebrc::error::Error;
use onebrc::plan::{plan_chunks, PROBE_WINDOW};

fn uniform(lines: usize) -> Vec<u8> {
    let mut text = Vec::new();
    for line in 0..lines {
        text.extend_from_slice(format!("station{:03};{:02}.{}\n", line % 1000, line % 100, line % 10).as_bytes());
    }
    text
}

#[test]
fn one_worker_gets_the_whole_input() {
    let text = uniform(10);
    assert_eq!(plan_chunks(&text, 1), Ok(vec![(0, 160)]));
}

#[test]
fn a_boundary_on_a_line_start_moves_behind_that_line() {
    let text = uniform(10);
    assert_eq!(plan_chunks(&text, 2), Ok(vec![(0, 96), (96, 160)]));
    assert_eq!(plan_chunks(&text, 5), Ok(vec![(0, 48), (48, 80), (80, 112), (112, 144), (144, 160)]));
}

#[test]
fn a_boundary_on_a_newline_moves_just_behind_it() {
    let text = b"aaaa;1.0\nbb;2.0\nc;3.0\n";
    assert_eq!(text.len(), 22);
    assert_eq!(text[8], b'\n');
    assert_eq!(plan_chunks(text, 2), Ok(vec![(0, 16), (16, 22)]));
    let text = b"aaa;1.0\nb;2.0\nccc;3.0\n";
    assert_eq!(text.len(), 22);
    assert_eq!(text[7], b'\n');
    assert_eq!(22 / 3, 7);
    assert_eq!(plan_chunks(text, 3), Ok(vec![(0, 8), (8, 22), (22, 22)]));
}

#[test]
fn a_boundary_inside_a_line_moves_to_the_next_line() {
    let text = b"a;1.0\nbbbbbbbbbbbb;2.0\nc;3.0\n";
    assert_eq!(text.len(), 29);
    assert_eq!(plan_chunks(text, 2), Ok(vec![(0, 23), (23, 29)]));
    assert_eq!(plan_chunks(text, 4), Ok(vec![(0, 23), (23, 23), (23, 23), (23, 29)]));
}

#[test]
fn more_workers_than_bytes_leave_ranges_empty() {
    let text = b"a;1.0\n";
    assert_eq!(
        plan_chunks(text, 8),
        Ok(vec![(0, 6), (6, 6), (6, 6), (6, 6), (6, 6), (6, 6), (6, 6), (6, 6)])
    );
}

#[test]
fn the_ranges_follow_each_other_and_end_behind_newlines() {
    let text = uniform(1000);
    for workers in [1, 2, 3, 4, 7, 8, 16, 33, 999, 1000, 1001, 5000] {
        let ranges = plan_chunks(&text, workers).unwrap();
        assert_eq!(ranges.len(), workers);
        assert_eq!(ranges[0].0, 0);
        assert_eq!(ranges[workers - 1].1, text.len());
        for (at, range) in ranges.iter().enumerate() {
            assert!(range.0 <= range.1);
            assert!(range.0 == 0 || text[range.0 - 1] == b'\n');
            assert!(range.1 == text.len() || text[range.1 - 1] == b'\n');
            if at > 0 {
                assert_eq!(ranges[at - 1].1, range.0);
            }
        }
    }
}

#[test]
fn an_input_without_a_last_newline_is_refused() {
    assert_eq!(plan_chunks(b"a;1.0\nb;2.0", 2), Err(Error::MalformedInput { offset: 11 }));
    assert_eq!(plan_chunks(b"a;1.0", 1), Err(Error::MalformedInput { offset: 5 }));
}

#[test]
fn an_empty_input_is_refused() {
    assert_eq!(plan_chunks(b"", 1), Err(Error::MalformedInput { offset: 0 }));
    assert_eq!(plan_chunks(b"", 4), Err(Error::MalformedInput { offset: 0 }));
}

#[test]
fn a_line_that_does_not_end_within_the_window_is_refused() {
    let mut text = vec![b'a'; 3 * PROBE_WINDOW];
    text.push(b'\n');
    let stride = text.len() / 2;
    assert_eq!(plan_chunks(&text, 2), Err(Error::MalformedInput { offset: stride }));
    assert_eq!(plan_chunks(&text, 1), Ok(vec![(0, text.len())]));
    let stride = text.len() / 3;
    assert_eq!(plan_chunks(&text, 3), Err(Error::MalformedInput { offset: stride }));
    let stride = text.len() / 4;
    assert_eq!(
        plan_chunks(&text, 4),
        Err(Error::MalformedInput { offset: stride })
    );
}

#[test]
fn a_newline_at_the_end_of_the_window_is_found() {
    let mut text = vec![b'a'; 2 * PROBE_WINDOW];
    text[PROBE_WINDOW + PROBE_WINDOW - 1] = b'\n';
    text.push(b'\n');
    let stride = text.len() / 2;
    assert_eq!(stride, PROBE_WINDOW);
    assert_eq!(plan_chunks(&text, 2), Ok(vec![(0, 2 * PROBE_WINDOW), (2 * PROBE_WINDOW, text.len())]));
    text[2 * PROBE_WINDOW - 1] = b'a';
    assert_eq!(plan_chunks(&text, 2), Err(Error::MalformedInput { offset: stride }));
}
