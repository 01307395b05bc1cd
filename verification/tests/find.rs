use onebrc::find::SimdFind;

fn collect(needle: u8, haystack: &[u8]) -> Vec<usize> {
    let mut scanner = SimdFind::new(needle, haystack);
    let mut found = Vec::new();
    while let Some(index) = scanner.next() {
        found.push(index);
    }
    found
}

#[test]
fn scanner_finds_every_newline() {
    let text = b"Hamburg;12.0\nBulawayo;8.9\nHamburg;-1.5\nBulawayo;18.2\n";
    assert_eq!(collect(b'\n', text), vec![12, 25, 38, 52]);
}

#[test]
fn scanner_on_empty_input_finds_nothing() {
    assert_eq!(collect(b'\n', b""), Vec::<usize>::new());
}

#[test]
fn scanner_reports_a_block_full_of_matches() {
    let block = [7u8; 16];
    assert_eq!(collect(7, &block), (0..16).collect::<Vec<usize>>());
}

#[test]
fn scanner_handles_trailing_bytes_once() {
    let mut text = vec![b'a'; 37];
    text[0] = b';';
    text[15] = b';';
    text[16] = b';';
    text[31] = b';';
    text[32] = b';';
    text[36] = b';';
    assert_eq!(collect(b';', &text), vec![0, 15, 16, 31, 32, 36]);
}

#[test]
fn scanner_does_not_match_past_the_end() {
    let text = [0u8; 3];
    assert_eq!(collect(0, &text), vec![0, 1, 2]);
}

#[test]
fn a_loaded_block_hands_out_its_matches_lowest_first() {
    let mut scanner = SimdFind::new(b';', b"");
    assert_eq!(scanner.consume_first_match(), None);
    scanner.load_chunk(b"a;bc;;defghijkl;");
    assert_eq!(scanner.consume_first_match(), Some(1));
    assert_eq!(scanner.consume_first_match(), Some(4));
    assert_eq!(scanner.consume_first_match(), Some(5));
    assert_eq!(scanner.consume_first_match(), Some(15));
    assert_eq!(scanner.consume_first_match(), None);
    assert_eq!(scanner.consume_first_match(), None);
}

#[test]
fn a_second_block_counts_on_from_the_first() {
    let mut scanner = SimdFind::new(b'x', b"");
    scanner.load_chunk(b"x...............");
    scanner.load_chunk(b"..x............x and more that is not looked at: x");
    assert_eq!(scanner.consume_first_match(), Some(18));
    assert_eq!(scanner.consume_first_match(), Some(31));
    assert_eq!(scanner.consume_first_match(), None);
}

#[test]
fn scanner_agrees_with_a_plain_search() {
    let mut text = Vec::new();
    let mut state: u32 = 12345;
    for _ in 0..1000 {
        state = state.wrapping_mul(1103515245).wrapping_add(12345);
        text.push(if (state >> 16) % 5 == 0 { b'\n' } else { b'a' });
    }
    for length in [0, 1, 15, 16, 17, 31, 32, 33, 100, 999, 1000] {
        let slice = &text[..length];
        let expected: Vec<usize> = (0..length).filter(|&at| slice[at] == b'\n').collect();
        assert_eq!(collect(b'\n', slice), expected);
    }
}
