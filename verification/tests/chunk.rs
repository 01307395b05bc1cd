use onebrc::aggregate::ResultEntry;
use onebrc::chunk::{parse_line, process_chunk};
use onebrc::error::Error;
use onebrc::hashtable::HashTable;
use onebrc::stat::Stat;

fn sorted(mut entries: Vec<ResultEntry>) -> Vec<ResultEntry> {
    entries.sort_by_key(|entry| entry.key.clone());
    entries
}

fn entry(key: &[u8], min: i32, max: i32, sum: i64, count: u64) -> ResultEntry {
    ResultEntry { key: key.to_vec(), value: Stat { min, max, sum, count } }
}

#[test]
fn a_line_is_split_hashed_and_read() {
    let reading = parse_line(b"Hamburg;12.0", 0).unwrap();
    assert_eq!(reading.station, b"Hamburg");
    assert_eq!(reading.tenths, 120);
    assert_eq!(reading.hash, HashTable::<Stat>::hash_key(b"Hamburg"));
    let reading = parse_line(b"X;-99.9", 7).unwrap();
    assert_eq!(reading.station, b"X");
    assert_eq!(reading.tenths, -999);
    assert_eq!(reading.hash, HashTable::<Stat>::hash_key(b"X"));
}

#[test]
fn a_line_without_a_station_or_with_other_than_one_semicolon_is_malformed() {
    for line in [&b""[..], b"Hamburg", b"Hamburg12.0", b";12.0", b";", b"a;b;1.0", b"a;1.0;", b"a;;1.0", b";;"] {
        assert_eq!(parse_line(line, 42).err(), Some(Error::MalformedLine { offset: 42 }), "{:?}", line);
    }
}

#[test]
fn a_line_with_another_temperature_shape_is_malformed() {
    for line in [&b"a;"[..], b"a;1", b"a;12", b"a;1.23", b"a;123.4", b"a;x.y", b"a; 1.0", b"a;1.0\r"] {
        assert_eq!(
            parse_line(line, 9).err(),
            Some(Error::MalformedTemperature { offset: 9 }),
            "{:?}",
            line
        );
    }
}

#[test]
fn a_chunk_is_aggregated_line_by_line() {
    let text = b"Hamburg;12.0\nBulawayo;8.9\nHamburg;-1.5\nBulawayo;18.2\n";
    let entries = process_chunk(text, 0, text.len()).unwrap();
    assert_eq!(
        sorted(entries),
        vec![entry(b"Bulawayo", 89, 182, 271, 2), entry(b"Hamburg", -15, 120, 105, 2)]
    );
}

#[test]
fn only_the_range_is_read() {
    let text = b"Hamburg;12.0\nBulawayo;8.9\nHamburg;-1.5\nBulawayo;18.2\n";
    assert_eq!(
        sorted(process_chunk(text, 13, 39).unwrap()),
        vec![entry(b"Bulawayo", 89, 89, 89, 1), entry(b"Hamburg", -15, -15, -15, 1)]
    );
    assert_eq!(process_chunk(text, 13, 13).unwrap(), vec![]);
    assert_eq!(process_chunk(text, 0, 0).unwrap(), vec![]);
    assert_eq!(process_chunk(text, text.len(), text.len()).unwrap(), vec![]);
}

#[test]
fn a_chunk_of_one_line() {
    let text = b"Hamburg;12.0\n";
    assert_eq!(process_chunk(text, 0, text.len()).unwrap(), vec![entry(b"Hamburg", 120, 120, 120, 1)]);
}

#[test]
fn the_shortest_line_and_the_longest_temperature() {
    assert_eq!(process_chunk(b"A;0.0\n", 0, 6).unwrap(), vec![entry(b"A", 0, 0, 0, 1)]);
    assert_eq!(process_chunk(b"X;-99.9\n", 0, 8).unwrap(), vec![entry(b"X", -999, -999, -999, 1)]);
}

#[test]
fn a_station_name_is_taken_byte_for_byte() {
    let text = "Zürich;1.0\nZu\u{308}rich;2.0\n東京;-3.0\nZürich;3.0\n".as_bytes();
    let entries = sorted(process_chunk(text, 0, text.len()).unwrap());
    assert_eq!(
        entries,
        vec![
            entry("Zu\u{308}rich".as_bytes(), 20, 20, 20, 1),
            entry("Zürich".as_bytes(), 10, 30, 40, 2),
            entry("東京".as_bytes(), -30, -30, -30, 1),
        ]
    );
}

#[test]
fn the_counts_add_up_to_the_number_of_lines() {
    let mut text = Vec::new();
    for line in 0..1000 {
        text.extend_from_slice(format!("station{};{}.{}\n", line % 37, line % 100, line % 10).as_bytes());
    }
    let entries = process_chunk(&text, 0, text.len()).unwrap();
    assert_eq!(entries.len(), 37);
    assert_eq!(entries.iter().map(|entry| entry.value.count).sum::<u64>(), 1000);
    for entry in &entries {
        assert!(entry.value.is_valid());
    }
}

#[test]
fn a_range_that_does_not_end_behind_a_newline_is_refused() {
    let text = b"Hamburg;12.0\nBulawayo;8.9";
    assert_eq!(process_chunk(text, 0, text.len()), Err(Error::MalformedInput { offset: 25 }));
    assert_eq!(process_chunk(text, 0, 5), Err(Error::MalformedInput { offset: 5 }));
    assert_eq!(process_chunk(text, 13, 20), Err(Error::MalformedInput { offset: 20 }));
    assert!(process_chunk(text, 0, 13).is_ok());
}

#[test]
fn the_first_faulty_line_decides_and_its_offset_is_reported() {
    let text = b"Hamburg;12.0\n\nBulawayo;8,9\n";
    assert_eq!(process_chunk(text, 0, text.len()), Err(Error::MalformedLine { offset: 13 }));
    let text = b"Hamburg;12.0\nBulawayo;8,9\n\n";
    assert_eq!(process_chunk(text, 0, text.len()), Err(Error::MalformedTemperature { offset: 13 }));
    assert_eq!(process_chunk(text, 13, text.len()), Err(Error::MalformedTemperature { offset: 13 }));
    assert_eq!(process_chunk(text, 26, text.len()), Err(Error::MalformedLine { offset: 26 }));
    let text = b"a;1.0\nb;2.0;c\n";
    assert_eq!(process_chunk(text, 0, text.len()), Err(Error::MalformedLine { offset: 6 }));
}

#[test]
fn more_stations_than_slots_fill_the_table() {
    let mut text = Vec::new();
    for station in 0..131072 {
        text.extend_from_slice(format!("s{};1.0\n", station).as_bytes());
    }
    let full = text.len();
    text.extend_from_slice(b"s7;2.0\n");
    let known = text.len();
    text.extend_from_slice(b"one too many;3.0\n");
    assert_eq!(process_chunk(&text, 0, full).unwrap().len(), 131072);
    assert_eq!(process_chunk(&text, 0, known).unwrap().len(), 131072);
    assert_eq!(process_chunk(&text, 0, text.len()), Err(Error::TableFull));
    assert_eq!(process_chunk(&text, 8, text.len()).unwrap().len(), 131072);
}
