use onebrc::aggregate::ResultEntry;
use onebrc::merge::{can_merge, merge};
use onebrc::stat::{Stat, MAX_COUNT};

fn entry(key: &[u8], min: i32, max: i32, sum: i64, count: u64) -> ResultEntry {
    ResultEntry { key: key.to_vec(), value: Stat { min, max, sum, count } }
}

#[test]
fn nothing_merges_to_nothing() {
    assert_eq!(merge(&[]), vec![]);
}

#[test]
fn entries_of_one_station_are_joined() {
    let entries = vec![
        entry(b"Hamburg", 120, 120, 120, 1),
        entry(b"Bulawayo", 89, 89, 89, 1),
        entry(b"Hamburg", -15, -15, -15, 1),
        entry(b"Bulawayo", 182, 182, 182, 1),
        entry(b"Hamburg", -20, 300, 500, 7),
    ];
    assert_eq!(
        merge(&entries),
        vec![entry(b"Bulawayo", 89, 182, 271, 2), entry(b"Hamburg", -20, 300, 605, 9)]
    );
}

#[test]
fn the_stations_come_out_in_byte_order_without_duplicates() {
    let names: [&[u8]; 9] = [b"b", b"a", b"B", b"ab", b"", b"a", "é".as_bytes(), b"z", b"ab"];
    let entries: Vec<ResultEntry> = names.iter().map(|name| entry(name, 1, 1, 1, 1)).collect();
    let keys: Vec<Vec<u8>> = merge(&entries).into_iter().map(|entry| entry.key).collect();
    let expected: Vec<Vec<u8>> =
        [&b""[..], b"B", b"a", b"ab", b"b", b"z", "é".as_bytes()].iter().map(|name| name.to_vec()).collect();
    assert_eq!(keys, expected);
}

#[test]
fn the_order_of_arrival_does_not_matter() {
    let mut entries = Vec::new();
    for at in 0..500u32 {
        let name = format!("station{}", (at * 7919) % 83);
        let tenths = (at as i32 * 37) % 1999 - 999;
        entries.push(entry(name.as_bytes(), tenths, tenths, tenths as i64, 1));
    }
    let forward = merge(&entries);
    entries.reverse();
    let backward = merge(&entries);
    entries.rotate_left(123);
    let rotated = merge(&entries);
    assert_eq!(forward.len(), 83);
    assert_eq!(forward, backward);
    assert_eq!(forward, rotated);
    assert_eq!(forward.iter().map(|entry| entry.value.count).sum::<u64>(), 500);
}

#[test]
fn merging_twice_is_merging_once() {
    let first = vec![entry(b"x", -5, 5, 0, 2), entry(b"y", 1, 1, 1, 1)];
    let second = vec![entry(b"y", 2, 3, 5, 2), entry(b"z", 9, 9, 9, 1)];
    let third = vec![entry(b"x", 7, 7, 7, 1)];
    let mut all = first.clone();
    all.extend(second.clone());
    all.extend(third.clone());
    let mut left = merge(&[first.clone(), second.clone()].concat());
    left.extend(third.clone());
    let mut right = first.clone();
    right.extend(merge(&[second, third].concat()));
    assert_eq!(merge(&left), merge(&all));
    assert_eq!(merge(&right), merge(&all));
    assert_eq!(
        merge(&all),
        vec![entry(b"x", -5, 7, 7, 3), entry(b"y", 1, 3, 6, 3), entry(b"z", 9, 9, 9, 1)]
    );
}

#[test]
fn can_merge_wants_valid_entries_and_a_total_within_the_limit() {
    assert!(can_merge(&[]));
    assert!(can_merge(&[entry(b"a", 1, 2, 3, 2), entry(b"a", 1, 1, 1, 1)]));
    assert!(!can_merge(&[entry(b"a", 1, 2, 3, 2), entry(b"b", 1, 1, 2, 1)]));
    assert!(!can_merge(&[entry(b"a", 0, 0, 0, 0)]));
    let half = MAX_COUNT / 2;
    assert!(can_merge(&[entry(b"a", 0, 0, 0, half), entry(b"b", 0, 0, 0, half)]));
    assert!(!can_merge(&[entry(b"a", 0, 0, 0, half), entry(b"b", 0, 0, 0, half), entry(b"c", 0, 0, 0, 1)]));
    assert!(!can_merge(&[entry(b"a", 0, 0, 0, u64::MAX), entry(b"b", 0, 0, 0, u64::MAX)]));
}
