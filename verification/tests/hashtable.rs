use onebrc::error::Error;
use onebrc::aggregate::ResultEntry;
use onebrc::hashtable::HashTable;
use onebrc::stat::Stat;

#[test]
fn test_modify_hashtable_multiple() {
    let mut table = HashTable::<&[u8]>::new();
    table.set(&[0], &[0, 0, 0]).unwrap();
    table.set(&[1], &[0, 0, 1]).unwrap();
    table.set(&[2], &[0, 0, 2]).unwrap();
    table.set(&[3], &[0, 0, 3]).unwrap();
    table.set(&[4], &[0, 0, 4]).unwrap();
    table.set(&[5], &[0, 0, 5]).unwrap();
    table.set(&[6], &[0, 0, 6]).unwrap();
    table.set(&[7], &[0, 0, 7]).unwrap();
    assert_eq!(table.get(&[0]), Some(&[0, 0, 0].as_slice()));
    table.set(&[8], &[0, 0, 8]).unwrap();
    assert_eq!(table.get(&[0]), Some(&[0, 0, 0].as_slice()));
}

#[test]
fn hash_key_matches_known_fnv1a_values() {
    assert_eq!(HashTable::<u8>::hash_key(b""), 0xcbf29ce484222325);
    assert_eq!(HashTable::<u8>::hash_key(b"a"), 0xaf63dc4c8601ec8c);
    assert_eq!(HashTable::<u8>::hash_key(b"foobar"), 0x85944171f73967e8);
}

#[test]
fn get_of_an_absent_key_is_none() {
    let mut table = HashTable::<u32>::new();
    assert_eq!(table.get(b"Hamburg"), None);
    table.set(b"Hamburg", 1).unwrap();
    assert_eq!(table.get(b"Hamburg"), Some(&1));
    assert_eq!(table.get(b"Hamburh"), None);
    assert_eq!(table.get(b"Hambur"), None);
    assert_eq!(table.len(), 1);
    assert_eq!(table.capacity(), 131072);
}

#[test]
fn set_replaces_the_value_of_a_held_key() {
    let mut table = HashTable::<u32>::new();
    assert_eq!(table.set_entry(b"Oslo", 1), Ok(None));
    assert_eq!(table.set_entry(b"Oslo", 2), Ok(Some(b"Oslo".as_slice())));
    assert_eq!(table.get(b"Oslo"), Some(&2));
    assert_eq!(table.len(), 1);
}

#[test]
fn with_capacity_wants_a_power_of_two() {
    assert!(HashTable::<u32>::with_capacity(0).is_none());
    assert!(HashTable::<u32>::with_capacity(3).is_none());
    assert!(HashTable::<u32>::with_capacity(12).is_none());
    assert_eq!(HashTable::<u32>::with_capacity(1).unwrap().capacity(), 1);
    assert_eq!(HashTable::<u32>::with_capacity(8).unwrap().capacity(), 8);
}

#[test]
fn a_full_table_refuses_a_new_key_and_keeps_the_old() {
    let mut table = HashTable::<u32>::with_capacity(4).unwrap();
    let names: [&[u8]; 4] = [b"a", b"b", b"c", b"d"];
    for (at, name) in names.iter().enumerate() {
        assert_eq!(table.set(name, at as u32), Ok(()));
    }
    assert_eq!(table.len(), 4);
    assert_eq!(table.set(b"e", 9), Err(Error::TableFull));
    assert_eq!(table.get(b"e"), None);
    assert_eq!(table.set(b"c", 7), Ok(()));
    for (at, name) in names.iter().enumerate() {
        let expected = if at == 2 { 7 } else { at as u32 };
        assert_eq!(table.get(name), Some(&expected));
    }
}

#[test]
fn colliding_keys_are_kept_apart() {
    let mut table = HashTable::<usize>::with_capacity(2).unwrap();
    assert_eq!(table.set(b"first", 1), Ok(()));
    assert_eq!(table.set(b"second", 2), Ok(()));
    assert_eq!(table.get(b"first"), Some(&1));
    assert_eq!(table.get(b"second"), Some(&2));
    assert_eq!(table.get(b"third"), None);
}

#[test]
fn keys_are_compared_wherever_they_lie_in_memory() {
    let text = b"xBulawayo;Bulawayo;yyBulawayo;Bulawayp";
    let mut table = HashTable::<u32>::new();
    table.set(&text[1..9], 5).unwrap();
    assert_eq!(table.get(&text[10..18]), Some(&5));
    assert_eq!(table.get(&text[21..29]), Some(&5));
    assert_eq!(table.get(&text[30..38]), None);
    assert_eq!(table.get(&text[1..8]), None);
}

#[test]
fn upsert_installs_and_then_updates() {
    let mut table = HashTable::<Stat>::with_capacity(8).unwrap();
    assert_eq!(table.upsert(b"Hamburg", 120), Ok(()));
    assert_eq!(table.get(b"Hamburg"), Some(&Stat { min: 120, max: 120, sum: 120, count: 1 }));
    assert_eq!(table.upsert(b"Hamburg", -15), Ok(()));
    assert_eq!(table.get(b"Hamburg"), Some(&Stat { min: -15, max: 120, sum: 105, count: 2 }));
    assert_eq!(table.upsert(b"Bulawayo", 89), Ok(()));
    assert_eq!(table.len(), 2);
    let hash = HashTable::<Stat>::hash_key(b"Bulawayo");
    assert_eq!(table.upsert_hashed(b"Bulawayo", hash, 182), Ok(()));
    assert_eq!(table.get(b"Bulawayo"), Some(&Stat { min: 89, max: 182, sum: 271, count: 2 }));
}

#[test]
fn upsert_into_a_full_table_fails_for_a_new_station_only() {
    let mut table = HashTable::<Stat>::with_capacity(2).unwrap();
    assert_eq!(table.upsert(b"a", 1), Ok(()));
    assert_eq!(table.upsert(b"b", 2), Ok(()));
    assert_eq!(table.upsert(b"c", 3), Err(Error::TableFull));
    assert_eq!(table.upsert(b"a", 3), Ok(()));
    assert_eq!(table.get(b"a"), Some(&Stat { min: 1, max: 3, sum: 4, count: 2 }));
    assert_eq!(table.get(b"c"), None);
}

#[test]
fn drain_yields_every_station_once() {
    let mut table = HashTable::<Stat>::with_capacity(16).unwrap();
    let names: [&[u8]; 5] = [b"Oslo", b"Lima", b"Rome", b"Kyiv", b"Bern"];
    for (at, name) in names.iter().enumerate() {
        table.upsert(name, at as i32).unwrap();
        table.upsert(name, 10 * at as i32).unwrap();
    }
    let mut entries = table.drain();
    entries.sort_by_key(|entry| entry.key.clone());
    let mut expected: Vec<ResultEntry> = names
        .iter()
        .enumerate()
        .map(|(at, name)| ResultEntry {
            key: name.to_vec(),
            value: Stat { min: at as i32, max: 10 * at as i32, sum: 11 * at as i64, count: 2 },
        })
        .collect();
    expected.sort_by_key(|entry| entry.key.clone());
    assert_eq!(entries, expected);
}

#[test]
fn drain_of_an_empty_table_is_empty() {
    assert_eq!(HashTable::<Stat>::new().drain(), Vec::<ResultEntry>::new());
}
