use onebrc::aggregate::ResultEntry;
use onebrc::report::format_report;
use onebrc::stat::Stat;

fn entry(key: &[u8], min: i32, max: i32, sum: i64, count: u64) -> ResultEntry {
    ResultEntry { key: key.to_vec(), value: Stat { min, max, sum, count } }
}

#[test]
fn an_empty_report_is_a_pair_of_braces() {
    assert_eq!(format_report(&[]), b"{}".to_vec());
}

#[test]
fn one_station() {
    assert_eq!(
        format_report(&[entry(b"Hamburg", 120, 120, 120, 1)]),
        b"{Hamburg=12.0/12.0/12.0}".to_vec()
    );
}

#[test]
fn two_stations_with_means_that_round_up() {
    let entries = [entry(b"Bulawayo", 89, 182, 271, 2), entry(b"Hamburg", -15, 120, 105, 2)];
    assert_eq!(
        format_report(&entries),
        b"{Bulawayo=8.9/13.6/18.2, Hamburg=-1.5/5.3/12.0}".to_vec()
    );
}

#[test]
fn a_mean_that_rounds_to_zero_from_below_keeps_its_sign() {
    assert_eq!(format_report(&[entry(b"X", -99, 99, -1, 4)]), b"{X=-9.9/-0.0/9.9}".to_vec());
    assert_eq!(format_report(&[entry(b"X", -99, 99, 1, 4)]), b"{X=-9.9/0.0/9.9}".to_vec());
    assert_eq!(format_report(&[entry(b"X", -99, 99, 0, 4)]), b"{X=-9.9/0.0/9.9}".to_vec());
    assert_eq!(format_report(&[entry(b"X", -1, 0, -1, 2)]), b"{X=-0.1/-0.0/0.0}".to_vec());
}

#[test]
fn the_entries_stand_in_the_order_given_and_names_are_not_escaped() {
    let entries = [
        entry("Zürich".as_bytes(), -999, 999, 0, 3),
        entry(b"a=b/c, d", 5, 5, 5, 1),
        entry(&[0xff, 0x00], 0, 0, 0, 1),
    ];
    let mut expected = "{Zürich=-99.9/0.0/99.9, a=b/c, d=0.5/0.5/0.5, ".as_bytes().to_vec();
    expected.extend_from_slice(&[0xff, 0x00]);
    expected.extend_from_slice(b"=0.0/0.0/0.0}");
    assert_eq!(format_report(&entries), expected);
}
