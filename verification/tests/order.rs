use onebrc::order::key_less;

#[test]
fn names_are_ordered_byte_by_byte() {
    assert!(key_less(b"Bulawayo", b"Hamburg"));
    assert!(!key_less(b"Hamburg", b"Bulawayo"));
    assert!(key_less(b"Ab", b"B"));
    assert!(key_less(b"Z", b"a"));
    assert!(key_less(&[0x7f], &[0x80]));
    assert!(key_less("Zürich".as_bytes(), "Zürichsee".as_bytes()));
    assert!(key_less(b"Zz", "Zü".as_bytes()));
}

#[test]
fn a_name_comes_before_every_longer_name_that_it_begins() {
    assert!(key_less(b"", b"a"));
    assert!(key_less(b"San", b"San Jose"));
    assert!(!key_less(b"San Jose", b"San"));
}

#[test]
fn no_name_comes_before_itself() {
    assert!(!key_less(b"", b""));
    assert!(!key_less(b"Oslo", b"Oslo"));
}
