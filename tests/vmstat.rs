use txpool::vmstat::pgfault_count;

#[test]
fn reads_pgfault_line() {
    let text = "nr_free_pages 10\npgfault 12345\npgmajfault 7\n";
    assert_eq!(pgfault_count(text.as_bytes()), Some(12345));
}

#[test]
fn trims_and_accepts_plus() {
    assert_eq!(pgfault_count(b"pgfault  +42 \r\n"), Some(42));
    assert_eq!(pgfault_count(b"x 1\npgfault\t9"), None);
    assert_eq!(pgfault_count(b"x 1\npgfault 9"), Some(9));
}

#[test]
fn rejects_other_keys_and_bad_values() {
    assert_eq!(pgfault_count(b""), None);
    assert_eq!(pgfault_count(b"pgfaults 5\n"), None);
    assert_eq!(pgfault_count(b"pgmajfault 5\n"), None);
    // the first matching line decides
    assert_eq!(pgfault_count(b"pgfault abc\npgfault 5\n"), None);
    assert_eq!(pgfault_count(b"pgfault +\n"), None);
    assert_eq!(pgfault_count(b"pgfault \n"), None);
}

#[test]
fn u64_range() {
    assert_eq!(pgfault_count(b"pgfault 18446744073709551615\n"), Some(u64::MAX));
    assert_eq!(pgfault_count(b"pgfault 18446744073709551616\n"), None);
    assert_eq!(pgfault_count(b"pgfault 99999999999999999999999\n"), None);
}

#[test]
fn trims_unicode_whitespace() {
    assert_eq!(pgfault_count("pgfault 5\u{a0}\n".as_bytes()), Some(5));
    assert_eq!(pgfault_count("pgfault \u{3000}\u{85}7\u{2009}\u{2028}".as_bytes()), Some(7));
    assert_eq!(pgfault_count("pgfault \u{1680}12\u{205f}\u{202f}\r\n".as_bytes()), Some(12));
    // not whitespace: a no-break space must not be mistaken for another character
    assert_eq!(pgfault_count("pgfault 5\u{e9}\n".as_bytes()), None);
    assert_eq!(pgfault_count("pgfault \u{a0}\u{3000}\n".as_bytes()), None);
}
