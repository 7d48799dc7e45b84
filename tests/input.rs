use rustsweeper::{
    char_at, check_choice, parse_coords, parse_isize, parse_usize, read_num, str_len, substring, Coord, CoordError,
    NumEntry,
};

#[test]
fn parse_isize_values() {
    assert_eq!(parse_isize("42"), Some(42));
    assert_eq!(parse_isize("-12"), Some(-12));
    assert_eq!(parse_isize("+5"), Some(5));
    assert_eq!(parse_isize("-0"), Some(0));
    assert_eq!(parse_isize(""), None);
    assert_eq!(parse_isize("-"), None);
    assert_eq!(parse_isize("1 2"), None);
    assert_eq!(parse_isize("abc"), None);
    assert_eq!(parse_isize(&isize::MAX.to_string()), Some(isize::MAX));
    assert_eq!(parse_isize(&isize::MIN.to_string()), Some(isize::MIN));
    assert_eq!(parse_isize("99999999999999999999999"), None);
    for s in ["0", "7", "-7", "+007", "x1", "1x", "--1", "+-1", " 1"] {
        assert_eq!(parse_isize(s), s.parse::<isize>().ok(), "{}", s);
    }
}

#[test]
fn parse_usize_values() {
    assert_eq!(parse_usize("0"), Some(0));
    assert_eq!(parse_usize("+19"), Some(19));
    assert_eq!(parse_usize("-1"), None);
    assert_eq!(parse_usize("-0"), None);
    assert_eq!(parse_usize(""), None);
    assert_eq!(parse_usize(&usize::MAX.to_string()), Some(usize::MAX));
    assert_eq!(parse_usize("184467440737095516150"), None);
}

#[test]
fn read_num_entries() {
    assert_eq!(read_num(&String::new()), NumEntry::Blank);
    assert_eq!(read_num(&"2".to_string()), NumEntry::Number(2));
    assert_eq!(read_num(&"-3".to_string()), NumEntry::Number(-3));
    assert_eq!(read_num(&"two".to_string()), NumEntry::Invalid);
}

#[test]
fn check_choice_range() {
    assert_eq!(check_choice(1, 1, 4), Some(1));
    assert_eq!(check_choice(4, 1, 4), Some(4));
    assert_eq!(check_choice(0, 1, 4), None);
    assert_eq!(check_choice(5, 1, 4), None);
    assert_eq!(check_choice(-2, 1, 3), None);
}

#[test]
fn parse_coords_cases() {
    let ok = parse_coords(&"3 4".to_string(), 0, 9, 0, 9);
    assert_eq!(ok, Ok(Coord::new(3, 4)));
    assert_eq!(parse_coords(&"34".to_string(), 0, 9, 0, 9), Err(CoordError::NoSeparator));
    assert_eq!(parse_coords(&"".to_string(), 0, 9, 0, 9), Err(CoordError::NoSeparator));
    assert_eq!(parse_coords(&"3\04".to_string(), 0, 9, 0, 9), Err(CoordError::NoSeparator));
    assert_eq!(parse_coords(&"3\t4".to_string(), 0, 9, 0, 9), Err(CoordError::NoSeparator));
    assert_eq!(parse_coords(&"a 4".to_string(), 0, 9, 0, 9), Err(CoordError::NotANumber));
    assert_eq!(parse_coords(&"3 ".to_string(), 0, 9, 0, 9), Err(CoordError::NotANumber));
    assert_eq!(parse_coords(&"3  4".to_string(), 0, 9, 0, 9), Err(CoordError::NotANumber));
    assert_eq!(parse_coords(&"3 10".to_string(), 0, 9, 0, 9), Err(CoordError::OutOfRange));
    assert_eq!(parse_coords(&"39 19".to_string(), 0, 39, 0, 19), Ok(Coord::new(39, 19)));
}

#[test]
fn string_helpers() {
    let s = "héllo".to_string();
    assert_eq!(str_len(&s), 5);
    assert_eq!(char_at(&s, 1), 'é');
    assert_eq!(char_at(&s, 5), '\0');
    assert_eq!(substring(&s, 1, 3), "él");
    assert_eq!(substring(&s, 3, 99), "lo");
    assert_eq!(substring(&s, 4, 2), "");
    assert_eq!(substring(&s, 5, 9), "");
}
