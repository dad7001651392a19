use edit_chunks::names::{manifest_file_name, output_file_name, set_file_name};
use edit_chunks::range::{ParseError, Range, SizeChange};

#[test]
fn parse_plain_range() {
    assert_eq!(Range::parse("10-20"), Ok(Range { start: 10, end: 20 }));
}

#[test]
fn parse_empty_range() {
    assert_eq!(Range::parse("0-0"), Ok(Range { start: 0, end: 0 }));
}

#[test]
fn parse_rejects_non_number() {
    assert_eq!(Range::parse("abc-5"), Err(ParseError::Number));
    assert_eq!(Range::parse("5-"), Err(ParseError::Number));
    assert_eq!(Range::parse("-5"), Err(ParseError::Number));
}

#[test]
fn parse_rejects_missing_separator() {
    assert_eq!(Range::parse("5"), Err(ParseError::Separator));
    assert_eq!(Range::parse(""), Err(ParseError::Separator));
}

#[test]
fn parse_rejects_extra_separator() {
    assert_eq!(Range::parse("1-2-3"), Err(ParseError::Separator));
}

#[test]
fn parse_rejects_reversed() {
    assert_eq!(Range::parse("20-10"), Err(ParseError::Reversed));
}

#[test]
fn parse_largest_offsets() {
    assert_eq!(
        Range::parse("0-18446744073709551615"),
        Ok(Range { start: 0, end: u64::MAX })
    );
    assert_eq!(Range::parse("0-18446744073709551616"), Err(ParseError::Number));
}

#[test]
fn size_change_of_parts() {
    let r = Range { start: 10, end: 20 };
    assert_eq!(r.len(), 10);
    assert_eq!(r.size_change(10), SizeChange::Same);
    assert_eq!(r.size_change(15), SizeChange::Grew(5));
    assert_eq!(r.size_change(0), SizeChange::Shrank(10));
}

#[test]
fn part_file_names() {
    let mut s = String::from("leftover");
    set_file_name(&mut s, "data.bin", 0);
    assert_eq!(s, "data.bin.part.0");
    set_file_name(&mut s, "data.bin", 12);
    assert_eq!(s, "data.bin.part.12");
    set_file_name(&mut s, "x", 4096);
    assert_eq!(s, "x.part.4096");
}

#[test]
fn manifest_and_output_names() {
    assert_eq!(manifest_file_name("data.bin"), "data.bin.spec");
    assert_eq!(output_file_name("data.bin"), "data.bin.new");
}

#[test]
fn from_str_uses_the_same_rules() {
    assert_eq!("10-20".parse::<Range>(), Ok(Range { start: 10, end: 20 }));
    assert_eq!("5".parse::<Range>(), Err(ParseError::Separator));
}

#[test]
fn parse_accepts_leading_plus() {
    assert_eq!(Range::parse("+1-+2"), Ok(Range { start: 1, end: 2 }));
    assert_eq!("+0-7".parse::<Range>(), Ok(Range { start: 0, end: 7 }));
    assert_eq!(Range::parse("+-5"), Err(ParseError::Number));
    assert_eq!(Range::parse("++1-2"), Err(ParseError::Number));
    assert_eq!(Range::parse("1+-2"), Err(ParseError::Number));
}

#[test]
fn parse_printed_ranges() {
    for (a, b) in [(0u64, 0u64), (7, 1234567), (42, u64::MAX), (u64::MAX, u64::MAX)] {
        let token = format!("{}-{}", a, b);
        assert_eq!(token.parse::<Range>(), Ok(Range { start: a, end: b }));
    }
}
