use se::address::Address;
use se::parse_address;
use se::pattern::Pattern;
use se::reader::Reader;
use se::Line;

fn parse(s: &str) -> (Address, usize) {
    let mut r = Reader::new(s);
    let mut slot: usize = 0;
    let a = parse_address::parse(&mut r, &mut slot).unwrap();
    (a, slot)
}

fn loc(n: usize) -> Address {
    Address::Location(n)
}

fn range(lhs: Address, rhs: Address, k: usize) -> Address {
    Address::Range(Box::new(lhs), Box::new(rhs), k)
}

fn one(a: &Address, line: Line) -> bool {
    let mut st = vec![false; 4];
    a.matches(&line, &mut st)
}

#[test]
fn always_matches_any_line() {
    assert!(one(&Address::Always, Line(1, String::new())));
    assert!(one(&Address::Always, Line(279, String::new())));
}

#[test]
fn negated_always_matches_nothing() {
    let a = Address::Negate(Box::new(Address::Always));
    assert!(!one(&a, Line(1, String::new())));
    assert!(!one(&a, Line(279, String::new())));
}

#[test]
fn location_matches_its_line() {
    assert!(one(&loc(1), Line(1, String::new())));
    assert!(!one(&loc(1), Line(279, String::new())));
}

#[test]
fn regex_matches_text() {
    let a = Address::Pattern(Pattern::new("abc").unwrap());
    assert!(one(&a, Line(1, "abc".to_string())));
    assert!(!one(&a, Line(1, "hello, world!".to_string())));
}

#[test]
fn set_matches_any_member() {
    let a = Address::AnySet(vec![loc(1), loc(2), loc(3)]);
    assert!(one(&a, Line(1, String::new())));
    assert!(!one(&a, Line(279, String::new())));
}

#[test]
fn final_and_deferred_match_nothing() {
    assert!(!one(&Address::Final, Line(1, String::new())));
    assert!(!one(&Address::Deferred, Line(1, String::new())));
}

const EXAMPLE: [&str; 10] = [
    "",
    "            start",
    "            aaa",
    "            end",
    "            zzz aa bb c",
    "            start aabcd",
    "            def end",
    "",
    "            123",
    "        ",
];

fn over_example(script: &str) -> Vec<bool> {
    let (a, slots) = parse(script);
    let mut st = vec![false; slots];
    EXAMPLE
        .iter()
        .enumerate()
        .map(|(i, s)| a.matches(&Line(i + 1, s.to_string()), &mut st))
        .collect()
}

fn bools(s: &str) -> Vec<bool> {
    s.chars().map(|c| c == '1').collect()
}

#[test]
fn multiline_any() {
    assert_eq!(over_example("//"), bools("1111111111"));
}

#[test]
fn multiline_any_negated() {
    assert_eq!(over_example("//!"), bools("0000000000"));
}

#[test]
fn multiline_index() {
    assert_eq!(over_example("7"), bools("0000001000"));
    assert_eq!(over_example("89"), bools("0000000000"));
}

#[test]
fn multiline_set_of_indexes() {
    assert_eq!(over_example("2,5,9"), bools("0100100010"));
}

#[test]
fn range_of_indexes_two_to_seven() {
    assert_eq!(
        over_example("2-7"),
        vec![false, true, true, true, true, true, true, false, false, false]
    );
}

#[test]
fn multiline_range_one_to_one() {
    assert_eq!(over_example("1-1"), bools("1000000000"));
}

#[test]
fn multiline_left_open_range() {
    assert_eq!(over_example("1-5"), bools("1111100000"));
    assert_eq!(over_example("-5"), bools("1111100000"));
}

#[test]
fn multiline_regex() {
    assert_eq!(over_example("/aa/"), bools("0010110000"));
}

#[test]
fn multiline_regex_range_matches_twice() {
    assert_eq!(over_example("/start/-/end/"), bools("0111011000"));
}

#[test]
fn multiline_mixed_range() {
    assert_eq!(over_example("5-/123/"), bools("0000111110"));
}

#[test]
fn multiline_half_open_range() {
    assert_eq!(over_example("6-$"), bools("0000011111"));
}

#[test]
fn range_in_set_is_skipped_after_an_earlier_member_matches() {
    // line 2 is taken by the first member, so the range does not start there
    assert_eq!(over_example("2,2-3"), bools("0100000000"));
}

#[test]
fn parse_empty() {
    assert_eq!(parse("").0, Address::Always);
    assert_eq!(parse("()").0, Address::Always);
    assert_eq!(parse("//").0, Address::Always);
}

#[test]
fn parse_negations() {
    let not_any = Address::Negate(Box::new(Address::Always));
    assert_eq!(parse("//!").0, not_any);
    assert_eq!(parse("!").0, not_any);
}

#[test]
fn parse_star_is_always() {
    assert_eq!(parse("*").0, Address::Always);
    assert_eq!(parse("*!").0, Address::Negate(Box::new(Address::Always)));
}

#[test]
fn parse_final() {
    assert_eq!(parse("$").0, Address::Final);
}

#[test]
fn parse_negated_range() {
    let expected = Address::Negate(Box::new(range(loc(1), loc(5), 0)));
    assert_eq!(parse("1-5!"), (expected, 1));
    let expected = Address::Negate(Box::new(range(loc(1), loc(5), 0)));
    assert_eq!(parse("((1-5)!)").0, expected);
}

#[test]
fn parse_first_or_last() {
    assert_eq!(parse("1,$").0, Address::AnySet(vec![loc(1), Address::Final]));
    assert_eq!(
        parse("1,$!").0,
        Address::AnySet(vec![loc(1), Address::Negate(Box::new(Address::Final))])
    );
    assert_eq!(
        parse("(1,$)!").0,
        Address::Negate(Box::new(Address::AnySet(vec![loc(1), Address::Final])))
    );
}

#[test]
fn double_negation_is_plain_location() {
    assert_eq!(parse("(1!)!").0, loc(1));
    let mut st = vec![];
    let a = parse("(3!)!").0;
    let b = loc(3);
    for i in 1..6usize {
        let l = Line(i, String::new());
        assert_eq!(a.matches(&l, &mut st), b.matches(&l, &mut st));
    }
}

#[test]
fn nested_brackets_flatten_into_one_set() {
    assert_eq!(parse("((5),((6),10))").0, parse("5,6,10").0);
    assert_eq!(
        parse("((5),((6),10))").0,
        Address::AnySet(vec![loc(5), loc(6), loc(10)])
    );
}

#[test]
fn set_with_any_member_is_always() {
    assert_eq!(parse("5,(//),6").0, Address::Always);
}

#[test]
fn each_range_gets_its_own_slot() {
    let (a, slots) = parse("1-2,(3-4)!");
    assert_eq!(slots, 2);
    assert_eq!(
        a,
        Address::AnySet(vec![
            range(loc(1), loc(2), 0),
            Address::Negate(Box::new(range(loc(3), loc(4), 1)))
        ])
    );
}

#[test]
fn comment_before_address() {
    assert_eq!(parse("# note\n 7").0, loc(7));
}

#[test]
fn address_errors() {
    let mut r = Reader::new("0");
    let mut slot: usize = 0;
    assert_eq!(
        parse_address::parse(&mut r, &mut slot),
        Err(se::Error::InvalidAddress)
    );
    let mut r = Reader::new("7-3");
    assert_eq!(
        parse_address::parse(&mut r, &mut slot),
        Err(se::Error::InvalidAddress)
    );
    let mut r = Reader::new("(1");
    assert_eq!(
        parse_address::parse(&mut r, &mut slot),
        Err(se::Error::Missing(')'))
    );
    let mut r = Reader::new("99999999999999999999999");
    assert_eq!(
        parse_address::parse(&mut r, &mut slot),
        Err(se::Error::NumberTooLarge)
    );
    let mut r = Reader::new("/(/");
    assert!(matches!(
        parse_address::parse(&mut r, &mut slot),
        Err(se::Error::Missing(')'))
    ));
    let mut r = Reader::new("/a[/");
    assert_eq!(
        parse_address::parse(&mut r, &mut slot),
        Err(se::Error::InvalidRegex("a[".to_string()))
    );
}
