use se::address::Address;
use se::command::{Action, Command};
use se::pattern::Pattern;
use se::reader::Reader;
use se::scan::read_regex;
use se::{Error, Program};

fn re(s: &str) -> Pattern {
    Pattern::new(s).unwrap()
}

fn cond(a: Address, n: usize) -> Action {
    Action::Condition(a, n)
}

fn cmd(c: Command) -> Action {
    Action::Command(c)
}

fn range(lhs: Address, rhs: Address) -> Address {
    Address::Range(Box::new(lhs), Box::new(rhs), 0)
}

fn check(script: &str, expected: Vec<Action>) {
    let p = Program::parse(script).unwrap();
    assert_eq!(p.actions(), &expected);
}

fn scanned(s: &str) -> String {
    let mut r = Reader::new(s);
    read_regex(&mut r).unwrap().iter().collect()
}

#[test]
fn scan_empty() {
    assert_eq!(scanned("//<not this>"), "");
}

#[test]
fn scan_constant() {
    assert_eq!(scanned("/abc/<not this>"), "abc");
}

#[test]
fn scan_slash() {
    assert_eq!(scanned(r"/\//<not this>"), "/");
}

#[test]
fn scan_escaped_slash_is_unescaped() {
    assert_eq!(scanned("/abc\\//"), "abc/");
}

#[test]
fn scan_escaped_chars() {
    assert_eq!(scanned(r"/\n\t/<not this>"), r"\n\t");
}

#[test]
fn scan_empty_whole_line() {
    assert_eq!(scanned("^$<not this>"), "^$");
}

#[test]
fn scan_brackets() {
    assert_eq!(scanned("/(abc)/<not this>"), "(abc)");
    assert_eq!(scanned("/(a((b)(c)d)e(f))/<not this>"), "(a((b)(c)d)e(f))");
}

#[test]
fn scan_verbose() {
    let s = "/(?x) # /comment/\n        abc/<not this>";
    assert_eq!(scanned(s), "(?x) # /comment/\n        abc");
}

#[test]
fn scan_negated_verbose() {
    assert_eq!(scanned("/(?-x)#/<not this>"), "(?-x)#");
}

#[test]
fn scan_inline_verbose() {
    let s = "/(?x: # /comment/\n        abc)#def/<not this>";
    assert_eq!(scanned(s), "(?x: # /comment/\n        abc)#def");
}

#[test]
fn scan_local_verbose() {
    let s = "/((?x) # /comment/\n        abc)#def/<not this>";
    assert_eq!(scanned(s), "((?x) # /comment/\n        abc)#def");
}

#[test]
fn scan_verbose_canceled() {
    let s = "/(?x) abc ((?-x) #/# ) # /comment//\n        end/<not this>";
    assert_eq!(scanned(s), "(?x) abc ((?-x) #/# ) # /comment//\n        end");
}

#[test]
fn scan_whole_line_forms() {
    assert_eq!(scanned("^/$"), "^/$");
    assert_eq!(scanned(r"^\/$"), "^/$");
    assert_eq!(scanned(r"^\\/$"), r"^\\/$");
    assert_eq!(scanned(r"^\\\/$"), r"^\\/$");
}

#[test]
fn scan_errors() {
    let mut r = Reader::new("/abc");
    assert_eq!(read_regex(&mut r), Err(Error::Missing('/')));
    let mut r = Reader::new("/abc\\");
    assert_eq!(read_regex(&mut r), Err(Error::MissingEscape));
    let mut r = Reader::new("/(?x");
    assert_eq!(read_regex(&mut r), Err(Error::Missing(')')));
}

#[test]
fn program_empty() {
    check("", vec![]);
}

#[test]
fn program_print_all() {
    check("p", vec![cond(Address::Always, 1), cmd(Command::Println)]);
}

#[test]
fn program_print_with_newlines() {
    let expected = vec![
        cond(Address::Always, 3),
        cmd(Command::LineNumber),
        cmd(Command::Insert("\n".to_string())),
        cmd(Command::Println),
    ];
    check(r"='\n'p", expected);
    let expected = vec![
        cond(Address::Always, 3),
        cmd(Command::LineNumber),
        cmd(Command::Insert("\n".to_string())),
        cmd(Command::Println),
    ];
    check(r"   = '\n'  p  ", expected);
}

#[test]
fn program_ranges() {
    check("-", vec![cond(range(Address::Location(1), Address::Final), 0)]);
    check("-5", vec![cond(range(Address::Location(1), Address::Location(5)), 0)]);
    check("3-", vec![cond(range(Address::Location(3), Address::Final), 0)]);
    check(" 13  -   72 ", vec![cond(range(Address::Location(13), Address::Location(72)), 0)]);
    check("13-72!", vec![cond(Address::Negate(Box::new(range(Address::Location(13), Address::Location(72)))), 0)]);
}

#[test]
fn program_regex_addresses() {
    check("/abc/", vec![cond(Address::Pattern(re("abc")), 0)]);
    check(r"/abc\//", vec![cond(Address::Pattern(re("abc/")), 0)]);
    check("^abc$", vec![cond(Address::Pattern(re("^abc$")), 0)]);
    check(r"^\$abc$", vec![cond(Address::Pattern(re(r"^\$abc$")), 0)]);
    check(r"^\$$", vec![cond(Address::Pattern(re(r"^\$$")), 0)]);
    check("/abc/-/def/", vec![cond(range(Address::Pattern(re("abc")), Address::Pattern(re("def"))), 0)]);
}

#[test]
fn program_double_negation() {
    check("(1!)!", vec![cond(Address::Location(1), 0)]);
    check(" 666    ! ", vec![cond(Address::Negate(Box::new(Address::Location(666))), 0)]);
}

#[test]
fn program_sets() {
    let set = || Address::AnySet(vec![Address::Location(5), Address::Location(6), Address::Location(10)]);
    check("5,6,10", vec![cond(set(), 0)]);
    check("((5),((6),10))", vec![cond(set(), 0)]);
    check("  5, 6  ,10   ", vec![cond(set(), 0)]);
    check("(((42)))", vec![cond(Address::Location(42), 0)]);
}

#[test]
fn program_substitutions() {
    let sub = |p: &str, t: &str, n: usize| cmd(Command::Substitute(re(p), t.to_string(), n));
    check("s/abc/def/", vec![cond(Address::Always, 1), sub("abc", "def", 0)]);
    check("s/abc/def/5", vec![cond(Address::Always, 1), sub("abc", "def", 5)]);
    check("s/abc/def/g", vec![cond(Address::Always, 1), sub("abc", "def", 0)]);
    check("/abc/s/def/ghi/g", vec![cond(Address::Pattern(re("abc")), 1), sub("def", "ghi", 0)]);
}

#[test]
fn template_digits_become_group_reference() {
    check("s/(abc)/__$123__/", vec![
            cond(Address::Always, 1),
            cmd(Command::Substitute(re("(abc)"), "__${123}__".to_string(), 0))
        ]);
}

#[test]
fn multiple_instructions() {
    check("1d;3d;7d", vec![
            cond(Address::Location(1), 1),
            cmd(Command::Delete),
            cond(Address::Location(3), 1),
            cmd(Command::Delete),
            cond(Address::Location(7), 1),
            cmd(Command::Delete),
        ]);
}

#[test]
fn deferred_takes_the_substitution_pattern() {
    let sub = || cmd(Command::Substitute(re("abc"), "def".to_string(), 5));
    check("? s/abc/def/5", vec![cond(Address::Pattern(re("abc")), 1), sub()]);
    check("1-? s/abc/def/5", vec![cond(range(Address::Location(1), Address::Pattern(re("abc"))), 1), sub()]);
    check("1,? s/abc/def/5", vec![cond(Address::AnySet(vec![Address::Location(1), Address::Pattern(re("abc"))]), 1), sub()]);
}

#[test]
fn final_block_is_kept_apart() {
    let p = Program::parse("p;$=;$p").unwrap();
    assert_eq!(p.actions().len(), 2);
    assert_eq!(p.finally().len(), 2);
    assert_eq!(p.finally()[0], Command::LineNumber);
    assert_eq!(p.finally()[1], Command::Println);
}

#[test]
fn loop_body_is_nested() {
    let p = Program::parse("2:{p;.}").unwrap();
    assert_eq!(p.actions().len(), 2);
    assert_eq!(
        p.actions()[1],
        cmd(Command::Loop(vec![
            cond(Address::Always, 1),
            cmd(Command::Println),
            cond(Address::Always, 1),
            cmd(Command::Break),
        ]))
    );
}

#[test]
fn dot_ends_the_instruction() {
    check("p.p", vec![
            cond(Address::Always, 2),
            cmd(Command::Println),
            cmd(Command::Break),
            cond(Address::Always, 1),
            cmd(Command::Println),
        ]);
}

#[test]
fn comments_are_skipped() {
    check("p # a note\n", vec![cond(Address::Always, 1), cmd(Command::Println)]);
}

#[test]
fn compile_errors() {
    assert_eq!(Program::parse("k0").err(), Some(Error::InvalidIndex));
    assert_eq!(Program::parse("k3-2").err(), Some(Error::InvalidIndex));
    assert_eq!(Program::parse("k2-0").err(), Some(Error::InvalidIndex));
    assert_eq!(Program::parse("s//x/").err(), Some(Error::EmptyRegex));
    assert_eq!(Program::parse("sabc").err(), Some(Error::Missing('/')));
    assert_eq!(Program::parse("s/a/b").err(), Some(Error::Missing('/')));
    assert_eq!(Program::parse("'abc").err(), Some(Error::Missing('\'')));
    assert_eq!(
        Program::parse(r"'\q'").err(),
        Some(Error::InvalidEscape(r"\q".to_string()))
    );
    assert_eq!(Program::parse("?p").err(), Some(Error::DeferredWithoutSubstitution));
    assert_eq!(Program::parse("$:{p}").err(), Some(Error::LoopInFinal));
    assert_eq!(Program::parse("w").err(), Some(Error::Unexpected('w')));
    assert_eq!(Program::parse("}").err(), Some(Error::Unexpected('}')));
    assert_eq!(Program::parse(":{p").err(), Some(Error::Missing('}')));
    assert_eq!(Program::parse(":p").err(), Some(Error::Missing('{')));
    assert_eq!(Program::parse("q99999999999").err(), Some(Error::NumberTooLarge));
    assert_eq!(Program::parse("0p").err(), Some(Error::InvalidAddress));
    assert_eq!(Program::parse("/a(/p").err(), Some(Error::Missing(')')));
}

#[test]
fn quoted_text_is_unescaped() {
    check(r#""a\tb""#, vec![cond(Address::Always, 1), cmd(Command::Insert("a\tb".to_string()))]);
    check(r"'it\'s'", vec![cond(Address::Always, 1), cmd(Command::Insert("it's".to_string()))]);
}

#[test]
fn errors_come_with_their_position() {
    assert!(matches!(Program::parse_at("p;w"), Err((Error::Unexpected('w'), 3))));
    assert!(matches!(Program::parse_at("p;}"), Err((Error::Unexpected('}'), 2))));
    assert!(Program::parse_at("p").is_ok());
}
