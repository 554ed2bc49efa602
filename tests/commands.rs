use se::command::{Command, Memory};
use se::program::{Event, Request};
use se::{Line, Program, Status};

fn step(p: &mut Program, e: Event) -> Request {
    p.run(e)
}

#[test]
fn readln() {
    let mut prog = Program::parse("r1;r4").unwrap();
    assert_eq!(step(&mut prog, Event::Start(false)), Request::Read);
    assert_eq!(
        step(&mut prog, Event::Input(Some(Line(0, "start".to_string())))),
        Request::Continue
    );
    // the condition, then the first `r`
    assert_eq!(step(&mut prog, Event::Resume), Request::Continue);
    assert_eq!(step(&mut prog, Event::Resume), Request::Read);
    assert_eq!(
        step(&mut prog, Event::Input(Some(Line(1, "1".to_string())))),
        Request::Continue
    );
    assert_eq!(prog.pattern(), "start\n1");

    assert_eq!(step(&mut prog, Event::Resume), Request::Continue);
    assert_eq!(step(&mut prog, Event::Resume), Request::Read);
    for n in 2..=5usize {
        let r = step(&mut prog, Event::Input(Some(Line(n, n.to_string()))));
        if n < 5 {
            assert_eq!(r, Request::Read);
        } else {
            assert_eq!(r, Request::Continue);
        }
    }
    assert_eq!(prog.pattern(), "start\n1\n2\n3\n4\n5");
}

#[test]
fn readln_stops_at_end_of_input() {
    let mut prog = Program::parse("r3").unwrap();
    step(&mut prog, Event::Start(false));
    step(&mut prog, Event::Input(Some(Line(1, "a".to_string()))));
    step(&mut prog, Event::Resume);
    assert_eq!(step(&mut prog, Event::Resume), Request::Read);
    assert_eq!(
        step(&mut prog, Event::Input(Some(Line(2, "b".to_string())))),
        Request::Read
    );
    assert_eq!(step(&mut prog, Event::Input(None)), Request::Continue);
    assert_eq!(prog.pattern(), "a\nb");
}

fn memory(this: &str, hold: &str) -> Memory {
    let mut memory = Memory::default();
    memory.read(Line(0, this.to_string()));
    memory.hold = hold.to_string();
    memory
}

#[test]
fn join() {
    let mut memory = memory("one", "two");
    assert_eq!(Command::Join.edit(&mut memory), Status::Normal);
    assert_eq!(memory.this, "onetwo");
}

#[test]
fn joinln() {
    let mut memory = memory("one", "two");
    assert_eq!(Command::Joinln.edit(&mut memory), Status::Normal);
    assert_eq!(memory.this, "one\ntwo");
}

#[test]
fn exchange() {
    let mut memory = memory("one", "two");
    assert_eq!(Command::Exchange.edit(&mut memory), Status::Normal);
    assert_eq!(memory.this, "two");
    assert_eq!(memory.hold, "one");
}

#[test]
fn hold_and_get() {
    let mut memory = memory("one", "two");
    Command::Hold.edit(&mut memory);
    assert_eq!(memory.hold, "one");
    memory.this = "three".to_string();
    Command::Get.edit(&mut memory);
    assert_eq!(memory.this, "one");
}

#[test]
fn reset_and_delete() {
    let mut memory = memory("one", "two");
    assert_eq!(Command::Reset.edit(&mut memory), Status::Normal);
    assert_eq!(memory.this, "");
    let mut memory = self::memory("one", "two");
    assert_eq!(Command::Delete.edit(&mut memory), Status::NoPrint);
    assert_eq!(memory.this, "");
    assert_eq!(memory.hold, "two");
}

#[test]
fn break_and_quit_statuses() {
    let mut memory = memory("one", "two");
    assert_eq!(Command::Break.edit(&mut memory), Status::Break);
    assert_eq!(Command::Quit(3).edit(&mut memory), Status::Quit(3));
    assert_eq!(memory.this, "one");
}

fn kept(script: &str) -> String {
    let prog = Program::parse(script).unwrap();
    match &prog.actions()[1] {
        se::command::Action::Command(c) => {
            let mut memory = memory("123456789", "");
            c.edit(&mut memory);
            memory.this
        }
        _ => panic!("a command was expected"),
    }
}

#[test]
fn keep_range() {
    assert_eq!(kept("k3-5"), "345");
}

#[test]
fn keep_left_open_range() {
    assert_eq!(kept("k-5"), "12345");
}

#[test]
fn keep_nth_char() {
    assert_eq!(kept("k5"), "5");
}

#[test]
fn keep_right_open_range() {
    assert_eq!(kept("k3-"), "3456789");
}

#[test]
fn keep_single_item_range() {
    assert_eq!(kept("k1-1"), "1");
}

#[test]
fn keep_first_item() {
    assert_eq!(kept("k1"), "1");
}

#[test]
fn keep_counts_characters_not_bytes() {
    let prog = Program::parse("k2-3").unwrap();
    match &prog.actions()[1] {
        se::command::Action::Command(c) => {
            let mut memory = memory("ąćęł", "");
            c.edit(&mut memory);
            assert_eq!(memory.this, "ćę");
        }
        _ => panic!("a command was expected"),
    }
}

#[test]
fn keep_past_the_end_is_empty() {
    assert_eq!(se::command::keep(&"abc".to_string(), 5, Some(2)), "");
    assert_eq!(se::command::keep(&"abc".to_string(), 1, Some(9)), "bc");
}

#[test]
fn substitute_replaces_up_to_limit() {
    let p = se::pattern::Pattern::new("a").unwrap();
    let mut memory = memory("banana", "");
    Command::Substitute(p, "o".to_string(), 2).edit(&mut memory);
    assert_eq!(memory.this, "bonona");
    let p = se::pattern::Pattern::new("a").unwrap();
    let mut memory = self::memory("banana", "");
    Command::Substitute(p, "o".to_string(), 0).edit(&mut memory);
    assert_eq!(memory.this, "bonono");
}

#[test]
fn substitute_with_numbered_group() {
    let prog = Program::parse("s/(b)(a)/$2$1/g").unwrap();
    match &prog.actions()[1] {
        se::command::Action::Command(c) => {
            let mut memory = memory("banana", "");
            c.edit(&mut memory);
            assert_eq!(memory.this, "abnana");
        }
        _ => panic!("a command was expected"),
    }
}
