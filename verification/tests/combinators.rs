use lieutenant::{Either, Exec, ExecHandler, Input, Or, ParserBase};

/// A parser that consumes one non-empty whitespace-delimited token.
struct TokenParser;

impl ParserBase for TokenParser {
    type Extract = String;

    fn parse<'a>(&self, input: &mut Input<'a>) -> Option<String> {
        let tok = input.head(32);
        if tok.is_empty() {
            None
        } else {
            Some(String::from_utf8(tok.to_vec()).unwrap())
        }
    }
}

/// A parser that always fails.
struct FailParser;

impl ParserBase for FailParser {
    type Extract = String;

    fn parse<'a>(&self, _input: &mut Input<'a>) -> Option<String> {
        None
    }
}

/// A handler that records the extracted value.
#[derive(Clone, Copy)]
struct Capture;

impl ExecHandler<Vec<String>, String> for Capture {
    fn run(&self, ctx: &mut Vec<String>, extracted: String) {
        ctx.push(extracted);
    }
}

#[test]
fn head_consumes_token_and_separator() {
    let mut i = Input::new("a bc  d");
    assert!(!i.empty());
    assert_eq!(i.head(32), &b"a"[..]);
    assert_eq!(i.head(32), &b"bc"[..]);
    assert_eq!(i.head(32), &b""[..]);
    assert_eq!(i.head(32), &b"d"[..]);
    assert!(i.empty());
    assert!(i.is_empty());
}

#[test]
fn head_without_separator_consumes_everything() {
    let mut i = Input::new("single");
    assert_eq!(i.head(32), &b"single"[..]);
    assert!(i.empty());
    assert_eq!(i.head(32), &b""[..]);
}

#[test]
fn cloned_cursor_is_independent() {
    let i = Input::new("one two");
    let mut probe = i.clone();
    assert_eq!(probe.head(32), &b"one"[..]);
    let mut original = i;
    assert_eq!(original.head(32), &b"one"[..]);
}

#[test]
fn or_first_branch_leaves_cursor_unadvanced() {
    let p = Or { first: TokenParser, second: TokenParser };
    let mut input = Input::new("alpha beta");
    let r = p.parse(&mut input).unwrap();
    match r.0 {
        Either::A(s) => assert_eq!(s, "alpha"),
        Either::B(_) => panic!("expected the first branch"),
    }
    // only the discarded clone was advanced
    assert!(!input.is_empty());
    assert_eq!(input.head(32), &b"alpha"[..]);
}

#[test]
fn or_second_branch_advances_cursor() {
    let p = Or { first: FailParser, second: TokenParser };
    let mut input = Input::new("alpha beta");
    let r = p.parse(&mut input).unwrap();
    match r.0 {
        Either::B(s) => assert_eq!(s, "alpha"),
        Either::A(_) => panic!("expected the second branch"),
    }
    assert_eq!(input.head(32), &b"beta"[..]);
}

#[test]
fn or_fails_when_both_fail() {
    let p = Or { first: FailParser, second: FailParser };
    let mut input = Input::new("alpha");
    assert!(p.parse(&mut input).is_none());
}

#[test]
fn exec_rejects_trailing_input() {
    let e = Exec { parser: TokenParser, command: Capture };
    let mut input = Input::new("word extra");
    assert!(e.parse(&mut input).is_none());
}

#[test]
fn exec_command_call_invokes_handler_once() {
    let e = Exec { parser: TokenParser, command: Capture };
    let mut input = Input::new("word");
    let cmd = e.parse(&mut input).unwrap().0;
    let mut log: Vec<String> = vec![];
    cmd.call(&mut log);
    assert_eq!(log, vec!["word".to_string()]);
}

#[test]
fn exec_fails_when_inner_parser_fails() {
    let e = Exec { parser: FailParser, command: Capture };
    let mut input = Input::new("word");
    assert!(e.parse(&mut input).is_none());
}
