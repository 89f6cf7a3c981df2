use lieutenant::{
    ArgumentChecker, CheckerEq, CommandDispatcher, CommandHandler, CommandMeta, CommandNode,
    CommandNodeKind, Input, RegisterError,
};

/// A checker that consumes one non-empty whitespace-delimited token,
/// optionally refusing one reserved word.
#[derive(PartialEq)]
struct Word {
    reject: Option<String>,
}

impl CheckerEq for Word {
    fn equals(&self, other: &Self) -> bool {
        self.reject == other.reject
    }
}

impl ArgumentChecker<Vec<String>> for Word {
    fn satisfies<'a>(&self, _ctx: &mut Vec<String>, input: &mut Input<'a>) -> bool {
        let tok = input.head(32);
        if tok.is_empty() {
            return false;
        }
        match &self.reject {
            Some(r) => tok != r.as_bytes(),
            None => true,
        }
    }
}

/// A handler that records its tag and the raw command text.
#[derive(Clone, Copy)]
struct Tag(&'static str);

impl CommandHandler<Vec<String>> for Tag {
    fn invoke(&self, ctx: &mut Vec<String>, raw: &str) {
        ctx.push(format!("{}:{}", self.0, raw));
    }
}

fn lit(s: &str, next: Vec<CommandNode<Word, Tag>>) -> CommandNode<Word, Tag> {
    CommandNode { kind: CommandNodeKind::Literal(s.to_string()), handler: None, next }
}

fn arg(w: Word, next: Vec<CommandNode<Word, Tag>>) -> CommandNode<Word, Tag> {
    CommandNode { kind: CommandNodeKind::Parser(w), handler: None, next }
}

fn done(tag: &'static str) -> CommandNode<Word, Tag> {
    CommandNode {
        kind: CommandNodeKind::Literal(String::new()),
        handler: Some(Tag(tag)),
        next: vec![],
    }
}

fn meta(name: &str) -> CommandMeta {
    CommandMeta { name: name.to_string() }
}

fn any() -> Word {
    Word { reject: None }
}

#[test]
fn prefix_sharing_allocates_one_shared_node() {
    let mut d: CommandDispatcher<Word, Tag> = CommandDispatcher::new();
    assert_eq!(d.node_count(), 1);
    d.register(lit("foo", vec![lit("bar", vec![done("h1")])]), meta("foo bar")).unwrap();
    assert_eq!(d.node_count(), 4);
    d.register(lit("foo", vec![lit("baz", vec![done("h2")])]), meta("foo baz")).unwrap();
    // one node for the shared "foo", one new "baz" child and its leaf
    assert_eq!(d.node_count(), 6);
    let mut log: Vec<String> = vec![];
    assert!(d.dispatch(&mut log, "foo bar"));
    assert!(d.dispatch(&mut log, "foo baz"));
    assert_eq!(log, vec!["h1:foo bar".to_string(), "h2:foo baz".to_string()]);
}

#[test]
fn overlap_rejected_and_first_registration_kept() {
    let mut d: CommandDispatcher<Word, Tag> = CommandDispatcher::new();
    d.register(lit("foo", vec![done("h1")]), meta("foo")).unwrap();
    let err = d.register(lit("foo", vec![done("h2")]), meta("foo again")).unwrap_err();
    assert_eq!(err, RegisterError::OverlappingCommands);
    let mut log: Vec<String> = vec![];
    assert!(d.dispatch(&mut log, "foo"));
    assert_eq!(log, vec!["h1:foo".to_string()]);
}

#[test]
fn executable_root_rejected() {
    let mut d: CommandDispatcher<Word, Tag> = CommandDispatcher::new();
    let t = CommandNode {
        kind: CommandNodeKind::Literal("ignored".to_string()),
        handler: Some(Tag("root")),
        next: vec![],
    };
    let err = d.register(t, meta("empty command")).unwrap_err();
    assert_eq!(err, RegisterError::ExecutableRoot);
}

#[test]
fn exact_consumption_rejects_trailing_tokens() {
    let mut d: CommandDispatcher<Word, Tag> = CommandDispatcher::new();
    d.register(lit("foo", vec![done("h1")]), meta("foo")).unwrap();
    let mut log: Vec<String> = vec![];
    assert!(!d.dispatch(&mut log, "foo bar"));
    assert!(log.is_empty());
    assert!(d.dispatch(&mut log, "foo"));
    assert_eq!(log, vec!["h1:foo".to_string()]);
}

#[test]
fn first_match_commits_to_literal_registered_first() {
    let mut d: CommandDispatcher<Word, Tag> = CommandDispatcher::new();
    d.register(lit("123", vec![done("hl")]), meta("literal")).unwrap();
    d.register(arg(any(), vec![done("hp")]), meta("parser")).unwrap();
    let mut log: Vec<String> = vec![];
    assert!(d.dispatch(&mut log, "123"));
    assert_eq!(log, vec!["hl:123".to_string()]);
}

#[test]
fn first_match_commits_to_parser_registered_first() {
    let mut d: CommandDispatcher<Word, Tag> = CommandDispatcher::new();
    d.register(arg(any(), vec![done("hp")]), meta("parser")).unwrap();
    d.register(lit("123", vec![done("hl")]), meta("literal")).unwrap();
    let mut log: Vec<String> = vec![];
    assert!(d.dispatch(&mut log, "123"));
    assert_eq!(log, vec!["hp:123".to_string()]);
}

#[test]
fn metadata_grows_once_per_registration() {
    let mut d: CommandDispatcher<Word, Tag> = CommandDispatcher::new();
    assert_eq!(d.command_meta().len(), 0);
    d.register(lit("a", vec![done("a")]), meta("a")).unwrap();
    d.register(lit("b", vec![lit("c", vec![done("bc")])]), meta("b c")).unwrap();
    d.register(lit("b", vec![lit("d", vec![done("bd")])]), meta("b d")).unwrap();
    let names: Vec<String> = d.command_meta().iter().map(|m| m.name.clone()).collect();
    assert_eq!(names, vec!["a".to_string(), "b c".to_string(), "b d".to_string()]);
}

#[test]
fn metadata_appended_before_merge_even_on_failure() {
    let mut d: CommandDispatcher<Word, Tag> = CommandDispatcher::new();
    d.register(lit("foo", vec![done("h1")]), meta("foo")).unwrap();
    assert!(d.register(lit("foo", vec![done("h2")]), meta("foo again")).is_err());
    assert_eq!(d.command_meta().len(), 2);
}

#[test]
fn chained_registration_with() {
    let d: CommandDispatcher<Word, Tag> = CommandDispatcher::new()
        .with(lit("ping", vec![done("pong")]), meta("ping"))
        .with(lit("echo", vec![done("echo")]), meta("echo"));
    let mut log: Vec<String> = vec![];
    assert!(d.dispatch(&mut log, "ping"));
    assert_eq!(log, vec!["pong:ping".to_string()]);
    assert_eq!(d.command_meta().len(), 2);
}

#[test]
fn end_to_end_teleport_example() {
    let player = Word { reject: Some("here".to_string()) };
    let destination = Word { reject: None };
    let mut d: CommandDispatcher<Word, Tag> = CommandDispatcher::new();
    d.register(
        lit("tp", vec![arg(player, vec![arg(destination, vec![done("tp2")])])]),
        meta("tp <player> <destination>"),
    ).unwrap();
    d.register(lit("tp", vec![lit("here", vec![done("here")])]), meta("tp here")).unwrap();

    let mut log: Vec<String> = vec![];
    assert!(d.dispatch(&mut log, "tp here"));
    assert_eq!(log, vec!["here:tp here".to_string()]);

    assert!(d.dispatch(&mut log, "tp Steve spawn"));
    assert_eq!(log.len(), 2);
    let raw = log[1].strip_prefix("tp2:").unwrap();
    let args: Vec<&str> = raw.split(' ').skip(1).collect();
    assert_eq!(args, vec!["Steve", "spawn"]);

    assert!(!d.dispatch(&mut log, "tp"));
    assert_eq!(log.len(), 2);
}

#[test]
fn dispatch_on_empty_and_unknown_input_fails() {
    let mut d: CommandDispatcher<Word, Tag> = CommandDispatcher::new();
    d.register(lit("foo", vec![done("h1")]), meta("foo")).unwrap();
    let mut log: Vec<String> = vec![];
    assert!(!d.dispatch(&mut log, ""));
    assert!(!d.dispatch(&mut log, "bar"));
    assert!(log.is_empty());
}

#[test]
fn parser_deduplication_uses_dynamic_equality() {
    let mut d: CommandDispatcher<Word, Tag> = CommandDispatcher::new();
    d.register(arg(any(), vec![lit("x", vec![done("x")])]), meta("<any> x")).unwrap();
    let n = d.node_count();
    d.register(arg(any(), vec![lit("y", vec![done("y")])]), meta("<any> y")).unwrap();
    // the equal checker is shared: only "y" and its leaf are new
    assert_eq!(d.node_count(), n + 2);
    let mut log: Vec<String> = vec![];
    assert!(d.dispatch(&mut log, "token y"));
    assert_eq!(log, vec!["y:token y".to_string()]);
}

/// A checker that consumes two whitespace-delimited tokens.
struct Pair;

impl CheckerEq for Pair {
    fn equals(&self, _other: &Self) -> bool {
        true
    }
}

impl ArgumentChecker<Vec<String>> for Pair {
    fn satisfies<'a>(&self, _ctx: &mut Vec<String>, input: &mut Input<'a>) -> bool {
        if input.head(32).is_empty() {
            return false;
        }
        !input.head(32).is_empty()
    }
}

#[test]
fn checker_may_consume_several_tokens() {
    let mut d: CommandDispatcher<Pair, Tag> = CommandDispatcher::new();
    let leaf = CommandNode {
        kind: CommandNodeKind::Literal(String::new()),
        handler: Some(Tag("pair")),
        next: vec![],
    };
    let t = CommandNode { kind: CommandNodeKind::Parser(Pair), handler: None, next: vec![leaf] };
    d.register(t, CommandMeta { name: "<a> <b>".to_string() }).unwrap();
    let mut log: Vec<String> = vec![];
    assert!(d.dispatch(&mut log, "a b"));
    assert_eq!(log, vec!["pair:a b".to_string()]);
    assert!(!d.dispatch(&mut log, "a"));
    assert!(!d.dispatch(&mut log, "a b c"));
    assert_eq!(log.len(), 1);
}
