use wvi::file_buffer::FileBuffer;
use wvi::input::{Command, InputParser, ParseState, Parser, ParserTree};

const SPACE: u32 = 57;
const F: u32 = 15;
const W: u32 = 32;
const S: u32 = 28;
const H: u32 = 17;

#[derive(Debug, Clone, PartialEq)]
struct Line(&'static str);

impl Command<u32> for Line {
    fn call(&self, mode: &mut u32, buf: &mut FileBuffer) -> Result<(), std::io::Error> {
        *mode += 1;
        buf.append(self.0.chars().collect());
        Ok(())
    }
}

struct Fail;

impl Command<u32> for Fail {
    fn call(&self, _mode: &mut u32, _buf: &mut FileBuffer) -> Result<(), std::io::Error> {
        Err(std::io::Error::new(std::io::ErrorKind::Other, "command failed"))
    }
}

enum Cmd {
    Good(Line),
    Bad(Fail),
}

impl Command<u32> for Cmd {
    fn call(&self, mode: &mut u32, buf: &mut FileBuffer) -> Result<(), std::io::Error> {
        match self {
            Cmd::Good(l) => l.call(mode, buf),
            Cmd::Bad(f) => f.call(mode, buf),
        }
    }
}

fn bound(t: &ParserTree<Line>, keys: &[u32]) -> Option<Vec<Line>> {
    match t.get_commands_at(keys) {
        ParseState::Success(cmds) => Some(cmds.iter().cloned().collect()),
        _ => None,
    }
}

fn state_name<S, F>(s: &ParseState<S, F>) -> &'static str {
    match s {
        ParseState::Failed(_) => "failed",
        ParseState::Unfinished => "unfinished",
        ParseState::Success(_) => "success",
    }
}

fn text(buf: &FileBuffer) -> String {
    buf.write_file().unwrap()
}

#[test]
fn parser_new_refuses_empty_keys() {
    assert!(Parser::new(vec![], Line("x")).is_none());
    assert!(Parser::new(vec![SPACE], Line("x")).is_some());
}

#[test]
fn new_tree_is_empty() {
    let t: ParserTree<Line> = ParserTree::new();
    assert!(t.is_empty());
    assert!(!t.is_finished());
    assert_eq!(state_name(&t.get_commands_at(&[])), "failed");
    assert_eq!(state_name(&t.get_commands_at(&[SPACE])), "failed");
}

#[test]
fn lookup_after_add_finds_command() {
    let mut t = ParserTree::new();
    t.add(Parser::new(vec![SPACE, F, W], Line("write")).unwrap());
    assert_eq!(bound(&t, &[SPACE, F, W]), Some(vec![Line("write")]));
    assert!(!t.is_empty());
}

#[test]
fn proper_prefix_is_unfinished() {
    let mut t = ParserTree::new();
    t.add(Parser::new(vec![SPACE, F, W], Line("write")).unwrap());
    assert_eq!(state_name(&t.get_commands_at(&[])), "unfinished");
    assert_eq!(state_name(&t.get_commands_at(&[SPACE])), "unfinished");
    assert_eq!(state_name(&t.get_commands_at(&[SPACE, F])), "unfinished");
    assert_eq!(state_name(&t.get_commands_at(&[SPACE, S])), "failed");
    assert_eq!(state_name(&t.get_commands_at(&[SPACE, F, W, W])), "failed");
}

#[test]
fn add_keeps_other_lookups() {
    let mut t = ParserTree::new();
    t.add(Parser::new(vec![SPACE, S, F], Line("search")).unwrap());
    t.add(Parser::new(vec![SPACE, H, F], Line("switch")).unwrap());
    assert_eq!(bound(&t, &[SPACE, S, F]), Some(vec![Line("search")]));
    assert_eq!(bound(&t, &[SPACE, H, F]), Some(vec![Line("switch")]));
}

#[test]
fn bindings_come_out_first_in_first_out() {
    let mut t = ParserTree::new();
    t.add(Parser::new(vec![SPACE, F], Line("first")).unwrap());
    t.add(Parser::new(vec![SPACE, F], Line("second")).unwrap());
    assert_eq!(bound(&t, &[SPACE, F]), Some(vec![Line("first"), Line("second")]));
    t.remove(&vec![SPACE, F]);
    assert_eq!(bound(&t, &[SPACE, F]), Some(vec![Line("second")]));
}

#[test]
fn remove_undoes_fresh_add() {
    let mut t = ParserTree::new();
    t.add(Parser::new(vec![SPACE, F, W], Line("write")).unwrap());
    assert_eq!(state_name(&t.get_commands_at(&[H, F])), "failed");
    t.add(Parser::new(vec![H, F], Line("h")).unwrap());
    t.remove(&vec![H, F]);
    assert_eq!(state_name(&t.get_commands_at(&[H, F])), "failed");
}

#[test]
fn remove_of_missing_or_empty_keys_changes_nothing() {
    let mut t = ParserTree::new();
    t.add(Parser::new(vec![SPACE, F, W], Line("write")).unwrap());
    t.remove(&vec![]);
    t.remove(&vec![S]);
    t.remove(&vec![SPACE, F]);
    t.remove(&vec![SPACE, F, W, W]);
    assert_eq!(bound(&t, &[SPACE, F, W]), Some(vec![Line("write")]));
    assert_eq!(state_name(&t.get_commands_at(&[SPACE, F])), "unfinished");
}

#[test]
fn override_removal_leaves_longer_binding() {
    let mut t = ParserTree::new();
    t.add_all(vec![
        Parser::new(vec![SPACE, F, W], Line("write")).unwrap(),
        Parser::new(vec![SPACE, S, F], Line("search")).unwrap(),
        Parser::new(vec![SPACE, F], Line("override")).unwrap(),
        Parser::new(vec![SPACE, H, F], Line("switch")).unwrap(),
    ]);
    assert_eq!(bound(&t, &[SPACE, F]), Some(vec![Line("override")]));
    t.remove(&vec![SPACE, F]);
    assert_eq!(state_name(&t.get_commands_at(&[SPACE, F])), "unfinished");
    assert_eq!(bound(&t, &[SPACE, F, W]), Some(vec![Line("write")]));
}

#[test]
fn add_command_binds_at_root() {
    let mut t = ParserTree::new();
    t.add_command(Line("root"));
    assert!(t.is_finished());
    assert_eq!(bound(&t, &[]), Some(vec![Line("root")]));
}

#[test]
fn input_parser_runs_bound_commands_and_resets() {
    let mut p = InputParser::new(vec![
        Parser::new(vec![SPACE, S], Line("search")).unwrap(),
        Parser::new(vec![SPACE, S], Line("again")).unwrap(),
    ]);
    let mut mode = 0u32;
    let mut buf = FileBuffer::from_bytes(b"");
    p.accept(SPACE);
    assert_eq!(state_name(&p.lookup(&mut mode, &mut buf).unwrap()), "unfinished");
    p.accept(S);
    assert_eq!(state_name(&p.lookup(&mut mode, &mut buf).unwrap()), "success");
    assert_eq!(mode, 2);
    assert_eq!(text(&buf), "search\nagain\n");
    assert_eq!(p.reset(), Vec::<u32>::new());
}

#[test]
fn input_parser_hands_back_failed_keys() {
    let mut p = InputParser::new(vec![Parser::new(vec![SPACE, S], Line("search")).unwrap()]);
    let mut mode = 0u32;
    let mut buf = FileBuffer::from_bytes(b"");
    p.accept_all(vec![SPACE, W]);
    match p.lookup(&mut mode, &mut buf).unwrap() {
        ParseState::Failed(keys) => assert_eq!(keys, vec![SPACE, W]),
        _ => panic!("expected a failed lookup"),
    }
    assert_eq!(p.reset(), Vec::<u32>::new());
    assert_eq!(mode, 0);
}

#[test]
fn input_parser_keeps_keys_when_command_fails() {
    let mut p = InputParser::new(vec![
        Parser::new(vec![F], Cmd::Good(Line("one"))).unwrap(),
        Parser::new(vec![F], Cmd::Bad(Fail)).unwrap(),
        Parser::new(vec![F], Cmd::Good(Line("never"))).unwrap(),
    ]);
    let mut mode = 0u32;
    let mut buf = FileBuffer::from_bytes(b"");
    p.accept(F);
    assert!(p.lookup(&mut mode, &mut buf).is_err());
    assert_eq!(text(&buf), "one\n");
    assert_eq!(p.reset(), vec![F]);
}

#[test]
fn input_parser_lookup_with_explicit_keys() {
    let mut p = InputParser::new(vec![]);
    p.add_all(vec![Parser::new(vec![H], Line("h")).unwrap()]);
    let mut mode = 0u32;
    let mut buf = FileBuffer::from_bytes(b"");
    p.accept(W);
    let r = p.lookup_with(&mut mode, &mut buf, &[H]).unwrap();
    assert_eq!(state_name(&r), "success");
    assert_eq!(p.reset(), Vec::<u32>::new());
    p.remove(&vec![H]);
    assert_eq!(state_name(&p.lookup_with(&mut mode, &mut buf, &[H]).unwrap()), "failed");
}

fn printed(t: &ParserTree<Line>, depth: usize) -> Vec<String> {
    t.print_children(depth)
        .iter()
        .map(|l| match l.key {
            None => format!(": {}", l.commands),
            Some(k) => format!("{}{}: {}", "  ".repeat(l.depth), k, l.commands),
        })
        .collect()
}

#[test]
fn print_children_lists_nodes_depth_first() {
    let mut t = ParserTree::new();
    t.add(Parser::new(vec![SPACE, F, W], Line("write")).unwrap());
    t.add(Parser::new(vec![SPACE, F], Line("override")).unwrap());
    assert_eq!(printed(&t, 0), vec![": 0", "57: 0", "  15: 1", "    32: 1"]);
    assert_eq!(printed(&t, 2)[1], "    57: 0");
}

#[test]
fn print_children_keeps_subtrees_together() {
    let mut t = ParserTree::new();
    t.add(Parser::new(vec![S, F], Line("a")).unwrap());
    t.add(Parser::new(vec![H, F], Line("b")).unwrap());
    t.add(Parser::new(vec![S, W], Line("c")).unwrap());
    let lines = printed(&t, 0);
    assert_eq!(lines.len(), 6);
    assert_eq!(lines[0], ": 0");
    let s_at = lines.iter().position(|l| l == "28: 0").unwrap();
    let h_at = lines.iter().position(|l| l == "17: 0").unwrap();
    let mut s_block: Vec<String> = lines[s_at + 1..s_at + 3].to_vec();
    s_block.sort();
    assert_eq!(s_block, vec!["  15: 1", "  32: 1"]);
    assert_eq!(lines[h_at + 1], "  15: 1");
}

#[test]
fn print_children_of_empty_tree() {
    let t: ParserTree<Line> = ParserTree::new();
    assert_eq!(printed(&t, 3), vec![": 0"]);
}

#[test]
fn lookup_leaves_mode_and_buffer_until_bound() {
    let mut p = InputParser::new(vec![Parser::new(vec![S, W], Line("sw")).unwrap()]);
    let mut mode = 5u32;
    let mut buf = FileBuffer::from_bytes(b"keep");
    p.accept(S);
    assert_eq!(state_name(&p.lookup(&mut mode, &mut buf).unwrap()), "unfinished");
    assert_eq!((mode, text(&buf)), (5, String::from("keep\n")));
    assert_eq!(p.pending_keys(), &vec![S]);
    p.accept(W);
    assert_eq!(state_name(&p.lookup(&mut mode, &mut buf).unwrap()), "success");
    assert_eq!((mode, text(&buf)), (6, String::from("keep\nsw\n")));
    p.accept(S);
    p.accept(H);
    match p.lookup(&mut mode, &mut buf).unwrap() {
        ParseState::Failed(keys) => assert_eq!(keys, vec![S, H]),
        _ => panic!("expected a failed lookup"),
    }
    assert_eq!((mode, text(&buf)), (6, String::from("keep\nsw\n")));
}

#[test]
fn failing_command_gives_its_error() {
    let mut p = InputParser::new(vec![Parser::new(vec![F], Cmd::Bad(Fail)).unwrap()]);
    let mut mode = 0u32;
    let mut buf = FileBuffer::from_bytes(b"");
    p.accept(F);
    let err = p.lookup(&mut mode, &mut buf).err().unwrap();
    assert_eq!(err.to_string(), "command failed");
}
