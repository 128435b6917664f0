use pulp::lexer::instruction::{Instruction, State, Token};
use pulp::lexer::vm::{compile, execute, LexError};
use pulp::{Lexer, Regex, Statement};

fn reader(p: &str) -> Statement {
    Statement::Reader(Regex::new(p).unwrap())
}

fn save(name: &str, s: Statement) -> Statement {
    Statement::Save(name.to_string(), Box::new(s))
}

fn lex(root: Statement, input: &str) -> Vec<Token> {
    Lexer::new(root).unwrap().lex(input).unwrap()
}

fn span(t: &Token) -> (&str, &str, usize, usize) {
    (t.name.as_str(), t.text.as_str(), t.start, t.end)
}

fn check_laws(t: &Token, input: &str) {
    let chars: Vec<char> = input.chars().collect();
    assert!(t.start <= t.end && t.end <= chars.len());
    if t.children.is_empty() {
        let sub: String = chars[t.start..t.end].iter().collect();
        assert_eq!(t.text, sub);
    } else {
        assert_eq!(t.start, t.children.iter().map(|c| c.start).min().unwrap());
        assert_eq!(t.end, t.children.iter().map(|c| c.end).max().unwrap());
        let joined: String = t.children.iter().map(|c| c.text.as_str()).collect();
        assert_eq!(t.text, joined);
        for c in &t.children {
            check_laws(c, input);
        }
    }
}

#[test]
fn save_word() {
    let tokens = lex(save("id", reader(r"\w+")), "hello");
    assert_eq!(tokens.len(), 1);
    assert_eq!(span(&tokens[0]), ("id", "hello", 0, 5));
    assert_eq!(tokens[0].children.len(), 1);
    assert_eq!(span(&tokens[0].children[0]), ("", "hello", 0, 5));
}

#[test]
fn save_keyword() {
    let tokens = lex(save("kw", reader("lexer")), "lexer");
    assert_eq!(tokens.len(), 1);
    assert_eq!(span(&tokens[0]), ("kw", "lexer", 0, 5));
    assert_eq!(tokens[0].children.len(), 1);
    assert_eq!(span(&tokens[0].children[0]), ("", "lexer", 0, 5));
}

#[test]
fn two_saves_in_sequence() {
    let root = Statement::Concat(vec![save("a", reader("a+")), save("b", reader("b+"))]);
    let tokens = lex(root, "aaabb");
    assert_eq!(tokens.len(), 2);
    assert_eq!(span(&tokens[0]), ("a", "aaa", 0, 3));
    assert_eq!(span(&tokens[1]), ("b", "bb", 3, 5));
}

#[test]
fn nested_saves_become_children() {
    let root = save("outer", Statement::Concat(vec![save("x", reader("a")), save("y", reader("b"))]));
    let tokens = lex(root, "ab");
    assert_eq!(tokens.len(), 1);
    assert_eq!(span(&tokens[0]), ("outer", "ab", 0, 2));
    assert_eq!(tokens[0].children.len(), 2);
    assert_eq!(span(&tokens[0].children[0]), ("x", "a", 0, 1));
    assert_eq!(span(&tokens[0].children[1]), ("y", "b", 1, 2));
    check_laws(&tokens[0], "ab");
}

fn mention() -> Statement {
    Statement::Condition {
        cond: Box::new(reader("@")),
        inner: Box::new(Statement::Concat(vec![reader("@"), reader(r"\w+")])),
    }
}

#[test]
fn condition_runs_inner_when_it_holds() {
    assert!(lex(mention(), "@foo").is_empty());
    let tokens = lex(save("m", mention()), "@foo");
    assert_eq!(tokens.len(), 1);
    assert_eq!(span(&tokens[0]), ("m", "@foo", 0, 4));
    assert_eq!(tokens[0].children.len(), 2);
}

#[test]
fn condition_skips_inner_when_it_fails() {
    assert!(lex(mention(), "foo").is_empty());
    assert!(lex(save("m", mention()), "foo").is_empty());
}

#[test]
fn repeated_words_between_spaces() {
    let root = Statement::ZeroOrMore(Box::new(Statement::Alternation(
        Box::new(save("w", reader(r"\w+"))),
        Box::new(reader(r"\s+")),
    )));
    let tokens = lex(root, "a b c");
    assert_eq!(tokens.len(), 3);
    assert_eq!(span(&tokens[0]), ("w", "a", 0, 1));
    assert_eq!(span(&tokens[1]), ("w", "b", 2, 3));
    assert_eq!(span(&tokens[2]), ("w", "c", 4, 5));
    for t in &tokens {
        check_laws(t, "a b c");
    }
}

#[test]
fn token_spans_index_characters() {
    let root = Statement::Concat(vec![save("a", reader(r"\S+")), reader(r"\s+"), save("b", reader(r"\S+"))]);
    let input = "\u{e9}t\u{e9} caf\u{e9}";
    let tokens = lex(root, input);
    assert_eq!(tokens.len(), 2);
    assert_eq!(span(&tokens[0]), ("a", "\u{e9}t\u{e9}", 0, 3));
    assert_eq!(span(&tokens[1]), ("b", "caf\u{e9}", 4, 8));
    for t in &tokens {
        check_laws(t, input);
    }
}

#[test]
fn no_tokens_without_a_match() {
    assert!(lex(save("id", reader(r"\d+")), "abc").is_empty());
    assert!(lex(reader(r"\w+"), "abc").is_empty());
}

#[test]
fn optional_and_one_or_more_statements() {
    let root = Statement::Concat(vec![
        Statement::ZeroOrOne(Box::new(save("sign", reader("-")))),
        Statement::OneOrMore(Box::new(save("d", reader(r"\d")))),
    ]);
    let tokens = lex(root, "-12");
    let names: Vec<&str> = tokens.iter().map(|t| t.name.as_str()).collect();
    assert_eq!(names, vec!["sign", "d", "d"]);
    assert_eq!(span(&tokens[2]), ("d", "2", 2, 3));
}

#[test]
fn compile_lays_out_conditions_and_saves() {
    let mut program = Vec::new();
    compile(&save("n", mention()), &mut program);
    assert_eq!(program.len(), 11);
    assert_eq!(program[0], Instruction::StartCapture("n".to_string()));
    assert_eq!(program[1], Instruction::Push(4));
    assert!(matches!(program[2], Instruction::Match(_)));
    assert_eq!(program[3], Instruction::Pop);
    assert_eq!(program[4], Instruction::Carry);
    assert_eq!(program[5], Instruction::JumpF(8));
    assert_eq!(program[8], Instruction::UnFlag);
    assert_eq!(program[9], Instruction::EndCapture("n".to_string()));
    assert_eq!(program[10], Instruction::Save("n".to_string()));
    let mut program = Vec::new();
    compile(&Statement::ZeroOrOne(Box::new(reader("a"))), &mut program);
    assert_eq!(program[0], Instruction::Split(1, 2));
}

#[test]
fn structural_errors() {
    assert_eq!(execute(&[Instruction::Carry], "x", 100).unwrap_err(), LexError::MissingPop);
    let program = vec![Instruction::StartCapture("a".to_string()), Instruction::Save("a".to_string())];
    assert_eq!(execute(&program, "x", 100).unwrap_err(), LexError::InvalidState);
    assert_eq!(execute(&[Instruction::EndCapture("a".to_string())], "x", 100).unwrap_err(), LexError::UnbalancedCapture);
}

#[test]
fn step_limit_stops_endless_runs() {
    let lexer = Lexer::new(Statement::ZeroOrMore(Box::new(reader("a*")))).unwrap();
    assert_eq!(lexer.lex_with_limit("b", 1000).unwrap_err(), LexError::StepLimit);
    let lexer = Lexer::new(save("id", reader("a"))).unwrap();
    assert_eq!(lexer.lex_with_limit("a", 0).unwrap_err(), LexError::StepLimit);
    assert_eq!(lexer.lex_with_limit("a", 100).unwrap().len(), 1);
}

#[test]
fn into_token_of_frames() {
    let leaf = State::Text("ab".to_string(), 2, 4).into_token().unwrap();
    assert_eq!(span(&leaf), ("", "ab", 2, 4));
    assert!(State::StartCapture("x".to_string(), 0).into_token().is_none());
    assert!(State::List("x".to_string(), vec![]).into_token().is_none());
    let list = State::List(
        "p".to_string(),
        vec![
            State::Text("cd".to_string(), 4, 6),
            State::StartCapture("q".to_string(), 1),
            State::Text("ab".to_string(), 2, 4),
        ],
    );
    let t = list.into_token().unwrap();
    assert_eq!(span(&t), ("p", "cdab", 2, 6));
    assert_eq!(t.children.len(), 2);
}

fn thread(pc: usize, push: bool) -> pulp::lexer::vm::Thread {
    pulp::lexer::vm::Thread { pc, tc: 0, flag: false, push, depth: 0 }
}

#[test]
fn depth_is_back_to_zero_when_a_token_is_emitted() {
    let program = vec![
        Instruction::StartCapture("w".to_string()),
        Instruction::Match(Regex::new("ab").unwrap()),
        Instruction::EndCapture("w".to_string()),
        Instruction::Save("w".to_string()),
    ];
    let chars: Vec<char> = "abc".chars().collect();
    let mut vm = thread(0, false);
    let mut threads = Vec::new();
    let mut states = Vec::new();
    let mut tokens = Vec::new();
    let mut popped = None;
    let mut depths = Vec::new();
    while vm.pc < program.len() {
        let go = pulp::lexer::vm::step(&program, "abc", &chars, &mut vm, &mut threads, &mut states, &mut tokens, &mut popped);
        assert_eq!(go, Ok(true));
        depths.push(vm.depth);
    }
    assert_eq!(depths, vec![1, 1, 0, 0]);
    assert_eq!(tokens.len(), 1);
    assert_eq!(span(&tokens[0]), ("w", "ab", 0, 2));
    assert!(states.is_empty());
}

#[test]
fn speculative_match_leaves_no_text_frame() {
    let program = vec![Instruction::Match(Regex::new("a").unwrap())];
    let chars: Vec<char> = "ab".chars().collect();
    let mut threads = Vec::new();
    let mut states = Vec::new();
    let mut tokens = Vec::new();
    let mut popped = None;
    let mut vm = thread(0, true);
    pulp::lexer::vm::step(&program, "ab", &chars, &mut vm, &mut threads, &mut states, &mut tokens, &mut popped).unwrap();
    assert!(states.is_empty());
    assert_eq!((vm.pc, vm.tc), (1, 1));
    let mut vm = thread(0, false);
    pulp::lexer::vm::step(&program, "ab", &chars, &mut vm, &mut threads, &mut states, &mut tokens, &mut popped).unwrap();
    assert_eq!(states, vec![State::Text("a".to_string(), 0, 1)]);
    let mut vm = thread(0, true);
    let chars_b: Vec<char> = "b".chars().collect();
    pulp::lexer::vm::step(&program, "b", &chars_b, &mut vm, &mut threads, &mut states, &mut tokens, &mut popped).unwrap();
    assert!(vm.flag);
    assert_eq!(vm.pc, 1);
}

#[test]
fn push_spawns_speculation_first() {
    let program = vec![Instruction::Push(5)];
    let chars: Vec<char> = "x".chars().collect();
    let mut threads = Vec::new();
    let mut states = Vec::new();
    let mut tokens = Vec::new();
    let mut popped = None;
    let mut vm = thread(0, false);
    let go = pulp::lexer::vm::step(&program, "x", &chars, &mut vm, &mut threads, &mut states, &mut tokens, &mut popped);
    assert_eq!(go, Ok(false));
    assert_eq!(threads, vec![thread(5, false), thread(1, true)]);
}
