use pulp::regex::instruction::{Expr, Instruction};
use pulp::regex::parser::parse;
use pulp::regex::vm::{compile, execute};
use pulp::Regex;

fn re(p: &str) -> Regex {
    Regex::new(p).unwrap()
}

#[test]
fn greedy_star_takes_longest_run() {
    assert_eq!(re("a*").matches("aaab"), Some("aaa".to_string()));
}

#[test]
fn first_alternative_wins() {
    assert_eq!(re("a|ab").matches("ab"), Some("a".to_string()));
}

#[test]
fn match_is_a_prefix() {
    let r = re("(a|b)*c");
    for s in ["abac", "abacxyz", "c", "", "xyz", "ababab"] {
        match r.matches(s) {
            Some(m) => assert!(s.starts_with(m.as_str())),
            None => {}
        }
    }
    assert_eq!(r.matches("abacxyz"), Some("abac".to_string()));
    assert_eq!(r.matches("abab"), None);
}

#[test]
fn matching_the_match_again_gives_it_back() {
    let cases = [("a*(bc)*", "aaabcbcx"), ("a|ab", "ab"), ("(a|b)+c?", "abbacd"), (r"\d+\.\d*", "12.5x")];
    for (p, s) in cases {
        let r = re(p);
        let m = r.matches(s).unwrap();
        assert_eq!(r.matches(m.as_str()), Some(m.clone()));
    }
}

#[test]
fn no_match_on_empty_input_when_characters_are_needed() {
    assert_eq!(re("a").matches(""), None);
    assert_eq!(re("a+").matches(""), None);
    assert_eq!(re(".").matches(""), None);
}

#[test]
fn empty_match_for_always_matching_patterns() {
    assert_eq!(re("a*").matches("bbb"), Some(String::new()));
    assert_eq!(re("a?").matches(""), Some(String::new()));
    assert_eq!(re("").matches("xyz"), Some(String::new()));
}

#[test]
fn optional_prefers_the_element() {
    assert_eq!(re("ab?").matches("abc"), Some("ab".to_string()));
    assert_eq!(re("ab?c").matches("ac"), Some("ac".to_string()));
}

#[test]
fn one_or_more_needs_one() {
    assert_eq!(re("a+b").matches("b"), None);
    assert_eq!(re("a+b").matches("aab"), Some("aab".to_string()));
}

#[test]
fn text_of_several_characters() {
    assert_eq!(re("lexer").matches("lexers"), Some("lexer".to_string()));
    assert_eq!(re("lexer").matches("lexe"), None);
}

#[test]
fn character_classes() {
    assert_eq!(re(r"\s+").matches(" \t\n\u{3000}x"), Some(" \t\n\u{3000}".to_string()));
    assert_eq!(re(r"\S+").matches("ab c"), Some("ab".to_string()));
    assert_eq!(re(r"\d+").matches("12\u{663}x"), Some("12\u{663}".to_string()));
    assert_eq!(re(r"\D+").matches("ab1"), Some("ab".to_string()));
    assert_eq!(re(r"\w+").matches("h\u{e9}llo world"), Some("h\u{e9}llo".to_string()));
    assert_eq!(re(r"\W+").matches("  x"), Some("  ".to_string()));
    assert_eq!(re(r"\w").matches("1"), None);
}

#[test]
fn characters_count_not_bytes() {
    assert_eq!(re("\u{e9}.").matches("\u{e9}\u{263a}z"), Some("\u{e9}\u{263a}".to_string()));
    assert_eq!(re(".*").matches("\u{263a}\u{263a}"), Some("\u{263a}\u{263a}".to_string()));
}

#[test]
fn loops_without_progress_terminate() {
    assert_eq!(re("(a*)*").matches("b"), Some(String::new()));
    assert_eq!(re("(a*)*b").matches("aab"), Some("aab".to_string()));
    assert_eq!(re("(a?)+c").matches("aad"), None);
}

#[test]
fn escapes_match_literally() {
    assert_eq!(re(r"\(\)\*\|\\").matches(r"()*|\x"), Some(r"()*|\".to_string()));
    assert_eq!(re(r"a\nb").matches("a\nb"), Some("a\nb".to_string()));
}

#[test]
fn parse_errors_are_reported() {
    assert_eq!(Regex::new("(a|b").unwrap_err(), "Expected closing parenthesis");
    assert_eq!(Regex::new("ab\\").unwrap_err(), "Unexpected end of input after escape character");
    assert_eq!(Regex::new(r"\q").unwrap_err(), "Invalid escape sequence: \\q");
}

#[test]
fn single_and_non_ascii_literals() {
    assert_eq!(parse("\u{e9}").unwrap(), Expr::Char('\u{e9}'));
    assert_eq!(parse("\u{e9}\u{e8}").unwrap(), Expr::Text("\u{e9}\u{e8}".to_string()));
    assert_eq!(parse("").unwrap(), Expr::Text(String::new()));
    assert_eq!(parse("a)b").unwrap(), Expr::Char('a'));
}

#[test]
fn compile_lays_out_thompson_code() {
    let mut program = Vec::new();
    compile(&parse("a|b").unwrap(), &mut program);
    assert_eq!(program, vec![Instruction::Split(1, 3), Instruction::Char('a'), Instruction::Jmp(4), Instruction::Char('b')]);
    let mut program = Vec::new();
    compile(&parse("a*").unwrap(), &mut program);
    assert_eq!(program, vec![Instruction::Split(1, 3), Instruction::Char('a'), Instruction::Jmp(0)]);
    let mut program = Vec::new();
    compile(&parse("a+").unwrap(), &mut program);
    assert_eq!(program, vec![Instruction::Char('a'), Instruction::Split(0, 2)]);
    let mut program = Vec::new();
    compile(&parse("a?").unwrap(), &mut program);
    assert_eq!(program, vec![Instruction::Split(1, 2), Instruction::Char('a')]);
    let mut program = vec![Instruction::Any];
    compile(&parse("ab").unwrap(), &mut program);
    assert_eq!(program, vec![Instruction::Any, Instruction::Text(vec!['a', 'b'])]);
}

#[test]
fn execute_runs_a_program() {
    let program = vec![Instruction::AnyDigit, Instruction::Split(0, 2), Instruction::Match];
    assert_eq!(execute(&program, "123a"), Some("123".to_string()));
    assert_eq!(execute(&program, "a"), None);
    assert_eq!(execute(&[Instruction::Jmp(0)], "a"), None);
}
