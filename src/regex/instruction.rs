//! The regular-expression syntax tree and the matcher's instruction set.
use vstd::prelude::*;

verus! {

/// One instruction of a compiled regular expression.
#[derive(Debug, PartialEq, Clone)]
pub enum Instruction {
    Char(char),
    Text(Vec<char>),
    Match,
    Jmp(usize),
    Split(usize, usize),
    Any,
    AnyWhitespace,
    AnyNonWhitespace,
    AnyDigit,
    AnyNonDigit,
    AnyWord,
    AnyNonWord,
}

/// A regular expression as a tree of atoms and combinators.
#[derive(Debug, PartialEq)]
pub enum Expr {
    Char(char),
    Text(String),
    Concat(Box<Expr>, Box<Expr>),
    Alternate(Box<Expr>, Box<Expr>),
    ZeroOrMore(Box<Expr>),
    OneOrMore(Box<Expr>),
    ZeroOrOne(Box<Expr>),
    Any,
    AnyWhitespace,
    AnyNonWhitespace,
    AnyDigit,
    AnyNonDigit,
    AnyWord,
    AnyNonWord,
}

/// The mathematical value of an expression: the same tree, with text held
/// as a sequence of characters.
pub enum Pattern {
    Char(char),
    Text(Seq<char>),
    Concat(Box<Pattern>, Box<Pattern>),
    Alternate(Box<Pattern>, Box<Pattern>),
    ZeroOrMore(Box<Pattern>),
    OneOrMore(Box<Pattern>),
    ZeroOrOne(Box<Pattern>),
    Any,
    AnyWhitespace,
    AnyNonWhitespace,
    AnyDigit,
    AnyNonDigit,
    AnyWord,
    AnyNonWord,
}

/// The pattern that an expression denotes.
pub open spec fn pattern_of(e: Expr) -> Pattern
    decreases e,
{
    match e {
        Expr::Char(c) => Pattern::Char(c),
        Expr::Text(s) => Pattern::Text(s@),
        Expr::Concat(l, r) => Pattern::Concat(Box::new(pattern_of(*l)), Box::new(pattern_of(*r))),
        Expr::Alternate(l, r) => Pattern::Alternate(Box::new(pattern_of(*l)), Box::new(pattern_of(*r))),
        Expr::ZeroOrMore(x) => Pattern::ZeroOrMore(Box::new(pattern_of(*x))),
        Expr::OneOrMore(x) => Pattern::OneOrMore(Box::new(pattern_of(*x))),
        Expr::ZeroOrOne(x) => Pattern::ZeroOrOne(Box::new(pattern_of(*x))),
        Expr::Any => Pattern::Any,
        Expr::AnyWhitespace => Pattern::AnyWhitespace,
        Expr::AnyNonWhitespace => Pattern::AnyNonWhitespace,
        Expr::AnyDigit => Pattern::AnyDigit,
        Expr::AnyNonDigit => Pattern::AnyNonDigit,
        Expr::AnyWord => Pattern::AnyWord,
        Expr::AnyNonWord => Pattern::AnyNonWord,
    }
}

impl View for Expr {
    type V = Pattern;

    open spec fn view(&self) -> Pattern {
        pattern_of(*self)
    }
}

/// Number of instructions that `e` compiles to.
pub open spec fn size(e: Pattern) -> nat
    decreases e,
{
    match e {
        Pattern::Concat(l, r) => size(*l) + size(*r),
        Pattern::Alternate(l, r) => size(*l) + size(*r) + 2,
        Pattern::ZeroOrMore(x) => size(*x) + 2,
        Pattern::OneOrMore(x) => size(*x) + 1,
        Pattern::ZeroOrOne(x) => size(*x) + 1,
        _ => 1,
    }
}

/// `p` is the code of `e` when placed at index `base` of a program:
/// Thompson's construction, with jump targets given as absolute indices.
pub open spec fn emitted(e: Pattern, p: Seq<Instruction>, base: int) -> bool
    decreases e,
{
    &&& p.len() == size(e)
    &&& match e {
        Pattern::Char(c) => p[0] == Instruction::Char(c),
        Pattern::Text(s) => p[0] is Text && p[0]->Text_0@ == s,
        Pattern::Concat(l, r) => {
            &&& emitted(*l, p.subrange(0, size(*l) as int), base)
            &&& emitted(*r, p.subrange(size(*l) as int, p.len() as int), base + size(*l))
        },
        Pattern::Alternate(l, r) => {
            let j = 1 + size(*l) as int;
            &&& p[0] == Instruction::Split((base + 1) as usize, (base + j + 1) as usize)
            &&& emitted(*l, p.subrange(1, j), base + 1)
            &&& p[j] == Instruction::Jmp((base + p.len()) as usize)
            &&& emitted(*r, p.subrange(j + 1, p.len() as int), base + j + 1)
        },
        Pattern::ZeroOrMore(x) => {
            let j = 1 + size(*x) as int;
            &&& p[0] == Instruction::Split((base + 1) as usize, (base + p.len()) as usize)
            &&& emitted(*x, p.subrange(1, j), base + 1)
            &&& p[j] == Instruction::Jmp(base as usize)
        },
        Pattern::OneOrMore(x) => {
            let j = size(*x) as int;
            &&& emitted(*x, p.subrange(0, j), base)
            &&& p[j] == Instruction::Split(base as usize, (base + p.len()) as usize)
        },
        Pattern::ZeroOrOne(x) => {
            &&& p[0] == Instruction::Split((base + 1) as usize, (base + p.len()) as usize)
            &&& emitted(*x, p.subrange(1, p.len() as int), base + 1)
        },
        Pattern::Any => p[0] == Instruction::Any,
        Pattern::AnyWhitespace => p[0] == Instruction::AnyWhitespace,
        Pattern::AnyNonWhitespace => p[0] == Instruction::AnyNonWhitespace,
        Pattern::AnyDigit => p[0] == Instruction::AnyDigit,
        Pattern::AnyNonDigit => p[0] == Instruction::AnyNonDigit,
        Pattern::AnyWord => p[0] == Instruction::AnyWord,
        Pattern::AnyNonWord => p[0] == Instruction::AnyNonWord,
    }
}

} // verus!
