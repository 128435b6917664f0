//! Regular expressions: syntax tree, parser, compiler and matcher.
pub mod instruction;
pub mod parser;
pub mod vm;

use vstd::prelude::*;
use instruction::{Instruction, Pattern, size, emitted};
use parser::{parse_spec, error_text};
use vm::{accepts_at, accepts, first_match};

verus! {

/// `code` is the program of the pattern `p`: its Thompson code followed by a
/// final `Match`.
pub open spec fn program_of(p: Pattern, code: Seq<Instruction>) -> bool {
    &&& code.len() == size(p) + 1
    &&& emitted(p, code.drop_last(), 0)
    &&& code.last() == Instruction::Match
}

/// Two instructions that do the same: equal, or texts of the same characters.
pub open spec fn same_instruction(a: Instruction, b: Instruction) -> bool {
    match (a, b) {
        (Instruction::Text(x), Instruction::Text(y)) => x@ == y@,
        _ => a == b,
    }
}

/// Two programs that do the same, instruction by instruction.
pub open spec fn same_code(a: Seq<Instruction>, b: Seq<Instruction>) -> bool {
    a.len() == b.len() && forall|i: int| 0 <= i < a.len() ==> same_instruction(#[trigger] a[i], b[i])
}

/// A compiled regular expression.
#[derive(Debug, PartialEq, Clone)]
pub struct Regex {
    program: Vec<Instruction>,
}

/// A copy of an instruction.
fn copy_instruction(i: &Instruction) -> (r: Instruction)
    ensures
        same_instruction(r, *i),
{
    match i {
        Instruction::Char(c) => Instruction::Char(*c),
        Instruction::Text(t) => {
            let mut v: Vec<char> = Vec::new();
            let mut k: usize = 0;
            while k < t.len()
                invariant
                    k <= t.len(),
                    v@ == t@.subrange(0, k as int),
                decreases t.len() - k,
            {
                v.push(t[k]);
                k += 1;
            }
            assert(v@ =~= t@);
            Instruction::Text(v)
        },
        Instruction::Match => Instruction::Match,
        Instruction::Jmp(a) => Instruction::Jmp(*a),
        Instruction::Split(a, b) => Instruction::Split(*a, *b),
        Instruction::Any => Instruction::Any,
        Instruction::AnyWhitespace => Instruction::AnyWhitespace,
        Instruction::AnyNonWhitespace => Instruction::AnyNonWhitespace,
        Instruction::AnyDigit => Instruction::AnyDigit,
        Instruction::AnyNonDigit => Instruction::AnyNonDigit,
        Instruction::AnyWord => Instruction::AnyWord,
        Instruction::AnyNonWord => Instruction::AnyNonWord,
    }
}

impl Regex {
    /// The instructions of the compiled expression.
    pub closed spec fn code(&self) -> Seq<Instruction> {
        self.program@
    }

    /// Parses and compiles `regex`.
    pub fn new(regex: &str) -> (r: Result<Regex, String>)
        ensures
            match parse_spec(regex@) {
                Ok(p) => r is Ok && program_of(p, r->Ok_0.code()),
                Err(k) => r is Err && r->Err_0@ == error_text(k),
            },
    {
        let expr = parser::parse(regex)?;
        let mut program: Vec<Instruction> = Vec::new();
        vm::compile(&expr, &mut program);
        let ghost body = program@;
        program.push(Instruction::Match);
        assert(program@.drop_last() =~= body);
        assert(body.subrange(0, body.len() as int) =~= body);
        Ok(Regex { program })
    }

    /// The longest prefix of `input` that the first successful run matches
    /// (alternatives tried in order, quantifiers greedy), or `None` when no
    /// run of the program reaches `Match`.
    pub fn matches(&self, input: &str) -> (r: Option<String>)
        ensures
            match r {
                Some(m) => m@.len() <= input@.len() && m@ == input@.subrange(0, m@.len() as int)
                    && accepts_at(self.code(), input@, 0, m@.len() as int)
                    && first_match(self.code(), input@, 0) == Some(m@.len() as int),
                None => !accepts(self.code(), input@, 0) && first_match(self.code(), input@, 0) is None,
            },
    {
        vm::execute(self.program.as_slice(), input)
    }

    /// Runs the expression on `chars` from index `start`; the index where the
    /// match ends.
    pub fn match_at(&self, chars: &Vec<char>, start: usize) -> (r: Option<usize>)
        requires
            start <= chars.len(),
        ensures
            match r {
                Some(k) => start <= k <= chars.len() && accepts_at(self.code(), chars@, start as int, k as int)
                    && first_match(self.code(), chars@, start as int) == Some(k as int),
                None => !accepts(self.code(), chars@, start as int) && first_match(self.code(), chars@, start as int) is None,
            },
    {
        vm::run(self.program.as_slice(), chars, start)
    }

    /// A copy of this expression.
    pub fn duplicate(&self) -> (r: Regex)
        ensures
            same_code(r.code(), self.code()),
    {
        let mut program: Vec<Instruction> = Vec::new();
        let mut k: usize = 0;
        while k < self.program.len()
            invariant
                k <= self.program.len(),
                program.len() == k,
                forall|j: int| 0 <= j < k ==> same_instruction(#[trigger] program@[j], self.program@[j]),
            decreases self.program.len() - k,
        {
            program.push(copy_instruction(&self.program[k]));
            k += 1;
        }
        Regex { program }
    }
}

} // verus!
