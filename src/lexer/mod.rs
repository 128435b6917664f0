//! The lexer: statements compiled to a second bytecode whose matches call the
//! regular-expression engine and whose captures build token trees.
pub mod instruction;
pub mod vm;

use vstd::prelude::*;
use instruction::{Instruction, Statement, Token};
use vm::{LexError, stmt_size, emitted_stmt, tokens_wf, ends_with, initial, outcome_of};

verus! {

/// The number of steps a run may take unless the caller chooses another.
pub const STEP_LIMIT: usize = 1000000;

/// A compiled lexer.
#[derive(Debug, PartialEq, Clone)]
pub struct Lexer {
    program: Vec<Instruction>,
}

impl Lexer {
    /// The instructions of the compiled lexer.
    pub closed spec fn code(&self) -> Seq<Instruction> {
        self.program@
    }

    /// Compiles the statement tree `component`.
    pub fn new(component: Statement) -> (r: Result<Lexer, String>)
        ensures
            r is Ok,
            r->Ok_0.code().len() == stmt_size(component),
            emitted_stmt(component, r->Ok_0.code(), 0),
    {
        let mut program: Vec<Instruction> = Vec::new();
        vm::compile(&component, &mut program);
        assert(program@.subrange(0, program.len() as int) =~= program@);
        Ok(Lexer { program })
    }

    /// Lexes `input` within the default step limit.
    pub fn lex(&self, input: &str) -> (r: Result<Vec<Token>, LexError>)
        ensures
            ends_with(self.code(), input@, initial(), false, STEP_LIMIT as nat, outcome_of(r)),
            r is Ok ==> tokens_wf(r->Ok_0@, input@),
    {
        vm::execute(self.program.as_slice(), input, STEP_LIMIT)
    }

    /// Lexes `input` in at most `limit` steps.
    pub fn lex_with_limit(&self, input: &str, limit: usize) -> (r: Result<Vec<Token>, LexError>)
        ensures
            ends_with(self.code(), input@, initial(), false, limit as nat, outcome_of(r)),
            r is Ok ==> tokens_wf(r->Ok_0@, input@),
    {
        vm::execute(self.program.as_slice(), input, limit)
    }
}

} // verus!
