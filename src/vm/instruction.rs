//! Building blocks of a component-based lexer description and its micro
//! instructions.
use vstd::prelude::*;
use crate::regex::Regex;

verus! {

/// A component of a lexer description.
#[derive(Debug, PartialEq)]
pub enum Component {
    Reader(Regex),
    Wrapper(Vec<Box<Component>>),
    WrapperSerial(Vec<Box<Component>>),
    IFWrapper(Box<Component>, Vec<Box<Component>>),
    Group(Vec<Box<Component>>),
    GroupSerial(Vec<Box<Component>>),
}

/// A micro instruction.
#[derive(Debug, PartialEq, Clone)]
pub enum MicroInstruction {
    FLAG,
    UNFLAG,
    MATCH(Regex),
    JMP(usize),
    JMPF(usize),
    SPLIT(usize, usize),
}

} // verus!
