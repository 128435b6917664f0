//! Compiler from statements to lexer instructions, and the lexer machine.
use vstd::prelude::*;
use super::instruction::{Instruction, State, Statement, Token, token_wf, state_wf, has_text};
use crate::regex::same_code;
use crate::regex::vm::{first_match, lemma_prefix_agrees};
use crate::chars::{chars_of, substring};

verus! {

/// Number of instructions that `st` compiles to.
pub open spec fn stmt_size(st: Statement) -> nat
    decreases st,
{
    match st {
        Statement::Reader(_) => 1,
        Statement::Concat(v) => list_size(v@),
        Statement::Alternation(l, r) => stmt_size(*l) + stmt_size(*r) + 2,
        Statement::ZeroOrOne(x) => stmt_size(*x) + 1,
        Statement::ZeroOrMore(x) => stmt_size(*x) + 2,
        Statement::OneOrMore(x) => stmt_size(*x) + 1,
        Statement::Condition { cond, inner } => stmt_size(*cond) + stmt_size(*inner) + 5,
        Statement::Save(_, x) => stmt_size(*x) + 3,
    }
}

/// Number of instructions that a list of statements compiles to.
pub open spec fn list_size(v: Seq<Statement>) -> nat
    decreases v,
{
    if v.len() == 0 {
        0
    } else {
        list_size(v.drop_last()) + stmt_size(v.last())
    }
}

/// `p` is the code of `st` when placed at index `base` of a program.
pub open spec fn emitted_stmt(st: Statement, p: Seq<Instruction>, base: int) -> bool
    decreases st,
{
    &&& p.len() == stmt_size(st)
    &&& match st {
        Statement::Reader(r) => p[0] is Match && same_code(p[0]->Match_0.code(), r.code()),
        Statement::Concat(v) => emitted_list(v@, p, base),
        Statement::Alternation(l, r) => {
            let j = 1 + stmt_size(*l) as int;
            &&& p[0] == Instruction::Split((base + 1) as usize, (base + j + 1) as usize)
            &&& emitted_stmt(*l, p.subrange(1, j), base + 1)
            &&& p[j] == Instruction::Jmp((base + p.len()) as usize)
            &&& emitted_stmt(*r, p.subrange(j + 1, p.len() as int), base + j + 1)
        },
        Statement::ZeroOrOne(x) => {
            &&& p[0] == Instruction::Split((base + 1) as usize, (base + p.len()) as usize)
            &&& emitted_stmt(*x, p.subrange(1, p.len() as int), base + 1)
        },
        Statement::ZeroOrMore(x) => {
            let j = 1 + stmt_size(*x) as int;
            &&& p[0] == Instruction::Split((base + 1) as usize, (base + p.len()) as usize)
            &&& emitted_stmt(*x, p.subrange(1, j), base + 1)
            &&& p[j] == Instruction::Jmp(base as usize)
        },
        Statement::OneOrMore(x) => {
            let j = stmt_size(*x) as int;
            &&& emitted_stmt(*x, p.subrange(0, j), base)
            &&& p[j] == Instruction::Split(base as usize, (base + p.len()) as usize)
        },
        Statement::Condition { cond, inner } => {
            let c = stmt_size(*cond) as int;
            &&& p[0] == Instruction::Push((base + c + 2) as usize)
            &&& emitted_stmt(*cond, p.subrange(1, c + 1), base + 1)
            &&& p[c + 1] == Instruction::Pop
            &&& p[c + 2] == Instruction::Carry
            &&& p[c + 3] == Instruction::JumpF((base + p.len() - 1) as usize)
            &&& emitted_stmt(*inner, p.subrange(c + 4, p.len() - 1), base + c + 4)
            &&& p[p.len() - 1] == Instruction::UnFlag
        },
        Statement::Save(name, x) => {
            &&& p[0] == Instruction::StartCapture(name)
            &&& emitted_stmt(*x, p.subrange(1, p.len() - 2), base + 1)
            &&& p[p.len() - 2] == Instruction::EndCapture(name)
            &&& p[p.len() - 1] == Instruction::Save(name)
        },
    }
}

/// `p` is the code of the statements of `v`, one after the other, placed at
/// index `base`.
pub open spec fn emitted_list(v: Seq<Statement>, p: Seq<Instruction>, base: int) -> bool
    decreases v,
{
    &&& p.len() == list_size(v)
    &&& v.len() > 0 ==> {
        let k = list_size(v.drop_last()) as int;
        &&& emitted_list(v.drop_last(), p.subrange(0, k), base)
        &&& emitted_stmt(v.last(), p.subrange(k, p.len() as int), base + k)
    }
}

/// Appends the code of `component` to `program`.
#[verifier::rlimit(100)]
pub fn compile(component: &Statement, program: &mut Vec<Instruction>)
    ensures
        final(program).len() == old(program).len() + stmt_size(*component),
        final(program)@.subrange(0, old(program).len() as int) == old(program)@,
        emitted_stmt(
            *component,
            final(program)@.subrange(old(program).len() as int, final(program).len() as int),
            old(program).len() as int,
        ),
    decreases component,
{
    let ghost p0 = program@;
    let base = program.len();
    match component {
        Statement::Reader(c) => program.push(Instruction::Match(c.duplicate())),
        Statement::Concat(v) => {
            let mut i: usize = 0;
            assert(v@.subrange(0, 0) =~= Seq::<Statement>::empty());
            while i < v.len()
                invariant
                    *component is Concat,
                    *v == component->Concat_0,
                    i <= v.len(),
                    base == p0.len(),
                    program.len() == base + list_size(v@.subrange(0, i as int)),
                    program@.subrange(0, base as int) == p0,
                    emitted_list(v@.subrange(0, i as int), program@.subrange(base as int, program.len() as int), base as int),
                decreases v.len() - i,
            {
                proof {
                    assert(decreases_to!(*component => component->Concat_0));
                    assert(decreases_to!(component->Concat_0 => component->Concat_0[i as int]));
                }
                let ghost before = program@;
                compile(&v[i], program);
                proof {
                    lemma_prefix_agrees(before, program@);
                    let w = v@.subrange(0, i + 1);
                    assert(w.drop_last() =~= v@.subrange(0, i as int));
                    assert(w.last() == v@[i as int]);
                    let fin = program@.subrange(base as int, program.len() as int);
                    let k = list_size(w.drop_last()) as int;
                    assert(fin.subrange(0, k) =~= before.subrange(base as int, before.len() as int));
                    assert(fin.subrange(k, fin.len() as int) =~= program@.subrange(before.len() as int, program.len() as int));
                    assert(program@.subrange(0, base as int) =~= p0);
                }
                i += 1;
            }
            assert(v@.subrange(0, v.len() as int) =~= v@);
        },
        Statement::Alternation(lhs, rhs) => {
            program.push(Instruction::Split(0, 0));
            let first = program.len();
            let ghost q0 = program@;
            compile(lhs, program);
            let ghost p1 = program@;
            proof { lemma_prefix_agrees(q0, p1); }
            let jmp = program.len();
            program.push(Instruction::Jmp(0));
            let ghost q1 = program@;
            let after_jmp = program.len();
            compile(rhs, program);
            let ghost p2 = program@;
            proof { lemma_prefix_agrees(q1, p2); }
            let end = program.len();
            program.set(base, Instruction::Split(first, after_jmp));
            program.set(jmp, Instruction::Jmp(end));
            assert(program@.subrange(base as int + 1, jmp as int) =~= p1.subrange(base as int + 1, jmp as int));
            assert(program@.subrange(after_jmp as int, end as int) =~= p2.subrange(after_jmp as int, end as int));
        },
        Statement::ZeroOrOne(inner) => {
            program.push(Instruction::Split(0, 0));
            let first = program.len();
            let ghost q0 = program@;
            compile(inner, program);
            let ghost p1 = program@;
            proof { lemma_prefix_agrees(q0, p1); }
            let end = program.len();
            program.set(base, Instruction::Split(first, end));
            assert(program@.subrange(base as int + 1, end as int) =~= p1.subrange(base as int + 1, end as int));
        },
        Statement::ZeroOrMore(inner) => {
            program.push(Instruction::Split(0, 0));
            let first = program.len();
            let ghost q0 = program@;
            compile(inner, program);
            let ghost p1 = program@;
            proof { lemma_prefix_agrees(q0, p1); }
            program.push(Instruction::Jmp(base));
            let end = program.len();
            program.set(base, Instruction::Split(first, end));
            assert(program@.subrange(base as int + 1, p1.len() as int) =~= p1.subrange(base as int + 1, p1.len() as int));
        },
        Statement::OneOrMore(inner) => {
            compile(inner, program);
            let ghost p1 = program@;
            proof { lemma_prefix_agrees(p0, p1); }
            let split = program.len();
            program.push(Instruction::Split(0, 0));
            let end = program.len();
            program.set(split, Instruction::Split(base, end));
            assert(program@.subrange(base as int, p1.len() as int) =~= p1.subrange(base as int, p1.len() as int));
        },
        Statement::Condition { cond, inner } => {
            program.push(Instruction::Push(0));
            let ghost q0 = program@;
            compile(cond, program);
            let ghost p1 = program@;
            proof { lemma_prefix_agrees(q0, p1); }
            program.push(Instruction::Pop);
            let carry = program.len();
            program.push(Instruction::Carry);
            let jump_f = program.len();
            program.push(Instruction::JumpF(0));
            let ghost q1 = program@;
            compile(inner, program);
            let ghost p2 = program@;
            proof { lemma_prefix_agrees(q1, p2); }
            let end = program.len();
            program.set(base, Instruction::Push(carry));
            program.set(jump_f, Instruction::JumpF(end));
            program.push(Instruction::UnFlag);
            assert(program@.subrange(base as int + 1, carry as int - 1) =~= p1.subrange(base as int + 1, carry as int - 1));
            assert(program@.subrange(jump_f as int + 1, end as int) =~= p2.subrange(jump_f as int + 1, end as int));
        },
        Statement::Save(name, inner) => {
            program.push(Instruction::StartCapture(name.clone()));
            let ghost q0 = program@;
            compile(inner, program);
            let ghost p1 = program@;
            proof { lemma_prefix_agrees(q0, p1); }
            program.push(Instruction::EndCapture(name.clone()));
            program.push(Instruction::Save(name.clone()));
            assert(program@.subrange(base as int + 1, p1.len() as int) =~= p1.subrange(base as int + 1, p1.len() as int));
        },
    }
    let ghost fin = program@.subrange(base as int, program.len() as int);
    assert(program@.subrange(0, base as int) =~= p0);
    proof {
        match component {
            Statement::Alternation(l, r) => {
                let j = 1 + stmt_size(**l) as int;
                assert(fin.subrange(1, j) =~= program@.subrange(base + 1, base + j));
                assert(fin.subrange(j + 1, fin.len() as int) =~= program@.subrange(base + j + 1, program.len() as int));
            },
            Statement::ZeroOrMore(x) => {
                assert(fin.subrange(1, 1 + stmt_size(**x) as int) =~= program@.subrange(base + 1, base + 1 + stmt_size(**x)));
            },
            Statement::OneOrMore(x) => {
                assert(fin.subrange(0, stmt_size(**x) as int) =~= program@.subrange(base as int, base + stmt_size(**x)));
            },
            Statement::ZeroOrOne(x) => {
                assert(fin.subrange(1, fin.len() as int) =~= program@.subrange(base + 1, program.len() as int));
            },
            Statement::Condition { cond, inner } => {
                let c = stmt_size(**cond) as int;
                assert(fin.subrange(1, c + 1) =~= program@.subrange(base + 1, base + c + 1));
                assert(fin.subrange(c + 4, fin.len() - 1) =~= program@.subrange(base + c + 4, program.len() - 1));
            },
            Statement::Save(_, x) => {
                assert(fin.subrange(1, fin.len() - 2) =~= program@.subrange(base + 1, program.len() - 2));
            },
            _ => {},
        }
    }
}

/// A thread of the lexer machine: program counter, character cursor, the
/// flag that conditions test, whether it runs speculatively, and how many
/// captures it has open.
#[derive(Clone, Copy, Debug, PartialEq, Eq)]
pub struct Thread {
    pub pc: usize,
    pub tc: usize,
    pub flag: bool,
    pub push: bool,
    pub depth: usize,
}

/// A run stopped on an inconsistent program or state.
#[derive(Clone, Copy, Debug, PartialEq, Eq)]
pub enum LexError {
    /// `Save` found an open capture on top of the state stack.
    InvalidState,
    /// `Carry` ran before any thread executed `Pop`.
    MissingPop,
    /// `EndCapture` ran with no capture open, or captures nested too deep.
    UnbalancedCapture,
    /// The run took more steps than it was allowed.
    StepLimit,
}

/// `after` is `before` with one more frame on top, a text frame.
pub open spec fn pushed_text(before: Seq<State>, after: Seq<State>) -> bool {
    &&& after.len() == before.len() + 1
    &&& after.subrange(0, before.len() as int) == before
    &&& after.last() is Text
}

/// Every frame belongs to `input`.
pub open spec fn states_wf(states: Seq<State>, input: Seq<char>) -> bool {
    forall|i: int| 0 <= i < states.len() ==> state_wf(#[trigger] states[i], input)
}

/// Every token belongs to `input`.
pub open spec fn tokens_wf(tokens: Seq<Token>, input: Seq<char>) -> bool {
    forall|i: int| 0 <= i < tokens.len() ==> token_wf(#[trigger] tokens[i], input)
}

/// Every waiting thread has its cursor inside `input`.
pub open spec fn threads_wf(threads: Seq<Thread>, n: int) -> bool {
    forall|i: int| 0 <= i < threads.len() ==> (#[trigger] threads[i]).tc <= n
}

/// The index of the innermost open capture of the state stack, or -1.
pub open spec fn innermost_open(s: Seq<State>) -> int
    decreases s.len(),
{
    if s.len() == 0 {
        -1
    } else if s.last() is StartCapture {
        s.len() - 1
    } else {
        innermost_open(s.drop_last())
    }
}

/// `after` is `before` with its innermost open capture closed: the frames
/// above it gathered, in order, into one unnamed frame in its place; without
/// an open capture nothing changes.
pub open spec fn capture_closed(before: Seq<State>, after: Seq<State>) -> bool {
    let i = innermost_open(before);
    if i < 0 {
        after == before
    } else {
        &&& after.len() == i + 1
        &&& after.subrange(0, i) == before.subrange(0, i)
        &&& after.last() is List
        &&& after.last()->List_0@ == Seq::<char>::empty()
        &&& after.last()->List_1@ == before.subrange(i + 1, before.len() as int)
    }
}

/// An open capture with none above it is the innermost one.
proof fn lemma_innermost_open(s: Seq<State>, i: int)
    requires
        -1 <= i < s.len(),
        i >= 0 ==> s[i] is StartCapture,
        forall|j: int| i < j < s.len() ==> !(#[trigger] s[j] is StartCapture),
    ensures
        innermost_open(s) == i,
    decreases s.len(),
{
    if s.len() > 0 && i < s.len() - 1 {
        assert forall|j: int| i < j < s.len() - 1 implies !(#[trigger] s.drop_last()[j] is StartCapture) by {
            assert(s.drop_last()[j] == s[j]);
        }
        lemma_innermost_open(s.drop_last(), i);
    }
}

/// Closes the innermost open capture: the frames above it become one
/// unnamed gathered frame in its place. Without an open capture nothing
/// changes.
fn end_capture(states: &mut Vec<State>, Ghost(input): Ghost<Seq<char>>)
    requires
        states_wf(old(states)@, input),
    ensures
        states_wf(final(states)@, input),
        final(states).len() <= old(states).len(),
        capture_closed(old(states)@, final(states)@),
{
    let ghost s0 = states@;
    let mut i = states.len();
    let mut found = false;
    while i > 0
        invariant_except_break
            !found,
            forall|j: int| i <= j < states.len() ==> !(#[trigger] states@[j] is StartCapture),
        invariant
            states@ == s0,
            i <= states.len(),
        ensures
            found ==> i < states.len() && states@[i as int] is StartCapture,
            !found ==> forall|j: int| 0 <= j < states.len() ==> !(#[trigger] states@[j] is StartCapture),
            forall|j: int| i < j < states.len() ==> !(#[trigger] states@[j] is StartCapture),
        decreases i,
    {
        i -= 1;
        match &states[i] {
            State::StartCapture(_, _) => {
                found = true;
                break;
            },
            _ => {},
        }
    }
    if !found {
        proof {
            lemma_innermost_open(s0, -1);
        }
        return;
    }
    proof {
        lemma_innermost_open(s0, i as int);
    }
    let mut rev: Vec<State> = Vec::new();
    while states.len() > i + 1
        invariant
            i < states.len() <= s0.len(),
            states@ == s0.subrange(0, states.len() as int),
            states_wf(s0, input),
            rev.len() == s0.len() - states.len(),
            forall|j: int| 0 <= j < rev.len() ==> (#[trigger] rev@[j]) == s0[s0.len() - 1 - j],
            forall|j: int| 0 <= j < rev.len() ==> state_wf(#[trigger] rev@[j], input),
        decreases states.len(),
    {
        let t = states.pop().unwrap();
        assert(state_wf(s0[states.len() as int], input));
        rev.push(t);
    }
    let ghost r0 = rev@;
    let mut list: Vec<State> = Vec::new();
    while rev.len() > 0
        invariant
            rev@ == r0.subrange(0, rev.len() as int),
            list.len() + rev.len() == r0.len(),
            forall|j: int| 0 <= j < r0.len() ==> state_wf(#[trigger] r0[j], input),
            forall|j: int| 0 <= j < list.len() ==> (#[trigger] list@[j]) == r0[r0.len() - 1 - j],
            forall|j: int| 0 <= j < list.len() ==> state_wf(#[trigger] list@[j], input),
        decreases rev.len(),
    {
        let t = rev.pop().unwrap();
        assert(t == r0[rev.len() as int]);
        list.push(t);
    }
    assert(list@ =~= s0.subrange(i + 1, s0.len() as int));
    states.pop();
    let ghost s1 = states@;
    states.push(State::List(String::new(), list));
    assert(states@.subrange(0, i as int) =~= s0.subrange(0, i as int));
    assert forall|j: int| 0 <= j < states.len() implies state_wf(#[trigger] states@[j], input) by {
        if j < s1.len() {
            assert(states@[j] == s0[j]);
        }
    }
}

/// `b` is `a` moved to instruction `pc`, all else kept.
pub open spec fn moved_to(a: Thread, b: Thread, pc: int) -> bool {
    b == (Thread { pc: pc as usize, tc: a.tc, flag: a.flag, push: a.push, depth: a.depth })
}

/// The thread that waits at `pc` to resume `a` outside speculation.
pub open spec fn waiting(a: Thread, pc: int) -> Thread {
    Thread { pc: pc as usize, tc: a.tc, flag: a.flag, push: false, depth: a.depth }
}

/// `f` is a text frame for the characters `input[a..b]`.
pub open spec fn text_frame(f: State, input: Seq<char>, a: int, b: int) -> bool {
    f is Text && f->Text_0@ == input.subrange(a, b) && f->Text_1 == a && f->Text_2 == b
}

/// What `Save` does to the state stack and the tokens: with a frame on top
/// and no capture open, the frame leaves and its token, named `name`, is
/// emitted if it holds text; with captures open, a gathered frame on top
/// takes the name.
pub open spec fn saved(
    name: String,
    depth: int,
    s0: Seq<State>,
    s1: Seq<State>,
    k0: Seq<Token>,
    k1: Seq<Token>,
) -> bool {
    if s0.len() == 0 {
        s1 == s0 && k1 == k0
    } else if depth == 0 {
        &&& s1 == s0.drop_last()
        &&& k1.len() == k0.len() + (if has_text(s0.last()) { 1int } else { 0int })
        &&& k1.subrange(0, k0.len() as int) == k0
        &&& k1.len() > k0.len() ==> {
            let t = k1.last();
            &&& t.name == name
            &&& s0.last() is Text ==> t.text == s0.last()->Text_0 && t.start == s0.last()->Text_1
                && t.end == s0.last()->Text_2 && t.children.len() == 0
        }
    } else {
        &&& k1 == k0
        &&& s0.last() is List ==> s1 == s0.drop_last().push(State::List(name, s0.last()->List_1))
        &&& !(s0.last() is List) ==> s1 == s0
    }
}

/// A configuration of the lexer machine: the running thread, the waiting
/// threads, the state stack, the emitted tokens, and the thread that last
/// ended a speculative run.
pub struct Config {
    pub vm: Thread,
    pub threads: Seq<Thread>,
    pub states: Seq<State>,
    pub tokens: Seq<Token>,
    pub popped: Option<Thread>,
}

/// What executing the instruction at `c1.vm.pc` does: `c2` is the
/// configuration after it and `r` says whether the thread goes on, or why
/// the run stops.
pub open spec fn instruction_effect(
    program: Seq<Instruction>,
    input: Seq<char>,
    c1: Config,
    c2: Config,
    r: Result<bool, LexError>,
) -> bool {
    &&& !(program[c1.vm.pc as int] is Pop) ==> c2.popped == c1.popped
    &&& match program[c1.vm.pc as int] {
        Instruction::Match(re) => {
            &&& r == Ok::<bool, LexError>(true)
            &&& c2.threads == c1.threads
            &&& c2.tokens == c1.tokens
            &&& match first_match(re.code(), input, c1.vm.tc as int) {
                Some(k) => {
                    &&& c2.vm == (Thread { pc: (c1.vm.pc + 1) as usize, tc: k as usize, flag: c1.vm.flag, push: c1.vm.push, depth: c1.vm.depth })
                    &&& c1.vm.push ==> c2.states == c1.states
                    &&& !c1.vm.push ==> c2.states.len() == c1.states.len() + 1
                        && c2.states.subrange(0, c1.states.len() as int) == c1.states
                        && text_frame(c2.states.last(), input, c1.vm.tc as int, k)
                },
                None => {
                    &&& c2.states == c1.states
                    &&& c1.vm.push ==> c2.vm == (Thread { pc: (c1.vm.pc + 1) as usize, tc: c1.vm.tc, flag: true, push: true, depth: c1.vm.depth })
                    &&& !c1.vm.push ==> c2.vm == c1.vm
                },
            }
        },
        Instruction::Split(a, b) => {
            &&& r == Ok::<bool, LexError>(true)
            &&& moved_to(c1.vm, c2.vm, a as int)
            &&& c2.threads == c1.threads.push(waiting(c1.vm, b as int))
            &&& c2.states == c1.states && c2.tokens == c1.tokens
        },
        Instruction::Jmp(a) => {
            &&& r == Ok::<bool, LexError>(true)
            &&& moved_to(c1.vm, c2.vm, a as int)
            &&& c2.threads == c1.threads && c2.states == c1.states && c2.tokens == c1.tokens
        },
        Instruction::JumpF(a) => {
            &&& r == Ok::<bool, LexError>(true)
            &&& moved_to(c1.vm, c2.vm, if c1.vm.flag { a as int } else { c1.vm.pc + 1 })
            &&& c2.threads == c1.threads && c2.states == c1.states && c2.tokens == c1.tokens
        },
        Instruction::Save(name) => {
            &&& c1.states.len() > 0 && c1.states.last() is StartCapture ==> r == Err::<bool, LexError>(LexError::InvalidState)
            &&& !(c1.states.len() > 0 && c1.states.last() is StartCapture) ==> {
                &&& r == Ok::<bool, LexError>(true)
                &&& moved_to(c1.vm, c2.vm, c1.vm.pc + 1)
                &&& c2.threads == c1.threads
                &&& saved(name, c1.vm.depth as int, c1.states, c2.states, c1.tokens, c2.tokens)
            }
        },
        Instruction::StartCapture(name) => {
            &&& c1.vm.depth == usize::MAX ==> r == Err::<bool, LexError>(LexError::UnbalancedCapture)
            &&& c1.vm.depth < usize::MAX ==> {
                &&& r == Ok::<bool, LexError>(true)
                &&& c2.vm == (Thread { pc: (c1.vm.pc + 1) as usize, tc: c1.vm.tc, flag: c1.vm.flag, push: c1.vm.push, depth: (c1.vm.depth + 1) as usize })
                &&& c2.states == c1.states.push(State::StartCapture(name, c1.vm.tc))
                &&& c2.threads == c1.threads && c2.tokens == c1.tokens
            }
        },
        Instruction::EndCapture(_) => {
            &&& c1.vm.depth == 0 ==> r == Err::<bool, LexError>(LexError::UnbalancedCapture)
            &&& c1.vm.depth > 0 ==> {
                &&& r == Ok::<bool, LexError>(true)
                &&& capture_closed(c1.states, c2.states)
                &&& c2.vm == (Thread { pc: (c1.vm.pc + 1) as usize, tc: c1.vm.tc, flag: c1.vm.flag, push: c1.vm.push, depth: (c1.vm.depth - 1) as usize })
                &&& c2.threads == c1.threads && c2.tokens == c1.tokens
            }
        },
        Instruction::Flag => {
            &&& r == Ok::<bool, LexError>(true)
            &&& c2.vm == (Thread { pc: (c1.vm.pc + 1) as usize, tc: c1.vm.tc, flag: true, push: c1.vm.push, depth: c1.vm.depth })
            &&& c2.threads == c1.threads && c2.states == c1.states && c2.tokens == c1.tokens
        },
        Instruction::UnFlag => {
            &&& r == Ok::<bool, LexError>(true)
            &&& c2.vm == (Thread { pc: (c1.vm.pc + 1) as usize, tc: c1.vm.tc, flag: false, push: c1.vm.push, depth: c1.vm.depth })
            &&& c2.threads == c1.threads && c2.states == c1.states && c2.tokens == c1.tokens
        },
        Instruction::Carry => {
            &&& c1.popped is None ==> r == Err::<bool, LexError>(LexError::MissingPop)
            &&& c1.popped is Some ==> {
                &&& r == Ok::<bool, LexError>(true)
                &&& c2.vm == (Thread { pc: (c1.vm.pc + 1) as usize, tc: c1.vm.tc, flag: (c1.popped)->Some_0.flag, push: c1.vm.push, depth: c1.vm.depth })
                &&& c2.threads == c1.threads && c2.states == c1.states && c2.tokens == c1.tokens
            }
        },
        Instruction::Push(a) => {
            &&& r == Ok::<bool, LexError>(false)
            &&& c2.threads == c1.threads.push(waiting(c1.vm, a as int)).push(
                (Thread { pc: (c1.vm.pc + 1) as usize, tc: c1.vm.tc, flag: c1.vm.flag, push: true, depth: c1.vm.depth }))
            &&& c2.states == c1.states && c2.tokens == c1.tokens
        },
        Instruction::Pop => {
            &&& r == Ok::<bool, LexError>(false)
            &&& c2.popped == Some(c1.vm)
            &&& c2.threads == c1.threads && c2.states == c1.states && c2.tokens == c1.tokens
        },
    }
}

/// Executes the instruction at `vm.pc` for thread `vm`. Returns whether the
/// thread goes on; a thread that spawned or ended a speculative run stops.
/// Matched texts become text frames of the state stack, except on a
/// speculative thread; a `Save` with no capture open moves the top frame out
/// as a token.
#[verifier::rlimit(100)]
pub fn step(
    program: &[Instruction],
    input: &str,
    chars: &Vec<char>,
    vm: &mut Thread,
    threads: &mut Vec<Thread>,
    states: &mut Vec<State>,
    tokens: &mut Vec<Token>,
    popped: &mut Option<Thread>,
) -> (r: Result<bool, LexError>)
    requires
        chars@ == input@,
        old(vm).pc < program.len(),
        old(vm).tc <= chars.len(),
        threads_wf(old(threads)@, chars.len() as int),
        states_wf(old(states)@, input@),
        tokens_wf(old(tokens)@, input@),
    ensures
        final(vm).tc <= chars.len(),
        final(vm).tc >= old(vm).tc,
        threads_wf(final(threads)@, chars.len() as int),
        states_wf(final(states)@, input@),
        tokens_wf(final(tokens)@, input@),
        old(vm).push ==> !pushed_text(old(states)@, final(states)@),
        final(tokens).len() != old(tokens).len() ==> old(vm).depth == 0 && final(tokens).len() == old(tokens).len() + 1,
        final(tokens)@.subrange(0, old(tokens).len() as int) == old(tokens)@,
        instruction_effect(
            program@,
            input@,
            (Config { vm: *old(vm), threads: old(threads)@, states: old(states)@, tokens: old(tokens)@, popped: *old(popped) }),
            (Config { vm: *final(vm), threads: final(threads)@, states: final(states)@, tokens: final(tokens)@, popped: *final(popped) }),
            r,
        ),
{
    let ghost s0 = states@;
    let ghost k0 = tokens@;
    let ghost c1 = Config { vm: *vm, threads: threads@, states: states@, tokens: tokens@, popped: *popped };
    let n = chars.len();
    match &program[vm.pc] {
        Instruction::Match(regex) => {
            match regex.match_at(chars, vm.tc) {
                Some(end) => {
                    if !vm.push {
                        let text = substring(input, vm.tc, end);
                        states.push(State::Text(text, vm.tc, end));
                        assert forall|j: int| 0 <= j < states.len() implies state_wf(#[trigger] states@[j], input@) by {
                            if j < s0.len() {
                                assert(states@[j] == s0[j]);
                            }
                        }
                    }
                    vm.pc = vm.pc + 1;
                    vm.tc = end;
                },
                None => {
                    if vm.push {
                        vm.flag = true;
                        vm.pc = vm.pc + 1;
                    }
                },
            }
            let ghost c2 = Config { vm: *vm, threads: threads@, states: states@, tokens: tokens@, popped: *popped };
            assert(program@[c1.vm.pc as int] == Instruction::Match(*regex));
            assert(c2.threads == c1.threads);
            assert(c2.tokens == c1.tokens);
            assert(match first_match(regex.code(), input@, c1.vm.tc as int) {
                    Some(k) => {
                        &&& c2.vm == (Thread { pc: (c1.vm.pc + 1) as usize, tc: k as usize, flag: c1.vm.flag, push: c1.vm.push, depth: c1.vm.depth })
                        &&& c1.vm.push ==> c2.states == c1.states
                        &&& !c1.vm.push ==> c2.states.len() == c1.states.len() + 1
                            && c2.states.subrange(0, c1.states.len() as int) == c1.states
                            && text_frame(c2.states.last(), input@, c1.vm.tc as int, k)
                    },
                    None => {
                        &&& c2.states == c1.states
                        &&& c1.vm.push ==> c2.vm == (Thread { pc: (c1.vm.pc + 1) as usize, tc: c1.vm.tc, flag: true, push: true, depth: c1.vm.depth })
                        &&& !c1.vm.push ==> c2.vm == c1.vm
                    },
                });
            assert(instruction_effect(program@, input@, c1, c2, Ok(true)));
            Ok(true)
        },
        Instruction::Split(a, b) => {
            threads.push(Thread { pc: *b, tc: vm.tc, flag: vm.flag, push: false, depth: vm.depth });
            vm.pc = *a;
            assert(threads@[threads.len() - 1].tc <= n);
            Ok(true)
        },
        Instruction::Jmp(a) => {
            vm.pc = *a;
            Ok(true)
        },
        Instruction::JumpF(a) => {
            vm.pc = vm.pc + 1;
            if vm.flag {
                vm.pc = *a;
            }
            Ok(true)
        },
        Instruction::Save(name) => {
            let len = states.len();
            if len > 0 {
                match &states[len - 1] {
                    State::StartCapture(_, _) => {
                        return Err(LexError::InvalidState);
                    },
                    _ => {},
                }
                if vm.depth == 0 {
                    let top = states.pop().unwrap();
                    assert(state_wf(top, input@));
                    match top {
                        State::Text(text, start, end) => {
                            let t = Token { name: name.clone(), text, start, end, children: Vec::new() };
                            tokens.push(t);
                        },
                        other => {
                            match other.into_token() {
                                Some(t) => {
                                    let t = Token { name: name.clone(), text: t.text, start: t.start, end: t.end, children: t.children };
                                    tokens.push(t);
                                },
                                None => {},
                            }
                        },
                    }
                    assert forall|j: int| 0 <= j < tokens.len() implies token_wf(#[trigger] tokens@[j], input@) by {
                        if j < k0.len() {
                            assert(tokens@[j] == k0[j]);
                        }
                    }
                    assert forall|j: int| 0 <= j < states.len() implies state_wf(#[trigger] states@[j], input@) by {
                        assert(states@[j] == s0[j]);
                    }
                } else {
                    let top = states.pop().unwrap();
                    assert(state_wf(top, input@));
                    match top {
                        State::List(_, l) => {
                            states.push(State::List(name.clone(), l));
                        },
                        other => {
                            states.push(other);
                            assert(states@ =~= s0);
                        },
                    }
                    assert forall|j: int| 0 <= j < states.len() implies state_wf(#[trigger] states@[j], input@) by {
                        if j < len - 1 {
                            assert(states@[j] == s0[j]);
                        }
                    }
                }
            }
            vm.pc = vm.pc + 1;
            assert(tokens@.subrange(0, k0.len() as int) =~= k0);
            Ok(true)
        },
        Instruction::StartCapture(name) => {
            if vm.depth == usize::MAX {
                return Err(LexError::UnbalancedCapture);
            }
            vm.depth = vm.depth + 1;
            states.push(State::StartCapture(name.clone(), vm.tc));
            assert forall|j: int| 0 <= j < states.len() implies state_wf(#[trigger] states@[j], input@) by {
                if j < s0.len() {
                    assert(states@[j] == s0[j]);
                }
            }
            vm.pc = vm.pc + 1;
            Ok(true)
        },
        Instruction::EndCapture(_) => {
            if vm.depth == 0 {
                return Err(LexError::UnbalancedCapture);
            }
            end_capture(states, Ghost(input@));
            vm.depth = vm.depth - 1;
            vm.pc = vm.pc + 1;
            Ok(true)
        },
        Instruction::Flag => {
            vm.pc = vm.pc + 1;
            vm.flag = true;
            Ok(true)
        },
        Instruction::UnFlag => {
            vm.pc = vm.pc + 1;
            vm.flag = false;
            Ok(true)
        },
        Instruction::Carry => {
            match popped {
                Some(t) => {
                    vm.flag = t.flag;
                },
                None => {
                    return Err(LexError::MissingPop);
                },
            }
            vm.pc = vm.pc + 1;
            Ok(true)
        },
        Instruction::Push(a) => {
            vm.pc = vm.pc + 1;
            threads.push(Thread { pc: *a, tc: vm.tc, flag: vm.flag, push: false, depth: vm.depth });
            threads.push(Thread { pc: vm.pc, tc: vm.tc, flag: vm.flag, push: true, depth: vm.depth });
            Ok(false)
        },
        Instruction::Pop => {
            *popped = Some(*vm);
            vm.pc = vm.pc + 1;
            Ok(false)
        },
    }
}

/// `c` with its running thread replaced by the most recent waiting one.
pub open spec fn resumed(c: Config) -> Config {
    Config { vm: c.threads.last(), threads: c.threads.drop_last(), states: c.states, tokens: c.tokens, popped: c.popped }
}

/// A run of `program` on `input` from configuration `c`, with `budget`
/// steps left, can end with `res`. When `active`, `c.vm` is running;
/// otherwise the most recent waiting thread resumes, and with none left the
/// run ends with the tokens emitted. Resuming a thread and executing an
/// instruction take one step each; a thread stops when its program counter
/// leaves the program, when the instruction says so, or when its program
/// counter stays where it was.
pub open spec fn ends_with(
    program: Seq<Instruction>,
    input: Seq<char>,
    c: Config,
    active: bool,
    budget: nat,
    res: Result<Seq<Token>, LexError>,
) -> bool
    decreases budget, if active { 1nat } else { 0nat },
{
    if !active {
        if c.threads.len() == 0 {
            res == Ok::<Seq<Token>, LexError>(c.tokens)
        } else if budget == 0 {
            res == Err::<Seq<Token>, LexError>(LexError::StepLimit)
        } else {
            ends_with(program, input, resumed(c), true, (budget - 1) as nat, res)
        }
    } else if c.vm.pc >= program.len() {
        ends_with(program, input, c, false, budget, res)
    } else if budget == 0 {
        res == Err::<Seq<Token>, LexError>(LexError::StepLimit)
    } else {
        exists|c2: Config, r: Result<bool, LexError>|
            #[trigger] instruction_effect(program, input, c, c2, r) && match r {
                Err(e) => res == Err::<Seq<Token>, LexError>(e),
                Ok(go) => ends_with(program, input, c2, go && c2.vm.pc != c.vm.pc, (budget - 1) as nat, res),
            }
    }
}

/// The configuration a run starts from: one thread at the first instruction
/// and the first character, nothing else.
pub open spec fn initial() -> Config {
    Config {
        vm: Thread { pc: 0, tc: 0, flag: false, push: false, depth: 0 },
        threads: seq![Thread { pc: 0, tc: 0, flag: false, push: false, depth: 0 }],
        states: Seq::empty(),
        tokens: Seq::empty(),
        popped: None,
    }
}

/// The result of a run, with the tokens as a sequence.
pub open spec fn outcome_of(r: Result<Vec<Token>, LexError>) -> Result<Seq<Token>, LexError> {
    match r {
        Ok(v) => Ok(v@),
        Err(e) => Err(e),
    }
}

/// Runs `program` on `input` and returns the tokens that `Save` emitted with
/// no capture open, in order. Threads wait on a stack and the most recent
/// one resumes first; a thread stops when its program counter leaves the
/// program, when it fails to match outside a speculative run, when it spawns
/// or ends a speculative run, or when an instruction leaves its program
/// counter where it was. At most `limit` steps are taken: each resumed
/// thread and each executed instruction is one.
pub fn execute(program: &[Instruction], input: &str, limit: usize) -> (r: Result<Vec<Token>, LexError>)
    ensures
        ends_with(program@, input@, initial(), false, limit as nat, outcome_of(r)),
        r is Ok ==> tokens_wf(r->Ok_0@, input@),
{
    let chars = chars_of(input);
    let n = chars.len();
    let mut threads: Vec<Thread> = Vec::new();
    let mut vm = Thread { pc: 0, tc: 0, flag: false, push: false, depth: 0 };
    threads.push(vm);
    let mut states: Vec<State> = Vec::new();
    let mut tokens: Vec<Token> = Vec::new();
    let mut popped: Option<Thread> = None;
    let mut budget = limit;
    assert(threads@ =~= initial().threads);
    assert(states@ =~= initial().states);
    assert(tokens@ =~= initial().tokens);
    loop
        invariant
            chars@ == input@,
            n == chars.len(),
            threads_wf(threads@, n as int),
            states_wf(states@, input@),
            tokens_wf(tokens@, input@),
            forall|res: Result<Seq<Token>, LexError>|
                ends_with(program@, input@, Config { vm: vm, threads: threads@, states: states@, tokens: tokens@, popped: popped }, false, budget as nat, res)
                    ==> #[trigger] ends_with(program@, input@, initial(), false, limit as nat, res),
        decreases budget,
    {
        let ghost c0 = Config { vm: vm, threads: threads@, states: states@, tokens: tokens@, popped: popped };
        vm = match threads.pop() {
            Some(t) => t,
            None => {
                assert(ends_with(program@, input@, c0, false, budget as nat, Ok::<Seq<Token>, LexError>(tokens@)));
                return Ok(tokens);
            },
        };
        assert(vm.tc <= n);
        if budget == 0 {
            assert(ends_with(program@, input@, c0, false, budget as nat, Err::<Seq<Token>, LexError>(LexError::StepLimit)));
            return Err(LexError::StepLimit);
        }
        budget = budget - 1;
        assert(threads@ =~= c0.threads.drop_last());
        assert(resumed(c0) == Config { vm: vm, threads: threads@, states: states@, tokens: tokens@, popped: popped });
        let ghost b0 = budget;
        loop
            invariant_except_break
                forall|res: Result<Seq<Token>, LexError>|
                    ends_with(program@, input@, Config { vm: vm, threads: threads@, states: states@, tokens: tokens@, popped: popped }, true, budget as nat, res)
                        ==> #[trigger] ends_with(program@, input@, initial(), false, limit as nat, res),
            invariant
                budget <= b0,
                chars@ == input@,
                n == chars.len(),
                vm.tc <= n,
                threads_wf(threads@, n as int),
                states_wf(states@, input@),
                tokens_wf(tokens@, input@),
            ensures
                budget <= b0,
                chars@ == input@,
                vm.tc <= n,
                threads_wf(threads@, n as int),
                states_wf(states@, input@),
                tokens_wf(tokens@, input@),
                forall|res: Result<Seq<Token>, LexError>|
                    ends_with(program@, input@, Config { vm: vm, threads: threads@, states: states@, tokens: tokens@, popped: popped }, false, budget as nat, res)
                        ==> #[trigger] ends_with(program@, input@, initial(), false, limit as nat, res),
            decreases budget,
        {
            let ghost c1 = Config { vm: vm, threads: threads@, states: states@, tokens: tokens@, popped: popped };
            if vm.pc >= program.len() {
                assert forall|r2: Result<Seq<Token>, LexError>|
                    ends_with(program@, input@, c1, false, budget as nat, r2)
                        implies #[trigger] ends_with(program@, input@, initial(), false, limit as nat, r2) by {
                    assert(ends_with(program@, input@, c1, true, budget as nat, r2));
                }
                break;
            }
            if budget == 0 {
                assert(ends_with(program@, input@, c1, true, budget as nat, Err::<Seq<Token>, LexError>(LexError::StepLimit)));
                return Err(LexError::StepLimit);
            }
            budget = budget - 1;
            let opc = vm.pc;
            let res = step(program, input, &chars, &mut vm, &mut threads, &mut states, &mut tokens, &mut popped);
            let ghost c2 = Config { vm: vm, threads: threads@, states: states@, tokens: tokens@, popped: popped };
            assert(instruction_effect(program@, input@, c1, c2, res));
            let go_on = match res {
                Ok(b) => b,
                Err(e) => {
                    assert(ends_with(program@, input@, c1, true, (budget + 1) as nat, Err::<Seq<Token>, LexError>(e)));
                    return Err(e);
                },
            };
            let active = go_on && vm.pc != opc;
            assert forall|r2: Result<Seq<Token>, LexError>|
                ends_with(program@, input@, c2, active, budget as nat, r2)
                    implies #[trigger] ends_with(program@, input@, initial(), false, limit as nat, r2) by {
                assert(ends_with(program@, input@, c1, true, (budget + 1) as nat, r2));
            }
            if !active {
                break;
            }
        }
    }
}

} // verus!
