//! Statements, lexer instructions, capture frames and tokens.
use vstd::prelude::*;
use crate::regex::Regex;

verus! {

/// A statement of a lexer: a tree whose leaves read one regular expression each.
#[derive(Debug, PartialEq)]
pub enum Statement {
    Reader(Regex),
    Concat(Vec<Statement>),
    Alternation(Box<Statement>, Box<Statement>),
    ZeroOrOne(Box<Statement>),
    ZeroOrMore(Box<Statement>),
    OneOrMore(Box<Statement>),
    Condition { cond: Box<Statement>, inner: Box<Statement> },
    Save(String, Box<Statement>),
}

/// One instruction of a compiled lexer.
#[derive(Debug, PartialEq, Clone)]
pub enum Instruction {
    Match(Regex),
    Split(usize, usize),
    Jmp(usize),
    JumpF(usize),
    Save(String),
    StartCapture(String),
    EndCapture(String),
    Flag,
    UnFlag,
    Carry,
    Push(usize),
    Pop,
}

/// A frame of the state stack: an open capture with the cursor where it
/// opened, a matched text with its character span, or a closed capture with
/// the frames it gathered.
#[derive(Debug, PartialEq)]
pub enum State {
    StartCapture(String, usize),
    Text(String, usize, usize),
    List(String, Vec<State>),
}

/// A named piece of the input: its text, its character span, and the tokens
/// it was assembled from.
#[derive(Debug)]
pub struct Token {
    pub name: String,
    pub text: String,
    pub start: usize,
    pub end: usize,
    pub children: Vec<Token>,
}

/// The texts of `ts`, one after the other.
pub open spec fn texts(ts: Seq<Token>) -> Seq<char>
    decreases ts.len(),
{
    if ts.len() == 0 {
        Seq::empty()
    } else {
        texts(ts.drop_last()) + ts.last().text@
    }
}

/// The smallest start among `ts` (which is not empty).
pub open spec fn min_start(ts: Seq<Token>) -> int
    decreases ts.len(),
{
    if ts.len() <= 1 {
        ts[0].start as int
    } else {
        let m = min_start(ts.drop_last());
        if ts.last().start < m { ts.last().start as int } else { m }
    }
}

/// The largest end among `ts` (which is not empty).
pub open spec fn max_end(ts: Seq<Token>) -> int
    decreases ts.len(),
{
    if ts.len() <= 1 {
        ts[0].end as int
    } else {
        let m = max_end(ts.drop_last());
        if ts.last().end > m { ts.last().end as int } else { m }
    }
}

/// A token of `input`: a leaf holds the text of its span; a parent spans
/// from the first start to the last end of its children and holds their
/// texts in order.
pub open spec fn token_wf(t: Token, input: Seq<char>) -> bool
    decreases t,
{
    &&& t.start <= t.end <= input.len()
    &&& if t.children.len() == 0 {
        t.text@ == input.subrange(t.start as int, t.end as int)
    } else {
        &&& t.start == min_start(t.children@)
        &&& t.end == max_end(t.children@)
        &&& t.text@ == texts(t.children@)
        &&& forall|i: int| 0 <= i < t.children.len() ==> token_wf(#[trigger] t.children[i], input)
    }
}

/// A frame of `input`: each text holds the characters of its span.
pub open spec fn state_wf(s: State, input: Seq<char>) -> bool
    decreases s,
{
    match s {
        State::StartCapture(_, tc) => tc <= input.len(),
        State::Text(t, a, b) => a <= b <= input.len() && t@ == input.subrange(a as int, b as int),
        State::List(_, l) => forall|i: int| 0 <= i < l.len() ==> state_wf(#[trigger] l[i], input),
    }
}

/// Whether a frame holds matched text, directly or in a gathered frame.
pub open spec fn has_text(s: State) -> bool
    decreases s,
{
    match s {
        State::StartCapture(_, _) => false,
        State::Text(_, _, _) => true,
        State::List(_, l) => exists|i: int| 0 <= i < l.len() && has_text(#[trigger] l[i]),
    }
}

/// Number of frames of `l` that hold text.
pub open spec fn text_frames(l: Seq<State>) -> nat
    decreases l.len(),
{
    if l.len() == 0 {
        0
    } else {
        text_frames(l.drop_last()) + if has_text(l.last()) { 1nat } else { 0nat }
    }
}

/// A start and an end of some token bound the smallest start and the largest
/// end of a list of tokens.
pub proof fn lemma_span_bounds(ts: Seq<Token>)
    requires
        ts.len() > 0,
    ensures
        forall|j: int| 0 <= j < ts.len() ==> min_start(ts) <= #[trigger] ts[j].start,
        forall|j: int| 0 <= j < ts.len() ==> max_end(ts) >= #[trigger] ts[j].end,
        exists|j: int| 0 <= j < ts.len() && min_start(ts) == #[trigger] ts[j].start,
        exists|j: int| 0 <= j < ts.len() && max_end(ts) == #[trigger] ts[j].end,
    decreases ts.len(),
{
    if ts.len() > 1 {
        let d = ts.drop_last();
        lemma_span_bounds(d);
        assert forall|j: int| 0 <= j < ts.len() - 1 implies ts[j] == #[trigger] d[j] by {}
        let a = choose|j: int| 0 <= j < d.len() && min_start(d) == #[trigger] d[j].start;
        let b = choose|j: int| 0 <= j < d.len() && max_end(d) == #[trigger] d[j].end;
        assert(ts[a] == d[a]);
        assert(ts[b] == d[b]);
        if ts.last().start < min_start(d) {
            assert(min_start(ts) == ts[ts.len() - 1].start);
        } else {
            assert(min_start(ts) == ts[a].start);
        }
        if ts.last().end > max_end(d) {
            assert(max_end(ts) == ts[ts.len() - 1].end);
        } else {
            assert(max_end(ts) == ts[b].end);
        }
        assert forall|j: int| 0 <= j < ts.len() implies min_start(ts) <= #[trigger] ts[j].start by {
            if j < ts.len() - 1 {
                assert(ts[j] == d[j]);
            }
        }
        assert forall|j: int| 0 <= j < ts.len() implies max_end(ts) >= #[trigger] ts[j].end by {
            if j < ts.len() - 1 {
                assert(ts[j] == d[j]);
            }
        }
    } else {
        assert(min_start(ts) == ts[0].start);
        assert(max_end(ts) == ts[0].end);
    }
}

/// Each child of `t` ends where the next one starts, at every level of the tree.
pub open spec fn contiguous(t: Token) -> bool
    decreases t,
{
    &&& forall|i: int| 0 <= i < t.children.len() - 1 ==> (#[trigger] t.children[i]).end == t.children[i + 1].start
    &&& forall|i: int| 0 <= i < t.children.len() ==> contiguous(#[trigger] t.children[i])
}

/// Tokens that follow one another without gaps, each holding the text of its
/// span, together hold the text from the first start to the last end.
proof fn lemma_chain(cs: Seq<Token>, input: Seq<char>)
    requires
        cs.len() > 0,
        forall|i: int| 0 <= i < cs.len() ==> (#[trigger] cs[i]).start <= cs[i].end <= input.len(),
        forall|i: int| 0 <= i < cs.len() ==> (#[trigger] cs[i]).text@ == input.subrange(cs[i].start as int, cs[i].end as int),
        forall|i: int| 0 <= i < cs.len() - 1 ==> (#[trigger] cs[i]).end == cs[i + 1].start,
    ensures
        texts(cs) == input.subrange(cs[0].start as int, cs.last().end as int),
        forall|j: int| 0 <= j < cs.len() ==> cs[0].start <= (#[trigger] cs[j]).start && cs[j].end <= cs.last().end,
    decreases cs.len(),
{
    if cs.len() == 1 {
        assert(cs.drop_last() =~= Seq::<Token>::empty());
        assert(texts(cs.drop_last()) =~= Seq::<char>::empty());
        assert(texts(cs) =~= cs[0].text@);
    } else {
        let d = cs.drop_last();
        assert forall|i: int| 0 <= i < d.len() implies #[trigger] d[i] == cs[i] by {}
        assert(forall|i: int| 0 <= i < d.len() ==> (#[trigger] d[i]).start <= d[i].end <= input.len());
        assert(forall|i: int| 0 <= i < d.len() ==> (#[trigger] d[i]).text@ == input.subrange(d[i].start as int, d[i].end as int));
        assert(forall|i: int| 0 <= i < d.len() - 1 ==> (#[trigger] d[i]).end == d[i + 1].start);
        lemma_chain(d, input);
        let l = cs.last();
        assert(d.last() == cs[cs.len() - 2]);
        assert(texts(cs) == texts(d) + l.text@);
        assert(input.subrange(cs[0].start as int, d.last().end as int) + input.subrange(l.start as int, l.end as int)
            =~= input.subrange(cs[0].start as int, l.end as int));
        assert forall|j: int| 0 <= j < cs.len() implies cs[0].start <= (#[trigger] cs[j]).start && cs[j].end <= cs.last().end by {
            if j < cs.len() - 1 {
                assert(cs[j] == d[j]);
            }
        }
    }
}

/// A token whose children follow one another without gaps, at every level,
/// holds exactly the characters of its span.
pub proof fn lemma_contiguous_token_text(t: Token, input: Seq<char>)
    requires
        token_wf(t, input),
        contiguous(t),
    ensures
        t.text@ == input.subrange(t.start as int, t.end as int),
    decreases t,
{
    if t.children.len() > 0 {
        let cs = t.children@;
        assert forall|i: int| 0 <= i < cs.len() implies (#[trigger] cs[i]).text@ == input.subrange(cs[i].start as int, cs[i].end as int)
            && cs[i].start <= cs[i].end <= input.len() by {
            assert(token_wf(t.children[i], input));
            assert(contiguous(t.children[i]));
            lemma_contiguous_token_text(t.children[i], input);
        }
        assert(forall|i: int| 0 <= i < cs.len() - 1 ==> (#[trigger] cs[i]).end == cs[i + 1].start);
        lemma_chain(cs, input);
        lemma_span_bounds(cs);
        let a = choose|j: int| 0 <= j < cs.len() && min_start(cs) == #[trigger] cs[j].start;
        let b = choose|j: int| 0 <= j < cs.len() && max_end(cs) == #[trigger] cs[j].end;
        assert(cs[0].start <= cs[a].start);
        assert(cs[b].end <= cs.last().end);
    }
}

/// The token that a frame stands for, if it holds any text.
fn token_of(s: &State) -> (r: Option<Token>)
    ensures
        r is Some <==> has_text(*s),
        forall|input: Seq<char>| #[trigger] state_wf(*s, input) && r is Some ==> token_wf(r->Some_0, input),
        match *s {
            State::Text(t, a, b) => r is Some && r->Some_0.name@ == Seq::<char>::empty() && r->Some_0.text@ == t@
                && r->Some_0.start == a && r->Some_0.end == b && r->Some_0.children.len() == 0,
            State::List(n, l) => r is Some ==> {
                &&& r->Some_0.name@ == n@
                &&& r->Some_0.children.len() == text_frames(l@) > 0
                &&& r->Some_0.start == min_start(r->Some_0.children@)
                &&& r->Some_0.end == max_end(r->Some_0.children@)
                &&& r->Some_0.text@ == texts(r->Some_0.children@)
            },
            State::StartCapture(_, _) => r is None,
        },
    decreases s,
{
    match s {
        State::Text(text, start, end) => {
            let r = Token { name: String::new(), text: text.clone(), start: *start, end: *end, children: Vec::new() };
            assert forall|input: Seq<char>| #[trigger] state_wf(*s, input) implies token_wf(r, input) by {}
            Some(r)
        },
        State::StartCapture(_, _) => None,
        State::List(name, list) => {
            let mut children: Vec<Token> = Vec::new();
            let mut text = String::new();
            let mut start: usize = 0;
            let mut end: usize = 0;
            let mut i: usize = 0;
            while i < list.len()
                invariant
                    *s is List,
                    *list == s->List_1,
                    *name == s->List_0,
                    i <= list.len(),
                    children.len() > 0 ==> start == min_start(children@) && end == max_end(children@),
                    text@ == texts(children@),
                    forall|input: Seq<char>| #[trigger] state_wf(*s, input) ==>
                        forall|j: int| 0 <= j < children.len() ==> token_wf(#[trigger] children[j], input),
                    (children.len() > 0) <==> exists|j: int| 0 <= j < i && has_text(#[trigger] list[j]),
                    children.len() == text_frames(list@.subrange(0, i as int)),
                decreases list.len() - i,
            {
                proof {
                    assert(decreases_to!(*list => list[i as int]));
                    assert(decreases_to!(*s => s->List_1));
                }
                let ghost before = children@;
                proof {
                    let w = list@.subrange(0, i + 1);
                    assert(w.drop_last() =~= list@.subrange(0, i as int));
                    assert(w.last() == list[i as int]);
                }
                match token_of(&list[i]) {
                    Some(t) => {
                        if children.len() == 0 || t.start < start {
                            start = t.start;
                        }
                        if children.len() == 0 || t.end > end {
                            end = t.end;
                        }
                        text.append(t.text.as_str());
                        children.push(t);
                        assert(children@.drop_last() =~= before);
                        assert forall|input: Seq<char>| #[trigger] state_wf(*s, input) implies
                            forall|j: int| 0 <= j < children.len() ==> token_wf(#[trigger] children[j], input) by {
                            assert(state_wf(list[i as int], input));
                            assert forall|j: int| 0 <= j < children.len() implies token_wf(#[trigger] children[j], input) by {
                                if j < before.len() {
                                    assert(children[j] == before[j]);
                                }
                            }
                        }
                        assert(has_text(list[i as int]));
                    },
                    None => {},
                }
                i += 1;
            }
            assert(list@.subrange(0, list.len() as int) =~= list@);
            if children.len() == 0 {
                return None;
            }
            let r = Token { name: name.clone(), text, start, end, children };
            proof {
                lemma_span_bounds(r.children@);
                assert forall|input: Seq<char>| #[trigger] state_wf(*s, input) implies token_wf(r, input) by {
                    let j = choose|j: int| 0 <= j < r.children.len() && max_end(r.children@) == #[trigger] r.children[j].end;
                    assert(token_wf(r.children[j], input));
                    assert(token_wf(r.children[0], input));
                    assert(r.children[0].start <= r.children[0].end);
                }
            }
            Some(r)
        },
    }
}

impl State {
    /// The token that this frame stands for: a leaf with an empty name for a
    /// text; for a gathered frame, a token named as the frame whose children
    /// are the tokens of its frames, in order; none where no text is held.
    pub fn into_token(self) -> (r: Option<Token>)
        ensures
            r is Some <==> has_text(self),
            forall|input: Seq<char>| #[trigger] state_wf(self, input) && r is Some ==> token_wf(r->Some_0, input),
            match self {
                State::Text(t, a, b) => r is Some && r->Some_0.name@ == Seq::<char>::empty() && r->Some_0.text@ == t@
                    && r->Some_0.start == a && r->Some_0.end == b && r->Some_0.children.len() == 0,
                State::List(n, l) => r is Some ==> {
                    &&& r->Some_0.name@ == n@
                    &&& r->Some_0.children.len() == text_frames(l@) > 0
                    &&& r->Some_0.start == min_start(r->Some_0.children@)
                    &&& r->Some_0.end == max_end(r->Some_0.children@)
                    &&& r->Some_0.text@ == texts(r->Some_0.children@)
                },
                State::StartCapture(_, _) => r is None,
            },
    {
        token_of(&self)
    }
}

} // verus!
