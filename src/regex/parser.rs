//! Parser from regular-expression syntax to expression trees.
//!
//! Grammar, by precedence: alternation `a|b` (left-associative), then
//! sequence, then the postfix operators `*`, `+`, `?`, then atoms: a literal
//! character, `.`, a parenthesised group, or an escape. Consecutive literal
//! characters of a sequence form one `Text` node.
use vstd::prelude::*;
use super::instruction::{Expr, Pattern, pattern_of};
use crate::chars::{chars_of, string_from_chars};

verus! {

/// Why a pattern was rejected.
pub enum ParseError {
    /// A group was opened and not closed.
    MissingParen,
    /// An atom was expected where the input ends.
    EndOfInput,
    /// The input ends right after a backslash.
    EndAfterEscape,
    /// A backslash is followed by a character that has no escape meaning.
    BadEscape(char),
}

/// The message reported for each error.
pub open spec fn error_text(e: ParseError) -> Seq<char> {
    match e {
        ParseError::MissingParen => "Expected closing parenthesis"@,
        ParseError::EndOfInput => "Unexpected end of input"@,
        ParseError::EndAfterEscape => "Unexpected end of input after escape character"@,
        ParseError::BadEscape(c) => "Invalid escape sequence: \\"@.push(c),
    }
}

/// The result of parsing a part of the input: the tree and the index after
/// it, or an error.
pub type Parsed = Result<(Pattern, int), ParseError>;

/// The meaning of the escape `\c`.
pub open spec fn escape_of(c: char) -> Result<Pattern, ParseError> {
    if c == 'n' {
        Ok(Pattern::Char('\n'))
    } else if c == 'r' {
        Ok(Pattern::Char('\r'))
    } else if c == 't' {
        Ok(Pattern::Char('\t'))
    } else if c == 's' {
        Ok(Pattern::AnyWhitespace)
    } else if c == 'S' {
        Ok(Pattern::AnyNonWhitespace)
    } else if c == 'd' {
        Ok(Pattern::AnyDigit)
    } else if c == 'D' {
        Ok(Pattern::AnyNonDigit)
    } else if c == 'w' {
        Ok(Pattern::AnyWord)
    } else if c == 'W' {
        Ok(Pattern::AnyNonWord)
    } else if c == '\\' || c == '.' || c == '(' || c == ')' || c == '[' || c == ']' || c == '{'
        || c == '}' || c == '*' || c == '+' || c == '?' || c == '^' || c == '$' || c == '|' {
        Ok(Pattern::Char(c))
    } else {
        Err(ParseError::BadEscape(c))
    }
}

/// Whether a sequence ends at index `i`: at the end of input, `)` or `|`.
pub open spec fn at_sequence_end(s: Seq<char>, i: int) -> bool {
    i >= s.len() || s[i] == ')' || s[i] == '|'
}

/// Appends the pending literal characters to `items`: one `Char` for a single
/// character, one `Text` for two or more.
pub open spec fn flush(items: Seq<Pattern>, text: Seq<char>) -> Seq<Pattern> {
    if text.len() == 0 {
        items
    } else if text.len() == 1 {
        items.push(Pattern::Char(text[0]))
    } else {
        items.push(Pattern::Text(text))
    }
}

/// A sequence of items as one tree: nested to the right; empty text when
/// there is none.
pub open spec fn fold(items: Seq<Pattern>) -> Pattern
    decreases items.len(),
{
    if items.len() == 0 {
        Pattern::Text(Seq::empty())
    } else if items.len() == 1 {
        items[0]
    } else {
        Pattern::Concat(Box::new(items[0]), Box::new(fold(items.drop_first())))
    }
}

/// An alternation that starts at `i`.
pub open spec fn alt(s: Seq<char>, i: int) -> Parsed
    decreases s.len() - i, 5int,
{
    if i < 0 || i > s.len() {
        Err(ParseError::EndOfInput)
    } else {
        match sequence(s, i) {
            Ok((e, j)) => if i <= j <= s.len() { alt_rest(s, e, j) } else { Err(ParseError::EndOfInput) },
            Err(k) => Err(k),
        }
    }
}

/// Further alternatives after `left`, from `i`.
pub open spec fn alt_rest(s: Seq<char>, left: Pattern, i: int) -> Parsed
    decreases s.len() - i, 4int,
{
    if i < 0 || i > s.len() {
        Err(ParseError::EndOfInput)
    } else if i < s.len() && s[i] == '|' {
        match sequence(s, i + 1) {
            Ok((e, j)) => if i < j <= s.len() {
                alt_rest(s, Pattern::Alternate(Box::new(left), Box::new(e)), j)
            } else {
                Err(ParseError::EndOfInput)
            },
            Err(k) => Err(k),
        }
    } else {
        Ok((left, i))
    }
}

/// A sequence that starts at `i`.
pub open spec fn sequence(s: Seq<char>, i: int) -> Parsed
    decreases s.len() - i, 3int,
{
    seq_rest(s, Seq::empty(), Seq::empty(), i)
}

/// The rest of a sequence from `i`, given the items so far and the literal
/// characters not yet added to them.
pub open spec fn seq_rest(s: Seq<char>, items: Seq<Pattern>, text: Seq<char>, i: int) -> Parsed
    decreases s.len() - i, 2int,
{
    if i < 0 || i > s.len() {
        Err(ParseError::EndOfInput)
    } else if at_sequence_end(s, i) {
        Ok((fold(flush(items, text)), i))
    } else {
        match repeat(s, i) {
            Ok((e, j)) => if i < j <= s.len() {
                match e {
                    Pattern::Char(c) => seq_rest(s, items, text.push(c), j),
                    _ => seq_rest(s, flush(items, text).push(e), Seq::empty(), j),
                }
            } else {
                Err(ParseError::EndOfInput)
            },
            Err(k) => Err(k),
        }
    }
}

/// An atom at `i` with its postfix operators.
pub open spec fn repeat(s: Seq<char>, i: int) -> Parsed
    decreases s.len() - i, 1int,
{
    if i < 0 || i > s.len() {
        Err(ParseError::EndOfInput)
    } else {
        match atom(s, i) {
            Ok((e, j)) => if i < j <= s.len() { Ok(postfix(s, e, j)) } else { Err(ParseError::EndOfInput) },
            Err(k) => Err(k),
        }
    }
}

/// The postfix operators from `i` applied to `e`, innermost first.
pub open spec fn postfix(s: Seq<char>, e: Pattern, i: int) -> (Pattern, int)
    decreases s.len() - i,
{
    if 0 <= i < s.len() && s[i] == '*' {
        postfix(s, Pattern::ZeroOrMore(Box::new(e)), i + 1)
    } else if 0 <= i < s.len() && s[i] == '+' {
        postfix(s, Pattern::OneOrMore(Box::new(e)), i + 1)
    } else if 0 <= i < s.len() && s[i] == '?' {
        postfix(s, Pattern::ZeroOrOne(Box::new(e)), i + 1)
    } else {
        (e, i)
    }
}

/// An atom at `i`.
pub open spec fn atom(s: Seq<char>, i: int) -> Parsed
    decreases s.len() - i, 0int,
{
    if i < 0 || i >= s.len() {
        Err(ParseError::EndOfInput)
    } else if s[i] == '(' {
        match alt(s, i + 1) {
            Ok((e, j)) => if i < j < s.len() && s[j] == ')' {
                Ok((e, j + 1))
            } else {
                Err(ParseError::MissingParen)
            },
            Err(k) => Err(k),
        }
    } else if s[i] == '.' {
        Ok((Pattern::Any, i + 1))
    } else if s[i] == '\\' {
        if i + 1 >= s.len() {
            Err(ParseError::EndAfterEscape)
        } else {
            match escape_of(s[i + 1]) {
                Ok(e) => Ok((e, i + 2)),
                Err(k) => Err(k),
            }
        }
    } else {
        Ok((Pattern::Char(s[i]), i + 1))
    }
}

/// What `parse` gives for the pattern `s`: the leading alternation; input
/// after it is not read.
pub open spec fn parse_spec(s: Seq<char>) -> Result<Pattern, ParseError> {
    match alt(s, 0) {
        Ok((e, _)) => Ok(e),
        Err(k) => Err(k),
    }
}

/// The patterns of a list of expressions.
pub open spec fn patterns(v: Seq<Expr>) -> Seq<Pattern> {
    v.map_values(|e: Expr| pattern_of(e))
}

/// `r` is what the parse result `p` promises, with the parser left at `pos`.
pub open spec fn outcome(r: Result<Expr, String>, p: Parsed, pos: int) -> bool {
    match p {
        Ok((e, j)) => r is Ok && pattern_of(r->Ok_0) == e && pos == j,
        Err(k) => r is Err && r->Err_0@ == error_text(k),
    }
}

/// Joining the last two items first does not change the fold.
proof fn lemma_fold_last_pair(p: Seq<Pattern>, a: Pattern, b: Pattern)
    ensures
        fold(p + seq![a, b]) == fold(p + seq![Pattern::Concat(Box::new(a), Box::new(b))]),
    decreases p.len(),
{
    let c = Pattern::Concat(Box::new(a), Box::new(b));
    if p.len() == 0 {
        assert(p + seq![a, b] =~= seq![a, b]);
        assert(p + seq![c] =~= seq![c]);
        assert(seq![a, b].drop_first() =~= seq![b]);
        assert(fold(seq![b]) == b);
        assert(fold(seq![c]) == c);
    } else {
        lemma_fold_last_pair(p.drop_first(), a, b);
        assert((p + seq![a, b]).drop_first() =~= p.drop_first() + seq![a, b]);
        assert((p + seq![c]).drop_first() =~= p.drop_first() + seq![c]);
        assert((p + seq![a, b])[0] == p[0]);
        assert((p + seq![c])[0] == p[0]);
    }
}

/// A literal character denotes itself.
proof fn lemma_pattern_char(c: char)
    ensures
        pattern_of(Expr::Char(c)) == Pattern::Char(c),
{
}

/// The expression of one literal character.
fn char_expr(c: char) -> (r: Expr)
    ensures
        pattern_of(r) == Pattern::Char(c),
{
    Expr::Char(c)
}

/// The message of an error.
fn error_message(e: ParseError) -> (r: String)
    ensures
        r@ == error_text(e),
{
    match e {
        ParseError::MissingParen => "Expected closing parenthesis".to_string(),
        ParseError::EndOfInput => "Unexpected end of input".to_string(),
        ParseError::EndAfterEscape => "Unexpected end of input after escape character".to_string(),
        ParseError::BadEscape(c) => {
            let mut m = "Invalid escape sequence: \\".to_string();
            let v: Vec<char> = vec![c];
            let t = string_from_chars(&v);
            m.append(t.as_str());
            assert(v@ =~= seq![c]);
            m
        },
    }
}

/// The pattern of the expression that a list of expressions folds to.
fn fold_exprs(v: Vec<Expr>) -> (r: Expr)
    ensures
        pattern_of(r) == fold(patterns(v@)),
{
    let ghost all = patterns(v@);
    let mut v = v;
    let mut acc = match v.pop() {
        Some(e) => e,
        None => {
            return Expr::Text(String::new());
        },
    };
    assert(all =~= patterns(v@) + seq![pattern_of(acc)]);
    while v.len() > 0
        invariant
            fold(all) == fold(patterns(v@) + seq![pattern_of(acc)]),
        decreases v.len(),
    {
        let ghost before = v@;
        let e = v.pop().unwrap();
        proof {
            assert(patterns(before) =~= patterns(v@) + seq![pattern_of(e)]);
            assert(patterns(before) + seq![pattern_of(acc)] =~= patterns(v@) + seq![pattern_of(e), pattern_of(acc)]);
            lemma_fold_last_pair(patterns(v@), pattern_of(e), pattern_of(acc));
        }
        acc = Expr::Concat(Box::new(e), Box::new(acc));
    }
    assert(patterns(v@) + seq![pattern_of(acc)] =~= seq![pattern_of(acc)]);
    acc
}

/// Moves the pending literal characters into `exprs`.
fn flush_into(exprs: &mut Vec<Expr>, text: &Vec<char>)
    ensures
        patterns(final(exprs)@) == flush(patterns(old(exprs)@), text@),
{
    let ghost before = patterns(exprs@);
    if text.len() == 1 {
        let e = char_expr(text[0]);
        exprs.push(e);
        assert(patterns(exprs@) =~= before.push(Pattern::Char(text@[0])));
    } else if text.len() > 1 {
        let t = string_from_chars(text);
        exprs.push(Expr::Text(t));
        assert(patterns(exprs@) =~= before.push(Pattern::Text(text@)));
    }
}

/// The expression that the escape `\c` stands for.
fn escape(c: char) -> (r: Result<Expr, String>)
    ensures
        match escape_of(c) {
            Ok(e) => r is Ok && pattern_of(r->Ok_0) == e,
            Err(k) => r is Err && r->Err_0@ == error_text(k),
        },
{
    match c {
        'n' => Ok(Expr::Char('\n')),
        'r' => Ok(Expr::Char('\r')),
        't' => Ok(Expr::Char('\t')),
        's' => Ok(Expr::AnyWhitespace),
        'S' => Ok(Expr::AnyNonWhitespace),
        'd' => Ok(Expr::AnyDigit),
        'D' => Ok(Expr::AnyNonDigit),
        'w' => Ok(Expr::AnyWord),
        'W' => Ok(Expr::AnyNonWord),
        '\\' | '.' | '(' | ')' | '[' | ']' | '{' | '}' | '*' | '+' | '?' | '^' | '$' | '|' => Ok(Expr::Char(c)),
        _ => Err(error_message(ParseError::BadEscape(c))),
    }
}

/// A recursive-descent parser over the characters of a pattern.
struct Parser {
    input: Vec<char>,
    pos: usize,
}

impl Parser {
    /// A parser at the start of `input`.
    fn new(input: &str) -> (r: Parser)
        ensures
            r.input@ == input@,
            r.pos == 0,
    {
        Parser { input: chars_of(input), pos: 0 }
    }

    /// The leading alternation of the input.
    fn parse(&mut self) -> (r: Result<Expr, String>)
        requires
            old(self).pos == 0,
        ensures
            outcome(r, alt(old(self).input@, 0), final(self).pos as int),
    {
        self.parse_alternate()
    }

    /// Sequences separated by `|`, grouped to the left.
    fn parse_alternate(&mut self) -> (r: Result<Expr, String>)
        requires
            old(self).pos <= old(self).input.len(),
        ensures
            final(self).input@ == old(self).input@,
            old(self).pos <= final(self).pos <= final(self).input.len(),
            outcome(r, alt(old(self).input@, old(self).pos as int), final(self).pos as int),
        decreases old(self).input.len() - old(self).pos, 5int,
    {
        let ghost s = self.input@;
        let ghost i0 = self.pos as int;
        let mut expr = match self.parse_concat() {
            Ok(e) => e,
            Err(m) => {
                return Err(m);
            },
        };
        loop
            invariant
                self.input@ == s,
                s == old(self).input@,
                i0 == old(self).pos,
                i0 <= self.pos <= self.input.len(),
                alt(s, i0) == alt_rest(s, pattern_of(expr), self.pos as int),
            ensures
                !(self.pos < s.len() && s[self.pos as int] == '|'),
            decreases self.input.len() - self.pos,
        {
            match self.peek_char() {
                Some('|') => {},
                _ => {
                    break;
                },
            }
            self.next_char();
            let right = match self.parse_concat() {
                Ok(e) => e,
                Err(m) => {
                    return Err(m);
                },
            };
            expr = Expr::Alternate(Box::new(expr), Box::new(right));
        }
        Ok(expr)
    }

    /// Items up to `)`, `|` or the end, consecutive literals joined.
    fn parse_concat(&mut self) -> (r: Result<Expr, String>)
        requires
            old(self).pos <= old(self).input.len(),
        ensures
            final(self).input@ == old(self).input@,
            old(self).pos <= final(self).pos <= final(self).input.len(),
            outcome(r, sequence(old(self).input@, old(self).pos as int), final(self).pos as int),
        decreases old(self).input.len() - old(self).pos, 3int,
    {
        let ghost s = self.input@;
        let ghost i0 = self.pos as int;
        let mut exprs: Vec<Expr> = Vec::new();
        let mut current: Vec<char> = Vec::new();
        assert(patterns(exprs@) =~= Seq::<Pattern>::empty());
        assert(current@ =~= Seq::<char>::empty());
        loop
            invariant
                self.input@ == s,
                s == old(self).input@,
                i0 == old(self).pos,
                i0 <= self.pos <= self.input.len(),
                sequence(s, i0) == seq_rest(s, patterns(exprs@), current@, self.pos as int),
            ensures
                at_sequence_end(s, self.pos as int),
            decreases self.input.len() - self.pos,
        {
            match self.peek_char() {
                None => {
                    break;
                },
                Some(c) => {
                    if c == ')' || c == '|' {
                        break;
                    }
                },
            }
            let e = match self.parse_repeat() {
                Ok(e) => e,
                Err(m) => {
                    return Err(m);
                },
            };
            match e {
                Expr::Char(ch) => {
                    current.push(ch);
                },
                _ => {
                    flush_into(&mut exprs, &current);
                    current = Vec::new();
                    let ghost before = exprs@;
                    exprs.push(e);
                    assert(patterns(exprs@) =~= patterns(before).push(pattern_of(e)));
                    assert(current@ =~= Seq::<char>::empty());
                },
            }
        }
        flush_into(&mut exprs, &current);
        Ok(fold_exprs(exprs))
    }

    /// An atom with its postfix operators.
    fn parse_repeat(&mut self) -> (r: Result<Expr, String>)
        requires
            old(self).pos <= old(self).input.len(),
        ensures
            final(self).input@ == old(self).input@,
            old(self).pos <= final(self).pos <= final(self).input.len(),
            r is Ok ==> old(self).pos < final(self).pos,
            outcome(r, repeat(old(self).input@, old(self).pos as int), final(self).pos as int),
        decreases old(self).input.len() - old(self).pos, 1int,
    {
        let ghost s = self.input@;
        let ghost i0 = self.pos as int;
        let mut expr = match self.parse_atom() {
            Ok(e) => e,
            Err(m) => {
                return Err(m);
            },
        };
        loop
            invariant
                self.input@ == s,
                s == old(self).input@,
                i0 == old(self).pos,
                i0 < self.pos <= self.input.len(),
                repeat(s, i0) == Ok::<(Pattern, int), ParseError>(postfix(s, pattern_of(expr), self.pos as int)),
            ensures
                !(self.pos < s.len() && (s[self.pos as int] == '*' || s[self.pos as int] == '+' || s[self.pos as int] == '?')),
            decreases self.input.len() - self.pos,
        {
            match self.peek_char() {
                Some('*') => {
                    self.next_char();
                    expr = Expr::ZeroOrMore(Box::new(expr));
                },
                Some('+') => {
                    self.next_char();
                    expr = Expr::OneOrMore(Box::new(expr));
                },
                Some('?') => {
                    self.next_char();
                    expr = Expr::ZeroOrOne(Box::new(expr));
                },
                _ => {
                    break;
                },
            }
        }
        Ok(expr)
    }

    /// A literal, `.`, an escape or a parenthesised group.
    fn parse_atom(&mut self) -> (r: Result<Expr, String>)
        requires
            old(self).pos <= old(self).input.len(),
        ensures
            final(self).input@ == old(self).input@,
            old(self).pos <= final(self).pos <= final(self).input.len(),
            r is Ok ==> old(self).pos < final(self).pos,
            outcome(r, atom(old(self).input@, old(self).pos as int), final(self).pos as int),
        decreases old(self).input.len() - old(self).pos, 0int,
    {
        let ghost s = self.input@;
        let ghost i = self.pos as int;
        match self.next_char() {
            Some('(') => {
                let expr = match self.parse_alternate() {
                    Ok(e) => e,
                    Err(m) => {
                        return Err(m);
                    },
                };
                let ghost j = self.pos as int;
                assert(alt(s, i + 1) == Ok::<(Pattern, int), ParseError>((pattern_of(expr), j)));
                match self.next_char() {
                    Some(')') => {
                        assert(atom(s, i) == Ok::<(Pattern, int), ParseError>((pattern_of(expr), j + 1)));
                        Ok(expr)
                    },
                    _ => Err(error_message(ParseError::MissingParen)),
                }
            },
            Some('.') => Ok(Expr::Any),
            Some('\\') => self.parse_escape(),
            Some(ch) => {
                proof {
                    lemma_pattern_char(ch);
                }
                Ok(Expr::Char(ch))
            },
            None => Err(error_message(ParseError::EndOfInput)),
        }
    }

    /// The character after a backslash.
    fn parse_escape(&mut self) -> (r: Result<Expr, String>)
        requires
            1 <= old(self).pos <= old(self).input.len(),
            old(self).input@[old(self).pos - 1] == '\\',
        ensures
            final(self).input@ == old(self).input@,
            old(self).pos <= final(self).pos <= final(self).input.len(),
            r is Ok ==> old(self).pos < final(self).pos,
            outcome(r, atom(old(self).input@, old(self).pos - 1), final(self).pos as int),
    {
        match self.next_char() {
            Some(ch) => escape(ch),
            None => Err(error_message(ParseError::EndAfterEscape)),
        }
    }

    /// The next character, left in place.
    fn peek_char(&self) -> (r: Option<char>)
        ensures
            r == (if self.pos < self.input.len() { Some(self.input@[self.pos as int]) } else { None }),
    {
        if self.pos < self.input.len() {
            Some(self.input[self.pos])
        } else {
            None
        }
    }

    /// The next character, consumed.
    fn next_char(&mut self) -> (r: Option<char>)
        requires
            old(self).pos <= old(self).input.len(),
        ensures
            final(self).input@ == old(self).input@,
            r == (if old(self).pos < old(self).input.len() { Some(old(self).input@[old(self).pos as int]) } else { None }),
            final(self).pos == if old(self).pos < old(self).input.len() { old(self).pos + 1 } else { old(self).pos as int },
    {
        if self.pos < self.input.len() {
            let c = self.input[self.pos];
            self.pos = self.pos + 1;
            Some(c)
        } else {
            None
        }
    }
}

/// Parses a regular expression.
pub fn parse(input: &str) -> (r: Result<Expr, String>)
    ensures
        match parse_spec(input@) {
            Ok(e) => r is Ok && pattern_of(r->Ok_0) == e,
            Err(k) => r is Err && r->Err_0@ == error_text(k),
        },
{
    let mut parser = Parser::new(input);
    parser.parse()
}

} // verus!
