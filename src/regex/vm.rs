//! Compiler from expressions to instructions, and the backtracking matcher.
use vstd::prelude::*;
use super::instruction::{Expr, Instruction, Pattern, size, emitted, pattern_of};
use crate::chars::{chars_of, substring, is_white_space, is_numeric, is_alphabetic, white_space, numeric, alphabetic};

verus! {

/// A sequence that starts with `a` agrees with `a` on each of its indices.
pub proof fn lemma_prefix_agrees<T>(a: Seq<T>, b: Seq<T>)
    requires
        a.len() <= b.len(),
        b.subrange(0, a.len() as int) == a,
    ensures
        forall|k: int| 0 <= k < a.len() ==> b[k] == a[k],
{
    assert forall|k: int| 0 <= k < a.len() implies b[k] == a[k] by {
        assert(b.subrange(0, a.len() as int)[k] == b[k]);
    }
}

/// Appends the code of `expr` to `program`.
pub fn compile(expr: &Expr, program: &mut Vec<Instruction>)
    ensures
        final(program).len() == old(program).len() + size(pattern_of(*expr)),
        final(program)@.subrange(0, old(program).len() as int) == old(program)@,
        emitted(
            pattern_of(*expr),
            final(program)@.subrange(old(program).len() as int, final(program).len() as int),
            old(program).len() as int,
        ),
    decreases expr,
{
    let ghost p0 = program@;
    let base = program.len();
    match expr {
        Expr::Char(c) => program.push(Instruction::Char(*c)),
        Expr::Text(s) => program.push(Instruction::Text(chars_of(s.as_str()))),
        Expr::Concat(lhs, rhs) => {
            compile(lhs, program);
            let ghost p1 = program@;
            proof { lemma_prefix_agrees(p0, p1); }
            compile(rhs, program);
            proof { lemma_prefix_agrees(p1, program@); }
            assert(program@.subrange(base as int, p1.len() as int) =~= p1.subrange(base as int, p1.len() as int));
        },
        Expr::Alternate(lhs, rhs) => {
            program.push(Instruction::Split(0, 0));
            let first = program.len();
            let ghost q0 = program@;
            compile(lhs, program);
            let ghost p1 = program@;
            proof { lemma_prefix_agrees(q0, p1); }
            let jmp = program.len();
            program.push(Instruction::Jmp(0));
            let ghost q1 = program@;
            let after_jmp = program.len();
            compile(rhs, program);
            let ghost p2 = program@;
            proof { lemma_prefix_agrees(q1, p2); }
            let end = program.len();
            program.set(base, Instruction::Split(first, after_jmp));
            program.set(jmp, Instruction::Jmp(end));
            assert(program@.subrange(base as int + 1, jmp as int) =~= p1.subrange(base as int + 1, jmp as int));
            assert(program@.subrange(after_jmp as int, end as int) =~= p2.subrange(after_jmp as int, end as int));
        },
        Expr::ZeroOrMore(inner) => {
            program.push(Instruction::Split(0, 0));
            let first = program.len();
            let ghost q0 = program@;
            compile(inner, program);
            let ghost p1 = program@;
            proof { lemma_prefix_agrees(q0, p1); }
            program.push(Instruction::Jmp(base));
            let end = program.len();
            program.set(base, Instruction::Split(first, end));
            assert(program@.subrange(base as int + 1, p1.len() as int) =~= p1.subrange(base as int + 1, p1.len() as int));
        },
        Expr::OneOrMore(inner) => {
            compile(inner, program);
            let ghost p1 = program@;
            proof { lemma_prefix_agrees(p0, p1); }
            let split = program.len();
            program.push(Instruction::Split(0, 0));
            let end = program.len();
            program.set(split, Instruction::Split(base, end));
            assert(program@.subrange(base as int, p1.len() as int) =~= p1.subrange(base as int, p1.len() as int));
        },
        Expr::ZeroOrOne(inner) => {
            program.push(Instruction::Split(0, 0));
            let first = program.len();
            let ghost q0 = program@;
            compile(inner, program);
            let ghost p1 = program@;
            proof { lemma_prefix_agrees(q0, p1); }
            let end = program.len();
            program.set(base, Instruction::Split(first, end));
            assert(program@.subrange(base as int + 1, end as int) =~= p1.subrange(base as int + 1, end as int));
        },
        Expr::Any => program.push(Instruction::Any),
        Expr::AnyWhitespace => program.push(Instruction::AnyWhitespace),
        Expr::AnyNonWhitespace => program.push(Instruction::AnyNonWhitespace),
        Expr::AnyDigit => program.push(Instruction::AnyDigit),
        Expr::AnyNonDigit => program.push(Instruction::AnyNonDigit),
        Expr::AnyWord => program.push(Instruction::AnyWord),
        Expr::AnyNonWord => program.push(Instruction::AnyNonWord),
    }
    let ghost fin = program@.subrange(base as int, program.len() as int);
    assert(program@.subrange(0, base as int) =~= p0);
    proof {
        match expr {
            Expr::Concat(l, r) => {
                assert(fin.subrange(0, size(pattern_of(**l)) as int) =~= program@.subrange(base as int, base + size(pattern_of(**l))));
                assert(fin.subrange(size(pattern_of(**l)) as int, fin.len() as int) =~= program@.subrange(base + size(pattern_of(**l)), program.len() as int));
            },
            Expr::Alternate(l, r) => {
                let j = 1 + size(pattern_of(**l)) as int;
                assert(fin.subrange(1, j) =~= program@.subrange(base + 1, base + j));
                assert(fin.subrange(j + 1, fin.len() as int) =~= program@.subrange(base + j + 1, program.len() as int));
            },
            Expr::ZeroOrMore(x) => {
                assert(fin.subrange(1, 1 + size(pattern_of(**x)) as int) =~= program@.subrange(base + 1, base + 1 + size(pattern_of(**x))));
            },
            Expr::OneOrMore(x) => {
                assert(fin.subrange(0, size(pattern_of(**x)) as int) =~= program@.subrange(base as int, base + size(pattern_of(**x))));
            },
            Expr::ZeroOrOne(x) => {
                assert(fin.subrange(1, fin.len() as int) =~= program@.subrange(base + 1, program.len() as int));
            },
            _ => {},
        }
    }
}


/// Whether a one-character instruction accepts the character `c`.
pub open spec fn accepts_char(ins: Instruction, c: char) -> bool {
    match ins {
        Instruction::Char(x) => c == x,
        Instruction::Any => true,
        Instruction::AnyWhitespace => white_space(c),
        Instruction::AnyNonWhitespace => !white_space(c),
        Instruction::AnyDigit => numeric(c),
        Instruction::AnyNonDigit => !numeric(c),
        Instruction::AnyWord => alphabetic(c),
        Instruction::AnyNonWord => !alphabetic(c),
        _ => false,
    }
}

/// One move of a matcher thread: from `(p, t)` (program counter, character
/// cursor) to `(p2, t2)`. `Match` has no successor; `Split` has two.
pub open spec fn step(prog: Seq<Instruction>, inp: Seq<char>, p: int, t: int, p2: int, t2: int) -> bool {
    &&& 0 <= p < prog.len()
    &&& 0 <= t <= inp.len()
    &&& match prog[p] {
        Instruction::Match => false,
        Instruction::Jmp(a) => p2 == a && t2 == t,
        Instruction::Split(a, b) => (p2 == a || p2 == b) && t2 == t,
        Instruction::Text(s) => {
            &&& t + s@.len() <= inp.len()
            &&& inp.subrange(t, t + s@.len()) == s@
            &&& p2 == p + 1
            &&& t2 == t + s@.len()
        },
        _ => t < inp.len() && accepts_char(prog[p], inp[t]) && p2 == p + 1 && t2 == t + 1,
    }
}

/// The thread `(p, t)` is reached in `m` moves from the thread that starts at
/// instruction 0 with the cursor at `start`.
pub open spec fn reach_n(prog: Seq<Instruction>, inp: Seq<char>, start: int, p: int, t: int, m: nat) -> bool
    decreases m,
{
    if m == 0 {
        p == 0 && t == start
    } else {
        exists|q: int, u: int|
            reach_n(prog, inp, start, q, u, (m - 1) as nat) && #[trigger] step(prog, inp, q, u, p, t)
    }
}

/// The thread `(p, t)` is reached from the start thread in some number of moves.
pub open spec fn reachable(prog: Seq<Instruction>, inp: Seq<char>, start: int, p: int, t: int) -> bool {
    exists|m: nat| reach_n(prog, inp, start, p, t, m)
}

/// Some run of `prog` from cursor `start` reaches a `Match` with the cursor at `k`.
pub open spec fn accepts_at(prog: Seq<Instruction>, inp: Seq<char>, start: int, k: int) -> bool {
    exists|p: int|
        0 <= p < prog.len() && prog[p] is Match && #[trigger] reachable(prog, inp, start, p, k)
}

/// Some run of `prog` from cursor `start` reaches a `Match`.
pub open spec fn accepts(prog: Seq<Instruction>, inp: Seq<char>, start: int) -> bool {
    exists|k: int| accepts_at(prog, inp, start, k)
}

/// Number of unset flags in `s`.
pub open spec fn count_false(s: Seq<bool>) -> nat
    decreases s.len(),
{
    if s.len() == 0 {
        0
    } else {
        count_false(s.drop_last()) + if s.last() { 0nat } else { 1nat }
    }
}

/// Number of unset flags over all rows.
pub open spec fn total_false(rows: Seq<Seq<bool>>) -> nat
    decreases rows.len(),
{
    if rows.len() == 0 {
        0
    } else {
        total_false(rows.drop_last()) + count_false(rows.last())
    }
}

/// The flags of each row of a table.
pub open spec fn rows(v: Seq<Vec<bool>>) -> Seq<Seq<bool>> {
    v.map_values(|r: Vec<bool>| r@)
}

/// The threads of a stack, with integer fields.
pub open spec fn pairs(v: Seq<(usize, usize)>) -> Seq<(int, int)> {
    v.map_values(|e: (usize, usize)| (e.0 as int, e.1 as int))
}

/// The depth-first search of the matcher from the threads of `stack`, the
/// last one first, where `vis` marks the threads already explored (one row
/// per instruction, one flag per cursor). Each explored thread is marked;
/// its successors are stacked so that the first target of a `Split` comes
/// out first. The result is the cursor of the first `Match` reached.
pub open spec fn search(prog: Seq<Instruction>, inp: Seq<char>, stack: Seq<(int, int)>, vis: Seq<Seq<bool>>) -> Option<int>
    decreases 2 * total_false(vis) + stack.len(),
    via search_decreases
{
    if stack.len() == 0 {
        None
    } else {
        let pc = stack.last().0;
        let tc = stack.last().1;
        let rest = stack.drop_last();
        if !(0 <= pc < prog.len() && pc < vis.len() && 0 <= tc < vis[pc].len()) || vis[pc][tc] {
            search(prog, inp, rest, vis)
        } else {
            let vis2 = vis.update(pc, vis[pc].update(tc, true));
            match prog[pc] {
                Instruction::Match => Some(tc),
                Instruction::Jmp(a) => search(prog, inp, rest.push((a as int, tc)), vis2),
                Instruction::Split(a, b) => search(prog, inp, rest.push((b as int, tc)).push((a as int, tc)), vis2),
                Instruction::Text(x) => if tc + x@.len() <= inp.len() && inp.subrange(tc, tc + x@.len()) == x@ {
                    search(prog, inp, rest.push((pc + 1, tc + x@.len())), vis2)
                } else {
                    search(prog, inp, rest, vis2)
                },
                _ => if tc < inp.len() && accepts_char(prog[pc], inp[tc]) {
                    search(prog, inp, rest.push((pc + 1, tc + 1)), vis2)
                } else {
                    search(prog, inp, rest, vis2)
                },
            }
        }
    }
}

/// Each explored thread sets one flag, so the search ends.
#[via_fn]
proof fn search_decreases(prog: Seq<Instruction>, inp: Seq<char>, stack: Seq<(int, int)>, vis: Seq<Seq<bool>>) {
    if stack.len() > 0 {
        let pc = stack.last().0;
        let tc = stack.last().1;
        if (0 <= pc < prog.len() && pc < vis.len() && 0 <= tc < vis[pc].len()) && !vis[pc][tc] {
            lemma_count_false_set(vis[pc], tc);
            lemma_total_false_set(vis, pc, vis[pc].update(tc, true));
        }
    }
}

/// The table of a search that has explored nothing.
pub open spec fn fresh(p: nat, n: nat) -> Seq<Seq<bool>> {
    Seq::new(p, |i: int| Seq::new(n + 1, |j: int| false))
}

/// The cursor where the matcher stops on `inp` from `start`: the search from
/// the single thread at instruction 0.
pub open spec fn first_match(prog: Seq<Instruction>, inp: Seq<char>, start: int) -> Option<int> {
    search(prog, inp, seq![(0int, start)], fresh(prog.len(), inp.len()))
}

/// Setting an unset flag leaves one fewer unset.
proof fn lemma_count_false_set(s: Seq<bool>, i: int)
    requires
        0 <= i < s.len(),
        !s[i],
    ensures
        count_false(s.update(i, true)) + 1 == count_false(s),
    decreases s.len(),
{
    let u = s.update(i, true);
    if i == s.len() - 1 {
        assert(u.drop_last() =~= s.drop_last());
    } else {
        assert(u.drop_last() =~= s.drop_last().update(i, true));
        lemma_count_false_set(s.drop_last(), i);
    }
}

/// Setting an unset flag in one row leaves one fewer unset in the table.
proof fn lemma_total_false_set(rows: Seq<Seq<bool>>, i: int, r: Seq<bool>)
    requires
        0 <= i < rows.len(),
        count_false(r) + 1 == count_false(rows[i]),
    ensures
        total_false(rows.update(i, r)) + 1 == total_false(rows),
    decreases rows.len(),
{
    let u = rows.update(i, r);
    if i == rows.len() - 1 {
        assert(u.drop_last() =~= rows.drop_last());
    } else {
        assert(u.drop_last() =~= rows.drop_last().update(i, r));
        lemma_total_false_set(rows.drop_last(), i, r);
    }
}

/// The thread `(p, t)` has been explored.
pub open spec fn seen(visited: Seq<Vec<bool>>, p: int, t: int) -> bool {
    &&& 0 <= p < visited.len()
    &&& 0 <= t < visited[p]@.len()
    &&& visited[p]@[t]
}

/// Some entry of `stack` is the thread `(p, t)`.
pub open spec fn on_stack(stack: Seq<(usize, usize)>, p: int, t: int) -> bool {
    exists|i: int| 0 <= i < stack.len() && stack[i].0 == p && stack[i].1 == t
}

/// A move from a reachable thread leads to a reachable thread.
proof fn lemma_reach_step(prog: Seq<Instruction>, inp: Seq<char>, start: int, q: int, u: int, p: int, t: int)
    requires
        reachable(prog, inp, start, q, u),
        step(prog, inp, q, u, p, t),
    ensures
        reachable(prog, inp, start, p, t),
{
    let m = choose|m: nat| reach_n(prog, inp, start, q, u, m);
    assert(reach_n(prog, inp, start, p, t, m + 1));
}

/// With nothing left to explore, every reachable thread has been explored or
/// stands outside the program.
proof fn lemma_explored(
    prog: Seq<Instruction>,
    inp: Seq<char>,
    start: int,
    visited: Seq<Vec<bool>>,
    p: int,
    t: int,
    m: nat,
)
    requires
        visited.len() == prog.len(),
        seen(visited, 0, start) || prog.len() == 0,
        forall|q: int, u: int, q2: int, u2: int|
            seen(visited, q, u) && #[trigger] step(prog, inp, q, u, q2, u2) ==> seen(visited, q2, u2)
                || q2 >= prog.len(),
        reach_n(prog, inp, start, p, t, m),
    ensures
        seen(visited, p, t) || p >= prog.len(),
    decreases m,
{
    if m > 0 {
        let (q, u) = choose|q: int, u: int|
            reach_n(prog, inp, start, q, u, (m - 1) as nat) && #[trigger] step(prog, inp, q, u, p, t);
        lemma_explored(prog, inp, start, visited, q, u, (m - 1) as nat);
    }
}

/// The threads of `stack` whose cursor is at most `k`, in order.
pub open spec fn below(stack: Seq<(int, int)>, k: int) -> Seq<(int, int)>
    decreases stack.len(),
{
    if stack.len() == 0 {
        Seq::empty()
    } else if stack.last().1 <= k {
        below(stack.drop_last(), k).push(stack.last())
    } else {
        below(stack.drop_last(), k)
    }
}

/// The search on `s` that ends at `k` and the search on the first `k`
/// characters take the same steps on threads whose cursor is at most `k`;
/// the others never reach `Match` before `k` is found.
proof fn lemma_search_on_prefix(
    prog: Seq<Instruction>,
    s: Seq<char>,
    k: int,
    st: Seq<(int, int)>,
    vs: Seq<Seq<bool>>,
    vp: Seq<Seq<bool>>,
)
    requires
        search(prog, s, st, vs) == Some(k),
        0 <= k <= s.len(),
        vs.len() == prog.len(),
        vp.len() == prog.len(),
        forall|p: int| 0 <= p < prog.len() ==> (#[trigger] vs[p]).len() == s.len() + 1 && vp[p].len() == k + 1,
        forall|p: int, t: int| 0 <= p < prog.len() && 0 <= t <= k ==> (#[trigger] vp[p][t]) == vs[p][t],
    ensures
        search(prog, s.subrange(0, k), below(st, k), vp) == Some(k),
    decreases 2 * total_false(vs) + st.len(),
{
    if st.len() == 0 {
        assert(search(prog, s, st, vs) is None);
    }
    let pre = s.subrange(0, k);
    let pc = st.last().0;
    let tc = st.last().1;
    let rest = st.drop_last();
    let bp = below(st, k);
    let live = 0 <= pc < prog.len() && pc < vs.len() && 0 <= tc < vs[pc].len() && !vs[pc][tc];
    if live {
        lemma_count_false_set(vs[pc], tc);
        lemma_total_false_set(vs, pc, vs[pc].update(tc, true));
    }
    let vs2 = vs.update(pc, vs[pc].update(tc, true));
    if tc > k {
        assert(bp == below(rest, k));
        if !live {
            lemma_search_on_prefix(prog, s, k, rest, vs, vp);
        } else {
            assert forall|p: int, t: int| 0 <= p < prog.len() && 0 <= t <= k implies (#[trigger] vp[p][t]) == vs2[p][t] by {}
            assert forall|p: int| 0 <= p < prog.len() implies (#[trigger] vs2[p]).len() == s.len() + 1 && vp[p].len() == k + 1 by {}
            match prog[pc] {
                Instruction::Match => {
                    assert(search(prog, s, st, vs) == Some(tc));
                },
                Instruction::Jmp(a) => {
                    let ns = rest.push((a as int, tc));
                    assert(ns.drop_last() =~= rest);
                    assert(below(ns, k) == below(rest, k));
                    lemma_search_on_prefix(prog, s, k, ns, vs2, vp);
                },
                Instruction::Split(a, b) => {
                    let n1 = rest.push((b as int, tc));
                    let ns = n1.push((a as int, tc));
                    assert(ns.drop_last() =~= n1);
                    assert(n1.drop_last() =~= rest);
                    assert(below(n1, k) == below(rest, k));
                    assert(below(ns, k) == below(rest, k));
                    lemma_search_on_prefix(prog, s, k, ns, vs2, vp);
                },
                Instruction::Text(x) => {
                    if tc + x@.len() <= s.len() && s.subrange(tc, tc + x@.len()) == x@ {
                        let ns = rest.push((pc + 1, tc + x@.len()));
                        assert(ns.drop_last() =~= rest);
                        assert(below(ns, k) == below(rest, k));
                        lemma_search_on_prefix(prog, s, k, ns, vs2, vp);
                    } else {
                        lemma_search_on_prefix(prog, s, k, rest, vs2, vp);
                    }
                },
                _ => {
                    if tc < s.len() && accepts_char(prog[pc], s[tc]) {
                        let ns = rest.push((pc + 1, tc + 1));
                        assert(ns.drop_last() =~= rest);
                        assert(below(ns, k) == below(rest, k));
                        lemma_search_on_prefix(prog, s, k, ns, vs2, vp);
                    } else {
                        lemma_search_on_prefix(prog, s, k, rest, vs2, vp);
                    }
                },
            }
        }
    } else {
        assert(bp.last() == (pc, tc));
        assert(bp.drop_last() =~= below(rest, k));
        assert(bp.len() > 0);
        if !live {
            lemma_search_on_prefix(prog, s, k, rest, vs, vp);
            assert(search(prog, pre, bp, vp) == search(prog, pre, below(rest, k), vp));
        } else {
            let vp2 = vp.update(pc, vp[pc].update(tc, true));
            assert forall|p: int, t: int| 0 <= p < prog.len() && 0 <= t <= k implies (#[trigger] vp2[p][t]) == vs2[p][t] by {}
            assert forall|p: int| 0 <= p < prog.len() implies (#[trigger] vs2[p]).len() == s.len() + 1 && vp2[p].len() == k + 1 by {}
            match prog[pc] {
                Instruction::Match => {
                    assert(search(prog, pre, bp, vp) == Some(tc));
                },
                Instruction::Jmp(a) => {
                    let ns = rest.push((a as int, tc));
                    assert(ns.drop_last() =~= rest);
                    assert(below(ns, k) =~= below(rest, k).push((a as int, tc)));
                    lemma_search_on_prefix(prog, s, k, ns, vs2, vp2);
                    assert(search(prog, pre, bp, vp) == search(prog, pre, below(ns, k), vp2));
                },
                Instruction::Split(a, b) => {
                    let n1 = rest.push((b as int, tc));
                    let ns = n1.push((a as int, tc));
                    assert(ns.drop_last() =~= n1);
                    assert(n1.drop_last() =~= rest);
                    assert(below(n1, k) =~= below(rest, k).push((b as int, tc)));
                    assert(below(ns, k) =~= below(n1, k).push((a as int, tc)));
                    lemma_search_on_prefix(prog, s, k, ns, vs2, vp2);
                    assert(search(prog, pre, bp, vp) == search(prog, pre, below(ns, k), vp2));
                },
                Instruction::Text(x) => {
                    let l = x@.len() as int;
                    if tc + l <= k {
                        assert(pre.subrange(tc, tc + l) =~= s.subrange(tc, tc + l));
                    }
                    if tc + l <= s.len() && s.subrange(tc, tc + l) == x@ {
                        let ns = rest.push((pc + 1, tc + l));
                        assert(ns.drop_last() =~= rest);
                        if tc + l <= k {
                            assert(below(ns, k) =~= below(rest, k).push((pc + 1, tc + l)));
                        } else {
                            assert(below(ns, k) =~= below(rest, k));
                        }
                        lemma_search_on_prefix(prog, s, k, ns, vs2, vp2);
                        assert(search(prog, pre, bp, vp) == search(prog, pre, below(ns, k), vp2));
                    } else {
                        lemma_search_on_prefix(prog, s, k, rest, vs2, vp2);
                        assert(search(prog, pre, bp, vp) == search(prog, pre, below(rest, k), vp2));
                    }
                },
                _ => {
                    if tc < k {
                        assert(pre[tc] == s[tc]);
                    }
                    if tc < s.len() && accepts_char(prog[pc], s[tc]) {
                        let ns = rest.push((pc + 1, tc + 1));
                        assert(ns.drop_last() =~= rest);
                        if tc < k {
                            assert(below(ns, k) =~= below(rest, k).push((pc + 1, tc + 1)));
                        } else {
                            assert(below(ns, k) =~= below(rest, k));
                        }
                        lemma_search_on_prefix(prog, s, k, ns, vs2, vp2);
                    } else {
                        lemma_search_on_prefix(prog, s, k, rest, vs2, vp2);
                    }
                },
            }
        }
    }
}

/// The cursor where a search stops lies inside the table.
proof fn lemma_search_bound(prog: Seq<Instruction>, inp: Seq<char>, st: Seq<(int, int)>, vis: Seq<Seq<bool>>, k: int)
    requires
        search(prog, inp, st, vis) == Some(k),
        forall|p: int| 0 <= p < vis.len() ==> (#[trigger] vis[p]).len() == inp.len() + 1,
    ensures
        0 <= k <= inp.len(),
    decreases 2 * total_false(vis) + st.len(),
{
    let pc = st.last().0;
    let tc = st.last().1;
    let rest = st.drop_last();
    let live = 0 <= pc < prog.len() && pc < vis.len() && 0 <= tc < vis[pc].len() && !vis[pc][tc];
    if !live {
        lemma_search_bound(prog, inp, rest, vis, k);
    } else {
        lemma_count_false_set(vis[pc], tc);
        lemma_total_false_set(vis, pc, vis[pc].update(tc, true));
        let v2 = vis.update(pc, vis[pc].update(tc, true));
        assert forall|p: int| 0 <= p < v2.len() implies (#[trigger] v2[p]).len() == inp.len() + 1 by {}
        match prog[pc] {
            Instruction::Match => {},
            Instruction::Jmp(a) => {
                lemma_search_bound(prog, inp, rest.push((a as int, tc)), v2, k);
            },
            Instruction::Split(a, b) => {
                lemma_search_bound(prog, inp, rest.push((b as int, tc)).push((a as int, tc)), v2, k);
            },
            Instruction::Text(x) => {
                if tc + x@.len() <= inp.len() && inp.subrange(tc, tc + x@.len()) == x@ {
                    lemma_search_bound(prog, inp, rest.push((pc + 1, tc + x@.len())), v2, k);
                } else {
                    lemma_search_bound(prog, inp, rest, v2, k);
                }
            },
            _ => {
                if tc < inp.len() && accepts_char(prog[pc], inp[tc]) {
                    lemma_search_bound(prog, inp, rest.push((pc + 1, tc + 1)), v2, k);
                } else {
                    lemma_search_bound(prog, inp, rest, v2, k);
                }
            },
        }
    }
}

/// Matching again on what a program matched gives the same prefix back.
pub proof fn lemma_match_idempotent(prog: Seq<Instruction>, s: Seq<char>, k: int)
    requires
        first_match(prog, s, 0) == Some(k),
    ensures
        0 <= k <= s.len(),
        first_match(prog, s.subrange(0, k), 0) == Some(k),
{
    let vs = fresh(prog.len(), s.len());
    lemma_search_bound(prog, s, seq![(0int, 0int)], vs, k);
    let pre = s.subrange(0, k);
    let vp = fresh(prog.len(), pre.len());
    let st = seq![(0int, 0int)];
    assert(st.drop_last() =~= Seq::<(int, int)>::empty());
    assert(below(Seq::<(int, int)>::empty(), k) =~= Seq::<(int, int)>::empty());
    assert(below(st, k) == below(st.drop_last(), k).push(st.last()));
    assert(below(st, k) =~= st);
    lemma_search_on_prefix(prog, s, k, st, vs, vp);
}

/// Whether `text` occurs in `chars` at index `at`.
fn text_at(chars: &Vec<char>, at: usize, text: &Vec<char>) -> (r: bool)
    requires
        at <= chars.len(),
    ensures
        r == (at + text@.len() <= chars@.len() && chars@.subrange(at as int, at + text@.len()) == text@),
{
    if text.len() > chars.len() - at {
        return false;
    }
    let mut i: usize = 0;
    while i < text.len()
        invariant
            at + text@.len() <= chars@.len(),
            at <= chars.len(),
            i <= text.len(),
            forall|j: int| 0 <= j < i ==> chars@[at + j] == text@[j],
        decreases text@.len() - i,
    {
        if chars[at + i] != text[i] {
            assert(chars@.subrange(at as int, at + text@.len())[i as int] != text@[i as int]);
            return false;
        }
        i += 1;
    }
    assert(chars@.subrange(at as int, at + text@.len()) =~= text@);
    true
}

/// Whether a one-character instruction accepts `c`.
fn char_accepted(ins: &Instruction, c: char) -> (r: bool)
    ensures
        r == accepts_char(*ins, c),
{
    match ins {
        Instruction::Char(x) => c == *x,
        Instruction::Any => true,
        Instruction::AnyWhitespace => is_white_space(c),
        Instruction::AnyNonWhitespace => !is_white_space(c),
        Instruction::AnyDigit => is_numeric(c),
        Instruction::AnyNonDigit => !is_numeric(c),
        Instruction::AnyWord => is_alphabetic(c),
        Instruction::AnyNonWord => !is_alphabetic(c),
        _ => false,
    }
}

/// Runs `program` on `chars` from cursor `start`, exploring threads depth
/// first with the first target of each `Split` preferred. Returns the cursor
/// of the first `Match` reached, or `None` when no run reaches one. A thread
/// that was already explored is not explored again, which keeps the run
/// finite on programs that loop without consuming input.
pub fn run(program: &[Instruction], chars: &Vec<char>, start: usize) -> (r: Option<usize>)
    requires
        start <= chars.len(),
    ensures
        match r {
            Some(k) => start <= k <= chars.len() && accepts_at(program@, chars@, start as int, k as int),
            None => !accepts(program@, chars@, start as int),
        },
        match r {
            Some(k) => first_match(program@, chars@, start as int) == Some(k as int),
            None => first_match(program@, chars@, start as int) is None,
        },
{
    let plen = program.len();
    let n = chars.len();
    let mut visited: Vec<Vec<bool>> = Vec::new();
    while visited.len() < plen
        invariant
            visited.len() <= plen,
            forall|q: int| 0 <= q < visited.len() ==> (#[trigger] visited@[q])@ == Seq::new((n + 1) as nat, |i: int| false),
        decreases plen - visited.len(),
    {
        let mut row: Vec<bool> = Vec::new();
        while row.len() <= n
            invariant
                row.len() <= n + 1,
                row@ == Seq::new(row.len() as nat, |i: int| false),
            decreases n + 1 - row.len(),
        {
            row.push(false);
            assert(row@ =~= Seq::new(row.len() as nat, |i: int| false));
        }
        visited.push(row);
    }
    let mut stack: Vec<(usize, usize)> = Vec::new();
    stack.push((0, start));
    assert(stack@[0] == (0usize, start));
    assert(on_stack(stack@, 0, start as int));
    assert(reach_n(program@, chars@, start as int, 0, start as int, 0));
    assert(rows(visited@) =~= fresh(plen as nat, n as nat));
    assert(pairs(stack@) =~= seq![(0int, start as int)]);
    loop
        invariant
            first_match(program@, chars@, start as int) == search(program@, chars@, pairs(stack@), rows(visited@)),
            start <= n == chars.len(),
            plen == program.len(),
            visited.len() == plen,
            forall|q: int| 0 <= q < plen ==> (#[trigger] visited@[q])@.len() == n + 1,
            forall|i: int| 0 <= i < stack.len() ==> start <= (#[trigger] stack@[i]).1 <= n,
            forall|i: int|
                0 <= i < stack.len() ==> reachable(program@, chars@, start as int, (#[trigger] stack@[i]).0 as int, stack@[i].1 as int),
            forall|q: int, u: int| #[trigger] seen(visited@, q, u) ==> start <= u && reachable(program@, chars@, start as int, q, u),
            forall|q: int, u: int| #[trigger] seen(visited@, q, u) ==> !(program@[q] is Match),
            seen(visited@, 0, start as int) || on_stack(stack@, 0, start as int) || plen == 0,
            forall|q: int, u: int, q2: int, u2: int|
                seen(visited@, q, u) && #[trigger] step(program@, chars@, q, u, q2, u2) ==> seen(visited@, q2, u2)
                    || q2 >= plen || on_stack(stack@, q2, u2),
        decreases 2 * total_false(rows(visited@)) + stack.len(),
    {
        let ghost st0 = stack@;
        let ghost vis0 = visited@;
        let top = stack.pop();
        let (pc, tc) = match top {
            None => {
                proof {
                    assert forall|k: int| !accepts_at(program@, chars@, start as int, k) by {
                        assert forall|q: int|
                            0 <= q < program@.len() && program@[q] is Match implies !#[trigger] reachable(program@, chars@, start as int, q, k) by {
                            if reachable(program@, chars@, start as int, q, k) {
                                let m = choose|m: nat| reach_n(program@, chars@, start as int, q, k, m);
                                lemma_explored(program@, chars@, start as int, visited@, q, k, m);
                            }
                        }
                    }
                }
                return None;
            },
            Some(st) => st,
        };
        assert(stack@ == st0.drop_last());
        assert(st0[st0.len() - 1] == (pc, tc));
        assert(pairs(stack@) =~= pairs(st0).drop_last());
        assert(pairs(st0).last() == (pc as int, tc as int));
        assert forall|q: int, u: int| on_stack(st0, q, u) implies on_stack(stack@, q, u) || (q == pc && u == tc) by {
            let i = choose|i: int| 0 <= i < st0.len() && st0[i].0 == q && st0[i].1 == u;
            if i < stack.len() {
                assert(stack@[i] == st0[i]);
            }
        }
        assert(reachable(program@, chars@, start as int, pc as int, tc as int));
        assert(start <= tc <= n);
        if pc < plen && !visited[pc][tc] {
            let mut row: Vec<bool> = Vec::new();
            visited.set_and_swap(pc, &mut row);
            proof {
                lemma_count_false_set(row@, tc as int);
                assert(row@ == rows(vis0)[pc as int]);
            }
            row.set(tc, true);
            visited.set_and_swap(pc, &mut row);
            proof {
                assert(visited@ == vis0.update(pc as int, visited@[pc as int]));
                assert(visited@[pc as int]@ == vis0[pc as int]@.update(tc as int, true));
                assert(rows(visited@) =~= rows(vis0).update(pc as int, rows(vis0)[pc as int].update(tc as int, true)));
                lemma_total_false_set(rows(vis0), pc as int, visited@[pc as int]@);
            }
            let ghost st1 = stack@;
            match &program[pc] {
                Instruction::Match => {
                    assert(accepts_at(program@, chars@, start as int, tc as int));
                    return Some(tc);
                },
                Instruction::Jmp(a) => {
                    stack.push((*a, tc));
                },
                Instruction::Split(a, b) => {
                    stack.push((*b, tc));
                    stack.push((*a, tc));
                },
                Instruction::Text(s) => {
                    if text_at(chars, tc, s) {
                        stack.push((pc + 1, tc + s.len()));
                    }
                },
                _ => {
                    if tc < n && char_accepted(&program[pc], chars[tc]) {
                        stack.push((pc + 1, tc + 1));
                    }
                },
            }
            assert(!(program@[pc as int] is Match));
            proof {
                match program@[pc as int] {
                    Instruction::Jmp(a) => {
                        assert(pairs(stack@) =~= pairs(st1).push((a as int, tc as int)));
                    },
                    Instruction::Split(a, b) => {
                        assert(pairs(stack@) =~= pairs(st1).push((b as int, tc as int)).push((a as int, tc as int)));
                    },
                    Instruction::Text(x) => {
                        if stack.len() > st1.len() {
                            assert(pairs(stack@) =~= pairs(st1).push((pc + 1, tc + x@.len())));
                        }
                    },
                    _ => {
                        if stack.len() > st1.len() {
                            assert(pairs(stack@) =~= pairs(st1).push((pc + 1, tc + 1)));
                        }
                    },
                }
            }
            proof {
                assert forall|i: int| 0 <= i < st1.len() implies stack@[i] == st1[i] by {}
                assert forall|i: int| st1.len() <= i < stack.len() implies
                    step(program@, chars@, pc as int, tc as int, stack@[i].0 as int, stack@[i].1 as int) by {}
                assert forall|i: int| 0 <= i < stack.len() implies
                    reachable(program@, chars@, start as int, (#[trigger] stack@[i]).0 as int, stack@[i].1 as int) by {
                    if i >= st1.len() {
                        lemma_reach_step(program@, chars@, start as int, pc as int, tc as int, stack@[i].0 as int, stack@[i].1 as int);
                    }
                }
                assert forall|q2: int, u2: int| #[trigger] step(program@, chars@, pc as int, tc as int, q2, u2)
                    implies q2 >= plen || on_stack(stack@, q2, u2) by {
                    if program@[pc as int] is Split {
                        if q2 == stack@[stack.len() - 1].0 {
                            assert(on_stack(stack@, q2, u2));
                        } else {
                            assert(stack@[stack.len() - 2].0 == q2);
                            assert(on_stack(stack@, q2, u2));
                        }
                    } else {
                        assert(stack@[stack.len() - 1].0 == q2);
                        assert(on_stack(stack@, q2, u2));
                    }
                }
            }
        }
        proof {
            assert forall|q: int, u: int| #[trigger] seen(visited@, q, u) implies start <= u
                && reachable(program@, chars@, start as int, q, u) && !(program@[q] is Match) by {
                if !(q == pc && u == tc) {
                    assert(seen(vis0, q, u));
                }
            }
            assert forall|q: int, u: int| on_stack(st0, q, u) implies on_stack(stack@, q, u) || seen(visited@, q, u) || q >= plen by {
                let i = choose|i: int| 0 <= i < st0.len() && st0[i].0 == q && st0[i].1 == u;
                if i < st0.len() - 1 {
                    assert(stack@[i] == st0[i]);
                }
            }
        }
    }
}

/// Runs `program` on `input` from its first character; the matched prefix.
pub fn execute(program: &[Instruction], input: &str) -> (r: Option<String>)
    ensures
        match r {
            Some(m) => m@.len() <= input@.len() && m@ == input@.subrange(0, m@.len() as int)
                && accepts_at(program@, input@, 0, m@.len() as int)
                && first_match(program@, input@, 0) == Some(m@.len() as int),
            None => !accepts(program@, input@, 0) && first_match(program@, input@, 0) is None,
        },
{
    let chars = chars_of(input);
    match run(program, &chars, 0) {
        Some(k) => Some(substring(input, 0, k)),
        None => None,
    }
}

} // verus!
