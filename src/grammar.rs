//! The infix grammar of expressions, and what the tree builder makes of every
//! sentence of it.
use crate::lexer::Tok;
use crate::parser::{build_spec, close_paren, finish, fold, is_arith, operator_of, push_operator, run, step_spec, tier, Expr, Operator, Stacks};
use vstd::prelude::*;

verus! {

/// A sentence of the grammar as it was written: literals, parenthesized
/// groups, and binary operators between two operands.
pub enum Syntax {
    Lit(Seq<char>),
    Group(Box<Syntax>),
    Apply(Box<Syntax>, Operator, Box<Syntax>),
}

/// The token of a binary operator.
pub open spec fn token_of(op: Operator) -> Tok {
    match op {
        Operator::Add => Tok::Plus,
        Operator::Sub => Tok::Minus,
        Operator::Mul => Tok::Mul,
        Operator::Div => Tok::Div,
        Operator::Exp => Tok::Exp,
        Operator::Lparen => Tok::LParen,
        Operator::RParen => Tok::RParen,
    }
}

/// The tokens that spell a sentence.
pub open spec fn tokens_of(e: Syntax) -> Seq<Tok>
    decreases e,
{
    match e {
        Syntax::Lit(s) => seq![Tok::Num(s)],
        Syntax::Group(a) => seq![Tok::LParen] + tokens_of(*a) + seq![Tok::RParen],
        Syntax::Apply(a, op, b) => tokens_of(*a) + seq![token_of(op)] + tokens_of(*b),
    }
}

/// How tightly a sentence holds together at its top level: the tier of its
/// outermost operator; a literal or a group is tighter than every operator.
pub open spec fn binding(e: Syntax) -> int {
    match e {
        Syntax::Apply(_, op, _) => tier(op),
        _ => 4,
    }
}

/// A sentence whose operators are placed as precedence reads them: an operand
/// on the left binds at least as tightly as its operator (operators of one
/// tier group to the left), an operand on the right binds strictly tighter.
pub open spec fn grammatical(e: Syntax) -> bool
    decreases e,
{
    match e {
        Syntax::Lit(_) => true,
        Syntax::Group(a) => grammatical(*a),
        Syntax::Apply(a, op, b) => {
            &&& is_arith(op)
            &&& grammatical(*a)
            &&& grammatical(*b)
            &&& binding(*a) >= tier(op)
            &&& binding(*b) > tier(op)
        },
    }
}

/// The tree that a sentence stands for: groups vanish, each operator joins
/// its two operands.
pub open spec fn meaning(e: Syntax) -> Expr
    decreases e,
{
    match e {
        Syntax::Lit(s) => Expr::Num(s),
        Syntax::Group(a) => meaning(*a),
        Syntax::Apply(a, op, b) => Expr::Bin(Box::new(meaning(*a)), Box::new(meaning(*b)), op),
    }
}

/// What may follow an operand whose top level binds at `b`: the end of
/// input, a close parenthesis, or an operator that binds no tighter.
pub open spec fn ends_operand(rest: Seq<Tok>, b: int) -> bool {
    ||| rest.len() == 0
    ||| rest[0] is RParen
    ||| (operator_of(rest[0]) is Some && tier(operator_of(rest[0])->0) <= b)
}

proof fn lemma_run_cons(t: Tok, rest: Seq<Tok>, st: Stacks)
    ensures
        run(seq![t] + rest, st) == match step_spec(t, st) {
            None => Err(()),
            Some(next) => run(rest, next),
        },
{
    assert((seq![t] + rest).drop_first() =~= rest);
}

/// An operator with both operands on the stacks is folded by whatever ends
/// the operand on its right, so folding it at once changes nothing.
proof fn lemma_fold_early(rest: Seq<Tok>, out: Seq<Expr>, ops: Seq<Operator>, l: Expr, r: Expr, op: Operator)
    requires
        is_arith(op),
        ends_operand(rest, tier(op)),
    ensures
        run(rest, Stacks { output: out.push(l).push(r), ops: ops.push(op) }) == run(
            rest,
            Stacks { output: out.push(Expr::Bin(Box::new(l), Box::new(r), op)), ops },
        ),
{
    let lo = Stacks { output: out.push(l).push(r), ops: ops.push(op) };
    let hi = Stacks { output: out.push(Expr::Bin(Box::new(l), Box::new(r), op)), ops };
    let n = lo.output.len();
    assert(lo.output.take(n - 2) =~= out);
    assert(lo.output[n - 2] == l);
    assert(lo.output[n - 1] == r);
    assert(lo.ops.drop_last() =~= ops);
    assert(fold(lo) == Some(hi));
    if rest.len() > 0 {
        if rest[0] is RParen {
            assert(close_paren(lo) == close_paren(hi));
        } else {
            let inc = operator_of(rest[0])->0;
            assert(push_operator(inc, lo) == push_operator(inc, hi));
        }
        assert(step_spec(rest[0], lo) == step_spec(rest[0], hi));
    } else {
        assert(finish(lo) == finish(hi));
    }
}

/// Reading a grammatical operand leaves its tree on the output stack, as far
/// as the rest of the parse can tell, provided the operator below it binds
/// looser and what follows ends it.
proof fn lemma_operand(e: Syntax, st: Stacks, rest: Seq<Tok>)
    requires
        grammatical(e),
        st.ops.len() == 0 || tier(st.ops.last()) < binding(e),
        ends_operand(rest, binding(e)),
    ensures
        run(tokens_of(e) + rest, st) == run(
            rest,
            Stacks { output: st.output.push(meaning(e)), ops: st.ops },
        ),
    decreases e,
{
    match e {
        Syntax::Lit(s) => {
            lemma_run_cons(Tok::Num(s), rest, st);
        },
        Syntax::Group(a) => {
            let inner = Stacks { output: st.output, ops: st.ops.push(Operator::Lparen) };
            let after = seq![Tok::RParen] + rest;
            assert(tokens_of(e) + rest =~= seq![Tok::LParen] + (tokens_of(*a) + after));
            lemma_run_cons(Tok::LParen, tokens_of(*a) + after, st);
            assert(after[0] is RParen);
            assert(inner.ops.last() == Operator::Lparen);
            assert(grammatical(*a));
            if let Syntax::Apply(x, inner_op, y) = *a {
                assert(grammatical(Syntax::Apply(x, inner_op, y)));
                assert(is_arith(inner_op));
            }
            lemma_operand(*a, inner, after);
            let closed = Stacks { output: st.output.push(meaning(*a)), ops: st.ops.push(Operator::Lparen) };
            lemma_run_cons(Tok::RParen, rest, closed);
            assert(closed.ops.drop_last() =~= st.ops);
        },
        Syntax::Apply(a, op, b) => {
            let t = token_of(op);
            let after = seq![t] + (tokens_of(*b) + rest);
            assert(tokens_of(e) + rest =~= tokens_of(*a) + after);
            assert(after[0] == t);
            assert(operator_of(t) == Some(op));
            lemma_operand(*a, st, after);
            let mid = Stacks { output: st.output.push(meaning(*a)), ops: st.ops };
            lemma_run_cons(t, tokens_of(*b) + rest, mid);
            let pushed = Stacks { output: mid.output, ops: st.ops.push(op) };
            assert(push_operator(op, mid) == Some(pushed));
            assert(pushed.ops.last() == op);
            lemma_operand(*b, pushed, rest);
            lemma_fold_early(rest, st.output, st.ops, meaning(*a), meaning(*b), op);
        },
    }
}

/// Every sentence of the grammar builds without a fault, into the tree that
/// the grammar assigns it: precedence by tier, left to right within a tier,
/// groups first.
pub proof fn lemma_build_sentence(e: Syntax)
    requires
        grammatical(e),
    ensures
        build_spec(tokens_of(e)) == Ok::<Expr, ()>(meaning(e)),
{
    let st = Stacks { output: Seq::empty(), ops: Seq::empty() };
    assert(tokens_of(e) + Seq::<Tok>::empty() =~= tokens_of(e));
    lemma_operand(e, st, Seq::empty());
    let last = Stacks { output: Seq::<Expr>::empty().push(meaning(e)), ops: Seq::empty() };
    assert(run(Seq::empty(), last) == finish(last));
}

/// Every sentence of the grammar, balanced in its parentheses and with both
/// operands around each operator, builds without a fault.
pub proof fn lemma_sentence_never_faults(e: Syntax)
    requires
        grammatical(e),
    ensures
        build_spec(tokens_of(e)) is Ok,
{
    lemma_build_sentence(e);
}

/// How many more open than close parentheses a token sequence holds.
pub open spec fn depth(toks: Seq<Tok>) -> int
    decreases toks.len(),
{
    if toks.len() == 0 {
        0
    } else {
        let d = if toks[0] is LParen {
            1int
        } else if toks[0] is RParen {
            -1int
        } else {
            0int
        };
        d + depth(toks.drop_first())
    }
}

/// The number of open markers on the operator stack.
pub open spec fn open_markers(ops: Seq<Operator>) -> int
    decreases ops.len(),
{
    if ops.len() == 0 {
        0
    } else {
        open_markers(ops.drop_last()) + if ops.last() is Lparen {
            1int
        } else {
            0int
        }
    }
}

proof fn lemma_fold_keeps_markers(st: Stacks)
    requires
        st.ops.len() > 0,
        !(st.ops.last() is Lparen),
    ensures
        fold(st) matches Some(next) ==> open_markers(next.ops) == open_markers(st.ops),
{
}

proof fn lemma_markers_nonneg(ops: Seq<Operator>)
    ensures
        open_markers(ops) >= 0,
    decreases ops.len(),
{
    if ops.len() > 0 {
        lemma_markers_nonneg(ops.drop_last());
    }
}

proof fn lemma_close_paren_markers(st: Stacks)
    ensures
        close_paren(st) matches Some(next) ==> open_markers(next.ops) == open_markers(st.ops) - 1,
    decreases st.ops.len(),
{
    if st.ops.len() > 0 && !(st.ops.last() is Lparen) {
        lemma_fold_keeps_markers(st);
        if let Some(next) = fold(st) {
            lemma_close_paren_markers(next);
        }
    }
}

proof fn lemma_push_operator_markers(op: Operator, st: Stacks)
    requires
        is_arith(op),
    ensures
        push_operator(op, st) matches Some(next) ==> open_markers(next.ops) == open_markers(
            st.ops,
        ),
    decreases st.ops.len(),
{
    if st.ops.len() == 0 || tier(op) > tier(st.ops.last()) {
        assert(st.ops.push(op).drop_last() =~= st.ops);
    } else {
        lemma_fold_keeps_markers(st);
        if let Some(next) = fold(st) {
            lemma_push_operator_markers(op, next);
        }
    }
}

proof fn lemma_unmatched_from(toks: Seq<Tok>, k: int, st: Stacks)
    requires
        0 <= k <= toks.len(),
        open_markers(st.ops) + depth(toks.take(k)) < 0,
    ensures
        run(toks, st) is Err,
    decreases toks.len(),
{
    lemma_markers_nonneg(st.ops);
    if k == 0 {
        assert(toks.take(0).len() == 0);
    } else {
        assert(toks.take(k).drop_first() =~= toks.drop_first().take(k - 1));
        assert(toks.take(k)[0] == toks[0]);
        let t = toks[0];
        match t {
            Tok::Num(_) => {},
            Tok::LParen => {
                assert(st.ops.push(Operator::Lparen).drop_last() =~= st.ops);
            },
            Tok::RParen => {
                lemma_close_paren_markers(st);
            },
            _ => {
                lemma_push_operator_markers(operator_of(t)->0, st);
            },
        }
        if let Some(next) = step_spec(t, st) {
            lemma_unmatched_from(toks.drop_first(), k - 1, next);
        }
    }
}

/// A token sequence in which some close parenthesis has no open one before
/// it to match is malformed: building a tree from it faults.
pub proof fn lemma_unmatched_close_faults(toks: Seq<Tok>, k: int)
    requires
        0 <= k <= toks.len(),
        depth(toks.take(k)) < 0,
    ensures
        build_spec(toks) is Err,
{
    lemma_unmatched_from(toks, k, Stacks { output: Seq::empty(), ops: Seq::empty() });
}

/// A lone operator, with no operand on either side, is malformed.
pub proof fn lemma_lone_operator_faults(t: Tok)
    requires
        operator_of(t) is Some,
    ensures
        build_spec(seq![t]) is Err,
{
    let empty = Stacks { output: Seq::empty(), ops: Seq::empty() };
    let op = operator_of(t)->0;
    let pushed = Stacks { output: Seq::empty(), ops: seq![op] };
    assert(Seq::<Operator>::empty().push(op) =~= seq![op]);
    assert(step_spec(t, empty) == Some(pushed));
    assert(seq![t].drop_first() =~= Seq::<Tok>::empty());
    assert(fold(pushed) is None);
    assert(finish(pushed) is Err);
    assert(run(Seq::empty(), pushed) is Err);
    assert(run(seq![t], empty) == run(seq![t].drop_first(), pushed));
}

} // verus!
