//! Builds a binary expression tree from tokens, by operator precedence with
//! two stacks.
use crate::lexer::{Tok, TokenKind};
use std::collections::VecDeque;
use vstd::prelude::*;

verus! {

/// A binary operator, or one of the two parenthesis markers.
#[derive(Debug, PartialEq, Eq, Structural, Clone, Copy)]
pub enum Operator {
    Lparen,
    RParen,
    Add,
    Sub,
    Mul,
    Div,
    Exp,
}

/// The precedence tier of an operator: add and subtract bind loosest,
/// exponent tightest; the parenthesis markers sit below every operator.
pub open spec fn tier(op: Operator) -> int {
    match op {
        Operator::Lparen | Operator::RParen => 0,
        Operator::Add | Operator::Sub => 1,
        Operator::Mul | Operator::Div => 2,
        Operator::Exp => 3,
    }
}

/// The operator that labels a tree node.
pub open spec fn is_arith(op: Operator) -> bool {
    !(op is Lparen || op is RParen)
}

/// The binary operator that a token stands for.
pub open spec fn operator_of(t: Tok) -> Option<Operator> {
    match t {
        Tok::Plus => Some(Operator::Add),
        Tok::Minus => Some(Operator::Sub),
        Tok::Mul => Some(Operator::Mul),
        Tok::Div => Some(Operator::Div),
        Tok::Exp => Some(Operator::Exp),
        _ => None,
    }
}

impl Operator {
    pub fn precedence(&self) -> (r: u8)
        ensures
            r == tier(*self),
    {
        match self {
            Operator::Lparen | Operator::RParen => 0,
            Operator::Add | Operator::Sub => 1,
            Operator::Mul | Operator::Div => 2,
            Operator::Exp => 3,
        }
    }

    /// The binary operator of an operator token; `None` for a literal or a
    /// parenthesis.
    pub fn from_token(t: &TokenKind) -> (r: Option<Operator>)
        ensures
            r == operator_of(t@),
    {
        match t {
            TokenKind::Plus => Some(Operator::Add),
            TokenKind::Minus => Some(Operator::Sub),
            TokenKind::Mul => Some(Operator::Mul),
            TokenKind::Div => Some(Operator::Div),
            TokenKind::Exp => Some(Operator::Exp),
            _ => None,
        }
    }
}

/// The mathematical form of an expression tree.
pub enum Expr {
    Num(Seq<char>),
    Bin(Box<Expr>, Box<Expr>, Operator),
}

/// A node of the expression tree: a literal's text, or an operator applied
/// to two subtrees that it owns.
#[derive(Debug, PartialEq)]
pub enum ASTNode {
    Leaf(String),
    Branch { left: Box<ASTNode>, right: Box<ASTNode>, operator: Operator },
}

pub open spec fn expr_of(n: ASTNode) -> Expr
    decreases n,
{
    match n {
        ASTNode::Leaf(s) => Expr::Num(s@),
        ASTNode::Branch { left, right, operator } => Expr::Bin(
            Box::new(expr_of(*left)),
            Box::new(expr_of(*right)),
            operator,
        ),
    }
}

impl View for ASTNode {
    type V = Expr;

    open spec fn view(&self) -> Expr {
        expr_of(*self)
    }
}

impl ASTNode {
    pub fn new_branch(left: Box<ASTNode>, right: Box<ASTNode>, operator: Operator) -> (r: Self)
        ensures
            r@ == Expr::Bin(Box::new(left@), Box::new(right@), operator),
    {
        ASTNode::Branch { left, right, operator }
    }
}

/// A malformed expression: an operator without its two operands, a close
/// parenthesis without its open one, an open one never closed, or other than
/// one tree at the end.
#[derive(Debug, PartialEq, Eq, Clone, Copy)]
pub struct BadTokenError;

/// The parser's state: pending subtrees and pending operators.
pub struct Stacks {
    pub output: Seq<Expr>,
    pub ops: Seq<Operator>,
}

/// Fold: the top operator joins the top two subtrees, the upper one on the
/// right. `None` where fewer than two subtrees wait.
pub open spec fn fold(st: Stacks) -> Option<Stacks>
    recommends
        st.ops.len() > 0,
{
    let n = st.output.len();
    if n < 2 {
        None
    } else {
        Some(
            Stacks {
                output: st.output.take(n - 2).push(
                    Expr::Bin(Box::new(st.output[n - 2]), Box::new(st.output[n - 1]), st.ops.last()),
                ),
                ops: st.ops.drop_last(),
            },
        )
    }
}

/// A close parenthesis: fold down to the open marker, then drop it.
pub open spec fn close_paren(st: Stacks) -> Option<Stacks>
    decreases st.ops.len(),
{
    if st.ops.len() == 0 {
        None
    } else if st.ops.last() is Lparen {
        Some(Stacks { output: st.output, ops: st.ops.drop_last() })
    } else {
        match fold(st) {
            None => None,
            Some(next) => close_paren(next),
        }
    }
}

/// A binary operator: fold while the top operator binds at least as tightly,
/// then push the new one.
pub open spec fn push_operator(op: Operator, st: Stacks) -> Option<Stacks>
    decreases st.ops.len(),
{
    if st.ops.len() == 0 || tier(op) > tier(st.ops.last()) {
        Some(Stacks { output: st.output, ops: st.ops.push(op) })
    } else {
        match fold(st) {
            None => None,
            Some(next) => push_operator(op, next),
        }
    }
}

/// One token of input.
pub open spec fn step_spec(t: Tok, st: Stacks) -> Option<Stacks> {
    match t {
        Tok::Num(s) => Some(Stacks { output: st.output.push(Expr::Num(s)), ops: st.ops }),
        Tok::LParen => Some(Stacks { output: st.output, ops: st.ops.push(Operator::Lparen) }),
        Tok::RParen => close_paren(st),
        _ => push_operator(operator_of(t)->0, st),
    }
}

/// The end of input: fold every pending operator; one tree must be left.
pub open spec fn finish(st: Stacks) -> Result<Expr, ()>
    decreases st.ops.len(),
{
    if st.ops.len() == 0 {
        if st.output.len() == 1 {
            Ok(st.output[0])
        } else {
            Err(())
        }
    } else if st.ops.last() is Lparen {
        Err(())
    } else {
        match fold(st) {
            None => Err(()),
            Some(next) => finish(next),
        }
    }
}

/// The whole parse of the remaining tokens from a given state.
pub open spec fn run(toks: Seq<Tok>, st: Stacks) -> Result<Expr, ()>
    decreases toks.len(),
{
    if toks.len() == 0 {
        finish(st)
    } else {
        match step_spec(toks[0], st) {
            None => Err(()),
            Some(next) => run(toks.drop_first(), next),
        }
    }
}

/// The tree built from a token sequence, from empty stacks.
pub open spec fn build_spec(toks: Seq<Tok>) -> Result<Expr, ()> {
    run(toks, Stacks { output: Seq::empty(), ops: Seq::empty() })
}

/// Every node of the tree is labelled with a binary operator, never with a
/// parenthesis marker.
pub open spec fn well_labeled(e: Expr) -> bool
    decreases e,
{
    match e {
        Expr::Num(_) => true,
        Expr::Bin(l, r, op) => is_arith(op) && well_labeled(*l) && well_labeled(*r),
    }
}

/// The builder's stacks hold well-labelled subtrees, and never a close marker.
pub open spec fn stacks_ok(st: Stacks) -> bool {
    &&& forall|i: int| 0 <= i < st.output.len() ==> well_labeled(#[trigger] st.output[i])
    &&& forall|i: int| 0 <= i < st.ops.len() ==> !(#[trigger] st.ops[i] is RParen)
}

proof fn lemma_fold_ok(st: Stacks)
    requires
        stacks_ok(st),
        st.ops.len() > 0,
        !(st.ops.last() is Lparen),
    ensures
        fold(st) matches Some(next) ==> stacks_ok(next),
{
    let n = st.output.len();
    if n >= 2 {
        let next = fold(st)->0;
        assert(well_labeled(next.output[n - 2]));
        assert forall|i: int| 0 <= i < next.output.len() implies well_labeled(
            #[trigger] next.output[i],
        ) by {
            if i < n - 2 {
                assert(next.output[i] == st.output[i]);
            }
        }
        assert forall|i: int| 0 <= i < next.ops.len() implies !(#[trigger] next.ops[i] is RParen) by {
            assert(next.ops[i] == st.ops[i]);
        }
    }
}

proof fn lemma_close_paren_ok(st: Stacks)
    requires
        stacks_ok(st),
    ensures
        close_paren(st) matches Some(next) ==> stacks_ok(next),
    decreases st.ops.len(),
{
    if st.ops.len() > 0 {
        if st.ops.last() is Lparen {
            let next = close_paren(st)->0;
            assert forall|i: int| 0 <= i < next.ops.len() implies !(
            #[trigger] next.ops[i] is RParen) by {
                assert(next.ops[i] == st.ops[i]);
            }
        } else {
            lemma_fold_ok(st);
            if let Some(next) = fold(st) {
                lemma_close_paren_ok(next);
            }
        }
    }
}

proof fn lemma_push_operator_ok(op: Operator, st: Stacks)
    requires
        stacks_ok(st),
        is_arith(op),
    ensures
        push_operator(op, st) matches Some(next) ==> stacks_ok(next),
    decreases st.ops.len(),
{
    if st.ops.len() == 0 || tier(op) > tier(st.ops.last()) {
        let next = push_operator(op, st)->0;
        assert forall|i: int| 0 <= i < next.ops.len() implies !(#[trigger] next.ops[i] is RParen) by {
            if i < st.ops.len() {
                assert(next.ops[i] == st.ops[i]);
            }
        }
    } else {
        lemma_fold_ok(st);
        if let Some(next) = fold(st) {
            lemma_push_operator_ok(op, next);
        }
    }
}

proof fn lemma_finish_ok(st: Stacks)
    requires
        stacks_ok(st),
    ensures
        finish(st) matches Ok(e) ==> well_labeled(e),
    decreases st.ops.len(),
{
    if st.ops.len() > 0 && !(st.ops.last() is Lparen) {
        lemma_fold_ok(st);
        if let Some(next) = fold(st) {
            lemma_finish_ok(next);
        }
    }
}

proof fn lemma_run_ok(toks: Seq<Tok>, st: Stacks)
    requires
        stacks_ok(st),
    ensures
        run(toks, st) matches Ok(e) ==> well_labeled(e),
    decreases toks.len(),
{
    if toks.len() == 0 {
        lemma_finish_ok(st);
    } else {
        let t = toks[0];
        match t {
            Tok::Num(s) => {
                let next = step_spec(t, st)->0;
                assert forall|i: int| 0 <= i < next.output.len() implies well_labeled(
                    #[trigger] next.output[i],
                ) by {
                    if i < st.output.len() {
                        assert(next.output[i] == st.output[i]);
                    }
                }
            },
            Tok::LParen => {
                let next = step_spec(t, st)->0;
                assert forall|i: int| 0 <= i < next.ops.len() implies !(
                #[trigger] next.ops[i] is RParen) by {
                    if i < st.ops.len() {
                        assert(next.ops[i] == st.ops[i]);
                    }
                }
            },
            Tok::RParen => {
                lemma_close_paren_ok(st);
            },
            _ => {
                lemma_push_operator_ok(operator_of(t)->0, st);
            },
        }
        if let Some(next) = step_spec(t, st) {
            lemma_run_ok(toks.drop_first(), next);
        }
    }
}

/// A tree that the builder returns labels every node with a binary operator:
/// the parenthesis markers never reach it.
pub proof fn lemma_built_tree_well_labeled(toks: Seq<Tok>)
    ensures
        build_spec(toks) matches Ok(e) ==> well_labeled(e),
{
    lemma_run_ok(toks, Stacks { output: Seq::empty(), ops: Seq::empty() });
}

/// The tree builder: the tokens still to read, the output stack of finished
/// subtrees, and the stack of pending operators.
pub struct ASTBuilder {
    input: VecDeque<TokenKind>,
    output: Vec<ASTNode>,
    operator_aux: Vec<Operator>,
}

impl ASTBuilder {
    /// The tokens still to read.
    pub closed spec fn pending(&self) -> Seq<Tok> {
        self.input@.map_values(|t: TokenKind| t@)
    }

    /// The two stacks.
    pub closed spec fn stacks(&self) -> Stacks {
        Stacks { output: self.output@.map_values(|n: ASTNode| n@), ops: self.operator_aux@ }
    }

    pub fn new(input: VecDeque<TokenKind>) -> (r: Self)
        ensures
            r.pending() == input@.map_values(|t: TokenKind| t@),
            r.stacks() == (Stacks { output: Seq::empty(), ops: Seq::empty() }),
    {
        let r = ASTBuilder { input, output: Vec::new(), operator_aux: Vec::new() };
        assert(r.stacks().output =~= Seq::<Expr>::empty());
        r
    }

    /// Parses every pending token and returns the one tree that is left.
    pub fn build_ast(&mut self) -> (r: Result<ASTNode, BadTokenError>)
        ensures
            match r {
                Ok(n) => run(old(self).pending(), old(self).stacks()) == Ok::<Expr, ()>(n@),
                Err(_) => run(old(self).pending(), old(self).stacks()) is Err,
            },
    {
        while self.input.len() > 0
            invariant
                run(self.pending(), self.stacks()) == run(old(self).pending(), old(self).stacks()),
            decreases self.input@.len(),
        {
            let ghost before = self.pending();
            let t = self.input.pop_front().unwrap();
            assert(self.pending() =~= before.drop_first());
            match self.step(t) {
                Ok(()) => {},
                Err(e) => {
                    return Err(e);
                },
            }
        }
        assert(self.pending().len() == 0);
        while self.operator_aux.len() > 0
            invariant
                finish(self.stacks()) == run(old(self).pending(), old(self).stacks()),
            decreases self.operator_aux@.len(),
        {
            let n = self.operator_aux.len();
            if let Operator::Lparen = self.operator_aux[n - 1] {
                return Err(BadTokenError);
            }
            match self.build_node() {
                Ok(()) => {},
                Err(e) => {
                    return Err(e);
                },
            }
        }
        if self.output.len() != 1 {
            return Err(BadTokenError);
        }
        Ok(self.output.pop().unwrap())
    }

    /// Feeds one token to the two stacks.
    fn step(&mut self, input_head: TokenKind) -> (r: Result<(), BadTokenError>)
        ensures
            final(self).pending() == old(self).pending(),
            match step_spec(input_head@, old(self).stacks()) {
                Some(st) => r is Ok && final(self).stacks() == st,
                None => r is Err,
            },
    {
        match input_head {
            TokenKind::Literal(s) => {
                let ghost before = self.stacks();
                let ghost leaf = Expr::Num(s@);
                self.output.push(ASTNode::Leaf(s));
                assert(self.stacks().output =~= before.output.push(leaf));
                Ok(())
            },
            TokenKind::LParen => {
                self.operator_aux.push(Operator::Lparen);
                Ok(())
            },
            TokenKind::RParen => self.close_paren(),
            other => match Operator::from_token(&other) {
                Some(op) => self.push_operator(op),
                None => Err(BadTokenError),
            },
        }
    }

    /// Folds down to the nearest open marker and drops it.
    fn close_paren(&mut self) -> (r: Result<(), BadTokenError>)
        ensures
            final(self).pending() == old(self).pending(),
            match close_paren(old(self).stacks()) {
                Some(st) => r is Ok && final(self).stacks() == st,
                None => r is Err,
            },
    {
        loop
            invariant
                self.pending() == old(self).pending(),
                close_paren(self.stacks()) == close_paren(old(self).stacks()),
            decreases self.operator_aux@.len(),
        {
            let n = self.operator_aux.len();
            if n == 0 {
                return Err(BadTokenError);
            }
            if let Operator::Lparen = self.operator_aux[n - 1] {
                self.operator_aux.pop();
                return Ok(());
            }
            match self.build_node() {
                Ok(()) => {},
                Err(e) => {
                    return Err(e);
                },
            }
        }
    }

    /// Folds while the top operator binds at least as tightly as `op`, then
    /// pushes `op`.
    fn push_operator(&mut self, op: Operator) -> (r: Result<(), BadTokenError>)
        ensures
            final(self).pending() == old(self).pending(),
            match push_operator(op, old(self).stacks()) {
                Some(st) => r is Ok && final(self).stacks() == st,
                None => r is Err,
            },
    {
        let prec = op.precedence();
        loop
            invariant
                prec == tier(op),
                self.pending() == old(self).pending(),
                push_operator(op, self.stacks()) == push_operator(op, old(self).stacks()),
            decreases self.operator_aux@.len(),
        {
            let n = self.operator_aux.len();
            if n == 0 || prec > self.operator_aux[n - 1].precedence() {
                self.operator_aux.push(op);
                return Ok(());
            }
            match self.build_node() {
                Ok(()) => {},
                Err(e) => {
                    return Err(e);
                },
            }
        }
    }

    /// Fold: pops two subtrees and one operator, and pushes the node that
    /// joins them.
    fn build_node(&mut self) -> (r: Result<(), BadTokenError>)
        requires
            old(self).operator_aux@.len() > 0,
        ensures
            final(self).pending() == old(self).pending(),
            match fold(old(self).stacks()) {
                Some(st) => r is Ok && final(self).stacks() == st,
                None => r is Err && final(self).stacks() == old(self).stacks(),
            },
            r is Ok ==> final(self).operator_aux@.len() == old(self).operator_aux@.len() - 1,
    {
        if self.output.len() < 2 {
            return Err(BadTokenError);
        }
        let ghost before = self.stacks();
        let right = self.output.pop().unwrap();
        let left = self.output.pop().unwrap();
        let operator = self.operator_aux.pop().unwrap();
        let node = ASTNode::new_branch(Box::new(left), Box::new(right), operator);
        self.output.push(node);
        proof {
            let n = before.output.len();
            assert(self.stacks().output =~= before.output.take(n - 2).push(
                Expr::Bin(Box::new(before.output[n - 2]), Box::new(before.output[n - 1]), before.ops.last()),
            ));
            assert(self.stacks().ops =~= before.ops.drop_last());
        }
        Ok(())
    }
}

} // verus!
