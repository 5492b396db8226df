//! The shunting-yard automaton: an operator stack and a value stack that
//! turn a token sequence into an expression tree honouring precedence,
//! left associativity and parentheses.
use vstd::prelude::*;
use crate::tokenizer::{view_tokens, CalcError, Infix, InfixView, Op};

verus! {

/// An expression tree. A number refers to its token by position in the
/// token sequence, where its literal stands.
#[derive(Debug, PartialEq, Eq)]
pub enum Expr {
    Number(usize),
    Binary(Op, Box<Expr>, Box<Expr>),
}

/// An entry of the operator stack: an operator and its precedence.
#[derive(Clone, Copy, Debug, PartialEq, Eq, Structural)]
pub struct InstrStack {
    pub op: Op,
    pub prec: u8,
}

/// An item of the postfix form of an expression.
#[derive(Clone, Copy, Debug, PartialEq, Eq, Structural)]
pub enum Postfix {
    Operator(Op),
    Number(usize),
}

/// The precedence of `(` on the operator stack: above every binary operator.
pub const PAREN_PREC: u8 = 3;

/// The precedence of `*` and `/`.
pub const MUL_PREC: u8 = 2;

/// The precedence of `+` and `-`.
pub const ADD_PREC: u8 = 1;

pub open spec fn prec_of(op: Op) -> u8 {
    match op {
        Op::ParenLeft | Op::ParenRight => PAREN_PREC,
        Op::Mul | Op::Div => MUL_PREC,
        Op::Add | Op::Sub => ADD_PREC,
    }
}

/// The state of the automaton: the operator stack and the value stack, each
/// with its top at the end.
pub struct Machine {
    pub ops: Seq<InstrStack>,
    pub vals: Seq<Expr>,
}

/// Reduction: the two topmost values are replaced by `op` applied to them,
/// the one pushed earlier as the left operand.
pub open spec fn apply(op: Op, vals: Seq<Expr>) -> Result<Seq<Expr>, CalcError> {
    if vals.len() < 2 {
        Err(CalcError::MalformedExpressionError)
    } else {
        let n = vals.len();
        Ok(
            vals.subrange(0, n - 2).push(
                Expr::Binary(op, Box::new(vals[n - 2]), Box::new(vals[n - 1])),
            ),
        )
    }
}

/// A `)`: reduce down to the nearest `(`, which is dropped.
pub open spec fn close_paren(ops: Seq<InstrStack>, vals: Seq<Expr>) -> Result<Machine, CalcError>
    decreases ops.len(),
{
    if ops.len() == 0 {
        Err(CalcError::UnbalancedParenthesesError)
    } else if ops.last().op == Op::ParenLeft {
        Ok(Machine { ops: ops.drop_last(), vals })
    } else {
        match apply(ops.last().op, vals) {
            Ok(v) => close_paren(ops.drop_last(), v),
            Err(e) => Err(e),
        }
    }
}

/// Before a binary operator of precedence `p`: reduce while the top is an
/// operator, not `(`, of precedence at least `p`.
pub open spec fn settle(ops: Seq<InstrStack>, vals: Seq<Expr>, p: u8) -> Result<Machine, CalcError>
    decreases ops.len(),
{
    if ops.len() > 0 && ops.last().op != Op::ParenLeft && ops.last().prec >= p {
        match apply(ops.last().op, vals) {
            Ok(v) => settle(ops.drop_last(), v, p),
            Err(e) => Err(e),
        }
    } else {
        Ok(Machine { ops, vals })
    }
}

/// One transition, on the token at position `idx`.
pub open spec fn step(m: Machine, tok: InfixView, idx: int) -> Result<Machine, CalcError> {
    match tok {
        InfixView::Number(_) => Ok(Machine { ops: m.ops, vals: m.vals.push(Expr::Number(idx as usize)) }),
        InfixView::Operator(op) => {
            if op == Op::ParenLeft {
                Ok(Machine { ops: m.ops.push(InstrStack { op, prec: PAREN_PREC }), vals: m.vals })
            } else if op == Op::ParenRight {
                close_paren(m.ops, m.vals)
            } else {
                match settle(m.ops, m.vals, prec_of(op)) {
                    Ok(s) => Ok(
                        Machine { ops: s.ops.push(InstrStack { op, prec: prec_of(op) }), vals: s.vals },
                    ),
                    Err(e) => Err(e),
                }
            }
        },
    }
}

/// The state after the first `n` tokens.
pub open spec fn run(tokens: Seq<InfixView>, n: int) -> Result<Machine, CalcError>
    decreases n,
{
    if n <= 0 {
        Ok(Machine { ops: Seq::empty(), vals: Seq::empty() })
    } else {
        match run(tokens, n - 1) {
            Ok(m) => step(m, tokens[n - 1], n - 1),
            Err(e) => Err(e),
        }
    }
}

/// Once the automaton has failed, later tokens do not change the failure.
pub proof fn lemma_run_failure_persists(tokens: Seq<InfixView>, k: int, n: int)
    requires
        0 <= k <= n,
        run(tokens, k) is Err,
    ensures
        run(tokens, n) == run(tokens, k),
    decreases n - k,
{
    if k < n {
        lemma_run_failure_persists(tokens, k, n - 1);
    }
}

/// After the last token: reduce what is left; a `(` left open is an error,
/// and exactly one value must remain.
pub open spec fn finish(ops: Seq<InstrStack>, vals: Seq<Expr>) -> Result<Expr, CalcError>
    decreases ops.len(),
{
    if ops.len() == 0 {
        if vals.len() == 1 {
            Ok(vals[0])
        } else {
            Err(CalcError::MalformedExpressionError)
        }
    } else if ops.last().op == Op::ParenLeft {
        Err(CalcError::UnbalancedParenthesesError)
    } else {
        match apply(ops.last().op, vals) {
            Ok(v) => finish(ops.drop_last(), v),
            Err(e) => Err(e),
        }
    }
}

/// What the automaton makes of a whole token sequence.
pub open spec fn evaluation(tokens: Seq<InfixView>) -> Result<Expr, CalcError> {
    match run(tokens, tokens.len() as int) {
        Ok(m) => finish(m.ops, m.vals),
        Err(e) => Err(e),
    }
}

fn precedence(op: Op) -> (r: u8)
    ensures
        r == prec_of(op),
{
    match op {
        Op::ParenLeft | Op::ParenRight => PAREN_PREC,
        Op::Mul | Op::Div => MUL_PREC,
        Op::Add | Op::Sub => ADD_PREC,
    }
}

/// Reduces the value stack by `op`.
fn calc(rpnstack: &mut Vec<Expr>, op: Op) -> (r: Result<(), CalcError>)
    ensures
        match apply(op, old(rpnstack)@) {
            Ok(v) => r is Ok && final(rpnstack)@ == v,
            Err(e) => r == Err::<(), CalcError>(e),
        },
{
    if rpnstack.len() < 2 {
        return Err(CalcError::MalformedExpressionError);
    }
    let ghost before = rpnstack@;
    let right = rpnstack.pop().unwrap();
    let left = rpnstack.pop().unwrap();
    rpnstack.push(Expr::Binary(op, Box::new(left), Box::new(right)));
    assert(rpnstack@ =~= apply(op, before)->Ok_0);
    Ok(())
}

/// Handles a `)`.
fn close_group(stack: &mut Vec<InstrStack>, rpnstack: &mut Vec<Expr>) -> (r: Result<(), CalcError>)
    ensures
        match close_paren(old(stack)@, old(rpnstack)@) {
            Ok(m) => r is Ok && final(stack)@ == m.ops && final(rpnstack)@ == m.vals,
            Err(e) => r == Err::<(), CalcError>(e),
        },
{
    loop
        invariant
            close_paren(old(stack)@, old(rpnstack)@) == close_paren(stack@, rpnstack@),
        decreases stack@.len(),
    {
        match stack.pop() {
            None => {
                return Err(CalcError::UnbalancedParenthesesError);
            },
            Some(top) => {
                if top.op == Op::ParenLeft {
                    return Ok(());
                }
                calc(rpnstack, top.op)?;
            },
        }
    }
}

/// Reduces before pushing a binary operator of precedence `p`.
fn settle_for(stack: &mut Vec<InstrStack>, rpnstack: &mut Vec<Expr>, p: u8) -> (r: Result<(), CalcError>)
    ensures
        match settle(old(stack)@, old(rpnstack)@, p) {
            Ok(m) => r is Ok && final(stack)@ == m.ops && final(rpnstack)@ == m.vals,
            Err(e) => r == Err::<(), CalcError>(e),
        },
{
    loop
        invariant
            settle(old(stack)@, old(rpnstack)@, p) == settle(stack@, rpnstack@, p),
        decreases stack@.len(),
    {
        let n = stack.len();
        if n == 0 || stack[n - 1].op == Op::ParenLeft || stack[n - 1].prec < p {
            return Ok(());
        }
        let top = stack.pop().unwrap();
        calc(rpnstack, top.op)?;
    }
}

/// Reduces what is left after the last token and takes the single value.
fn finish_all(stack: &mut Vec<InstrStack>, rpnstack: &mut Vec<Expr>) -> (r: Result<Expr, CalcError>)
    ensures
        r == finish(old(stack)@, old(rpnstack)@),
{
    loop
        invariant
            finish(old(stack)@, old(rpnstack)@) == finish(stack@, rpnstack@),
        decreases stack@.len(),
    {
        match stack.pop() {
            None => {
                if rpnstack.len() == 1 {
                    return Ok(rpnstack.pop().unwrap());
                }
                return Err(CalcError::MalformedExpressionError);
            },
            Some(top) => {
                if top.op == Op::ParenLeft {
                    return Err(CalcError::UnbalancedParenthesesError);
                }
                calc(rpnstack, top.op)?;
            },
        }
    }
}

/// The postfix form of an expression: operands before their operator.
pub open spec fn postfix_of(e: Expr) -> Seq<Postfix>
    decreases e,
{
    match e {
        Expr::Number(i) => seq![Postfix::Number(i)],
        Expr::Binary(op, l, r) => postfix_of(*l) + postfix_of(*r) + seq![Postfix::Operator(op)],
    }
}

fn push_postfix(e: &Expr, out: &mut Vec<Postfix>)
    ensures
        final(out)@ == old(out)@ + postfix_of(*e),
    decreases e,
{
    match e {
        Expr::Number(i) => {
            out.push(Postfix::Number(*i));
        },
        Expr::Binary(op, l, r) => {
            let ghost start = out@;
            push_postfix(l, out);
            push_postfix(r, out);
            out.push(Postfix::Operator(*op));
            assert(out@ =~= start + postfix_of(*e));
        },
    }
}

/// The postfix form of `e`, the order in which the automaton reduced it.
pub fn to_postfix(e: &Expr) -> (r: Vec<Postfix>)
    ensures
        r@ == postfix_of(*e),
{
    let mut out: Vec<Postfix> = Vec::new();
    push_postfix(e, &mut out);
    assert(out@ =~= postfix_of(*e));
    out
}

/// Runs the shunting-yard automaton over `tokenvec` and returns the
/// expression tree of its single remaining value.
pub fn infix_to_postfix_calc(tokenvec: &[Infix]) -> (r: Result<Expr, CalcError>)
    ensures
        r == evaluation(view_tokens(tokenvec@)),
{
    let ghost toks = view_tokens(tokenvec@);
    let mut stack: Vec<InstrStack> = Vec::new();
    let mut rpnstack: Vec<Expr> = Vec::new();
    let mut i: usize = 0;
    while i < tokenvec.len()
        invariant
            i <= tokenvec@.len(),
            toks == view_tokens(tokenvec@),
            run(toks, i as int) == Ok::<Machine, CalcError>(
                Machine { ops: stack@, vals: rpnstack@ },
            ),
        decreases tokenvec@.len() - i,
    {
        assert(toks[i as int] == tokenvec@[i as int]@);
        match &tokenvec[i] {
            Infix::Number(_) => {
                rpnstack.push(Expr::Number(i));
            },
            Infix::Operator(op) => {
                let op = *op;
                if op == Op::ParenLeft {
                    stack.push(InstrStack { op, prec: PAREN_PREC });
                } else if op == Op::ParenRight {
                    if let Err(e) = close_group(&mut stack, &mut rpnstack) {
                        proof {
                            lemma_run_failure_persists(toks, i + 1, toks.len() as int);
                        }
                        return Err(e);
                    }
                } else {
                    let p = precedence(op);
                    if let Err(e) = settle_for(&mut stack, &mut rpnstack, p) {
                        proof {
                            lemma_run_failure_persists(toks, i + 1, toks.len() as int);
                        }
                        return Err(e);
                    }
                    stack.push(InstrStack { op, prec: p });
                }
            },
        }
        i += 1;
    }
    finish_all(&mut stack, &mut rpnstack)
}

} // verus!
