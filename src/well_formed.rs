//! Well-formed token sequences, and the law that the automaton always
//! succeeds on them.
use vstd::prelude::*;
use crate::evaluator::{
    apply, close_paren, evaluation, finish, prec_of, run, settle, Expr, InstrStack, PAREN_PREC,
};
use crate::tokenizer::{InfixView, Op};

verus! {

/// Where a scan of well-formed infix stands: whether an operand (a number
/// or a `(`) comes next, and how many parentheses are open.
pub struct Shape {
    pub operand_next: bool,
    pub depth: nat,
}

/// The shape after the first `n` tokens, or `None` if they cannot begin a
/// well-formed expression. Operands and binary operators alternate; a `(`
/// stands where an operand may start, a `)` where one has ended and a
/// parenthesis is open.
pub open spec fn shape(tokens: Seq<InfixView>, n: int) -> Option<Shape>
    decreases n,
{
    if n <= 0 {
        Some(Shape { operand_next: true, depth: 0 })
    } else {
        match shape(tokens, n - 1) {
            None => None,
            Some(s) => match tokens[n - 1] {
                InfixView::Number(_) => if s.operand_next {
                    Some(Shape { operand_next: false, depth: s.depth })
                } else {
                    None
                },
                InfixView::Operator(op) => if op == Op::ParenLeft {
                    if s.operand_next {
                        Some(Shape { operand_next: true, depth: s.depth + 1 })
                    } else {
                        None
                    }
                } else if op == Op::ParenRight {
                    if !s.operand_next && s.depth > 0 {
                        Some(Shape { operand_next: false, depth: (s.depth - 1) as nat })
                    } else {
                        None
                    }
                } else {
                    if !s.operand_next {
                        Some(Shape { operand_next: true, depth: s.depth })
                    } else {
                        None
                    }
                },
            },
        }
    }
}

/// A well-formed expression: literals joined by the four binary operators,
/// with balanced parentheses.
pub open spec fn well_formed(tokens: Seq<InfixView>) -> bool {
    shape(tokens, tokens.len() as int) == Some(Shape { operand_next: false, depth: 0 })
}

/// The number of `(` on an operator stack.
pub open spec fn open_parens(ops: Seq<InstrStack>) -> nat
    decreases ops.len(),
{
    if ops.len() == 0 {
        0
    } else {
        open_parens(ops.drop_last()) + if ops.last().op == Op::ParenLeft {
            1nat
        } else {
            0nat
        }
    }
}

proof fn lemma_open_parens_bound(ops: Seq<InstrStack>)
    ensures
        open_parens(ops) <= ops.len(),
    decreases ops.len(),
{
    if ops.len() > 0 {
        lemma_open_parens_bound(ops.drop_last());
    }
}

proof fn lemma_open_parens_push(ops: Seq<InstrStack>, e: InstrStack)
    ensures
        open_parens(ops.push(e)) == open_parens(ops) + if e.op == Op::ParenLeft {
            1nat
        } else {
            0nat
        },
{
    assert(ops.push(e).drop_last() =~= ops);
}

/// Between operands (one operand more than binary operators on the stack),
/// a `)` with a `(` open closes it without failing.
proof fn lemma_close_succeeds(ops: Seq<InstrStack>, vals: Seq<Expr>)
    requires
        open_parens(ops) > 0,
        vals.len() + open_parens(ops) == ops.len() + 1,
    ensures
        close_paren(ops, vals) is Ok,
        close_paren(ops, vals)->Ok_0.vals.len() + open_parens(close_paren(ops, vals)->Ok_0.ops)
            == close_paren(ops, vals)->Ok_0.ops.len() + 1,
        open_parens(close_paren(ops, vals)->Ok_0.ops) + 1 == open_parens(ops),
    decreases ops.len(),
{
    lemma_open_parens_bound(ops.drop_last());
    if ops.last().op != Op::ParenLeft {
        lemma_close_succeeds(ops.drop_last(), apply(ops.last().op, vals)->Ok_0);
    }
}

/// Between operands, the reductions before a binary operator never fail.
proof fn lemma_settle_succeeds(ops: Seq<InstrStack>, vals: Seq<Expr>, p: u8)
    requires
        vals.len() + open_parens(ops) == ops.len() + 1,
    ensures
        settle(ops, vals, p) is Ok,
        settle(ops, vals, p)->Ok_0.vals.len() + open_parens(settle(ops, vals, p)->Ok_0.ops)
            == settle(ops, vals, p)->Ok_0.ops.len() + 1,
        open_parens(settle(ops, vals, p)->Ok_0.ops) == open_parens(ops),
    decreases ops.len(),
{
    if ops.len() > 0 && ops.last().op != Op::ParenLeft && ops.last().prec >= p {
        lemma_open_parens_bound(ops.drop_last());
        lemma_settle_succeeds(ops.drop_last(), apply(ops.last().op, vals)->Ok_0, p);
    }
}

/// With no `(` open and one operand more than operators, the final
/// reductions leave exactly one value.
proof fn lemma_finish_succeeds(ops: Seq<InstrStack>, vals: Seq<Expr>)
    requires
        open_parens(ops) == 0,
        vals.len() == ops.len() + 1,
    ensures
        finish(ops, vals) is Ok,
    decreases ops.len(),
{
    if ops.len() > 0 {
        lemma_finish_succeeds(ops.drop_last(), apply(ops.last().op, vals)->Ok_0);
    }
}

/// On a prefix of a well-formed expression the automaton has not failed,
/// its `(` entries are the open parentheses, and its values outnumber its
/// binary operators by one exactly when an operator comes next.
proof fn lemma_run_follows_shape(tokens: Seq<InfixView>, n: int)
    requires
        0 <= n <= tokens.len(),
        shape(tokens, n) is Some,
    ensures
        run(tokens, n) is Ok,
        open_parens(run(tokens, n)->Ok_0.ops) == shape(tokens, n)->Some_0.depth,
        run(tokens, n)->Ok_0.vals.len() + open_parens(run(tokens, n)->Ok_0.ops)
            == run(tokens, n)->Ok_0.ops.len() + if shape(tokens, n)->Some_0.operand_next {
            0int
        } else {
            1int
        },
    decreases n,
{
    if n > 0 {
        lemma_run_follows_shape(tokens, n - 1);
        let m = run(tokens, n - 1)->Ok_0;
        match tokens[n - 1] {
            InfixView::Number(_) => {},
            InfixView::Operator(op) => {
                if op == Op::ParenLeft {
                    lemma_open_parens_push(m.ops, InstrStack { op, prec: PAREN_PREC });
                } else if op == Op::ParenRight {
                    lemma_close_succeeds(m.ops, m.vals);
                } else {
                    lemma_settle_succeeds(m.ops, m.vals, prec_of(op));
                    let s = settle(m.ops, m.vals, prec_of(op))->Ok_0;
                    lemma_open_parens_push(s.ops, InstrStack { op, prec: prec_of(op) });
                }
            },
        }
    }
}

/// Evaluating a well-formed expression never fails: the automaton ends
/// with no `(` left open and exactly one value on the value stack.
pub proof fn lemma_well_formed_evaluates(tokens: Seq<InfixView>)
    requires
        well_formed(tokens),
    ensures
        evaluation(tokens) is Ok,
{
    lemma_run_follows_shape(tokens, tokens.len() as int);
    let m = run(tokens, tokens.len() as int)->Ok_0;
    lemma_finish_succeeds(m.ops, m.vals);
}

} // verus!
