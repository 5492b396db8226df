//! Laws on the trees that the automaton builds: operands stay in reading
//! order, and every node is a binary operator.
use vstd::prelude::*;
use crate::evaluator::{
    apply, close_paren, evaluation, finish, lemma_run_failure_persists, prec_of, run, settle, Expr,
    InstrStack, Machine, PAREN_PREC,
};
use crate::tokenizer::{is_binary, InfixView, Op};

verus! {

/// The numbers of a tree, read left to right.
pub open spec fn leaves(e: Expr) -> Seq<usize>
    decreases e,
{
    match e {
        Expr::Number(i) => seq![i],
        Expr::Binary(_, l, r) => leaves(*l) + leaves(*r),
    }
}

/// The numbers of a value stack, from the bottom up.
pub open spec fn stack_leaves(vals: Seq<Expr>) -> Seq<usize>
    decreases vals.len(),
{
    if vals.len() == 0 {
        Seq::empty()
    } else {
        stack_leaves(vals.drop_last()) + leaves(vals.last())
    }
}

/// The positions of the number tokens among the first `n` tokens.
pub open spec fn number_positions(tokens: Seq<InfixView>, n: int) -> Seq<usize>
    decreases n,
{
    if n <= 0 {
        Seq::empty()
    } else {
        match tokens[n - 1] {
            InfixView::Number(_) => number_positions(tokens, n - 1).push((n - 1) as usize),
            InfixView::Operator(_) => number_positions(tokens, n - 1),
        }
    }
}

proof fn lemma_apply_keeps_leaves(op: Op, vals: Seq<Expr>)
    requires
        apply(op, vals) is Ok,
    ensures
        stack_leaves(apply(op, vals)->Ok_0) == stack_leaves(vals),
{
    let n = vals.len();
    let pre = vals.subrange(0, n - 2);
    let a = vals[n - 2];
    let b = vals[n - 1];
    let res = apply(op, vals)->Ok_0;
    assert(vals.drop_last().drop_last() =~= pre);
    assert(vals.drop_last().last() == a);
    assert(stack_leaves(vals.drop_last()) == stack_leaves(pre) + leaves(a));
    assert(stack_leaves(vals) == stack_leaves(pre) + leaves(a) + leaves(b));
    assert(res.drop_last() =~= pre);
    assert(leaves(res.last()) == leaves(a) + leaves(b));
    assert(stack_leaves(res) == stack_leaves(pre) + (leaves(a) + leaves(b)));
    assert(stack_leaves(pre) + leaves(a) + leaves(b) =~= stack_leaves(pre) + (leaves(a) + leaves(
        b,
    )));
}

proof fn lemma_close_keeps_leaves(ops: Seq<InstrStack>, vals: Seq<Expr>)
    requires
        close_paren(ops, vals) is Ok,
    ensures
        stack_leaves(close_paren(ops, vals)->Ok_0.vals) == stack_leaves(vals),
    decreases ops.len(),
{
    if ops.last().op != Op::ParenLeft {
        lemma_apply_keeps_leaves(ops.last().op, vals);
        lemma_close_keeps_leaves(ops.drop_last(), apply(ops.last().op, vals)->Ok_0);
    }
}

proof fn lemma_settle_keeps_leaves(ops: Seq<InstrStack>, vals: Seq<Expr>, p: u8)
    requires
        settle(ops, vals, p) is Ok,
    ensures
        stack_leaves(settle(ops, vals, p)->Ok_0.vals) == stack_leaves(vals),
    decreases ops.len(),
{
    if ops.len() > 0 && ops.last().op != Op::ParenLeft && ops.last().prec >= p {
        lemma_apply_keeps_leaves(ops.last().op, vals);
        lemma_settle_keeps_leaves(ops.drop_last(), apply(ops.last().op, vals)->Ok_0, p);
    }
}

proof fn lemma_finish_keeps_leaves(ops: Seq<InstrStack>, vals: Seq<Expr>)
    requires
        finish(ops, vals) is Ok,
    ensures
        leaves(finish(ops, vals)->Ok_0) == stack_leaves(vals),
    decreases ops.len(),
{
    if ops.len() == 0 {
        assert(vals.drop_last() =~= Seq::<Expr>::empty());
        assert(stack_leaves(vals.drop_last()) == Seq::<usize>::empty());
        assert(Seq::<usize>::empty() + leaves(vals[0]) =~= leaves(vals[0]));
    } else {
        lemma_apply_keeps_leaves(ops.last().op, vals);
        lemma_finish_keeps_leaves(ops.drop_last(), apply(ops.last().op, vals)->Ok_0);
    }
}

proof fn lemma_run_keeps_leaves(tokens: Seq<InfixView>, n: int)
    requires
        0 <= n <= tokens.len(),
        run(tokens, n) is Ok,
    ensures
        stack_leaves(run(tokens, n)->Ok_0.vals) == number_positions(tokens, n),
    decreases n,
{
    if n > 0 {
        if run(tokens, n - 1) is Err {
            lemma_run_failure_persists(tokens, n - 1, n);
        } else {
            lemma_run_keeps_leaves(tokens, n - 1);
            let m: Machine = run(tokens, n - 1)->Ok_0;
            match tokens[n - 1] {
                InfixView::Number(_) => {
                    let v = m.vals.push(Expr::Number((n - 1) as usize));
                    assert(v.drop_last() =~= m.vals);
                },
                InfixView::Operator(op) => {
                    if op == Op::ParenRight {
                        lemma_close_keeps_leaves(m.ops, m.vals);
                    } else if op != Op::ParenLeft {
                        lemma_settle_keeps_leaves(m.ops, m.vals, prec_of(op));
                    }
                },
            }
        }
    }
}

/// Operands keep their reading order: the numbers of the resulting tree,
/// read left to right, are the number tokens in the order they came, so
/// every operator has the earlier operand on its left.
pub proof fn lemma_operands_in_order(tokens: Seq<InfixView>)
    requires
        evaluation(tokens) is Ok,
    ensures
        leaves(evaluation(tokens)->Ok_0) == number_positions(tokens, tokens.len() as int),
{
    let n = tokens.len() as int;
    if run(tokens, n) is Ok {
        let m = run(tokens, n)->Ok_0;
        lemma_run_keeps_leaves(tokens, n);
        lemma_finish_keeps_leaves(m.ops, m.vals);
    }
}

/// Every node of `e` is one of the four binary operators.
pub open spec fn binary_nodes(e: Expr) -> bool
    decreases e,
{
    match e {
        Expr::Number(_) => true,
        Expr::Binary(op, l, r) => is_binary(op) && binary_nodes(*l) && binary_nodes(*r),
    }
}

/// The stacks hold no `)`, and only trees of binary nodes.
pub open spec fn stacks_binary(ops: Seq<InstrStack>, vals: Seq<Expr>) -> bool {
    &&& forall|i: int| 0 <= i < ops.len() ==> (#[trigger] ops[i]).op != Op::ParenRight
    &&& forall|i: int| 0 <= i < vals.len() ==> binary_nodes(#[trigger] vals[i])
}

proof fn lemma_apply_binary(ops: Seq<InstrStack>, vals: Seq<Expr>)
    requires
        stacks_binary(ops, vals),
        ops.len() > 0,
        ops.last().op != Op::ParenLeft,
        apply(ops.last().op, vals) is Ok,
    ensures
        stacks_binary(ops.drop_last(), apply(ops.last().op, vals)->Ok_0),
{
    let n = vals.len();
    assert(binary_nodes(vals[n - 2]) && binary_nodes(vals[n - 1]));
    let res = apply(ops.last().op, vals)->Ok_0;
    assert forall|i: int| 0 <= i < res.len() implies binary_nodes(#[trigger] res[i]) by {
        if i < n - 2 {
            assert(res[i] == vals[i]);
        }
    }
}

proof fn lemma_close_binary(ops: Seq<InstrStack>, vals: Seq<Expr>)
    requires
        stacks_binary(ops, vals),
        close_paren(ops, vals) is Ok,
    ensures
        stacks_binary(close_paren(ops, vals)->Ok_0.ops, close_paren(ops, vals)->Ok_0.vals),
    decreases ops.len(),
{
    if ops.last().op != Op::ParenLeft {
        lemma_apply_binary(ops, vals);
        lemma_close_binary(ops.drop_last(), apply(ops.last().op, vals)->Ok_0);
    }
}

proof fn lemma_settle_binary(ops: Seq<InstrStack>, vals: Seq<Expr>, p: u8)
    requires
        stacks_binary(ops, vals),
        settle(ops, vals, p) is Ok,
    ensures
        stacks_binary(settle(ops, vals, p)->Ok_0.ops, settle(ops, vals, p)->Ok_0.vals),
    decreases ops.len(),
{
    if ops.len() > 0 && ops.last().op != Op::ParenLeft && ops.last().prec >= p {
        lemma_apply_binary(ops, vals);
        lemma_settle_binary(ops.drop_last(), apply(ops.last().op, vals)->Ok_0, p);
    }
}

proof fn lemma_finish_binary(ops: Seq<InstrStack>, vals: Seq<Expr>)
    requires
        stacks_binary(ops, vals),
        finish(ops, vals) is Ok,
    ensures
        binary_nodes(finish(ops, vals)->Ok_0),
    decreases ops.len(),
{
    if ops.len() > 0 {
        lemma_apply_binary(ops, vals);
        lemma_finish_binary(ops.drop_last(), apply(ops.last().op, vals)->Ok_0);
    }
}

proof fn lemma_run_binary(tokens: Seq<InfixView>, n: int)
    requires
        0 <= n <= tokens.len(),
        run(tokens, n) is Ok,
    ensures
        stacks_binary(run(tokens, n)->Ok_0.ops, run(tokens, n)->Ok_0.vals),
    decreases n,
{
    if n > 0 {
        if run(tokens, n - 1) is Err {
            lemma_run_failure_persists(tokens, n - 1, n);
        } else {
            lemma_run_binary(tokens, n - 1);
            let m: Machine = run(tokens, n - 1)->Ok_0;
            match tokens[n - 1] {
                InfixView::Number(_) => {
                    let v = m.vals.push(Expr::Number((n - 1) as usize));
                    assert forall|i: int| 0 <= i < v.len() implies binary_nodes(#[trigger] v[i]) by {
                        if i < m.vals.len() {
                            assert(v[i] == m.vals[i]);
                        }
                    }
                },
                InfixView::Operator(op) => {
                    if op == Op::ParenLeft {
                        let o = m.ops.push(InstrStack { op, prec: PAREN_PREC });
                        assert forall|i: int| 0 <= i < o.len() implies (#[trigger] o[i]).op
                            != Op::ParenRight by {
                            if i < m.ops.len() {
                                assert(o[i] == m.ops[i]);
                            }
                        }
                    } else if op == Op::ParenRight {
                        lemma_close_binary(m.ops, m.vals);
                    } else {
                        lemma_settle_binary(m.ops, m.vals, prec_of(op));
                        let s = settle(m.ops, m.vals, prec_of(op))->Ok_0;
                        let o = s.ops.push(InstrStack { op, prec: prec_of(op) });
                        assert forall|i: int| 0 <= i < o.len() implies (#[trigger] o[i]).op
                            != Op::ParenRight by {
                            if i < s.ops.len() {
                                assert(o[i] == s.ops[i]);
                            }
                        }
                    }
                },
            }
        }
    }
}

/// Parentheses only group: no node of a tree that the automaton returns
/// holds `(` or `)`, every node is `+`, `-`, `*` or `/`.
pub proof fn lemma_nodes_are_binary(tokens: Seq<InfixView>)
    requires
        evaluation(tokens) is Ok,
    ensures
        binary_nodes(evaluation(tokens)->Ok_0),
{
    let n = tokens.len() as int;
    if run(tokens, n) is Ok {
        let m = run(tokens, n)->Ok_0;
        lemma_run_binary(tokens, n);
        lemma_finish_binary(m.ops, m.vals);
    }
}

} // verus!
