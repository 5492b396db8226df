//! Turns the text of an expression into a sequence of tokens.
use vstd::prelude::*;

verus! {

/// An operator or a parenthesis.
#[derive(Clone, Copy, Debug, PartialEq, Eq, Structural)]
pub enum Op {
    ParenLeft,
    ParenRight,
    Add,
    Sub,
    Mul,
    Div,
}

/// Why an expression could not be evaluated.
#[derive(Clone, Copy, Debug, PartialEq, Eq, Structural)]
pub enum CalcError {
    /// A run of characters between operators is not a decimal literal
    /// (this includes the empty run before a binary operator that has no
    /// left operand).
    NumberParseError,
    /// A `)` without a matching `(`, or a `(` left open at the end.
    UnbalancedParenthesesError,
    /// An operator lacks an operand, or operands are left over.
    MalformedExpressionError,
}

/// A token of an expression. A number keeps the text of its literal.
#[derive(Clone, Debug, PartialEq)]
pub enum Infix {
    Operator(Op),
    Number(String),
}

/// The mathematical value of a token.
pub enum InfixView {
    Operator(Op),
    Number(Seq<char>),
}

impl View for Infix {
    type V = InfixView;

    open spec fn view(&self) -> InfixView {
        match self {
            Infix::Operator(op) => InfixView::Operator(*op),
            Infix::Number(lit) => InfixView::Number(lit@),
        }
    }
}

pub open spec fn view_tokens(t: Seq<Infix>) -> Seq<InfixView> {
    t.map_values(|x: Infix| x@)
}

/// Characters at or below the space separate tokens and are otherwise ignored.
pub open spec fn is_separator(c: char) -> bool {
    c <= ' '
}

pub open spec fn operator_of(c: char) -> Option<Op> {
    if c == '(' {
        Some(Op::ParenLeft)
    } else if c == ')' {
        Some(Op::ParenRight)
    } else if c == '+' {
        Some(Op::Add)
    } else if c == '-' {
        Some(Op::Sub)
    } else if c == '*' {
        Some(Op::Mul)
    } else if c == '/' {
        Some(Op::Div)
    } else {
        None
    }
}

pub open spec fn is_boundary(c: char) -> bool {
    is_separator(c) || operator_of(c) is Some
}

pub open spec fn is_binary(op: Op) -> bool {
    op != Op::ParenLeft && op != Op::ParenRight
}

pub open spec fn is_digit(c: char) -> bool {
    '0' <= c <= '9'
}

/// The mantissa of a decimal literal: ASCII digits with at most one decimal
/// point, and at least one digit (`12`, `1.5`, `2.`, `.5`).
pub open spec fn is_mantissa(lit: Seq<char>) -> bool {
    &&& forall|i: int| 0 <= i < lit.len() ==> is_digit(#[trigger] lit[i]) || lit[i] == '.'
    &&& exists|i: int| 0 <= i < lit.len() && is_digit(#[trigger] lit[i])
    &&& forall|i: int, j: int|
        0 <= i < j < lit.len() && #[trigger] lit[i] == '.' ==> #[trigger] lit[j] != '.'
}

pub open spec fn is_exponent_marker(c: char) -> bool {
    c == 'e' || c == 'E'
}

/// One or more ASCII digits.
pub open spec fn is_digits(x: Seq<char>) -> bool {
    x.len() > 0 && forall|i: int| 0 <= i < x.len() ==> is_digit(#[trigger] x[i])
}

/// A decimal literal: a mantissa, optionally followed by `e` or `E` and the
/// digits of an exponent (`12`, `1.5`, `.5`, `1e5`, `2.5E10`). An exponent
/// carries no sign: `+` and `-` are operators and end the literal.
pub open spec fn is_literal(lit: Seq<char>) -> bool {
    ||| is_mantissa(lit)
    ||| exists|k: int|
        0 <= k < lit.len() && is_exponent_marker(#[trigger] lit[k]) && is_mantissa(lit.take(k))
            && is_digits(lit.skip(k + 1))
}

/// The end of the run of literal characters that starts at `i`.
pub open spec fn run_end(s: Seq<char>, i: int) -> int
    decreases s.len() - i,
{
    if i < 0 || i >= s.len() || is_boundary(s[i]) {
        i
    } else {
        run_end(s, i + 1)
    }
}

pub proof fn lemma_run_end_bounds(s: Seq<char>, i: int)
    requires
        0 <= i <= s.len(),
    ensures
        i <= run_end(s, i) <= s.len(),
        i < s.len() && !is_boundary(s[i]) ==> i < run_end(s, i),
        forall|k: int| i <= k < run_end(s, i) ==> !is_boundary(#[trigger] s[k]),
        run_end(s, i) < s.len() ==> is_boundary(s[run_end(s, i)]),
    decreases s.len() - i,
{
    if i < s.len() && !is_boundary(s[i]) {
        lemma_run_end_bounds(s, i + 1);
    }
}

pub open spec fn prepend<T>(t: Seq<T>, r: Result<Seq<T>, CalcError>) -> Result<Seq<T>, CalcError> {
    match r {
        Ok(rest) => Ok(t + rest),
        Err(e) => Err(e),
    }
}

pub proof fn lemma_prepend_concat<T>(a: Seq<T>, b: Seq<T>, r: Result<Seq<T>, CalcError>)
    ensures
        prepend(a, prepend(b, r)) == prepend(a + b, r),
{
    match r {
        Ok(rest) => {
            assert(a + (b + rest) =~= (a + b) + rest);
        },
        Err(_) => {},
    }
}

/// The tokens of `s` from position `i` on; `after_operand` tells whether the
/// token before `i` was a number or a `)`, which a binary operator needs as
/// its left operand.
pub open spec fn lex_from(s: Seq<char>, i: int, after_operand: bool) -> Result<
    Seq<InfixView>,
    CalcError,
>
    decreases s.len() - i,
{
    if i < 0 || i >= s.len() {
        Ok(Seq::empty())
    } else if is_separator(s[i]) {
        lex_from(s, i + 1, after_operand)
    } else if operator_of(s[i]) is Some {
        let op = operator_of(s[i])->Some_0;
        if is_binary(op) && !after_operand {
            Err(CalcError::NumberParseError)
        } else {
            prepend(seq![InfixView::Operator(op)], lex_from(s, i + 1, op == Op::ParenRight))
        }
    } else {
        let e = run_end(s, i);
        proof {
            lemma_run_end_bounds(s, i);
        }
        if !is_literal(s.subrange(i, e)) {
            Err(CalcError::NumberParseError)
        } else {
            prepend(seq![InfixView::Number(s.subrange(i, e))], lex_from(s, e, true))
        }
    }
}

/// The tokens of a whole expression.
pub open spec fn lex(s: Seq<char>) -> Result<Seq<InfixView>, CalcError> {
    lex_from(s, 0, false)
}

fn operator_char(c: char) -> (r: Option<Op>)
    ensures
        r == operator_of(c),
{
    if c == '(' {
        Some(Op::ParenLeft)
    } else if c == ')' {
        Some(Op::ParenRight)
    } else if c == '+' {
        Some(Op::Add)
    } else if c == '-' {
        Some(Op::Sub)
    } else if c == '*' {
        Some(Op::Mul)
    } else if c == '/' {
        Some(Op::Div)
    } else {
        None
    }
}

fn boundary_char(c: char) -> (r: bool)
    ensures
        r == is_boundary(c),
{
    c <= ' ' || operator_char(c).is_some()
}

fn is_mantissa_text(lit: &str) -> (r: bool)
    ensures
        r == is_mantissa(lit@),
{
    let n = lit.unicode_len();
    let mut seen_digit = false;
    let mut seen_dot = false;
    let mut k: usize = 0;
    while k < n
        invariant
            n == lit@.len(),
            k <= n,
            forall|i: int| 0 <= i < k ==> is_digit(#[trigger] lit@[i]) || lit@[i] == '.',
            seen_digit == exists|i: int| 0 <= i < k && is_digit(#[trigger] lit@[i]),
            seen_dot == exists|i: int| 0 <= i < k && #[trigger] lit@[i] == '.',
            forall|i: int, j: int|
                0 <= i < j < k && #[trigger] lit@[i] == '.' ==> #[trigger] lit@[j] != '.',
        decreases n - k,
    {
        let c = lit.get_char(k);
        if '0' <= c && c <= '9' {
            seen_digit = true;
        } else if c == '.' && !seen_dot {
            seen_dot = true;
        } else {
            if c == '.' {
                let ghost w = choose|i: int| 0 <= i < k && #[trigger] lit@[i] == '.';
                assert(lit@[w] == '.' && lit@[k as int] == '.');
            } else {
                assert(!(is_digit(lit@[k as int]) || lit@[k as int] == '.'));
            }
            return false;
        }
        k += 1;
    }
    seen_digit
}

fn is_digits_text(x: &str) -> (r: bool)
    ensures
        r == is_digits(x@),
{
    let n = x.unicode_len();
    let mut k: usize = 0;
    while k < n
        invariant
            n == x@.len(),
            k <= n,
            forall|i: int| 0 <= i < k ==> is_digit(#[trigger] x@[i]),
        decreases n - k,
    {
        let c = x.get_char(k);
        if !('0' <= c && c <= '9') {
            return false;
        }
        k += 1;
    }
    n > 0
}

/// Whether `lit` is a decimal literal.
pub fn is_decimal_literal(lit: &str) -> (r: bool)
    ensures
        r == is_literal(lit@),
{
    let n = lit.unicode_len();
    let mut k: usize = 0;
    while k < n && !(lit.get_char(k) == 'e' || lit.get_char(k) == 'E')
        invariant
            n == lit@.len(),
            k <= n,
            forall|i: int| 0 <= i < k ==> !is_exponent_marker(#[trigger] lit@[i]),
        decreases n - k,
    {
        k += 1;
    }
    if k == n {
        return is_mantissa_text(lit);
    }
    let mantissa = lit.substring_char(0, k);
    let exponent = lit.substring_char(k + 1, n);
    assert(mantissa@ =~= lit@.take(k as int));
    assert(exponent@ =~= lit@.skip(k + 1));
    let r = is_mantissa_text(mantissa) && is_digits_text(exponent);
    proof {
        // lit[k] is the first marker, so it is the only one that can split
        // the literal, and the whole is no mantissa.
        assert(!is_mantissa(lit@)) by {
            assert(!(is_digit(lit@[k as int]) || lit@[k as int] == '.'));
        }
        if is_literal(lit@) {
            let w = choose|w: int|
                0 <= w < lit@.len() && is_exponent_marker(#[trigger] lit@[w]) && is_mantissa(
                    lit@.take(w),
                ) && is_digits(lit@.skip(w + 1));
            if w > k {
                assert(lit@.take(w)[k as int] == lit@[k as int]);
            }
            assert(w == k);
        }
    }
    r
}

/// Splits an expression into tokens.
///
/// Characters at or below the space separate tokens. Each of `( ) + - * /`
/// is an operator token; every maximal run of other characters is a number,
/// and must be a decimal literal. A binary operator that is first or follows
/// an operator other than `)` has an empty run as its left operand, which is
/// a `NumberParseError` as well.
pub fn tokenize(in_str: &str) -> (r: Result<Vec<Infix>, CalcError>)
    ensures
        lex(in_str@) == match r {
            Ok(t) => Ok(view_tokens(t@)),
            Err(e) => Err(e),
        },
{
    let ghost s = in_str@;
    let n = in_str.unicode_len();
    let mut tokens: Vec<Infix> = Vec::new();
    let mut after_operand = false;
    let mut i: usize = 0;
    while i < n
        invariant
            s == in_str@,
            n == s.len(),
            i <= n,
            lex(s) == prepend(view_tokens(tokens@), lex_from(s, i as int, after_operand)),
        decreases n - i,
    {
        let c = in_str.get_char(i);
        if c <= ' ' {
            i += 1;
        } else if let Some(op) = operator_char(c) {
            if op != Op::ParenLeft && op != Op::ParenRight && !after_operand {
                return Err(CalcError::NumberParseError);
            }
            let ghost before = tokens@;
            tokens.push(Infix::Operator(op));
            assert(view_tokens(tokens@) =~= view_tokens(before) + seq![InfixView::Operator(op)]);
            proof {
                lemma_prepend_concat(
                    view_tokens(before),
                    seq![InfixView::Operator(op)],
                    lex_from(s, i + 1, op == Op::ParenRight),
                );
            }
            after_operand = op == Op::ParenRight;
            i += 1;
        } else {
            proof {
                lemma_run_end_bounds(s, i as int);
                lemma_run_end_bounds(s, i + 1);
            }
            let mut j: usize = i + 1;
            while j < n && !boundary_char(in_str.get_char(j))
                invariant
                    s == in_str@,
                    n == s.len(),
                    i < j <= n,
                    run_end(s, i as int) == run_end(s, j as int),
                decreases n - j,
            {
                j += 1;
            }
            assert(run_end(s, j as int) == j);
            let lit = in_str.substring_char(i, j);
            if !is_decimal_literal(lit) {
                return Err(CalcError::NumberParseError);
            }
            let ghost before = tokens@;
            tokens.push(Infix::Number(lit.to_owned()));
            assert(view_tokens(tokens@) =~= view_tokens(before) + seq![InfixView::Number(lit@)]);
            proof {
                lemma_prepend_concat(
                    view_tokens(before),
                    seq![InfixView::Number(lit@)],
                    lex_from(s, j as int, true),
                );
            }
            after_operand = true;
            i = j;
        }
    }
    assert(view_tokens(tokens@) + Seq::<InfixView>::empty() =~= view_tokens(tokens@));
    Ok(tokens)
}

} // verus!
