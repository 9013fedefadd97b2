//! Reduction of a postfix token sequence to the expression tree it denotes.
use vstd::prelude::*;
use vstd::string::StrSliceExecFns;
use crate::shunting::{is_operator, is_op_token, lemma_well_formed_converts, to_postfix, well_formed};
use crate::tokenizer::tokenize;
use crate::CalcError;

verus! {

/// An expression tree over the tokens of a postfix sequence.
#[derive(Debug, PartialEq, Eq)]
pub enum Expr {
    /// The operand token at this position of the sequence.
    Operand(usize),
    /// The operator applied to its left and right operands.
    Apply(char, Box<Expr>, Box<Expr>),
}

/// Runs the operand stack over `toks` from position `i`: an operand is
/// pushed, and an operator pops its right operand, then its left one, and
/// pushes their combination. `None` when an operator finds fewer than two
/// operands.
pub open spec fn reduce(stack: Seq<Expr>, toks: Seq<Seq<char>>, i: int) -> Option<Seq<Expr>>
    decreases toks.len() - i,
{
    if i < 0 || i >= toks.len() {
        Some(stack)
    } else if is_op_token(toks[i]) {
        if stack.len() < 2 {
            None
        } else {
            let n = stack.len();
            let e = Expr::Apply(toks[i][0], Box::new(stack[n - 2]), Box::new(stack[n - 1]));
            reduce(stack.drop_last().drop_last().push(e), toks, i + 1)
        }
    } else {
        reduce(stack.push(Expr::Operand(i as usize)), toks, i + 1)
    }
}

/// The tree of the postfix sequence `toks`: the one value left on the stack.
pub open spec fn tree_of(toks: Seq<Seq<char>>) -> Result<Expr, CalcError> {
    match reduce(Seq::empty(), toks, 0) {
        None => Err(CalcError::MissingOperand),
        Some(s) => if s.len() == 1 {
            Ok(s[0])
        } else {
            Err(CalcError::ResidualOperands)
        },
    }
}

/// The operand-stack height after running over `toks`; `None` when an
/// operator finds fewer than two operands.
pub open spec fn height(toks: Seq<Seq<char>>) -> Option<int>
    decreases toks.len(),
{
    if toks.len() == 0 {
        Some(0)
    } else {
        match height(toks.drop_last()) {
            None => None,
            Some(h) => if is_op_token(toks.last()) {
                if h < 2 {
                    None
                } else {
                    Some(h - 1)
                }
            } else {
                Some(h + 1)
            },
        }
    }
}

/// The operand-stack height from height `d` at position `i` to the end.
spec fn height_from(d: int, toks: Seq<Seq<char>>, i: int) -> Option<int>
    decreases toks.len() - i,
{
    if i < 0 || i >= toks.len() {
        Some(d)
    } else if is_op_token(toks[i]) {
        if d < 2 {
            None
        } else {
            height_from(d - 1, toks, i + 1)
        }
    } else {
        height_from(d + 1, toks, i + 1)
    }
}

proof fn lemma_reduce_height(stack: Seq<Expr>, toks: Seq<Seq<char>>, i: int)
    requires
        0 <= i,
        height_from(stack.len() as int, toks, i) is Some,
    ensures
        reduce(stack, toks, i) is Some,
        reduce(stack, toks, i)->0.len() == height_from(stack.len() as int, toks, i)->0,
    decreases toks.len() - i,
{
    if i < toks.len() {
        if is_op_token(toks[i]) {
            let n = stack.len();
            let e = Expr::Apply(toks[i][0], Box::new(stack[n - 2]), Box::new(stack[n - 1]));
            lemma_reduce_height(stack.drop_last().drop_last().push(e), toks, i + 1);
        } else {
            lemma_reduce_height(stack.push(Expr::Operand(i as usize)), toks, i + 1);
        }
    }
}

proof fn lemma_height_prefix(toks: Seq<Seq<char>>, j: int)
    requires
        0 <= j <= toks.len(),
    ensures
        height_from(0, toks, 0) == match height(toks.take(j)) {
            None => None,
            Some(h) => height_from(h, toks, j),
        },
    decreases j,
{
    if j > 0 {
        lemma_height_prefix(toks, j - 1);
        assert(toks.take(j).drop_last() =~= toks.take(j - 1));
    } else {
        assert(toks.take(0) =~= Seq::<Seq<char>>::empty());
    }
}

/// A postfix sequence that never runs short of operands and leaves a stack
/// of height one reduces to a tree.
pub proof fn lemma_height_one_gives_tree(toks: Seq<Seq<char>>)
    requires
        height(toks) == Some(1int),
    ensures
        tree_of(toks) is Ok,
{
    lemma_height_prefix(toks, toks.len() as int);
    assert(toks.take(toks.len() as int) =~= toks);
    lemma_reduce_height(Seq::empty(), toks, 0);
}

/// Evaluating a well-formed expression always succeeds: its tokens convert
/// to postfix order, and the postfix sequence reduces to exactly one tree,
/// with no operands left over.
pub proof fn lemma_well_formed_evaluates(s: Seq<char>)
    requires
        well_formed(tokenize(s)),
    ensures
        to_postfix(tokenize(s)) is Some,
        tree_of(to_postfix(tokenize(s))->0) is Ok,
{
    lemma_well_formed_converts(tokenize(s));
    lemma_height_one_gives_tree(to_postfix(tokenize(s))->0);
}

/// Reduces the postfix sequence to its expression tree. Fails with
/// `MissingOperand` when an operator lacks an operand and with
/// `ResidualOperands` unless exactly one value remains at the end.
pub fn postfix_tree(ex_in_rpn: &Vec<&str>) -> (r: Result<Expr, CalcError>)
    ensures
        r == tree_of(ex_in_rpn.deep_view()),
{
    let ghost toks = ex_in_rpn.deep_view();
    let mut stack: Vec<Expr> = Vec::new();
    let mut i: usize = 0;
    while i < ex_in_rpn.len()
        invariant
            i <= ex_in_rpn@.len(),
            toks == ex_in_rpn.deep_view(),
            reduce(stack@, toks, i as int) == reduce(Seq::empty(), toks, 0),
        decreases ex_in_rpn@.len() - i,
    {
        let token = ex_in_rpn[i];
        assert(toks[i as int] == token@);
        if is_operator(token) {
            let ghost s0 = stack@;
            let v1 = stack.pop();
            let v2 = stack.pop();
            match (v2, v1) {
                (Some(left), Some(right)) => {
                    let op = token.get_char(0);
                    stack.push(Expr::Apply(op, Box::new(left), Box::new(right)));
                    assert(stack@ =~= s0.drop_last().drop_last().push(
                        Expr::Apply(toks[i as int][0], Box::new(s0[s0.len() - 2]), Box::new(s0[s0.len() - 1])),
                    ));
                },
                _ => {
                    return Err(CalcError::MissingOperand);
                },
            }
        } else {
            stack.push(Expr::Operand(i));
        }
        i = i + 1;
    }
    if stack.len() == 1 {
        match stack.pop() {
            Some(e) => Ok(e),
            None => Err(CalcError::ResidualOperands),
        }
    } else {
        Err(CalcError::ResidualOperands)
    }
}

} // verus!
