//! Conversion of infix tokens to postfix order (the shunting-yard algorithm).
use vstd::prelude::*;
use vstd::string::StrSliceExecFns;
use crate::containers::{Queue, Stack};
use crate::tokenizer::is_op_char;
use crate::CalcError;
use crate::postfix::height;

verus! {

pub open spec fn lparen() -> Seq<char> {
    seq!['(']
}

pub open spec fn rparen() -> Seq<char> {
    seq![')']
}

/// A token that is one of the five binary operators.
pub open spec fn is_op_token(t: Seq<char>) -> bool {
    t.len() == 1 && is_op_char(t[0])
}

/// Binding strength: `^` binds tightest, then `*` and `/`, then the rest.
pub open spec fn prec(t: Seq<char>) -> int {
    if t == seq!['^'] {
        2
    } else if t == seq!['*'] || t == seq!['/'] {
        1
    } else {
        0
    }
}

/// Whether operator `top`, pending on the stack, goes to the output before
/// operator `op` is pushed: it binds tighter, or as tight and `op` is
/// left-associative (all but `^`). A `(` stops the unwinding.
pub open spec fn pops_before(top: Seq<char>, op: Seq<char>) -> bool {
    top != lparen() && (prec(top) > prec(op) || (prec(top) == prec(op) && op != seq!['^']))
}

/// Moves the operators that go before `op` from the stack to the output.
pub open spec fn unwind(out: Seq<Seq<char>>, ops: Seq<Seq<char>>, op: Seq<char>) -> (Seq<Seq<char>>, Seq<Seq<char>>)
    decreases ops.len(),
{
    if ops.len() > 0 && pops_before(ops.last(), op) {
        unwind(out.push(ops.last()), ops.drop_last(), op)
    } else {
        (out, ops)
    }
}

/// Moves operators to the output down to the nearest `(`, which is dropped;
/// `None` when the stack holds no `(`.
pub open spec fn close(out: Seq<Seq<char>>, ops: Seq<Seq<char>>) -> Option<(Seq<Seq<char>>, Seq<Seq<char>>)>
    decreases ops.len(),
{
    if ops.len() == 0 {
        None
    } else if ops.last() == lparen() {
        Some((out, ops.drop_last()))
    } else {
        close(out.push(ops.last()), ops.drop_last())
    }
}

/// Moves all remaining operators to the output, top first; `None` when a
/// `(` is left unclosed.
pub open spec fn drain(out: Seq<Seq<char>>, ops: Seq<Seq<char>>) -> Option<Seq<Seq<char>>>
    decreases ops.len(),
{
    if ops.len() == 0 {
        Some(out)
    } else if ops.last() == lparen() {
        None
    } else {
        drain(out.push(ops.last()), ops.drop_last())
    }
}

/// The shunting-yard algorithm over the tokens `toks`, from output `out` and
/// operator stack `ops`; `None` on unbalanced parentheses. A token that is no
/// operator and no parenthesis is an operand and goes straight to the output.
pub open spec fn shunt(out: Seq<Seq<char>>, ops: Seq<Seq<char>>, toks: Seq<Seq<char>>) -> Option<Seq<Seq<char>>>
    decreases toks.len(),
{
    if toks.len() == 0 {
        drain(out, ops)
    } else {
        let t = toks[0];
        let rest = toks.drop_first();
        if is_op_token(t) {
            let (o2, s2) = unwind(out, ops, t);
            shunt(o2, s2.push(t), rest)
        } else if t == lparen() {
            shunt(out, ops.push(t), rest)
        } else if t == rparen() {
            match close(out, ops) {
                Some((o2, s2)) => shunt(o2, s2, rest),
                None => None,
            }
        } else {
            shunt(out.push(t), ops, rest)
        }
    }
}

/// The postfix form of the infix tokens `toks`; `None` on unbalanced parentheses.
pub open spec fn to_postfix(toks: Seq<Seq<char>>) -> Option<Seq<Seq<char>>> {
    shunt(Seq::empty(), Seq::empty(), toks)
}

/// Whether `toks` completes an infix expression over binary operators and
/// parentheses: `expect_operand` says whether an operand (or `(`) comes
/// next, and `depth` counts the parentheses left open.
pub open spec fn well_formed_from(expect_operand: bool, depth: int, toks: Seq<Seq<char>>) -> bool
    decreases toks.len(),
{
    if toks.len() == 0 {
        !expect_operand && depth == 0
    } else {
        let t = toks[0];
        let rest = toks.drop_first();
        if expect_operand {
            if t == lparen() {
                well_formed_from(true, depth + 1, rest)
            } else if is_op_token(t) || t == rparen() {
                false
            } else {
                well_formed_from(false, depth, rest)
            }
        } else {
            if is_op_token(t) {
                well_formed_from(true, depth, rest)
            } else if t == rparen() {
                depth > 0 && well_formed_from(false, depth - 1, rest)
            } else {
                false
            }
        }
    }
}

/// An infix token sequence: operands and binary operators alternate, starting
/// and ending with an operand, and parentheses are balanced.
pub open spec fn well_formed(toks: Seq<Seq<char>>) -> bool {
    well_formed_from(true, 0, toks)
}

/// The operators on the stack that still wait for their right operand's
/// subexpression to be closed.
spec fn pending(ops: Seq<Seq<char>>) -> int
    decreases ops.len(),
{
    if ops.len() == 0 {
        0
    } else if ops.last() == lparen() {
        pending(ops.drop_last())
    } else {
        pending(ops.drop_last()) + 1
    }
}

spec fn open_parens(ops: Seq<Seq<char>>) -> int
    decreases ops.len(),
{
    if ops.len() == 0 {
        0
    } else if ops.last() == lparen() {
        open_parens(ops.drop_last()) + 1
    } else {
        open_parens(ops.drop_last())
    }
}

spec fn stack_ok(ops: Seq<Seq<char>>) -> bool {
    forall|i: int| 0 <= i < ops.len() ==> is_op_token(#[trigger] ops[i]) || ops[i] == lparen()
}

proof fn lemma_height_push(out: Seq<Seq<char>>, t: Seq<char>)
    ensures
        height(out.push(t)) == match height(out) {
            None => None,
            Some(h) => if is_op_token(t) {
                if h < 2 {
                    None
                } else {
                    Some(h - 1)
                }
            } else {
                Some(h + 1)
            },
        },
{
    assert(out.push(t).drop_last() =~= out);
}

proof fn lemma_stack_push(ops: Seq<Seq<char>>, t: Seq<char>)
    requires
        stack_ok(ops),
        is_op_token(t) || t == lparen(),
    ensures
        stack_ok(ops.push(t)),
        pending(ops.push(t)) == pending(ops) + if t == lparen() { 0int } else { 1int },
        open_parens(ops.push(t)) == open_parens(ops) + if t == lparen() { 1int } else { 0int },
{
    assert(ops.push(t).drop_last() =~= ops);
    assert forall|i: int| 0 <= i < ops.push(t).len() implies is_op_token(#[trigger] ops.push(t)[i])
        || ops.push(t)[i] == lparen() by {
        if i < ops.len() {
            assert(ops.push(t)[i] == ops[i]);
        }
    }
}

proof fn lemma_unwind(out: Seq<Seq<char>>, ops: Seq<Seq<char>>, op: Seq<char>)
    requires
        height(out) == Some(pending(ops) + 1),
        stack_ok(ops),
    ensures
        height(unwind(out, ops, op).0) == Some(pending(unwind(out, ops, op).1) + 1),
        open_parens(unwind(out, ops, op).1) == open_parens(ops),
        stack_ok(unwind(out, ops, op).1),
    decreases ops.len(),
{
    if ops.len() > 0 && pops_before(ops.last(), op) {
        assert(is_op_token(ops[ops.len() - 1]));
        assert(pending(ops) >= 1) by {
            lemma_pending_nonneg(ops.drop_last());
        }
        lemma_height_push(out, ops.last());
        lemma_unwind(out.push(ops.last()), ops.drop_last(), op);
    }
}

proof fn lemma_pending_nonneg(ops: Seq<Seq<char>>)
    ensures
        pending(ops) >= 0,
        open_parens(ops) >= 0,
    decreases ops.len(),
{
    if ops.len() > 0 {
        lemma_pending_nonneg(ops.drop_last());
    }
}

proof fn lemma_close(out: Seq<Seq<char>>, ops: Seq<Seq<char>>)
    requires
        height(out) == Some(pending(ops) + 1),
        stack_ok(ops),
        open_parens(ops) > 0,
    ensures
        close(out, ops) is Some,
        height((close(out, ops)->0).0) == Some(pending((close(out, ops)->0).1) + 1),
        open_parens((close(out, ops)->0).1) == open_parens(ops) - 1,
        stack_ok((close(out, ops)->0).1),
    decreases ops.len(),
{
    if ops.last() != lparen() {
        assert(is_op_token(ops[ops.len() - 1]));
        lemma_pending_nonneg(ops.drop_last());
        lemma_height_push(out, ops.last());
        lemma_close(out.push(ops.last()), ops.drop_last());
    }
}

proof fn lemma_drain(out: Seq<Seq<char>>, ops: Seq<Seq<char>>)
    requires
        height(out) == Some(pending(ops) + 1),
        stack_ok(ops),
        open_parens(ops) == 0,
    ensures
        drain(out, ops) is Some,
        height(drain(out, ops)->0) == Some(1int),
    decreases ops.len(),
{
    if ops.len() > 0 {
        lemma_pending_nonneg(ops.drop_last());
        assert(ops.last() != lparen());
        assert(is_op_token(ops[ops.len() - 1]));
        lemma_height_push(out, ops.last());
        lemma_drain(out.push(ops.last()), ops.drop_last());
    }
}

proof fn lemma_shunt_well_formed(
    out: Seq<Seq<char>>,
    ops: Seq<Seq<char>>,
    toks: Seq<Seq<char>>,
    expect_operand: bool,
    depth: int,
)
    requires
        well_formed_from(expect_operand, depth, toks),
        stack_ok(ops),
        open_parens(ops) == depth,
        height(out) == Some(pending(ops) + if expect_operand { 0int } else { 1int }),
    ensures
        shunt(out, ops, toks) is Some,
        height(shunt(out, ops, toks)->0) == Some(1int),
    decreases toks.len(),
{
    if toks.len() == 0 {
        lemma_drain(out, ops);
    } else {
        let t = toks[0];
        let rest = toks.drop_first();
        if expect_operand {
            if t == lparen() {
                lemma_stack_push(ops, t);
                lemma_shunt_well_formed(out, ops.push(t), rest, true, depth + 1);
            } else {
                lemma_height_push(out, t);
                lemma_shunt_well_formed(out.push(t), ops, rest, false, depth);
            }
        } else {
            if is_op_token(t) {
                lemma_unwind(out, ops, t);
                let (o2, s2) = unwind(out, ops, t);
                lemma_stack_push(s2, t);
                lemma_shunt_well_formed(o2, s2.push(t), rest, true, depth);
            } else {
                lemma_close(out, ops);
                let (o2, s2) = close(out, ops)->0;
                lemma_shunt_well_formed(o2, s2, rest, false, depth - 1);
            }
        }
    }
}

/// A well-formed infix token sequence converts to a postfix sequence that
/// never runs short of operands and leaves exactly one value.
pub proof fn lemma_well_formed_converts(toks: Seq<Seq<char>>)
    requires
        well_formed(toks),
    ensures
        to_postfix(toks) is Some,
        height(to_postfix(toks)->0) == Some(1int),
{
    lemma_shunt_well_formed(Seq::empty(), Seq::empty(), toks, true, 0);
}

/// A token that is neither an operator nor a parenthesis.
pub open spec fn is_operand(t: Seq<char>) -> bool {
    !is_op_token(t) && t != lparen() && t != rparen()
}

/// The operand tokens of `s`, in order.
pub open spec fn operands(s: Seq<Seq<char>>) -> Seq<Seq<char>>
    decreases s.len(),
{
    if s.len() == 0 {
        Seq::empty()
    } else if is_operand(s.last()) {
        operands(s.drop_last()).push(s.last())
    } else {
        operands(s.drop_last())
    }
}

spec fn no_operands(ops: Seq<Seq<char>>) -> bool {
    forall|i: int| 0 <= i < ops.len() ==> !is_operand(#[trigger] ops[i])
}

proof fn lemma_operands_push(s: Seq<Seq<char>>, t: Seq<char>)
    ensures
        operands(s.push(t)) == if is_operand(t) { operands(s).push(t) } else { operands(s) },
{
    assert(s.push(t).drop_last() =~= s);
}

proof fn lemma_operands_concat(a: Seq<Seq<char>>, b: Seq<Seq<char>>)
    ensures
        operands(a + b) == operands(a) + operands(b),
    decreases b.len(),
{
    if b.len() == 0 {
        assert(a + b =~= a);
        assert(operands(a) + operands(b) =~= operands(a));
    } else {
        lemma_operands_concat(a, b.drop_last());
        assert((a + b).drop_last() =~= a + b.drop_last());
        if is_operand(b.last()) {
            assert(operands(a) + operands(b.drop_last()).push(b.last()) =~= (operands(a)
                + operands(b.drop_last())).push(b.last()));
        }
    }
}

proof fn lemma_no_operands_drop_last(ops: Seq<Seq<char>>)
    requires
        no_operands(ops),
        ops.len() > 0,
    ensures
        no_operands(ops.drop_last()),
        !is_operand(ops.last()),
{
    assert(!is_operand(ops[ops.len() - 1]));
}

proof fn lemma_unwind_operands(out: Seq<Seq<char>>, ops: Seq<Seq<char>>, op: Seq<char>)
    requires
        no_operands(ops),
    ensures
        operands(unwind(out, ops, op).0) == operands(out),
        no_operands(unwind(out, ops, op).1),
    decreases ops.len(),
{
    if ops.len() > 0 && pops_before(ops.last(), op) {
        lemma_no_operands_drop_last(ops);
        lemma_operands_push(out, ops.last());
        lemma_unwind_operands(out.push(ops.last()), ops.drop_last(), op);
    }
}

proof fn lemma_close_operands(out: Seq<Seq<char>>, ops: Seq<Seq<char>>)
    requires
        no_operands(ops),
        close(out, ops) is Some,
    ensures
        operands((close(out, ops)->0).0) == operands(out),
        no_operands((close(out, ops)->0).1),
    decreases ops.len(),
{
    lemma_no_operands_drop_last(ops);
    if ops.last() != lparen() {
        lemma_operands_push(out, ops.last());
        lemma_close_operands(out.push(ops.last()), ops.drop_last());
    }
}

proof fn lemma_drain_operands(out: Seq<Seq<char>>, ops: Seq<Seq<char>>)
    requires
        no_operands(ops),
        drain(out, ops) is Some,
    ensures
        operands(drain(out, ops)->0) == operands(out),
    decreases ops.len(),
{
    if ops.len() > 0 {
        lemma_no_operands_drop_last(ops);
        lemma_operands_push(out, ops.last());
        lemma_drain_operands(out.push(ops.last()), ops.drop_last());
    }
}

proof fn lemma_shunt_operands(out: Seq<Seq<char>>, ops: Seq<Seq<char>>, toks: Seq<Seq<char>>)
    requires
        no_operands(ops),
        shunt(out, ops, toks) is Some,
    ensures
        operands(shunt(out, ops, toks)->0) == operands(out) + operands(toks),
    decreases toks.len(),
{
    if toks.len() == 0 {
        lemma_drain_operands(out, ops);
        assert(operands(out) + operands(toks) =~= operands(out));
    } else {
        let t = toks[0];
        let rest = toks.drop_first();
        assert(toks =~= seq![t] + rest);
        lemma_operands_concat(seq![t], rest);
        lemma_operands_push(Seq::empty(), t);
        assert(Seq::<Seq<char>>::empty().push(t) =~= seq![t]);
        if is_op_token(t) {
            lemma_unwind_operands(out, ops, t);
            let (o2, s2) = unwind(out, ops, t);
            assert(no_operands(s2.push(t))) by {
                assert forall|i: int| 0 <= i < s2.push(t).len() implies !is_operand(
                    #[trigger] s2.push(t)[i],
                ) by {
                    if i < s2.len() {
                        assert(s2.push(t)[i] == s2[i]);
                    }
                }
            }
            lemma_shunt_operands(o2, s2.push(t), rest);
            assert(operands(seq![t]) =~= Seq::<Seq<char>>::empty());
            assert(operands(out) + operands(toks) =~= operands(out) + operands(rest));
        } else if t == lparen() {
            assert(no_operands(ops.push(t))) by {
                assert forall|i: int| 0 <= i < ops.push(t).len() implies !is_operand(
                    #[trigger] ops.push(t)[i],
                ) by {
                    if i < ops.len() {
                        assert(ops.push(t)[i] == ops[i]);
                    }
                }
            }
            lemma_shunt_operands(out, ops.push(t), rest);
            assert(operands(seq![t]) =~= Seq::<Seq<char>>::empty());
            assert(operands(out) + operands(toks) =~= operands(out) + operands(rest));
        } else if t == rparen() {
            lemma_close_operands(out, ops);
            let (o2, s2) = close(out, ops)->0;
            lemma_shunt_operands(o2, s2, rest);
            assert(operands(seq![t]) =~= Seq::<Seq<char>>::empty());
            assert(operands(out) + operands(toks) =~= operands(out) + operands(rest));
        } else {
            lemma_operands_push(out, t);
            lemma_shunt_operands(out.push(t), ops, rest);
            assert(operands(out.push(t)) + operands(rest) =~= operands(out) + (seq![t] + operands(
                rest,
            )));
        }
    }
}

/// The conversion keeps the operands: the postfix form holds the same
/// operand tokens as the infix one, in the same order.
pub proof fn lemma_postfix_keeps_operands(toks: Seq<Seq<char>>)
    requires
        to_postfix(toks) is Some,
    ensures
        operands(to_postfix(toks)->0) == operands(toks),
{
    lemma_shunt_operands(Seq::empty(), Seq::empty(), toks);
    assert(operands(Seq::<Seq<char>>::empty()) + operands(toks) =~= operands(toks));
}

/// The characters of each token.
pub open spec fn views(s: Seq<&str>) -> Seq<Seq<char>> {
    s.map_values(|t: &str| t@)
}

fn is_char_token(t: &str, c: char) -> (r: bool)
    ensures
        r == (t@ == seq![c]),
{
    if t.unicode_len() == 1 {
        let d = t.get_char(0);
        if d == c {
            assert(t@ =~= seq![c]);
        }
        d == c
    } else {
        false
    }
}

/// Whether `token` is one of `+ - * / ^`.
pub fn is_operator(token: &str) -> (r: bool)
    ensures
        r == is_op_token(token@),
{
    if token.unicode_len() == 1 {
        let c = token.get_char(0);
        c == '+' || c == '-' || c == '*' || c == '/' || c == '^'
    } else {
        false
    }
}

fn weight(op: &str) -> (w: u8)
    ensures
        w as int == prec(op@),
{
    if is_char_token(op, '^') {
        2
    } else if is_char_token(op, '*') || is_char_token(op, '/') {
        1
    } else {
        0
    }
}

/// Whether `op1` binds strictly tighter than `op2`.
pub fn has_precedence(op1: &str, op2: &str) -> (r: bool)
    ensures
        r == (prec(op1@) > prec(op2@)),
{
    weight(op1) > weight(op2)
}

/// Whether `op1` and `op2` bind equally tight.
pub fn has_equal_precedence(op1: &str, op2: &str) -> (r: bool)
    ensures
        r == (prec(op1@) == prec(op2@)),
{
    weight(op1) == weight(op2)
}

proof fn lemma_views_push(s: Seq<&str>, t: &str)
    ensures
        views(s.push(t)) == views(s).push(t@),
{
    assert(views(s.push(t)) =~= views(s).push(t@));
}

proof fn lemma_views_drop_last(s: Seq<&str>)
    requires
        s.len() > 0,
    ensures
        views(s.drop_last()) == views(s).drop_last(),
        views(s).last() == s.last()@,
{
    assert(views(s.drop_last()) =~= views(s).drop_last());
}

/// Converts infix tokens to postfix order. Fails with
/// `UnbalancedParentheses` when a `)` has no matching `(` or a `(` is left
/// open.
#[verifier::loop_isolation(false)]
pub fn rpn<'a>(equation: Vec<&'a str>) -> (r: Result<Vec<&'a str>, CalcError>)
    ensures
        match r {
            Ok(v) => to_postfix(equation.deep_view()) == Some(v.deep_view()),
            Err(e) => to_postfix(equation.deep_view()) is None && e == CalcError::UnbalancedParentheses,
        },
{
    let mut output: Queue<&str> = Queue::new();
    let mut operators: Stack<&str> = Stack::new();
    let ghost toks = equation.deep_view();
    let mut i: usize = 0;
    proof {
        assert(toks.subrange(0, toks.len() as int) =~= toks);
        assert(views(output@) =~= Seq::<Seq<char>>::empty());
        assert(views(operators@) =~= Seq::<Seq<char>>::empty());
    }
    while i < equation.len()
        invariant
            i <= equation@.len(),
            toks == equation.deep_view(),
            shunt(views(output@), views(operators@), toks.subrange(i as int, toks.len() as int))
                == to_postfix(toks),
        decreases equation@.len() - i,
    {
        let ghost rest = toks.subrange(i as int, toks.len() as int);
        assert(rest.drop_first() =~= toks.subrange(i + 1, toks.len() as int));
        let token = equation[i];
        assert(rest[0] == token@);
        let ghost o0 = views(output@);
        let ghost s0 = views(operators@);
        if is_operator(token) {
            let right_assoc = is_char_token(token, '^');
            loop
                invariant
                    unwind(views(output@), views(operators@), token@) == unwind(o0, s0, token@),
                    right_assoc == (token@ == seq!['^']),
                decreases operators@.len(),
            {
                match operators.peek() {
                    None => break,
                    Some(top) => {
                        if is_char_token(top, '(') || !(has_precedence(top, token) || (
                        has_equal_precedence(top, token) && !right_assoc)) {
                            break;
                        }
                        proof {
                            lemma_views_drop_last(operators@);
                            lemma_views_push(output@, top);
                        }
                        operators.pop();
                        output.enqueue(top);
                    },
                }
            }
            proof {
                lemma_views_push(operators@, token);
            }
            operators.push(token);
        } else if is_char_token(token, '(') {
            proof {
                lemma_views_push(operators@, token);
            }
            operators.push(token);
        } else if is_char_token(token, ')') {
            let mut closed = false;
            while !closed
                invariant
                    closed ==> close(o0, s0) == Some((views(output@), views(operators@))),
                    !closed ==> close(views(output@), views(operators@)) == close(o0, s0),
                decreases operators@.len(),
            {
                proof {
                    if operators@.len() > 0 {
                        lemma_views_drop_last(operators@);
                    }
                }
                match operators.pop() {
                    None => {
                        return Err(CalcError::UnbalancedParentheses);
                    },
                    Some(top) => {
                        if is_char_token(top, '(') {
                            closed = true;
                        } else {
                            proof {
                                lemma_views_push(output@, top);
                            }
                            output.enqueue(top);
                        }
                    },
                }
            }
        } else {
            proof {
                lemma_views_push(output@, token);
            }
            output.enqueue(token);
        }
        i = i + 1;
    }
    let ghost o1 = views(output@);
    let ghost s1 = views(operators@);
    assert(toks.subrange(i as int, toks.len() as int) =~= Seq::<Seq<char>>::empty());
    loop
        invariant
            drain(views(output@), views(operators@)) == drain(o1, s1),
            drain(o1, s1) == to_postfix(toks),
            toks == equation.deep_view(),
        decreases operators@.len(),
    {
        proof {
            if operators@.len() > 0 {
                lemma_views_drop_last(operators@);
            }
        }
        match operators.pop() {
            None => break,
            Some(top) => {
                if is_char_token(top, '(') {
                    return Err(CalcError::UnbalancedParentheses);
                }
                proof {
                    lemma_views_push(output@, top);
                }
                output.enqueue(top);
            },
        }
    }
    let v = output.into_vec();
    assert(v.deep_view() =~= views(v@));
    Ok(v)
}

} // verus!
