//! Splitting infix expression text into tokens.
use vstd::prelude::*;
use crate::text::{chars_of, string_of};

verus! {

/// A command-line request: the expression to evaluate.
pub struct Config {
    pub expression: String,
}

/// The five binary operator characters.
pub open spec fn is_op_char(c: char) -> bool {
    c == '+' || c == '-' || c == '*' || c == '/' || c == '^'
}

/// Closes the pending number buffer: a non-empty buffer becomes a token.
pub open spec fn flush(out: Seq<Seq<char>>, buf: Seq<char>) -> Seq<Seq<char>> {
    if buf.len() > 0 {
        out.push(buf)
    } else {
        out
    }
}

/// The tokens of `rest`, appended to `out`, with `buf` the number read so far.
/// Operators and parentheses are tokens of one character, spaces are dropped,
/// and any other run of characters is one token. A `)` directly followed by
/// `(` gets a `*` token between them.
pub open spec fn lex(out: Seq<Seq<char>>, buf: Seq<char>, rest: Seq<char>) -> Seq<Seq<char>>
    decreases rest.len(),
{
    if rest.len() == 0 {
        flush(out, buf)
    } else {
        let c = rest[0];
        let tail = rest.drop_first();
        if is_op_char(c) || c == '(' {
            lex(flush(out, buf).push(seq![c]), Seq::empty(), tail)
        } else if c == ')' {
            let o = flush(out, buf).push(seq![')']);
            if tail.len() > 0 && tail[0] == '(' {
                lex(o.push(seq!['*']), Seq::empty(), tail)
            } else {
                lex(o, Seq::empty(), tail)
            }
        } else if c == ' ' {
            lex(out, buf, tail)
        } else {
            lex(out, buf.push(c), tail)
        }
    }
}

/// The tokens of the expression text `s`.
pub open spec fn tokenize(s: Seq<char>) -> Seq<Seq<char>> {
    lex(Seq::empty(), Seq::empty(), s)
}

proof fn lemma_lex_prefix(out: Seq<Seq<char>>, buf: Seq<char>, rest: Seq<char>)
    ensures
        lex(out, buf, rest) == out + lex(Seq::empty(), buf, rest),
    decreases rest.len(),
{
    if rest.len() == 0 {
        assert(flush(out, buf) =~= out + flush(Seq::empty(), buf));
    } else {
        let c = rest[0];
        let tail = rest.drop_first();
        let e = Seq::<Seq<char>>::empty();
        if is_op_char(c) || c == '(' {
            lemma_lex_prefix(flush(out, buf).push(seq![c]), Seq::empty(), tail);
            lemma_lex_prefix(flush(e, buf).push(seq![c]), Seq::empty(), tail);
            assert(flush(out, buf).push(seq![c]) =~= out + flush(e, buf).push(seq![c]));
        } else if c == ')' {
            let o = flush(out, buf).push(seq![')']);
            let o1 = flush(e, buf).push(seq![')']);
            assert(o =~= out + o1);
            assert(o.push(seq!['*']) =~= out + o1.push(seq!['*']));
            lemma_lex_prefix(o, Seq::empty(), tail);
            lemma_lex_prefix(o1, Seq::empty(), tail);
            lemma_lex_prefix(o.push(seq!['*']), Seq::empty(), tail);
            lemma_lex_prefix(o1.push(seq!['*']), Seq::empty(), tail);
        } else if c == ' ' {
            lemma_lex_prefix(out, buf, tail);
        } else {
            lemma_lex_prefix(out, buf.push(c), tail);
            lemma_lex_prefix(e, buf.push(c), tail);
        }
    }
}

/// The tokens a `)` and what follows it contribute: the `)`, a `*` when a
/// `(` comes right after, then the tokens of the rest.
spec fn after_close(r: Seq<char>) -> Seq<Seq<char>> {
    if r.len() > 0 && r[0] == '(' {
        seq![seq![')'], seq!['*']] + tokenize(r)
    } else {
        seq![seq![')']] + tokenize(r)
    }
}

proof fn lemma_lex_close(out: Seq<Seq<char>>, buf: Seq<char>, a: Seq<char>, r: Seq<char>)
    ensures
        lex(out, buf, a + seq![')'] + r) == lex(out, buf, a) + after_close(r),
    decreases a.len(),
{
    let s = a + seq![')'] + r;
    let e = Seq::<char>::empty();
    if a.len() == 0 {
        assert(s[0] == ')');
        assert(s.drop_first() =~= r);
        let o = flush(out, buf).push(seq![')']);
        if r.len() > 0 && r[0] == '(' {
            lemma_lex_prefix(o.push(seq!['*']), e, r);
            assert(o.push(seq!['*']) + tokenize(r) =~= flush(out, buf) + after_close(r));
        } else {
            lemma_lex_prefix(o, e, r);
            assert(o + tokenize(r) =~= flush(out, buf) + after_close(r));
        }
    } else {
        let c = a[0];
        let a1 = a.drop_first();
        assert(s[0] == c);
        assert(s.drop_first() =~= a1 + seq![')'] + r);
        if is_op_char(c) || c == '(' {
            lemma_lex_close(flush(out, buf).push(seq![c]), e, a1, r);
        } else if c == ')' {
            let o = flush(out, buf).push(seq![')']);
            if a1.len() > 0 {
                assert((a1 + seq![')'] + r)[0] == a1[0]);
            } else {
                assert((a1 + seq![')'] + r)[0] == ')');
            }
            lemma_lex_close(o, e, a1, r);
            lemma_lex_close(o.push(seq!['*']), e, a1, r);
        } else if c == ' ' {
            lemma_lex_close(out, buf, a1, r);
        } else {
            lemma_lex_close(out, buf.push(c), a1, r);
        }
    }
}

/// A `)` directly followed by `(` multiplies the two groups: the text
/// `a)(b` tokenizes as the tokens of `a`, then `)`, `*`, `(`, then the
/// tokens of `b`.
pub proof fn lemma_implicit_multiply(a: Seq<char>, b: Seq<char>)
    ensures
        tokenize(a + seq![')', '('] + b) == tokenize(a) + seq![seq![')'], seq!['*'], seq!['(']]
            + tokenize(b),
{
    let r = seq!['('] + b;
    assert(a + seq![')', '('] + b =~= a + seq![')'] + r);
    lemma_lex_close(Seq::empty(), Seq::empty(), a, r);
    assert(r[0] == '(');
    assert(r.drop_first() =~= b);
    lemma_lex_prefix(seq![seq!['(']], Seq::empty(), b);
    assert(flush(Seq::<Seq<char>>::empty(), Seq::<char>::empty()).push(seq!['('])
        =~= seq![seq!['(']]);
    assert(tokenize(r) == seq![seq!['(']] + tokenize(b));
    assert(after_close(r) =~= seq![seq![')'], seq!['*'], seq!['(']] + tokenize(b));
    assert(tokenize(a) + after_close(r) =~= tokenize(a) + seq![seq![')'], seq!['*'], seq!['(']]
        + tokenize(b));
}

/// A token is non-empty and holds no space.
pub open spec fn token_ok(t: Seq<char>) -> bool {
    t.len() > 0 && forall|k: int| 0 <= k < t.len() ==> t[k] != ' '
}

proof fn lemma_lex_tokens_ok(out: Seq<Seq<char>>, buf: Seq<char>, rest: Seq<char>)
    requires
        forall|k: int| 0 <= k < out.len() ==> token_ok(#[trigger] out[k]),
        forall|k: int| 0 <= k < buf.len() ==> buf[k] != ' ',
    ensures
        forall|k: int|
            0 <= k < lex(out, buf, rest).len() ==> token_ok(#[trigger] lex(out, buf, rest)[k]),
    decreases rest.len(),
{
    let f = flush(out, buf);
    assert forall|k: int| 0 <= k < f.len() implies token_ok(#[trigger] f[k]) by {
        if k < out.len() {
            assert(f[k] == out[k]);
        }
    }
    if rest.len() == 0 {
        assert(lex(out, buf, rest) == f);
    } else {
        let c = rest[0];
        let tail = rest.drop_first();
        let e = Seq::<char>::empty();
        if is_op_char(c) || c == '(' || c == ')' {
            let o = f.push(seq![c]);
            assert(token_ok(seq![c]));
            assert forall|k: int| 0 <= k < o.len() implies token_ok(#[trigger] o[k]) by {
                if k < f.len() {
                    assert(o[k] == f[k]);
                }
            }
            if c == ')' && tail.len() > 0 && tail[0] == '(' {
                let o2 = o.push(seq!['*']);
                assert(token_ok(seq!['*']));
                assert forall|k: int| 0 <= k < o2.len() implies token_ok(#[trigger] o2[k]) by {
                    if k < o.len() {
                        assert(o2[k] == o[k]);
                    }
                }
                lemma_lex_tokens_ok(o2, e, tail);
                assert(lex(out, buf, rest) == lex(o2, e, tail));
            } else {
                lemma_lex_tokens_ok(o, e, tail);
                assert(lex(out, buf, rest) == lex(o, e, tail));
            }
        } else if c == ' ' {
            lemma_lex_tokens_ok(out, buf, tail);
            assert(lex(out, buf, rest) == lex(out, buf, tail));
        } else {
            let b = buf.push(c);
            assert forall|k: int| 0 <= k < b.len() implies b[k] != ' ' by {
                if k < buf.len() {
                    assert(b[k] == buf[k]);
                }
            }
            lemma_lex_tokens_ok(out, b, tail);
            assert(lex(out, buf, rest) == lex(out, b, tail));
        }
    }
}

/// Every token of an expression text is non-empty and holds no space.
pub proof fn lemma_tokens_ok(s: Seq<char>)
    ensures
        forall|k: int| 0 <= k < tokenize(s).len() ==> token_ok(#[trigger] tokenize(s)[k]),
{
    lemma_lex_tokens_ok(Seq::empty(), Seq::empty(), s);
}

fn flush_into(out: &mut Vec<String>, buf: &mut Vec<char>)
    ensures
        final(out).deep_view() == flush(old(out).deep_view(), old(buf)@),
        final(buf)@ == Seq::<char>::empty(),
{
    if buf.len() > 0 {
        let t = string_of(buf);
        out.push(t);
        proof {
            assert(final(out).deep_view() =~= old(out).deep_view().push(old(buf)@));
        }
        *buf = Vec::new();
    }
}

fn push_char_token(out: &mut Vec<String>, c: char)
    ensures
        final(out).deep_view() == old(out).deep_view().push(seq![c]),
{
    let v = vec![c];
    assert(v@ =~= seq![c]);
    let t = string_of(&v);
    out.push(t);
    proof {
        assert(final(out).deep_view() =~= old(out).deep_view().push(seq![c]));
    }
}

impl Config {
    /// Splits the expression into tokens.
    pub fn parse_expression(&mut self) -> (r: Vec<String>)
        ensures
            r.deep_view() == tokenize(old(self).expression@),
            *final(self) == *old(self),
    {
        let cs = chars_of(self.expression.as_str());
        let mut out: Vec<String> = Vec::new();
        let mut buf: Vec<char> = Vec::new();
        let mut i: usize = 0;
        proof {
            assert(cs@.subrange(0, cs@.len() as int) =~= cs@);
            assert(out.deep_view() =~= Seq::<Seq<char>>::empty());
        }
        while i < cs.len()
            invariant
                i <= cs@.len(),
                cs@ == self.expression@,
                lex(out.deep_view(), buf@, cs@.subrange(i as int, cs@.len() as int)) == tokenize(
                    cs@,
                ),
            decreases cs@.len() - i,
        {
            let ghost rest = cs@.subrange(i as int, cs@.len() as int);
            let ghost tail = cs@.subrange(i + 1, cs@.len() as int);
            assert(rest.drop_first() =~= tail);
            let c = cs[i];
            if c == '+' || c == '-' || c == '*' || c == '/' || c == '^' || c == '(' {
                flush_into(&mut out, &mut buf);
                push_char_token(&mut out, c);
            } else if c == ')' {
                flush_into(&mut out, &mut buf);
                push_char_token(&mut out, c);
                if i + 1 < cs.len() && cs[i + 1] == '(' {
                    push_char_token(&mut out, '*');
                }
            } else if c != ' ' {
                buf.push(c);
            }
            i = i + 1;
        }
        assert(cs@.subrange(i as int, cs@.len() as int) =~= Seq::<char>::empty());
        flush_into(&mut out, &mut buf);
        out
    }
}

} // verus!
