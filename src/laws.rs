//! Properties of the language as a whole, each proved from the models of the
//! lexer, parser and evaluator.
use vstd::prelude::*;
use crate::ast::{Operator, Tree};
use crate::error::ErrorView;
use crate::lexer::{lemma_next_token_progress, is_space, next_token, skip_space, tokens_from, lex_stop};
use crate::lexer::Stream;
use crate::intepreter::commit;
use crate::parser::{parse_text, binary_op, expr, expr_rest, factor, is_add_op, is_mul_op, parse_stream, term, term_rest};
use crate::token::TokenView;
use crate::visitor::{Bindings, apply, eval, fits_i32};

verus! {

proof fn lemma_skip_space_from(text: Seq<char>, p: int, q: int)
    requires
        0 <= p <= q <= text.len(),
        forall|i: int| p <= i < q ==> is_space(#[trigger] text[i]),
    ensures
        skip_space(text, p) == skip_space(text, q),
    decreases q - p,
{
    if p < q {
        assert(is_space(text[p]));
        lemma_skip_space_from(text, p + 1, q);
    }
}

/// Whitespace before a token is skipped: lexing from anywhere in a run of
/// whitespace gives the same token, and the same tokens after it.
pub proof fn lemma_space_is_skipped(text: Seq<char>, p: int, q: int)
    requires
        0 <= p <= q <= text.len(),
        forall|i: int| p <= i < q ==> is_space(#[trigger] text[i]),
    ensures
        next_token(text, p) == next_token(text, q),
        tokens_from(text, p) == tokens_from(text, q),
        lex_stop(text, p) == lex_stop(text, q),
{
    lemma_skip_space_from(text, p, q);
    lemma_next_token_progress(text, p);
    lemma_next_token_progress(text, q);
}

/// A division whose right operand evaluates to zero fails with
/// `DivideByZero`, before its left operand is evaluated: the bindings are
/// those that the right operand left.
pub proof fn lemma_divide_by_zero(left: Tree, right: Tree, env: Bindings)
    requires
        eval(right, env).0 == Ok::<i32, ErrorView>(0),
    ensures
        eval(Tree::BinOp(Operator::Divide, Box::new(left), Box::new(right)), env) == (
        Err::<i32, ErrorView>(ErrorView::DivideByZero), eval(right, env).1),
{
}

/// A line that parses to a division whose right operand evaluates to zero
/// fails with `DivideByZero`, and the interpreter keeps the bindings it had.
pub proof fn lemma_division_by_zero_commits_nothing(text: Seq<char>, env: Bindings)
    requires
        parse_text(text) matches Ok(Tree::BinOp(Operator::Divide, _, r)) && eval(*r, env).0
            == Ok::<i32, ErrorView>(0),
    ensures
        commit(parse_text(text), |t: Tree| eval(t, env), env) == (
        Err::<i32, ErrorView>(ErrorView::DivideByZero), env),
{
    if let Ok(Tree::BinOp(_, l, r)) = parse_text(text) {
        lemma_divide_by_zero(*l, *r, env);
    }
}

/// Reading a variable that holds no value fails with `UndefinedVariable`,
/// naming it, and changes nothing.
pub proof fn lemma_unassigned_read(name: Seq<char>, env: Bindings)
    requires
        !env.contains_key(name),
    ensures
        eval(Tree::Var(name), env) == (Err::<i32, ErrorView>(ErrorView::UndefinedVariable(name)), env),
{
}

/// The tokens of a chain `first op1 v1 op2 v2 ...`.
pub open spec fn chain_tokens(first: i32, rest: Seq<(TokenView, i32)>) -> Seq<TokenView>
    decreases rest.len(),
{
    if rest.len() == 0 {
        seq![TokenView::Integer(first)]
    } else {
        chain_tokens(first, rest.drop_last()) + seq![
            rest.last().0,
            TokenView::Integer(rest.last().1),
        ]
    }
}

/// The tree of a chain, grouped from the left.
pub open spec fn chain_tree(first: i32, rest: Seq<(TokenView, i32)>) -> Tree
    decreases rest.len(),
{
    if rest.len() == 0 {
        Tree::Num(first)
    } else {
        Tree::BinOp(
            binary_op(rest.last().0)->Some_0,
            Box::new(chain_tree(first, rest.drop_last())),
            Box::new(Tree::Num(rest.last().1)),
        )
    }
}

/// The value of a chain, computed from the left in integer arithmetic
/// (division rounds toward zero).
pub open spec fn chain_value(first: i32, rest: Seq<(TokenView, i32)>) -> int
    decreases rest.len(),
{
    if rest.len() == 0 {
        first as int
    } else {
        apply(binary_op(rest.last().0)->Some_0, chain_value(first, rest.drop_last()), rest.last().1 as int)
    }
}

/// The stream of a text that lexes to exactly `toks`.
pub open spec fn clean(toks: Seq<TokenView>) -> Stream {
    Stream { toks, stop: None }
}

proof fn lemma_chain_tokens(first: i32, rest: Seq<(TokenView, i32)>)
    ensures
        chain_tokens(first, rest).len() == 1 + 2 * rest.len(),
        chain_tokens(first, rest)[0] == TokenView::Integer(first),
        forall|k: int|
            0 <= k < rest.len() ==> chain_tokens(first, rest)[1 + 2 * k] == (#[trigger] rest[k]).0
                && chain_tokens(first, rest)[2 + 2 * k] == TokenView::Integer(rest[k].1),
    decreases rest.len(),
{
    if rest.len() > 0 {
        let init = rest.drop_last();
        lemma_chain_tokens(first, init);
        assert forall|k: int| 0 <= k < rest.len() implies chain_tokens(first, rest)[1 + 2 * k] == (
        #[trigger] rest[k]).0 && chain_tokens(first, rest)[2 + 2 * k] == TokenView::Integer(
            rest[k].1,
        ) by {
            if k < init.len() {
                assert(init[k] == rest[k]);
            }
        }
    }
}

proof fn lemma_chain_take(first: i32, rest: Seq<(TokenView, i32)>, k: int)
    requires
        0 <= k < rest.len(),
    ensures
        chain_tree(first, rest.take(k + 1)) == Tree::BinOp(
            binary_op(rest[k].0)->Some_0,
            Box::new(chain_tree(first, rest.take(k))),
            Box::new(Tree::Num(rest[k].1)),
        ),
        chain_value(first, rest.take(k + 1)) == apply(
            binary_op(rest[k].0)->Some_0,
            chain_value(first, rest.take(k)),
            rest[k].1 as int,
        ),
{
    assert(rest.take(k + 1).drop_last() =~= rest.take(k));
}

proof fn lemma_add_chain(first: i32, rest: Seq<(TokenView, i32)>, k: int)
    requires
        0 <= k <= rest.len(),
        forall|i: int| 0 <= i < rest.len() ==> is_add_op(#[trigger] rest[i].0),
    ensures
        expr_rest(clean(chain_tokens(first, rest)), 1 + 2 * k, chain_tree(first, rest.take(k)))
            == Ok::<(Tree, int), ErrorView>((chain_tree(first, rest), 1 + 2 * rest.len() as int)),
    decreases rest.len() - k,
{
    let s = clean(chain_tokens(first, rest));
    lemma_chain_tokens(first, rest);
    let n = rest.len() as int;
    if k == n {
        assert(rest.take(k) =~= rest);
    } else {
        let i = 1 + 2 * k;
        assert(s.at(i) == Ok::<TokenView, ErrorView>(rest[k].0));
        assert(s.at(i + 1) == Ok::<TokenView, ErrorView>(TokenView::Integer(rest[k].1)));
        assert(factor(s, i + 1) == Ok::<(Tree, int), ErrorView>((Tree::Num(rest[k].1), i + 2)));
        if k + 1 < n {
            assert(s.at(i + 2) == Ok::<TokenView, ErrorView>(rest[k + 1].0));
        }
        assert(term_rest(s, i + 2, Tree::Num(rest[k].1)) == Ok::<(Tree, int), ErrorView>(
            (Tree::Num(rest[k].1), i + 2),
        ));
        assert(term(s, i + 1) == Ok::<(Tree, int), ErrorView>((Tree::Num(rest[k].1), i + 2)));
        lemma_chain_take(first, rest, k);
        lemma_add_chain(first, rest, k + 1);
    }
}

proof fn lemma_mul_chain(first: i32, rest: Seq<(TokenView, i32)>, k: int)
    requires
        0 <= k <= rest.len(),
        forall|i: int| 0 <= i < rest.len() ==> is_mul_op(#[trigger] rest[i].0),
    ensures
        term_rest(clean(chain_tokens(first, rest)), 1 + 2 * k, chain_tree(first, rest.take(k)))
            == Ok::<(Tree, int), ErrorView>((chain_tree(first, rest), 1 + 2 * rest.len() as int)),
    decreases rest.len() - k,
{
    let s = clean(chain_tokens(first, rest));
    lemma_chain_tokens(first, rest);
    let n = rest.len() as int;
    if k == n {
        assert(rest.take(k) =~= rest);
    } else {
        let i = 1 + 2 * k;
        assert(s.at(i) == Ok::<TokenView, ErrorView>(rest[k].0));
        assert(s.at(i + 1) == Ok::<TokenView, ErrorView>(TokenView::Integer(rest[k].1)));
        assert(factor(s, i + 1) == Ok::<(Tree, int), ErrorView>((Tree::Num(rest[k].1), i + 2)));
        lemma_chain_take(first, rest, k);
        lemma_mul_chain(first, rest, k + 1);
    }
}

/// A chain of integers whose operators are all `+` and `-` parses to the
/// tree grouped from the left, and evaluates to the value of ordinary integer
/// arithmetic from left to right, wherever every partial result fits `i32`.
pub proof fn lemma_sum_chain(first: i32, rest: Seq<(TokenView, i32)>, env: Bindings)
    requires
        forall|i: int| 0 <= i < rest.len() ==> is_add_op(#[trigger] rest[i].0),
        forall|k: int| 0 <= k <= rest.len() ==> fits_i32(#[trigger] chain_value(first, rest.take(k))),
    ensures
        parse_stream(clean(chain_tokens(first, rest))) == Ok::<Tree, ErrorView>(chain_tree(first, rest)),
        eval(chain_tree(first, rest), env) == (
        Ok::<i32, ErrorView>(chain_value(first, rest) as i32), env),
{
    let s = clean(chain_tokens(first, rest));
    lemma_chain_tokens(first, rest);
    assert(rest.take(0) =~= Seq::<(TokenView, i32)>::empty());
    assert(factor(s, 0) == Ok::<(Tree, int), ErrorView>((Tree::Num(first), 1)));
    if rest.len() > 0 {
        assert(s.at(1) == Ok::<TokenView, ErrorView>(rest[0].0));
    }
    assert(term_rest(s, 1, Tree::Num(first)) == Ok::<(Tree, int), ErrorView>((Tree::Num(first), 1)));
    lemma_add_chain(first, rest, 0);
    assert(expr(s, 0) == Ok::<(Tree, int), ErrorView>((chain_tree(first, rest), 1 + 2 * rest.len() as int)));
    lemma_chain_eval(first, rest, env);
}

/// A chain of integers whose operators are all `*` and `/` parses to the
/// tree grouped from the left, and evaluates to the value of integer
/// arithmetic from left to right, division rounding toward zero, wherever no
/// divisor is zero and every partial result fits `i32`.
pub proof fn lemma_product_chain(first: i32, rest: Seq<(TokenView, i32)>, env: Bindings)
    requires
        forall|i: int| 0 <= i < rest.len() ==> is_mul_op(#[trigger] rest[i].0),
        forall|i: int| 0 <= i < rest.len() && (#[trigger] rest[i]).0 is Divide ==> rest[i].1 != 0,
        forall|k: int| 0 <= k <= rest.len() ==> fits_i32(#[trigger] chain_value(first, rest.take(k))),
    ensures
        parse_stream(clean(chain_tokens(first, rest))) == Ok::<Tree, ErrorView>(chain_tree(first, rest)),
        eval(chain_tree(first, rest), env) == (
        Ok::<i32, ErrorView>(chain_value(first, rest) as i32), env),
{
    let s = clean(chain_tokens(first, rest));
    lemma_chain_tokens(first, rest);
    assert(rest.take(0) =~= Seq::<(TokenView, i32)>::empty());
    assert(factor(s, 0) == Ok::<(Tree, int), ErrorView>((Tree::Num(first), 1)));
    lemma_mul_chain(first, rest, 0);
    assert(term(s, 0) == Ok::<(Tree, int), ErrorView>((chain_tree(first, rest), 1 + 2 * rest.len() as int)));
    assert(expr(s, 0) == Ok::<(Tree, int), ErrorView>((chain_tree(first, rest), 1 + 2 * rest.len() as int)));
    lemma_chain_eval(first, rest, env);
}

proof fn lemma_chain_eval(first: i32, rest: Seq<(TokenView, i32)>, env: Bindings)
    requires
        forall|i: int| 0 <= i < rest.len() ==> binary_op(#[trigger] rest[i].0) is Some,
        forall|i: int| 0 <= i < rest.len() && (#[trigger] rest[i]).0 is Divide ==> rest[i].1 != 0,
        forall|k: int| 0 <= k <= rest.len() ==> fits_i32(#[trigger] chain_value(first, rest.take(k))),
    ensures
        eval(chain_tree(first, rest), env) == (
        Ok::<i32, ErrorView>(chain_value(first, rest) as i32), env),
    decreases rest.len(),
{
    let n = rest.len() as int;
    if n > 0 {
        let init = rest.drop_last();
        assert forall|k: int| 0 <= k <= init.len() implies fits_i32(
            #[trigger] chain_value(first, init.take(k)),
        ) by {
            assert(init.take(k) =~= rest.take(k));
        }
        assert forall|i: int| 0 <= i < init.len() implies binary_op(#[trigger] init[i].0) is Some by {
            assert(init[i] == rest[i]);
        }
        assert forall|i: int| 0 <= i < init.len() && (#[trigger] init[i]).0 is Divide implies init[i].1
            != 0 by {
            assert(init[i] == rest[i]);
        }
        lemma_chain_eval(first, init, env);
        assert(rest.take(n) =~= rest);
        assert(init.take(init.len() as int) =~= init);
        assert(rest.take(n - 1) =~= init);
        assert(fits_i32(chain_value(first, rest.take(n))));
        assert(fits_i32(chain_value(first, rest.take(n - 1))));
        assert(binary_op(rest[n - 1].0) is Some);
        let a = chain_value(first, init);
        let last = rest[n - 1];
        assert(rest.last() == last);
        assert(eval(Tree::Num(last.1), env) == (Ok::<i32, ErrorView>(last.1), env));
        assert((a as i32) as int == a);
        assert(chain_value(first, rest) == apply(binary_op(last.0)->Some_0, a, last.1 as int));
    } else {
        assert(rest.take(0) =~= rest);
    }
}

} // verus!
