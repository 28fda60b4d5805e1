//! A canonical printer from syntax trees back to tokens, and the proof that
//! parsing what it prints gives the same tree back.
use vstd::prelude::*;
use crate::ast::{Node, Operator, Tree, lemma_view_children};
use crate::error::ErrorView;
use crate::lexer::Stream;
use crate::laws::clean;
use crate::parser::{
    assignment, binary_op, compound, expect, expect_end, expr, expr_rest, factor, is_add_op,
    is_mul_op, list_rest, parse_stream, program, statement, statement_list, term, term_rest,
};
use crate::token::{Token, TokenView};

verus! {

broadcast use vstd::seq::group_seq_axioms;

/// The token of an operator.
pub open spec fn op_token(op: Operator) -> TokenView {
    match op {
        Operator::Add => TokenView::Plus,
        Operator::Subtract => TokenView::Minus,
        Operator::Multiply => TokenView::Multiply,
        Operator::Divide => TokenView::Divide,
    }
}

/// Trees that the printer writes as expressions: numbers, variables, signs
/// and binary operations.
pub open spec fn printable_expr(t: Tree) -> bool
    decreases t,
{
    match t {
        Tree::Num(_) => true,
        Tree::Var(_) => true,
        Tree::UnaryOp(op, x) => (op is Add || op is Subtract) && printable_expr(*x),
        Tree::BinOp(_, l, r) => printable_expr(*l) && printable_expr(*r),
        _ => false,
    }
}

/// An expression, with every binary operation in parentheses.
pub open spec fn expr_tokens(t: Tree) -> Seq<TokenView>
    decreases t,
{
    match t {
        Tree::Num(v) => seq![TokenView::Integer(v)],
        Tree::Var(name) => seq![TokenView::Id(name)],
        Tree::UnaryOp(op, x) => seq![op_token(op)] + expr_tokens(*x),
        Tree::BinOp(op, l, r) => seq![TokenView::LParen] + expr_tokens(*l) + seq![op_token(op)]
            + expr_tokens(*r) + seq![TokenView::RParen],
        _ => Seq::empty(),
    }
}

/// The tokens of `toks` from index `i` are `part`.
pub open spec fn holds_at(toks: Seq<TokenView>, i: int, part: Seq<TokenView>) -> bool {
    0 <= i && i + part.len() <= toks.len() && toks.subrange(i, i + part.len()) == part
}

proof fn lemma_holds_split(toks: Seq<TokenView>, i: int, a: Seq<TokenView>, b: Seq<TokenView>)
    requires
        holds_at(toks, i, a + b),
    ensures
        holds_at(toks, i, a),
        holds_at(toks, i + a.len(), b),
{
    assert(toks.subrange(i, i + a.len()) =~= (a + b).subrange(0, a.len() as int));
    assert((a + b).subrange(0, a.len() as int) =~= a);
    assert(toks.subrange(i + a.len(), i + a.len() + b.len()) =~= (a + b).subrange(
        a.len() as int,
        (a + b).len() as int,
    ));
    assert((a + b).subrange(a.len() as int, (a + b).len() as int) =~= b);
}

proof fn lemma_holds_token(s: Stream, i: int, t: TokenView)
    requires
        holds_at(s.toks, i, seq![t]),
    ensures
        s.at(i) == Ok::<TokenView, ErrorView>(t),
{
    assert(s.toks.subrange(i, i + 1)[0] == s.toks[i]);
}

proof fn lemma_print_factor(s: Stream, i: int, t: Tree)
    requires
        printable_expr(t),
        holds_at(s.toks, i, expr_tokens(t)),
    ensures
        expr_tokens(t).len() > 0,
        factor(s, i) == Ok::<(Tree, int), ErrorView>((t, i + expr_tokens(t).len())),
    decreases t,
{
    match t {
        Tree::Num(v) => {
            lemma_holds_token(s, i, TokenView::Integer(v));
        },
        Tree::Var(name) => {
            lemma_holds_token(s, i, TokenView::Id(name));
        },
        Tree::UnaryOp(op, x) => {
            lemma_holds_split(s.toks, i, seq![op_token(op)], expr_tokens(*x));
            lemma_holds_token(s, i, op_token(op));
            lemma_print_factor(s, i + 1, *x);
        },
        Tree::BinOp(op, l, r) => {
            let pl = expr_tokens(*l);
            let pr = expr_tokens(*r);
            let open = seq![TokenView::LParen];
            let mid = seq![op_token(op)];
            let close = seq![TokenView::RParen];
            assert(expr_tokens(t) == open + pl + mid + pr + close);
            lemma_holds_split(s.toks, i, open + pl + mid + pr, close);
            lemma_holds_split(s.toks, i, open + pl + mid, pr);
            lemma_holds_split(s.toks, i, open + pl, mid);
            lemma_holds_split(s.toks, i, open, pl);
            lemma_holds_token(s, i, TokenView::LParen);
            let k = i + 1 + pl.len();
            let m = k + 1 + pr.len();
            lemma_holds_token(s, k, op_token(op));
            lemma_holds_token(s, m, TokenView::RParen);
            lemma_print_factor(s, i + 1, *l);
            lemma_print_factor(s, k + 1, *r);
            let whole = Tree::BinOp(op, l, r);
            if op is Multiply || op is Divide {
                assert(term_rest(s, m, whole) == Ok::<(Tree, int), ErrorView>((whole, m)));
                assert(term_rest(s, k, *l) == Ok::<(Tree, int), ErrorView>((whole, m)));
                assert(term(s, i + 1) == Ok::<(Tree, int), ErrorView>((whole, m)));
                assert(expr_rest(s, m, whole) == Ok::<(Tree, int), ErrorView>((whole, m)));
                assert(expr(s, i + 1) == Ok::<(Tree, int), ErrorView>((whole, m)));
            } else {
                assert(term_rest(s, k, *l) == Ok::<(Tree, int), ErrorView>((*l, k)));
                assert(term(s, i + 1) == Ok::<(Tree, int), ErrorView>((*l, k)));
                assert(term_rest(s, m, *r) == Ok::<(Tree, int), ErrorView>((*r, m)));
                assert(term(s, k + 1) == Ok::<(Tree, int), ErrorView>((*r, m)));
                assert(expr_rest(s, m, whole) == Ok::<(Tree, int), ErrorView>((whole, m)));
                assert(expr_rest(s, k, *l) == Ok::<(Tree, int), ErrorView>((whole, m)));
                assert(expr(s, i + 1) == Ok::<(Tree, int), ErrorView>((whole, m)));
            }
        },
        _ => {},
    }
}

/// A token after which an expression ends.
pub open spec fn ends_expr(r: Result<TokenView, ErrorView>) -> bool {
    r is Ok && !(r->Ok_0 is Plus || r->Ok_0 is Minus || r->Ok_0 is Multiply || r->Ok_0 is Divide)
}

proof fn lemma_print_expr(s: Stream, i: int, t: Tree)
    requires
        printable_expr(t),
        holds_at(s.toks, i, expr_tokens(t)),
        ends_expr(s.at(i + expr_tokens(t).len())),
    ensures
        expr(s, i) == Ok::<(Tree, int), ErrorView>((t, i + expr_tokens(t).len())),
{
    lemma_print_factor(s, i, t);
    let e = i + expr_tokens(t).len();
    assert(term_rest(s, e, t) == Ok::<(Tree, int), ErrorView>((t, e)));
    assert(term(s, i) == Ok::<(Tree, int), ErrorView>((t, e)));
    assert(expr_rest(s, e, t) == Ok::<(Tree, int), ErrorView>((t, e)));
}

/// The models of a list of tokens.
pub open spec fn views(ts: Seq<Token>) -> Seq<TokenView> {
    ts.map_values(|t: Token| t@)
}

fn push_token(out: &mut Vec<Token>, t: Token)
    ensures
        views(final(out)@) == views(old(out)@) + seq![t@],
{
    let ghost before = out@;
    out.push(t);
    assert(views(out@) =~= views(before) + seq![t@]);
}

fn op_token_of(op: Operator) -> (t: Token)
    ensures
        t@ == op_token(op),
{
    match op {
        Operator::Add => Token::Plus,
        Operator::Subtract => Token::Minus,
        Operator::Multiply => Token::Multiply,
        Operator::Divide => Token::Divide,
    }
}

/// Appends the tokens of an expression to `out`.
pub fn print_expr(node: &Node, out: &mut Vec<Token>)
    requires
        printable_expr(node@),
    ensures
        views(final(out)@) == views(old(out)@) + expr_tokens(node@),
    decreases node,
{
    let ghost before = views(out@);
    match node {
        Node::Num(v) => push_token(out, Token::Integer(*v)),
        Node::Var(name) => {
            let n = name.clone();
            push_token(out, Token::Id(n));
        },
        Node::UnaryOp { op, operand } => {
            push_token(out, op_token_of(*op));
            print_expr(operand, out);
            assert(views(out@) =~= before + expr_tokens(node@));
        },
        Node::BinOp { op, left, right } => {
            push_token(out, Token::LParen);
            print_expr(left, out);
            push_token(out, op_token_of(*op));
            print_expr(right, out);
            push_token(out, Token::RParen);
            assert(views(out@) =~= before + expr_tokens(node@));
        },
        _ => {},
    }
}

/// Appends the tokens of a statement to `out`.
pub fn print_stmt(node: &Node, out: &mut Vec<Token>)
    requires
        printable_stmt(node@),
    ensures
        views(final(out)@) == views(old(out)@) + stmt_tokens(node@),
    decreases node,
{
    let ghost before = views(out@);
    match node {
        Node::Assign { left, right } => {
            match &**left {
                Node::Var(name) => {
                    let n = name.clone();
                    assert(left@ == Tree::Var(name@));
                    assert(node@ == Tree::Assign(Box::new(Tree::Var(name@)), Box::new((**right)@)));
                    push_token(out, Token::Id(n));
                    push_token(out, Token::Assign);
                    print_expr(right, out);
                    assert(views(out@) =~= before + stmt_tokens(node@));
                },
                _ => {},
            }
        },
        Node::Compound { children } => {
            let ghost cs = Node::view_children(children@);
            proof {
                lemma_view_children(children@);
                assert(node@ == Tree::Compound(cs));
            }
            push_token(out, Token::Begin);
            let mut k: usize = 0;
            while k < children.len()
                invariant
                    cs == Node::view_children(children@),
                    cs.len() == children@.len(),
                    forall|i: int| 0 <= i < children@.len() ==> #[trigger] cs[i] == (*children@[i])@,
                    *node == (Node::Compound { children: *children }),
                    node@ == Tree::Compound(cs),
                    printable_stmt(node@),
                    cs.len() > 0,
                    k <= cs.len(),
                    views(out@) == before + seq![TokenView::Begin] + list_tokens(cs.take(k as int)),
                decreases children@.len() - k,
            {
                proof {
                    lemma_all_printable(cs, k as int);
                    assert(decreases_to!(*children => children[k as int]));
                    assert(decreases_to!(*node => *children));
                    if k >= 1 {
                        lemma_list_step(cs, k as int);
                    } else {
                        assert(cs.take(1) =~= seq![cs[0]]);
                        assert(cs.take(0) =~= Seq::<Tree>::empty());
                    }
                }
                if k > 0 {
                    push_token(out, Token::Semi);
                }
                print_stmt(&children[k], out);
                k += 1;
                proof {
                    let prev = before + seq![TokenView::Begin];
                    if k >= 2 {
                        assert(views(out@) =~= prev + list_tokens(cs.take(k as int)));
                    } else {
                        assert(views(out@) =~= prev + list_tokens(cs.take(k as int)));
                    }
                }
            }
            push_token(out, Token::End);
            proof {
                assert(cs.take(k as int) =~= cs);
                assert(views(out@) =~= before + stmt_tokens(node@));
            }
        },
        _ => {
            assert(node@ is NoOp);
            assert(views(out@) =~= before + stmt_tokens(node@));
        },
    }
}

/// The tokens of a program.
pub fn print_program(node: &Node) -> (r: Vec<Token>)
    requires
        node@ is Compound,
        printable_stmt(node@),
    ensures
        views(r@) == program_tokens(node@),
{
    let mut out: Vec<Token> = Vec::new();
    assert(views(out@) =~= Seq::<TokenView>::empty());
    print_stmt(node, &mut out);
    push_token(&mut out, Token::Dot);
    assert(views(out@) =~= program_tokens(node@));
    out
}

/// The canonical tokens of a tree: a block as a program, else an expression.
pub fn print_tree(node: &Node) -> (r: Vec<Token>)
    requires
        printable(node@),
    ensures
        views(r@) == print_tokens(node@),
{
    match node {
        Node::Compound { .. } => print_program(node),
        _ => {
            let mut out: Vec<Token> = Vec::new();
            assert(views(out@) =~= Seq::<TokenView>::empty());
            print_expr(node, &mut out);
            assert(views(out@) =~= expr_tokens(node@));
            out
        },
    }
}

/// Printing an expression and parsing the tokens gives the tree back.
pub proof fn lemma_expr_round_trip(t: Tree)
    requires
        printable_expr(t),
    ensures
        parse_stream(clean(expr_tokens(t))) == Ok::<Tree, ErrorView>(t),
{
    let s = clean(expr_tokens(t));
    assert(s.toks.subrange(0, s.toks.len() as int) =~= s.toks);
    lemma_print_factor(s, 0, t);
    lemma_print_expr(s, 0, t);
    assert(s.at(0) != Ok::<TokenView, ErrorView>(TokenView::Begin)) by {
        assert(s.toks[0] == expr_tokens(t)[0]);
    }
}

/// Trees that the printer writes as statements. A block holds at least one
/// statement, as the grammar has it (`BEGIN END` holds one empty statement).
pub open spec fn printable_stmt(t: Tree) -> bool
    decreases t,
{
    match t {
        Tree::Assign(l, r) => *l is Var && printable_expr(*r),
        Tree::Compound(cs) => cs.len() > 0 && all_printable(cs),
        Tree::NoOp => true,
        _ => false,
    }
}

pub open spec fn all_printable(cs: Seq<Tree>) -> bool
    decreases cs,
{
    cs.len() == 0 || (all_printable(cs.drop_last()) && printable_stmt(cs.last()))
}

/// A statement: an empty statement prints as nothing.
pub open spec fn stmt_tokens(t: Tree) -> Seq<TokenView>
    decreases t,
{
    match t {
        Tree::Assign(l, r) => match *l {
            Tree::Var(name) => seq![TokenView::Id(name), TokenView::Assign] + expr_tokens(*r),
            _ => Seq::empty(),
        },
        Tree::Compound(cs) => seq![TokenView::Begin] + list_tokens(cs) + seq![TokenView::End],
        _ => Seq::empty(),
    }
}

/// Statements separated by semicolons.
pub open spec fn list_tokens(cs: Seq<Tree>) -> Seq<TokenView>
    decreases cs,
{
    if cs.len() == 0 {
        Seq::empty()
    } else if cs.len() == 1 {
        stmt_tokens(cs[0])
    } else {
        list_tokens(cs.drop_last()) + seq![TokenView::Semi] + stmt_tokens(cs.last())
    }
}

/// A program: a block followed by a dot.
pub open spec fn program_tokens(t: Tree) -> Seq<TokenView> {
    stmt_tokens(t) + seq![TokenView::Dot]
}

/// A token after which a statement ends.
pub open spec fn ends_stmt(r: Result<TokenView, ErrorView>) -> bool {
    r == Ok::<TokenView, ErrorView>(TokenView::Semi) || r == Ok::<TokenView, ErrorView>(TokenView::End)
}

proof fn lemma_all_printable(cs: Seq<Tree>, k: int)
    requires
        all_printable(cs),
        0 <= k <= cs.len(),
    ensures
        all_printable(cs.take(k)),
        k < cs.len() ==> printable_stmt(cs[k]),
    decreases cs.len(),
{
    if k == cs.len() {
        assert(cs.take(k) =~= cs);
        if k > 0 {
            lemma_all_printable(cs.drop_last(), k - 1);
        }
    } else {
        let init = cs.drop_last();
        assert(init.take(k) =~= cs.take(k));
        if k < init.len() {
            lemma_all_printable(init, k);
            assert(init[k] == cs[k]);
        } else {
            lemma_all_printable(init, k);
        }
    }
}

/// The tokens of the first `k + 1` statements extend those of the first `k`.
proof fn lemma_list_step(cs: Seq<Tree>, k: int)
    requires
        1 <= k < cs.len(),
    ensures
        list_tokens(cs.take(k + 1)) == list_tokens(cs.take(k)) + (seq![TokenView::Semi]
            + stmt_tokens(cs[k])),
{
    assert(cs.take(k + 1).drop_last() =~= cs.take(k));
    assert(list_tokens(cs.take(k)) + seq![TokenView::Semi] + stmt_tokens(cs[k]) =~= list_tokens(
        cs.take(k),
    ) + (seq![TokenView::Semi] + stmt_tokens(cs[k])));
}

/// The tokens of the first `k` statements begin those of all of them.
proof fn lemma_list_prefix(toks: Seq<TokenView>, i: int, cs: Seq<Tree>, k: int)
    requires
        1 <= k <= cs.len(),
        holds_at(toks, i, list_tokens(cs)),
    ensures
        holds_at(toks, i, list_tokens(cs.take(k))),
    decreases cs.len() - k,
{
    if k == cs.len() {
        assert(cs.take(k) =~= cs);
    } else {
        lemma_list_prefix(toks, i, cs, k + 1);
        lemma_list_step(cs, k);
        lemma_holds_split(
            toks,
            i,
            list_tokens(cs.take(k)),
            seq![TokenView::Semi] + stmt_tokens(cs[k]),
        );
    }
}

proof fn lemma_print_stmt(s: Stream, i: int, t: Tree)
    requires
        printable_stmt(t),
        holds_at(s.toks, i, stmt_tokens(t)),
        ends_stmt(s.at(i + stmt_tokens(t).len())),
    ensures
        statement(s, i) == Ok::<(Tree, int), ErrorView>((t, i + stmt_tokens(t).len())),
    decreases t, 0nat,
{
    match t {
        Tree::Assign(l, r) => {
            let name = l->Var_0;
            assert(*l == Tree::Var(name));
            let head = seq![TokenView::Id(name), TokenView::Assign];
            lemma_holds_split(s.toks, i, head, expr_tokens(*r));
            assert(head =~= seq![TokenView::Id(name)] + seq![TokenView::Assign]);
            lemma_holds_split(s.toks, i, seq![TokenView::Id(name)], seq![TokenView::Assign]);
            lemma_holds_token(s, i, TokenView::Id(name));
            lemma_holds_token(s, i + 1, TokenView::Assign);
            lemma_print_expr(s, i + 2, *r);
        },
        Tree::Compound(cs) => {
            lemma_print_compound(s, i, cs);
            assert(stmt_tokens(t) =~= seq![TokenView::Begin] + (list_tokens(cs) + seq![TokenView::End]));
            lemma_holds_split(
                s.toks,
                i,
                seq![TokenView::Begin],
                list_tokens(cs) + seq![TokenView::End],
            );
            lemma_holds_token(s, i, TokenView::Begin);
        },
        _ => {},
    }
}

proof fn lemma_print_compound(s: Stream, i: int, cs: Seq<Tree>)
    requires
        printable_stmt(Tree::Compound(cs)),
        holds_at(s.toks, i, stmt_tokens(Tree::Compound(cs))),
    ensures
        compound(s, i) == Ok::<(Tree, int), ErrorView>(
            (Tree::Compound(cs), i + stmt_tokens(Tree::Compound(cs)).len()),
        ),
    decreases cs, cs.len(),
{
    let body = list_tokens(cs);
    let open = seq![TokenView::Begin];
    let close = seq![TokenView::End];
    assert(stmt_tokens(Tree::Compound(cs)) == open + body + close);
    lemma_holds_split(s.toks, i, open + body, close);
    lemma_holds_split(s.toks, i, open, body);
    assert(open + body + close =~= open + (body + close));
    lemma_holds_split(s.toks, i, open, body + close);
    lemma_holds_token(s, i, TokenView::Begin);
    let end = i + 1 + body.len();
    lemma_holds_token(s, end, TokenView::End);
    lemma_print_list(s, i + 1, cs, 1);
    lemma_list_prefix(s.toks, i + 1, cs, 1);
    assert(cs.take(1) =~= seq![cs[0]]);
    assert(list_tokens(cs.take(1)) == stmt_tokens(cs[0]));
    lemma_all_printable(cs, 0);
    let p1 = i + 1 + stmt_tokens(cs[0]).len();
    lemma_list_follow(s, i + 1, cs, 1);
    lemma_print_stmt(s, i + 1, cs[0]);
    assert(statement_list(s, i + 1) == Ok::<(Seq<Tree>, int), ErrorView>((cs, end)));
}

/// After the first `k` statements of a block comes a semicolon, or the
/// block's `END` once all are read.
proof fn lemma_list_follow(s: Stream, i: int, cs: Seq<Tree>, k: int)
    requires
        1 <= k <= cs.len(),
        holds_at(s.toks, i, list_tokens(cs) + seq![TokenView::End]),
    ensures
        holds_at(s.toks, i, list_tokens(cs.take(k))),
        k < cs.len() ==> holds_at(
            s.toks,
            i + list_tokens(cs.take(k)).len(),
            seq![TokenView::Semi] + stmt_tokens(cs[k]),
        ),
        k < cs.len() ==> s.at(i + list_tokens(cs.take(k)).len()) == Ok::<TokenView, ErrorView>(
            TokenView::Semi,
        ),
        k == cs.len() ==> s.at(i + list_tokens(cs.take(k)).len()) == Ok::<TokenView, ErrorView>(
            TokenView::End,
        ),
{
    lemma_holds_split(s.toks, i, list_tokens(cs), seq![TokenView::End]);
    lemma_list_prefix(s.toks, i, cs, k);
    if k < cs.len() {
        lemma_list_prefix(s.toks, i, cs, k + 1);
        lemma_list_step(cs, k);
        lemma_holds_split(
            s.toks,
            i,
            list_tokens(cs.take(k)),
            seq![TokenView::Semi] + stmt_tokens(cs[k]),
        );
        lemma_holds_split(
            s.toks,
            i + list_tokens(cs.take(k)).len(),
            seq![TokenView::Semi],
            stmt_tokens(cs[k]),
        );
        lemma_holds_token(s, i + list_tokens(cs.take(k)).len(), TokenView::Semi);
    } else {
        assert(cs.take(k) =~= cs);
        lemma_holds_token(s, i + list_tokens(cs).len(), TokenView::End);
    }
}

proof fn lemma_print_list(s: Stream, i: int, cs: Seq<Tree>, k: int)
    requires
        printable_stmt(Tree::Compound(cs)),
        1 <= k <= cs.len(),
        holds_at(s.toks, i, list_tokens(cs) + seq![TokenView::End]),
    ensures
        list_rest(s, i + list_tokens(cs.take(k)).len(), cs.take(k)) == Ok::<
            (Seq<Tree>, int),
            ErrorView,
        >((cs, i + list_tokens(cs).len())),
    decreases cs, cs.len() - k,
{
    lemma_list_follow(s, i, cs, k);
    if k == cs.len() {
        assert(cs.take(k) =~= cs);
    } else {
        let pos = i + list_tokens(cs.take(k)).len();
        lemma_all_printable(cs, k);
        lemma_list_follow(s, i, cs, k + 1);
        lemma_list_step(cs, k);
        assert(pos + 1 + stmt_tokens(cs[k]).len() == i + list_tokens(cs.take(k + 1)).len());
        lemma_holds_split(s.toks, pos, seq![TokenView::Semi], stmt_tokens(cs[k]));
        lemma_print_stmt(s, pos + 1, cs[k]);
        assert(cs.take(k).push(cs[k]) =~= cs.take(k + 1));
        lemma_print_list(s, i, cs, k + 1);
    }
}

/// Printing a program and parsing the tokens gives the tree back.
pub proof fn lemma_program_round_trip(t: Tree)
    requires
        t is Compound,
        printable_stmt(t),
    ensures
        parse_stream(clean(program_tokens(t))) == Ok::<Tree, ErrorView>(t),
{
    let s = clean(program_tokens(t));
    let cs = t->Compound_0;
    assert(s.toks.subrange(0, s.toks.len() as int) =~= s.toks);
    lemma_holds_split(s.toks, 0, stmt_tokens(t), seq![TokenView::Dot]);
    lemma_print_compound(s, 0, cs);
    lemma_holds_token(s, stmt_tokens(t).len() as int, TokenView::Dot);
    assert(s.toks[0] == TokenView::Begin);
    assert(expect_end(s, s.toks.len() as int, t) == Ok::<Tree, ErrorView>(t));
}

/// Trees that the printer writes: an expression, or a program's block.
pub open spec fn printable(t: Tree) -> bool {
    printable_expr(t) || (t is Compound && printable_stmt(t))
}

/// The canonical printing of a tree: a block as a program, else an expression.
pub open spec fn print_tokens(t: Tree) -> Seq<TokenView> {
    if t is Compound {
        program_tokens(t)
    } else {
        expr_tokens(t)
    }
}

proof fn lemma_factor_printable(s: Stream, i: int)
    ensures
        factor(s, i) is Ok ==> printable_expr(factor(s, i)->Ok_0.0),
    decreases s.toks.len() - i, 0nat,
{
    match s.at(i) {
        Ok(TokenView::Plus) => lemma_factor_printable(s, i + 1),
        Ok(TokenView::Minus) => lemma_factor_printable(s, i + 1),
        Ok(TokenView::LParen) => lemma_expr_printable(s, i + 1),
        _ => {},
    }
}

proof fn lemma_term_printable(s: Stream, i: int)
    ensures
        term(s, i) is Ok ==> printable_expr(term(s, i)->Ok_0.0),
    decreases s.toks.len() - i, 1nat,
{
    lemma_factor_printable(s, i);
    if let Ok((n, j)) = factor(s, i) {
        if i < j <= s.toks.len() {
            lemma_term_rest_printable(s, j, n);
        }
    }
}

proof fn lemma_term_rest_printable(s: Stream, i: int, left: Tree)
    requires
        printable_expr(left),
    ensures
        term_rest(s, i, left) is Ok ==> printable_expr(term_rest(s, i, left)->Ok_0.0),
    decreases s.toks.len() - i, 0nat,
{
    if let Ok(t) = s.at(i) {
        if is_mul_op(t) {
            lemma_factor_printable(s, i + 1);
            if let Ok((r, j)) = factor(s, i + 1) {
                if i < j <= s.toks.len() {
                    lemma_term_rest_printable(
                        s,
                        j,
                        Tree::BinOp(binary_op(t)->Some_0, Box::new(left), Box::new(r)),
                    );
                }
            }
        }
    }
}

proof fn lemma_expr_printable(s: Stream, i: int)
    ensures
        expr(s, i) is Ok ==> printable_expr(expr(s, i)->Ok_0.0),
    decreases s.toks.len() - i, 2nat,
{
    lemma_term_printable(s, i);
    if let Ok((n, j)) = term(s, i) {
        if i < j <= s.toks.len() {
            lemma_expr_rest_printable(s, j, n);
        }
    }
}

proof fn lemma_expr_rest_printable(s: Stream, i: int, left: Tree)
    requires
        printable_expr(left),
    ensures
        expr_rest(s, i, left) is Ok ==> printable_expr(expr_rest(s, i, left)->Ok_0.0),
    decreases s.toks.len() - i, 0nat,
{
    if let Ok(t) = s.at(i) {
        if is_add_op(t) {
            lemma_term_printable(s, i + 1);
            if let Ok((r, j)) = term(s, i + 1) {
                if i < j <= s.toks.len() {
                    lemma_expr_rest_printable(
                        s,
                        j,
                        Tree::BinOp(binary_op(t)->Some_0, Box::new(left), Box::new(r)),
                    );
                }
            }
        }
    }
}

proof fn lemma_compound_printable(s: Stream, i: int)
    ensures
        compound(s, i) is Ok ==> compound(s, i)->Ok_0.0 is Compound && printable_stmt(
            compound(s, i)->Ok_0.0,
        ),
    decreases s.toks.len() - i, 0nat,
{
    if expect(s, i, crate::token::TokenKind::Begin) is None {
        lemma_list_printable(s, i + 1);
    }
}

proof fn lemma_statement_printable(s: Stream, i: int)
    ensures
        statement(s, i) is Ok ==> printable_stmt(statement(s, i)->Ok_0.0),
    decreases s.toks.len() - i, 1nat,
{
    match s.at(i) {
        Ok(TokenView::Begin) => lemma_compound_printable(s, i),
        Ok(TokenView::Id(_)) => {
            if expect(s, i + 1, crate::token::TokenKind::Assign) is None {
                lemma_expr_printable(s, i + 2);
            }
            assert(assignment(s, i) == statement(s, i));
        },
        _ => {},
    }
}

proof fn lemma_list_printable(s: Stream, i: int)
    ensures
        statement_list(s, i) is Ok ==> statement_list(s, i)->Ok_0.0.len() > 0 && all_printable(
            statement_list(s, i)->Ok_0.0,
        ),
    decreases s.toks.len() - i, 2nat,
{
    lemma_statement_printable(s, i);
    if let Ok((n, j)) = statement(s, i) {
        assert(seq![n].drop_last() =~= Seq::<Tree>::empty());
        assert(all_printable(Seq::<Tree>::empty()));
        assert(seq![n].last() == n);
        assert(all_printable(seq![n]));
        if i <= j <= s.toks.len() {
            lemma_list_rest_printable(s, j, seq![n]);
        }
    }
}

proof fn lemma_list_rest_printable(s: Stream, i: int, done: Seq<Tree>)
    requires
        done.len() > 0,
        all_printable(done),
    ensures
        list_rest(s, i, done) is Ok ==> list_rest(s, i, done)->Ok_0.0.len() > 0 && all_printable(
            list_rest(s, i, done)->Ok_0.0,
        ),
    decreases s.toks.len() - i, 0nat,
{
    if let Ok(TokenView::Semi) = s.at(i) {
        lemma_statement_printable(s, i + 1);
        if let Ok((n, j)) = statement(s, i + 1) {
            if i < j <= s.toks.len() {
                assert(done.push(n).drop_last() =~= done);
                lemma_list_rest_printable(s, j, done.push(n));
            }
        }
    }
}

/// Every tree that parsing yields is one that the printer writes.
pub proof fn lemma_parsed_is_printable(s: Stream)
    requires
        parse_stream(s) is Ok,
    ensures
        printable(parse_stream(s)->Ok_0),
{
    match s.at(0) {
        Ok(TokenView::Begin) => {
            lemma_compound_printable(s, 0);
            assert(program(s) is Ok ==> compound(s, 0) is Ok && program(s)->Ok_0 == compound(
                s,
                0,
            )->Ok_0.0);
        },
        _ => lemma_expr_printable(s, 0),
    }
}

/// Printing a tree that parsing yielded, and parsing the printed tokens,
/// gives the same tree again.
pub proof fn lemma_reparse(s: Stream)
    requires
        parse_stream(s) is Ok,
    ensures
        parse_stream(clean(print_tokens(parse_stream(s)->Ok_0))) == parse_stream(s),
{
    let t = parse_stream(s)->Ok_0;
    lemma_parsed_is_printable(s);
    if t is Compound {
        lemma_program_round_trip(t);
    } else {
        lemma_expr_round_trip(t);
    }
}

} // verus!
