use vstd::prelude::*;
use crate::ast::{Node, Operator, Tree};
use crate::error::{Error, ErrorView, result_view};
use crate::lexer::{Lexer, Stream, stream, next_token, tokens_from, lex_stop, lemma_tokens_step};
use crate::printer::{printable, lemma_parsed_is_printable};
use crate::token::{Token, TokenKind, TokenView};

verus! {

/// A parse of a prefix of the stream from some index: the tree, and the index
/// of the first token after it.
pub type Parsed = Result<(Tree, int), ErrorView>;

/// The error for a lookahead token that fits no alternative.
pub open spec fn unexpected(t: TokenView, expected: Option<TokenKind>) -> ErrorView {
    ErrorView::Syntax { expected, found: t.kind() }
}

/// What consuming one token of kind `k` at index `i` fails with, if it fails.
pub open spec fn expect(s: Stream, i: int, k: TokenKind) -> Option<ErrorView> {
    match s.at(i) {
        Err(e) => Some(e),
        Ok(t) => if t.kind() == k {
            None
        } else {
            Some(unexpected(t, Some(k)))
        },
    }
}

// factor : INTEGER | LPAREN expr RPAREN | (PLUS | MINUS) factor | variable
pub open spec fn factor(s: Stream, i: int) -> Parsed
    decreases s.toks.len() - i, 0nat,
{
    match s.at(i) {
        Err(e) => Err(e),
        Ok(TokenView::Plus) => match factor(s, i + 1) {
            Ok((n, j)) => Ok((Tree::UnaryOp(Operator::Add, Box::new(n)), j)),
            Err(e) => Err(e),
        },
        Ok(TokenView::Minus) => match factor(s, i + 1) {
            Ok((n, j)) => Ok((Tree::UnaryOp(Operator::Subtract, Box::new(n)), j)),
            Err(e) => Err(e),
        },
        Ok(TokenView::Integer(v)) => Ok((Tree::Num(v), i + 1)),
        Ok(TokenView::LParen) => match expr(s, i + 1) {
            Ok((n, j)) => match expect(s, j, TokenKind::RParen) {
                None => Ok((n, j + 1)),
                Some(e) => Err(e),
            },
            Err(e) => Err(e),
        },
        Ok(TokenView::Id(name)) => Ok((Tree::Var(name), i + 1)),
        Ok(t) => Err(unexpected(t, None)),
    }
}

/// The operator that a token stands for between two terms (`+`, `-`) or
/// between two factors (`*`, `/`).
pub open spec fn binary_op(t: TokenView) -> Option<Operator> {
    match t {
        TokenView::Plus => Some(Operator::Add),
        TokenView::Minus => Some(Operator::Subtract),
        TokenView::Multiply => Some(Operator::Multiply),
        TokenView::Divide => Some(Operator::Divide),
        _ => None,
    }
}

pub open spec fn is_mul_op(t: TokenView) -> bool {
    t is Multiply || t is Divide
}

pub open spec fn is_add_op(t: TokenView) -> bool {
    t is Plus || t is Minus
}

// term : factor ((MUL | DIV) factor)*
pub open spec fn term(s: Stream, i: int) -> Parsed
    decreases s.toks.len() - i, 1nat,
{
    match factor(s, i) {
        Ok((n, j)) => if i < j <= s.toks.len() {
            term_rest(s, j, n)
        } else {
            Ok((n, j))
        },
        Err(e) => Err(e),
    }
}

/// The `((MUL | DIV) factor)*` loop of `term`, folding to the left onto `left`.
pub open spec fn term_rest(s: Stream, i: int, left: Tree) -> Parsed
    decreases s.toks.len() - i, 0nat,
{
    match s.at(i) {
        Err(e) => Err(e),
        Ok(t) => if is_mul_op(t) {
            match factor(s, i + 1) {
                Ok((r, j)) => if i < j <= s.toks.len() {
                    term_rest(s, j, Tree::BinOp(binary_op(t)->Some_0, Box::new(left), Box::new(r)))
                } else {
                    Ok((r, j))
                },
                Err(e) => Err(e),
            }
        } else {
            Ok((left, i))
        },
    }
}

// expr : term ((PLUS | MINUS) term)*
pub open spec fn expr(s: Stream, i: int) -> Parsed
    decreases s.toks.len() - i, 2nat,
{
    match term(s, i) {
        Ok((n, j)) => if i < j <= s.toks.len() {
            expr_rest(s, j, n)
        } else {
            Ok((n, j))
        },
        Err(e) => Err(e),
    }
}

/// The `((PLUS | MINUS) term)*` loop of `expr`, folding to the left onto `left`.
pub open spec fn expr_rest(s: Stream, i: int, left: Tree) -> Parsed
    decreases s.toks.len() - i, 0nat,
{
    match s.at(i) {
        Err(e) => Err(e),
        Ok(t) => if is_add_op(t) {
            match term(s, i + 1) {
                Ok((r, j)) => if i < j <= s.toks.len() {
                    expr_rest(s, j, Tree::BinOp(binary_op(t)->Some_0, Box::new(left), Box::new(r)))
                } else {
                    Ok((r, j))
                },
                Err(e) => Err(e),
            }
        } else {
            Ok((left, i))
        },
    }
}

/// A parse of a statement list: the statements, and the index of the first
/// token after them.
pub type ParsedList = Result<(Seq<Tree>, int), ErrorView>;

// compound_statement : BEGIN statement_list END
pub open spec fn compound(s: Stream, i: int) -> Parsed
    decreases s.toks.len() - i, 0nat,
{
    match expect(s, i, TokenKind::Begin) {
        Some(e) => Err(e),
        None => match statement_list(s, i + 1) {
            Ok((list, j)) => match expect(s, j, TokenKind::End) {
                None => Ok((Tree::Compound(list), j + 1)),
                Some(e) => Err(e),
            },
            Err(e) => Err(e),
        },
    }
}

// statement : compound_statement | assignment_statement | empty
pub open spec fn statement(s: Stream, i: int) -> Parsed
    decreases s.toks.len() - i, 1nat,
{
    match s.at(i) {
        Err(e) => Err(e),
        Ok(TokenView::Begin) => compound(s, i),
        Ok(TokenView::Id(_)) => assignment(s, i),
        Ok(_) => Ok((Tree::NoOp, i)),
    }
}

// assignment_statement : variable ASSIGN expr
pub open spec fn assignment(s: Stream, i: int) -> Parsed
    decreases s.toks.len() - i, 0nat,
{
    match s.at(i) {
        Err(e) => Err(e),
        Ok(TokenView::Id(name)) => match expect(s, i + 1, TokenKind::Assign) {
            None => match expr(s, i + 2) {
                Ok((r, j)) => Ok((Tree::Assign(Box::new(Tree::Var(name)), Box::new(r)), j)),
                Err(e) => Err(e),
            },
            Some(e) => Err(e),
        },
        Ok(t) => Err(unexpected(t, Some(TokenKind::Id))),
    }
}

// statement_list : statement (SEMI statement)*
pub open spec fn statement_list(s: Stream, i: int) -> ParsedList
    decreases s.toks.len() - i, 2nat,
{
    match statement(s, i) {
        Ok((n, j)) => if i <= j <= s.toks.len() {
            list_rest(s, j, seq![n])
        } else {
            Ok((seq![n], j))
        },
        Err(e) => Err(e),
    }
}

/// The `(SEMI statement)*` loop of `statement_list`, appending to `done`.
pub open spec fn list_rest(s: Stream, i: int, done: Seq<Tree>) -> ParsedList
    decreases s.toks.len() - i, 0nat,
{
    match s.at(i) {
        Err(e) => Err(e),
        Ok(TokenView::Semi) => match statement(s, i + 1) {
            Ok((n, j)) => if i < j <= s.toks.len() {
                list_rest(s, j, done.push(n))
            } else {
                Ok((done, j))
            },
            Err(e) => Err(e),
        },
        Ok(_) => Ok((done, i)),
    }
}

/// What must follow a complete unit at index `i`: the end of input.
pub open spec fn expect_end(s: Stream, i: int, n: Tree) -> Result<Tree, ErrorView> {
    match s.at(i) {
        Err(e) => Err(e),
        Ok(TokenView::Eof) => Ok(n),
        Ok(t) => Err(unexpected(t, Some(TokenKind::Eof))),
    }
}

// program : compound_statement DOT
pub open spec fn program(s: Stream) -> Result<Tree, ErrorView> {
    match compound(s, 0) {
        Ok((n, j)) => match expect(s, j, TokenKind::Dot) {
            None => expect_end(s, j + 1, n),
            Some(e) => Err(e),
        },
        Err(e) => Err(e),
    }
}

/// A whole line: a program when it starts with `BEGIN`, else a bare
/// expression; either must use up the input.
pub open spec fn parse_stream(s: Stream) -> Result<Tree, ErrorView> {
    match s.at(0) {
        Err(e) => Err(e),
        Ok(TokenView::Begin) => program(s),
        Ok(_) => match expr(s, 0) {
            Ok((n, j)) => expect_end(s, j, n),
            Err(e) => Err(e),
        },
    }
}

/// What parsing `text` yields.
pub open spec fn parse_text(text: Seq<char>) -> Result<Tree, ErrorView> {
    parse_stream(stream(text))
}

/// A recursive-descent parser with one token of lookahead.
pub struct Parser {
    lexer: Lexer,
    current_token: Result<Token, Error>,
    /// The index, in the text's token stream, of `current_token`; -1 before
    /// the first token is read.
    index: Ghost<int>,
}

impl Parser {
    /// The text being parsed.
    pub closed spec fn text(&self) -> Seq<char> {
        self.lexer.text()
    }

    /// The index of the lookahead token in the token stream.
    pub closed spec fn index(&self) -> int {
        self.index@
    }

    /// The token stream of the text being parsed.
    pub open spec fn tokens(&self) -> Stream {
        stream(self.text())
    }

    /// The lexer stands just past the token at `index` of the stream.
    pub closed spec fn synced(&self) -> bool {
        let s = self.tokens();
        &&& self.lexer.wf()
        &&& -1 <= self.index@ <= s.toks.len()
        &&& self.index@ < s.toks.len() ==> {
            &&& tokens_from(self.text(), self.lexer.pos() as int) == s.toks.skip(self.index@ + 1)
            &&& lex_stop(self.text(), self.lexer.pos() as int) == s.stop
        }
    }

    /// Synced, and the lookahead is the token at `index`.
    pub closed spec fn wf(&self) -> bool {
        &&& self.synced()
        &&& 0 <= self.index@
        &&& result_view(self.current_token) == self.tokens().at(self.index@)
    }

    pub fn new(text: String) -> (p: Parser)
        ensures
            p.text() == text@,
    {
        Parser { lexer: Lexer::new(text), current_token: Ok(Token::Eof), index: Ghost(0) }
    }

    /// Moves the lookahead to the next token of the stream.
    fn advance(&mut self)
        requires
            old(self).synced(),
            old(self).index() < old(self).tokens().toks.len(),
        ensures
            final(self).wf(),
            final(self).text() == old(self).text(),
            final(self).index() == old(self).index() + 1,
    {
        let ghost t = self.text();
        let ghost q = self.lexer.pos() as int;
        proof {
            self.lexer.lemma_pos_in_text();
            lemma_tokens_step(t, q);
        }
        self.current_token = self.lexer.get_next_token();
        self.index = Ghost(self.index@ + 1);
        proof {
            let s = stream(t);
            let i = self.index@;
            assert(s.toks.skip(i) == tokens_from(t, q));
            match next_token(t, q) {
                Ok((tok, q2)) => {
                    if !(tok is Eof) {
                        assert(tokens_from(t, q) == seq![tok] + tokens_from(t, q2));
                        assert(s.toks.skip(i)[0] == tok);
                        assert(s.toks[i] == tok);
                        assert(s.toks.skip(i + 1) =~= s.toks.skip(i).skip(1));
                        assert((seq![tok] + tokens_from(t, q2)).skip(1) =~= tokens_from(t, q2));
                    } else {
                        assert(s.toks.skip(i).len() == 0);
                    }
                },
                Err(_) => {
                    assert(s.toks.skip(i).len() == 0);
                },
            }
        }
    }

    /// The kind of the lookahead token; `None` where lexing failed.
    fn current_kind(&self) -> (k: Option<TokenKind>)
        requires
            self.wf(),
        ensures
            k == match self.tokens().at(self.index()) {
                Ok(t) => Some(t.kind()),
                Err(_) => None::<TokenKind>,
            },
    {
        match &self.current_token {
            Ok(t) => Some(t.kind()),
            Err(_) => None,
        }
    }

    /// Hands out the lexing error that stands in place of the lookahead.
    fn take_error(&mut self) -> (e: Error)
        requires
            old(self).wf(),
            old(self).tokens().at(old(self).index()) is Err,
        ensures
            final(self).text() == old(self).text(),
            e@ == old(self).tokens().at(old(self).index())->Err_0,
    {
        let mut cur = Ok(Token::Eof);
        core::mem::swap(&mut self.current_token, &mut cur);
        match cur {
            Err(e) => e,
            Ok(_) => {
                proof {
                    assert(false);
                }
                Error::Overflow
            },
        }
    }

    /// The syntax error for the lookahead token.
    fn error(&self, expected: Option<TokenKind>) -> (e: Error)
        requires
            self.wf(),
            self.tokens().at(self.index()) is Ok,
        ensures
            e@ == unexpected(self.tokens().at(self.index())->Ok_0, expected),
    {
        match &self.current_token {
            Ok(t) => Error::Syntax { expected, found: t.kind() },
            Err(_) => {
                proof {
                    assert(false);
                }
                Error::Overflow
            },
        }
    }

    /// Consumes the lookahead if it is of the same kind as `expected`.
    fn eat(&mut self, expected: Token) -> (r: Result<(), Error>)
        requires
            old(self).wf(),
            expected@.kind() != TokenKind::Eof,
        ensures
            final(self).text() == old(self).text(),
            match expect(old(self).tokens(), old(self).index(), expected@.kind()) {
                None => r is Ok && final(self).wf() && final(self).index() == old(self).index() + 1,
                Some(e) => r is Err && r->Err_0@ == e,
            },
    {
        match self.current_kind() {
            None => Err(self.take_error()),
            Some(k) => {
                if k == expected.kind() {
                    self.advance();
                    Ok(())
                } else {
                    Err(self.error(Some(expected.kind())))
                }
            },
        }
    }

    /// Accepts `n` as the whole unit if the input ends here.
    fn finish(&mut self, n: Box<Node>) -> (r: Result<Box<Node>, Error>)
        requires
            old(self).wf(),
        ensures
            final(self).text() == old(self).text(),
            result_view(r) == expect_end(old(self).tokens(), old(self).index(), n@),
            r is Ok ==> r->Ok_0 == n,
    {
        match self.current_kind() {
            None => Err(self.take_error()),
            Some(TokenKind::Eof) => Ok(n),
            Some(_) => Err(self.error(Some(TokenKind::Eof))),
        }
    }

    // program : compound_statement DOT
    fn program(&mut self) -> (r: Result<Box<Node>, Error>)
        requires
            old(self).wf(),
            old(self).index() == 0,
        ensures
            final(self).text() == old(self).text(),
            result_view(r) == program(old(self).tokens()),
            r is Ok ==> r->Ok_0@.well_formed(),
    {
        let node = match self.compound_statement() {
            Ok(n) => n,
            Err(e) => return Err(e),
        };
        match self.eat(Token::tt_dot()) {
            Ok(()) => {},
            Err(e) => return Err(e),
        }
        self.finish(node)
    }

    // compound_statement : BEGIN statement_list END
    fn compound_statement(&mut self) -> (r: Result<Box<Node>, Error>)
        requires
            old(self).wf(),
        ensures
            final(self).text() == old(self).text(),
            match compound(old(self).tokens(), old(self).index()) {
                Ok((n, j)) => r is Ok && r->Ok_0@ == n && final(self).wf() && final(self).index()
                    == j && old(self).index() < j,
                Err(e) => r is Err && r->Err_0@ == e,
            },
            r is Ok ==> r->Ok_0@.well_formed(),
        decreases old(self).tokens().toks.len() - old(self).index(), 0nat,
    {
        match self.eat(Token::tt_begin()) {
            Ok(()) => {},
            Err(e) => return Err(e),
        }
        let nodes = match self.statement_list() {
            Ok(v) => v,
            Err(e) => return Err(e),
        };
        match self.eat(Token::tt_end()) {
            Ok(()) => {},
            Err(e) => return Err(e),
        }
        Ok(Box::new(Node::Compound { children: nodes }))
    }

    // statement_list : statement (SEMI statement)*
    fn statement_list(&mut self) -> (r: Result<Vec<Box<Node>>, Error>)
        requires
            old(self).wf(),
        ensures
            final(self).text() == old(self).text(),
            match statement_list(old(self).tokens(), old(self).index()) {
                Ok((ns, j)) => r is Ok && Node::view_children(r->Ok_0@) == ns && final(self).wf()
                    && final(self).index() == j && old(self).index() <= j,
                Err(e) => r is Err && r->Err_0@ == e,
            },
            r is Ok ==> Tree::all_well_formed(Node::view_children(r->Ok_0@)),
        decreases old(self).tokens().toks.len() - old(self).index(), 2nat,
    {
        let ghost s = self.tokens();
        let ghost i0 = self.index();
        let node = match self.statement() {
            Ok(n) => n,
            Err(e) => return Err(e),
        };
        let mut statements: Vec<Box<Node>> = Vec::new();
        statements.push(node);
        proof {
            assert(statements@.drop_last() =~= Seq::<Box<Node>>::empty());
            assert(Node::view_children(statements@.drop_last()) =~= Seq::<Tree>::empty());
            assert(Node::view_children(statements@) =~= seq![node@]);
            assert(seq![node@].drop_last() =~= Seq::<Tree>::empty());
            assert(Tree::all_well_formed(Seq::<Tree>::empty()));
        }
        loop
            invariant
                self.wf(),
                self.text() == old(self).text(),
                s == self.tokens(),
                i0 == old(self).index(),
                i0 <= self.index() <= s.toks.len(),
                statement_list(s, i0) == list_rest(s, self.index(), Node::view_children(statements@)),
                Tree::all_well_formed(Node::view_children(statements@)),
            decreases s.toks.len() - self.index(),
        {
            match self.current_kind() {
                None => return Err(self.take_error()),
                Some(TokenKind::Semi) => {
                    self.advance();
                    let n = match self.statement() {
                        Ok(n) => n,
                        Err(e) => return Err(e),
                    };
                    let ghost before = statements@;
                    statements.push(n);
                    proof {
                        assert(statements@.drop_last() =~= before);
                        let vs = Node::view_children(statements@);
                        assert(vs.drop_last() =~= Node::view_children(before));
                    }
                },
                Some(_) => return Ok(statements),
            }
        }
    }

    // statement : compound_statement | assignment_statement | empty
    fn statement(&mut self) -> (r: Result<Box<Node>, Error>)
        requires
            old(self).wf(),
        ensures
            final(self).text() == old(self).text(),
            match statement(old(self).tokens(), old(self).index()) {
                Ok((n, j)) => r is Ok && r->Ok_0@ == n && final(self).wf() && final(self).index()
                    == j && old(self).index() <= j,
                Err(e) => r is Err && r->Err_0@ == e,
            },
            r is Ok ==> r->Ok_0@.well_formed(),
        decreases old(self).tokens().toks.len() - old(self).index(), 1nat,
    {
        match self.current_kind() {
            None => Err(self.take_error()),
            Some(TokenKind::Begin) => self.compound_statement(),
            Some(TokenKind::Id) => self.assignment_statement(),
            Some(_) => Ok(self.empty()),
        }
    }

    // assignment_statement : variable ASSIGN expr
    fn assignment_statement(&mut self) -> (r: Result<Box<Node>, Error>)
        requires
            old(self).wf(),
            old(self).tokens().at(old(self).index()) matches Ok(TokenView::Id(_)),
        ensures
            final(self).text() == old(self).text(),
            match assignment(old(self).tokens(), old(self).index()) {
                Ok((n, j)) => r is Ok && r->Ok_0@ == n && final(self).wf() && final(self).index()
                    == j && old(self).index() < j,
                Err(e) => r is Err && r->Err_0@ == e,
            },
            r is Ok ==> r->Ok_0@.well_formed(),
        decreases old(self).tokens().toks.len() - old(self).index(), 0nat,
    {
        let left = self.variable();
        match self.eat(Token::tt_assign()) {
            Ok(()) => {},
            Err(e) => return Err(e),
        }
        let right = match self.expr() {
            Ok(n) => n,
            Err(e) => return Err(e),
        };
        Ok(Box::new(Node::Assign { left, right }))
    }

    // variable : ID
    fn variable(&mut self) -> (r: Box<Node>)
        requires
            old(self).wf(),
            old(self).tokens().at(old(self).index()) matches Ok(TokenView::Id(_)),
        ensures
            final(self).text() == old(self).text(),
            final(self).wf(),
            final(self).index() == old(self).index() + 1,
            r@ == Tree::Var(old(self).tokens().at(old(self).index())->Ok_0->Id_0),
    {
        let mut cur = Ok(Token::Eof);
        core::mem::swap(&mut self.current_token, &mut cur);
        let node = match cur {
            Ok(Token::Id(name)) => Box::new(Node::Var(name)),
            _ => {
                proof {
                    assert(false);
                }
                Box::new(Node::NoOp)
            },
        };
        self.advance();
        node
    }

    // empty :
    fn empty(&self) -> (r: Box<Node>)
        ensures
            r@ == Tree::NoOp,
    {
        Box::new(Node::NoOp)
    }

    // factor : INTEGER | LPAREN expr RPAREN | (PLUS | MINUS) factor | variable
    fn factor(&mut self) -> (r: Result<Box<Node>, Error>)
        requires
            old(self).wf(),
        ensures
            final(self).text() == old(self).text(),
            match factor(old(self).tokens(), old(self).index()) {
                Ok((n, j)) => r is Ok && r->Ok_0@ == n && final(self).wf() && final(self).index()
                    == j && old(self).index() < j,
                Err(e) => r is Err && r->Err_0@ == e,
            },
            r is Ok ==> r->Ok_0@.well_formed(),
        decreases old(self).tokens().toks.len() - old(self).index(), 0nat,
    {
        match self.current_kind() {
            None => Err(self.take_error()),
            Some(TokenKind::Plus) => {
                self.advance();
                match self.factor() {
                    Ok(operand) => Ok(Box::new(Node::UnaryOp { op: Operator::Add, operand })),
                    Err(e) => Err(e),
                }
            },
            Some(TokenKind::Minus) => {
                self.advance();
                match self.factor() {
                    Ok(operand) => Ok(Box::new(Node::UnaryOp { op: Operator::Subtract, operand })),
                    Err(e) => Err(e),
                }
            },
            Some(TokenKind::Integer) => {
                let num = match &self.current_token {
                    Ok(Token::Integer(v)) => *v,
                    _ => {
                        proof {
                            assert(false);
                        }
                        0
                    },
                };
                self.advance();
                Ok(Box::new(Node::Num(num)))
            },
            Some(TokenKind::LParen) => {
                self.advance();
                let node = match self.expr() {
                    Ok(n) => n,
                    Err(e) => return Err(e),
                };
                match self.eat(Token::tt_rparen()) {
                    Ok(()) => Ok(node),
                    Err(e) => Err(e),
                }
            },
            Some(TokenKind::Id) => Ok(self.variable()),
            Some(_) => Err(self.error(None)),
        }
    }

    // term : factor ((MUL | DIV) factor)*
    fn term(&mut self) -> (r: Result<Box<Node>, Error>)
        requires
            old(self).wf(),
        ensures
            final(self).text() == old(self).text(),
            match term(old(self).tokens(), old(self).index()) {
                Ok((n, j)) => r is Ok && r->Ok_0@ == n && final(self).wf() && final(self).index()
                    == j && old(self).index() < j,
                Err(e) => r is Err && r->Err_0@ == e,
            },
            r is Ok ==> r->Ok_0@.well_formed(),
        decreases old(self).tokens().toks.len() - old(self).index(), 1nat,
    {
        let ghost s = self.tokens();
        let ghost i0 = self.index();
        let mut left = match self.factor() {
            Ok(n) => n,
            Err(e) => return Err(e),
        };
        loop
            invariant
                self.wf(),
                self.text() == old(self).text(),
                s == self.tokens(),
                i0 == old(self).index(),
                i0 < self.index() <= s.toks.len(),
                term(s, i0) == term_rest(s, self.index(), left@),
                left@.well_formed(),
            decreases s.toks.len() - self.index(),
        {
            let op = match self.current_kind() {
                None => return Err(self.take_error()),
                Some(TokenKind::Multiply) => Operator::Multiply,
                Some(TokenKind::Divide) => Operator::Divide,
                Some(_) => return Ok(left),
            };
            self.advance();
            let right = match self.factor() {
                Ok(n) => n,
                Err(e) => return Err(e),
            };
            left = Box::new(Node::BinOp { op, left, right });
        }
    }

    // expr : term ((PLUS | MINUS) term)*
    fn expr(&mut self) -> (r: Result<Box<Node>, Error>)
        requires
            old(self).wf(),
        ensures
            final(self).text() == old(self).text(),
            match expr(old(self).tokens(), old(self).index()) {
                Ok((n, j)) => r is Ok && r->Ok_0@ == n && final(self).wf() && final(self).index()
                    == j && old(self).index() < j,
                Err(e) => r is Err && r->Err_0@ == e,
            },
            r is Ok ==> r->Ok_0@.well_formed(),
        decreases old(self).tokens().toks.len() - old(self).index(), 2nat,
    {
        let ghost s = self.tokens();
        let ghost i0 = self.index();
        let mut left = match self.term() {
            Ok(n) => n,
            Err(e) => return Err(e),
        };
        loop
            invariant
                self.wf(),
                self.text() == old(self).text(),
                s == self.tokens(),
                i0 == old(self).index(),
                i0 < self.index() <= s.toks.len(),
                expr(s, i0) == expr_rest(s, self.index(), left@),
                left@.well_formed(),
            decreases s.toks.len() - self.index(),
        {
            let op = match self.current_kind() {
                None => return Err(self.take_error()),
                Some(TokenKind::Plus) => Operator::Add,
                Some(TokenKind::Minus) => Operator::Subtract,
                Some(_) => return Ok(left),
            };
            self.advance();
            let right = match self.term() {
                Ok(n) => n,
                Err(e) => return Err(e),
            };
            left = Box::new(Node::BinOp { op, left, right });
        }
    }

    /// Parses the whole text, from its start: a program when it starts with
    /// `BEGIN`, else a bare expression.
    pub fn parse(&mut self) -> (r: Result<Box<Node>, Error>)
        ensures
            final(self).text() == old(self).text(),
            result_view(r) == parse_text(old(self).text()),
            r is Ok ==> r->Ok_0@.well_formed() && printable(r->Ok_0@),
    {
        proof {
            if parse_text(self.text()) is Ok {
                lemma_parsed_is_printable(stream(self.text()));
            }
        }
        self.lexer.rewind();
        self.index = Ghost(-1);
        proof {
            let t = self.text();
            assert(stream(t).toks.skip(0) =~= stream(t).toks);
        }
        self.advance();
        match self.current_kind() {
            None => Err(self.take_error()),
            Some(TokenKind::Begin) => self.program(),
            Some(_) => {
                match self.expr() {
                    Ok(n) => self.finish(n),
                    Err(e) => Err(e),
                }
            },
        }
    }
}

} // verus!
