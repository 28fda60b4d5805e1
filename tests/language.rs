use calc_interp::ast::Node;
use calc_interp::env::Env;
use calc_interp::error::Error;
use calc_interp::intepreter::Intepreter;
use calc_interp::lexer::Lexer;
use calc_interp::parser::Parser;
use calc_interp::printer::{print_expr, print_program, print_tree};
use calc_interp::token::{Token, TokenKind};
use calc_interp::visitor::PostOrderVisitor;

fn run(text: &str) -> Result<i32, Error> {
    Intepreter::new(text.to_string(), PostOrderVisitor).eval()
}

fn parse(text: &str) -> Result<Box<Node>, Error> {
    Parser::new(text.to_string()).parse()
}

fn render(tokens: &[Token]) -> String {
    let words: Vec<String> = tokens
        .iter()
        .map(|t| match t {
            Token::Integer(v) => v.to_string(),
            Token::Id(name) => name.clone(),
            Token::Plus => "+".to_string(),
            Token::Minus => "-".to_string(),
            Token::Multiply => "*".to_string(),
            Token::Divide => "/".to_string(),
            Token::LParen => "(".to_string(),
            Token::RParen => ")".to_string(),
            Token::Begin => "BEGIN".to_string(),
            Token::End => "END".to_string(),
            Token::Dot => ".".to_string(),
            Token::Assign => ":=".to_string(),
            Token::Semi => ";".to_string(),
            Token::Eof => String::new(),
        })
        .collect();
    words.join(" ")
}

fn all_tokens(text: &str) -> Vec<Token> {
    let mut lexer = Lexer::new(text.to_string());
    let mut out = Vec::new();
    loop {
        let t = lexer.get_next_token().unwrap();
        let done = t == Token::Eof;
        out.push(t);
        if done {
            return out;
        }
    }
}

#[test]
fn sum_chain_groups_from_the_left() {
    assert_eq!(run("1 + 2 - 3 - 4"), Ok(-4));
    assert_eq!(run("10 - 4 - 3"), Ok(3));
    assert_eq!(run("5"), Ok(5));
}

#[test]
fn product_chain_groups_from_the_left_and_truncates() {
    assert_eq!(run("1 * 2 * 3 / 4"), Ok(1));
    assert_eq!(run("100 / 10 / 5"), Ok(2));
    assert_eq!(run("7 / -2"), Ok(-3));
    assert_eq!(run("-7 / 2"), Ok(-3));
    assert_eq!(run("-7 / -2"), Ok(3));
}

#[test]
fn precedence_and_parentheses() {
    assert_eq!(run("1 + 2 * 3 - 4"), Ok(3));
    assert_eq!(run("(1 + 2) * 3 - 4"), Ok(5));
    assert_eq!(run("((((7))))"), Ok(7));
}

#[test]
fn unary_chains() {
    assert_eq!(run("-1"), Ok(-1));
    assert_eq!(run("-(1+1)"), Ok(-2));
    assert_eq!(run("1--1"), Ok(2));
    assert_eq!(run("+1--2"), Ok(3));
    assert_eq!(run("+1*-2"), Ok(-2));
    assert_eq!(run("- - - 3"), Ok(-3));
}

#[test]
fn division_by_zero_fails() {
    assert_eq!(run("1/0"), Err(Error::DivideByZero));
    assert_eq!(run("5 / (2 - 2)"), Err(Error::DivideByZero));
}

#[test]
fn failed_evaluation_commits_nothing() {
    let mut i = Intepreter::new("BEGIN x := 1; y := 1 / 0 END.".to_string(), PostOrderVisitor);
    assert_eq!(i.eval(), Err(Error::DivideByZero));
    assert_eq!(i.get_env().get("x"), None);
    assert_eq!(i.get_env().get("y"), None);
}

#[test]
fn division_evaluates_its_right_operand_first() {
    assert_eq!(run("BEGIN y := x / 0 END."), Err(Error::DivideByZero));
    assert_eq!(run("BEGIN y := x / z END."), Err(Error::UndefinedVariable("z".to_string())));
    assert_eq!(run("BEGIN y := x * z END."), Err(Error::UndefinedVariable("x".to_string())));
}

#[test]
fn whitespace_does_not_matter() {
    assert_eq!(run("   11 +   1"), Ok(12));
    assert_eq!(run("11+1"), Ok(12));
    assert_eq!(run("\t11\n+\r\n 1 "), Ok(12));
    assert_eq!(all_tokens("   11 +   1"), all_tokens("11+1"));
}

#[test]
fn statements_assign_variables() {
    let mut i = Intepreter::new("BEGIN x := 1; y := x + 2 END.".to_string(), PostOrderVisitor);
    assert_eq!(i.eval(), Ok(0));
    assert_eq!(i.get_env().get("x"), Some(1));
    assert_eq!(i.get_env().get("y"), Some(3));
    assert_eq!(i.get_env().get("z"), None);
}

#[test]
fn reading_an_unassigned_variable_fails() {
    assert_eq!(run("BEGIN y := x END."), Err(Error::UndefinedVariable("x".to_string())));
    assert_eq!(run("x + 1"), Err(Error::UndefinedVariable("x".to_string())));
}

#[test]
fn nested_blocks_and_empty_statements() {
    let mut i = Intepreter::new(
        "BEGIN BEGIN x := 2 END; ; y := x * x; x := 10; END.".to_string(),
        PostOrderVisitor,
    );
    assert_eq!(i.eval(), Ok(0));
    assert_eq!(i.get_env().get("x"), Some(10));
    assert_eq!(i.get_env().get("y"), Some(4));
    assert_eq!(run("BEGIN END."), Ok(0));
}

#[test]
fn bindings_persist_between_evaluations() {
    let mut i = Intepreter::new("BEGIN a := 3; b := a * a END.".to_string(), PostOrderVisitor);
    assert_eq!(i.eval(), Ok(0));
    assert_eq!(i.eval(), Ok(0));
    assert_eq!(i.get_env().get("b"), Some(9));
}

#[test]
fn names_are_case_sensitive() {
    let mut i = Intepreter::new("BEGIN x := 1; X := 2; begin := 3 END.".to_string(), PostOrderVisitor);
    assert_eq!(i.eval(), Ok(0));
    assert_eq!(i.get_env().get("x"), Some(1));
    assert_eq!(i.get_env().get("X"), Some(2));
    assert_eq!(i.get_env().get("begin"), Some(3));
}

#[test]
fn lexical_errors() {
    assert_eq!(run("1 + $"), Err(Error::Lex { ch: '$', pos: 4 }));
    assert_eq!(run("BEGIN x : 1 END."), Err(Error::Lex { ch: ':', pos: 8 }));
    assert_eq!(run("BEGIN x := 1 END:"), Err(Error::Lex { ch: ':', pos: 16 }));
}

#[test]
fn syntax_errors() {
    let eof = TokenKind::Eof;
    assert_eq!(run("1 +"), Err(Error::Syntax { expected: None, found: eof }));
    assert_eq!(
        run("(1 + 2"),
        Err(Error::Syntax { expected: Some(TokenKind::RParen), found: eof })
    );
    assert_eq!(
        run("1 2"),
        Err(Error::Syntax { expected: Some(TokenKind::Eof), found: TokenKind::Integer })
    );
    assert_eq!(
        run("BEGIN x := 1 END"),
        Err(Error::Syntax { expected: Some(TokenKind::Dot), found: eof })
    );
    assert_eq!(
        run("BEGIN x := 1 END. 5"),
        Err(Error::Syntax { expected: Some(TokenKind::Eof), found: TokenKind::Integer })
    );
    assert_eq!(
        run("BEGIN 1 := 2 END."),
        Err(Error::Syntax { expected: Some(TokenKind::End), found: TokenKind::Integer })
    );
    assert_eq!(
        run("BEGIN x 1 END."),
        Err(Error::Syntax { expected: Some(TokenKind::Assign), found: TokenKind::Integer })
    );
    assert_eq!(run(""), Err(Error::Syntax { expected: None, found: eof }));
}

#[test]
fn arithmetic_overflow_is_an_error() {
    assert_eq!(run("2147483647"), Ok(2147483647));
    assert_eq!(run("2147483647 + 1"), Err(Error::Overflow));
    assert_eq!(run("2147483648"), Err(Error::Overflow));
    assert_eq!(run("-2147483647 - 1"), Ok(-2147483648));
    assert_eq!(run("-(-2147483647 - 1)"), Err(Error::Overflow));
    assert_eq!(run("(-2147483647 - 1) / -1"), Err(Error::Overflow));
    assert_eq!(run("65536 * 32768"), Err(Error::Overflow));
}

#[test]
fn lexer_yields_tokens_then_end_of_input_for_ever() {
    let toks = all_tokens("BEGIN x1 := 12;END.");
    assert_eq!(
        toks,
        vec![
            Token::Begin,
            Token::Id("x1".to_string()),
            Token::Assign,
            Token::Integer(12),
            Token::Semi,
            Token::End,
            Token::Dot,
            Token::Eof,
        ]
    );
    let mut lexer = Lexer::new("  ".to_string());
    assert_eq!(lexer.get_next_token(), Ok(Token::Eof));
    assert_eq!(lexer.get_next_token(), Ok(Token::Eof));
    assert_eq!(lexer.get_next_token(), Ok(Token::Eof));
}

#[test]
fn representative_tokens_have_their_kind() {
    assert_eq!(Token::tt_integer().kind(), TokenKind::Integer);
    assert_eq!(Token::tt_plus(), Token::Plus);
    assert_eq!(Token::tt_minus(), Token::Minus);
    assert_eq!(Token::tt_multiply(), Token::Multiply);
    assert_eq!(Token::tt_divide(), Token::Divide);
    assert_eq!(Token::tt_lparen(), Token::LParen);
    assert_eq!(Token::tt_rparen(), Token::RParen);
    assert_eq!(Token::tt_begin(), Token::Begin);
    assert_eq!(Token::tt_end(), Token::End);
    assert_eq!(Token::tt_dot(), Token::Dot);
    assert_eq!(Token::tt_id(), Token::Id(String::new()));
    assert_eq!(Token::tt_assign(), Token::Assign);
    assert_eq!(Token::tt_semi(), Token::Semi);
    assert_eq!(Token::Id("abc".to_string()).kind(), TokenKind::Id);
}

#[test]
fn printed_expressions_parse_back_to_the_same_tree() {
    for text in ["(1+1*1*10/(1+3)) * (2-(3+2))", "-x + +3 * (y - 1) / 2", "1 - 2 - 3", "7"] {
        let tree = parse(text).unwrap();
        let mut tokens = Vec::new();
        print_expr(&tree, &mut tokens);
        let again = parse(&render(&tokens)).unwrap();
        assert_eq!(again, tree);
    }
}

#[test]
fn printed_programs_parse_back_to_the_same_tree() {
    let text = "BEGIN x := 1; BEGIN y := -x END; ; z := x * (y + 2) END.";
    let tree = parse(text).unwrap();
    let tokens = print_program(&tree);
    assert_eq!(tokens.last(), Some(&Token::Dot));
    let again = parse(&render(&tokens)).unwrap();
    assert_eq!(again, tree);
}

#[test]
fn any_parsed_tree_prints_and_parses_back() {
    for text in ["BEGIN END.", "BEGIN a := 1; b := -(a) * 2 END.", "--4 / (2 + x)", "y"] {
        let tree = parse(text).unwrap();
        let again = parse(&render(&print_tree(&tree))).unwrap();
        assert_eq!(again, tree);
    }
}

#[test]
fn environment_binds_and_rebinds() {
    let mut env = Env::new();
    assert_eq!(env.get("a"), None);
    env.set("a".to_string(), 1);
    env.set("b".to_string(), 2);
    env.set("a".to_string(), 5);
    assert_eq!(env.get("a"), Some(5));
    assert_eq!(env.get("b"), Some(2));
    let copy = env.snapshot();
    env.set("b".to_string(), 7);
    assert_eq!(copy.get("b"), Some(2));
    assert_eq!(env.get("b"), Some(7));
}
