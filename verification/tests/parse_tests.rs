use minilisp::lex::{tokenize, AnnotatedToken, Token};
use minilisp::parse::{parse, AST};

fn annotate_tokens(tokens: Vec<Token>) -> Vec<AnnotatedToken> {
    tokens
        .into_iter()
        .map(|token| AnnotatedToken {
            token,
            line: 0,
            column: 0,
        })
        .collect()
}

#[test]
fn generates_correct_ast() {
    let tokens = annotate_tokens(vec![
        Token::Lparen,
        Token::Symbol("+".to_string()),
        Token::Lparen,
        Token::Symbol("+".to_string()),
        Token::Integer(1),
        Token::Integer(2),
        Token::Rparen,
        Token::Integer(3),
        Token::Rparen,
    ]);
    let ast = parse(&tokens).unwrap();
    assert_eq!(
        ast,
        vec![AST::List(vec![
            AST::Symbol("+".to_string()),
            AST::List(vec![
                AST::Symbol("+".to_string()),
                AST::Integer(1),
                AST::Integer(2),
            ]),
            AST::Integer(3)
        ])]
    );
}

#[test]
fn handles_unmatched_lparen() {
    let tokens = annotate_tokens(vec![Token::Lparen]);
    let res = parse(&tokens);
    assert!(res.is_err())
}

#[test]
fn handles_extra_rparen() {
    let tokens = annotate_tokens(vec![Token::Rparen]);
    let res = parse(&tokens);
    assert!(res.is_err())
}

#[test]
fn boolean_literals_become_bool_nodes() {
    let toks = tokenize("(if #t 1 2)").unwrap();
    let ast = parse(&toks).unwrap();
    assert_eq!(
        ast,
        vec![AST::List(vec![
            AST::Symbol("if".to_string()),
            AST::Bool(true),
            AST::Integer(1),
            AST::Integer(2),
        ])]
    );
}

#[test]
fn empty_list_parses() {
    let toks = tokenize("( )").unwrap();
    let ast = parse(&toks).unwrap();
    assert_eq!(ast, vec![AST::List(vec![])]);
}
