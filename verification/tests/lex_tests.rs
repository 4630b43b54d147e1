use minilisp::lex::{tokenize, Token};

#[test]
fn generates_correct_symbols() {
    let source = "(+ 1 21)";
    let annotated_tokens = tokenize(source).unwrap();
    let tokens = annotated_tokens
        .into_iter()
        .map(|tok| tok.token)
        .collect::<Vec<_>>();
    assert_eq!(
        tokens,
        vec![
            Token::Lparen,
            Token::Symbol("+".to_string()),
            Token::Integer(1),
            Token::Integer(21),
            Token::Rparen
        ]
    );
}

#[test]
fn generates_error() {
    let source = "hello\n12abc";
    let res = tokenize(source);
    assert!(res.is_err());
    let err = res.unwrap_err();
    assert_eq!(err.line, 1);
    assert_eq!(err.column, 2);
}

#[test]
fn annotates_positions() {
    let toks = tokenize("ab\n (").unwrap();
    assert_eq!(toks.len(), 2);
    assert_eq!(toks[0].token, Token::Symbol("ab".to_string()));
    assert_eq!(toks[0].line, 0);
    assert_eq!(toks[0].column, 0);
    assert_eq!(toks[1].token, Token::Lparen);
    assert_eq!(toks[1].line, 1);
    assert_eq!(toks[1].column, 1);
}

#[test]
fn parens_delimit_tokens() {
    let toks = tokenize("(a)(2)").unwrap();
    let tokens = toks.into_iter().map(|t| t.token).collect::<Vec<_>>();
    assert_eq!(
        tokens,
        vec![
            Token::Lparen,
            Token::Symbol("a".to_string()),
            Token::Rparen,
            Token::Lparen,
            Token::Integer(2),
            Token::Rparen
        ]
    );
}

#[test]
fn empty_source_has_no_tokens() {
    let toks = tokenize("   \n\t ").unwrap();
    assert!(toks.is_empty());
}
