use zerocalc::lexer::{Base, LiteralKind, Token, TokenKind, Tokenizer};

fn tokenize(input: &str) -> Vec<Token> {
    let mut tokenizer = Tokenizer::new(input);
    let mut tokens = Vec::new();
    loop {
        let token = tokenizer.next_token();
        if token.kind == TokenKind::Eof {
            return tokens;
        }
        tokens.push(token);
    }
}

#[test]
fn test_tokenizer_loop() {
    let input = "123+0x4f";

    let tokens = tokenize(input);
    let mut tokenizer = tokens.iter();

    let token = tokenizer.next().unwrap();

    assert_eq!(TokenKind::Literal(LiteralKind::Int(Base::Dec)), token.kind);
    assert_eq!("123", token.value_from(input));

    let token = tokenizer.next().unwrap();

    assert_eq!(TokenKind::Add, token.kind);
    assert_eq!("+", token.value_from(input));

    let token = tokenizer.next().unwrap();

    assert_eq!(TokenKind::Literal(LiteralKind::Int(Base::Hex)), token.kind);
    assert_eq!("0x4f", token.value_from(input));

    assert_eq!(None, tokenizer.next());
}

#[test]
fn test_ints() {
    let input = "1 23_33 +";
    let token = tokenize(input)[0];

    assert_eq!(TokenKind::Literal(LiteralKind::Int(Base::Dec)), token.kind);
    assert_eq!("1 23_33 ", token.value_from(input));
}

#[test]
fn test_float() {
    let input = "13.0";
    let token = tokenize(input)[0];

    assert_eq!(TokenKind::Literal(LiteralKind::Float), token.kind);
    assert_eq!(input, token.value_from(input));
}

#[test]
fn test_fraction_float() {
    let input = ".1";
    let token = tokenize(input)[0];

    assert_eq!(TokenKind::Literal(LiteralKind::Float), token.kind);
    assert_eq!(input, token.value_from(input));
}

#[test]
fn test_exp_float() {
    let input = ".1e -5";
    let token = tokenize(input)[0];

    assert_eq!(TokenKind::Literal(LiteralKind::Float), token.kind);
    assert_eq!(input, token.value_from(input));
}

#[test]
fn test_ident() {
    let input = "a0_b";
    let token = tokenize(input)[0];
    assert_eq!(TokenKind::Ident, token.kind);
    assert_eq!(input, token.value_from(input));
}

#[test]
fn test_string() {
    let input = "\"ab\\\"c\"";
    let token = tokenize(input)[0];
    assert_eq!(TokenKind::Literal(LiteralKind::String), token.kind);
    assert_eq!(input, token.value_from(input));
}

#[test]
fn test_eating_whitespaces() {
    let input = " 1 + 2 ";
    let tokens: Vec<Token> = tokenize(input);
    let expected = vec![
        Token::new(TokenKind::Literal(LiteralKind::Int(Base::Dec)), 0, 3),
        Token::new(TokenKind::Add, 3, 1),
        Token::new(TokenKind::Literal(LiteralKind::Int(Base::Dec)), 4, 3),
    ];
    assert_eq!(expected, tokens);
}

#[test]
fn end_of_input_repeats() {
    let mut tokenizer = Tokenizer::new("7  ");
    assert_eq!(Token::new(TokenKind::Literal(LiteralKind::Int(Base::Dec)), 0, 3), tokenizer.next_token());
    assert_eq!(Token::new(TokenKind::Eof, 3, 0), tokenizer.next_token());
    assert_eq!(Token::new(TokenKind::Eof, 3, 0), tokenizer.next_token());
}

#[test]
fn unterminated_string_stops_at_end() {
    let input = "\"abc\\";
    let mut tokenizer = Tokenizer::new(input);
    let token = tokenizer.next_token();
    assert_eq!(TokenKind::Literal(LiteralKind::String), token.kind);
    assert_eq!(input, token.value_from(input));
    assert_eq!(TokenKind::Eof, tokenizer.next_token().kind);
}

#[test]
fn unknown_char_is_one_token() {
    let input = "1 # 2";
    let tokens = tokenize(input);
    assert_eq!(3, tokens.len());
    assert_eq!(Token::new(TokenKind::Unknown, 2, 1), tokens[1]);
    assert_eq!("#", tokens[1].value_from(input));
}

#[test]
fn spans_count_bytes() {
    let input = "é+ü";
    let tokens = tokenize(input);
    assert_eq!(vec![
        Token::new(TokenKind::Ident, 0, 2),
        Token::new(TokenKind::Add, 2, 1),
        Token::new(TokenKind::Ident, 3, 2),
    ], tokens);
    assert_eq!("ü", tokens[2].value_from(input));
}

#[test]
fn prefixed_literals_and_exponent() {
    assert_eq!(TokenKind::Literal(LiteralKind::Int(Base::Bin)), tokenize("0b1_01")[0].kind);
    assert_eq!(TokenKind::Literal(LiteralKind::Int(Base::Oct)), tokenize("0o17")[0].kind);
    assert_eq!(TokenKind::Literal(LiteralKind::Int(Base::Dec)), tokenize("017")[0].kind);
    let input = "2E+3*x";
    let tokens = tokenize(input);
    assert_eq!(TokenKind::Literal(LiteralKind::Float), tokens[0].kind);
    assert_eq!("2E+3", tokens[0].value_from(input));
    let tokens = tokenize("(a,b)=c%d^e/f*g-h");
    let kinds: Vec<TokenKind> = tokens.iter().map(|t| t.kind).collect();
    assert_eq!(vec![
        TokenKind::Lpar, TokenKind::Ident, TokenKind::Coma, TokenKind::Ident, TokenKind::Rpar,
        TokenKind::Assign, TokenKind::Ident, TokenKind::Mod, TokenKind::Ident, TokenKind::Pow,
        TokenKind::Ident, TokenKind::Div, TokenKind::Ident, TokenKind::Mul, TokenKind::Ident,
        TokenKind::Sub, TokenKind::Ident,
    ], kinds);
}
