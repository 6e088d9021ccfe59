use syntax::tokenizer::{tokenize, LexerError, Token, Tokenizer};

#[test]
fn trivia() {
    assert_eq!(tokenize("; this is a line comment"), vec![]);
    assert_eq!(
        tokenize("; this is a line comment\n \t; this is another line comment"),
        vec![]
    )
}

#[test]
fn valid() {
    assert_eq!(
        tokenize(r#"(list"Hi"name(+1-2 3))-!"#),
        &[
            Ok(Token::LParen),
            Ok(Token::Identifier("list")),
            Ok(Token::StringLiteral("Hi")),
            Ok(Token::Identifier("name")),
            Ok(Token::LParen),
            Ok(Token::Identifier("+1-2")),
            Ok(Token::Identifier("3")),
            Ok(Token::RParen),
            Ok(Token::RParen),
            Ok(Token::Identifier("-!"))
        ]
    )
}

#[test]
fn invalid() {
    assert_eq!(
        tokenize("\"Hi! \n"),
        &[Err(LexerError::InvalidString("Hi! ".to_string()))]
    )
}

#[test]
fn tokenizer_trivia() {
    assert_eq!(tokenize("; this is a line comment"), vec![]);
    assert_eq!(
        tokenize("; this is a line comment\n \t; this is another line comment"),
        vec![]
    )
}

#[test]
fn tokenizer_valid() {
    assert_eq!(
        tokenize(r#"(list"Hi"name(+ 1 2))"#),
        &[
            Ok(Token::LParen),
            Ok(Token::Identifier("list")),
            Ok(Token::StringLiteral("Hi")),
            Ok(Token::Identifier("name")),
            Ok(Token::LParen),
            Ok(Token::Identifier("+")),
            Ok(Token::Identifier("1")),
            Ok(Token::Identifier("2")),
            Ok(Token::RParen),
            Ok(Token::RParen)
        ]
    )
}

#[test]
fn empty_input_yields_nothing() {
    assert_eq!(tokenize(""), vec![]);
}

#[test]
fn comment_only_line() {
    assert_eq!(tokenize("; comment only"), vec![]);
}

#[test]
fn two_comment_lines() {
    assert_eq!(tokenize("; c1\n; c2"), vec![]);
}

#[test]
fn comment_swallows_delimiters_and_quotes() {
    assert_eq!(tokenize("; (a) \"x\" [b] {c}"), vec![]);
}

#[test]
fn whitespace_only_yields_nothing() {
    assert_eq!(tokenize(" \t\r\n \u{a0}"), vec![]);
}

#[test]
fn all_bracket_tokens() {
    assert_eq!(
        tokenize("[]{}()"),
        &[
            Ok(Token::LBracket),
            Ok(Token::RBracket),
            Ok(Token::LCurlyBrace),
            Ok(Token::RCurlyBrace),
            Ok(Token::LParen),
            Ok(Token::RParen)
        ]
    );
}

#[test]
fn empty_string_literal() {
    assert_eq!(tokenize("\"\""), &[Ok(Token::StringLiteral(""))]);
}

#[test]
fn single_character_string_is_rejected() {
    // A one-character body fails even though its closing quote is
    // present; the quote is left for the next call, which then scans
    // an unterminated literal of its own.
    assert_eq!(
        tokenize("\"a\""),
        &[
            Err(LexerError::InvalidString("a".to_string())),
            Err(LexerError::InvalidString("".to_string()))
        ]
    );
}

#[test]
fn unterminated_string_at_end_of_input() {
    assert_eq!(
        tokenize("\"abc"),
        &[Err(LexerError::InvalidString("abc".to_string()))]
    );
}

#[test]
fn stream_recovers_after_error() {
    assert_eq!(
        tokenize("\"Hi\n(x)"),
        &[
            Err(LexerError::InvalidString("Hi".to_string())),
            Ok(Token::LParen),
            Ok(Token::Identifier("x")),
            Ok(Token::RParen)
        ]
    );
}

#[test]
fn quote_like_characters_begin_identifiers() {
    // ' ` and | end a run but are not matched as delimiters of their
    // own, so each begins the next identifier.
    assert_eq!(
        tokenize("'ab`c|d"),
        &[
            Ok(Token::Identifier("'ab")),
            Ok(Token::Identifier("`c")),
            Ok(Token::Identifier("|d"))
        ]
    );
}

#[test]
fn pull_based_stream() {
    let mut tokenizer = Tokenizer::new("(a ; rest\n]");
    assert_eq!(tokenizer.next(), Some(Ok(Token::LParen)));
    assert_eq!(tokenizer.next(), Some(Ok(Token::Identifier("a"))));
    assert_eq!(tokenizer.next(), Some(Ok(Token::RBracket)));
    assert_eq!(tokenizer.next(), None);
    assert_eq!(tokenizer.next(), None);
}

#[test]
fn retokenizing_yields_the_same_stream() {
    let input = "(list\"Hi\"name(+1-2 3))-! ; tail";
    let first = tokenize(input);
    let second = tokenize(input);
    assert_eq!(first, second);
    let mut drained = Vec::new();
    let mut tokenizer = Tokenizer::new(input);
    while let Some(item) = tokenizer.next() {
        drained.push(item);
    }
    assert_eq!(first, drained);
}

#[test]
fn token_texts_reconstruct_non_trivia_input() {
    let input = " (ab c)\t[d] ; note\ne";
    let mut concatenated = String::new();
    for item in tokenize(input) {
        match item {
            Ok(Token::Identifier(s)) => concatenated.push_str(s),
            Ok(Token::StringLiteral(s)) => concatenated.push_str(s),
            Ok(Token::LBracket) => concatenated.push('['),
            Ok(Token::RBracket) => concatenated.push(']'),
            Ok(Token::LCurlyBrace) => concatenated.push('{'),
            Ok(Token::RCurlyBrace) => concatenated.push('}'),
            Ok(Token::LParen) => concatenated.push('('),
            Ok(Token::RParen) => concatenated.push(')'),
            Err(_) => panic!("input has no quote characters, so no error can arise"),
        }
    }
    assert_eq!(concatenated, "(abc)[d]e");
}
