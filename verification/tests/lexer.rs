use aili::parser::lexer::LexerError::{
    AlphaCharacterInNumber, Generic, InvalidUnquoted, ParseIntError, UnterminatedQuoted,
};
use aili::parser::lexer::Token::{
    AltMatcher, Asterisk, At, CloseBrace, CloseBracket, CloseParen, Colon, Comma, DoubleAnd,
    DoubleOr, EdgeMatcher, Equals, ExtraMatcher, Greater, GreaterEquals, Int, Less,
    LessEquals, ManyMatcher, Minus, Not, NotEquals, OpenBrace, OpenBracket, OpenParen, Percent,
    Plus, Question, Quoted, RestrictMatcher, RootMatcher, Semicolon, Slash, Unquoted,
};
use aili::parser::lexer::{tokenize, IntLiteralError, LexerError, SourceLocationInformation, Token};

fn unq(s: &str) -> Token {
    Unquoted(s.to_string())
}

fn quo(s: &str) -> Token {
    Quoted(s.to_string())
}

#[test]
fn valid_unquoted_tokens() {
    let tokens = tokenize("a abc  -b -a- -abc-def --xyz  abc0 -a0b")
        .into_iter()
        .collect::<Result<Vec<_>, _>>()
        .expect("Tokens should have parsed successfully");
    assert_eq!(
        tokens,
        vec![
            unq("a"),
            unq("abc"),
            unq("-b"),
            unq("-a-"),
            unq("-abc-def"),
            unq("--xyz"),
            unq("abc0"),
            unq("-a0b")
        ]
    );
}

#[test]
fn invalid_unquoted_tokens() {
    let tokens = tokenize("-01 -- 123abc ---");
    assert_eq!(
        tokens,
        vec![
            Ok(Minus),
            Ok(Int(1)),
            Err(InvalidUnquoted),
            Err(AlphaCharacterInNumber),
            Err(InvalidUnquoted),
        ]
    );
}

#[test]
fn valid_quoted_strings() {
    let tokens = tokenize("\"\"  \" \" \"a\" \"abc\"")
        .into_iter()
        .collect::<Result<Vec<_>, _>>()
        .expect("Tokens should have parsed");
    assert_eq!(tokens, vec![quo(""), quo(" "), quo("a"), quo("abc")]);
}

#[test]
fn invalid_unterminated_quoted_string() {
    let tokens = tokenize("\"abc\n \"def\" \"xyz");
    assert_eq!(
        tokens,
        vec![
            Err(UnterminatedQuoted),
            Ok(quo("def")),
            Err(UnterminatedQuoted)
        ]
    );
}

#[test]
fn whitespace() {
    let tokens = tokenize("1  2 \n\t 3 \r\n4  \n")
        .into_iter()
        .collect::<Result<Vec<_>, _>>()
        .expect("Tokens should have parsed");
    assert_eq!(tokens, vec![Int(1), Int(2), Int(3), Int(4)]);
}

#[test]
fn comments() {
    let tokens = tokenize("1// abc \n //* */ x\n def /* xyz \n \nw*/ 4 // 42");
    assert_eq!(tokens, vec![Ok(Int(1)), Ok(unq("def")), Ok(Int(4))]);
}

#[test]
fn tricky_block_comments() {
    let tokens = tokenize(
        "1 /**/ 2 /** */ 3 /* **/ 4 /***/ 5 /*/*/ 6 /*//*/ 7 /*/**/ 8 /** ***/ 9 /** /***/ 10",
    );
    assert_eq!(tokens, (1..=10).map(Int).map(Ok).collect::<Vec<_>>());
}

#[test]
fn unterminated_block_comments() {
    let test_cases = [
        "/*  *", "/**", "/*/*", "/*", "/* ", "/** ", "/*/* ", "/*/", "/* * ",
    ];
    for case in test_cases {
        tokenize(case)
            .into_iter()
            .collect::<Result<Vec<_>, _>>()
            .expect_err("Parsing should have failed");
    }
}

#[test]
fn invalid_numeric_literals() {
    let tokens = tokenize("99999999999999999999 123abc123");
    assert!(matches!(
        tokens[..],
        [Err(ParseIntError(_)), Err(AlphaCharacterInNumber)]
    ));
}

#[test]
fn source_locations() {
    let mut lexer = Token::lexer("a \nb // x\nc /* \n y \n */ d \n e");
    let expected_source_locations = [
        SourceLocationInformation {
            line_index: 0,
            line_offset: 0,
        },
        SourceLocationInformation {
            line_index: 1,
            line_offset: 3,
        },
        SourceLocationInformation {
            line_index: 2,
            line_offset: 10,
        },
        SourceLocationInformation {
            line_index: 4,
            line_offset: 20,
        },
        SourceLocationInformation {
            line_index: 5,
            line_offset: 27,
        },
    ];
    for expected in expected_source_locations {
        lexer
            .next()
            .expect("Lexer should not yet be at the end of input")
            .expect("Token should have parsed successfully");
        assert_eq!(lexer.extras(), expected);
    }
    assert!(
        lexer.next().is_none(),
        "Lexer should have readhed the end of input"
    );
}

#[test]
fn matchers_and_operators() {
    let tokens = tokenize(".if .many .alt :: ::edge ::extra : + - ! * / % == != < > <= >= && || ? @ ; , { } ( ) [ ] #");
    assert_eq!(
        tokens,
        vec![
            Ok(RestrictMatcher),
            Ok(ManyMatcher),
            Ok(AltMatcher),
            Ok(RootMatcher),
            Ok(EdgeMatcher),
            Ok(ExtraMatcher),
            Ok(Colon),
            Ok(Plus),
            Ok(Minus),
            Ok(Not),
            Ok(Asterisk),
            Ok(Slash),
            Ok(Percent),
            Ok(Equals),
            Ok(NotEquals),
            Ok(Less),
            Ok(Greater),
            Ok(LessEquals),
            Ok(GreaterEquals),
            Ok(DoubleAnd),
            Ok(DoubleOr),
            Ok(Question),
            Ok(At),
            Ok(Semicolon),
            Ok(Comma),
            Ok(OpenBrace),
            Ok(CloseBrace),
            Ok(OpenParen),
            Ok(CloseParen),
            Ok(OpenBracket),
            Ok(CloseBracket),
            Ok(Token::Hash),
        ]
    );
}

#[test]
fn incomplete_tokens_are_errors() {
    // A partial matcher is an error covering what was read; the rest lexes anew.
    let tokens = tokenize(".ix ::edx = & | $");
    assert_eq!(
        tokens,
        vec![
            Err(Generic),
            Ok(unq("x")),
            Err(Generic),
            Ok(unq("x")),
            Err(Generic),
            Err(Generic),
            Err(Generic),
            Err(Generic),
        ]
    );
}

#[test]
fn largest_integer_literal() {
    let tokens = tokenize("18446744073709551615 18446744073709551616");
    assert_eq!(
        tokens,
        vec![
            Ok(Int(u64::MAX)),
            Err(ParseIntError(IntLiteralError::TooLarge))
        ]
    );
}

#[test]
fn line_offsets_count_bytes() {
    // "é" takes two bytes in UTF-8, so the line feed is the fifth byte.
    let mut lexer = Token::lexer("\"é\"\nx");
    assert_eq!(lexer.next(), Some(Ok(quo("é"))));
    assert_eq!(lexer.next(), Some(Ok(unq("x"))));
    assert_eq!(
        lexer.extras(),
        SourceLocationInformation {
            line_index: 1,
            line_offset: 5,
        }
    );
    assert_eq!(lexer.next(), None);
    assert_eq!(LexerError::default(), Generic);
}
