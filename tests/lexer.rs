use antimony::lexer::{tokenize, Keyword, Position, Token, TokenKind, Value};

fn token(kind: TokenKind, raw: &str, len: usize, at: usize, line: usize, offset: usize) -> Token {
    Token {
        len,
        kind,
        raw: raw.to_owned(),
        pos: Position {
            raw: at,
            line,
            offset,
        },
    }
}

#[test]
fn test_basic_tokenizing() {
    let raw = tokenize("1 = 2");
    let mut tokens = raw.into_iter();

    assert_eq!(
        tokens.next().unwrap(),
        token(TokenKind::Literal(Value::Int), "1", 1, 0, 1, 0)
    );
    assert_eq!(
        tokens.next().unwrap(),
        token(TokenKind::Whitespace, " ", 1, 1, 1, 1)
    );
    assert_eq!(
        tokens.next().unwrap(),
        token(TokenKind::Assign, "=", 1, 2, 1, 2)
    );
    assert_eq!(
        tokens.next().unwrap(),
        token(TokenKind::Whitespace, " ", 1, 3, 1, 3)
    );
    assert_eq!(
        tokens.next().unwrap(),
        token(TokenKind::Literal(Value::Int), "2", 1, 4, 1, 4)
    );
}

#[test]
fn test_tokenizing_without_whitespace() {
    let mut tokens = tokenize("1=2").into_iter();

    assert_eq!(
        tokens.next().unwrap(),
        token(TokenKind::Literal(Value::Int), "1", 1, 0, 1, 0)
    );
    assert_eq!(
        tokens.next().unwrap(),
        token(TokenKind::Assign, "=", 1, 1, 1, 1)
    );
    assert_eq!(
        tokens.next().unwrap(),
        token(TokenKind::Literal(Value::Int), "2", 1, 2, 1, 2)
    );
}

#[test]
fn test_string() {
    let mut tokens = tokenize("'aaa' \"bbb\"").into_iter();

    assert_eq!(
        tokens.next().unwrap(),
        token(TokenKind::Literal(Value::Str), "'aaa'", 5, 4, 1, 4)
    );
    assert_eq!(
        tokens.nth(1).unwrap(),
        token(TokenKind::Literal(Value::Str), "\"bbb\"", 5, 10, 1, 10)
    );
}

#[test]
fn test_string_markers_within_string() {
    let mut tokens = tokenize("'\"aaa' \"'bbb\"").into_iter();

    assert_eq!(
        tokens.next().unwrap(),
        token(TokenKind::Literal(Value::Str), "'\"aaa'", 6, 5, 1, 5)
    );
    assert_eq!(
        tokens.nth(1).unwrap(),
        token(TokenKind::Literal(Value::Str), "\"'bbb\"", 6, 12, 1, 12)
    );
}

#[test]
fn test_numbers() {
    let mut tokens = tokenize("42").into_iter();

    assert_eq!(
        tokens.next().unwrap(),
        token(TokenKind::Literal(Value::Int), "42", 2, 1, 1, 1)
    );
}

#[test]
fn test_binary_numbers() {
    let mut tokens = tokenize("0b101010").into_iter();

    assert_eq!(
        tokens.next().unwrap(),
        token(TokenKind::Literal(Value::Int), "0b101010", 8, 7, 1, 7)
    );
}

#[test]
fn test_octal_numbers() {
    let mut tokens = tokenize("0o52").into_iter();

    assert_eq!(
        tokens.next().unwrap(),
        token(TokenKind::Literal(Value::Int), "0o52", 4, 3, 1, 3)
    );
}

#[test]
fn test_hex_numbers() {
    let mut tokens = tokenize("0x2A").into_iter();

    assert_eq!(
        tokens.next().unwrap(),
        token(TokenKind::Literal(Value::Int), "0x2A", 4, 3, 1, 3)
    );
}

#[test]
fn test_functions() {
    let mut tokens = tokenize("fn fib() {}").into_iter();

    assert_eq!(
        tokens.next().unwrap(),
        token(TokenKind::Keyword(Keyword::Function), "fn", 2, 1, 1, 1)
    );

    let mut tokens = tokenize("pub fn fib() {}").into_iter();

    assert!(matches!(
        tokens.next().unwrap(),
        Token {
            kind: TokenKind::Keyword(Keyword::Pub),
            ..
        }
    ));
    assert!(matches!(
        tokens.next().unwrap(),
        Token {
            kind: TokenKind::Whitespace,
            ..
        }
    ));
    assert!(matches!(
        tokens.next().unwrap(),
        Token {
            kind: TokenKind::Keyword(Keyword::Function),
            ..
        }
    ));
}

#[test]
fn test_comments() {
    let mut tokens = tokenize(
        "// foo
fn fib() {}
        ",
    )
    .into_iter()
    .filter(|t| {
        t.kind != TokenKind::Whitespace
            && t.kind != TokenKind::Tab
            && t.kind != TokenKind::CarriageReturn
    });

    assert_eq!(
        tokens.next().unwrap(),
        token(TokenKind::Comment, "// foo", 6, 5, 1, 5)
    );
    assert_eq!(
        tokens.next().unwrap(),
        token(TokenKind::Keyword(Keyword::Function), "fn", 2, 8, 2, 2)
    );
}

fn joined(source: &str) -> String {
    tokenize(source).iter().map(|t| t.raw.clone()).collect()
}

#[test]
fn tokens_spell_the_input() {
    for source in [
        "",
        "fn main() {\n\treturn 0x1F + 'a\"b' // done\r\n}",
        "a==b != c <= d >= e && f || g -> h += 1 -= 2 *= 3 /= 4",
        "unterminated 'string",
        "é№ x",
    ] {
        assert_eq!(joined(source), source);
    }
}

#[test]
fn each_space_is_a_token() {
    let tokens = tokenize("   ");
    assert_eq!(tokens.len(), 3);
    assert!(tokens.iter().all(|t| t.kind == TokenKind::Whitespace && t.len == 1));
    let kinds: Vec<TokenKind> = tokenize(" \t\n\r").iter().map(|t| t.kind).collect();
    assert_eq!(
        kinds,
        vec![
            TokenKind::Whitespace,
            TokenKind::Tab,
            TokenKind::CarriageReturn,
            TokenKind::CarriageReturn
        ]
    );
}

#[test]
fn radix_literal_stops_at_foreign_digit() {
    let tokens = tokenize("0b1012");
    assert_eq!(tokens[0].raw, "0b101");
    assert_eq!(tokens[0].kind, TokenKind::Literal(Value::Int));
    assert_eq!(tokens[1].raw, "2");
    let tokens = tokenize("0o78");
    assert_eq!(tokens[0].raw, "0o7");
    let tokens = tokenize("0xfFg");
    assert_eq!(tokens[0].raw, "0xfF");
    assert_eq!(tokens[1].kind, TokenKind::Identifier);
}

#[test]
fn operators_of_two_characters() {
    let kinds: Vec<TokenKind> = tokenize("==!=<=>=&&||->+=-=*=/=")
        .iter()
        .map(|t| t.kind)
        .collect();
    assert_eq!(
        kinds,
        vec![
            TokenKind::Equals,
            TokenKind::NotEqual,
            TokenKind::LessThanOrEqual,
            TokenKind::GreaterThanOrEqual,
            TokenKind::And,
            TokenKind::Or,
            TokenKind::ArrowRight,
            TokenKind::PlusEqual,
            TokenKind::MinusEqual,
            TokenKind::StarEqual,
            TokenKind::SlashEqual
        ]
    );
}

#[test]
fn identifiers_and_keywords() {
    let tokens = tokenize("fnord _x1 true self");
    assert_eq!(tokens[0].kind, TokenKind::Identifier);
    assert_eq!(tokens[0].raw, "fnord");
    assert_eq!(tokens[2].kind, TokenKind::Identifier);
    assert_eq!(tokens[2].raw, "_x1");
    assert_eq!(tokens[4].kind, TokenKind::Keyword(Keyword::Boolean));
    assert_eq!(tokens[6].kind, TokenKind::Keyword(Keyword::SelfValue));
}

#[test]
fn unknown_characters_are_kept() {
    let tokens = tokenize("é=1");
    assert_eq!(tokens.len(), 3);
    assert_eq!(tokens[0].kind, TokenKind::Unknown);
    assert_eq!(tokens[0].len, 2);
    assert_eq!(tokens[0].pos, Position { raw: 0, line: 1, offset: 0 });
    assert_eq!(tokens[1].pos, Position { raw: 2, line: 1, offset: 2 });
    assert_eq!(tokens[2].pos, Position { raw: 3, line: 1, offset: 3 });
}

#[test]
fn positions_across_lines() {
    let tokens = tokenize("a\nbc");
    assert_eq!(tokens[0].pos, Position { raw: 0, line: 1, offset: 0 });
    assert_eq!(tokens[1].kind, TokenKind::CarriageReturn);
    assert_eq!(tokens[1].pos, Position { raw: 1, line: 2, offset: 0 });
    assert_eq!(tokens[2].raw, "bc");
    assert_eq!(tokens[2].pos, Position { raw: 3, line: 2, offset: 2 });
}

#[test]
fn unterminated_string_runs_to_the_end() {
    let tokens = tokenize("x = \"abc");
    let last = tokens.last().unwrap();
    assert_eq!(last.kind, TokenKind::Literal(Value::Str));
    assert_eq!(last.raw, "\"abc");
    assert_eq!(last.len, 4);
}
