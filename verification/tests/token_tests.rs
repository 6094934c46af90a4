use bidir::token::{is_ident_member, is_ident_start, is_whitespace, Lexer, Token};

fn ident(name: &str) -> Token {
    Token::Ident(name.to_string())
}

fn lex(input: &str) -> Vec<Token> {
    Lexer::new(input).tokens()
}

#[test]
fn lexes_single_characters() {
    assert_eq!(
        lex("\\ . ( ) { } < > ; , = :"),
        vec![
            Token::Lambda,
            Token::Dot,
            Token::LParen,
            Token::RParen,
            Token::LBrace,
            Token::RBrace,
            Token::LAngle,
            Token::RAngle,
            Token::Semi,
            Token::Comma,
            Token::Equals,
            Token::Colon,
        ]
    );
}

#[test]
fn lexes_double_characters() {
    assert_eq!(lex("-> => ::"), vec![Token::Arrow, Token::FatArrow, Token::DoubleColon]);
    assert_eq!(lex("a->b"), vec![ident("a"), Token::Arrow, ident("b")]);
    assert_eq!(lex("x::Int"), vec![ident("x"), Token::DoubleColon, Token::UpperIdent("Int".to_string())]);
}

#[test]
fn lexes_keywords_and_identifiers() {
    assert_eq!(
        lex("true false forall let letrec in match type"),
        vec![
            Token::BooleanLiteral(true),
            Token::BooleanLiteral(false),
            Token::Forall,
            Token::Let,
            Token::LetRec,
            Token::In,
            Token::Match,
            Token::Type,
        ]
    );
    assert_eq!(
        lex("truth x_1 Int lets"),
        vec![ident("truth"), ident("x_1"), Token::UpperIdent("Int".to_string()), ident("lets")]
    );
}

#[test]
fn lexes_numbers() {
    assert_eq!(lex("0 42 007"), vec![Token::IntLiteral(0), Token::IntLiteral(42), Token::IntLiteral(7)]);
    assert_eq!(lex("2147483647"), vec![Token::IntLiteral(2147483647)]);
    assert_eq!(lex("1x"), vec![Token::IntLiteral(1), ident("x")]);
}

#[test]
fn lexes_an_expression() {
    assert_eq!(
        lex("  (\\x. x) :: forall a. a -> a"),
        vec![
            Token::LParen,
            Token::Lambda,
            ident("x"),
            Token::Dot,
            ident("x"),
            Token::RParen,
            Token::DoubleColon,
            Token::Forall,
            ident("a"),
            Token::Dot,
            ident("a"),
            Token::Arrow,
            ident("a"),
        ]
    );
}

#[test]
fn stops_where_no_token_begins() {
    assert_eq!(lex(""), Vec::<Token>::new());
    assert_eq!(lex("   \t\n"), Vec::<Token>::new());
    assert_eq!(lex("a ? b"), vec![ident("a")]);
    assert_eq!(lex("a - b"), vec![ident("a")]);
    assert_eq!(lex("1 2147483648 3"), vec![Token::IntLiteral(1)]);
}

#[test]
fn goes_on_behind_what_gave_no_token() {
    let mut lexer = Lexer::new("a ? b");
    assert_eq!(lexer.next_token(), Some(ident("a")));
    assert_eq!(lexer.next_token(), None);
    assert!(!lexer.at_end());
    assert_eq!(lexer.next_token(), Some(ident("b")));
    assert!(lexer.at_end());
    assert_eq!(lexer.next_token(), None);
    assert_eq!(lexer.next_token(), None);
}

#[test]
fn second_character_is_read_as_a_token() {
    assert_eq!(lex(":::a"), vec![Token::DoubleColon, ident("a")]);
    assert_eq!(lex("::::a"), vec![Token::DoubleColon, ident("a")]);
}

#[test]
fn skips_unicode_white_space() {
    assert_eq!(lex("\u{00A0}a\u{2003}b\u{3000}"), vec![ident("a"), ident("b")]);
}

#[test]
fn character_classes() {
    assert!(is_ident_start('a') && is_ident_start('z') && is_ident_start('A') && is_ident_start('Z'));
    assert!(!is_ident_start('_') && !is_ident_start('0') && !is_ident_start('\u{e9}'));
    assert!(is_ident_member('_') && is_ident_member('0') && is_ident_member('9') && is_ident_member('q'));
    assert!(!is_ident_member('-') && !is_ident_member(' '));
    for c in ['\t', '\n', '\u{0b}', '\u{0c}', '\r', ' ', '\u{85}', '\u{a0}', '\u{1680}', '\u{2000}', '\u{200a}', '\u{2028}', '\u{2029}', '\u{202f}', '\u{205f}', '\u{3000}'] {
        assert!(is_whitespace(c));
        assert!(c.is_whitespace());
    }
    for c in ['a', '0', '\u{08}', '\u{0e}', '\u{200b}', '\u{1f}', '\u{feff}'] {
        assert!(!is_whitespace(c));
        assert!(!c.is_whitespace());
    }
}

#[test]
fn white_space_is_what_std_says() {
    let mut n: u32 = 0;
    while n <= 0x11_0000 {
        if let Some(c) = char::from_u32(n) {
            assert_eq!(is_whitespace(c), c.is_whitespace());
        }
        n += 1;
    }
}

#[test]
fn tokens_stops_behind_a_character_that_begins_no_token() {
    let mut lexer = Lexer::new("x # y");
    assert_eq!(lexer.tokens(), vec![Token::Ident("x".to_string())]);
    assert!(!lexer.at_end());
    assert_eq!(lexer.tokens(), vec![Token::Ident("y".to_string())]);
    assert!(lexer.at_end());
}
