use meno::lexer::{lex_step, LexStep, Lexer, Token};

fn lex(s: &str) -> (Vec<Token>, Vec<String>) {
    let mut lexer = Lexer::new(s);
    let tokens = lexer.tokenize();
    (tokens, lexer.idtable)
}

#[test]
fn identifiers_numbered_in_order() {
    let (tokens, table) = lex("a b let c a");
    assert_eq!(
        tokens,
        vec![Token::Id(0), Token::Id(1), Token::Let, Token::Id(2), Token::Id(3)]
    );
    assert_eq!(table, vec!["a", "b", "c", "a"]);
}

#[test]
fn keywords_and_types() {
    let (tokens, table) = lex("let def if else int char bool false true");
    assert_eq!(
        tokens,
        vec![
            Token::Let,
            Token::Def,
            Token::If,
            Token::Else,
            Token::IntType,
            Token::CharType,
            Token::BoolType,
            Token::FalseLit,
            Token::TrueLit,
        ]
    );
    assert!(table.is_empty());
}

#[test]
fn names_with_digits_and_underscores() {
    let (tokens, table) = lex("x_1 lets iff");
    assert_eq!(tokens, vec![Token::Id(0), Token::Id(1), Token::Id(2)]);
    assert_eq!(table, vec!["x_1", "lets", "iff"]);
}

#[test]
fn punctuation() {
    let (tokens, _) = lex("+-*/():;{}= == < <= > >= & && | ||");
    assert_eq!(
        tokens,
        vec![
            Token::Plus,
            Token::Minus,
            Token::Star,
            Token::Slash,
            Token::LParen,
            Token::RParen,
            Token::Colon,
            Token::Semicolon,
            Token::LCBrace,
            Token::RCBrace,
            Token::EQ,
            Token::EQEQ,
            Token::LT,
            Token::LTE,
            Token::GT,
            Token::GTE,
            Token::BitAnd,
            Token::LogicAnd,
            Token::BitOr,
            Token::LogicOr,
        ]
    );
}

#[test]
fn unknown_characters() {
    let (tokens, _) = lex("@ # $");
    assert_eq!(
        tokens,
        vec![Token::Unknown('@'), Token::Unknown('#'), Token::Unknown('$')]
    );
}

#[test]
fn integer_literals() {
    let (tokens, _) = lex("0 007 42 2147483647");
    assert_eq!(
        tokens,
        vec![Token::IntLit(0), Token::IntLit(7), Token::IntLit(42), Token::IntLit(2147483647)]
    );
}

#[test]
fn digits_then_letters() {
    let (tokens, table) = lex("12ab");
    assert_eq!(tokens, vec![Token::IntLit(12), Token::Id(0)]);
    assert_eq!(table, vec!["ab"]);
}

#[test]
fn overflowing_literal_is_refused() {
    let mut lexer = Lexer::new("x 2147483648");
    assert_eq!(lexer.try_tokenize(), None);
    assert!(lexer.idtable.is_empty());
    let mut lexer = Lexer::new("99999999999999999999999");
    assert_eq!(lexer.try_tokenize(), None);
}

#[test]
fn try_tokenize_succeeds() {
    let mut lexer = Lexer::new("y = 3;");
    assert_eq!(
        lexer.try_tokenize(),
        Some(vec![Token::Id(0), Token::EQ, Token::IntLit(3), Token::Semicolon])
    );
    assert_eq!(lexer.idtable, vec!["y"]);
    assert_eq!(lexer.try_tokenize(), Some(vec![]));
}

#[test]
fn unicode_whitespace_and_letters() {
    let (tokens, table) = lex("\t\n\u{a0}é1 ß");
    assert_eq!(tokens, vec![Token::Id(0), Token::Id(1)]);
    assert_eq!(table, vec!["é1", "ß"]);
}

#[test]
fn second_tokenize_is_empty() {
    let mut lexer = Lexer::new("a 1");
    assert_eq!(lexer.tokenize(), vec![Token::Id(0), Token::IntLit(1)]);
    assert_eq!(lexer.tokenize(), vec![]);
    assert_eq!(lexer.idtable, vec!["a"]);
}

#[test]
fn lex_step_given_classification() {
    let v: Vec<char> = "12 abc let 99999999999 a".chars().collect();
    assert_eq!(lex_step(&v, 0, false, false), LexStep::Emit { token: Token::IntLit(12), next: 2 });
    assert_eq!(lex_step(&v, 2, true, false), LexStep::Blank);
    assert_eq!(lex_step(&v, 3, false, true), LexStep::Name { end: 6 });
    assert_eq!(lex_step(&v, 7, false, true), LexStep::Emit { token: Token::Let, next: 10 });
    assert_eq!(lex_step(&v, 11, false, false), LexStep::TooLarge);
    assert_eq!(lex_step(&v, 23, false, false), LexStep::Emit { token: Token::Unknown('a'), next: 24 });
    assert_eq!(lex_step(&v, 0, true, false), LexStep::Blank);
}
