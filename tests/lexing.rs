use strem::lexer::{tokenize, TokenKind};

fn kinds(src: &str) -> Vec<TokenKind> {
    tokenize(src).ok().unwrap().iter().map(|t| t.kind).collect()
}

#[test]
fn lexes_a_class() {
    assert_eq!(
        kinds("[:car:]"),
        vec![
            TokenKind::LeftBracket,
            TokenKind::Colon,
            TokenKind::Identifier,
            TokenKind::Colon,
            TokenKind::RightBracket,
            TokenKind::EndOfFile
        ]
    );
}

#[test]
fn lexes_two_character_punctuation_first() {
    assert_eq!(
        kinds("a:=b <= >= < > :"),
        vec![
            TokenKind::Identifier,
            TokenKind::Walrus,
            TokenKind::Identifier,
            TokenKind::LeftChevronEqual,
            TokenKind::RightChevronEqual,
            TokenKind::LeftChevron,
            TokenKind::RightChevron,
            TokenKind::Colon,
            TokenKind::EndOfFile
        ]
    );
}

#[test]
fn lexes_reserved_words_and_numbers() {
    assert_eq!(
        kinds("E A NonEmpty Ex 12 3.5"),
        vec![
            TokenKind::Exists,
            TokenKind::Forall,
            TokenKind::NonEmpty,
            TokenKind::Identifier,
            TokenKind::Integer,
            TokenKind::Real,
            TokenKind::EndOfFile
        ]
    );
}

#[test]
fn a_dot_without_digits_ends_the_integer() {
    let err = tokenize("7.").err().unwrap();
    assert_eq!((err.line, err.col, err.found), (1, 2, '.'));
}

#[test]
fn records_lexemes_and_positions() {
    let toks = tokenize("[:car:]\n  @dist").ok().unwrap();
    assert_eq!(toks[2].lexeme, "car");
    assert_eq!((toks[2].line, toks[2].col, toks[2].offset), (1, 3, 2));
    assert_eq!(toks[5].kind, TokenKind::At);
    assert_eq!((toks[5].line, toks[5].col), (2, 3));
    assert_eq!(toks[6].lexeme, "dist");
    let eof = toks.last().unwrap();
    assert_eq!(eof.kind, TokenKind::EndOfFile);
    assert_eq!(eof.offset, 15);
}

#[test]
fn lexemes_and_whitespace_rebuild_the_source() {
    let src = " ( [:car:] | [:bus:] ) {2,3}\t* ";
    let toks = tokenize(src).ok().unwrap();
    let chars: Vec<char> = src.chars().collect();
    let mut rebuilt = String::new();
    let mut prev = 0;
    for t in toks.iter() {
        for c in chars[prev..t.offset].iter() {
            assert!(c.is_whitespace());
            rebuilt.push(*c);
        }
        rebuilt.push_str(&t.lexeme);
        prev = t.offset + t.lexeme.chars().count();
    }
    assert_eq!(rebuilt, src);
}

#[test]
fn unknown_character_is_reported_with_its_position() {
    let err = tokenize("[:car:]\n #").err().unwrap();
    assert_eq!((err.line, err.col, err.found), (2, 2, '#'));
}

#[test]
fn tilde_and_bang_both_negate() {
    assert_eq!(kinds("~ !"), vec![TokenKind::Not, TokenKind::Not, TokenKind::EndOfFile]);
}
