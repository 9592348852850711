use vectool::lexer::Capitalization;
use vectool::lexer::Token;
use vectool::lexer::capitalize;
use vectool::lexer::determine_capitalization;
use vectool::lexer::lex;

#[test]
fn test_capitalize() {
    assert_eq!(
        capitalize(String::from("kissa"), Capitalization::UpperCase),
        "KISSA"
    );
    assert_eq!(
        capitalize(String::from("talo"), Capitalization::LowerCase),
        "talo"
    );
    assert_eq!(
        capitalize(String::from("\u{e4}iti"), Capitalization::Capitalized),
        "\u{c4}iti"
    );
}

#[test]
fn test_lex() {
    assert_eq!(
        lex(String::from(
            "D-N: V\u{e4}rldens vackraste katter lever i Sverige!"
        )),
        vec![
            Token::Word(String::from("dn"), Capitalization::UpperCase),
            Token::Other(String::from(":")),
            Token::Other(String::from(" ")),
            Token::Word(String::from("v\u{e4}rldens"), Capitalization::Capitalized),
            Token::Other(String::from(" ")),
            Token::Word(String::from("vackraste"), Capitalization::LowerCase),
            Token::Other(String::from(" ")),
            Token::Word(String::from("katter"), Capitalization::LowerCase),
            Token::Other(String::from(" ")),
            Token::Word(String::from("lever"), Capitalization::LowerCase),
            Token::Other(String::from(" ")),
            Token::Word(String::from("i"), Capitalization::LowerCase),
            Token::Other(String::from(" ")),
            Token::Word(String::from("sverige"), Capitalization::Capitalized),
            Token::Other(String::from("!"))
        ]
    );
}

#[test]
fn test_determine_capitalization() {
    assert_eq!(
        determine_capitalization(String::from("kissa")),
        Capitalization::LowerCase
    );
    assert_eq!(
        determine_capitalization(String::from("KISSA")),
        Capitalization::UpperCase
    );
    assert_eq!(
        determine_capitalization(String::from("Kissa")),
        Capitalization::Capitalized
    );
    assert_eq!(
        determine_capitalization(String::from("")),
        Capitalization::LowerCase
    );
    assert_eq!(
        determine_capitalization(String::from("\u{c4}iti")),
        Capitalization::Capitalized
    );
}

#[test]
fn test_lex_trims_and_keeps_empty() {
    assert_eq!(lex(String::from("")), Vec::<Token>::new());
    assert_eq!(
        lex(String::from("  talo  ")),
        vec![Token::Word(String::from("talo"), Capitalization::LowerCase)]
    );
}
