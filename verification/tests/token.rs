use burn::parse::token::Token;

#[test]
fn symbols_are_written_between_backquotes() {
    assert_eq!(Token::<&str>::LeftCurlyBracket.describe(), "`{`");
    assert_eq!(Token::<&str>::BangEquals.describe(), "`!=`");
    assert_eq!(Token::<&str>::Arrow.describe(), "`->`");
}

#[test]
fn keywords_and_layout_are_written_as_words() {
    assert_eq!(Token::<&str>::While.describe(), "while");
    assert_eq!(Token::<&str>::Newline.describe(), "newline");
    assert_eq!(Token::<&str>::Eof.describe(), "<EOF>");
}

#[test]
fn tokens_with_text_show_their_kind_and_text() {
    assert_eq!(Token::Identifier("foo").describe(), "IDENTIFIER(foo)");
    assert_eq!(Token::Variable("foo").describe(), "VARIABLE($foo)");
    assert_eq!(Token::String("\"hi\"").describe(), "STRING(\"hi\")");
    assert_eq!(Token::Integer("12").describe(), "INTEGER(12)");
    assert_eq!(Token::Float("1.5").describe(), "FLOAT(1.5)");
    assert_eq!(Token::<&str>::Error("Unexpected character.").describe(), "ERROR(Unexpected character.)");
}
