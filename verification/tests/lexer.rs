use burn::parse::lexer::Lexer;
use burn::parse::token::Token;

fn lex<'src>(source: &'src str) -> Vec<Token<&'src str>> {
    let mut lexer = Lexer::new(source);
    let mut tokens = Vec::new();
    loop {
        let token = lexer.read();
        if token == Token::Eof {
            break;
        }
        tokens.push(token);
        match token {
            Token::Error(..) => break,
            _ => {}
        }
    }
    tokens
}

#[test]
fn test_edge_cases() {
    assert!(lex("") == vec!());
}

#[test]
fn test_newline() {
    assert!(lex("\n") == vec!(Token::Newline));
}

#[test]
fn test_whitespace() {
    assert!(lex(" ") == vec!());
    assert!(lex("\t") == vec!());
}

#[test]
fn test_comments() {
    assert!(lex("// foo") == vec!());
    assert!(lex("// foo\n") == vec!());
    assert!(lex("//\nfoo") == vec!(Token::Identifier("foo")));
    assert!(lex("/* foo */") == vec!());
    assert!(lex("/* foo\nbar */") == vec!());
    assert!(lex("/*") == vec!());
    assert!(lex("/* foo */ bar") == vec!(Token::Identifier("bar")));
    assert!(lex("/*** foo ***/ bar") == vec!(Token::Identifier("bar")));
    assert!(lex("/*** foo */ bar") == vec!());
    assert!(lex("/* foo ***/ bar") == vec!());
}

#[test]
fn test_symbols() {
    assert!(lex("{") == vec!(Token::LeftCurlyBracket));
    assert!(lex("}") == vec!(Token::RightCurlyBracket));
    assert!(lex("[") == vec!(Token::LeftSquareBracket));
    assert!(lex("]") == vec!(Token::RightSquareBracket));
    assert!(lex("(") == vec!(Token::LeftParenthesis));
    assert!(lex(")") == vec!(Token::RightParenthesis));
    assert!(lex("<") == vec!(Token::LeftAngleBracket));
    assert!(lex(">") == vec!(Token::RightAngleBracket));
    assert!(lex(".") == vec!(Token::Dot));
    assert!(lex(",") == vec!(Token::Comma));
    assert!(lex("=") == vec!(Token::Equals));
    assert!(lex("+") == vec!(Token::Plus));
    assert!(lex("-") == vec!(Token::Dash));
    assert!(lex("*") == vec!(Token::Asterisk));
    assert!(lex("/") == vec!(Token::Slash));
    assert!(lex("%") == vec!(Token::Percent));
    assert!(lex("|") == vec!(Token::VerticalBar));
    assert!(lex("<=") == vec!(Token::LeftAngleBracketEquals));
    assert!(lex(">=") == vec!(Token::RightAngleBracketEquals));
    assert!(lex("+=") == vec!(Token::PlusEquals));
    assert!(lex("-=") == vec!(Token::DashEquals));
    assert!(lex("*=") == vec!(Token::AsteriskEquals));
    assert!(lex("/=") == vec!(Token::SlashEquals));
    assert!(lex("%=") == vec!(Token::PercentEquals));
    assert!(lex("==") == vec!(Token::EqualsEquals));
    assert!(lex("!=") == vec!(Token::BangEquals));
    assert!(lex("->") == vec!(Token::Arrow));

    assert!(lex("!") == vec!(Token::Error("Unexpected `!`.")));
}

#[test]
fn test_keywords() {
    assert!(lex("and") == vec!(Token::And));
    assert!(lex("catch") == vec!(Token::Catch));
    assert!(lex("class") == vec!(Token::Class));
    assert!(lex("else") == vec!(Token::Else));
    assert!(lex("extends") == vec!(Token::Extends));
    assert!(lex("false") == vec!(Token::False));
    assert!(lex("finally") == vec!(Token::Finally));
    assert!(lex("for") == vec!(Token::For));
    assert!(lex("function") == vec!(Token::Function));
    assert!(lex("if") == vec!(Token::If));
    assert!(lex("in") == vec!(Token::In));
    assert!(lex("is") == vec!(Token::Is));
    assert!(lex("let") == vec!(Token::Let));
    assert!(lex("new") == vec!(Token::New));
    assert!(lex("not") == vec!(Token::Not));
    assert!(lex("nothing") == vec!(Token::Nothing));
    assert!(lex("or") == vec!(Token::Or));
    assert!(lex("return") == vec!(Token::Return));
    assert!(lex("this") == vec!(Token::This));
    assert!(lex("throw") == vec!(Token::Throw));
    assert!(lex("true") == vec!(Token::True));
    assert!(lex("try") == vec!(Token::Try));
    assert!(lex("while") == vec!(Token::While));
}

#[test]
fn test_identifiers() {
    assert!(lex("foo") == vec!(Token::Identifier("foo")));
    assert!(lex("Foo") == vec!(Token::Identifier("Foo")));
    assert!(lex("FOO") == vec!(Token::Identifier("FOO")));
    assert!(lex("foo_bar") == vec!(Token::Identifier("foo_bar")));
    assert!(lex("_foo") == vec!(Token::Identifier("_foo")));
    assert!(lex("foo_") == vec!(Token::Identifier("foo_")));
    assert!(lex("foo:bar") == vec!(Token::Identifier("foo:bar")));
    assert!(lex(":foo") == vec!(Token::Identifier(":foo")));
    assert!(lex("foo:") == vec!(Token::Identifier("foo:")));
    assert!(lex("foo123") == vec!(Token::Identifier("foo123")));
    assert!(lex("123foo") == vec!(Token::Integer("123"), Token::Identifier("foo")));
}

#[test]
fn test_variables() {
    assert!(lex("$") == vec!(Token::Error("Unexpected `$`.")));
    assert!(lex("$foo") == vec!(Token::Variable("foo")));
    assert!(lex("$foo_bar") == vec!(Token::Variable("foo_bar")));
    assert!(lex("$_foo") == vec!(Token::Variable("_foo")));
    assert!(lex("$foo_") == vec!(Token::Variable("foo_")));
    assert!(lex("$foo:bar") == vec!(Token::Variable("foo:bar")));
    assert!(lex("$:foo") == vec!(Token::Variable(":foo")));
    assert!(lex("$foo:") == vec!(Token::Variable("foo:")));
    assert!(lex("$foo123") == vec!(Token::Variable("foo123")));
    assert!(lex("$123foo") == vec!(Token::Variable("123foo")));
}

#[test]
fn test_literals() {
    assert!(lex("0") == vec!(Token::Integer("0")));
    assert!(lex("-0") == vec!(Token::Integer("-0")));
    assert!(lex("3") == vec!(Token::Integer("3")));
    assert!(lex("-10") == vec!(Token::Integer("-10")));
    assert!(lex("03") == vec!(Token::Error("Invalid number literal.")));

    assert!(lex("0.1") == vec!(Token::Float("0.1")));
    assert!(lex("1.1") == vec!(Token::Float("1.1")));
    assert!(lex("12.34") == vec!(Token::Float("12.34")));
    assert!(lex("1.") == vec!(Token::Integer("1"), Token::Dot));
    assert!(lex(".1") == vec!(Token::Dot, Token::Integer("1")));

    assert!(lex("\"\"") == vec!(Token::String("\"\"")));
    assert!(lex("\"test\"") == vec!(Token::String("\"test\"")));
    assert!(lex("\"") == vec!(Token::Error("Unterminated string literal.")));
}

#[test]
fn test_invalid() {
    assert!(lex("#") == vec!(Token::Error("Unexpected character.")));
    assert!(lex("僯") == vec!(Token::Error("Unexpected character.")));
}
