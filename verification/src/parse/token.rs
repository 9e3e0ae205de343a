//! The tokens of the Burn language.

use vstd::prelude::*;
use vstd::string::*;

verus! {

/// A token of Burn source text. The lexer hands out tokens whose text is a
/// slice of the source (`Token<&str>`); contracts speak of the same token with
/// the bytes of that text in its place (`Token<Seq<u8>>`).
#[derive(Clone, Copy, Debug, PartialEq, Eq)]
pub enum Token<S> {
    Whitespace,
    Newline,
    LeftCurlyBracket,
    RightCurlyBracket,
    LeftSquareBracket,
    RightSquareBracket,
    LeftParenthesis,
    RightParenthesis,
    LeftAngleBracket,
    RightAngleBracket,
    Dot,
    Comma,
    VerticalBar,
    Equals,
    Plus,
    Dash,
    Asterisk,
    Slash,
    Percent,
    LeftAngleBracketEquals,
    RightAngleBracketEquals,
    PlusEquals,
    DashEquals,
    AsteriskEquals,
    SlashEquals,
    PercentEquals,
    EqualsEquals,
    BangEquals,
    Arrow,
    And,
    Catch,
    Class,
    Else,
    Extends,
    False,
    Finally,
    For,
    Function,
    If,
    Import,
    In,
    Is,
    Let,
    New,
    Not,
    Nothing,
    Or,
    Print,
    Return,
    This,
    Throw,
    True,
    Try,
    While,
    Use,
    /// e.g. `foobar`
    Identifier(S),
    /// e.g. `$foobar`; only `foobar` is stored
    Variable(S),
    /// a string literal, quotes included
    String(S),
    Integer(S),
    Float(S),
    Eof,
    Error(&'static str),
}

impl<'src> Token<&'src str> {
    /// How the token is written in messages: a symbol between backquotes, a
    /// keyword as it is, and a token with text by its kind and its text.
    pub open spec fn description(self) -> Seq<char> {
        match self {
            Token::Whitespace => "whitespace"@,
            Token::Newline => "newline"@,
            Token::LeftCurlyBracket => "`{`"@,
            Token::RightCurlyBracket => "`}`"@,
            Token::LeftSquareBracket => "`[`"@,
            Token::RightSquareBracket => "`]`"@,
            Token::LeftParenthesis => "`(`"@,
            Token::RightParenthesis => "`)`"@,
            Token::LeftAngleBracket => "`<`"@,
            Token::RightAngleBracket => "`>`"@,
            Token::Dot => "`.`"@,
            Token::Comma => "`,`"@,
            Token::VerticalBar => "`|`"@,
            Token::Equals => "`=`"@,
            Token::Plus => "`+`"@,
            Token::Dash => "`-`"@,
            Token::Asterisk => "`*`"@,
            Token::Slash => "`/`"@,
            Token::Percent => "`%`"@,
            Token::LeftAngleBracketEquals => "`<=`"@,
            Token::RightAngleBracketEquals => "`>=`"@,
            Token::PlusEquals => "`+=`"@,
            Token::DashEquals => "`-=`"@,
            Token::AsteriskEquals => "`*=`"@,
            Token::SlashEquals => "`/=`"@,
            Token::PercentEquals => "`%=`"@,
            Token::EqualsEquals => "`==`"@,
            Token::BangEquals => "`!=`"@,
            Token::Arrow => "`->`"@,
            Token::And => "and"@,
            Token::Catch => "catch"@,
            Token::Class => "class"@,
            Token::Else => "else"@,
            Token::Extends => "extends"@,
            Token::False => "false"@,
            Token::Finally => "finally"@,
            Token::For => "for"@,
            Token::Function => "function"@,
            Token::If => "if"@,
            Token::Import => "import"@,
            Token::In => "in"@,
            Token::Is => "is"@,
            Token::Let => "let"@,
            Token::New => "new"@,
            Token::Not => "not"@,
            Token::Nothing => "nothing"@,
            Token::Or => "or"@,
            Token::Print => "print"@,
            Token::Return => "return"@,
            Token::This => "this"@,
            Token::Throw => "throw"@,
            Token::True => "true"@,
            Token::Try => "try"@,
            Token::While => "while"@,
            Token::Use => "use"@,
            Token::Eof => "<EOF>"@,
            Token::Identifier(s) => "IDENTIFIER("@ + s@ + ")"@,
            Token::Variable(s) => "VARIABLE($"@ + s@ + ")"@,
            Token::String(s) => "STRING("@ + s@ + ")"@,
            Token::Integer(s) => "INTEGER("@ + s@ + ")"@,
            Token::Float(s) => "FLOAT("@ + s@ + ")"@,
            Token::Error(s) => "ERROR("@ + s@ + ")"@,
        }
    }

    /// The token as written in messages.
    pub fn describe(&self) -> (d: String)
        ensures
            d@ == self.description(),
    {
        let (prefix, text) = match self {
            Token::Whitespace => {
                return String::from_str("whitespace");
            },
            Token::Newline => {
                return String::from_str("newline");
            },
            Token::LeftCurlyBracket => {
                return String::from_str("`{`");
            },
            Token::RightCurlyBracket => {
                return String::from_str("`}`");
            },
            Token::LeftSquareBracket => {
                return String::from_str("`[`");
            },
            Token::RightSquareBracket => {
                return String::from_str("`]`");
            },
            Token::LeftParenthesis => {
                return String::from_str("`(`");
            },
            Token::RightParenthesis => {
                return String::from_str("`)`");
            },
            Token::LeftAngleBracket => {
                return String::from_str("`<`");
            },
            Token::RightAngleBracket => {
                return String::from_str("`>`");
            },
            Token::Dot => {
                return String::from_str("`.`");
            },
            Token::Comma => {
                return String::from_str("`,`");
            },
            Token::VerticalBar => {
                return String::from_str("`|`");
            },
            Token::Equals => {
                return String::from_str("`=`");
            },
            Token::Plus => {
                return String::from_str("`+`");
            },
            Token::Dash => {
                return String::from_str("`-`");
            },
            Token::Asterisk => {
                return String::from_str("`*`");
            },
            Token::Slash => {
                return String::from_str("`/`");
            },
            Token::Percent => {
                return String::from_str("`%`");
            },
            Token::LeftAngleBracketEquals => {
                return String::from_str("`<=`");
            },
            Token::RightAngleBracketEquals => {
                return String::from_str("`>=`");
            },
            Token::PlusEquals => {
                return String::from_str("`+=`");
            },
            Token::DashEquals => {
                return String::from_str("`-=`");
            },
            Token::AsteriskEquals => {
                return String::from_str("`*=`");
            },
            Token::SlashEquals => {
                return String::from_str("`/=`");
            },
            Token::PercentEquals => {
                return String::from_str("`%=`");
            },
            Token::EqualsEquals => {
                return String::from_str("`==`");
            },
            Token::BangEquals => {
                return String::from_str("`!=`");
            },
            Token::Arrow => {
                return String::from_str("`->`");
            },
            Token::And => {
                return String::from_str("and");
            },
            Token::Catch => {
                return String::from_str("catch");
            },
            Token::Class => {
                return String::from_str("class");
            },
            Token::Else => {
                return String::from_str("else");
            },
            Token::Extends => {
                return String::from_str("extends");
            },
            Token::False => {
                return String::from_str("false");
            },
            Token::Finally => {
                return String::from_str("finally");
            },
            Token::For => {
                return String::from_str("for");
            },
            Token::Function => {
                return String::from_str("function");
            },
            Token::If => {
                return String::from_str("if");
            },
            Token::Import => {
                return String::from_str("import");
            },
            Token::In => {
                return String::from_str("in");
            },
            Token::Is => {
                return String::from_str("is");
            },
            Token::Let => {
                return String::from_str("let");
            },
            Token::New => {
                return String::from_str("new");
            },
            Token::Not => {
                return String::from_str("not");
            },
            Token::Nothing => {
                return String::from_str("nothing");
            },
            Token::Or => {
                return String::from_str("or");
            },
            Token::Print => {
                return String::from_str("print");
            },
            Token::Return => {
                return String::from_str("return");
            },
            Token::This => {
                return String::from_str("this");
            },
            Token::Throw => {
                return String::from_str("throw");
            },
            Token::True => {
                return String::from_str("true");
            },
            Token::Try => {
                return String::from_str("try");
            },
            Token::While => {
                return String::from_str("while");
            },
            Token::Use => {
                return String::from_str("use");
            },
            Token::Eof => {
                return String::from_str("<EOF>");
            },
            Token::Identifier(s) => ("IDENTIFIER(", *s),
            Token::Variable(s) => ("VARIABLE($", *s),
            Token::String(s) => ("STRING(", *s),
            Token::Integer(s) => ("INTEGER(", *s),
            Token::Float(s) => ("FLOAT(", *s),
            Token::Error(s) => ("ERROR(", *s),
        };
        let mut d = String::from_str(prefix);
        d.append(text);
        d.append(")");
        d
    }

    /// This token with the UTF-8 bytes of its text in place of the text.
    pub open spec fn model(self) -> Token<Seq<u8>> {
        match self {
            Token::Whitespace => Token::Whitespace,
            Token::Newline => Token::Newline,
            Token::LeftCurlyBracket => Token::LeftCurlyBracket,
            Token::RightCurlyBracket => Token::RightCurlyBracket,
            Token::LeftSquareBracket => Token::LeftSquareBracket,
            Token::RightSquareBracket => Token::RightSquareBracket,
            Token::LeftParenthesis => Token::LeftParenthesis,
            Token::RightParenthesis => Token::RightParenthesis,
            Token::LeftAngleBracket => Token::LeftAngleBracket,
            Token::RightAngleBracket => Token::RightAngleBracket,
            Token::Dot => Token::Dot,
            Token::Comma => Token::Comma,
            Token::VerticalBar => Token::VerticalBar,
            Token::Equals => Token::Equals,
            Token::Plus => Token::Plus,
            Token::Dash => Token::Dash,
            Token::Asterisk => Token::Asterisk,
            Token::Slash => Token::Slash,
            Token::Percent => Token::Percent,
            Token::LeftAngleBracketEquals => Token::LeftAngleBracketEquals,
            Token::RightAngleBracketEquals => Token::RightAngleBracketEquals,
            Token::PlusEquals => Token::PlusEquals,
            Token::DashEquals => Token::DashEquals,
            Token::AsteriskEquals => Token::AsteriskEquals,
            Token::SlashEquals => Token::SlashEquals,
            Token::PercentEquals => Token::PercentEquals,
            Token::EqualsEquals => Token::EqualsEquals,
            Token::BangEquals => Token::BangEquals,
            Token::Arrow => Token::Arrow,
            Token::And => Token::And,
            Token::Catch => Token::Catch,
            Token::Class => Token::Class,
            Token::Else => Token::Else,
            Token::Extends => Token::Extends,
            Token::False => Token::False,
            Token::Finally => Token::Finally,
            Token::For => Token::For,
            Token::Function => Token::Function,
            Token::If => Token::If,
            Token::Import => Token::Import,
            Token::In => Token::In,
            Token::Is => Token::Is,
            Token::Let => Token::Let,
            Token::New => Token::New,
            Token::Not => Token::Not,
            Token::Nothing => Token::Nothing,
            Token::Or => Token::Or,
            Token::Print => Token::Print,
            Token::Return => Token::Return,
            Token::This => Token::This,
            Token::Throw => Token::Throw,
            Token::True => Token::True,
            Token::Try => Token::Try,
            Token::While => Token::While,
            Token::Use => Token::Use,
            Token::Identifier(s) => Token::Identifier(s.spec_bytes()),
            Token::Variable(s) => Token::Variable(s.spec_bytes()),
            Token::String(s) => Token::String(s.spec_bytes()),
            Token::Integer(s) => Token::Integer(s.spec_bytes()),
            Token::Float(s) => Token::Float(s.spec_bytes()),
            Token::Eof => Token::Eof,
            Token::Error(m) => Token::Error(m),
        }
    }
}

} // verus!
