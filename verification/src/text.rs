//! How keywords, tokens and types are spelled, and the wording of every
//! diagnostic the parser produces.

use crate::data::{BaseType, Keyword, SpecToken, StorageClass, Token};
use vstd::prelude::*;
use vstd::string::StringExecFns;

verus! {

impl Keyword {
    /// The spelling of this keyword in C source.
    pub open spec fn spec_text(self) -> Seq<char> {
        match self {
            Keyword::If => "if"@,
            Keyword::Else => "else"@,
            Keyword::Do => "do"@,
            Keyword::While => "while"@,
            Keyword::For => "for"@,
            Keyword::Switch => "switch"@,
            Keyword::Case => "case"@,
            Keyword::Default => "default"@,
            Keyword::Break => "break"@,
            Keyword::Continue => "continue"@,
            Keyword::Return => "return"@,
            Keyword::Goto => "goto"@,
            Keyword::Bool => "_Bool"@,
            Keyword::Char => "char"@,
            Keyword::Short => "short"@,
            Keyword::Int => "int"@,
            Keyword::Long => "long"@,
            Keyword::Float => "float"@,
            Keyword::Double => "double"@,
            Keyword::Void => "void"@,
            Keyword::Signed => "signed"@,
            Keyword::Unsigned => "unsigned"@,
            Keyword::Typedef => "typedef"@,
            Keyword::Union => "union"@,
            Keyword::Struct => "struct"@,
            Keyword::Enum => "enum"@,
            Keyword::Const => "const"@,
            Keyword::Volatile => "volatile"@,
            Keyword::Auto => "auto"@,
            Keyword::Register => "register"@,
            Keyword::Static => "static"@,
            Keyword::Extern => "extern"@,
            Keyword::Sizeof => "sizeof"@,
        }
    }

    /// The spelling of this keyword in C source.
    pub fn text(self) -> (spelling: &'static str)
        ensures
            spelling@ == self.spec_text(),
    {
        match self {
            Keyword::If => "if",
            Keyword::Else => "else",
            Keyword::Do => "do",
            Keyword::While => "while",
            Keyword::For => "for",
            Keyword::Switch => "switch",
            Keyword::Case => "case",
            Keyword::Default => "default",
            Keyword::Break => "break",
            Keyword::Continue => "continue",
            Keyword::Return => "return",
            Keyword::Goto => "goto",
            Keyword::Bool => "_Bool",
            Keyword::Char => "char",
            Keyword::Short => "short",
            Keyword::Int => "int",
            Keyword::Long => "long",
            Keyword::Float => "float",
            Keyword::Double => "double",
            Keyword::Void => "void",
            Keyword::Signed => "signed",
            Keyword::Unsigned => "unsigned",
            Keyword::Typedef => "typedef",
            Keyword::Union => "union",
            Keyword::Struct => "struct",
            Keyword::Enum => "enum",
            Keyword::Const => "const",
            Keyword::Volatile => "volatile",
            Keyword::Auto => "auto",
            Keyword::Register => "register",
            Keyword::Static => "static",
            Keyword::Extern => "extern",
            Keyword::Sizeof => "sizeof",
        }
    }
}

impl StorageClass {
    /// The keyword that names this storage class.
    pub open spec fn spec_text(self) -> Seq<char> {
        match self {
            StorageClass::Auto => "auto"@,
            StorageClass::Extern => "extern"@,
            StorageClass::Static => "static"@,
            StorageClass::Register => "register"@,
        }
    }

    /// The keyword that names this storage class.
    pub fn text(self) -> (spelling: &'static str)
        ensures
            spelling@ == self.spec_text(),
    {
        match self {
            StorageClass::Auto => "auto",
            StorageClass::Extern => "extern",
            StorageClass::Static => "static",
            StorageClass::Register => "register",
        }
    }
}

impl BaseType {
    /// The keyword that names this base type.
    pub open spec fn spec_text(self) -> Seq<char> {
        match self {
            BaseType::Void => "void"@,
            BaseType::Bool => "_Bool"@,
            BaseType::Char => "char"@,
            BaseType::Short => "short"@,
            BaseType::Int => "int"@,
            BaseType::Long => "long"@,
            BaseType::Float => "float"@,
            BaseType::Double => "double"@,
        }
    }

    /// The keyword that names this base type.
    pub fn text(self) -> (spelling: &'static str)
        ensures
            spelling@ == self.spec_text(),
    {
        match self {
            BaseType::Void => "void",
            BaseType::Bool => "_Bool",
            BaseType::Char => "char",
            BaseType::Short => "short",
            BaseType::Int => "int",
            BaseType::Long => "long",
            BaseType::Float => "float",
            BaseType::Double => "double",
        }
    }
}

/// The character for one decimal digit.
pub open spec fn digit_text(digit: int) -> Seq<char> {
    if digit == 0 {
        "0"@
    } else if digit == 1 {
        "1"@
    } else if digit == 2 {
        "2"@
    } else if digit == 3 {
        "3"@
    } else if digit == 4 {
        "4"@
    } else if digit == 5 {
        "5"@
    } else if digit == 6 {
        "6"@
    } else if digit == 7 {
        "7"@
    } else if digit == 8 {
        "8"@
    } else {
        "9"@
    }
}

/// A natural number in decimal, most significant digit first, without
/// leading zeros.
pub open spec fn natural_text(n: nat) -> Seq<char>
    decreases n,
{
    if n < 10 {
        digit_text(n as int)
    } else {
        natural_text(n / 10) + digit_text((n % 10) as int)
    }
}

/// An integer in decimal, with a minus sign if it is negative.
pub open spec fn integer_text(n: int) -> Seq<char> {
    if n < 0 {
        "-"@ + natural_text((-n) as nat)
    } else {
        natural_text(n as nat)
    }
}

fn digit(d: u64) -> (spelling: &'static str)
    requires
        d < 10,
    ensures
        spelling@ == digit_text(d as int),
{
    if d == 0 {
        "0"
    } else if d == 1 {
        "1"
    } else if d == 2 {
        "2"
    } else if d == 3 {
        "3"
    } else if d == 4 {
        "4"
    } else if d == 5 {
        "5"
    } else if d == 6 {
        "6"
    } else if d == 7 {
        "7"
    } else if d == 8 {
        "8"
    } else {
        "9"
    }
}

fn natural(n: u64) -> (spelling: String)
    ensures
        spelling@ == natural_text(n as nat),
    decreases n,
{
    if n < 10 {
        String::from_str(digit(n))
    } else {
        let mut spelling = natural(n / 10);
        spelling.append(digit(n % 10));
        spelling
    }
}

/// An integer in decimal, with a minus sign if it is negative.
pub fn integer(n: i64) -> (spelling: String)
    ensures
        spelling@ == integer_text(n as int),
{
    if n < 0 {
        let magnitude: u64 = (-(n + 1)) as u64 + 1;
        let mut spelling = String::from_str("-");
        let digits = natural(magnitude);
        spelling.append(digits.as_str());
        spelling
    } else {
        natural(n as u64)
    }
}

impl SpecToken {
    /// The spelling of this token: a keyword or a punctuation mark as it is
    /// written, an identifier as itself, an integer in decimal.
    pub open spec fn text(self) -> Seq<char> {
        match self {
            SpecToken::Keyword(keyword) => keyword.spec_text(),
            SpecToken::Id(name) => name,
            SpecToken::Int(value) => integer_text(value as int),
            SpecToken::LeftBrace => "{"@,
            SpecToken::RightBrace => "}"@,
            SpecToken::LeftBracket => "["@,
            SpecToken::RightBracket => "]"@,
            SpecToken::LeftParen => "("@,
            SpecToken::RightParen => ")"@,
            SpecToken::Semicolon => ";"@,
            SpecToken::Colon => ":"@,
            SpecToken::Comma => ","@,
            SpecToken::Dot => "."@,
            SpecToken::Question => "?"@,
            SpecToken::Star => "*"@,
            SpecToken::Plus => "+"@,
            SpecToken::Minus => "-"@,
            SpecToken::Divide => "/"@,
            SpecToken::Equal => "="@,
            SpecToken::Ampersand => "&"@,
            SpecToken::Ellipsis => "..."@,
        }
    }
}

impl Token {
    /// The spelling of this token.
    pub fn text(&self) -> (spelling: String)
        ensures
            spelling@ == self@.text(),
    {
        match self {
            Token::Keyword(keyword) => String::from_str(keyword.text()),
            Token::Id(name) => name.clone(),
            Token::Int(value) => integer(*value),
            Token::LeftBrace => String::from_str("{"),
            Token::RightBrace => String::from_str("}"),
            Token::LeftBracket => String::from_str("["),
            Token::RightBracket => String::from_str("]"),
            Token::LeftParen => String::from_str("("),
            Token::RightParen => String::from_str(")"),
            Token::Semicolon => String::from_str(";"),
            Token::Colon => String::from_str(":"),
            Token::Comma => String::from_str(","),
            Token::Dot => String::from_str("."),
            Token::Question => String::from_str("?"),
            Token::Star => String::from_str("*"),
            Token::Plus => String::from_str("+"),
            Token::Minus => String::from_str("-"),
            Token::Divide => String::from_str("/"),
            Token::Equal => String::from_str("="),
            Token::Ampersand => String::from_str("&"),
            Token::Ellipsis => String::from_str("..."),
        }
    }
}

} // verus!
