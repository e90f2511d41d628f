use cdecl::data::{Expr, Keyword, Locatable, Location, Token};
use cdecl::parse::Parser;
use cdecl::state::{Diagnostic, Lexeme, Severity};

fn keyword(word: &str) -> Option<Keyword> {
    Some(match word {
        "if" => Keyword::If,
        "else" => Keyword::Else,
        "do" => Keyword::Do,
        "while" => Keyword::While,
        "for" => Keyword::For,
        "switch" => Keyword::Switch,
        "case" => Keyword::Case,
        "default" => Keyword::Default,
        "break" => Keyword::Break,
        "continue" => Keyword::Continue,
        "return" => Keyword::Return,
        "goto" => Keyword::Goto,
        "_Bool" => Keyword::Bool,
        "char" => Keyword::Char,
        "short" => Keyword::Short,
        "int" => Keyword::Int,
        "long" => Keyword::Long,
        "float" => Keyword::Float,
        "double" => Keyword::Double,
        "void" => Keyword::Void,
        "signed" => Keyword::Signed,
        "unsigned" => Keyword::Unsigned,
        "typedef" => Keyword::Typedef,
        "union" => Keyword::Union,
        "struct" => Keyword::Struct,
        "enum" => Keyword::Enum,
        "const" => Keyword::Const,
        "volatile" => Keyword::Volatile,
        "auto" => Keyword::Auto,
        "register" => Keyword::Register,
        "static" => Keyword::Static,
        "extern" => Keyword::Extern,
        "sizeof" => Keyword::Sizeof,
        _ => return None,
    })
}

fn punctuation(c: char) -> Option<Token> {
    Some(match c {
        '{' => Token::LeftBrace,
        '}' => Token::RightBrace,
        '[' => Token::LeftBracket,
        ']' => Token::RightBracket,
        '(' => Token::LeftParen,
        ')' => Token::RightParen,
        ';' => Token::Semicolon,
        ':' => Token::Colon,
        ',' => Token::Comma,
        '.' => Token::Dot,
        '?' => Token::Question,
        '*' => Token::Star,
        '+' => Token::Plus,
        '-' => Token::Minus,
        '/' => Token::Divide,
        '=' => Token::Equal,
        '&' => Token::Ampersand,
        _ => return None,
    })
}

fn lex(input: &str) -> Vec<Lexeme> {
    let chars: Vec<char> = input.chars().collect();
    let mut lexemes = Vec::new();
    let mut i = 0;
    let mut line = 1u32;
    let mut column = 1u32;
    while i < chars.len() {
        let c = chars[i];
        if c == '\n' {
            line += 1;
            column = 1;
            i += 1;
            continue;
        }
        if c.is_whitespace() {
            column += 1;
            i += 1;
            continue;
        }
        let location = Location { line, column };
        let start = i;
        let data = if c.is_ascii_alphabetic() || c == '_' {
            while i < chars.len() && (chars[i].is_ascii_alphanumeric() || chars[i] == '_') {
                i += 1;
            }
            let word: String = chars[start..i].iter().collect();
            match keyword(&word) {
                Some(keyword) => Ok(Token::Keyword(keyword)),
                None => Ok(Token::Id(word)),
            }
        } else if c.is_ascii_digit() {
            while i < chars.len() && chars[i].is_ascii_digit() {
                i += 1;
            }
            let digits: String = chars[start..i].iter().collect();
            match digits.parse::<i64>() {
                Ok(value) => Ok(Token::Int(value)),
                Err(_) => Err(format!("integer literal '{}' is too large", digits)),
            }
        } else if c == '.' && i + 2 < chars.len() && chars[i + 1] == '.' && chars[i + 2] == '.' {
            i += 3;
            Ok(Token::Ellipsis)
        } else {
            i += 1;
            match punctuation(c) {
                Some(token) => Ok(token),
                None => Err(format!("unknown token: '{}'", c)),
            }
        };
        column += (i - start) as u32;
        lexemes.push(Locatable { data, location });
    }
    lexemes
}


fn at(line: u32, column: u32) -> Location {
    Location { line, column }
}

fn drain(parser: &mut Parser) -> Vec<Result<String, String>> {
    let mut outcomes = Vec::new();
    while let Some(outcome) = parser.next() {
        outcomes.push(match outcome.data {
            Ok(_) => Ok(String::new()),
            Err(message) => Err(message),
        });
    }
    outcomes
}

#[test]
fn next_token_hands_out_tokens_in_order() {
    let mut parser = Parser::new(lex("int x ;"));
    assert_eq!(
        parser.next_token(),
        Some(Locatable { data: Token::Keyword(Keyword::Int), location: at(1, 1) })
    );
    assert_eq!(
        parser.next_token(),
        Some(Locatable { data: Token::Id("x".to_string()), location: at(1, 5) })
    );
    assert_eq!(
        parser.next_token(),
        Some(Locatable { data: Token::Semicolon, location: at(1, 7) })
    );
    assert_eq!(parser.next_token(), None);
    assert_eq!(parser.next_token(), None);
    assert!(parser.diagnostics().is_empty());
}

#[test]
fn lexical_errors_are_reported_and_skipped() {
    let mut parser = Parser::new(lex("@ # int $"));
    assert_eq!(
        parser.next_token(),
        Some(Locatable { data: Token::Keyword(Keyword::Int), location: at(1, 5) })
    );
    assert_eq!(
        parser.diagnostics(),
        &vec![
            Diagnostic {
                severity: Severity::Error,
                message: "unknown token: '@'".to_string(),
                location: at(1, 1),
            },
            Diagnostic {
                severity: Severity::Error,
                message: "unknown token: '#'".to_string(),
                location: at(1, 3),
            },
        ]
    );
    assert_eq!(parser.next_token(), None);
    assert_eq!(parser.diagnostics().len(), 3);
    assert_eq!(parser.diagnostics()[2].message, "unknown token: '$'");
    // at the end of input the place read last is that of the skipped error
    assert_eq!(parser.next_location(), at(1, 9));
}

#[test]
fn lexical_errors_never_reach_the_statements() {
    let mut parser = Parser::new(lex("int @ x;"));
    let outcomes = drain(&mut parser);
    assert_eq!(outcomes, vec![Ok(String::new())]);
    let reports = parser.take_diagnostics();
    assert_eq!(reports.len(), 1);
    assert_eq!(reports[0].severity, Severity::Error);
    assert_eq!(reports[0].location, at(1, 5));
    assert!(parser.diagnostics().is_empty());
}

#[test]
fn peek_token_does_not_consume() {
    let mut parser = Parser::new(lex("* x"));
    assert_eq!(parser.peek_token(), Some(&Locatable { data: Token::Star, location: at(1, 1) }));
    assert_eq!(parser.peek_token(), Some(&Locatable { data: Token::Star, location: at(1, 1) }));
    assert_eq!(parser.next_location(), at(1, 1));
    assert_eq!(parser.next_token(), Some(Locatable { data: Token::Star, location: at(1, 1) }));
    assert_eq!(
        parser.peek_token(),
        Some(&Locatable { data: Token::Id("x".to_string()), location: at(1, 3) })
    );
    parser.next_token();
    assert_eq!(parser.peek_token(), None);
    assert_eq!(parser.next_location(), at(1, 3));
}

#[test]
fn match_next_consumes_only_on_match() {
    let mut parser = Parser::new(lex(", ;"));
    assert_eq!(parser.match_next(Token::Semicolon), None);
    assert_eq!(
        parser.match_next(Token::Comma),
        Some(Locatable { data: Token::Comma, location: at(1, 1) })
    );
    assert_eq!(parser.match_next(Token::Comma), None);
    assert_eq!(
        parser.match_next(Token::Semicolon),
        Some(Locatable { data: Token::Semicolon, location: at(1, 3) })
    );
    assert_eq!(parser.match_next(Token::Semicolon), None);
}

#[test]
fn match_any_takes_any_of_the_choices() {
    let choices = [Token::Keyword(Keyword::Const), Token::Keyword(Keyword::Volatile)];
    let mut parser = Parser::new(lex("volatile const int"));
    assert_eq!(
        parser.match_any(&choices),
        Some(Locatable { data: Token::Keyword(Keyword::Volatile), location: at(1, 1) })
    );
    assert_eq!(
        parser.match_any(&choices),
        Some(Locatable { data: Token::Keyword(Keyword::Const), location: at(1, 10) })
    );
    assert_eq!(parser.match_any(&choices), None);
    assert_eq!(parser.match_any(&[]), None);
    assert_eq!(
        parser.next_token(),
        Some(Locatable { data: Token::Keyword(Keyword::Int), location: at(1, 16) })
    );
}

#[test]
fn match_compares_identifiers_and_literals_by_value() {
    let mut parser = Parser::new(lex("foo 12"));
    assert_eq!(parser.match_next(Token::Id("bar".to_string())), None);
    assert!(parser.match_next(Token::Id("foo".to_string())).is_some());
    assert_eq!(parser.match_next(Token::Int(13)), None);
    assert!(parser.match_next(Token::Int(12)).is_some());
}

#[test]
fn expect_consumes_the_expected_token() {
    let mut parser = Parser::new(lex("x ;"));
    parser.next_token();
    assert_eq!(parser.expect(Token::Semicolon), (true, at(1, 3)));
    assert_eq!(parser.next_token(), None);
    assert!(drain(&mut parser).is_empty());
}

#[test]
fn expect_records_an_error_and_leaves_the_token() {
    let mut parser = Parser::new(lex("x 42"));
    parser.next_token();
    assert_eq!(parser.expect(Token::Semicolon), (false, at(1, 3)));
    assert_eq!(
        parser.next(),
        Some(Locatable { data: Err("expected ';', got '42'".to_string()), location: at(1, 3) })
    );
    assert_eq!(parser.next_token(), Some(Locatable { data: Token::Int(42), location: at(1, 3) }));
}

#[test]
fn expect_at_the_end_of_input_points_at_the_last_token() {
    let mut parser = Parser::new(lex("x"));
    parser.next_token();
    assert_eq!(parser.expect(Token::RightParen), (false, at(1, 1)));
    assert_eq!(
        parser.next(),
        Some(Locatable {
            data: Err("expected ')', got <end-of-file>".to_string()),
            location: at(1, 1),
        })
    );
    assert_eq!(parser.next(), None);
}

#[test]
fn parse_expr_reads_an_integer_literal() {
    let mut parser = Parser::new(lex("7 x"));
    assert_eq!(parser.parse_expr(), Expr::Int(Token::Int(7)));
    // anything else is consumed and stands for ten
    assert_eq!(parser.parse_expr(), Expr::Int(Token::Int(10)));
    assert_eq!(parser.next_token(), None);
    assert_eq!(parser.parse_expr(), Expr::Int(Token::Int(10)));
}

#[test]
fn tokens_that_begin_no_declaration_are_not_handled() {
    let mut parser = Parser::new(lex("x if"));
    assert_eq!(
        parser.next(),
        Some(Locatable { data: Err("not handled".to_string()), location: at(1, 1) })
    );
    assert_eq!(
        parser.next(),
        Some(Locatable { data: Err("not handled".to_string()), location: at(1, 3) })
    );
    assert_eq!(parser.next(), None);
    assert_eq!(parser.next(), None);
}

#[test]
fn an_empty_input_yields_nothing() {
    let mut parser = Parser::new(Vec::new());
    assert_eq!(parser.peek_token(), None);
    assert_eq!(parser.next_token(), None);
    assert_eq!(parser.match_next(Token::Semicolon), None);
    assert_eq!(parser.next(), None);
    assert!(parser.take_diagnostics().is_empty());
}

#[test]
fn a_parser_that_has_read_nothing_points_at_its_first_lexeme() {
    let mut parser = Parser::new(lex("x"));
    assert!(parser.locatable());
    assert_eq!(parser.expect(Token::Semicolon), (false, at(1, 1)));
    assert_eq!(parser.next_location(), at(1, 1));
    assert_eq!(
        parser.next(),
        Some(Locatable { data: Err("expected ';', got 'x'".to_string()), location: at(1, 1) })
    );

    let mut parser = Parser::new(lex("  @"));
    assert!(parser.locatable());
    assert_eq!(parser.next_location(), at(1, 3));
    assert_eq!(parser.expect(Token::Semicolon), (false, at(1, 3)));
    assert_eq!(parser.diagnostics().len(), 1);
    assert_eq!(
        parser.next(),
        Some(Locatable {
            data: Err("expected ';', got <end-of-file>".to_string()),
            location: at(1, 3),
        })
    );
}

#[test]
fn a_parser_tells_whether_it_can_point_at_a_place() {
    let mut parser = Parser::new(Vec::new());
    assert!(!parser.started());
    assert!(!parser.locatable());
    assert!(!parser.started());

    let mut parser = Parser::new(lex("x ;"));
    assert!(!parser.started());
    assert!(parser.locatable());
    // looking at the token has read it
    assert!(parser.started());
    assert_eq!(parser.next_location(), at(1, 1));
    assert_eq!(
        parser.next_token(),
        Some(Locatable { data: Token::Id("x".to_string()), location: at(1, 1) })
    );
    parser.next_token();
    assert_eq!(parser.next_token(), None);
    assert!(parser.started());
    assert!(parser.locatable());
    assert_eq!(parser.next_location(), at(1, 3));

    // a lexical error gives a place as well
    let mut parser = Parser::new(lex("$"));
    assert!(parser.locatable());
    assert_eq!(parser.peek_token(), None);
    assert_eq!(parser.next_location(), at(1, 1));
}
