use cdecl::data::{
    ArrayType, Expr, FunctionType, Keyword, Locatable, Location, Qualifiers, Stmt, StorageClass,
    Symbol, Token, Type,
};
use cdecl::parse::Parser;
use cdecl::state::{Diagnostic, Lexeme, Outcome, Severity};
use std::collections::VecDeque;

fn keyword(word: &str) -> Option<Keyword> {
    Some(match word {
        "if" => Keyword::If,
        "else" => Keyword::Else,
        "do" => Keyword::Do,
        "while" => Keyword::While,
        "for" => Keyword::For,
        "switch" => Keyword::Switch,
        "case" => Keyword::Case,
        "default" => Keyword::Default,
        "break" => Keyword::Break,
        "continue" => Keyword::Continue,
        "return" => Keyword::Return,
        "goto" => Keyword::Goto,
        "_Bool" => Keyword::Bool,
        "char" => Keyword::Char,
        "short" => Keyword::Short,
        "int" => Keyword::Int,
        "long" => Keyword::Long,
        "float" => Keyword::Float,
        "double" => Keyword::Double,
        "void" => Keyword::Void,
        "signed" => Keyword::Signed,
        "unsigned" => Keyword::Unsigned,
        "typedef" => Keyword::Typedef,
        "union" => Keyword::Union,
        "struct" => Keyword::Struct,
        "enum" => Keyword::Enum,
        "const" => Keyword::Const,
        "volatile" => Keyword::Volatile,
        "auto" => Keyword::Auto,
        "register" => Keyword::Register,
        "static" => Keyword::Static,
        "extern" => Keyword::Extern,
        "sizeof" => Keyword::Sizeof,
        _ => return None,
    })
}

fn punctuation(c: char) -> Option<Token> {
    Some(match c {
        '{' => Token::LeftBrace,
        '}' => Token::RightBrace,
        '[' => Token::LeftBracket,
        ']' => Token::RightBracket,
        '(' => Token::LeftParen,
        ')' => Token::RightParen,
        ';' => Token::Semicolon,
        ':' => Token::Colon,
        ',' => Token::Comma,
        '.' => Token::Dot,
        '?' => Token::Question,
        '*' => Token::Star,
        '+' => Token::Plus,
        '-' => Token::Minus,
        '/' => Token::Divide,
        '=' => Token::Equal,
        '&' => Token::Ampersand,
        _ => return None,
    })
}

fn lex(input: &str) -> Vec<Lexeme> {
    let chars: Vec<char> = input.chars().collect();
    let mut lexemes = Vec::new();
    let mut i = 0;
    let mut line = 1u32;
    let mut column = 1u32;
    while i < chars.len() {
        let c = chars[i];
        if c == '\n' {
            line += 1;
            column = 1;
            i += 1;
            continue;
        }
        if c.is_whitespace() {
            column += 1;
            i += 1;
            continue;
        }
        let location = Location { line, column };
        let start = i;
        let data = if c.is_ascii_alphabetic() || c == '_' {
            while i < chars.len() && (chars[i].is_ascii_alphanumeric() || chars[i] == '_') {
                i += 1;
            }
            let word: String = chars[start..i].iter().collect();
            match keyword(&word) {
                Some(keyword) => Ok(Token::Keyword(keyword)),
                None => Ok(Token::Id(word)),
            }
        } else if c.is_ascii_digit() {
            while i < chars.len() && chars[i].is_ascii_digit() {
                i += 1;
            }
            let digits: String = chars[start..i].iter().collect();
            match digits.parse::<i64>() {
                Ok(value) => Ok(Token::Int(value)),
                Err(_) => Err(format!("integer literal '{}' is too large", digits)),
            }
        } else if c == '.' && i + 2 < chars.len() && chars[i + 1] == '.' && chars[i + 2] == '.' {
            i += 3;
            Ok(Token::Ellipsis)
        } else {
            i += 1;
            match punctuation(c) {
                Some(token) => Ok(token),
                None => Err(format!("unknown token: '{}'", c)),
            }
        };
        column += (i - start) as u32;
        lexemes.push(Locatable { data, location });
    }
    lexemes
}


const NONE: Qualifiers = Qualifiers { c_const: false, volatile: false };

fn at(line: u32, column: u32) -> Location {
    Location { line, column }
}

fn run(input: &str) -> (Vec<Outcome>, Vec<Diagnostic>) {
    let mut parser = Parser::new(lex(input));
    let mut outcomes = Vec::new();
    while let Some(outcome) = parser.next() {
        outcomes.push(outcome);
    }
    (outcomes, parser.take_diagnostics())
}

fn brief(outcomes: &[Outcome]) -> Vec<(String, Location)> {
    outcomes
        .iter()
        .map(|outcome| match &outcome.data {
            Ok(Stmt::Declaration(symbol)) => (format!("declare {}", symbol.id), outcome.location),
            Err(message) => (message.clone(), outcome.location),
        })
        .collect()
}

fn declared_type(input: &str) -> Type {
    match run(input).0.into_iter().find(|outcome| outcome.data.is_ok()) {
        Some(Locatable { data: Ok(Stmt::Declaration(symbol)), .. }) => symbol.ctype,
        other => panic!("no declaration in {:?}: {:?}", input, other),
    }
}

fn parameter(name: &str, ctype: Type) -> Symbol {
    Symbol { id: name.to_string(), ctype, qualifiers: NONE, storage_class: StorageClass::Auto }
}

fn function(return_type: Type, params: Vec<Symbol>, varargs: bool) -> Type {
    Type::Function(FunctionType { return_type: Box::new(return_type), params, varargs })
}

fn pointer(to: Type) -> Type {
    Type::Pointer(Box::new(to), NONE)
}

fn array(of: Type, size: i64) -> Type {
    Type::Array(Box::new(of), ArrayType::Fixed(Box::new(Expr::Int(Token::Int(size)))))
}

/// A parser that has read one token of `prefix`, followed by `input`.
fn started(input: &str) -> Parser {
    let mut parser = Parser::new(lex(&format!("int {}", input)));
    parser.next_token();
    assert!(parser.started());
    parser
}

#[test]
fn a_name_stands_for_the_base_type() {
    let mut parser = started("x");
    assert_eq!(
        parser.declarator(&Type::Double, false),
        Locatable { data: Ok((Some("x".to_string()), Type::Double)), location: at(1, 5) }
    );
    assert_eq!(parser.next_token(), None);
}

#[test]
fn pointers_nest_with_the_rightmost_star_innermost() {
    assert_eq!(
        declared_type("int *const *volatile p;"),
        Type::Pointer(
            Box::new(Type::Pointer(
                Box::new(Type::Int(true)),
                Qualifiers { c_const: false, volatile: true }
            )),
            Qualifiers { c_const: true, volatile: false }
        )
    );
    assert_eq!(declared_type("char ***p;"), pointer(pointer(pointer(Type::Char(true)))));
}

#[test]
fn a_repeated_pointer_qualifier_warns() {
    let (outcomes, diagnostics) = run("int *const volatile const volatile p;");
    assert_eq!(brief(&outcomes), vec![("declare p".to_string(), at(1, 36))]);
    assert_eq!(
        declared_type("int *const volatile const volatile p;"),
        Type::Pointer(Box::new(Type::Int(true)), Qualifiers { c_const: true, volatile: true })
    );
    assert_eq!(
        diagnostics,
        vec![
            Diagnostic {
                severity: Severity::Warning,
                message: "duplicate 'const' declaration specifier".to_string(),
                location: at(1, 21),
            },
            Diagnostic {
                severity: Severity::Warning,
                message: "duplicate 'volatile' declaration specifier".to_string(),
                location: at(1, 27),
            },
        ]
    );
}

#[test]
fn suffixes_apply_from_left_to_right() {
    assert_eq!(declared_type("int a[2][3];"), array(array(Type::Int(true), 2), 3));
    assert_eq!(
        declared_type("int a[][4];"),
        array(Type::Array(Box::new(Type::Int(true)), ArrayType::Unbounded), 4)
    );
    assert_eq!(
        declared_type("int f()[5];"),
        array(function(Type::Int(true), vec![], false), 5)
    );
    assert_eq!(
        declared_type("int f[5]();"),
        function(array(Type::Int(true), 5), vec![], false)
    );
}

#[test]
fn suffixes_bind_tighter_than_a_pointer_unless_grouped() {
    assert_eq!(declared_type("int *a[10];"), pointer(array(Type::Int(true), 10)));
    assert_eq!(declared_type("int (*a)[10];"), array(pointer(Type::Int(true)), 10));
    assert_eq!(
        declared_type("int *f(void);"),
        pointer(function(Type::Int(true), vec![parameter("", Type::Void)], false))
    );
    assert_eq!(
        declared_type("int (*f)(void);"),
        function(pointer(Type::Int(true)), vec![parameter("", Type::Void)], false)
    );
    assert_eq!(declared_type("int ((a));"), Type::Int(true));
    assert_eq!(declared_type("int (a[3]);"), array(Type::Int(true), 3));
    assert_eq!(declared_type("int (a)[3];"), array(Type::Int(true), 3));
}

#[test]
fn an_array_size_is_an_integer_literal() {
    assert_eq!(declared_type("int a[5];"), array(Type::Int(true), 5));
    assert_eq!(declared_type("int a[0];"), array(Type::Int(true), 0));
    // anything else is consumed and stands for ten
    assert_eq!(declared_type("int a[n];"), array(Type::Int(true), 10));
    let (outcomes, _) = run("int a[n];");
    assert_eq!(brief(&outcomes), vec![("declare a".to_string(), at(1, 5))]);
}

#[test]
fn an_unclosed_array_is_an_error_and_still_an_array() {
    let (outcomes, _) = run("int a[3;");
    assert_eq!(
        brief(&outcomes),
        vec![("expected ']', got ';'".to_string(), at(1, 8)), ("declare a".to_string(), at(1, 5))]
    );
    assert_eq!(declared_type("int a[3;"), array(Type::Int(true), 3));
}

#[test]
fn parameters_are_listed_in_order() {
    assert_eq!(
        declared_type("int f(int a, unsigned char b, const long *c);"),
        function(
            Type::Int(true),
            vec![
                parameter("a", Type::Int(true)),
                parameter("b", Type::Char(false)),
                Symbol {
                    id: "c".to_string(),
                    ctype: pointer(Type::Long(true)),
                    qualifiers: Qualifiers { c_const: true, volatile: false },
                    storage_class: StorageClass::Auto,
                },
            ],
            false
        )
    );
}

#[test]
fn parameters_may_be_unnamed() {
    assert_eq!(
        declared_type("void f(int, char *, double []);"),
        function(
            Type::Void,
            vec![
                parameter("", Type::Int(true)),
                parameter("", pointer(Type::Char(true))),
                parameter("", Type::Array(Box::new(Type::Double), ArrayType::Unbounded)),
            ],
            false
        )
    );
    let mut parser = started("* )");
    assert_eq!(
        parser.declarator(&Type::Char(true), true),
        Locatable { data: Ok((None, pointer(Type::Char(true)))), location: at(1, 7) }
    );
    assert_eq!(parser.next_token(), Some(Locatable { data: Token::RightParen, location: at(1, 7) }));
}

#[test]
fn an_ellipsis_after_parameters_makes_the_function_variadic() {
    let (outcomes, diagnostics) = run("int printf(const char *format, ...);");
    assert_eq!(
        declared_type("int printf(const char *format, ...);"),
        function(
            Type::Int(true),
            vec![Symbol {
                id: "format".to_string(),
                ctype: pointer(Type::Char(true)),
                qualifiers: Qualifiers { c_const: true, volatile: false },
                storage_class: StorageClass::Auto,
            }],
            true
        )
    );
    assert_eq!(brief(&outcomes), vec![("declare printf".to_string(), at(1, 5))]);
    assert!(diagnostics.is_empty());
}

#[test]
fn a_variadic_parameter_list_takes_its_closing_parenthesis() {
    let mut parser = started("(int a, ...);");
    assert_eq!(
        parser.parameter_type_list(Type::Void),
        function(Type::Void, vec![parameter("a", Type::Int(true))], true)
    );
    assert_eq!(parser.next_token(), Some(Locatable { data: Token::Semicolon, location: at(1, 17) }));
    assert_eq!(parser.next(), None);
    assert!(parser.diagnostics().is_empty());
}

#[test]
fn an_ellipsis_without_a_parameter_is_an_error() {
    let mut parser = started("(...)");
    assert_eq!(
        parser.parameter_type_list(Type::Void),
        function(Type::Void, vec![], true)
    );
    assert_eq!(
        parser.next(),
        Some(Locatable {
            data: Err("a parameter is required before '...'".to_string()),
            location: at(1, 6),
        })
    );
    assert_eq!(parser.next_token(), None);
    assert_eq!(parser.next(), None);
}

#[test]
fn a_variadic_parameter_list_that_is_not_closed_is_an_error() {
    let (outcomes, _) = run("int f(int a, ...;");
    assert_eq!(
        brief(&outcomes),
        vec![("expected ')', got ';'".to_string(), at(1, 17)), ("declare f".to_string(), at(1, 5))]
    );
    assert_eq!(
        declared_type("int f(int a, ...;"),
        function(Type::Int(true), vec![parameter("a", Type::Int(true))], true)
    );
    // the error for the parenthesis comes before those of the list
    let (outcomes, _) = run("int f(...;");
    assert_eq!(
        brief(&outcomes),
        vec![
            ("expected ')', got ';'".to_string(), at(1, 10)),
            ("a parameter is required before '...'".to_string(), at(1, 7)),
            ("declare f".to_string(), at(1, 5)),
        ]
    );
}

#[test]
fn a_parameter_without_specifiers_is_an_error_and_an_int() {
    let (outcomes, diagnostics) = run("int f(x, *y);");
    assert_eq!(
        brief(&outcomes),
        vec![
            ("function parameters require types".to_string(), at(1, 7)),
            ("function parameters require types".to_string(), at(1, 10)),
            ("declare f".to_string(), at(1, 5)),
        ]
    );
    assert_eq!(
        declared_type("int f(x, *y);"),
        function(
            Type::Int(true),
            vec![parameter("x", Type::Int(true)), parameter("y", pointer(Type::Int(true)))],
            false
        )
    );
    assert!(diagnostics.is_empty());
}

#[test]
fn a_parameter_with_a_storage_class_is_an_error() {
    let (outcomes, _) = run("int f(static int n, register char, auto long m);");
    assert_eq!(
        brief(&outcomes),
        vec![
            ("cannot specify storage class 'static' for parameter n".to_string(), at(1, 7)),
            ("cannot specify storage class 'register' for unnamed parameter".to_string(), at(1, 21)),
            ("declare f".to_string(), at(1, 5)),
        ]
    );
    assert_eq!(
        declared_type("int f(static int n, register char, auto long m);"),
        function(
            Type::Int(true),
            vec![
                parameter("n", Type::Int(true)),
                parameter("", Type::Char(true)),
                parameter("m", Type::Long(true)),
            ],
            false
        )
    );
}

#[test]
fn parameter_specifiers_that_do_not_resolve_count_as_int() {
    let (outcomes, _) = run("int f(float char short x);");
    assert_eq!(
        brief(&outcomes),
        vec![
            ("cannot combine 'short' modifier with type 'float'".to_string(), at(1, 18)),
            ("declare f".to_string(), at(1, 5)),
        ]
    );
    assert_eq!(
        declared_type("int f(float char short x);"),
        function(Type::Int(true), vec![parameter("x", Type::Int(true))], false)
    );
}

#[test]
fn an_unclosed_parameter_list_is_an_error() {
    let (outcomes, _) = run("int f(int a;");
    assert_eq!(
        brief(&outcomes),
        vec![("expected ')', got ';'".to_string(), at(1, 12)), ("declare f".to_string(), at(1, 5))]
    );
    assert_eq!(
        declared_type("int f(int a;"),
        function(Type::Int(true), vec![parameter("a", Type::Int(true))], false)
    );
}

#[test]
fn a_parameter_list_takes_the_queue_for_its_errors() {
    let mut parser = started("x");
    assert_eq!(
        parser.parameter_type_list(Type::Int(true)),
        function(Type::Int(true), vec![parameter("x", Type::Int(true))], false)
    );
    let mut queued = Vec::new();
    while let Some(outcome) = parser.next() {
        queued.push(outcome);
    }
    assert_eq!(
        brief(&queued),
        vec![
            ("expected '(', got 'x'".to_string(), at(1, 5)),
            ("expected ')', got <end-of-file>".to_string(), at(1, 5)),
            ("function parameters require types".to_string(), at(1, 5)),
        ]
    );
}

#[test]
fn one_parameter_is_read_at_a_time() {
    let mut parser = started("unsigned n, char c");
    let mut params = Vec::new();
    let mut errors = VecDeque::new();
    parser.parameter(&mut params, &mut errors);
    assert_eq!(params, vec![parameter("n", Type::Int(false))]);
    assert!(errors.is_empty());
    assert_eq!(parser.next_token(), Some(Locatable { data: Token::Comma, location: at(1, 15) }));
    parser.parameter(&mut params, &mut errors);
    assert_eq!(params, vec![parameter("n", Type::Int(false)), parameter("c", Type::Char(true))]);
    assert!(errors.is_empty());
}

#[test]
fn functions_may_return_and_take_functions() {
    assert_eq!(
        declared_type("int f(int g(char), long);"),
        function(
            Type::Int(true),
            vec![
                parameter(
                    "g",
                    function(Type::Int(true), vec![parameter("", Type::Char(true))], false)
                ),
                parameter("", Type::Long(true)),
            ],
            false
        )
    );
}

#[test]
fn what_cannot_begin_a_declarator_is_an_error() {
    let (outcomes, _) = run("int 5;");
    assert_eq!(
        brief(&outcomes),
        vec![
            ("expected '(', '*', or identifier, got '5'".to_string(), at(1, 5)),
            ("expected ';', got '5'".to_string(), at(1, 5)),
            ("not handled".to_string(), at(1, 5)),
            ("not handled".to_string(), at(1, 6)),
        ]
    );
    let mut parser = started(")");
    assert_eq!(
        parser.declarator(&Type::Int(true), false),
        Locatable {
            data: Err("expected '(', '*', or identifier, got ')'".to_string()),
            location: at(1, 5),
        }
    );
    assert_eq!(parser.next_token(), Some(Locatable { data: Token::RightParen, location: at(1, 5) }));
}

#[test]
fn a_declarator_cut_off_by_the_end_of_input_is_an_error() {
    let (outcomes, diagnostics) = run("int");
    assert_eq!(
        brief(&outcomes),
        vec![
            ("expected type, got <end-of-file>".to_string(), at(1, 1)),
            ("expected ';', got <end-of-file>".to_string(), at(1, 1)),
        ]
    );
    assert!(diagnostics.is_empty());
    let (outcomes, _) = run("int *");
    assert_eq!(
        brief(&outcomes),
        vec![
            ("expected type, got <end-of-file>".to_string(), at(1, 5)),
            ("expected ';', got <end-of-file>".to_string(), at(1, 5)),
        ]
    );
    let mut parser = started("");
    assert_eq!(
        parser.declarator(&Type::Int(true), true),
        Locatable { data: Err("expected type, got <end-of-file>".to_string()), location: at(1, 1) }
    );
}

#[test]
fn an_error_inside_a_group_still_expects_the_closing_parenthesis() {
    let (outcomes, _) = run("int (5);");
    assert_eq!(
        brief(&outcomes),
        vec![
            ("expected ')', got '5'".to_string(), at(1, 6)),
            ("expected '(', '*', or identifier, got '5'".to_string(), at(1, 6)),
            ("expected ';', got '5'".to_string(), at(1, 6)),
            ("not handled".to_string(), at(1, 6)),
            ("not handled".to_string(), at(1, 7)),
            ("not handled".to_string(), at(1, 8)),
        ]
    );
}

#[test]
fn a_failed_declarator_does_not_stop_the_later_ones() {
    let (outcomes, _) = run("int 5, b, *c;");
    assert_eq!(
        brief(&outcomes),
        vec![
            ("expected '(', '*', or identifier, got '5'".to_string(), at(1, 5)),
            ("expected ';', got '5'".to_string(), at(1, 5)),
            ("not handled".to_string(), at(1, 5)),
            ("not handled".to_string(), at(1, 6)),
            ("not handled".to_string(), at(1, 8)),
            ("not handled".to_string(), at(1, 9)),
            ("not handled".to_string(), at(1, 11)),
            ("not handled".to_string(), at(1, 12)),
            ("not handled".to_string(), at(1, 13)),
        ]
    );
    let (outcomes, _) = run("int ), b;");
    assert_eq!(
        brief(&outcomes),
        vec![
            ("expected '(', '*', or identifier, got ')'".to_string(), at(1, 5)),
            ("expected ';', got ')'".to_string(), at(1, 5)),
            ("not handled".to_string(), at(1, 5)),
            ("not handled".to_string(), at(1, 6)),
            ("not handled".to_string(), at(1, 8)),
            ("not handled".to_string(), at(1, 9)),
        ]
    );
}

#[test]
fn a_missing_semicolon_is_recorded_and_the_statement_kept() {
    let (outcomes, _) = run("int a b;");
    assert_eq!(
        brief(&outcomes),
        vec![
            ("declare a".to_string(), at(1, 5)),
            ("expected ';', got 'b'".to_string(), at(1, 7)),
            ("not handled".to_string(), at(1, 7)),
            ("not handled".to_string(), at(1, 8)),
        ]
    );
    let (outcomes, _) = run("int a");
    assert_eq!(
        brief(&outcomes),
        vec![
            ("declare a".to_string(), at(1, 5)),
            ("expected ';', got <end-of-file>".to_string(), at(1, 5)),
        ]
    );
}

#[test]
fn declarations_follow_one_another() {
    let (outcomes, diagnostics) = run("int a;\nchar *b, c[2];\nlong;\nextern double d;");
    assert_eq!(
        outcomes,
        vec![
            Locatable {
                data: Ok(Stmt::Declaration(parameter("a", Type::Int(true)))),
                location: at(1, 5),
            },
            Locatable {
                data: Ok(Stmt::Declaration(parameter("b", pointer(Type::Char(true))))),
                location: at(2, 7),
            },
            Locatable {
                data: Ok(Stmt::Declaration(parameter("c", array(Type::Char(true), 2)))),
                location: at(2, 10),
            },
            Locatable {
                data: Ok(Stmt::Declaration(Symbol {
                    id: "d".to_string(),
                    ctype: Type::Double,
                    qualifiers: NONE,
                    storage_class: StorageClass::Extern,
                })),
                location: at(4, 15),
            },
        ]
    );
    assert_eq!(
        diagnostics,
        vec![Diagnostic {
            severity: Severity::Warning,
            message: "declaration does not declare anything".to_string(),
            location: at(4, 1),
        }]
    );
}

#[test]
fn every_pull_with_an_empty_queue_consumes_input() {
    let mut parser = Parser::new(lex("int a, b; x int;"));
    let mut pulls = 0;
    while parser.next().is_some() {
        pulls += 1;
        assert!(pulls <= 16);
    }
    assert_eq!(pulls, 3);
    assert_eq!(parser.next_token(), None);
    assert_eq!(parser.next(), None);
    assert_eq!(parser.diagnostics().len(), 1);
}

#[test]
fn the_first_outcome_of_a_declaration_comes_from_the_queue() {
    let mut parser = started("a, b;");
    assert_eq!(
        parser.declaration(Keyword::Int),
        Some(Locatable {
            data: Ok(Stmt::Declaration(parameter("a", Type::Int(true)))),
            location: at(1, 5),
        })
    );
    assert_eq!(
        parser.next(),
        Some(Locatable {
            data: Ok(Stmt::Declaration(parameter("b", Type::Int(true)))),
            location: at(1, 8),
        })
    );
    assert_eq!(parser.next(), None);
}

#[test]
fn postfix_type_keeps_the_name_and_the_place() {
    let mut parser = started("[4](int)");
    assert_eq!(
        parser.postfix_type(Locatable {
            data: (Some("t".to_string()), Type::Float),
            location: at(9, 9),
        }),
        Locatable {
            data: Ok((
                Some("t".to_string()),
                function(array(Type::Float, 4), vec![parameter("", Type::Int(true))], false)
            )),
            location: at(9, 9),
        }
    );
    let mut parser = started(";");
    assert_eq!(
        parser.postfix_type(Locatable { data: (None, Type::Float), location: at(2, 3) }),
        Locatable { data: Ok((None, Type::Float)), location: at(2, 3) }
    );
    assert_eq!(parser.next_token(), Some(Locatable { data: Token::Semicolon, location: at(1, 5) }));
}

#[test]
fn a_declarator_may_be_the_first_thing_read() {
    let mut parser = Parser::new(lex("*p[2]"));
    assert!(parser.locatable());
    assert_eq!(
        parser.declarator(&Type::Short(false), false),
        Locatable {
            data: Ok((Some("p".to_string()), pointer(array(Type::Short(false), 2)))),
            location: at(1, 2),
        }
    );
    let mut parser = Parser::new(Vec::new());
    assert_eq!(
        parser.postfix_type(Locatable { data: (None, Type::Void), location: at(3, 4) }),
        Locatable { data: Ok((None, Type::Void)), location: at(3, 4) }
    );
}

#[test]
fn every_declarator_of_a_declaration_becomes_a_statement_in_order() {
    let (outcomes, diagnostics) = run("extern const long a, *b, c[3], (*d)(int), e;");
    let declare = |name: &str, ctype: Type, column: u32| Locatable {
        data: Ok(Stmt::Declaration(Symbol {
            id: name.to_string(),
            ctype,
            qualifiers: Qualifiers { c_const: true, volatile: false },
            storage_class: StorageClass::Extern,
        })),
        location: at(1, column),
    };
    assert_eq!(
        outcomes,
        vec![
            declare("a", Type::Long(true), 19),
            declare("b", pointer(Type::Long(true)), 23),
            declare("c", array(Type::Long(true), 3), 26),
            declare(
                "d",
                function(pointer(Type::Long(true)), vec![parameter("", Type::Int(true))], false),
                34
            ),
            declare("e", Type::Long(true), 43),
        ]
    );
    assert!(diagnostics.is_empty());

    let mut parser = started("a, b, c;");
    assert_eq!(
        parser.declaration(Keyword::Int),
        Some(Locatable {
            data: Ok(Stmt::Declaration(parameter("a", Type::Int(true)))),
            location: at(1, 5),
        })
    );
    let mut queued = Vec::new();
    while let Some(outcome) = parser.next() {
        queued.push(outcome);
    }
    assert_eq!(
        brief(&queued),
        vec![("declare b".to_string(), at(1, 8)), ("declare c".to_string(), at(1, 11))]
    );
}
