use cdecl::data::{
    ArrayType, Expr, FunctionType, Keyword, Locatable, Location, Qualifiers, Stmt, StorageClass,
    Symbol, Token, Type,
};
use cdecl::parse::Parser;
use cdecl::state::{Diagnostic, Lexeme, Outcome, Severity};

type ParseType = Locatable<Result<Stmt, String>>;

fn keyword(word: &str) -> Option<Keyword> {
    Some(match word {
        "if" => Keyword::If,
        "else" => Keyword::Else,
        "do" => Keyword::Do,
        "while" => Keyword::While,
        "for" => Keyword::For,
        "switch" => Keyword::Switch,
        "case" => Keyword::Case,
        "default" => Keyword::Default,
        "break" => Keyword::Break,
        "continue" => Keyword::Continue,
        "return" => Keyword::Return,
        "goto" => Keyword::Goto,
        "_Bool" => Keyword::Bool,
        "char" => Keyword::Char,
        "short" => Keyword::Short,
        "int" => Keyword::Int,
        "long" => Keyword::Long,
        "float" => Keyword::Float,
        "double" => Keyword::Double,
        "void" => Keyword::Void,
        "signed" => Keyword::Signed,
        "unsigned" => Keyword::Unsigned,
        "typedef" => Keyword::Typedef,
        "union" => Keyword::Union,
        "struct" => Keyword::Struct,
        "enum" => Keyword::Enum,
        "const" => Keyword::Const,
        "volatile" => Keyword::Volatile,
        "auto" => Keyword::Auto,
        "register" => Keyword::Register,
        "static" => Keyword::Static,
        "extern" => Keyword::Extern,
        "sizeof" => Keyword::Sizeof,
        _ => return None,
    })
}

fn punctuation(c: char) -> Option<Token> {
    Some(match c {
        '{' => Token::LeftBrace,
        '}' => Token::RightBrace,
        '[' => Token::LeftBracket,
        ']' => Token::RightBracket,
        '(' => Token::LeftParen,
        ')' => Token::RightParen,
        ';' => Token::Semicolon,
        ':' => Token::Colon,
        ',' => Token::Comma,
        '.' => Token::Dot,
        '?' => Token::Question,
        '*' => Token::Star,
        '+' => Token::Plus,
        '-' => Token::Minus,
        '/' => Token::Divide,
        '=' => Token::Equal,
        '&' => Token::Ampersand,
        _ => return None,
    })
}

fn lex(input: &str) -> Vec<Lexeme> {
    let chars: Vec<char> = input.chars().collect();
    let mut lexemes = Vec::new();
    let mut i = 0;
    let mut line = 1u32;
    let mut column = 1u32;
    while i < chars.len() {
        let c = chars[i];
        if c == '\n' {
            line += 1;
            column = 1;
            i += 1;
            continue;
        }
        if c.is_whitespace() {
            column += 1;
            i += 1;
            continue;
        }
        let location = Location { line, column };
        let start = i;
        let data = if c.is_ascii_alphabetic() || c == '_' {
            while i < chars.len() && (chars[i].is_ascii_alphanumeric() || chars[i] == '_') {
                i += 1;
            }
            let word: String = chars[start..i].iter().collect();
            match keyword(&word) {
                Some(keyword) => Ok(Token::Keyword(keyword)),
                None => Ok(Token::Id(word)),
            }
        } else if c.is_ascii_digit() {
            while i < chars.len() && chars[i].is_ascii_digit() {
                i += 1;
            }
            let digits: String = chars[start..i].iter().collect();
            match digits.parse::<i64>() {
                Ok(value) => Ok(Token::Int(value)),
                Err(_) => Err(format!("integer literal '{}' is too large", digits)),
            }
        } else if c == '.' && i + 2 < chars.len() && chars[i + 1] == '.' && chars[i + 2] == '.' {
            i += 3;
            Ok(Token::Ellipsis)
        } else {
            i += 1;
            match punctuation(c) {
                Some(token) => Ok(token),
                None => Err(format!("unknown token: '{}'", c)),
            }
        };
        column += (i - start) as u32;
        lexemes.push(Locatable { data, location });
    }
    lexemes
}

fn run(input: &str) -> (Vec<ParseType>, Vec<Diagnostic>) {
    let mut parser = Parser::new(lex(input));
    let mut outcomes = Vec::new();
    while let Some(outcome) = parser.next() {
        outcomes.push(outcome);
    }
    (outcomes, parser.take_diagnostics())
}

fn parse_all(input: &str) -> Vec<ParseType> {
    run(input).0
}

fn parse(input: &str) -> Option<ParseType> {
    parse_all(input).get(0).cloned()
}

fn match_data<T>(lexed: Option<ParseType>, closure: T) -> bool
where
    T: Fn(Result<Stmt, String>) -> bool,
{
    match lexed {
        Some(result) => closure(result.data),
        None => false,
    }
}

fn match_type(lexed: Option<ParseType>, given_type: Type) -> bool {
    match_data(lexed, |data| match data {
        Ok(Stmt::Declaration(symbol)) => symbol.ctype == given_type,
        _ => false,
    })
}

fn ten() -> ArrayType {
    ArrayType::Fixed(Box::new(Expr::Int(Token::Int(10))))
}

fn symbols(outcomes: &[Outcome]) -> Vec<Symbol> {
    outcomes
        .iter()
        .filter_map(|outcome| match &outcome.data {
            Ok(Stmt::Declaration(symbol)) => Some(symbol.clone()),
            Err(_) => None,
        })
        .collect()
}

fn errors(outcomes: &[Outcome]) -> Vec<String> {
    outcomes
        .iter()
        .filter_map(|outcome| match &outcome.data {
            Ok(_) => None,
            Err(message) => Some(message.clone()),
        })
        .collect()
}

fn warnings(diagnostics: &[Diagnostic]) -> Vec<String> {
    diagnostics
        .iter()
        .filter(|diagnostic| diagnostic.severity == Severity::Warning)
        .map(|diagnostic| diagnostic.message.clone())
        .collect()
}

const NONE: Qualifiers = Qualifiers { c_const: false, volatile: false };
const CONST: Qualifiers = Qualifiers { c_const: true, volatile: false };
const VOLATILE: Qualifiers = Qualifiers { c_const: false, volatile: true };
const CONST_VOLATILE: Qualifiers = Qualifiers { c_const: true, volatile: true };

#[test]
fn test_decl_specifiers() {
    assert!(match_type(parse("char i;"), Type::Char(true)));
    assert!(match_type(parse("unsigned char i;"), Type::Char(false)));
    assert!(match_type(parse("signed short i;"), Type::Short(true)));
    assert!(match_type(parse("unsigned short i;"), Type::Short(false)));
    assert!(match_type(parse("long i;"), Type::Long(true)));
    assert!(match_type(parse("long long i;"), Type::Long(true)));
    assert!(match_type(parse("long unsigned i;"), Type::Long(false)));
    assert!(match_type(parse("int i;"), Type::Int(true)));
    assert!(match_type(parse("signed i;"), Type::Int(true)));
    assert!(match_type(parse("unsigned i;"), Type::Int(false)));
    assert!(match_type(parse("float f;"), Type::Float));
    assert!(match_type(parse("double d;"), Type::Double));
    assert!(match_type(parse("long double d;"), Type::Double));
    assert!(match_type(
        parse("void f();"),
        Type::Function(FunctionType {
            return_type: Box::new(Type::Void),
            params: vec![],
            varargs: false
        })
    ));
    assert!(match_type(parse("const volatile int f;"), Type::Int(true)));
}

#[test]
fn test_bad_decl_specs() {
    assert!(parse("int;").is_none());
    assert!(parse("char char;").unwrap().data.is_err());
    assert!(parse("char long;").unwrap().data.is_err());
    assert!(parse("long char;").unwrap().data.is_err());
    assert!(parse("float char;").unwrap().data.is_err());
    assert!(parse("float double;").unwrap().data.is_err());
    assert!(parse("double double;").unwrap().data.is_err());
    assert!(parse("double unsigned;").unwrap().data.is_err());
    assert!(parse("short double;").unwrap().data.is_err());
    assert!(parse("int void;").unwrap().data.is_err());
    assert!(parse("void int;").unwrap().data.is_err());
    // default to int if we don't have a type
    // don't panic if we see duplicate specifiers
    assert!(match_type(parse("unsigned unsigned i;"), Type::Int(false)));
    assert!(match_type(parse("extern extern i;"), Type::Int(true)));
    assert!(match_type(parse("const const i;"), Type::Int(true)));
    assert!(match_type(parse("const volatile i;"), Type::Int(true)));
}

#[test]
fn test_complex_types() {
    assert!(match_type(
        parse("int a[]"),
        Type::Array(Box::new(Type::Int(true)), ArrayType::Unbounded)
    ));
    assert!(match_type(
        parse("unsigned a[]"),
        Type::Array(Box::new(Type::Int(false)), ArrayType::Unbounded)
    ));
    assert!(match_type(
        parse("_Bool a[][][]"),
        Type::Array(
            Box::new(Type::Array(
                Box::new(Type::Array(Box::new(Type::Bool), ArrayType::Unbounded)),
                ArrayType::Unbounded
            )),
            ArrayType::Unbounded
        )
    ));
    assert!(match_type(
        parse("void *a"),
        Type::Pointer(Box::new(Type::Void), Default::default())
    ));
    assert!(match_type(
        parse("float *const a"),
        Type::Pointer(Box::new(Type::Float), CONST)
    ));
    assert!(match_type(
        parse("double *volatile *const a"),
        Type::Pointer(
            Box::new(Type::Pointer(Box::new(Type::Double), CONST)),
            VOLATILE
        )
    ));
    assert!(match_type(
        parse("_Bool *volatile const a"),
        Type::Pointer(Box::new(Type::Bool), CONST_VOLATILE)
    ));
    // cdecl: declare foo as array 10 of pointer to pointer to int
    assert!(match_type(
        parse("char **foo[10];"),
        Type::Pointer(
            Box::new(Type::Pointer(
                Box::new(Type::Array(
                    Box::new(Type::Char(true)),
                    ArrayType::Fixed(Box::new(Expr::Int(Token::Int(10))))
                )),
                Default::default()
            )),
            Default::default()
        )
    ));
    // cdecl: declare foo as pointer to pointer to array 10 of int
    assert!(match_type(
        parse("int (**foo)[10];"),
        Type::Array(
            Box::new(Type::Pointer(
                Box::new(Type::Pointer(Box::new(Type::Int(true)), Default::default())),
                Default::default()
            )),
            ArrayType::Fixed(Box::new(Expr::Int(Token::Int(10))))
        )
    ));
}

#[test]
fn empty_declaration_warns_and_resumes() {
    let (outcomes, diagnostics) = run("int;");
    assert!(outcomes.is_empty());
    assert_eq!(warnings(&diagnostics), vec!["declaration does not declare anything".to_string()]);
    assert_eq!(diagnostics.len(), 1);
    assert_eq!(diagnostics[0].location, Location { line: 1, column: 4 });

    let (outcomes, diagnostics) = run("int; char c;");
    assert_eq!(outcomes.len(), 1);
    let declared = symbols(&outcomes);
    assert_eq!(declared.len(), 1);
    assert_eq!(declared[0].id, "c");
    assert_eq!(declared[0].ctype, Type::Char(true));
    assert_eq!(outcomes[0].location, Location { line: 1, column: 11 });
    assert_eq!(warnings(&diagnostics).len(), 1);
    assert_eq!(diagnostics[0].location, Location { line: 1, column: 6 });
}

#[test]
fn char_declarations_carry_name_and_sign() {
    let (outcomes, diagnostics) = run("char i;");
    assert_eq!(
        outcomes,
        vec![Locatable {
            data: Ok(Stmt::Declaration(Symbol {
                id: "i".to_string(),
                ctype: Type::Char(true),
                qualifiers: NONE,
                storage_class: StorageClass::Auto,
            })),
            location: Location { line: 1, column: 6 },
        }]
    );
    assert!(diagnostics.is_empty());

    let (outcomes, diagnostics) = run("unsigned char i;");
    assert_eq!(
        symbols(&outcomes),
        vec![Symbol {
            id: "i".to_string(),
            ctype: Type::Char(false),
            qualifiers: NONE,
            storage_class: StorageClass::Auto,
        }]
    );
    assert_eq!(outcomes.len(), 1);
    assert!(diagnostics.is_empty());
}

#[test]
fn long_may_be_repeated() {
    let (outcomes, diagnostics) = run("long long i;");
    assert_eq!(outcomes.len(), 1);
    assert_eq!(symbols(&outcomes)[0].ctype, Type::Long(true));
    assert!(diagnostics.is_empty());
}

#[test]
fn conflicting_specifiers_are_errors() {
    let (outcomes, _) = run("float unsigned;");
    assert_eq!(errors(&outcomes)[0], "invalid modifier 'unsigned' for 'float'");
    assert!(symbols(&outcomes).is_empty());

    let (outcomes, _) = run("void int;");
    assert_eq!(errors(&outcomes)[0], "cannot combine 'int' with 'void'");
    assert!(symbols(&outcomes).is_empty());

    let (outcomes, _) = run("double double;");
    assert_eq!(errors(&outcomes)[0], "duplicate basic type 'double' in declarator");
    assert!(symbols(&outcomes).is_empty());
}

#[test]
fn array_without_size() {
    let (outcomes, diagnostics) = run("int a[];");
    assert_eq!(outcomes.len(), 1);
    assert_eq!(
        symbols(&outcomes)[0].ctype,
        Type::Array(Box::new(Type::Int(true)), ArrayType::Unbounded)
    );
    assert!(diagnostics.is_empty());
}

#[test]
fn grouping_binds_pointers_before_the_array() {
    let (outcomes, _) = run("int (**foo)[10];");
    assert_eq!(outcomes.len(), 1);
    let declared = symbols(&outcomes);
    assert_eq!(declared[0].id, "foo");
    assert_eq!(
        declared[0].ctype,
        Type::Array(
            Box::new(Type::Pointer(
                Box::new(Type::Pointer(Box::new(Type::Int(true)), NONE)),
                NONE
            )),
            ten()
        )
    );
}

#[test]
fn array_binds_to_the_name_before_the_pointers() {
    let (outcomes, _) = run("char **foo[10];");
    assert_eq!(outcomes.len(), 1);
    assert_eq!(
        symbols(&outcomes)[0].ctype,
        Type::Pointer(
            Box::new(Type::Pointer(
                Box::new(Type::Array(Box::new(Type::Char(true)), ten())),
                NONE
            )),
            NONE
        )
    );
}

#[test]
fn function_without_parameters() {
    let (outcomes, diagnostics) = run("void f();");
    assert_eq!(
        symbols(&outcomes),
        vec![Symbol {
            id: "f".to_string(),
            ctype: Type::Function(FunctionType {
                return_type: Box::new(Type::Void),
                params: vec![],
                varargs: false,
            }),
            qualifiers: NONE,
            storage_class: StorageClass::Auto,
        }]
    );
    assert_eq!(outcomes.len(), 1);
    assert!(diagnostics.is_empty());
}

#[test]
fn ellipsis_without_parameter_is_an_error_and_still_variadic() {
    let variadic = Type::Function(FunctionType {
        return_type: Box::new(Type::Int(true)),
        params: vec![],
        varargs: true,
    });
    let mut parser = Parser::new(lex("f(...)"));
    parser.next_token();
    assert!(parser.started());
    assert_eq!(parser.parameter_type_list(Type::Int(true)), variadic);
    let mut queued = Vec::new();
    while let Some(outcome) = parser.next() {
        queued.push(outcome);
    }
    assert_eq!(
        queued,
        vec![Locatable {
            data: Err("a parameter is required before '...'".to_string()),
            location: Location { line: 1, column: 3 },
        }]
    );

    let (outcomes, diagnostics) = run("int f(...);");
    assert_eq!(errors(&outcomes), vec!["a parameter is required before '...'".to_string()]);
    let declared = symbols(&outcomes);
    assert_eq!(declared.len(), 1);
    assert_eq!(declared[0].id, "f");
    assert_eq!(declared[0].ctype, variadic);
    assert_eq!(outcomes.len(), 2);
    assert!(diagnostics.is_empty());

    // without the semicolon, its absence is the only further error
    let (outcomes, _) = run("int f(...)");
    assert_eq!(
        errors(&outcomes),
        vec![
            "a parameter is required before '...'".to_string(),
            "expected ';', got <end-of-file>".to_string(),
        ]
    );
    assert_eq!(symbols(&outcomes)[0].ctype, variadic);
}

#[test]
fn two_declarators_share_the_specifiers() {
    let (outcomes, diagnostics) = run("static const int a, *b;");
    assert_eq!(
        outcomes,
        vec![
            Locatable {
                data: Ok(Stmt::Declaration(Symbol {
                    id: "a".to_string(),
                    ctype: Type::Int(true),
                    qualifiers: CONST,
                    storage_class: StorageClass::Static,
                })),
                location: Location { line: 1, column: 18 },
            },
            Locatable {
                data: Ok(Stmt::Declaration(Symbol {
                    id: "b".to_string(),
                    ctype: Type::Pointer(Box::new(Type::Int(true)), NONE),
                    qualifiers: CONST,
                    storage_class: StorageClass::Static,
                })),
                location: Location { line: 1, column: 22 },
            },
        ]
    );
    assert!(diagnostics.is_empty());

    let (outcomes, _) = run("int a, *b;");
    let declared = symbols(&outcomes);
    assert_eq!(declared.len(), 2);
    assert_eq!(declared[0].id, "a");
    assert_eq!(declared[0].ctype, Type::Int(true));
    assert_eq!(declared[1].id, "b");
    assert_eq!(declared[1].ctype, Type::Pointer(Box::new(Type::Int(true)), NONE));
    assert_eq!(declared[0].storage_class, declared[1].storage_class);
    assert_eq!(declared[0].qualifiers, declared[1].qualifiers);
}
