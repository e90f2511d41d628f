use cdecl::data::{BaseType, Keyword, StorageClass, Token};
use cdecl::message::{
    both_signs, cannot_combine, cannot_combine_modifier, declares_nothing,
    duplicate_basic_type, duplicate_pointer_qualifier, duplicate_specifier, expected,
    expected_declarator, expected_type, invalid_modifier, missing_type_specifier,
    multiple_storage_classes, not_handled, parameter_before_ellipsis, parameter_storage_class,
    parameters_require_types,
};
use cdecl::text::integer;

#[test]
fn keywords_are_spelled_as_in_c() {
    let spellings = [
        (Keyword::If, "if"),
        (Keyword::Else, "else"),
        (Keyword::Do, "do"),
        (Keyword::While, "while"),
        (Keyword::For, "for"),
        (Keyword::Switch, "switch"),
        (Keyword::Case, "case"),
        (Keyword::Default, "default"),
        (Keyword::Break, "break"),
        (Keyword::Continue, "continue"),
        (Keyword::Return, "return"),
        (Keyword::Goto, "goto"),
        (Keyword::Bool, "_Bool"),
        (Keyword::Char, "char"),
        (Keyword::Short, "short"),
        (Keyword::Int, "int"),
        (Keyword::Long, "long"),
        (Keyword::Float, "float"),
        (Keyword::Double, "double"),
        (Keyword::Void, "void"),
        (Keyword::Signed, "signed"),
        (Keyword::Unsigned, "unsigned"),
        (Keyword::Typedef, "typedef"),
        (Keyword::Union, "union"),
        (Keyword::Struct, "struct"),
        (Keyword::Enum, "enum"),
        (Keyword::Const, "const"),
        (Keyword::Volatile, "volatile"),
        (Keyword::Auto, "auto"),
        (Keyword::Register, "register"),
        (Keyword::Static, "static"),
        (Keyword::Extern, "extern"),
        (Keyword::Sizeof, "sizeof"),
    ];
    for (keyword, spelling) in spellings {
        assert_eq!(keyword.text(), spelling);
        assert_eq!(Token::Keyword(keyword).text(), spelling);
    }
}

#[test]
fn storage_classes_and_base_types_are_spelled_as_their_keywords() {
    assert_eq!(StorageClass::Auto.text(), "auto");
    assert_eq!(StorageClass::Extern.text(), "extern");
    assert_eq!(StorageClass::Static.text(), "static");
    assert_eq!(StorageClass::Register.text(), "register");
    assert_eq!(BaseType::Void.text(), "void");
    assert_eq!(BaseType::Bool.text(), "_Bool");
    assert_eq!(BaseType::Char.text(), "char");
    assert_eq!(BaseType::Short.text(), "short");
    assert_eq!(BaseType::Int.text(), "int");
    assert_eq!(BaseType::Long.text(), "long");
    assert_eq!(BaseType::Float.text(), "float");
    assert_eq!(BaseType::Double.text(), "double");
}

#[test]
fn integers_are_written_in_decimal() {
    assert_eq!(integer(0), "0");
    assert_eq!(integer(7), "7");
    assert_eq!(integer(9), "9");
    assert_eq!(integer(10), "10");
    assert_eq!(integer(42), "42");
    assert_eq!(integer(100), "100");
    assert_eq!(integer(1234567890), "1234567890");
    assert_eq!(integer(-1), "-1");
    assert_eq!(integer(-10), "-10");
    assert_eq!(integer(-305), "-305");
    assert_eq!(integer(i64::MAX), "9223372036854775807");
    assert_eq!(integer(i64::MIN), "-9223372036854775808");
    for value in [-1000i64, -99, -11, 5, 19, 20, 101, 65535, 1 << 40] {
        assert_eq!(integer(value), value.to_string());
    }
}

#[test]
fn tokens_are_spelled_as_they_are_written() {
    let spellings = [
        (Token::Id("foo_1".to_string()), "foo_1"),
        (Token::Id(String::new()), ""),
        (Token::Int(10), "10"),
        (Token::Int(-3), "-3"),
        (Token::LeftBrace, "{"),
        (Token::RightBrace, "}"),
        (Token::LeftBracket, "["),
        (Token::RightBracket, "]"),
        (Token::LeftParen, "("),
        (Token::RightParen, ")"),
        (Token::Semicolon, ";"),
        (Token::Colon, ":"),
        (Token::Comma, ","),
        (Token::Dot, "."),
        (Token::Question, "?"),
        (Token::Star, "*"),
        (Token::Plus, "+"),
        (Token::Minus, "-"),
        (Token::Divide, "/"),
        (Token::Equal, "="),
        (Token::Ampersand, "&"),
        (Token::Ellipsis, "..."),
    ];
    for (token, spelling) in spellings {
        assert_eq!(token.text(), spelling);
    }
}

#[test]
fn tokens_compare_by_what_they_hold() {
    assert_eq!(Token::Id("a".to_string()), Token::Id("a".to_string()));
    assert_ne!(Token::Id("a".to_string()), Token::Id("b".to_string()));
    assert_eq!(Token::Int(1), Token::Int(1));
    assert_ne!(Token::Int(1), Token::Int(2));
    assert_eq!(Token::Keyword(Keyword::Int), Token::Keyword(Keyword::Int));
    assert_ne!(Token::Keyword(Keyword::Int), Token::Keyword(Keyword::Long));
    assert_ne!(Token::Keyword(Keyword::Int), Token::Id("int".to_string()));
    assert_eq!(Token::Star, Token::Star);
    assert_ne!(Token::Star, Token::Ampersand);
    assert_ne!(Token::LeftParen, Token::RightParen);
    assert_eq!(Token::Id("a".to_string()).clone(), Token::Id("a".to_string()));
    assert_eq!(Token::Ellipsis.clone(), Token::Ellipsis);
}

#[test]
fn every_message_has_its_wording() {
    assert_eq!(
        expected(&Token::Semicolon, Some(&Token::Id("x".to_string()))),
        "expected ';', got 'x'"
    );
    assert_eq!(expected(&Token::RightParen, Some(&Token::Int(5))), "expected ')', got '5'");
    assert_eq!(expected(&Token::RightBracket, None), "expected ']', got <end-of-file>");
    assert_eq!(duplicate_specifier(Keyword::Const), "duplicate declaration specifier 'const'");
    assert_eq!(duplicate_basic_type(Keyword::Short), "duplicate basic type 'short' in declarator");
    assert_eq!(invalid_modifier("unsigned", "float"), "invalid modifier 'unsigned' for 'float'");
    assert_eq!(both_signs(), "types cannot be both signed and unsigned");
    assert_eq!(
        multiple_storage_classes(StorageClass::Extern, StorageClass::Register),
        "multiple storage classes in declaration ('extern' and 'register')"
    );
    assert_eq!(cannot_combine("void", "int"), "cannot combine 'void' with 'int'");
    assert_eq!(
        cannot_combine_modifier(Keyword::Short, BaseType::Double),
        "cannot combine 'short' modifier with type 'double'"
    );
    assert_eq!(missing_type_specifier(), "type specifier missing, defaults to int");
    assert_eq!(
        expected_declarator(&Token::Semicolon),
        "expected '(', '*', or identifier, got ';'"
    );
    assert_eq!(expected_type(), "expected type, got <end-of-file>");
    assert_eq!(parameter_before_ellipsis(), "a parameter is required before '...'");
    assert_eq!(parameters_require_types(), "function parameters require types");
    assert_eq!(
        parameter_storage_class(StorageClass::Static, &Some("n".to_string())),
        "cannot specify storage class 'static' for parameter n"
    );
    assert_eq!(
        parameter_storage_class(StorageClass::Register, &None),
        "cannot specify storage class 'register' for unnamed parameter"
    );
    assert_eq!(declares_nothing(), "declaration does not declare anything");
    assert_eq!(not_handled(), "not handled");
    assert_eq!(
        duplicate_pointer_qualifier(Keyword::Volatile),
        "duplicate 'volatile' declaration specifier"
    );
}
