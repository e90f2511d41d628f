//! The wording of every diagnostic the parser produces. Each message has a
//! model, a sequence of characters, and a function that builds the string.

use crate::data::{BaseType, Keyword, SpecToken, StorageClass, Token};
use vstd::prelude::*;
use vstd::string::StringExecFns;

verus! {

/// "expected 'X', got 'Y'", or "... got <end-of-file>" at the end of input.
pub open spec fn expected_text(want: SpecToken, got: Option<SpecToken>) -> Seq<char> {
    match got {
        Some(got) => "expected '"@ + want.text() + "', got '"@ + got.text() + "'"@,
        None => "expected '"@ + want.text() + "', got <end-of-file>"@,
    }
}

/// Builds the message of [`expected_text`].
pub fn expected(want: &Token, got: Option<&Token>) -> (message: String)
    ensures
        message@ == expected_text(
            want@,
            match got {
                Some(got) => Some(got@),
                None => None,
            },
        ),
{
    let mut message = String::from_str("expected '");
    message.append(want.text().as_str());
    match got {
        Some(got) => {
            message.append("', got '");
            message.append(got.text().as_str());
            message.append("'");
        },
        None => {
            message.append("', got <end-of-file>");
        },
    }
    message
}

/// The warning for a qualifier, storage class or sign written twice.
pub open spec fn duplicate_specifier_text(keyword: Keyword) -> Seq<char> {
    "duplicate declaration specifier '"@ + keyword.spec_text() + "'"@
}

/// Builds the message of [`duplicate_specifier_text`].
pub fn duplicate_specifier(keyword: Keyword) -> (message: String)
    ensures
        message@ == duplicate_specifier_text(keyword),
{
    let mut message = String::from_str("duplicate declaration specifier '");
    message.append(keyword.text());
    message.append("'");
    message
}

/// The error for a base type keyword written twice.
pub open spec fn duplicate_basic_type_text(keyword: Keyword) -> Seq<char> {
    "duplicate basic type '"@ + keyword.spec_text() + "' in declarator"@
}

/// Builds the message of [`duplicate_basic_type_text`].
pub fn duplicate_basic_type(keyword: Keyword) -> (message: String)
    ensures
        message@ == duplicate_basic_type_text(keyword),
{
    let mut message = String::from_str("duplicate basic type '");
    message.append(keyword.text());
    message.append("' in declarator");
    message
}

/// The error for a sign on a type that has none.
pub open spec fn invalid_modifier_text(modifier: Seq<char>, target: Seq<char>) -> Seq<char> {
    "invalid modifier '"@ + modifier + "' for '"@ + target + "'"@
}

/// Builds the message of [`invalid_modifier_text`].
pub fn invalid_modifier(modifier: &str, target: &str) -> (message: String)
    ensures
        message@ == invalid_modifier_text(modifier@, target@),
{
    let mut message = String::from_str("invalid modifier '");
    message.append(modifier);
    message.append("' for '");
    message.append(target);
    message.append("'");
    message
}

/// The error for `signed` together with `unsigned`.
pub open spec fn both_signs_text() -> Seq<char> {
    "types cannot be both signed and unsigned"@
}

/// Builds the message of [`both_signs_text`].
pub fn both_signs() -> (message: String)
    ensures
        message@ == both_signs_text(),
{
    String::from_str("types cannot be both signed and unsigned")
}

/// The error for two different storage classes.
pub open spec fn multiple_storage_classes_text(first: StorageClass, second: StorageClass) -> Seq<
    char,
> {
    "multiple storage classes in declaration ('"@ + first.spec_text() + "' and '"@
        + second.spec_text() + "')"@
}

/// Builds the message of [`multiple_storage_classes_text`].
pub fn multiple_storage_classes(first: StorageClass, second: StorageClass) -> (message: String)
    ensures
        message@ == multiple_storage_classes_text(first, second),
{
    let mut message = String::from_str("multiple storage classes in declaration ('");
    message.append(first.text());
    message.append("' and '");
    message.append(second.text());
    message.append("')");
    message
}

/// The error for two base types that do not go together.
pub open spec fn cannot_combine_text(added: Seq<char>, present: Seq<char>) -> Seq<char> {
    "cannot combine '"@ + added + "' with '"@ + present + "'"@
}

/// Builds the message of [`cannot_combine_text`].
pub fn cannot_combine(added: &str, present: &str) -> (message: String)
    ensures
        message@ == cannot_combine_text(added@, present@),
{
    let mut message = String::from_str("cannot combine '");
    message.append(added);
    message.append("' with '");
    message.append(present);
    message.append("'");
    message
}

/// The error for `char`, `short` or `long` after a type they cannot refine.
pub open spec fn cannot_combine_modifier_text(keyword: Keyword, present: BaseType) -> Seq<char> {
    "cannot combine '"@ + keyword.spec_text() + "' modifier with type '"@ + present.spec_text()
        + "'"@
}

/// Builds the message of [`cannot_combine_modifier_text`].
pub fn cannot_combine_modifier(keyword: Keyword, present: BaseType) -> (message: String)
    ensures
        message@ == cannot_combine_modifier_text(keyword, present),
{
    let mut message = String::from_str("cannot combine '");
    message.append(keyword.text());
    message.append("' modifier with type '");
    message.append(present.text());
    message.append("'");
    message
}

/// The warning for specifiers that name neither a type nor a sign.
pub open spec fn missing_type_specifier_text() -> Seq<char> {
    "type specifier missing, defaults to int"@
}

/// Builds the message of [`missing_type_specifier_text`].
pub fn missing_type_specifier() -> (message: String)
    ensures
        message@ == missing_type_specifier_text(),
{
    String::from_str("type specifier missing, defaults to int")
}

/// The error for a token that cannot start a declarator.
pub open spec fn expected_declarator_text(got: SpecToken) -> Seq<char> {
    "expected '(', '*', or identifier, got '"@ + got.text() + "'"@
}

/// Builds the message of [`expected_declarator_text`].
pub fn expected_declarator(got: &Token) -> (message: String)
    ensures
        message@ == expected_declarator_text(got@),
{
    let mut message = String::from_str("expected '(', '*', or identifier, got '");
    message.append(got.text().as_str());
    message.append("'");
    message
}

/// The error for a declarator cut off by the end of input.
pub open spec fn expected_type_text() -> Seq<char> {
    "expected type, got <end-of-file>"@
}

/// Builds the message of [`expected_type_text`].
pub fn expected_type() -> (message: String)
    ensures
        message@ == expected_type_text(),
{
    String::from_str("expected type, got <end-of-file>")
}

/// The error for a parameter list that starts with an ellipsis.
pub open spec fn parameter_before_ellipsis_text() -> Seq<char> {
    "a parameter is required before '...'"@
}

/// Builds the message of [`parameter_before_ellipsis_text`].
pub fn parameter_before_ellipsis() -> (message: String)
    ensures
        message@ == parameter_before_ellipsis_text(),
{
    String::from_str("a parameter is required before '...'")
}

/// The error for a parameter that does not start with a specifier.
pub open spec fn parameters_require_types_text() -> Seq<char> {
    "function parameters require types"@
}

/// Builds the message of [`parameters_require_types_text`].
pub fn parameters_require_types() -> (message: String)
    ensures
        message@ == parameters_require_types_text(),
{
    String::from_str("function parameters require types")
}

/// How a parameter is called in a message: by its name, if it has one.
pub open spec fn parameter_name_text(name: Option<Seq<char>>) -> Seq<char> {
    match name {
        Some(name) => "parameter "@ + name,
        None => "unnamed parameter"@,
    }
}

/// The error for a parameter with a storage class of its own.
pub open spec fn parameter_storage_class_text(class: StorageClass, name: Option<Seq<char>>) -> Seq<
    char,
> {
    "cannot specify storage class '"@ + class.spec_text() + "' for "@ + parameter_name_text(name)
}

/// Builds the message of [`parameter_storage_class_text`].
pub fn parameter_storage_class(class: StorageClass, name: &Option<String>) -> (message: String)
    ensures
        message@ == parameter_storage_class_text(
            class,
            match name {
                Some(name) => Some(name@),
                None => None,
            },
        ),
{
    let mut message = String::from_str("cannot specify storage class '");
    message.append(class.text());
    message.append("' for ");
    let mut called = String::new();
    match name {
        Some(name) => {
            called.append("parameter ");
            called.append(name.as_str());
        },
        None => {
            called.append("unnamed parameter");
        },
    }
    assert(called@ == parameter_name_text(
        match name {
            Some(name) => Some(name@),
            None => None,
        },
    ));
    message.append(called.as_str());
    message
}

/// The warning for specifiers followed by no declarator.
pub open spec fn declares_nothing_text() -> Seq<char> {
    "declaration does not declare anything"@
}

/// Builds the message of [`declares_nothing_text`].
pub fn declares_nothing() -> (message: String)
    ensures
        message@ == declares_nothing_text(),
{
    String::from_str("declaration does not declare anything")
}

/// The error for a token that starts no declaration.
pub open spec fn not_handled_text() -> Seq<char> {
    "not handled"@
}

/// Builds the message of [`not_handled_text`].
pub fn not_handled() -> (message: String)
    ensures
        message@ == not_handled_text(),
{
    String::from_str("not handled")
}

/// The warning for `const` or `volatile` written twice after a `*`.
pub open spec fn duplicate_pointer_qualifier_text(keyword: Keyword) -> Seq<char> {
    "duplicate '"@ + keyword.spec_text() + "' declaration specifier"@
}

/// Builds the message of [`duplicate_pointer_qualifier_text`].
pub fn duplicate_pointer_qualifier(keyword: Keyword) -> (message: String)
    ensures
        message@ == duplicate_pointer_qualifier_text(keyword),
{
    let mut message = String::from_str("duplicate '");
    message.append(keyword.text());
    message.append("' declaration specifier");
    message
}

} // verus!
