//! What holds of the grammar: reading never puts input back, so that every
//! definition by recursion is well founded and the comparisons in the
//! definitions always hold; the warnings reported for specifiers are those of
//! their resolution, and repetitions among specifiers change nothing else; a
//! declarator composes its type around the base type; and the declarators of
//! one declaration become one statement each, in order.

use crate::consumed::{
    lemma_declaration_specifiers_tokens, lemma_declarator_place, lemma_declarator_tokens,
    lemma_match_any_tokens, lemma_placed_further, placed_at_name,
};
use crate::data::{
    Keyword, Locatable, Location, Qualifiers, SpecArrayType, SpecSymbol, SpecToken, SpecType,
    StorageClass,
};
use crate::grammar::{
    declared_outcome, lemma_parameters_continue, lemma_parameters_end,
    lemma_parameters_variadic, retyped, SpecDeclared,
};
use crate::message::{
    duplicate_pointer_qualifier_text, duplicate_specifier_text, missing_type_specifier_text,
};
use crate::resolution::{
    all_keywords, are_repetitions, lemma_order_independent, lemma_repetition_in_front,
    lemma_repetitions, lemma_warnings_placed, repetition_warnings, with_repetitions, Resolution,
};
use crate::specifiers::SpecSpecifiers;
use crate::state::{
    leading_errors, lemma_cursor_remaining, lexical_reports, Severity, SpecDeclarator,
    SpecDiagnostic, SpecLexeme, SpecOutcome, State,
};
use vstd::prelude::*;

verus! {

/// Reading specifiers puts nothing back into the input.
pub proof fn lemma_specifier_run_remaining(
    s: State,
    seen: Set<Keyword>,
    run: Seq<Locatable<Keyword>>,
)
    ensures
        s.specifier_run(seen, run).1.remaining() <= s.remaining(),
    decreases s.remaining(),
{
    lemma_cursor_remaining(s);
    let peeked = s.peek();
    match peeked.specifier() {
        Some(keyword) => {
            let consumed = peeked.consume();
            let warned = if seen.contains(keyword.data) && SpecSpecifiers::repeatable(
                keyword.data,
            ) {
                consumed.report(
                    Severity::Warning,
                    duplicate_specifier_text(keyword.data),
                    keyword.location,
                )
            } else {
                consumed
            };
            lemma_specifier_run_remaining(warned, seen.insert(keyword.data), run.push(keyword));
        },
        None => {},
    }
}

/// Reading the specifiers of a declaration puts nothing back into the input.
pub proof fn lemma_declaration_specifiers_remaining(s: State, start: Keyword)
    ensures
        s.declaration_specifiers(start).1.remaining() <= s.remaining(),
{
    reveal(State::declaration_specifiers);
    lemma_specifier_run_remaining(s, set![start], Seq::empty());
    lemma_cursor_remaining(s.specifier_run(set![start], Seq::empty()).1);
}

/// Reading the qualifiers of a pointer puts nothing back into the input.
pub proof fn lemma_pointer_qualifiers_remaining(s: State, qualifiers: Qualifiers)
    ensures
        s.pointer_qualifiers(qualifiers).1.remaining() <= s.remaining(),
    decreases s.remaining(),
{
    lemma_cursor_remaining(s);
    let (token, after) = s.match_any(
        seq![SpecToken::Keyword(Keyword::Const), SpecToken::Keyword(Keyword::Volatile)],
    );
    match token {
        Some(token) => {
            let held = if token.data == SpecToken::Keyword(Keyword::Const) {
                qualifiers.c_const
            } else {
                qualifiers.volatile
            };
            if held {
                lemma_pointer_qualifiers_remaining(
                    after.report(
                        Severity::Warning,
                        duplicate_pointer_qualifier_text(token.data->Keyword_0),
                        token.location,
                    ),
                    qualifiers,
                );
            } else if token.data == SpecToken::Keyword(Keyword::Const) {
                lemma_pointer_qualifiers_remaining(
                    after,
                    Qualifiers { c_const: true, ..qualifiers },
                );
            } else {
                lemma_pointer_qualifiers_remaining(
                    after,
                    Qualifiers { volatile: true, ..qualifiers },
                );
            }
        },
        None => {},
    }
}

/// Reading a declarator puts nothing back into the input.
#[verifier::rlimit(40)]
pub proof fn lemma_declarator_remaining(s: State, base: SpecType, allow_abstract: bool)
    ensures
        s.declarator(base, allow_abstract).1.remaining() <= s.remaining(),
    decreases s.remaining(), 1nat,
{
    lemma_cursor_remaining(s);
    let peeked = s.peek();
    match peeked.current {
        None => {},
        Some(token) => {
            let consumed = peeked.consume();
            match token.data {
                SpecToken::LeftParen => {
                    lemma_declarator_remaining(consumed, base, allow_abstract);
                    let (inner, after) = consumed.declarator(base, allow_abstract);
                    lemma_cursor_remaining(after);
                    let closed = after.expect(SpecToken::RightParen).2;
                    match inner.data {
                        Ok(declared) => {
                            lemma_postfix_type_remaining(
                                closed,
                                Locatable { data: declared, location: inner.location },
                            );
                        },
                        Err(_) => {},
                    }
                },
                SpecToken::Star => {
                    let none = Qualifiers { c_const: false, volatile: false };
                    lemma_pointer_qualifiers_remaining(consumed, none);
                    let (qualifiers, qualified) = consumed.pointer_qualifiers(none);
                    lemma_declarator_remaining(qualified, base, allow_abstract);
                    let (inner, after) = qualified.declarator(base, allow_abstract);
                    match inner.data {
                        Ok((name, ctype)) => {
                            lemma_postfix_type_remaining(
                                after,
                                Locatable {
                                    data: (name, SpecType::Pointer(Box::new(ctype), qualifiers)),
                                    location: inner.location,
                                },
                            );
                        },
                        Err(_) => {},
                    }
                },
                SpecToken::Id(name) => {
                    lemma_postfix_type_remaining(
                        consumed,
                        Locatable { data: (Some(name), base), location: token.location },
                    );
                },
                _ => {
                    if allow_abstract {
                        lemma_postfix_type_remaining(
                            peeked,
                            Locatable { data: (None, base), location: token.location },
                        );
                    }
                },
            }
        },
    }
}

/// Reading the suffixes of a declarator puts nothing back into the input.
#[verifier::rlimit(40)]
pub proof fn lemma_postfix_type_remaining(s: State, prefix: Locatable<SpecDeclarator>)
    ensures
        s.postfix_type(prefix).1.remaining() <= s.remaining(),
    decreases s.remaining(), 0nat,
{
    lemma_cursor_remaining(s);
    let peeked = s.peek();
    match peeked.current {
        Some(token) => {
            lemma_cursor_remaining(peeked);
            let consumed = peeked.consume();
            lemma_cursor_remaining(consumed);
            if token.data == SpecToken::LeftBracket {
                let (close, after) = consumed.match_next(SpecToken::RightBracket);
                lemma_cursor_remaining(after);
                if close is Some {
                    lemma_postfix_type_remaining(
                        after,
                        retyped(
                            prefix,
                            SpecType::Array(Box::new(prefix.data.1), SpecArrayType::Unbounded),
                        ),
                    );
                } else {
                    let (size, sized) = after.parse_expr();
                    lemma_cursor_remaining(sized);
                    let closed = sized.expect(SpecToken::RightBracket).2;
                    lemma_postfix_type_remaining(
                        closed,
                        retyped(
                            prefix,
                            SpecType::Array(Box::new(prefix.data.1), SpecArrayType::Fixed(size)),
                        ),
                    );
                }
            } else if token.data == SpecToken::LeftParen {
                lemma_parameter_type_list_remaining(peeked, prefix.data.1);
                let (function, after) = peeked.parameter_type_list(prefix.data.1);
                lemma_postfix_type_remaining(after, retyped(prefix, function));
            }
        },
        None => {},
    }
}

/// Reading a parameter list puts nothing back into the input, and takes the
/// opening parenthesis where there is one.
#[verifier::rlimit(40)]
pub proof fn lemma_parameter_type_list_remaining(s: State, return_type: SpecType)
    ensures
        s.parameter_type_list(return_type).1.remaining() <= s.expect(
            SpecToken::LeftParen,
        ).2.remaining(),
        s.expect(SpecToken::LeftParen).2.remaining() <= s.remaining(),
    decreases s.expect(SpecToken::LeftParen).2.remaining(), 4nat,
{
    reveal_with_fuel(State::parameters, 1);
    lemma_cursor_remaining(s);
    let opened = s.expect(SpecToken::LeftParen).2;
    lemma_cursor_remaining(opened);
    let (close, after) = opened.match_next(SpecToken::RightParen);
    if close is None {
        lemma_parameters_remaining(after, return_type, Seq::empty(), Seq::empty());
    }
}

/// Reading parameters puts nothing back into the input.
#[verifier::rlimit(40)]
pub proof fn lemma_parameters_remaining(
    s: State,
    return_type: SpecType,
    params: Seq<SpecSymbol>,
    errors: Seq<SpecOutcome>,
)
    ensures
        s.parameters(return_type, params, errors).1.remaining() <= s.remaining(),
    decreases s.remaining(), 3nat,
{
    reveal_with_fuel(State::parameters, 1);
    reveal_with_fuel(State::parameter, 1);
    lemma_cursor_remaining(s);
    let (ellipsis, after) = s.match_next(SpecToken::Ellipsis);
    if ellipsis is None {
        lemma_parameter_remaining(after, params, errors);
        let (params, errors, named) = after.parameter(params, errors);
        lemma_cursor_remaining(named);
        let (comma, continued) = named.match_next(SpecToken::Comma);
        lemma_cursor_remaining(continued);
        if comma is Some {
            lemma_parameters_remaining(continued, return_type, params, errors);
        }
    } else {
        lemma_cursor_remaining(after);
    }
}

/// Reading one parameter puts nothing back into the input.
#[verifier::rlimit(40)]
pub proof fn lemma_parameter_remaining(
    s: State,
    params: Seq<SpecSymbol>,
    errors: Seq<SpecOutcome>,
)
    ensures
        s.parameter(params, errors).2.remaining() <= s.remaining(),
    decreases s.remaining(), 2nat,
{
    let peeked = s.peek();
    let (start, typed) = match peeked.specifier() {
        Some(keyword) => (keyword.data, peeked.consume()),
        None => (Keyword::Int, peeked),
    };
    let (specifiers, resolved) = typed.declaration_specifiers(start);
    let ctype = match specifiers {
        Ok(named) => named.2,
        Err(_) => SpecType::Int(true),
    };
    assert(s.parameter(params, errors).2 == resolved.declarator(ctype, true).1) by {
        reveal_with_fuel(State::parameter, 1);
    }
    assert(typed.remaining() <= s.remaining()) by {
        lemma_cursor_remaining(s);
    }
    lemma_declaration_specifiers_remaining(typed, start);
    lemma_declarator_remaining(resolved, ctype, true);
}

/// Reading the declarators of a declaration puts nothing back into the input.
#[verifier::rlimit(40)]
pub proof fn lemma_declarators_remaining(
    s: State,
    class: StorageClass,
    qualifiers: Qualifiers,
    ctype: SpecType,
)
    ensures
        s.declarators(class, qualifiers, ctype).remaining() <= s.remaining(),
    decreases s.remaining(),
{
    reveal_with_fuel(State::declarators, 1);
    lemma_cursor_remaining(s);
    let (semicolon, after) = s.match_next(SpecToken::Semicolon);
    if semicolon is None {
        lemma_declarator_remaining(after, ctype, false);
        let (declared, named) = after.declarator(ctype, false);
        let recorded = named.push_pending(declared_outcome(declared, class, qualifiers));
        lemma_cursor_remaining(recorded);
        let (comma, continued) = recorded.match_next(SpecToken::Comma);
        lemma_cursor_remaining(continued);
        if comma is Some {
            lemma_declarators_remaining(continued, class, qualifiers, ctype);
        }
    }
}

/// A declarator in parentheses is the declarator between them, with the
/// suffixes that follow the closing parenthesis.
pub proof fn lemma_declarator_group(s: State, base: SpecType, allow_abstract: bool)
    requires
        s.peek().current matches Some(token) && token.data == SpecToken::LeftParen,
    ensures
        s.declarator(base, allow_abstract) == ({
            let (inner, after) = s.peek().consume().declarator(base, allow_abstract);
            let closed = after.expect(SpecToken::RightParen).2;
            match inner.data {
                Ok(declared) => closed.postfix_type(
                    Locatable { data: declared, location: inner.location },
                ),
                Err(_) => (inner, closed),
            }
        }),
{
    let consumed = s.peek().consume();
    lemma_cursor_remaining(s);
    lemma_declarator_remaining(consumed, base, allow_abstract);
    lemma_cursor_remaining(consumed.declarator(base, allow_abstract).1);
}

/// A declarator that begins with `*` is a pointer, with the qualifiers that
/// follow the `*`, to what the declarator after them yields; the suffixes
/// that are left then apply to the pointer.
pub proof fn lemma_declarator_pointer(s: State, base: SpecType, allow_abstract: bool)
    requires
        s.peek().current matches Some(token) && token.data == SpecToken::Star,
    ensures
        s.declarator(base, allow_abstract) == ({
            let (qualifiers, qualified) = s.peek().consume().pointer_qualifiers(
                Qualifiers { c_const: false, volatile: false },
            );
            let (inner, after) = qualified.declarator(base, allow_abstract);
            match inner.data {
                Ok((name, ctype)) => after.postfix_type(
                    Locatable {
                        data: (name, SpecType::Pointer(Box::new(ctype), qualifiers)),
                        location: inner.location,
                    },
                ),
                Err(_) => (inner, after),
            }
        }),
{
    let consumed = s.peek().consume();
    let none = Qualifiers { c_const: false, volatile: false };
    lemma_cursor_remaining(s);
    lemma_pointer_qualifiers_remaining(consumed, none);
    lemma_declarator_remaining(consumed.pointer_qualifiers(none).1, base, allow_abstract);
}

/// A parameter list after a declarator makes a function that returns the
/// declarator's type; the suffixes that follow apply to the function.
pub proof fn lemma_postfix_type_function(s: State, prefix: Locatable<SpecDeclarator>)
    requires
        s.peek().current matches Some(token) && token.data == SpecToken::LeftParen,
    ensures
        s.postfix_type(prefix) == ({
            let (function, after) = s.peek().parameter_type_list(prefix.data.1);
            after.postfix_type(retyped(prefix, function))
        }),
{
    lemma_cursor_remaining(s);
    lemma_cursor_remaining(s.peek());
    lemma_parameter_type_list_remaining(s.peek(), prefix.data.1);
}

/// The warnings among diagnostics, in order, as located messages.
pub open spec fn warnings_in(reports: Seq<SpecDiagnostic>) -> Seq<Locatable<Seq<char>>>
    decreases reports.len(),
{
    if reports.len() == 0 {
        Seq::empty()
    } else {
        let earlier = warnings_in(reports.drop_last());
        let last = reports.last();
        if last.severity == Severity::Warning {
            earlier.push(Locatable { data: last.message, location: last.location })
        } else {
            earlier
        }
    }
}

proof fn lemma_warnings_after_report(
    s: State,
    severity: Severity,
    message: Seq<char>,
    location: Location,
)
    ensures
        warnings_in(s.report(severity, message, location).reports) == if severity
            == Severity::Warning {
            warnings_in(s.reports).push(Locatable { data: message, location })
        } else {
            warnings_in(s.reports)
        },
{
    let reported = s.report(severity, message, location).reports;
    assert(reported.drop_last() =~= s.reports);
}

proof fn lemma_warnings_after_errors(reports: Seq<SpecDiagnostic>, errors: Seq<SpecLexeme>)
    ensures
        warnings_in(reports + lexical_reports(errors)) == warnings_in(reports),
    decreases errors.len(),
{
    if errors.len() == 0 {
        assert(reports + lexical_reports(errors) =~= reports);
    } else {
        let all = reports + lexical_reports(errors);
        assert(all.drop_last() =~= reports + lexical_reports(errors.drop_last()));
        lemma_warnings_after_errors(reports, errors.drop_last());
    }
}

/// Looking at the next token reports no warning.
pub proof fn lemma_warnings_after_peek(s: State)
    ensures
        warnings_in(s.peek().reports) == warnings_in(s.reports),
        warnings_in(s.next_token().1.reports) == warnings_in(s.reports),
        warnings_in(s.next_location().1.reports) == warnings_in(s.reports),
{
    lemma_warnings_after_errors(s.reports, s.input.take(leading_errors(s.input) as int));
}

/// The warnings reported while specifiers are read are those of their
/// resolution: after the keywords in `earlier`, the warnings that the
/// further keywords add to the resolution are reported, in order.
#[verifier::rlimit(40)]
pub proof fn lemma_specifier_run_warnings(
    s: State,
    start: Keyword,
    earlier: Seq<Locatable<Keyword>>,
)
    ensures
        ({
            let before = Resolution::of(start, earlier);
            let (run, scanned) = s.specifier_run(before.seen, earlier);
            let after = Resolution::of(start, run);
            &&& before.warnings.len() <= after.warnings.len()
            &&& after.warnings.take(before.warnings.len() as int) == before.warnings
            &&& warnings_in(scanned.reports) == warnings_in(s.reports) + after.warnings.skip(
                before.warnings.len() as int,
            )
        }),
    decreases s.remaining(),
{
    let before = Resolution::of(start, earlier);
    let (run, scanned) = s.specifier_run(before.seen, earlier);
    let after = Resolution::of(start, run);
    let peeked = s.peek();
    lemma_warnings_after_peek(s);
    lemma_cursor_remaining(s);
    match peeked.specifier() {
        Some(keyword) => {
            let consumed = peeked.consume();
            let warns = before.warns(keyword.data);
            let warning = Locatable {
                data: duplicate_specifier_text(keyword.data),
                location: keyword.location,
            };
            let warned = if warns {
                consumed.report(
                    Severity::Warning,
                    duplicate_specifier_text(keyword.data),
                    keyword.location,
                )
            } else {
                consumed
            };
            lemma_warnings_after_report(
                consumed,
                Severity::Warning,
                duplicate_specifier_text(keyword.data),
                keyword.location,
            );
            let longer = earlier.push(keyword);
            let between = Resolution::of(start, longer);
            assert(longer.drop_last() =~= earlier);
            assert(between == before.add(keyword));
            assert(between.seen =~= before.seen.insert(keyword.data));
            lemma_specifier_run_warnings(warned, start, longer);
            let n = before.warnings.len() as int;
            assert(between.warnings =~= if warns {
                before.warnings.push(warning)
            } else {
                before.warnings
            });
            assert(after.warnings.take(n) =~= between.warnings.take(n)) by {
                assert(after.warnings.take(between.warnings.len() as int).take(n)
                    =~= after.warnings.take(n));
            }
            assert(between.warnings.take(n) =~= before.warnings);
            if warns {
                assert(after.warnings[n] == after.warnings.take(n + 1)[n]);
                assert(after.warnings.skip(n) =~= seq![warning] + after.warnings.skip(n + 1));
                assert(warnings_in(s.reports).push(warning) + after.warnings.skip(n + 1)
                    =~= warnings_in(s.reports) + after.warnings.skip(n));
            }
        },
        None => {
            assert(after.warnings.take(before.warnings.len() as int) =~= before.warnings);
            assert(after.warnings.skip(before.warnings.len() as int) =~= Seq::empty());
            assert(warnings_in(s.reports) + Seq::empty() =~= warnings_in(s.reports));
        },
    }
}

/// The warnings reported while the specifiers of a declaration are read are
/// those of their resolution, and one more at the next token if they resolve
/// to neither a base type nor a sign.
pub proof fn lemma_declaration_specifiers_warnings(s: State, start: Keyword)
    ensures
        ({
            let (run, scanned) = s.specifier_run(set![start], Seq::empty());
            let resolution = Resolution::of(start, run);
            let reported = warnings_in(s.declaration_specifiers(start).1.reports);
            if resolution.accepted() && resolution.specifiers.ctype is None
                && resolution.specifiers.signed is None {
                reported == (warnings_in(s.reports) + resolution.warnings).push(
                    Locatable {
                        data: missing_type_specifier_text(),
                        location: scanned.next_location().0,
                    },
                )
            } else {
                reported == warnings_in(s.reports) + resolution.warnings
            }
        }),
{
    reveal(State::declaration_specifiers);
    let (run, scanned) = s.specifier_run(set![start], Seq::empty());
    let resolution = Resolution::of(start, run);
    lemma_specifier_run_warnings(s, start, Seq::empty());
    assert(resolution.warnings.skip(0) =~= resolution.warnings);
    lemma_warnings_after_peek(scanned);
    lemma_warnings_after_report(
        scanned.next_location().1,
        Severity::Warning,
        missing_type_specifier_text(),
        scanned.next_location().0,
    );
}

/// The specifiers of a declaration resolve if and only if their resolution
/// has no error, and then to what it names.
pub proof fn lemma_declaration_specifiers_resolved(s: State, start: Keyword)
    ensures
        ({
            let run = s.specifier_run(set![start], Seq::empty()).0;
            let resolution = Resolution::of(start, run);
            match s.declaration_specifiers(start).0 {
                Ok(named) => resolution.accepted() && named == resolution.specifiers.outcome(),
                Err(error) => !resolution.accepted() && error == resolution.specifiers.errors[0],
            }
        }),
{
    reveal(State::declaration_specifiers);
}

/// Order independence, as the parser shows it: where the specifiers of two
/// declarations are permutations of each other and both resolve, they
/// resolve to the same storage class, qualifiers and type.
pub proof fn lemma_declaration_specifiers_order(
    s1: State,
    start1: Keyword,
    s2: State,
    start2: Keyword,
)
    requires
        all_keywords(start1, s1.specifier_run(set![start1], Seq::empty()).0).to_multiset()
            == all_keywords(start2, s2.specifier_run(set![start2], Seq::empty()).0).to_multiset(),
        s1.declaration_specifiers(start1).0 is Ok,
        s2.declaration_specifiers(start2).0 is Ok,
    ensures
        s1.declaration_specifiers(start1).0 == s2.declaration_specifiers(start2).0,
{
    lemma_declaration_specifiers_resolved(s1, start1);
    lemma_declaration_specifiers_resolved(s2, start2);
    lemma_order_independent(
        start1,
        s1.specifier_run(set![start1], Seq::empty()).0,
        start2,
        s2.specifier_run(set![start2], Seq::empty()).0,
    );
}

/// Whether the type `ctype` is composed around the type `base`: it is `base`
/// itself, or a pointer to, an array of, or a function that returns a type
/// composed around `base`.
pub open spec fn composed_around(ctype: SpecType, base: SpecType) -> bool
    decreases ctype,
{
    ctype == base || match ctype {
        SpecType::Pointer(to, _) => composed_around(*to, base),
        SpecType::Array(of, _) => composed_around(*of, base),
        SpecType::Function(function) => composed_around(*function.return_type, base),
        _ => false,
    }
}

/// A type is composed around itself, and so is a pointer to it, an array of
/// it and a function that returns it.
pub proof fn lemma_composed_around_one(ctype: SpecType, base: SpecType)
    requires
        ctype == base || match ctype {
            SpecType::Pointer(to, _) => *to == base,
            SpecType::Array(of, _) => *of == base,
            SpecType::Function(function) => *function.return_type == base,
            _ => false,
        },
    ensures
        composed_around(ctype, base),
{
    reveal_with_fuel(composed_around, 2);
}

/// What is composed around a type is composed around what that type is
/// composed around.
pub proof fn lemma_composed_around_transitive(outer: SpecType, middle: SpecType, base: SpecType)
    requires
        composed_around(outer, middle),
        composed_around(middle, base),
    ensures
        composed_around(outer, base),
    decreases outer,
{
    if outer != middle {
        match outer {
            SpecType::Pointer(to, _) => {
                lemma_composed_around_transitive(*to, middle, base);
            },
            SpecType::Array(of, _) => {
                lemma_composed_around_transitive(*of, middle, base);
            },
            SpecType::Function(function) => {
                lemma_composed_around_transitive(*function.return_type, middle, base);
            },
            _ => {},
        }
    }
}

/// A declarator composes its type around the base type, and has a name
/// unless it may be abstract.
#[verifier::rlimit(40)]
pub proof fn lemma_declarator_shape(s: State, base: SpecType, allow_abstract: bool)
    ensures
        s.declarator(base, allow_abstract).0.data matches Ok(declared) ==> composed_around(
            declared.1,
            base,
        ) && (!allow_abstract ==> declared.0 is Some),
    decreases s.remaining(), 1nat,
{
    lemma_cursor_remaining(s);
    let peeked = s.peek();
    match peeked.current {
        None => {},
        Some(token) => {
            let consumed = peeked.consume();
            match token.data {
                SpecToken::LeftParen => {
                    lemma_declarator_remaining(consumed, base, allow_abstract);
                    lemma_declarator_shape(consumed, base, allow_abstract);
                    let (inner, after) = consumed.declarator(base, allow_abstract);
                    lemma_cursor_remaining(after);
                    let closed = after.expect(SpecToken::RightParen).2;
                    match inner.data {
                        Ok(declared) => {
                            let prefix = Locatable { data: declared, location: inner.location };
                            lemma_postfix_type_shape(closed, prefix);
                            lemma_composed_around_transitive(
                                closed.postfix_type(prefix).0.data->Ok_0.1,
                                declared.1,
                                base,
                            );
                        },
                        Err(_) => {},
                    }
                },
                SpecToken::Star => {
                    let none = Qualifiers { c_const: false, volatile: false };
                    lemma_pointer_qualifiers_remaining(consumed, none);
                    let (qualifiers, qualified) = consumed.pointer_qualifiers(none);
                    lemma_declarator_remaining(qualified, base, allow_abstract);
                    lemma_declarator_shape(qualified, base, allow_abstract);
                    let (inner, after) = qualified.declarator(base, allow_abstract);
                    match inner.data {
                        Ok((name, ctype)) => {
                            let pointer = SpecType::Pointer(Box::new(ctype), qualifiers);
                            let prefix = Locatable {
                                data: (name, pointer),
                                location: inner.location,
                            };
                            lemma_postfix_type_shape(after, prefix);
                            lemma_composed_around_one(pointer, ctype);
                            lemma_composed_around_transitive(pointer, ctype, base);
                            lemma_composed_around_transitive(
                                after.postfix_type(prefix).0.data->Ok_0.1,
                                pointer,
                                base,
                            );
                        },
                        Err(_) => {},
                    }
                },
                SpecToken::Id(name) => {
                    lemma_postfix_type_shape(
                        consumed,
                        Locatable { data: (Some(name), base), location: token.location },
                    );
                },
                _ => {
                    if allow_abstract {
                        lemma_postfix_type_shape(
                            peeked,
                            Locatable { data: (None, base), location: token.location },
                        );
                    }
                },
            }
        },
    }
}

/// The suffixes of a declarator compose their type around its type, and
/// leave its name and its place as they are; reading them never fails.
#[verifier::rlimit(40)]
pub proof fn lemma_postfix_type_shape(s: State, prefix: Locatable<SpecDeclarator>)
    ensures
        s.postfix_type(prefix).0.location == prefix.location,
        s.postfix_type(prefix).0.data matches Ok(declared) && declared.0 == prefix.data.0
            && composed_around(declared.1, prefix.data.1),
    decreases s.remaining(), 0nat,
{
    lemma_cursor_remaining(s);
    let peeked = s.peek();
    match peeked.current {
        Some(token) => {
            lemma_cursor_remaining(peeked);
            let consumed = peeked.consume();
            lemma_cursor_remaining(consumed);
            if token.data == SpecToken::LeftBracket {
                let (close, after) = consumed.match_next(SpecToken::RightBracket);
                lemma_cursor_remaining(after);
                if close is Some {
                    let array = SpecType::Array(Box::new(prefix.data.1), SpecArrayType::Unbounded);
                    lemma_postfix_type_wrapped(after, prefix, array);
                } else {
                    let (size, sized) = after.parse_expr();
                    lemma_cursor_remaining(sized);
                    let closed = sized.expect(SpecToken::RightBracket).2;
                    let array = SpecType::Array(
                        Box::new(prefix.data.1),
                        SpecArrayType::Fixed(size),
                    );
                    lemma_postfix_type_wrapped(closed, prefix, array);
                }
            } else if token.data == SpecToken::LeftParen {
                lemma_parameter_type_list_remaining(peeked, prefix.data.1);
                lemma_parameter_type_list_shape(peeked, prefix.data.1);
                let (function, after) = peeked.parameter_type_list(prefix.data.1);
                lemma_postfix_type_wrapped(after, prefix, function);
            }
        },
        None => {
            lemma_composed_around_one(prefix.data.1, prefix.data.1);
        },
    }
}

/// The suffixes that follow one suffix compose their type around the type
/// that this suffix made of the declarator's.
proof fn lemma_postfix_type_wrapped(
    s: State,
    prefix: Locatable<SpecDeclarator>,
    wrapped: SpecType,
)
    requires
        match wrapped {
            SpecType::Array(of, _) => *of == prefix.data.1,
            SpecType::Function(function) => *function.return_type == prefix.data.1,
            _ => false,
        },
    ensures
        s.postfix_type(retyped(prefix, wrapped)).0.location == prefix.location,
        s.postfix_type(retyped(prefix, wrapped)).0.data matches Ok(declared) && declared.0
            == prefix.data.0 && composed_around(declared.1, prefix.data.1),
    decreases s.remaining(), 1nat,
{
    lemma_postfix_type_shape(s, retyped(prefix, wrapped));
    lemma_composed_around_one(wrapped, prefix.data.1);
    lemma_composed_around_transitive(
        s.postfix_type(retyped(prefix, wrapped)).0.data->Ok_0.1,
        wrapped,
        prefix.data.1,
    );
}

/// A parameter list always yields a function that returns the given type.
#[verifier::rlimit(40)]
pub proof fn lemma_parameter_type_list_shape(s: State, return_type: SpecType)
    ensures
        s.parameter_type_list(return_type).0 matches SpecType::Function(function)
            && *function.return_type == return_type,
    decreases s.expect(SpecToken::LeftParen).2.remaining(), 4nat,
{
    reveal_with_fuel(State::parameters, 1);
    lemma_cursor_remaining(s);
    let opened = s.expect(SpecToken::LeftParen).2;
    lemma_cursor_remaining(opened);
    let (close, after) = opened.match_next(SpecToken::RightParen);
    if close is None {
        lemma_parameters_shape(after, return_type, Seq::empty(), Seq::empty());
    }
}

/// Reading a parameter leaves the parameters read before as they are, and
/// adds at most one.
pub proof fn lemma_parameter_added(s: State, params: Seq<SpecSymbol>, errors: Seq<SpecOutcome>)
    ensures
        params.len() <= s.parameter(params, errors).0.len() <= params.len() + 1,
        s.parameter(params, errors).0.take(params.len() as int) == params,
{
    reveal_with_fuel(State::parameter, 1);
    let more = s.parameter(params, errors).0;
    assert(more == params || more == params.push(more.last()));
    assert(more.take(params.len() as int) =~= params);
}

/// The parameters of a list always end in a function that returns the given
/// type and has at least the parameters read before.
#[verifier::rlimit(40)]
pub proof fn lemma_parameters_shape(
    s: State,
    return_type: SpecType,
    params: Seq<SpecSymbol>,
    errors: Seq<SpecOutcome>,
)
    ensures
        s.parameters(return_type, params, errors).0 matches SpecType::Function(function)
            && *function.return_type == return_type && params.len() <= function.params.len()
            && function.params.take(params.len() as int) == params,
    decreases s.remaining(), 3nat,
{
    let (ellipsis, after) = s.match_next(SpecToken::Ellipsis);
    if ellipsis is None {
        lemma_parameter_added(after, params, errors);
        let (more, found, named) = after.parameter(params, errors);
        let (comma, continued) = named.match_next(SpecToken::Comma);
        if comma is Some {
            assert(continued.remaining() < s.remaining()) by {
                lemma_cursor_remaining(s);
                lemma_parameter_remaining(after, params, errors);
                lemma_cursor_remaining(named);
            }
            lemma_parameters_continue(s, return_type, params, errors);
            lemma_parameters_shape(continued, return_type, more, found);
            let function = continued.parameters(return_type, more, found).0->Function_0;
            assert(function.params.take(params.len() as int) =~= function.params.take(
                more.len() as int,
            ).take(params.len() as int));
        } else {
            lemma_parameters_end(s, return_type, params, errors);
        }
    } else {
        lemma_parameters_variadic(s, return_type, params, errors);
        assert(params.take(params.len() as int) =~= params);
    }
}

/// Reading specifiers leaves the queue as it is.
pub proof fn lemma_specifier_run_pending(
    s: State,
    seen: Set<Keyword>,
    run: Seq<Locatable<Keyword>>,
)
    ensures
        s.specifier_run(seen, run).1.pending == s.pending,
    decreases s.remaining(),
{
    lemma_cursor_remaining(s);
    let peeked = s.peek();
    match peeked.specifier() {
        Some(keyword) => {
            let consumed = peeked.consume();
            let warned = if seen.contains(keyword.data) && SpecSpecifiers::repeatable(
                keyword.data,
            ) {
                consumed.report(
                    Severity::Warning,
                    duplicate_specifier_text(keyword.data),
                    keyword.location,
                )
            } else {
                consumed
            };
            lemma_specifier_run_pending(warned, seen.insert(keyword.data), run.push(keyword));
        },
        None => {},
    }
}

/// Specifiers that resolve leave the queue as it is: no error is queued.
pub proof fn lemma_declaration_specifiers_pending(s: State, start: Keyword)
    requires
        s.declaration_specifiers(start).0 is Ok,
    ensures
        s.declaration_specifiers(start).1.pending == s.pending,
{
    reveal(State::declaration_specifiers);
    lemma_specifier_run_pending(s, set![start], Seq::empty());
}

/// Idempotence, as the parser shows it. Take specifiers that resolve, and
/// the same specifiers with some of their qualifiers, storage classes and
/// signs written once more, wherever after the first keyword. These resolve
/// to the same; no error is returned or queued; and exactly one warning more
/// is reported for each repetition. The warnings reported for repetitions
/// are those of [`repetition_warnings`]: each names the repeated keyword at
/// its place.
pub proof fn lemma_declaration_specifiers_repeated(
    s1: State,
    s2: State,
    start: Keyword,
    extra: Seq<(int, Locatable<Keyword>)>,
)
    requires
        s1.declaration_specifiers(start).0 is Ok,
        are_repetitions(start, s1.specifier_run(set![start], Seq::empty()).0, extra),
        s2.specifier_run(set![start], Seq::empty()).0 == with_repetitions(
            s1.specifier_run(set![start], Seq::empty()).0,
            extra,
        ),
    ensures
        s2.declaration_specifiers(start).0 == s1.declaration_specifiers(start).0,
        s2.declaration_specifiers(start).1.pending == s2.pending,
        warnings_in(s2.declaration_specifiers(start).1.reports).len() - warnings_in(
            s2.reports,
        ).len() == warnings_in(s1.declaration_specifiers(start).1.reports).len() - warnings_in(
            s1.reports,
        ).len() + extra.len(),
        ({
            let (run, scanned) = s2.specifier_run(set![start], Seq::empty());
            let reported = warnings_in(s2.declaration_specifiers(start).1.reports);
            let repeated = warnings_in(s2.reports) + repetition_warnings(start, run);
            ||| reported == repeated
            ||| reported == repeated.push(
                Locatable {
                    data: missing_type_specifier_text(),
                    location: scanned.next_location().0,
                },
            )
        }),
{
    let run1 = s1.specifier_run(set![start], Seq::empty()).0;
    let run2 = s2.specifier_run(set![start], Seq::empty()).0;
    lemma_declaration_specifiers_resolved(s1, start);
    lemma_declaration_specifiers_resolved(s2, start);
    lemma_repetitions(start, run1, extra);
    lemma_declaration_specifiers_pending(s2, start);
    lemma_declaration_specifiers_warnings(s1, start);
    lemma_declaration_specifiers_warnings(s2, start);
    lemma_warnings_placed(start, run2);
}

/// Idempotence in front, as the parser shows it. Take specifiers that
/// resolve, and the same specifiers after one of their qualifiers, storage
/// classes or signs written once more before them. These resolve to the
/// same; no error is returned or queued; and exactly one warning more is
/// reported.
pub proof fn lemma_declaration_specifiers_repeated_in_front(
    s1: State,
    start: Locatable<Keyword>,
    s2: State,
    again: Locatable<Keyword>,
)
    requires
        s1.declaration_specifiers(start.data).0 is Ok,
        SpecSpecifiers::repeatable(again.data),
        all_keywords(start.data, s1.specifier_run(set![start.data], Seq::empty()).0).contains(
            again.data,
        ),
        s2.specifier_run(set![again.data], Seq::empty()).0 == seq![start] + s1.specifier_run(
            set![start.data],
            Seq::empty(),
        ).0,
    ensures
        s2.declaration_specifiers(again.data).0 == s1.declaration_specifiers(start.data).0,
        s2.declaration_specifiers(again.data).1.pending == s2.pending,
        warnings_in(s2.declaration_specifiers(again.data).1.reports).len() - warnings_in(
            s2.reports,
        ).len() == warnings_in(s1.declaration_specifiers(start.data).1.reports).len()
            - warnings_in(s1.reports).len() + 1,
{
    let run1 = s1.specifier_run(set![start.data], Seq::empty()).0;
    lemma_declaration_specifiers_resolved(s1, start.data);
    lemma_declaration_specifiers_resolved(s2, again.data);
    lemma_repetition_in_front(start, run1, again);
    lemma_declaration_specifiers_pending(s2, again.data);
    lemma_declaration_specifiers_warnings(s1, start.data);
    lemma_declaration_specifiers_warnings(s2, again.data);
}

impl State {
    /// The declarators of one declaration as they are read one after
    /// another, in order, each with its name, its type and its place.
    pub open spec fn declarator_list(
        self,
        class: StorageClass,
        qualifiers: Qualifiers,
        ctype: SpecType,
    ) -> Seq<SpecDeclared>
        decreases self.remaining(),
    {
        let (semicolon, after) = self.match_next(SpecToken::Semicolon);
        if semicolon is Some {
            Seq::empty()
        } else {
            let (declared, named) = after.declarator(ctype, false);
            let recorded = named.push_pending(declared_outcome(declared, class, qualifiers));
            let (comma, continued) = recorded.match_next(SpecToken::Comma);
            if comma is Some {
                proof {
                    lemma_cursor_remaining(self);
                    lemma_declarator_remaining(after, ctype, false);
                    lemma_cursor_remaining(recorded);
                }
                seq![declared] + continued.declarator_list(class, qualifiers, ctype)
            } else {
                seq![declared]
            }
        }
    }

    /// Whether the declarators of one declaration are well formed: each is
    /// read without error and without a word to the queue, commas stand
    /// between them and a semicolon ends them.
    pub open spec fn declarators_well_formed(
        self,
        class: StorageClass,
        qualifiers: Qualifiers,
        ctype: SpecType,
    ) -> bool
        decreases self.remaining(),
    {
        let (semicolon, after) = self.match_next(SpecToken::Semicolon);
        semicolon is Some || {
            let (declared, named) = after.declarator(ctype, false);
            let recorded = named.push_pending(declared_outcome(declared, class, qualifiers));
            let (comma, continued) = recorded.match_next(SpecToken::Comma);
            &&& declared.data is Ok
            &&& named.pending == after.pending
            &&& if comma is Some {
                proof {
                    lemma_cursor_remaining(self);
                    lemma_declarator_remaining(after, ctype, false);
                    lemma_cursor_remaining(recorded);
                }
                continued.declarators_well_formed(class, qualifiers, ctype)
            } else {
                continued.expect(SpecToken::Semicolon).0
            }
        }
    }
}

/// Whether a declarator was read, has a name, and has a type composed
/// around the type `base`.
pub open spec fn named_around(declared: SpecDeclared, base: SpecType) -> bool {
    declared.data matches Ok(read) && read.0 is Some && composed_around(read.1, base)
}

/// The outcomes that declarators are recorded as, in order.
pub open spec fn declared_outcomes(
    declared: Seq<SpecDeclared>,
    class: StorageClass,
    qualifiers: Qualifiers,
) -> Seq<SpecOutcome> {
    declared.map_values(|one: SpecDeclared| declared_outcome(one, class, qualifiers))
}

/// Several declarators in one declaration: where the declarators are well
/// formed, the queue receives exactly one statement for each, in the order
/// in which they are written; each declares the declarator's name with a
/// type composed around the type of the specifiers, at the place of the
/// name among the tokens.
#[verifier::rlimit(40)]
pub proof fn lemma_declarators_recorded(
    s: State,
    class: StorageClass,
    qualifiers: Qualifiers,
    ctype: SpecType,
)
    requires
        s.declarators_well_formed(class, qualifiers, ctype),
    ensures
        s.declarators(class, qualifiers, ctype).pending == s.pending + declared_outcomes(
            s.declarator_list(class, qualifiers, ctype),
            class,
            qualifiers,
        ),
        forall|i: int|
            0 <= i < s.declarator_list(class, qualifiers, ctype).len() ==> named_around(
                #[trigger] s.declarator_list(class, qualifiers, ctype)[i],
                ctype,
            ) && placed_at_name(s.declarator_list(class, qualifiers, ctype)[i], s.tokens()),
    decreases s.remaining(),
{
    reveal_with_fuel(State::declarators, 1);
    lemma_cursor_remaining(s);
    let list = s.declarator_list(class, qualifiers, ctype);
    let (semicolon, after) = s.match_next(SpecToken::Semicolon);
    if semicolon is Some {
        assert(s.pending + declared_outcomes(list, class, qualifiers) =~= s.pending);
    } else {
        let (declared, named) = after.declarator(ctype, false);
        lemma_declarator_remaining(after, ctype, false);
        lemma_declarator_shape(after, ctype, false);
        lemma_declarator_place(after, ctype, false);
        let tokens = s.tokens();
        let a = lemma_match_any_tokens(s, seq![SpecToken::Semicolon]);
        let b = lemma_declarator_tokens(after, ctype, false);
        assert(tokens.skip(0) =~= tokens);
        assert(tokens.skip(0).skip(b) =~= tokens.skip(b));
        let outcome = declared_outcome(declared, class, qualifiers);
        let recorded = named.push_pending(outcome);
        lemma_cursor_remaining(recorded);
        let (comma, continued) = recorded.match_next(SpecToken::Comma);
        assert(continued.pending == s.pending.push(outcome));
        if comma is Some {
            let rest = continued.declarator_list(class, qualifiers, ctype);
            lemma_declarators_recorded(continued, class, qualifiers, ctype);
            assert(list == seq![declared] + rest);
            assert(s.pending.push(outcome) + declared_outcomes(rest, class, qualifiers)
                =~= s.pending + declared_outcomes(list, class, qualifiers));
            let c = lemma_match_any_tokens(recorded, seq![SpecToken::Comma]);
            assert(continued.tokens() =~= tokens.skip(b + 1));
            assert forall|i: int| 0 <= i < list.len() implies named_around(
                #[trigger] list[i],
                ctype,
            ) && placed_at_name(list[i], tokens) by {
                if i > 0 {
                    assert(list[i] == rest[i - 1]);
                    lemma_placed_further(rest[i - 1], tokens, b + 1);
                }
            }
        } else {
            assert(list == seq![declared]);
            assert(s.pending.push(outcome) =~= s.pending + declared_outcomes(
                list,
                class,
                qualifiers,
            ));
        }
    }
}

/// Several declarators in one declaration, as the parser hands them out:
/// where the queue is empty, the specifiers resolve and the declarators are
/// well formed and at least one, the outcome handed out and the outcomes
/// left in the queue are exactly one statement for each declarator, in the
/// order in which they are written, with the storage class and qualifiers
/// of the specifiers, a type composed around their type, and the place of
/// the declarator's name.
pub proof fn lemma_declaration_outcomes(s: State, start: Keyword)
    requires
        s.pending.len() == 0,
        s.declaration_specifiers(start).0 is Ok,
        ({
            let (specifiers, resolved) = s.declaration_specifiers(start);
            let (class, qualifiers, ctype) = specifiers->Ok_0;
            resolved.declarators_well_formed(class, qualifiers, ctype) && resolved.declarator_list(
                class,
                qualifiers,
                ctype,
            ).len() > 0
        }),
    ensures
        ({
            let (specifiers, resolved) = s.declaration_specifiers(start);
            let (class, qualifiers, ctype) = specifiers->Ok_0;
            let (first, after) = s.declaration(start);
            let list = resolved.declarator_list(class, qualifiers, ctype);
            &&& first is Some
            &&& seq![first->0] + after.pending == declared_outcomes(list, class, qualifiers)
            &&& forall|i: int|
                0 <= i < list.len() ==> named_around(#[trigger] list[i], ctype) && placed_at_name(
                    list[i],
                    s.tokens(),
                )
        }),
{
    let (specifiers, resolved) = s.declaration_specifiers(start);
    let (class, qualifiers, ctype) = specifiers->Ok_0;
    lemma_declaration_specifiers_pending(s, start);
    lemma_declarators_recorded(resolved, class, qualifiers, ctype);
    let declared = resolved.declarators(class, qualifiers, ctype);
    let outcomes = declared_outcomes(
        resolved.declarator_list(class, qualifiers, ctype),
        class,
        qualifiers,
    );
    assert(declared.pending =~= outcomes);
    assert(seq![declared.pending[0]] + declared.pending.skip(1) =~= declared.pending);
    let list = resolved.declarator_list(class, qualifiers, ctype);
    let taken = lemma_declaration_specifiers_tokens(s, start);
    assert forall|i: int| 0 <= i < list.len() implies named_around(#[trigger] list[i], ctype)
        && placed_at_name(list[i], s.tokens()) by {
        lemma_placed_further(list[i], s.tokens(), taken);
    }
}

} // verus!
