//! What reading consumes: every function of the grammar takes its tokens
//! from the front of those that are still to come, in order, and nothing
//! else; the specifiers take exactly the specifier keywords that stand next;
//! and a declarator that has a name stands at the place of its name.

use crate::data::{
    Keyword, Locatable, Qualifiers, SpecArrayType, SpecSymbol, SpecToken, SpecType,
};
use crate::grammar::{
    lemma_parameter_list_empty, lemma_parameter_list_filled, lemma_parameters_continue,
    lemma_parameters_end, lemma_parameters_variadic, retyped, specifier_of, SpecDeclared,
};
use crate::laws::{
    lemma_declaration_specifiers_remaining, lemma_declarator_remaining,
    lemma_parameter_remaining, lemma_parameter_type_list_remaining,
    lemma_pointer_qualifiers_remaining, lemma_postfix_type_shape,
};
use crate::message::{duplicate_pointer_qualifier_text, duplicate_specifier_text};
use crate::specifiers::SpecSpecifiers;
use crate::state::{
    lemma_cursor_remaining, lemma_cursor_tokens, Severity, SpecDeclarator, SpecOutcome, State,
};
use vstd::prelude::*;

verus! {

/// The tokens that a run of keywords is read from.
pub open spec fn keyword_tokens(run: Seq<Locatable<Keyword>>) -> Seq<Locatable<SpecToken>> {
    run.map_values(
        |keyword: Locatable<Keyword>|
            Locatable { data: SpecToken::Keyword(keyword.data), location: keyword.location },
    )
}

/// The first of some tokens, if there is one.
pub open spec fn first_of(tokens: Seq<Locatable<SpecToken>>) -> Option<Locatable<SpecToken>> {
    if tokens.len() > 0 {
        Some(tokens[0])
    } else {
        None
    }
}

/// Reading specifiers consumes exactly the specifier keywords that stand
/// next: the run is what `earlier` held and then, token by token, the
/// keywords consumed, each at its place; and the token that follows, if
/// there is one, is no specifier keyword.
#[verifier::rlimit(40)]
pub proof fn lemma_specifier_run_exact(
    s: State,
    seen: Set<Keyword>,
    earlier: Seq<Locatable<Keyword>>,
)
    ensures
        ({
            let (run, scanned) = s.specifier_run(seen, earlier);
            &&& earlier.len() <= run.len()
            &&& run.take(earlier.len() as int) == earlier
            &&& s.tokens() == keyword_tokens(run.skip(earlier.len() as int)) + scanned.tokens()
            &&& specifier_of(first_of(scanned.tokens())) is None
        }),
    decreases s.remaining(),
{
    let (run, scanned) = s.specifier_run(seen, earlier);
    let n = earlier.len() as int;
    let peeked = s.peek();
    lemma_cursor_remaining(s);
    lemma_cursor_tokens(s);
    match peeked.specifier() {
        Some(keyword) => {
            let consumed = peeked.consume();
            let warned = if seen.contains(keyword.data) && SpecSpecifiers::repeatable(
                keyword.data,
            ) {
                consumed.report(
                    Severity::Warning,
                    duplicate_specifier_text(keyword.data),
                    keyword.location,
                )
            } else {
                consumed
            };
            let longer = earlier.push(keyword);
            lemma_specifier_run_exact(warned, seen.insert(keyword.data), longer);
            assert(run.take(n) =~= run.take(n + 1).take(n));
            assert(longer.take(n) =~= earlier);
            assert(run[n] == run.take(n + 1)[n]);
            assert(run[n] == keyword);
            assert(keyword_tokens(run.skip(n)) =~= seq![s.tokens()[0]] + keyword_tokens(
                run.skip(n + 1),
            ));
            assert(s.tokens() =~= seq![s.tokens()[0]] + s.tokens().skip(1));
        },
        None => {
            assert(run.take(n) =~= earlier);
            assert(keyword_tokens(run.skip(n)) + scanned.tokens() =~= scanned.tokens());
        },
    }
}

/// Reading the specifiers of a declaration consumes exactly the specifier
/// keywords that stand next, and nothing else.
pub proof fn lemma_declaration_specifiers_exact(s: State, start: Keyword)
    ensures
        ({
            let run = s.specifier_run(set![start], Seq::empty()).0;
            let after = s.declaration_specifiers(start).1;
            &&& s.tokens() == keyword_tokens(run) + after.tokens()
            &&& specifier_of(first_of(after.tokens())) is None
        }),
{
    reveal(State::declaration_specifiers);
    let (run, scanned) = s.specifier_run(set![start], Seq::empty());
    lemma_specifier_run_exact(s, set![start], Seq::empty());
    lemma_cursor_tokens(scanned);
    assert(run.skip(0) =~= run);
}

/// Reading the qualifiers of a pointer consumes tokens from the front of
/// those that are still to come; the lemma returns their number.
pub proof fn lemma_pointer_qualifiers_tokens(s: State, qualifiers: Qualifiers) -> (consumed: int)
    ensures
        0 <= consumed <= s.tokens().len(),
        s.pointer_qualifiers(qualifiers).1.tokens() == s.tokens().skip(consumed),
    decreases s.remaining(),
{
    lemma_cursor_remaining(s);
    lemma_cursor_tokens(s);
    let (token, after) = s.match_any(
        seq![SpecToken::Keyword(Keyword::Const), SpecToken::Keyword(Keyword::Volatile)],
    );
    match token {
        Some(token) => {
            let held = if token.data == SpecToken::Keyword(Keyword::Const) {
                qualifiers.c_const
            } else {
                qualifiers.volatile
            };
            let (next, more) = if held {
                (
                    after.report(
                        Severity::Warning,
                        duplicate_pointer_qualifier_text(token.data->Keyword_0),
                        token.location,
                    ),
                    qualifiers,
                )
            } else if token.data == SpecToken::Keyword(Keyword::Const) {
                (after, Qualifiers { c_const: true, ..qualifiers })
            } else {
                (after, Qualifiers { volatile: true, ..qualifiers })
            };
            let further = lemma_pointer_qualifiers_tokens(next, more);
            assert(s.tokens().skip(1).skip(further) =~= s.tokens().skip(1 + further));
            1 + further
        },
        None => {
            assert(s.tokens().skip(0) =~= s.tokens());
            0
        },
    }
}

/// Whether a declarator that has a name stands at the place of a token
/// among `tokens` that is this name.
pub open spec fn placed_at_name(declared: SpecDeclared, tokens: Seq<Locatable<SpecToken>>) -> bool {
    match declared.data {
        Ok((Some(name), _)) => tokens.contains(
            Locatable { data: SpecToken::Id(name), location: declared.location },
        ),
        _ => true,
    }
}

/// What stands at the place of its name among later tokens stands there
/// among all of them.
pub proof fn lemma_placed_further(
    declared: SpecDeclared,
    tokens: Seq<Locatable<SpecToken>>,
    from: int,
)
    requires
        0 <= from <= tokens.len(),
        placed_at_name(declared, tokens.skip(from)),
    ensures
        placed_at_name(declared, tokens),
{
    match declared.data {
        Ok((Some(name), _)) => {
            let named = Locatable { data: SpecToken::Id(name), location: declared.location };
            let later = tokens.skip(from);
            let i = choose|i: int| 0 <= i < later.len() && later[i] == named;
            assert(tokens[i + from] == named);
        },
        _ => {},
    }
}

/// A declarator that has a name stands at the place of its name: the
/// identifier with this name at this place is among the tokens that were
/// still to come.
#[verifier::rlimit(40)]
pub proof fn lemma_declarator_place(s: State, base: SpecType, allow_abstract: bool)
    ensures
        placed_at_name(s.declarator(base, allow_abstract).0, s.tokens()),
    decreases s.remaining(),
{
    lemma_cursor_remaining(s);
    lemma_cursor_tokens(s);
    let peeked = s.peek();
    match peeked.current {
        None => {},
        Some(token) => {
            let consumed = peeked.consume();
            assert(token == s.tokens()[0]);
            match token.data {
                SpecToken::LeftParen => {
                    lemma_declarator_remaining(consumed, base, allow_abstract);
                    lemma_declarator_place(consumed, base, allow_abstract);
                    let (inner, after) = consumed.declarator(base, allow_abstract);
                    lemma_cursor_remaining(after);
                    let closed = after.expect(SpecToken::RightParen).2;
                    match inner.data {
                        Ok(declared) => {
                            lemma_postfix_type_shape(
                                closed,
                                Locatable { data: declared, location: inner.location },
                            );
                        },
                        Err(_) => {},
                    }
                    lemma_placed_further(inner, s.tokens(), 1);
                },
                SpecToken::Star => {
                    let none = Qualifiers { c_const: false, volatile: false };
                    lemma_pointer_qualifiers_remaining(consumed, none);
                    let (qualifiers, qualified) = consumed.pointer_qualifiers(none);
                    let skipped = lemma_pointer_qualifiers_tokens(consumed, none);
                    lemma_declarator_remaining(qualified, base, allow_abstract);
                    lemma_declarator_place(qualified, base, allow_abstract);
                    let (inner, after) = qualified.declarator(base, allow_abstract);
                    match inner.data {
                        Ok((name, ctype)) => {
                            lemma_postfix_type_shape(
                                after,
                                Locatable {
                                    data: (name, SpecType::Pointer(Box::new(ctype), qualifiers)),
                                    location: inner.location,
                                },
                            );
                        },
                        Err(_) => {},
                    }
                    assert(s.tokens().skip(1).skip(skipped) =~= s.tokens().skip(1 + skipped));
                    lemma_placed_further(inner, s.tokens(), 1 + skipped);
                },
                SpecToken::Id(name) => {
                    lemma_postfix_type_shape(
                        consumed,
                        Locatable { data: (Some(name), base), location: token.location },
                    );
                },
                _ => {
                    if allow_abstract {
                        lemma_postfix_type_shape(
                            peeked,
                            Locatable { data: (None, base), location: token.location },
                        );
                    }
                },
            }
        },
    }
}

proof fn lemma_skip_twice<T>(tokens: Seq<T>, first: int, then: int)
    requires
        0 <= first <= tokens.len(),
        0 <= then <= tokens.len() - first,
    ensures
        tokens.skip(first).skip(then) == tokens.skip(first + then),
        tokens.skip(first).len() == tokens.len() - first,
{
    assert(tokens.skip(first).skip(then) =~= tokens.skip(first + then));
}

/// Looking for one of some tokens consumes one token or none.
pub proof fn lemma_match_any_tokens(s: State, choices: Seq<SpecToken>) -> (consumed: int)
    ensures
        0 <= consumed <= s.tokens().len(),
        consumed == if s.match_any(choices).0 is Some {
            1int
        } else {
            0int
        },
        s.match_any(choices).1.tokens() == s.tokens().skip(consumed),
{
    lemma_cursor_tokens(s);
    assert(s.tokens().skip(0) =~= s.tokens());
    if s.match_any(choices).0 is Some {
        1
    } else {
        0
    }
}

/// Expecting a token consumes it or nothing.
pub proof fn lemma_expect_tokens(s: State, next: SpecToken) -> (consumed: int)
    ensures
        0 <= consumed <= s.tokens().len(),
        consumed == if s.expect(next).0 {
            1int
        } else {
            0int
        },
        s.expect(next).2.tokens() == s.tokens().skip(consumed),
{
    lemma_cursor_tokens(s);
    assert(s.tokens().skip(0) =~= s.tokens());
    if s.expect(next).0 {
        1
    } else {
        0
    }
}

/// Consuming the next token takes one token, or none at the end of input.
pub proof fn lemma_next_token_tokens(s: State) -> (consumed: int)
    ensures
        0 <= consumed <= s.tokens().len(),
        s.next_token().1.tokens() == s.tokens().skip(consumed),
        s.parse_expr().1.tokens() == s.tokens().skip(consumed),
{
    lemma_cursor_tokens(s);
    assert(s.tokens().skip(0) =~= s.tokens());
    if s.tokens().len() > 0 {
        1
    } else {
        0
    }
}

/// Reading the specifiers of a declaration consumes tokens from the front
/// of those that are still to come; the lemma returns their number.
pub proof fn lemma_declaration_specifiers_tokens(s: State, start: Keyword) -> (consumed: int)
    ensures
        0 <= consumed <= s.tokens().len(),
        s.declaration_specifiers(start).1.tokens() == s.tokens().skip(consumed),
{
    lemma_declaration_specifiers_exact(s, start);
    let run = s.specifier_run(set![start], Seq::empty()).0;
    let after = s.declaration_specifiers(start).1;
    assert(after.tokens() =~= s.tokens().skip(run.len() as int));
    run.len() as int
}

/// Reading a declarator consumes tokens from the front of those that are
/// still to come; the lemma returns their number.
#[verifier::rlimit(40)]
pub proof fn lemma_declarator_tokens(s: State, base: SpecType, allow_abstract: bool) -> (consumed:
    int)
    ensures
        0 <= consumed <= s.tokens().len(),
        s.declarator(base, allow_abstract).1.tokens() == s.tokens().skip(consumed),
    decreases s.remaining(), 1nat,
{
    lemma_cursor_remaining(s);
    lemma_cursor_tokens(s);
    let tokens = s.tokens();
    let peeked = s.peek();
    assert(tokens.skip(0) =~= tokens);
    match peeked.current {
        None => 0,
        Some(token) => {
            let taken = peeked.consume();
            match token.data {
                SpecToken::LeftParen => {
                    lemma_declarator_remaining(taken, base, allow_abstract);
                    let a = lemma_declarator_tokens(taken, base, allow_abstract);
                    let (inner, after) = taken.declarator(base, allow_abstract);
                    lemma_skip_twice(tokens, 1, a);
                    lemma_cursor_remaining(after);
                    let b = lemma_expect_tokens(after, SpecToken::RightParen);
                    let closed = after.expect(SpecToken::RightParen).2;
                    lemma_skip_twice(tokens, 1 + a, b);
                    match inner.data {
                        Ok(declared) => {
                            let c = lemma_postfix_type_tokens(
                                closed,
                                Locatable { data: declared, location: inner.location },
                            );
                            lemma_skip_twice(tokens, 1 + a + b, c);
                            1 + a + b + c
                        },
                        Err(_) => 1 + a + b,
                    }
                },
                SpecToken::Star => {
                    let none = Qualifiers { c_const: false, volatile: false };
                    lemma_pointer_qualifiers_remaining(taken, none);
                    let a = lemma_pointer_qualifiers_tokens(taken, none);
                    let (qualifiers, qualified) = taken.pointer_qualifiers(none);
                    lemma_skip_twice(tokens, 1, a);
                    lemma_declarator_remaining(qualified, base, allow_abstract);
                    let b = lemma_declarator_tokens(qualified, base, allow_abstract);
                    let (inner, after) = qualified.declarator(base, allow_abstract);
                    lemma_skip_twice(tokens, 1 + a, b);
                    match inner.data {
                        Ok((name, ctype)) => {
                            let c = lemma_postfix_type_tokens(
                                after,
                                Locatable {
                                    data: (name, SpecType::Pointer(Box::new(ctype), qualifiers)),
                                    location: inner.location,
                                },
                            );
                            lemma_skip_twice(tokens, 1 + a + b, c);
                            1 + a + b + c
                        },
                        Err(_) => 1 + a + b,
                    }
                },
                SpecToken::Id(name) => {
                    let a = lemma_postfix_type_tokens(
                        taken,
                        Locatable { data: (Some(name), base), location: token.location },
                    );
                    lemma_skip_twice(tokens, 1, a);
                    1 + a
                },
                _ => {
                    if allow_abstract {
                        lemma_postfix_type_tokens(
                            peeked,
                            Locatable { data: (None, base), location: token.location },
                        )
                    } else {
                        0
                    }
                },
            }
        },
    }
}

/// Reading the suffixes of a declarator consumes tokens from the front of
/// those that are still to come; the lemma returns their number.
#[verifier::rlimit(40)]
pub proof fn lemma_postfix_type_tokens(s: State, prefix: Locatable<SpecDeclarator>) -> (consumed:
    int)
    ensures
        0 <= consumed <= s.tokens().len(),
        s.postfix_type(prefix).1.tokens() == s.tokens().skip(consumed),
    decreases s.remaining(), 0nat,
{
    lemma_cursor_remaining(s);
    lemma_cursor_tokens(s);
    let tokens = s.tokens();
    let peeked = s.peek();
    assert(tokens.skip(0) =~= tokens);
    match peeked.current {
        Some(token) => {
            lemma_cursor_remaining(peeked);
            let taken = peeked.consume();
            lemma_cursor_remaining(taken);
            if token.data == SpecToken::LeftBracket {
                let a = lemma_match_any_tokens(taken, seq![SpecToken::RightBracket]);
                let (close, after) = taken.match_next(SpecToken::RightBracket);
                lemma_skip_twice(tokens, 1, a);
                lemma_cursor_remaining(after);
                if close is Some {
                    let b = lemma_postfix_type_tokens(
                        after,
                        retyped(
                            prefix,
                            SpecType::Array(
                                Box::new(prefix.data.1),
                                SpecArrayType::Unbounded,
                            ),
                        ),
                    );
                    lemma_skip_twice(tokens, 1 + a, b);
                    1 + a + b
                } else {
                    let b = lemma_next_token_tokens(after);
                    let (size, sized) = after.parse_expr();
                    lemma_skip_twice(tokens, 1 + a, b);
                    lemma_cursor_remaining(sized);
                    let c = lemma_expect_tokens(sized, SpecToken::RightBracket);
                    let closed = sized.expect(SpecToken::RightBracket).2;
                    lemma_skip_twice(tokens, 1 + a + b, c);
                    let d = lemma_postfix_type_tokens(
                        closed,
                        retyped(
                            prefix,
                            SpecType::Array(
                                Box::new(prefix.data.1),
                                SpecArrayType::Fixed(size),
                            ),
                        ),
                    );
                    lemma_skip_twice(tokens, 1 + a + b + c, d);
                    1 + a + b + c + d
                }
            } else if token.data == SpecToken::LeftParen {
                lemma_parameter_type_list_remaining(peeked, prefix.data.1);
                let a = lemma_parameter_type_list_tokens(peeked, prefix.data.1);
                let (function, after) = peeked.parameter_type_list(prefix.data.1);
                let b = lemma_postfix_type_tokens(after, retyped(prefix, function));
                lemma_skip_twice(tokens, a, b);
                a + b
            } else {
                0
            }
        },
        None => 0,
    }
}

/// Reading a parameter list consumes tokens from the front of those that
/// are still to come; the lemma returns their number.
#[verifier::rlimit(40)]
pub proof fn lemma_parameter_type_list_tokens(s: State, return_type: SpecType) -> (consumed: int)
    ensures
        0 <= consumed <= s.tokens().len(),
        s.parameter_type_list(return_type).1.tokens() == s.tokens().skip(consumed),
    decreases s.expect(SpecToken::LeftParen).2.remaining(), 4nat,
{
    let tokens = s.tokens();
    let a = lemma_expect_tokens(s, SpecToken::LeftParen);
    let opened = s.expect(SpecToken::LeftParen).2;
    lemma_cursor_remaining(opened);
    let b = lemma_match_any_tokens(opened, seq![SpecToken::RightParen]);
    let (close, after) = opened.match_next(SpecToken::RightParen);
    lemma_skip_twice(tokens, a, b);
    if close is Some {
        lemma_parameter_list_empty(s, return_type);
        a + b
    } else {
        lemma_parameter_list_filled(s, return_type);
        let c = lemma_parameters_tokens(after, return_type, Seq::empty(), Seq::empty());
        lemma_skip_twice(tokens, a + b, c);
        a + b + c
    }
}

/// Reading parameters consumes tokens from the front of those that are
/// still to come; the lemma returns their number.
#[verifier::rlimit(40)]
pub proof fn lemma_parameters_tokens(
    s: State,
    return_type: SpecType,
    params: Seq<SpecSymbol>,
    errors: Seq<SpecOutcome>,
) -> (consumed: int)
    ensures
        0 <= consumed <= s.tokens().len(),
        s.parameters(return_type, params, errors).1.tokens() == s.tokens().skip(consumed),
    decreases s.remaining(), 3nat,
{
    let tokens = s.tokens();
    let a = lemma_match_any_tokens(s, seq![SpecToken::Ellipsis]);
    let (ellipsis, after) = s.match_next(SpecToken::Ellipsis);
    lemma_cursor_remaining(s);
    if ellipsis is Some {
        lemma_parameters_variadic(s, return_type, params, errors);
        let b = lemma_expect_tokens(after, SpecToken::RightParen);
        lemma_skip_twice(tokens, a, b);
        a + b
    } else {
        lemma_parameter_remaining(after, params, errors);
        let b = lemma_parameter_tokens(after, params, errors);
        let (more, found, named) = after.parameter(params, errors);
        lemma_skip_twice(tokens, a, b);
        lemma_cursor_remaining(named);
        let c = lemma_match_any_tokens(named, seq![SpecToken::Comma]);
        let (comma, continued) = named.match_next(SpecToken::Comma);
        lemma_skip_twice(tokens, a + b, c);
        if comma is Some {
            lemma_parameters_continue(s, return_type, params, errors);
            let d = lemma_parameters_tokens(continued, return_type, more, found);
            lemma_skip_twice(tokens, a + b + c, d);
            a + b + c + d
        } else {
            lemma_parameters_end(s, return_type, params, errors);
            let d = lemma_expect_tokens(continued, SpecToken::RightParen);
            lemma_skip_twice(tokens, a + b + c, d);
            a + b + c + d
        }
    }
}

/// Reading one parameter consumes tokens from the front of those that are
/// still to come; the lemma returns their number.
#[verifier::rlimit(40)]
pub proof fn lemma_parameter_tokens(
    s: State,
    params: Seq<SpecSymbol>,
    errors: Seq<SpecOutcome>,
) -> (consumed: int)
    ensures
        0 <= consumed <= s.tokens().len(),
        s.parameter(params, errors).2.tokens() == s.tokens().skip(consumed),
    decreases s.remaining(), 2nat,
{
    let tokens = s.tokens();
    let peeked = s.peek();
    lemma_cursor_tokens(s);
    assert(tokens.skip(0) =~= tokens);
    let a = if peeked.specifier() is Some {
        1int
    } else {
        0int
    };
    let (start, typed) = match peeked.specifier() {
        Some(keyword) => (keyword.data, peeked.consume()),
        None => (Keyword::Int, peeked),
    };
    let (specifiers, resolved) = typed.declaration_specifiers(start);
    let ctype = match specifiers {
        Ok(named) => named.2,
        Err(_) => SpecType::Int(true),
    };
    assert(s.parameter(params, errors).2 == resolved.declarator(ctype, true).1) by {
        reveal_with_fuel(State::parameter, 1);
    }
    assert(typed.remaining() <= s.remaining()) by {
        lemma_cursor_remaining(s);
    }
    let b = lemma_declaration_specifiers_tokens(typed, start);
    lemma_skip_twice(tokens, a, b);
    lemma_declaration_specifiers_remaining(typed, start);
    let c = lemma_declarator_tokens(resolved, ctype, true);
    lemma_skip_twice(tokens, a + b, c);
    a + b + c
}

} // verus!
